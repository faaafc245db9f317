use json_gen::codegen::{
    write_json, write_number, write_string, write_string_complex, DumpGenerator, PrettyGenerator,
    PrettyWriterGenerator, WriterGenerator,
};
use json_gen::number::Number;
use json_gen::object::Object;
use json_gen::value::JsonValue;

fn num(n: u64) -> JsonValue {
    JsonValue::Number(Number::from_parts(true, n, 0))
}

fn text(s: &str) -> JsonValue {
    JsonValue::String(s.to_string())
}

fn dump_string(s: &str) -> String {
    let mut generator = DumpGenerator::new();
    write_string(&mut generator, s).unwrap();
    generator.consume()
}

fn dump_number(n: Number) -> String {
    let mut generator = DumpGenerator::new();
    write_number(&mut generator, &n).unwrap();
    generator.consume()
}

#[test]
fn should_not_panic_on_bad_bytes() {
    let all: Vec<u8> = vec![255,255,255,255,255,255,255,255,255,0,217,216,255,255,255,255,255,255,255,255,249,217,255,255,144,255,255,1,255,255,255,255,255,255,255,255,255,255,255,255,255,255,255,255,255,255,255,255,255,255,255,255,0,255,0,217,23,23,23,23,23,23,23,23,23,23,23,0,0,22,0,22,0,1,0,0,0,0,0,0,21,27,22,0,1,0,0,0,0,0,0,22,14,0,210,38,221,0,0,0,0,14,0,16,0,4,16,29,29,29,29,29,29,29,29,29,29,0,0,0,5,14,0,0,0,29,29,29,29,29,29,29,29,29,29,29,29,29,0,0,29,29,29,29,144,0,0,8,0,0,0,0,250,190,255,0,0,0,0,0,0,0,0,22,0,1,0,0,0,0,14,0,0,0,0,14,22,14,0,14,0,14,14,14,0,0,0,27,27,27,27,27,22,0,14,0,0,0,0,0,0,0,14,0,0,0,5,14,0,0,0,29,29,29,29,29,29,29,29,29,29,29,29,29,29,29,29,29,29,29,29,12,0,22,14,14,14,14,0,0,0,0,0,0,14,0,0,0,1,0,0,0,0,0,0,0,0,0,0,0,0,0,0,0,0,14,14,0,0,0,0,88,88,4,0,0,0,0,0,0,0,0,0,0,0,0,0,0,0,14,0,0,0,0,0,14,0,0,0,0,0,0,0,14,0,0,14,14,0,0,0,0,0,0,0,0,0,0,0,21,27,0,14,0,21,27,22,25,1,0,0,0,0,0,0,0,0,0,0,22,0,0,0,0,0,0,0,0,5,14,0,0,0,0,0,0,5,14,0,0,0,0,14,14,255,14,0,0,0,0,0,0,0,0,0,0,0,0,0,0,0,0,0,0,0,0,0,0,0,0,0,0,0,0,0,0,0,0,253,0,0,0,0,0,0,0,0,0,0,0,0,0,0,0,0,42,255,255,255,255,255,255,255,255,255,255,255,8,145];
    let input = String::from_utf8_lossy(&all);

    let mut generator = DumpGenerator::new();
    write_string(&mut generator, &input).unwrap();
}

#[test]
fn should_panic_on_bad_bytes() {
    let all = "`\u{fffd}^S^R\u{fffd}^]^?^@^@E BOONE TRL ";
    let mut generator = DumpGenerator::new();
    write_string_complex(&mut generator, all, 3).unwrap();
}

#[test]
fn should_not_panic_on_bad_bytes_2() {
    let all: Vec<u8> = vec![0, 12, 128, 88, 64, 99];
    let input = String::from_utf8_lossy(&all);

    let mut generator = DumpGenerator::new();
    write_string(&mut generator, &input).unwrap();
}

#[test]
fn should_not_panic_on_bad_bytes_3() {
    let data = b"\x48\x48\x48\x57\x03\xE8\x48\x48\xE8\x03\x8F\x48\x29\x48\x48";
    let s = String::from_utf8_lossy(data);
    let mut generator = DumpGenerator::new();
    write_string(&mut generator, &s).unwrap();
}

#[test]
fn should_encode_special_characters() {
    let val = "🤓🥳,🤗,😧,😧";
    let mut object = Object::new();
    object.insert("foo", text(val));
    let data = JsonValue::Object(object);

    let encoded = data.dump();
    assert_eq!(encoded, "{\"foo\":\"🤓🥳,🤗,😧,😧\"}");
}

#[test]
fn should_encode_special_characters_newline() {
    let val = "🤓🥳,🤗,😧,😧 \n foo 🤓🥳,🤗,😧,😧";
    let mut object = Object::new();
    object.insert("foo", text(val));
    let data = JsonValue::Object(object);

    let encoded = data.dump();
    assert_eq!(encoded, "{\"foo\":\"🤓🥳,🤗,😧,😧 \\n foo 🤓🥳,🤗,😧,😧\"}", "json strings eq");
}

#[test]
fn empty_containers_dump_without_whitespace() {
    assert_eq!(Object::new().dump(), "{}");
    assert_eq!(JsonValue::new_object().dump(), "{}");
    assert_eq!(JsonValue::new_array().dump(), "[]");
    assert_eq!(JsonValue::new_array().pretty(4), "[]");
    assert_eq!(Object::new().pretty(2), "{}");
}

#[test]
fn pretty_nested_array_in_object() {
    let mut object = Object::new();
    object.insert("a", JsonValue::Array(vec![num(1), num(2)]));
    assert_eq!(object.pretty(2), "{\n  \"a\": [\n    1,\n    2\n  ]\n}");
}

#[test]
fn dump_single_string_entry() {
    let mut object = Object::new();
    object.insert("foo", text("bar"));
    assert_eq!(object.dump(), "{\"foo\":\"bar\"}");
}

#[test]
fn quote_and_line_feed_are_escaped() {
    assert_eq!(dump_string("a\"\nb"), "\"a\\\"\\nb\"");
}

#[test]
fn control_byte_uses_unicode_escape() {
    assert_eq!(dump_string("\u{1}"), "\"\\u0001\"");
    assert_eq!(dump_string("x\u{1f}y"), "\"x\\u001fy\"");
}

#[test]
fn named_escapes() {
    assert_eq!(dump_string("\\\u{8}\t\u{c}\r"), "\"\\\\\\b\\t\\f\\r\"");
    assert_eq!(dump_string("plain"), "\"plain\"");
    assert_eq!(dump_string(""), "\"\"");
}

#[test]
fn nan_writes_null() {
    assert_eq!(dump_number(Number::nan()), "null");
    assert_eq!(JsonValue::Number(Number::nan()).dump(), "null");
}

#[test]
fn number_text_forms() {
    assert_eq!(dump_number(Number::from_parts(true, 0, 0)), "0");
    assert_eq!(dump_number(Number::from_parts(true, 42, 0)), "42");
    assert_eq!(dump_number(Number::from_parts(false, 7, 0)), "-7");
    assert_eq!(dump_number(Number::from_parts(true, 314, -2)), "3.14");
    assert_eq!(dump_number(Number::from_parts(true, 5, -3)), "5e-3");
    assert_eq!(dump_number(Number::from_parts(false, 25, 3)), "-25e3");
    assert_eq!(dump_number(Number::from_parts(true, 18446744073709551615, 0)), "18446744073709551615");
}

#[test]
fn number_text_is_shortest() {
    assert_eq!(dump_number(Number::from_parts(true, 100, -2)), "1");
    assert_eq!(dump_number(Number::from_parts(true, 1500, -2)), "15");
    assert_eq!(dump_number(Number::from_parts(true, 250, -2)), "2.5");
    assert_eq!(dump_number(Number::from_parts(true, 0, 5)), "0");
    assert_eq!(dump_number(Number::from_parts(true, 0, -5)), "0");
    assert_eq!(dump_number(Number::from_parts(true, 5, -1)), "0.5");
    assert_eq!(dump_number(Number::from_parts(true, 15, -3)), "0.015");
    assert_eq!(dump_number(Number::from_parts(true, 1, -7)), "1e-7");
    assert_eq!(dump_number(Number::from_parts(true, 12, 1)), "120");
    assert_eq!(dump_number(Number::from_parts(true, 100, 0)), "100");
    assert_eq!(dump_number(Number::from_parts(true, 1000, 0)), "1e3");
    assert_eq!(dump_number(Number::from_parts(true, 10, 3)), "1e4");
}

#[test]
fn keywords_and_nesting() {
    let mut inner = Object::new();
    inner.insert("t", JsonValue::Boolean(true));
    inner.insert("n", JsonValue::Null);
    let value = JsonValue::Array(vec![JsonValue::Object(inner), JsonValue::Boolean(false), JsonValue::new_array()]);
    assert_eq!(value.dump(), "[{\"t\":true,\"n\":null},false,[]]");
    assert_eq!(value.pretty(1), "[\n {\n  \"t\": true,\n  \"n\": null\n },\n false,\n []\n]");
}

#[test]
fn writer_generators_fill_the_sink() {
    let mut object = Object::new();
    object.insert("a", JsonValue::Array(vec![num(1), num(2)]));
    let value = JsonValue::Object(object);

    let mut out: Vec<u8> = b"x".to_vec();
    {
        let mut generator = WriterGenerator::new(&mut out);
        write_json(&mut generator, &value).unwrap();
    }
    assert_eq!(out, b"x{\"a\":[1,2]}".to_vec());

    let mut pretty: Vec<u8> = Vec::new();
    {
        let mut generator = PrettyWriterGenerator::new(&mut pretty, 2);
        write_json(&mut generator, &value).unwrap();
    }
    assert_eq!(pretty, b"{\n  \"a\": [\n    1,\n    2\n  ]\n}".to_vec());
}

#[test]
fn pretty_generator_with_zero_spaces() {
    let mut generator = PrettyGenerator::new(0);
    write_json(&mut generator, &JsonValue::Array(vec![num(1)])).unwrap();
    assert_eq!(generator.consume(), "[\n1\n]");
}
