//! Rendering of JSON value trees as compact or indented text, and the
//! insertion-ordered map that holds JSON objects.
pub mod codegen;
pub mod escape;
pub mod number;
pub mod object;
pub mod prefix;
pub mod validity;
pub mod value;
