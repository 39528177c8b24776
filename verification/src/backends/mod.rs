//! Machine-code emitters, one module per target.
pub mod arm;
pub mod decode;
pub mod x64;
pub mod x86;
