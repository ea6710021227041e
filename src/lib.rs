pub mod binop;
pub mod bytecode;
pub mod error;
pub mod theorems;
pub mod value;
pub mod vm;

pub use binop::BinOp;
pub use error::VmError;
pub use value::Value;
