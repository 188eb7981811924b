//! Loading of LLVM optimization remarks emitted by rustc, indexing them by
//! source file and computing the contents of a static report.
pub mod callback;
pub mod cargo;
pub mod demangle;
pub mod index;
pub mod order;
pub mod parse;
pub mod remark;
pub mod render;
pub mod text;
pub mod yaml;

pub use remark::{RustcSourceRoot, DEFAULT_KIND_FILTER};
