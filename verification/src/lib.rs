//! A verified decoder for the WebAssembly binary format.
//!
//! [`parse`] decodes the magic number, version, section order, LEB128 integers, types,
//! imports, exports and code of a module into a [`Module`]. It is strict and total: any
//! byte string either decodes or produces a [`ParseError`] with the offset that broke.
//!
//! - [`grammar`] says what the bytes mean, and [`parser`] reads them so.
//! - [`module`] holds the decoded module, its function index space and its exports.
//! - [`leb`] reads LEB128 integers, and [`text`] writes numbers.
//! - [`writing`] and [`written_module`] say which bytes write which values, with every choice
//!   of a writer, and prove that just these are read. [`faults`] says what is wrong with all
//!   other bytes, and where.
//! - [`bounds`], [`locality`], [`skipping`], [`structure`] and [`encoding`] prove what holds
//!   of the format as a whole.

pub mod bounds;
pub mod encoding;
pub mod faults;
pub mod grammar;
pub mod leb;
pub mod locality;
pub mod module;
pub mod parser;
pub mod skipping;
pub mod structure;
pub mod text;
pub mod writing;
pub mod written_module;

pub use module::{Export, ExternKind, Func, FuncType, Import, Module, ValType};
pub use parser::{parse, ParseError, ParseErrorKind};
