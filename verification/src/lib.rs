//! An order-preserving JSON parse tree.
//!
//! The library turns an in-memory text buffer into an ordered token
//! sequence (`lex`), and the token sequence into a typed tree rooted at an
//! [`parse::Object`] (`parse`).  Object members keep their source order,
//! integer and floating-point literals stay distinct, and empty and
//! non-empty objects or arrays are distinct tree shapes.

pub mod lex;
pub mod parse;
