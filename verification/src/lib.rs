//! A preprocessor that turns a C-like language with classes into plain C.
//!
//! The source may declare classes (`class Name +Parent { fields }`), define
//! their methods (`Type Name::method(params) { body }`), call methods through
//! a receiver (`obj->method(args)`) and construct records (`new Name(args)`).
//! [`Parser`] finds these constructs by searching the text, reads their parts
//! with scans that end at a given character, and puts fixed templates in
//! their place. The description of what comes out, and the laws proved of
//! it, are stated over sequences of characters.

pub mod calls;
pub mod classes;
pub mod constructors;
pub mod edits;
pub mod issues;
pub mod laws;
pub mod methods;
pub mod parser;
pub mod scanner;
pub mod shapes;
pub mod symbols;
pub mod templates;
pub mod text;

pub use parser::Parser;
