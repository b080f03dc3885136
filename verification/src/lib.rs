//! A CAN database (`.dbc`) model with a verified parser and writer.
pub mod decimal;
pub mod document;
pub mod editor;
pub mod lexer;
pub mod lines;
pub mod model;
pub mod numbers;
pub mod parser;
pub mod reattach;
pub mod readback;
pub mod reparse;
pub mod reread;
pub mod roundtrip;
pub mod symbols;
pub mod text;
pub mod writer;

pub use decimal::Number;
pub use model::{
    ByteOrder, Dbc, Message, Multiplexer, Node, Signal, ValueTable, ValueType, EXTENDED_FLAG,
};
pub use parser::{parse, parse_checked, ParseError};
