pub mod ast;
pub mod comments;
pub mod error;
pub mod events;
pub mod json;
pub mod json_reader;
pub mod laws;
pub mod lexer;
pub mod parser;
pub mod preflight;
pub mod receiver;
pub mod text;

pub use ast::{Comment, Document, Mapping, MappingEntry, Sequence, Value};
pub use error::SyonError;
pub use parser::{document_from_events, parse_document, ParseError};
pub use lexer::{find_key_colon, tokenize, Token};
pub use json::to_json;
