//! A small JSON reader: a recursive-descent parser from characters to a
//! tagged value tree, together with the grammar it implements, stated as
//! mathematical functions on sequences of characters, and the laws that
//! hold of that grammar.

pub mod error;
pub mod value;
pub mod text;
pub mod grammar;
pub mod parser;
pub mod laws;

pub use crate::error::{ErrorKind, ParseJSONError};
pub use crate::parser::{
    assemble_num, insert_entry, is_digit_char, is_whitespace, parse, parse_chars, parse_json,
    parse_json_trim, parse_list, parse_map, parse_map_entry, parse_num, parse_string,
    scan_digits, trim_start, unescape_char,
};
pub use crate::text::chars_of;
pub use crate::value::JSONValue;
