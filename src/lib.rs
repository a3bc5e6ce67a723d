//! Fully-qualified names: dotted paths of validated identifiers such as
//! `package.module1.module2.Type`, with a recognizer for name tokens in text.

mod fqn;
mod grammar;
mod name;

pub use fqn::{
    first_invalid, join_dotted, law_round_trip, law_text_round_trip, split_dotted, valid_pieces, Fqn,
};
pub use grammar::{fqn_prefix_len, is_name_path, path_char_ok, token_at, underscore_end};
pub use name::{is_ident_char, is_letter, is_valid_name, Name, NameError};
