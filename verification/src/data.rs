//! The flavour of the language whose placeholders are written `${target}`.

use vstd::prelude::*;
use vstd::string::*;
use crate::builder::remove_wrapping_quotes;
use crate::error::Error;
use crate::parser::{document_value, parse_with};
use crate::text::{replace, replace_all};
use crate::value::Value;

verus! {

/// The sigil of the placeholders that [`Data::parse`] reads: `${target}`.
pub const DOLLAR: char = '$';

/// The reader of documents whose placeholders are written `${target}`.
pub struct Data {}

impl Data {
    /// Reads a document whose placeholders are written `${target}`.
    pub fn parse(input: &str) -> (r: Result<Value, Error>)
        ensures
            match document_value(input@, DOLLAR) {
                Ok(json) => r matches Ok(v) && v@ == json,
                Err(fault) => r matches Err(e) && e@ == fault,
            },
            r matches Ok(v) ==> v@.wf(),
    {
        parse_with(input, DOLLAR)
    }

    /// Takes the quotes off a quoted text: where `string` has two characters
    /// at least and starts with a double or a single quote, its first and its
    /// last character are removed. Quotes inside the text stay as they are
    /// written, and any other text is left unchanged.
    pub fn replace_quote_symbol(string: &mut String)
        ensures
            final(string)@ == if old(string)@.len() >= 2 && (old(string)@[0] == '"' || old(
                string,
            )@[0] == '\'') {
                old(string)@.subrange(1, old(string)@.len() - 1)
            } else {
                old(string)@
            },
    {
        if string.as_str().unicode_len() >= 2 {
            let first = string.as_str().get_char(0);
            if first == '"' || first == '\'' {
                remove_wrapping_quotes(string);
            }
        }
    }

    /// Replaces each pair of backslashes in `string` by one backslash.
    pub fn replace_double_escape(string: &mut String)
        ensures
            final(string)@ == replace_all(old(string)@, seq!['\\', '\\'], seq!['\\']),
    {
        proof {
            reveal_strlit("\\\\");
            reveal_strlit("\\");
            assert("\\\\"@ =~= seq!['\\', '\\']);
            assert("\\"@ =~= seq!['\\']);
        }
        *string = replace(string.as_str(), "\\\\", "\\");
    }
}

} // verus!
