use vstd::prelude::*;
use vstd::string::StringExecFns;

pub mod json;
pub mod lexer;
pub mod parser;
pub mod roundtrip;

pub use json::{JsonItem, JsonValue};

verus! {

/// What a document text parses to: the value at its start, whatever follows.
pub open spec fn parsed(s: Seq<char>) -> Option<JsonValue> {
    match parser::value_at(s, 0) {
        Some((v, _)) => Some(v),
        None => None,
    }
}

/// `r` is what a production that gives `w` at the start of `s` hands back:
/// the rest of the text and the value, or the failure.
pub open spec fn produced<'a>(r: Result<(&'a str, JsonItem), JsonParseError>, s: Seq<char>, w: Option<(JsonValue, nat)>) -> bool {
    match w {
        Some((v, n)) => r matches Ok((rest, x)) && x@ == v && rest@ == s.subrange(
            n as int,
            s.len() as int,
        ),
        None => r is Err,
    }
}

/// Parses the value at the start of `input` and hands back the text after it.
pub fn json_parser(input: &str) -> (r: Result<(&str, JsonItem), JsonParseError>)
    ensures
        produced(r, input@, parser::value_at(input@, 0)),
        r matches Ok((_, x)) ==> json::well_formed(x@),
{
    let chars = lexer::chars_of(input);
    let len = chars.len();
    parser::finish(input, len, parser::parse_value(&chars, len, 0))
}

/// Parses a document: the value at the start of `input`. Text after that value
/// is left unread.
pub fn json_parse(input: &str) -> (r: Result<JsonItem, JsonParseError>)
    ensures
        match parsed(input@) {
            Some(v) => r matches Ok(x) && x@ == v,
            None => r is Err,
        },
        r matches Ok(x) ==> json::well_formed(x@),
{
    match json_parser(input) {
        Ok((_, json)) => Ok(json),
        Err(_) => Err(JsonParseError {  }),
    }
}

/// The one failure of parsing: no value stands at the start of the text.
#[derive(Debug, PartialEq, Eq)]
pub struct JsonParseError {}

impl JsonParseError {
    /// The failure's fixed message.
    pub fn message(&self) -> (r: String)
        ensures
            r@ == "cannot pass this json"@,
    {
        String::from_str("cannot pass this json")
    }
}

} // verus!
