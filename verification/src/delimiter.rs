//! The field delimiter argument.

use vstd::prelude::*;
use vstd::string::StringExecFns;

verus! {

/// Characters that collide with CSV syntax and cannot separate fields: the
/// quote, which the reader takes as a quoted-field toggle, and the two line
/// breaks, which end records.
pub open spec fn is_forbidden_delimiter(c: char) -> bool {
    c == '"' || c == '\r' || c == '\n'
}

/// Only the quote and the two line breaks are forbidden; every other
/// character can separate fields.
pub proof fn lemma_forbidden_delimiters(c: char)
    ensures
        is_forbidden_delimiter(c) <==> (c == '"' || c == '\r' || c == '\n'),
{
}

/// The message for text that is not exactly one character.
pub open spec fn single_character_message() -> Seq<char> {
    "delimiter must be a single character"@
}

/// The message for a delimiter that collides with CSV syntax.
pub open spec fn collision_message(c: char) -> Seq<char> {
    "'"@ + seq![c] + "' is not a valid delimiter: it collides with CSV syntax (quote or newline)"@
}

/// The text of `c`.
///
/// Trusted: `<char as ToString>::to_string` gives the string holding `c` alone.
#[verifier::external_body]
fn char_to_string(c: char) -> (r: String)
    ensures
        r@ == seq![c],
{
    c.to_string()
}

/// Accepts a delimiter argument that is exactly one character and does not
/// collide with CSV syntax; otherwise returns the message to report.
pub fn parse_delimiter(s: &str) -> (r: Result<char, String>)
    ensures
        r is Ok <==> (s@.len() == 1 && s@[0] != '"' && s@[0] != '\r' && s@[0] != '\n'),
        r matches Ok(c) ==> s@ == seq![c],
        s@.len() == 1 && !is_forbidden_delimiter(s@[0]) ==> r == Ok::<char, String>(s@[0]),
        s@.len() != 1 ==> (r matches Err(m) && m@ == single_character_message()),
        s@.len() == 1 && is_forbidden_delimiter(s@[0]) ==> (r matches Err(m) && m@
            == collision_message(s@[0])),
{
    let mut chars = s.chars();
    let first = chars.next();
    let second = chars.next();
    match first {
        None => Err("delimiter must be a single character".to_owned()),
        Some(ch) => {
            if second.is_some() {
                Err("delimiter must be a single character".to_owned())
            } else if ch == '"' || ch == '\r' || ch == '\n' {
                let message = "'".to_owned().concat(char_to_string(ch).as_str()).concat(
                    "' is not a valid delimiter: it collides with CSV syntax (quote or newline)",
                );
                Err(message)
            } else {
                Ok(ch)
            }
        },
    }
}

} // verus!
