//! Short codes: the alphanumeric alphabet, code validity, and random
//! generation of fresh candidate codes.

use rand::Rng;
use vstd::prelude::*;

verus! {

/// Length of every short code, in characters.
pub const CODE_LEN: usize = 5;

/// A character of the 62-symbol code alphabet: ASCII letters and digits,
/// case-sensitive.
pub open spec fn is_code_char(c: char) -> bool {
    ('a' <= c && c <= 'z') || ('A' <= c && c <= 'Z') || ('0' <= c && c <= '9')
}

/// A well-formed short code: exactly `CODE_LEN` characters, all drawn from
/// the alphanumeric alphabet.
pub open spec fn valid_code(s: Seq<char>) -> bool {
    &&& s.len() == CODE_LEN
    &&& forall|i: int| 0 <= i < s.len() ==> is_code_char(#[trigger] s[i])
}

/// Relies on rand's `Alphanumeric` distribution: `Distribution<u8>::sample`
/// draws one byte from the 62-byte charset `A-Z a-z 0-9` and nothing else.
#[verifier::external_body]
fn sample_code_char() -> (c: char)
    ensures
        is_code_char(c),
{
    char::from(rand::thread_rng().sample(rand::distributions::Alphanumeric))
}

/// Relies on `String::push`: appends the given character to the end of the
/// string.
#[verifier::external_body]
fn push_char(s: &mut String, c: char)
    ensures
        final(s)@ == old(s)@.push(c),
{
    s.push(c)
}

/// Draw one random candidate code: `CODE_LEN` independent uniform draws from
/// the alphanumeric alphabet.
pub fn make_short_name() -> (s: String)
    ensures
        valid_code(s@),
{
    let mut s = String::new();
    let mut i: usize = 0;
    while i < CODE_LEN
        invariant
            i <= CODE_LEN,
            s@.len() == i,
            forall|j: int| 0 <= j < s@.len() ==> is_code_char(#[trigger] s@[j]),
        decreases CODE_LEN - i,
    {
        let c = sample_code_char();
        push_char(&mut s, c);
        i = i + 1;
    }
    s
}

} // verus!
