//! The few calls this crate makes into other crates and into the parts of
//! std that vstd gives no specification for.  Each is a small wrapper whose
//! contract states only what the callee's source or documentation shows.

use vstd::prelude::*;

verus! {

/// Whether `char::is_alphanumeric` accepts the character.
pub uninterp spec fn unicode_alphanumeric(c: char) -> bool;

/// The Unicode `White_Space` class, which `char::is_whitespace` decides:
/// a fixed list of twenty-five characters.
pub open spec fn whitespace_char(c: char) -> bool {
    ||| c == ' '
    ||| c == '\t'
    ||| c == '\n'
    ||| c == '\r'
    ||| c == '\u{b}'
    ||| c == '\u{c}'
    ||| c == '\u{85}'
    ||| c == '\u{a0}'
    ||| c == '\u{1680}'
    ||| ('\u{2000}' <= c && c <= '\u{200a}')
    ||| c == '\u{2028}'
    ||| c == '\u{2029}'
    ||| c == '\u{202f}'
    ||| c == '\u{205f}'
    ||| c == '\u{3000}'
}

/// True for the ASCII letters and digits that generated identifiers use.
pub open spec fn ascii_alphanumeric(c: char) -> bool {
    ('a' <= c && c <= 'z') || ('A' <= c && c <= 'Z') || ('0' <= c && c <= '9')
}

/// Relies on `char::is_alphanumeric`: a Unicode character class, so the
/// result is a function of the character alone.  ASCII letters and digits
/// are in the class.
#[verifier::external_body]
pub fn is_alphanumeric_char(c: char) -> (r: bool)
    ensures
        r == unicode_alphanumeric(c),
        ascii_alphanumeric(c) ==> r,
{
    c.is_alphanumeric()
}

/// Whether the character is Unicode whitespace, as `str::trim` and
/// `char::is_whitespace` see it.
pub fn is_whitespace_char(c: char) -> (r: bool)
    ensures
        r == whitespace_char(c),
{
    c == ' ' || c == '\t' || c == '\n' || c == '\r' || c == '\u{b}' || c == '\u{c}'
        || c == '\u{85}' || c == '\u{a0}' || c == '\u{1680}' || (c >= '\u{2000}' && c
        <= '\u{200a}') || c == '\u{2028}' || c == '\u{2029}' || c == '\u{202f}' || c == '\u{205f}'
        || c == '\u{3000}'
}

/// Relies on `String::from_iter` over a `Vec<char>`: the resulting string
/// holds exactly the given characters in order.
#[verifier::external_body]
pub fn chars_to_string(v: &Vec<char>) -> (r: String)
    ensures
        r@ == v@,
{
    v.iter().collect()
}

/// Relies on `str::chars`, which yields the characters of the string in
/// order.
#[verifier::external_body]
pub fn string_chars(s: &str) -> (r: Vec<char>)
    ensures
        r@ == s@,
{
    s.chars().collect()
}

/// Relies on `rand::Rng::sample_iter` with `rand::distributions::Alphanumeric`,
/// which yields only ASCII letters and digits; those are in the Unicode
/// alphanumeric class.  The result depends on the thread-local generator,
/// so nothing relates two calls.
#[verifier::external_body]
pub fn fresh_id() -> (r: String)
    ensures
        r@.len() == 16,
        forall|i: int|
            0 <= i < r@.len() ==> ascii_alphanumeric(#[trigger] r@[i]) && unicode_alphanumeric(
                r@[i],
            ),
{
    rand::Rng::sample_iter(rand::thread_rng(), &rand::distributions::Alphanumeric)
        .take(16)
        .map(char::from)
        .collect()
}

/// What `bcrypt::verify` returns for a password and a stored hash: `Ok(true)`
/// when the password matches, `Ok(false)` when it does not, `Err` when the
/// stored hash cannot be parsed.  A function of the two arguments alone.
pub uninterp spec fn bcrypt_outcome(password: Seq<char>, hash: Seq<char>) -> Result<bool, ()>;

/// Relies on `bcrypt::verify`, which checks a password against a bcrypt hash
/// deterministically.
#[verifier::external_body]
pub fn bcrypt_verify(password: &str, hash: &str) -> (r: Result<bool, ()>)
    ensures
        r == bcrypt_outcome(password@, hash@),
{
    match bcrypt::verify(password, hash) {
        Ok(b) => Ok(b),
        Err(_) => Err(()),
    }
}

} // verus!
