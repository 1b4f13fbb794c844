//! The lexical analyzer: text into lowercase alphanumeric tokens.

use vstd::prelude::*;
use crate::text::{chars_of, push_char};

verus! {

/// What `char::is_alphanumeric` answers for a character (Unicode
/// `Alphabetic` or `Numeric`).
pub uninterp spec fn unicode_alphanumeric(c: char) -> bool;

/// The characters `char::to_lowercase` yields for a character.
pub uninterp spec fn unicode_lowercase(c: char) -> Seq<char>;

/// What `char::is_whitespace` answers for a character (Unicode `White_Space`).
pub uninterp spec fn unicode_whitespace(c: char) -> bool;

/// Calls `char::is_alphanumeric`.
#[verifier::external_body]
pub fn is_alphanumeric(c: char) -> (r: bool)
    ensures
        r == unicode_alphanumeric(c),
{
    c.is_alphanumeric()
}

/// Calls `char::to_lowercase` and collects the characters it yields.
#[verifier::external_body]
pub fn lowercase(c: char) -> (r: Vec<char>)
    ensures
        r@ == unicode_lowercase(c),
{
    c.to_lowercase().collect()
}

/// Calls `char::is_whitespace`.
#[verifier::external_body]
pub fn is_whitespace(c: char) -> (r: bool)
    ensures
        r == unicode_whitespace(c),
{
    c.is_whitespace()
}

/// The lowercase form of a run of characters.
pub open spec fn lowercase_text(s: Seq<char>) -> Seq<char>
    decreases s.len(),
{
    if s.len() == 0 {
        Seq::empty()
    } else {
        lowercase_text(s.drop_last()) + unicode_lowercase(s.last())
    }
}

/// Scans `s` left to right: the tokens already closed, and the lowercased
/// alphanumeric run still open at the end of `s`.
pub open spec fn scan_tokens(s: Seq<char>) -> (Seq<Seq<char>>, Seq<char>)
    decreases s.len(),
{
    if s.len() == 0 {
        (Seq::empty(), Seq::empty())
    } else {
        let (closed, open) = scan_tokens(s.drop_last());
        let c = s.last();
        if unicode_alphanumeric(c) {
            (closed, open + unicode_lowercase(c))
        } else if open.len() > 0 {
            (closed.push(open), Seq::empty())
        } else {
            (closed, Seq::empty())
        }
    }
}

/// The tokens of `s`: its maximal runs of alphanumeric characters, each
/// lowercased, in order; separators appear in no token.
pub open spec fn tokens_of(s: Seq<char>) -> Seq<Seq<char>> {
    let (closed, open) = scan_tokens(s);
    if open.len() > 0 {
        closed.push(open)
    } else {
        closed
    }
}

/// Splits `text` into tokens: maximal runs of alphanumeric characters, each
/// lowercased. Every non-alphanumeric character is a separator.
pub fn tokenize(text: &str) -> (r: Vec<String>)
    ensures
        r@.map_values(|t: String| t@) == tokens_of(text@),
{
    let chars = chars_of(text);
    let mut tokens: Vec<String> = Vec::new();
    let mut current = String::new();
    let mut i: usize = 0;
    while i < chars.len()
        invariant
            i <= chars@.len(),
            chars@ == text@,
            tokens@.map_values(|t: String| t@) == scan_tokens(chars@.take(i as int)).0,
            current@ == scan_tokens(chars@.take(i as int)).1,
        decreases chars.len() - i,
    {
        let ch = chars[i];
        proof {
            assert(chars@.take(i + 1).drop_last() =~= chars@.take(i as int));
        }
        if is_alphanumeric(ch) {
            let lower = lowercase(ch);
            let ghost before = current@;
            let mut j: usize = 0;
            while j < lower.len()
                invariant
                    j <= lower@.len(),
                    current@ == before + lower@.take(j as int),
                decreases lower.len() - j,
            {
                push_char(&mut current, lower[j]);
                proof {
                    assert(lower@.take(j + 1) =~= lower@.take(j as int).push(lower@[j as int]));
                }
                j = j + 1;
            }
            proof {
                assert(lower@.take(lower@.len() as int) =~= lower@);
            }
        } else if !current.as_str().is_empty() {
            let done = current;
            let ghost before = tokens@.map_values(|t: String| t@);
            tokens.push(done);
            proof {
                assert(tokens@.map_values(|t: String| t@) =~= before.push(done@));
            }
            current = String::new();
        }
        i = i + 1;
    }
    if !current.as_str().is_empty() {
        let ghost before = tokens@.map_values(|t: String| t@);
        tokens.push(current);
        proof {
            assert(tokens@.map_values(|t: String| t@) =~= before.push(current@));
        }
    }
    proof {
        assert(chars@.take(chars@.len() as int) =~= chars@);
    }
    tokens
}

} // verus!
