//! The searchable text body associated with a vector.

use vstd::prelude::*;
use crate::analyzer::{is_whitespace, unicode_whitespace};
use crate::errors::LexicalError;
use crate::text::chars_of;

verus! {

/// Whether a text is empty or made only of whitespace, which is what
/// `str::trim` removes entirely.
pub open spec fn is_blank(s: Seq<char>) -> bool {
    forall|i: int| 0 <= i < s.len() ==> #[trigger] unicode_whitespace(s[i])
}

/// The text indexed for lexical retrieval. Never blank.
#[derive(Clone, Debug, PartialEq, Eq)]
pub struct Document(String);

impl View for Document {
    type V = Seq<char>;

    closed spec fn view(&self) -> Seq<char> {
        self.0@
    }
}

/// Returns whether `text` is empty or holds only whitespace.
pub fn text_is_blank(text: &str) -> (r: bool)
    ensures
        r == is_blank(text@),
{
    let chars = chars_of(text);
    let mut i: usize = 0;
    while i < chars.len()
        invariant
            i <= chars@.len(),
            chars@ == text@,
            forall|j: int| 0 <= j < i ==> #[trigger] unicode_whitespace(chars@[j]),
        decreases chars.len() - i,
    {
        if !is_whitespace(chars[i]) {
            return false;
        }
        i = i + 1;
    }
    true
}

impl Document {
    /// Builds a document, rejecting text that is empty or only whitespace.
    pub fn new(text: &str) -> (r: Result<Document, LexicalError>)
        ensures
            is_blank(text@) ==> r == Err::<Document, LexicalError>(LexicalError::EmptyDocument),
            !is_blank(text@) ==> (r matches Ok(d) && d@ == text@),
    {
        if text_is_blank(text) {
            return Err(LexicalError::EmptyDocument);
        }
        Ok(Document(String::from_str(text)))
    }

    /// The raw document text.
    pub fn as_str(&self) -> (r: &str)
        ensures
            r@ == self@,
    {
        self.0.as_str()
    }
}

} // verus!
