//! Interned-string handles used as registry keys and wire identifiers.

use vstd::prelude::*;

verus! {

/// An immutable name, compared by value. It is the key of the unit registry
/// and the identifier carried over the wire.
pub struct Name {
    text: String,
}

impl View for Name {
    type V = Seq<char>;

    closed spec fn view(&self) -> Seq<char> {
        self.text@
    }
}

impl Name {
    /// Builds a name from any string slice.
    pub fn new(s: &str) -> (r: Self)
        ensures
            r@ == s@,
    {
        Name { text: s.to_owned() }
    }

    /// Returns the underlying text as an owned string.
    pub fn to_string(&self) -> (r: String)
        ensures
            r@ == self@,
    {
        self.text.clone()
    }

    /// Returns the underlying text without copying it.
    pub fn as_str(&self) -> (r: &str)
        ensures
            r@ == self@,
    {
        self.text.as_str()
    }

    /// Value equality on the underlying text.
    pub fn same(&self, other: &Name) -> (r: bool)
        ensures
            r == (self@ == other@),
    {
        self.text == other.text
    }

    /// Value equality against a plain string slice.
    pub fn same_str(&self, other: &str) -> (r: bool)
        ensures
            r == (self@ == other@),
    {
        str_eq(self.text.as_str(), other)
    }
}

impl Clone for Name {
    fn clone(&self) -> (r: Self)
        ensures
            r@ == self@,
    {
        Name { text: self.text.clone() }
    }
}

/// Character-by-character equality of two string slices.
pub fn str_eq(a: &str, b: &str) -> (r: bool)
    ensures
        r == (a@ == b@),
{
    let a_len = a.unicode_len();
    let b_len = b.unicode_len();
    if a_len != b_len {
        assert(a@.len() != b@.len());
        return false;
    }
    let mut i: usize = 0;
    while i < a_len
        invariant
            i <= a_len,
            a_len == a@.len(),
            b_len == b@.len(),
            a_len == b_len,
            forall|j: int| 0 <= j < i ==> a@[j] == b@[j],
        decreases a_len - i,
    {
        if a.get_char(i) != b.get_char(i) {
            return false;
        }
        i += 1;
    }
    proof {
        assert(a@ =~= b@);
    }
    true
}

} // verus!
