//! What the game needs of characters and strings beyond what `vstd` states.

use vstd::prelude::*;
use vstd::string::*;

verus! {

/// The lower-case form of a text, as `str::to_lowercase` gives it.
pub uninterp spec fn lowercase(s: Seq<char>) -> Seq<char>;

/// Whether a character is a letter, as `char::is_alphabetic` says.
pub uninterp spec fn alphabetic(c: char) -> bool;

/// Two words are the same to the game when their lower-case forms are equal.
pub open spec fn same_word(a: Seq<char>, b: Seq<char>) -> bool {
    lowercase(a) == lowercase(b)
}

/// `str::to_lowercase`: the lower-case form of `s`. It depends on `s` alone;
/// which form that is, is left to the standard library.
#[verifier::external_body]
pub(crate) fn to_lowercase(s: &str) -> (r: String)
    ensures
        r@ == lowercase(s@),
{
    s.to_lowercase()
}

/// `char::is_alphabetic`: whether `c` is a letter. It depends on `c` alone;
/// which characters are letters, is left to the standard library.
#[verifier::external_body]
pub(crate) fn is_alphabetic(c: char) -> (r: bool)
    ensures
        r == alphabetic(c),
{
    c.is_alphabetic()
}

/// `String::push`: `c` is appended to `s`.
#[verifier::external_body]
pub(crate) fn push_char(s: &mut String, c: char)
    ensures
        final(s)@ == old(s)@.push(c),
{
    s.push(c)
}

/// `String::pop`: the last character leaves `s` and is returned; an empty
/// `s` stays empty and gives `None`.
#[verifier::external_body]
pub(crate) fn pop_char(s: &mut String) -> (r: Option<char>)
    ensures
        old(s)@.len() == 0 ==> r is None && final(s)@ == old(s)@,
        old(s)@.len() > 0 ==> r == Some(old(s)@.last()) && final(s)@ == old(s)@.drop_last(),
{
    s.pop()
}

/// The lower-case form of each word, in the same order.
pub fn lowered(words: &Vec<String>) -> (keys: Vec<String>)
    ensures
        keys@.len() == words@.len(),
        forall|i: int| 0 <= i < words@.len() ==> (#[trigger] keys@[i])@ == lowercase(words@[i]@),
{
    let mut keys: Vec<String> = Vec::new();
    let mut i: usize = 0;
    while i < words.len()
        invariant
            i <= words@.len(),
            keys@.len() == i,
            forall|k: int| 0 <= k < i ==> (#[trigger] keys@[k])@ == lowercase(words@[k]@),
        decreases words@.len() - i,
    {
        keys.push(to_lowercase(words[i].as_str()));
        i += 1;
    }
    keys
}

} // verus!
