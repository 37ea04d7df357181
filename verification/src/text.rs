//! Text helpers: UTF-8 validation, ASCII case mapping and whitespace
//! splitting as the standard library performs them, and byte-exact equality.

use vstd::prelude::*;
use vstd::utf8::*;
use vstd::string::*;

verus! {

broadcast use vstd::utf8::encode_utf8_decode_utf8, vstd::utf8::encode_utf8_valid_utf8;

/// `c` has the Unicode `White_Space` property, the test `char::is_whitespace` makes.
pub open spec fn is_unicode_whitespace(c: char) -> bool {
    ||| '\u{9}' <= c <= '\u{d}'
    ||| c == ' '
    ||| c == '\u{85}'
    ||| c == '\u{a0}'
    ||| c == '\u{1680}'
    ||| '\u{2000}' <= c <= '\u{200a}'
    ||| c == '\u{2028}'
    ||| c == '\u{2029}'
    ||| c == '\u{202f}'
    ||| c == '\u{205f}'
    ||| c == '\u{3000}'
}

/// The maximal runs of non-whitespace characters of `cs`, left to right.
pub open spec fn words(cs: Seq<char>) -> Seq<Seq<char>>
    decreases cs.len(),
{
    if cs.len() == 0 {
        seq![]
    } else {
        let before = words(cs.drop_last());
        let c = cs.last();
        if is_unicode_whitespace(c) {
            before
        } else if cs.len() >= 2 && !is_unicode_whitespace(cs[cs.len() - 2]) {
            before.drop_last().push(before.last().push(c))
        } else {
            before.push(seq![c])
        }
    }
}

/// The ASCII upper-case form of a character; other characters are unchanged.
pub open spec fn ascii_upper_char(c: char) -> char {
    if 'a' <= c <= 'z' {
        ((c as u32) - 32) as char
    } else {
        c
    }
}

/// The ASCII upper-case form of a string.
pub open spec fn ascii_upper(cs: Seq<char>) -> Seq<char> {
    Seq::new(cs.len(), |i: int| ascii_upper_char(cs[i]))
}

/// Calls `std::str::from_utf8`. Claimed: it succeeds exactly when the bytes
/// are well-formed UTF-8, and then the text is what the bytes decode to.
#[verifier::external_body]
pub(crate) fn utf8_text(b: &[u8]) -> (r: Option<&str>)
    ensures
        r is Some <==> valid_utf8(b@),
        r matches Some(s) ==> s@ == decode_utf8(b@),
{
    std::str::from_utf8(b).ok()
}

/// Calls `str::to_ascii_uppercase`. Claimed: ASCII letters `a`..`z` become
/// `A`..`Z` and every other character is kept.
#[verifier::external_body]
pub(crate) fn to_ascii_uppercase(s: &str) -> (r: String)
    ensures
        r@ == ascii_upper(s@),
{
    s.to_ascii_uppercase()
}

/// Calls `str::split_whitespace`. Claimed: the parts are the maximal runs of
/// characters without the `White_Space` property, in order.
#[verifier::external_body]
pub(crate) fn split_whitespace(s: &str) -> (r: Vec<&str>)
    ensures
        r@.len() == words(s@).len(),
        forall|i: int| 0 <= i < r@.len() ==> (#[trigger] r@[i])@ == words(s@)[i],
{
    s.split_whitespace().collect()
}

/// Byte-wise equality of two slices.
pub fn bytes_eq(a: &[u8], b: &[u8]) -> (r: bool)
    ensures
        r == (a@ == b@),
{
    if a.len() != b.len() {
        return false;
    }
    let mut i: usize = 0;
    while i < a.len()
        invariant
            a@.len() == b@.len(),
            i <= a@.len(),
            forall|j: int| 0 <= j < i ==> a@[j] == b@[j],
        decreases a@.len() - i,
    {
        if a[i] != b[i] {
            return false;
        }
        i = i + 1;
    }
    assert(a@ =~= b@);
    true
}

/// Two strings are equal exactly when their UTF-8 encodings are.
pub proof fn lemma_encode_injective(x: Seq<char>, y: Seq<char>)
    ensures
        (encode_utf8(x) == encode_utf8(y)) == (x == y),
{
    if encode_utf8(x) == encode_utf8(y) {
        assert(decode_utf8(encode_utf8(x)) == x);
        assert(decode_utf8(encode_utf8(y)) == y);
    }
}

/// Equality of two strings.
pub fn str_eq(a: &str, b: &str) -> (r: bool)
    ensures
        r == (a@ == b@),
{
    let r = bytes_eq(a.as_bytes(), b.as_bytes());
    proof {
        lemma_encode_injective(a@, b@);
    }
    r
}

/// An owned copy of a string slice.
pub fn owned(s: &str) -> (r: String)
    ensures
        r@ == s@,
{
    s.to_owned()
}

} // verus!
