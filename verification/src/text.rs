//! Byte-offset helpers for UTF-8 text.

use vstd::prelude::*;
use vstd::string::StringSliceAdditionalSpecFns;
use vstd::string::StrSliceExecFns;
use vstd::utf8::{is_char_boundary, encode_utf8_valid_utf8};

verus! {

/// Clamps a byte offset to the text length and moves it back to the nearest
/// UTF-8 character boundary at or before it.
pub fn align_to_utf8_boundary(text: &str, idx: usize) -> (r: usize)
    ensures
        r <= text.spec_bytes().len(),
        r <= idx,
        is_char_boundary(text.spec_bytes(), r as int),
        forall|j: int|
            r < j <= idx && j <= text.spec_bytes().len() ==> !is_char_boundary(
                text.spec_bytes(),
                j,
            ),
{
    proof {
        encode_utf8_valid_utf8(text@);
    }
    let len = text.as_bytes().len();
    let mut i = idx;
    if i > len {
        i = len;
    }
    while i > 0 && !text.is_char_boundary(i)
        invariant
            len == text.spec_bytes().len(),
            i <= len,
            i <= idx,
            vstd::utf8::valid_utf8(text.spec_bytes()),
            forall|j: int|
                i < j <= idx && j <= len ==> !is_char_boundary(text.spec_bytes(), j),
        decreases i,
    {
        i = i - 1;
    }
    i
}

/// Whether two texts have the same characters.
pub fn text_eq(a: &str, b: &str) -> (r: bool)
    ensures
        r == (a@ == b@),
{
    let n = a.unicode_len();
    if n != b.unicode_len() {
        return false;
    }
    let mut i: usize = 0;
    while i < n
        invariant
            n == a@.len(),
            n == b@.len(),
            i <= n,
            forall|j: int| 0 <= j < i ==> a@[j] == b@[j],
        decreases n - i,
    {
        if a.get_char(i) != b.get_char(i) {
            return false;
        }
        i = i + 1;
    }
    assert(a@ =~= b@);
    true
}

} // verus!
