//! Comparing strings and cutting a token out of a source text by byte offsets.

use vstd::prelude::*;
use vstd::string::StringSliceAdditionalSpecFns;
use vstd::utf8::{decode_utf8, encode_utf8, is_char_boundary};

verus! {

/// The text between two byte offsets of `source`, where both fall on
/// character boundaries and lie in order inside the text.
pub open spec fn text_between(source: Seq<char>, start: int, end: int) -> Option<Seq<char>> {
    let bytes = encode_utf8(source);
    if 0 <= start <= end <= bytes.len() && is_char_boundary(bytes, end) && is_char_boundary(
        bytes.subrange(0, end),
        start,
    ) {
        Some(decode_utf8(bytes.subrange(start, end)))
    } else {
        None
    }
}

/// Two texts have the same encoding exactly when they are the same text.
pub proof fn lemma_same_bytes_same_text(a: Seq<char>, b: Seq<char>)
    ensures
        (encode_utf8(a) == encode_utf8(b)) <==> (a == b),
{
    vstd::utf8::encode_utf8_decode_utf8(a);
    vstd::utf8::encode_utf8_decode_utf8(b);
}

/// Whether two string slices hold the same characters.
pub fn str_eq(a: &str, b: &str) -> (same: bool)
    ensures
        same == (a@ == b@),
{
    let x = a.as_bytes();
    let y = b.as_bytes();
    proof {
        lemma_same_bytes_same_text(a@, b@);
    }
    if x.len() != y.len() {
        return false;
    }
    let mut i: usize = 0;
    while i < x.len()
        invariant
            i <= x.len(),
            x.len() == y.len(),
            x@ == encode_utf8(a@),
            y@ == encode_utf8(b@),
            (encode_utf8(a@) == encode_utf8(b@)) <==> (a@ == b@),
            forall|j: int| 0 <= j < i ==> x@[j] == y@[j],
        decreases x.len() - i,
    {
        if x[i] != y[i] {
            return false;
        }
        i += 1;
    }
    assert(x@ =~= y@);
    true
}

/// Cuts the text between two byte offsets out of `source`.
pub fn slice_text(source: &str, start: usize, end: usize) -> (piece: Option<String>)
    ensures
        match piece {
            Some(s) => text_between(source@, start as int, end as int) == Some(s@),
            None => text_between(source@, start as int, end as int).is_none(),
        },
{
    let length = source.as_bytes().len();
    if start > end || end > length || !source.is_char_boundary(end) {
        return None;
    }
    let (head, _) = source.split_at(end);
    if !head.is_char_boundary(start) {
        return None;
    }
    let (_, middle) = head.split_at(start);
    let piece = middle.to_owned();
    proof {
        let bytes = encode_utf8(source@);
        assert(head.spec_bytes() == bytes.subrange(0, end as int));
        assert(middle.spec_bytes() =~= bytes.subrange(start as int, end as int));
        vstd::utf8::encode_utf8_decode_utf8(piece@);
    }
    Some(piece)
}

} // verus!
