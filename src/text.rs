//! Fixed-width, null-terminated text fields.

use vstd::prelude::*;
use crate::wire::{take, DecodeError};

verus! {

/// Width in bytes of every text field of the header.
pub const FIELD_LEN: usize = 260;

/// What `String::from_utf8_lossy` makes of a byte sequence.
pub uninterp spec fn lossy_text(b: Seq<u8>) -> Seq<char>;

/// Relies on `String::from_utf8_lossy`: decodes UTF-8, replacing each invalid
/// sequence by U+FFFD; the result depends on the bytes alone, and no bytes
/// give the empty string.
#[verifier::external_body]
fn from_utf8_lossy(b: &[u8]) -> (r: String)
    ensures
        r@ == lossy_text(b@),
        b@.len() == 0 ==> r@.len() == 0,
{
    String::from_utf8_lossy(b).into_owned()
}

/// `k` is where the text of `region` ends: no null byte comes before it, and
/// it is either a null byte or the end of the region.
pub open spec fn is_text_end(region: Seq<u8>, k: int) -> bool {
    &&& 0 <= k <= region.len()
    &&& forall|j: int| 0 <= j < k ==> #[trigger] region[j] != 0
    &&& k < region.len() ==> region[k] == 0
}

/// Position of the first null byte of `region`, or its length if it has none.
pub open spec fn text_end(region: Seq<u8>) -> int {
    choose|k: int| is_text_end(region, k)
}

/// The text that a field region holds: the bytes before its first null byte,
/// decoded permissively.
pub open spec fn field_text(region: Seq<u8>) -> Seq<char> {
    lossy_text(region.take(text_end(region)))
}

/// A region has exactly one end of text, and `text_end` finds it.
pub proof fn lemma_text_end(region: Seq<u8>, k: int)
    requires
        is_text_end(region, k),
    ensures
        text_end(region) == k,
{
    let e = text_end(region);
    assert(is_text_end(region, e));
    if e < k {
        assert(region[e] != 0);
    } else if k < e {
        assert(region[k] != 0);
    }
}

/// Finds where the text of `region` ends.
fn find_text_end(region: &[u8]) -> (k: usize)
    ensures
        is_text_end(region@, k as int),
        k as int == text_end(region@),
{
    let mut i: usize = 0;
    while i < region.len()
        invariant
            i <= region@.len(),
            forall|j: int| 0 <= j < i ==> #[trigger] region@[j] != 0,
        ensures
            i <= region@.len(),
            forall|j: int| 0 <= j < i ==> #[trigger] region@[j] != 0,
            i < region@.len() ==> region@[i as int] == 0,
        decreases region@.len() - i,
    {
        if region[i] == 0 {
            break;
        }
        i = i + 1;
    }
    proof {
        lemma_text_end(region@, i as int);
    }
    i
}

/// Consumes one text field: exactly `FIELD_LEN` bytes, whatever its length
/// of text, which ends at the first null byte or at the end of the field.
pub fn pathstr(input: &[u8]) -> (r: Result<(&[u8], String), DecodeError>)
    ensures
        match r {
            Ok((rest, s)) => input@.len() >= FIELD_LEN && s@ == field_text(
                input@.take(FIELD_LEN as int),
            ) && rest@ == input@.skip(FIELD_LEN as int),
            Err(e) => input@.len() < FIELD_LEN && e == DecodeError::Incomplete,
        },
{
    let (rest, region) = take(input, FIELD_LEN)?;
    let k = find_text_end(region);
    let (text, _) = region.split_at(k);
    Ok((rest, from_utf8_lossy(text)))
}

} // verus!
