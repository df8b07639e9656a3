//! Fixed-width primitives of the recording format: little-endian integers,
//! byte runs of a given length, and the leading signature.

use vstd::prelude::*;

verus! {

/// Why a buffer could not be decoded.
#[derive(Debug, Clone, Copy, PartialEq, Eq, Structural)]
pub enum DecodeError {
    /// The buffer ends before the current field or record does; the same
    /// buffer with more bytes appended may still decode.
    Incomplete,
    /// The buffer does not start with the recording signature.
    MalformedFraming,
}

/// Number of bytes of the leading signature.
pub const MAGIC_LEN: usize = 8;

/// The leading signature: `"HL2DEMO"` followed by a null byte.
pub open spec fn magic() -> Seq<u8> {
    seq![72u8, 76u8, 50u8, 68u8, 69u8, 77u8, 79u8, 0u8]
}

/// The bytes that are present agree with the signature: either the buffer
/// starts with it, or the buffer is shorter and is a prefix of it.
pub open spec fn magic_consistent(s: Seq<u8>) -> bool {
    forall|i: int| 0 <= i < s.len() && i < MAGIC_LEN ==> s[i] == #[trigger] magic()[i]
}

/// The error for a buffer whose signature check does not pass.
pub open spec fn framing_error(s: Seq<u8>) -> DecodeError {
    if magic_consistent(s) {
        DecodeError::Incomplete
    } else {
        DecodeError::MalformedFraming
    }
}

/// The unsigned 32-bit integer stored little-endian at `s[i..i + 4]`.
pub open spec fn le_u32_at(s: Seq<u8>, i: int) -> u32
    recommends
        0 <= i && i + 4 <= s.len(),
{
    (s[i] as int + s[i + 1] as int * 256 + s[i + 2] as int * 65536 + s[i + 3] as int
        * 16777216) as u32
}

/// Reads a little-endian `u32` from the front of `input`.
pub fn le_u32(input: &[u8]) -> (r: Result<(&[u8], u32), DecodeError>)
    ensures
        match r {
            Ok((rest, v)) => input@.len() >= 4 && v == le_u32_at(input@, 0) && rest@ == input@.skip(
                4,
            ),
            Err(e) => input@.len() < 4 && e == DecodeError::Incomplete,
        },
{
    if input.len() < 4 {
        return Err(DecodeError::Incomplete);
    }
    let b0 = input[0] as u32;
    let b1 = input[1] as u32;
    let b2 = input[2] as u32;
    let b3 = input[3] as u32;
    let v: u32 = b0 + b1 * 256 + b2 * 65536 + b3 * 16777216;
    let (_, rest) = input.split_at(4);
    Ok((rest, v))
}

/// Splits the first `n` bytes off `input`: the result is the rest, then the
/// bytes taken.
pub fn take(input: &[u8], n: usize) -> (r: Result<(&[u8], &[u8]), DecodeError>)
    ensures
        match r {
            Ok((rest, taken)) => input@.len() >= n && taken@ == input@.take(n as int) && rest@
                == input@.skip(n as int),
            Err(e) => input@.len() < n && e == DecodeError::Incomplete,
        },
{
    if input.len() < n {
        return Err(DecodeError::Incomplete);
    }
    let (taken, rest) = input.split_at(n);
    Ok((rest, taken))
}

/// Consumes the leading signature.
///
/// Only the bytes that are present are compared: a mismatch among them is
/// `MalformedFraming`, and a buffer that agrees with the signature but is
/// shorter than it is `Incomplete`.
pub fn signature(input: &[u8]) -> (r: Result<&[u8], DecodeError>)
    ensures
        match r {
            Ok(rest) => input@.len() >= MAGIC_LEN && magic_consistent(input@) && rest@
                == input@.skip(MAGIC_LEN as int),
            Err(e) => !(input@.len() >= MAGIC_LEN && magic_consistent(input@)) && e
                == framing_error(input@),
        },
{
    let expected: [u8; 8] = [72u8, 76u8, 50u8, 68u8, 69u8, 77u8, 79u8, 0u8];
    assert(expected@ =~= magic());
    let n: usize = if input.len() < MAGIC_LEN {
        input.len()
    } else {
        MAGIC_LEN
    };
    let mut i: usize = 0;
    while i < n
        invariant
            n <= input@.len(),
            n <= MAGIC_LEN,
            i <= n,
            n == input@.len() || n == MAGIC_LEN,
            expected@ == magic(),
            forall|j: int| 0 <= j < i ==> input@[j] == #[trigger] magic()[j],
        decreases n - i,
    {
        if input[i] != expected[i] {
            return Err(DecodeError::MalformedFraming);
        }
        i = i + 1;
    }
    if input.len() < MAGIC_LEN {
        return Err(DecodeError::Incomplete);
    }
    let (_, rest) = input.split_at(MAGIC_LEN);
    Ok(rest)
}

} // verus!
