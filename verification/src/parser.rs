//! Readers of the smallest pieces of a file.

use crate::error::ParseError;
use vstd::prelude::*;
use vstd::slice::slice_subrange;

verus! {

/// The first `n` bytes of the input and the bytes behind them.
pub(crate) fn take_slice<'a>(input: &'a [u8], n: usize) -> (res: Result<
    (&'a [u8], &'a [u8]),
    ParseError,
>)
    ensures
        input@.len() < n ==> res == Err::<(&[u8], &[u8]), _>(ParseError::UnexpectedEndOfFile),
        input@.len() >= n ==> (res matches Ok((rest, head)) && rest@ == input@.skip(n as int)
            && head@ == input@.take(n as int)),
{
    if input.len() < n {
        Err(ParseError::UnexpectedEndOfFile)
    } else {
        Ok((slice_subrange(input, n, input.len()), slice_subrange(input, 0, n)))
    }
}

/// The first byte of the input.
pub(crate) fn take1<'a>(input: &'a [u8]) -> (res: Result<(&'a [u8], u8), ParseError>)
    ensures
        input@.len() < 1 ==> res == Err::<(&[u8], u8), _>(ParseError::UnexpectedEndOfFile),
        input@.len() >= 1 ==> (res matches Ok((rest, byte)) && rest@ == input@.skip(1) && byte
            == input@[0]),
{
    let (rest, head) = take_slice(input, 1)?;
    Ok((rest, head[0]))
}

/// The first three bytes of the input.
pub(crate) fn take3<'a>(input: &'a [u8]) -> (res: Result<(&'a [u8], [u8; 3]), ParseError>)
    ensures
        input@.len() < 3 ==> res == Err::<(&[u8], [u8; 3]), _>(ParseError::UnexpectedEndOfFile),
        input@.len() >= 3 ==> (res matches Ok((rest, head)) && rest@ == input@.skip(3) && head
            == [input@[0], input@[1], input@[2]]),
{
    let (rest, head) = take_slice(input, 3)?;
    Ok((rest, [head[0], head[1], head[2]]))
}

/// The little-endian number in the two bytes of `s` from `i` on.
pub open spec fn le_u16_at(s: Seq<u8>, i: int) -> u16 {
    (s[i] + 256 * s[i + 1]) as u16
}

/// A little-endian 16-bit number.
pub(crate) fn le_u16<'a>(input: &'a [u8]) -> (res: Result<(&'a [u8], u16), ParseError>)
    ensures
        input@.len() < 2 ==> res == Err::<(&[u8], u16), _>(ParseError::UnexpectedEndOfFile),
        input@.len() >= 2 ==> (res matches Ok((rest, n)) && rest@ == input@.skip(2) && n
            == le_u16_at(input@, 0)),
{
    let (rest, head) = take_slice(input, 2)?;
    Ok((rest, head[0] as u16 + 256 * (head[1] as u16)))
}

} // verus!
