//! Sub-block chains: how a file carries data of any length.
//!
//! A chain is a run of blocks, each a length byte and that many bytes of data, closed by a block
//! of length zero.

use crate::error::ParseError;
use crate::parser::{take1, take_slice};
use vstd::prelude::*;
use vstd::slice::slice_subrange;

verus! {

/// The length of the chain that `s` starts with, its closing block counted, if `s` holds all of
/// it.
pub open spec fn chain_len(s: Seq<u8>) -> Option<nat>
    decreases s.len(),
{
    if s.len() == 0 {
        None
    } else if s[0] == 0 {
        Some(1)
    } else if s.len() < 1 + s[0] {
        None
    } else {
        match chain_len(s.skip(1 + s[0])) {
            Some(n) => Some(1 + s[0] as nat + n),
            None => None,
        }
    }
}

/// The data that the chain at the start of `s` carries, its blocks joined.
pub open spec fn chain_data(s: Seq<u8>) -> Seq<u8>
    decreases s.len(),
{
    if s.len() == 0 || s[0] == 0 || s.len() < 1 + s[0] {
        Seq::empty()
    } else {
        s.subrange(1, 1 + s[0]) + chain_data(s.skip(1 + s[0]))
    }
}

/// What is left of `s` behind the chain at its start.
pub open spec fn after_chain(s: Seq<u8>) -> Result<Seq<u8>, ParseError> {
    match chain_len(s) {
        Some(n) => Ok(s.skip(n as int)),
        None => Err(ParseError::UnexpectedEndOfFile),
    }
}

/// A chain that `s` holds is not longer than `s`, and not empty.
pub proof fn lemma_chain_fits(s: Seq<u8>)
    ensures
        chain_len(s) matches Some(n) ==> 1 <= n <= s.len(),
    decreases s.len(),
{
    if s.len() > 0 && s[0] != 0 && s.len() >= 1 + s[0] {
        lemma_chain_fits(s.skip(1 + s[0]));
    }
}

/// Cutting `s` behind its chain changes neither the chain nor what it carries.
pub proof fn lemma_chain_cut(s: Seq<u8>)
    requires
        chain_len(s) is Some,
    ensures
        chain_len(s.take(chain_len(s)->0 as int)) == chain_len(s),
        chain_data(s.take(chain_len(s)->0 as int)) == chain_data(s),
    decreases s.len(),
{
    lemma_chain_fits(s);
    let n = chain_len(s)->0 as int;
    let cut = s.take(n);
    if s[0] != 0 {
        let k = 1 + s[0];
        let tail = s.skip(k);
        lemma_chain_fits(tail);
        lemma_chain_cut(tail);
        assert(cut.skip(k) =~= tail.take(n - k));
        assert(cut.subrange(1, k) =~= s.subrange(1, k));
    }
}

/// The chain at the start of the input, and the bytes behind it.
pub(crate) fn take_chain<'a>(input: &'a [u8]) -> (res: Result<(&'a [u8], &'a [u8]), ParseError>)
    ensures
        match chain_len(input@) {
            Some(n) => res matches Ok((rest, chain)) && rest@ == input@.skip(n as int) && chain@
                == input@.take(n as int),
            None => res == Err::<(&[u8], &[u8]), _>(ParseError::UnexpectedEndOfFile),
        },
{
    let mut left = input;
    let mut size: usize = 0;
    loop
        invariant
            size <= input.len(),
            left@ == input@.skip(size as int),
            match chain_len(left@) {
                Some(n) => chain_len(input@) == Some((size + n) as nat),
                None => chain_len(input@) is None,
            },
        decreases left@.len(),
    {
        let (data, block_size) = take1(left)?;
        size += 1;
        if block_size == 0 {
            assert(left@.skip(1) =~= input@.skip(size as int));
            return Ok((data, slice_subrange(input, 0, size)));
        }
        let (next, _) = take_slice(data, block_size as usize)?;
        size += block_size as usize;
        proof {
            assert(next@ =~= left@.skip(1 + block_size));
            assert(next@ =~= input@.skip(size as int));
        }
        left = next;
    }
}

/// Skips the chain at the start of the input.
pub(crate) fn eat_len_prefixed_subblocks<'a>(input: &'a [u8]) -> (res: Result<&'a [u8], ParseError>)
    ensures
        match after_chain(input@) {
            Ok(rest) => res matches Ok(got) && got@ == rest,
            Err(error) => res == Err::<&[u8], _>(error),
        },
{
    let (rest, _) = take_chain(input)?;
    Ok(rest)
}

/// Len byte prefixed raw bytes, as used in GIFs.
///
/// A reader of the data of a sub-block chain, byte by byte.
pub struct LenPrefixRawDataView<'a> {
    remains: &'a [u8],
    current_block: &'a [u8],
    cursor: u8,
}

impl<'a> LenPrefixRawDataView<'a> {
    /// The bytes of the block that is being read.
    pub closed spec fn block(&self) -> Seq<u8> {
        self.current_block@
    }

    /// How many bytes of the block have been read.
    pub closed spec fn position(&self) -> int {
        self.cursor as int
    }

    /// The part of the chain behind the block that is being read.
    pub closed spec fn tail(&self) -> Seq<u8> {
        self.remains@
    }

    /// A block is at most 255 bytes long, and a byte of it is left to read unless the chain has
    /// ended.
    pub open spec fn wf(&self) -> bool {
        &&& self.block().len() <= 255
        &&& self.block().len() > 0 ==> 0 <= self.position() < self.block().len()
    }

    /// The block that follows the one being read lies within the data.
    pub open spec fn next_block_fits(&self) -> bool {
        self.tail().len() >= 1 && self.tail().len() >= 1 + self.tail()[0]
    }

    /// Behind the byte under the cursor, the reader is at `next`: at the next byte of the block, or
    /// at the start of the block that follows; at the end of the chain it stays where it is.
    pub open spec fn steps_to(&self, next: Self) -> bool {
        if self.block().len() == 0 {
            next == *self
        } else if self.position() < self.block().len() - 1 {
            &&& next.block() == self.block()
            &&& next.position() == self.position() + 1
            &&& next.tail() == self.tail()
        } else {
            let n = self.tail()[0] as int;
            &&& next.position() == 0
            &&& next.block() == self.tail().subrange(1, 1 + n)
            &&& next.tail() == (if n == 0 {
                Seq::empty()
            } else {
                self.tail().skip(1 + n)
            })
        }
    }

    /// The rest of the data is a chain that is properly closed.
    pub open spec fn closed_chain(&self) -> bool {
        self.block().len() > 0 ==> chain_len(self.tail()) is Some
    }
}

impl<'a> View for LenPrefixRawDataView<'a> {
    type V = Seq<u8>;

    /// The data bytes that are still to be read.
    open spec fn view(&self) -> Seq<u8> {
        if self.block().len() == 0 {
            Seq::empty()
        } else {
            self.block().skip(self.position()) + chain_data(self.tail())
        }
    }
}

impl<'a> LenPrefixRawDataView<'a> {
    /// A reader at the start of the first block of `data`.
    pub fn new(data: &'a [u8]) -> (res: Self)
        requires
            data@.len() >= 1,
            data@.len() >= 1 + data@[0],
        ensures
            res.wf(),
            res.block() == data@.subrange(1, 1 + data@[0]),
            res.position() == 0,
            res.tail() == data@.skip(1 + data@[0]),
            res@ == chain_data(data@),
            chain_len(data@) is Some ==> res.closed_chain(),
    {
        let len = data[0] as usize;
        let res = Self {
            remains: slice_subrange(data, 1 + len, data.len()),
            current_block: slice_subrange(data, 1, 1 + len),
            cursor: 0,
        };
        assert(res.current_block@.skip(0) =~= res.current_block@);
        res
    }

    /// Moves behind the byte under the cursor.
    fn shift_cursor(&mut self)
        requires
            old(self).wf(),
            old(self).block().len() > 0 && old(self).position() == old(self).block().len() - 1
                ==> old(self).next_block_fits(),
        ensures
            final(self).wf(),
            old(self).steps_to(*final(self)),
            final(self)@ == (if old(self).block().len() == 0 {
                old(self)@
            } else {
                old(self)@.skip(1)
            }),
            old(self).closed_chain() ==> final(self).closed_chain(),
    {
        if self.current_block.is_empty() {
            // nothing is left
        } else if self.cursor < self.current_block.len() as u8 - 1 {
            self.cursor += 1;
            assert(self@ =~= old(self)@.skip(1));
        } else {
            self.cursor = 0;
            self.shift_next_block();
            assert(self@ =~= old(self)@.skip(1));
            assert(self.block() =~= old(self).tail().subrange(1, 1 + old(self).tail()[0]));
            assert(old(self).tail()[0] == 0 ==> self.tail() =~= Seq::<u8>::empty());
        }
    }

    /// Moves to the next block and leaves the cursor untouched.
    fn shift_next_block(&mut self)
        requires
            old(self).block().len() > 0 ==> old(self).next_block_fits(),
        ensures
            final(self).position() == old(self).position(),
            old(self).block().len() == 0 ==> *final(self) == *old(self),
            old(self).block().len() > 0 ==> {
                let n = old(self).tail()[0] as int;
                &&& n == 0 ==> final(self).block().len() == 0 && final(self).tail().len() == 0
                &&& n > 0 ==> final(self).block() == old(self).tail().subrange(1, 1 + n)
                &&& n > 0 ==> final(self).tail() == old(self).tail().skip(1 + n)
            },
            old(self).closed_chain() ==> final(self).closed_chain(),
    {
        if self.current_block.is_empty() {
            // no more blocks
            return ;
        }
        let len = self.remains[0] as usize;
        if len == 0 {
            self.remains = slice_subrange(self.remains, 0, 0);
            self.current_block = slice_subrange(self.remains, 0, 0);
        } else {
            self.current_block = slice_subrange(self.remains, 1, 1 + len);
            self.remains = slice_subrange(self.remains, 1 + len, self.remains.len());
        }
    }

    /// Reads the next data byte; none is left at the end of the chain.
    pub fn next(&mut self) -> (res: Option<u8>)
        requires
            old(self).wf(),
            old(self).block().len() > 0 && old(self).position() == old(self).block().len() - 1
                ==> old(self).next_block_fits(),
        ensures
            final(self).wf(),
            old(self).steps_to(*final(self)),
            old(self)@.len() == 0 ==> res is None,
            old(self)@.len() > 0 ==> res == Some(old(self)@[0]),
            old(self)@.len() > 0 ==> final(self)@ == old(self)@.skip(1),
            old(self).closed_chain() ==> final(self).closed_chain(),
    {
        if self.current_block.is_empty() {
            return None;
        }
        let current = self.current_block[self.cursor as usize];
        self.shift_cursor();
        Some(current)
    }
}

} // verus!
