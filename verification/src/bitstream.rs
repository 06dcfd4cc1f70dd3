//! Codes of any width out of a byte stream, least significant bit first.

use crate::blocks::LenPrefixRawDataView;
use vstd::arithmetic::power2::{lemma2_to64, lemma_pow2_unfold, pow2};
use vstd::prelude::*;

verus! {

/// The `n` low bits of `byte`, the lowest first.
pub open spec fn low_bits(byte: nat, n: nat) -> Seq<bool>
    decreases n,
{
    if n == 0 {
        Seq::empty()
    } else {
        seq![byte % 2 == 1] + low_bits(byte / 2, (n - 1) as nat)
    }
}

/// The bits of some bytes in the order in which codes are packed into them.
pub open spec fn bits_of(bytes: Seq<u8>) -> Seq<bool>
    decreases bytes.len(),
{
    if bytes.len() == 0 {
        Seq::empty()
    } else {
        low_bits(bytes[0] as nat, 8) + bits_of(bytes.skip(1))
    }
}

/// The number that some bits spell, the lowest bit first.
pub open spec fn bits_value(bits: Seq<bool>) -> nat
    decreases bits.len(),
{
    if bits.len() == 0 {
        0
    } else {
        bits_value(bits.drop_last()) + (if bits.last() {
            pow2((bits.len() - 1) as nat)
        } else {
            0
        })
    }
}

/// Bits spell a number below the power of two of their count.
pub proof fn lemma_bits_value_bound(bits: Seq<bool>)
    ensures
        bits_value(bits) < pow2(bits.len()),
    decreases bits.len(),
{
    if bits.len() == 0 {
        lemma2_to64();
    } else {
        lemma_bits_value_bound(bits.drop_last());
        lemma_pow2_unfold(bits.len());
    }
}

pub proof fn lemma_low_bits_len(byte: nat, n: nat)
    ensures
        low_bits(byte, n).len() == n,
    decreases n,
{
    if n > 0 {
        lemma_low_bits_len(byte / 2, (n - 1) as nat);
    }
}

/// Reads the data of a sub-block chain as a stream of bits.
pub struct BitStream<'a> {
    source: LenPrefixRawDataView<'a>,
    current: u8,
    left: u8,
}

impl<'a> BitStream<'a> {
    pub closed spec fn wf(&self) -> bool {
        &&& self.source.wf()
        &&& self.source.closed_chain()
        &&& self.left <= 8
    }
}

impl<'a> View for BitStream<'a> {
    type V = Seq<bool>;

    /// The bits that are still to be read.
    closed spec fn view(&self) -> Seq<bool> {
        low_bits(self.current as nat, self.left as nat) + bits_of(self.source@)
    }
}

impl<'a> BitStream<'a> {
    pub fn new(source: LenPrefixRawDataView<'a>) -> (res: Self)
        requires
            source.wf(),
            source.closed_chain(),
        ensures
            res.wf(),
            res@ == bits_of(source@),
    {
        let res = Self { source, current: 0, left: 0 };
        assert(res@ =~= bits_of(source@));
        res
    }

    /// Reads one bit.
    fn read_bit(&mut self) -> (res: Option<bool>)
        requires
            old(self).wf(),
        ensures
            final(self).wf(),
            old(self)@.len() == 0 ==> res is None && final(self)@.len() == 0,
            old(self)@.len() > 0 ==> res == Some(old(self)@[0]),
            old(self)@.len() > 0 ==> final(self)@ == old(self)@.skip(1),
    {
        proof {
            lemma_low_bits_len(self.current as nat, self.left as nat);
        }
        if self.left == 0 {
            let ghost bytes = self.source@;
            match self.source.next() {
                None => {
                    assert(self@.len() == 0);
                    return None;
                },
                Some(byte) => {
                    self.current = byte;
                    self.left = 8;
                    assert(self@ =~= old(self)@);
                },
            }
        }
        proof {
            lemma_low_bits_len(self.current as nat, self.left as nat);
        }
        let ghost before = self@;
        let bit = self.current % 2 == 1;
        self.current = self.current / 2;
        self.left -= 1;
        assert(self@ =~= before.skip(1));
        Some(bit)
    }

    /// Reads a code of `width` bits; none comes once fewer bits are left.
    pub fn read_code(&mut self, width: u8) -> (res: Option<u16>)
        requires
            old(self).wf(),
            width <= 12,
        ensures
            final(self).wf(),
            old(self)@.len() < width ==> res is None && final(self)@.len() == 0,
            old(self)@.len() >= width ==> (res matches Some(code) && code == bits_value(
                old(self)@.take(width as int),
            )),
            old(self)@.len() >= width ==> final(self)@ == old(self)@.skip(width as int),
    {
        let mut code: u16 = 0;
        let mut weight: u16 = 1;
        let mut read: u8 = 0;
        let ghost bits = self@;
        proof {
            lemma2_to64();
            assert(bits.take(0) =~= Seq::<bool>::empty());
        }
        while read < width
            invariant
                self.wf(),
                read <= width <= 12,
                read <= bits.len(),
                self@ == bits.skip(read as int),
                code == bits_value(bits.take(read as int)),
                weight == pow2(read as nat),
                bits == old(self)@,
            decreases width - read,
        {
            proof {
                lemma_bits_value_bound(bits.take(read as int));
                lemma_pow2_unfold((read + 1) as nat);
                lemma2_to64();
                lemma_weight(read as nat);
            }
            match self.read_bit() {
                None => {
                    return None;
                },
                Some(bit) => {
                    assert(bits.take(read + 1).drop_last() =~= bits.take(read as int));
                    if bit {
                        code = code + weight;
                    }
                    weight = weight * 2;
                    read += 1;
                },
            }
        }
        Some(code)
    }
}

/// The weights of the bits of a code stay below 4096.
proof fn lemma_weight(n: nat)
    requires
        n < 12,
    ensures
        pow2(n) <= 2048,
{
    lemma2_to64();
    if n < 11 {
        vstd::arithmetic::power2::lemma_pow2_strictly_increases(n, 11);
    }
}

} // verus!
