//! Colours and colour tables.

use crate::error::{view_of, ParseError};
use crate::parser::take_slice;
use vstd::arithmetic::power2::{lemma2_to64, lemma_pow2_unfold, pow2};
use vstd::prelude::*;

verus! {

/// A colour of eight bits for each of red, green and blue.
#[derive(Copy, Clone, Eq, PartialEq, Ord, PartialOrd, Hash, Debug)]
pub struct Rgb888 {
    r: u8,
    g: u8,
    b: u8,
}

impl View for Rgb888 {
    type V = (u8, u8, u8);

    /// The red, the green and the blue channel.
    closed spec fn view(&self) -> (u8, u8, u8) {
        (self.r, self.g, self.b)
    }
}

impl Rgb888 {
    pub fn new(r: u8, g: u8, b: u8) -> (res: Self)
        ensures
            res@ == (r, g, b),
    {
        Rgb888 { r, g, b }
    }

    /// The red channel.
    pub fn r(&self) -> (res: u8)
        ensures
            res == self@.0,
    {
        self.r
    }

    /// The green channel.
    pub fn g(&self) -> (res: u8)
        ensures
            res == self@.1,
    {
        self.g
    }

    /// The blue channel.
    pub fn b(&self) -> (res: u8)
        ensures
            res == self@.2,
    {
        self.b
    }
}

/// A colour table: three bytes for each colour.
#[derive(Debug, Clone, Copy, PartialEq, Eq, PartialOrd, Ord, Hash)]
pub struct ColorTable<'a> {
    data: &'a [u8],
}

impl<'a> View for ColorTable<'a> {
    type V = Seq<u8>;

    /// The bytes of the table.
    closed spec fn view(&self) -> Seq<u8> {
        self.data@
    }
}

/// The colour at `index` of a table of these bytes, if the table holds all of its three bytes.
pub open spec fn color_at(table: Seq<u8>, index: u8) -> Option<(u8, u8, u8)> {
    let base = 3 * index;
    if base + 2 >= table.len() {
        None
    } else {
        Some((table[base], table[base + 1], table[base + 2]))
    }
}

impl<'a> ColorTable<'a> {
    /// A table of these bytes; one or two bytes behind the last whole entry are ignored.
    pub fn new(data: &'a [u8]) -> (res: Self)
        ensures
            res@ == data@,
    {
        Self { data }
    }

    /// Returns the number of entries.
    pub fn len(&self) -> (res: usize)
        ensures
            res == self@.len() / 3,
    {
        self.data.len() / 3
    }

    /// Returns a color table entry.
    ///
    /// `None` is returned if `index` is out of bounds.
    pub fn get(&self, index: u8) -> (res: Option<Rgb888>)
        ensures
            view_of(res) == color_at(self@, index),
    {
        let base = 3 * (index as usize);
        if base + 2 >= self.data.len() {
            return None;
        }
        Some(Rgb888::new(self.data[base], self.data[base + 1], self.data[base + 2]))
    }
}

/// The size in bytes of the colour table that a flag byte announces: if its highest bit is set,
/// as many colours as the power of two of one more than the number in its three lowest bits.
pub open spec fn color_table_bytes(flags: u8) -> nat {
    if flags & 0b1000_0000 != 0 {
        3 * pow2(((flags & 0b0000_0111) + 1) as nat)
    } else {
        0
    }
}

/// A colour table has no bytes at all, or those of 2 to 256 whole colours.
pub proof fn lemma_color_table_bytes(flags: u8)
    ensures
        flags & 0b1000_0000 == 0 ==> color_table_bytes(flags) == 0,
        flags & 0b1000_0000 != 0 ==> 6 <= color_table_bytes(flags) <= 768,
        color_table_bytes(flags) % 3 == 0,
{
    let k = flags & 0b0000_0111;
    assert(flags & 0b0000_0111 <= 7) by (bit_vector);
    lemma2_to64();
    assert(pow2((k + 1) as nat) >= 2 && pow2((k + 1) as nat) <= 256) by {
        assert(k == 0 || k == 1 || k == 2 || k == 3 || k == 4 || k == 5 || k == 6 || k == 7);
    }
}

/// Reads the colour table that `flags` announces from the start of the input.
pub(crate) fn take_color_table<'a>(input: &'a [u8], flags: u8) -> (res: Result<
    (&'a [u8], Option<ColorTable<'a>>),
    ParseError,
>)
    ensures
        ({
            let n = color_table_bytes(flags);
            if input@.len() < n {
                res == Err::<(&[u8], Option<ColorTable>), _>(ParseError::UnexpectedEndOfFile)
            } else if n > 0 {
                res matches Ok((rest, Some(table))) && rest@ == input@.skip(n as int) && table@
                    == input@.take(n as int)
            } else {
                res matches Ok((rest, None)) && rest@ == input@
            }
        }),
{
    if flags & 0b1000_0000 == 0 {
        return Ok((input, None));
    }
    assert(flags & 0b0000_0111 <= 7) by (bit_vector);
    let exponent = (flags & 0b0000_0111) + 1;
    let mut entries: usize = 1;
    let mut i: u8 = 0;
    proof {
        lemma2_to64();
    }
    while i < exponent
        invariant
            i <= exponent <= 8,
            entries == pow2(i as nat),
            entries <= 256,
        decreases exponent - i,
    {
        proof {
            lemma2_to64();
            lemma_pow2_unfold((i + 1) as nat);
            assert(i == 0 || i == 1 || i == 2 || i == 3 || i == 4 || i == 5 || i == 6 || i == 7);
        }
        entries = entries * 2;
        i += 1;
    }
    proof {
        lemma_color_table_bytes(flags);
    }
    // Each color table entry is 3 bytes long
    let (rest, table) = take_slice(input, entries * 3)?;
    Ok((rest, Some(ColorTable::new(table))))
}

} // verus!
