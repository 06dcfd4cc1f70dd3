//! What may be written into a stream, and that it is read back.
//!
//! The decoder learns each word of its dictionary one code later than a writer does. The laws
//! here state that the two stay in step all the same.

use crate::bitstream::{bits_of, bits_value, lemma_low_bits_len, low_bits};
use crate::lzw::{
    clear_code, decoded, learn, lzw_indices, lzw_next, lzw_start, valid_code_size, word_of,
    LzwModel, LzwStep, MAX_CODES, MAX_CODE_SIZE,
};
use vstd::arithmetic::power2::{lemma2_to64, lemma_pow2_strictly_increases, lemma_pow2_unfold, pow2};
use vstd::prelude::*;

verus! {

/// One thing that a writer puts into a stream.
pub ghost enum Sign {
    /// The clear code.
    Clear,
    /// A code, and the colour indices that it stands for.
    Word(nat, Seq<u8>),
}

/// The dictionary of a writer that is about to write `word`: the decoder's, and the word before
/// extended by the first index of this one.
pub open spec fn writer_table(m: LzwModel, word: Seq<u8>) -> Seq<Seq<u8>> {
    match m.prev {
        Some(prev) => if m.table.len() < MAX_CODES {
            m.table.push(m.table[prev as int].push(word[0]))
        } else {
            m.table
        },
        None => m.table,
    }
}

/// A writer may write this when the decoder stands at `m`.
pub open spec fn may_write(m: LzwModel, sign: Sign) -> bool {
    match sign {
        Sign::Clear => true,
        Sign::Word(code, word) => {
            &&& word.len() > 0
            &&& code < writer_table(m, word).len()
            &&& code != clear_code(m.min_code_size) && code != clear_code(m.min_code_size) + 1
            &&& writer_table(m, word)[code as int] == word
        },
    }
}

/// Where the decoder stands when it has read this, with `bits` still to be read.
pub open spec fn behind(m: LzwModel, sign: Sign, bits: Seq<bool>) -> LzwModel {
    match sign {
        Sign::Clear => lzw_start(m.min_code_size, bits),
        Sign::Word(code, word) => learn(m, code, word, bits),
    }
}

/// A writer may write all of this, one after the other.
pub open spec fn may_write_all(m: LzwModel, signs: Seq<Sign>) -> bool
    decreases signs.len(),
{
    signs.len() > 0 ==> may_write(m, signs[0]) && may_write_all(
        behind(m, signs[0], Seq::empty()),
        signs.skip(1),
    )
}

/// The code of a sign.
pub open spec fn code_of(m: LzwModel, sign: Sign) -> nat {
    match sign {
        Sign::Clear => clear_code(m.min_code_size),
        Sign::Word(code, _) => code,
    }
}

/// The bits of all that is written, closed by the end code.
pub open spec fn written(m: LzwModel, signs: Seq<Sign>) -> Seq<bool>
    decreases signs.len(),
{
    if signs.len() == 0 {
        low_bits(clear_code(m.min_code_size) + 1, m.width)
    } else {
        low_bits(code_of(m, signs[0]), m.width) + written(
            behind(m, signs[0], Seq::empty()),
            signs.skip(1),
        )
    }
}

/// The colour indices that are written.
pub open spec fn meant(signs: Seq<Sign>) -> Seq<u8>
    decreases signs.len(),
{
    if signs.len() == 0 {
        Seq::empty()
    } else {
        match signs[0] {
            Sign::Clear => meant(signs.skip(1)),
            Sign::Word(_, word) => word + meant(signs.skip(1)),
        }
    }
}

/// What holds of the decoder at any point of a stream.
pub open spec fn in_step(m: LzwModel) -> bool {
    &&& valid_code_size(m.min_code_size)
    &&& m.min_code_size < m.width <= MAX_CODE_SIZE
    &&& clear_code(m.min_code_size) + 2 <= m.table.len() <= MAX_CODES
    &&& m.table.len() < pow2(m.width) || m.width == MAX_CODE_SIZE
    &&& forall|i: int|
        0 <= i < m.table.len() && i != clear_code(m.min_code_size) && i != clear_code(
            m.min_code_size,
        ) + 1 ==> (#[trigger] m.table[i]).len() > 0
    &&& forall|i: int|
        0 <= i < clear_code(m.min_code_size) ==> #[trigger] m.table[i] == seq![i as u8]
    &&& m.prev matches Some(prev) ==> prev < m.table.len() && prev != clear_code(m.min_code_size)
        && prev != clear_code(m.min_code_size) + 1
}

/// The lowest bit of a number is its remainder by two.
proof fn lemma_bits_value_front(bit: bool, bits: Seq<bool>)
    ensures
        bits_value(seq![bit] + bits) == (if bit {
            1nat
        } else {
            0
        }) + 2 * bits_value(bits),
    decreases bits.len(),
{
    lemma2_to64();
    let all = seq![bit] + bits;
    if bits.len() == 0 {
        assert(all.drop_last() =~= Seq::<bool>::empty());
        reveal_with_fuel(bits_value, 2);
    } else {
        assert(all.drop_last() =~= seq![bit] + bits.drop_last());
        lemma_bits_value_front(bit, bits.drop_last());
        lemma_pow2_unfold(bits.len());
    }
}

/// A number is read back from its bits.
pub proof fn law_code_bits(code: nat, width: nat)
    requires
        code < pow2(width),
    ensures
        low_bits(code, width).len() == width,
        bits_value(low_bits(code, width)) == code,
    decreases width,
{
    lemma2_to64();
    lemma_low_bits_len(code, width);
    if width > 0 {
        lemma_pow2_unfold(width);
        law_code_bits(code / 2, (width - 1) as nat);
        lemma_bits_value_front(code % 2 == 1, low_bits(code / 2, (width - 1) as nat));
    }
}

proof fn lemma_pow2_bounds(n: nat)
    requires
        2 <= n <= 12,
    ensures
        4 <= pow2(n) <= 4096,
        n <= 8 ==> pow2(n) <= 256,
        n < 12 ==> pow2(n + 1) == 2 * pow2(n),
{
    lemma2_to64();
    if n > 2 {
        lemma_pow2_strictly_increases(2, n);
    }
    if n < 12 {
        lemma_pow2_strictly_increases(n, 12);
        lemma_pow2_unfold(n + 1);
    }
    if n < 8 {
        lemma_pow2_strictly_increases(n, 8);
    }
}

/// At its start a stream is in step.
pub proof fn lemma_start_in_step(min_code_size: nat, bits: Seq<bool>)
    requires
        valid_code_size(min_code_size),
    ensures
        in_step(lzw_start(min_code_size, bits)),
{
    lemma_pow2_bounds(min_code_size);
}

/// The decoder is in step behind all that a writer may write.
proof fn lemma_behind_in_step(m: LzwModel, sign: Sign, bits: Seq<bool>)
    requires
        in_step(m),
        may_write(m, sign),
    ensures
        in_step(behind(m, sign, bits)),
{
    match sign {
        Sign::Clear => {
            lemma_start_in_step(m.min_code_size, bits);
        },
        Sign::Word(code, word) => {
            lemma_pow2_bounds(m.min_code_size);
            lemma_pow2_bounds(m.width);
            let next = learn(m, code, word, bits);
            assert(next.table == writer_table(m, word));
            assert forall|i: int|
                0 <= i < next.table.len() && i != clear_code(m.min_code_size) && i != clear_code(
                    m.min_code_size,
                ) + 1 implies (#[trigger] next.table[i]).len() > 0 by {
                if i < m.table.len() {
                    assert(next.table[i] == m.table[i]);
                }
            }
            assert forall|i: int| 0 <= i < clear_code(m.min_code_size) implies (
            #[trigger] next.table[i]) == seq![i as u8] by {
                assert(next.table[i] == m.table[i]);
            }
        },
    }
}

/// What a writer may write, the decoder reads: the word of the code is the word that was meant.
proof fn lemma_word_read(m: LzwModel, code: nat, word: Seq<u8>)
    requires
        in_step(m),
        may_write(m, Sign::Word(code, word)),
    ensures
        word_of(m, code) == Some(word),
        code < pow2(m.width),
{
    lemma_pow2_bounds(m.width);
    lemma2_to64();
    if code == m.table.len() {
        let before = m.table[m.prev->0 as int];
        assert(word == before.push(word[0]));
        assert(word[0] == before[0]);
    }
}

/// The decoder reads one sign of what is written.
proof fn lemma_sign_read(m: LzwModel, sign: Sign, rest: Seq<bool>)
    requires
        in_step(m),
        may_write(m, sign),
        m.bits == low_bits(code_of(m, sign), m.width) + rest,
    ensures
        match sign {
            Sign::Clear => lzw_next(m) == lzw_next(lzw_start(m.min_code_size, rest)),
            Sign::Word(code, word) => lzw_next(m) == LzwStep::Emit(
                word,
                learn(m, code, word, rest),
            ),
        },
{
    lemma_pow2_bounds(m.min_code_size);
    lemma_pow2_bounds(m.width);
    let code = code_of(m, sign);
    if let Sign::Word(code, word) = sign {
        lemma_word_read(m, code, word);
    } else {
        if m.min_code_size < m.width {
            lemma_pow2_strictly_increases(m.min_code_size, m.width);
        }
    }
    law_code_bits(code, m.width);
    assert(m.bits.take(m.width as int) =~= low_bits(code, m.width));
    assert(m.bits.skip(m.width as int) =~= rest);
}

/// Whatever a writer may write, closed by the end code and followed by anything, is read back.
pub proof fn law_read_back(m: LzwModel, signs: Seq<Sign>, tail: Seq<bool>)
    requires
        in_step(m),
        may_write_all(m, signs),
        m.bits == written(m, signs) + tail,
    ensures
        lzw_indices(m) == meant(signs),
    decreases signs.len(),
{
    lemma_pow2_bounds(m.min_code_size);
    lemma_pow2_bounds(m.width);
    if signs.len() == 0 {
        let end = clear_code(m.min_code_size) + 1;
        assert(end < pow2(m.width)) by {
            lemma_pow2_strictly_increases(m.min_code_size, m.width);
            lemma_pow2_unfold(m.min_code_size + 1);
            if m.min_code_size + 1 < m.width {
                lemma_pow2_strictly_increases(m.min_code_size + 1, m.width);
            }
        }
        law_code_bits(end, m.width);
        assert(m.bits.take(m.width as int) =~= low_bits(end, m.width));
        assert(lzw_next(m) is End);
    } else {
        let sign = signs[0];
        let rest = written(behind(m, sign, Seq::empty()), signs.skip(1)) + tail;
        assert(m.bits =~= low_bits(code_of(m, sign), m.width) + rest);
        lemma_sign_read(m, sign, rest);
        let next = behind(m, sign, rest);
        lemma_behind_in_step(m, sign, rest);
        lemma_written_ignores_bits(behind(m, sign, Seq::empty()), next, signs.skip(1));
        law_read_back(next, signs.skip(1), tail);
    }
}

/// What may be written does not depend on the bits that are left.
proof fn lemma_written_ignores_bits(m: LzwModel, n: LzwModel, signs: Seq<Sign>)
    requires
        n == (LzwModel { bits: n.bits, ..m }),
    ensures
        written(m, signs) == written(n, signs),
        may_write_all(m, signs) == may_write_all(n, signs),
    decreases signs.len(),
{
    if signs.len() > 0 {
        let a = behind(m, signs[0], Seq::empty());
        let b = behind(n, signs[0], Seq::empty());
        assert(a == b);
        assert(code_of(m, signs[0]) == code_of(n, signs[0]));
    }
}

/// The signs of a writer that writes each colour index by itself, behind a clear code.
pub open spec fn plain_signs(indices: Seq<u8>) -> Seq<Sign> {
    seq![Sign::Clear] + literal_signs(indices)
}

pub open spec fn literal_signs(indices: Seq<u8>) -> Seq<Sign> {
    Seq::new(indices.len(), |i: int| Sign::Word(indices[i] as nat, seq![indices[i]]))
}

proof fn lemma_literals_may_be_written(m: LzwModel, indices: Seq<u8>)
    requires
        in_step(m),
        forall|i: int| 0 <= i < indices.len() ==> indices[i] < clear_code(m.min_code_size),
    ensures
        may_write_all(m, literal_signs(indices)),
        meant(literal_signs(indices)) == indices,
    decreases indices.len(),
{
    let signs = literal_signs(indices);
    if indices.len() > 0 {
        let index = indices[0];
        assert(m.table[index as int] == seq![index as int as u8]);
        assert(writer_table(m, seq![index])[index as int] == m.table[index as int]);
        assert(may_write(m, signs[0]));
        lemma_behind_in_step(m, signs[0], Seq::empty());
        assert(signs.skip(1) =~= literal_signs(indices.skip(1)));
        lemma_literals_may_be_written(behind(m, signs[0], Seq::empty()), indices.skip(1));
        assert(indices =~= seq![index] + indices.skip(1));
    }
}

/// Every run of colour indices that are small enough for the code size can be written, and bytes
/// whose bits start with what was written are decoded to it.
pub proof fn law_every_image_can_be_written(min_code_size: u8, indices: Seq<u8>, data: Seq<u8>)
    requires
        valid_code_size(min_code_size as nat),
        forall|i: int|
            0 <= i < indices.len() ==> indices[i] < clear_code(min_code_size as nat),
        written(lzw_start(min_code_size as nat, Seq::empty()), plain_signs(indices)).is_prefix_of(
            bits_of(data),
        ),
    ensures
        decoded(min_code_size, data) == indices,
{
    let bits = bits_of(data);
    let m = lzw_start(min_code_size as nat, bits);
    let signs = plain_signs(indices);
    let empty = lzw_start(min_code_size as nat, Seq::empty());
    lemma_start_in_step(min_code_size as nat, bits);
    lemma_start_in_step(min_code_size as nat, Seq::empty());
    assert(signs.skip(1) =~= literal_signs(indices));
    lemma_literals_may_be_written(empty, indices);
    lemma_written_ignores_bits(m, empty, signs);
    assert(behind(m, signs[0], Seq::empty()) == empty);
    let n = written(m, signs).len() as int;
    assert(bits =~= written(m, signs) + bits.skip(n));
    law_read_back(m, signs, bits.skip(n));
}

} // verus!
