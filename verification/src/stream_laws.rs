//! What a stream of codes says, told from the words that were written into it.
//!
//! The dictionary, the width of each code and the packing of the bits are computed here from the
//! words alone: the writer of a stream needs to know nothing of how it is decoded.

use crate::bitstream::{bits_of, bits_value, lemma_bits_value_bound, low_bits};
use crate::coding::{law_code_bits, Sign};
use crate::lzw::{
    decoded, learn, lzw_indices, lzw_next, lzw_start, word_of, LzwError, LzwModel, LzwStep,
};
use vstd::arithmetic::div_mod::lemma_div_denominator;
use vstd::arithmetic::power2::{lemma2_to64, lemma_pow2_pos, lemma_pow2_unfold, pow2};
use vstd::prelude::*;

verus! {

/// The bit of `n` that counts for the `i`-th power of two.
pub open spec fn binary_digit(n: nat, i: nat) -> bool {
    (n / pow2(i)) % 2 == 1
}

/// The lowest `width` bits of `n`, the lowest first.
pub open spec fn number_bits(n: nat, width: nat) -> Seq<bool> {
    Seq::new(width, |i: int| binary_digit(n, i as nat))
}

/// The bits of some bytes: eight of each byte, the lowest first.
pub open spec fn byte_bits(data: Seq<u8>) -> Seq<bool> {
    Seq::new(8 * data.len(), |i: int| binary_digit(data[i / 8] as nat, (i % 8) as nat))
}

/// The low bits of a number are its binary digits.
pub proof fn law_low_bits(n: nat, width: nat)
    ensures
        low_bits(n, width) == number_bits(n, width),
    decreases width,
{
    lemma2_to64();
    if width > 0 {
        law_low_bits(n / 2, (width - 1) as nat);
        assert(low_bits(n, width) =~= number_bits(n, width)) by {
            let got = low_bits(n, width);
            assert(got.len() == width);
            assert forall|i: int| 0 <= i < width implies got[i] == binary_digit(n, i as nat) by {
                if i > 0 {
                    let j = (i - 1) as nat;
                    lemma_pow2_unfold(i as nat);
                    lemma_pow2_pos(j);
                    lemma_div_denominator(n as int, 2, pow2(j) as int);
                    assert(got[i] == number_bits(n / 2, (width - 1) as nat)[i - 1]);
                    assert((n / 2) / pow2(j) == n / pow2(i as nat));
                } else {
                    assert(pow2(0) == 1);
                    assert(got[0] == (n % 2 == 1));
                    assert(n / 1 == n);
                }
            }
        }
    } else {
        assert(low_bits(n, width) =~= number_bits(n, width));
    }
}

/// Codes are packed into bytes from the lowest bit of each byte on.
pub proof fn law_bits_of_bytes(data: Seq<u8>)
    ensures
        bits_of(data) == byte_bits(data),
    decreases data.len(),
{
    if data.len() > 0 {
        law_bits_of_bytes(data.skip(1));
        law_low_bits(data[0] as nat, 8);
        let got = bits_of(data);
        assert(got.len() == 8 * data.len());
        assert forall|i: int| 0 <= i < 8 * data.len() implies got[i] == byte_bits(data)[i] by {
            if i >= 8 {
                assert(got[i] == byte_bits(data.skip(1))[i - 8]);
                assert(data.skip(1)[(i - 8) / 8] == data[i / 8]);
            }
        }
        assert(got =~= byte_bits(data));
    } else {
        assert(bits_of(data) =~= byte_bits(data));
    }
}

/// Bits spell the number of which they are the binary digits.
pub proof fn law_bits_value(n: nat, width: nat)
    requires
        n < pow2(width),
    ensures
        bits_value(number_bits(n, width)) == n,
{
    law_low_bits(n, width);
    law_code_bits(n, width);
}

/// The number of entries of the dictionary of a reader to whom `n` words have come since the
/// dictionary was emptied: each word but the first taught it one, up to 4096 in all.
pub open spec fn entries(min: nat, n: nat) -> nat {
    let all = pow2(min) + 2 + (if n > 0 {
        (n - 1) as nat
    } else {
        0
    });
    if all > 4096 {
        4096
    } else {
        all
    }
}

/// The width of a code to a reader whose dictionary has this many entries.
pub open spec fn width_for(entries: nat) -> nat {
    if entries < 8 {
        3
    } else if entries < 16 {
        4
    } else if entries < 32 {
        5
    } else if entries < 64 {
        6
    } else if entries < 128 {
        7
    } else if entries < 256 {
        8
    } else if entries < 512 {
        9
    } else if entries < 1024 {
        10
    } else if entries < 2048 {
        11
    } else {
        12
    }
}

/// The width of a code that follows these words.
pub open spec fn width_behind(min: nat, words: Seq<Seq<u8>>) -> nat {
    width_for(entries(min, words.len()))
}

/// `word` can be written with `code` behind `words`: it is one colour index, or one of the words
/// before extended by the first index of the word that came next.
pub open spec fn says(min: nat, words: Seq<Seq<u8>>, code: nat, word: Seq<u8>) -> bool {
    if code < pow2(min) {
        word == seq![code as u8]
    } else {
        let k = code - pow2(min) - 2;
        &&& 0 <= k < words.len()
        &&& code < 4096
        &&& word.len() > 0
        &&& word == words[k].push(
            if k + 1 < words.len() {
                words[k + 1][0]
            } else {
                word[0]
            },
        )
    }
}

/// The words since the dictionary was last emptied, when `sign` has been written behind `words`.
pub open spec fn words_behind(words: Seq<Seq<u8>>, sign: Sign) -> Seq<Seq<u8>> {
    match sign {
        Sign::Clear => Seq::empty(),
        Sign::Word(_, word) => words.push(word),
    }
}

/// All of this can be written behind `words`.
pub open spec fn says_all(min: nat, words: Seq<Seq<u8>>, signs: Seq<Sign>) -> bool
    decreases signs.len(),
{
    signs.len() > 0 ==> {
        &&& signs[0] matches Sign::Word(code, word) ==> says(min, words, code, word)
        &&& says_all(min, words_behind(words, signs[0]), signs.skip(1))
    }
}

/// The words since the dictionary was last emptied, when all of this has been written.
pub open spec fn words_behind_all(words: Seq<Seq<u8>>, signs: Seq<Sign>) -> Seq<Seq<u8>>
    decreases signs.len(),
{
    if signs.len() == 0 {
        words
    } else {
        words_behind_all(words_behind(words, signs[0]), signs.skip(1))
    }
}

/// The bits of all of this, written behind `words`.
pub open spec fn said_bits(min: nat, words: Seq<Seq<u8>>, signs: Seq<Sign>) -> Seq<bool>
    decreases signs.len(),
{
    if signs.len() == 0 {
        Seq::empty()
    } else {
        let code = match signs[0] {
            Sign::Clear => pow2(min),
            Sign::Word(code, _) => code,
        };
        number_bits(code, width_behind(min, words)) + said_bits(
            min,
            words_behind(words, signs[0]),
            signs.skip(1),
        )
    }
}

/// The colour indices of all the words.
pub open spec fn said(signs: Seq<Sign>) -> Seq<u8>
    decreases signs.len(),
{
    if signs.len() == 0 {
        Seq::empty()
    } else {
        match signs[0] {
            Sign::Clear => said(signs.skip(1)),
            Sign::Word(_, word) => word + said(signs.skip(1)),
        }
    }
}

/// `code` stands for nothing behind `words`: the dictionary of the reader ends before it, and it
/// is not the very next entry of a dictionary that is about to grow.
pub open spec fn unknown_code(min: nat, words: Seq<Seq<u8>>, code: nat) -> bool {
    let n = entries(min, words.len());
    code > n || code == n && words.len() == 0
}

/// A stream ends with these bits behind `words`: too few for a code, or the end code, or a code
/// that stands for nothing.
pub open spec fn ends_with(min: nat, words: Seq<Seq<u8>>, tail: Seq<bool>, code: nat) -> bool {
    let width = width_behind(min, words);
    ||| tail.len() < width
    ||| {
        &&& code < pow2(width)
        &&& number_bits(code, width).is_prefix_of(tail)
        &&& code == pow2(min) + 1 || unknown_code(min, words, code)
    }
}

/// A decoder stands behind these words: its dictionary, the width of its next code and the code
/// before follow from them.
pub open spec fn stands_behind(m: LzwModel, min: nat, words: Seq<Seq<u8>>) -> bool {
    let clear = pow2(min);
    &&& 2 <= min <= 8
    &&& m.min_code_size == min
    &&& m.table.len() == entries(min, words.len())
    &&& m.width == width_for(m.table.len())
    &&& forall|i: int| 0 <= i < clear ==> #[trigger] m.table[i] == seq![i as u8]
    &&& forall|i: int|
        clear + 2 <= i < m.table.len() ==> #[trigger] m.table[i] == words[i - clear - 2].push(
            words[i - clear - 1][0],
        )
    &&& forall|k: int| 0 <= k < words.len() ==> (#[trigger] words[k]).len() > 0
    &&& words.len() == 0 <==> m.prev is None
    &&& m.prev matches Some(prev) ==> {
        &&& prev < m.table.len()
        &&& prev != clear && prev != clear + 1
        &&& m.table[prev as int] == words.last()
    }
}

proof fn lemma_clear(min: nat)
    requires
        2 <= min <= 8,
    ensures
        4 <= pow2(min) <= 256,
        width_for(pow2(min) + 2) == min + 1,
{
    lemma2_to64();
    assert(min == 2 || min == 3 || min == 4 || min == 5 || min == 6 || min == 7 || min == 8);
}

proof fn lemma_width_for(n: nat)
    requires
        6 <= n <= 4096,
    ensures
        3 <= width_for(n) <= 12,
        pow2((width_for(n) - 1) as nat) <= n || n < 8,
        n < pow2(width_for(n)) || n == 4096,
        n == 4096 ==> pow2(width_for(n)) == 4096,
        n < 4096 ==> width_for(n + 1) == (if n + 1 == pow2(width_for(n)) && width_for(n) < 12 {
            width_for(n) + 1
        } else {
            width_for(n)
        }),
{
    lemma2_to64();
}

/// At its start, and behind a clear code, a stream stands behind no words.
pub proof fn law_start_stands(min: nat, bits: Seq<bool>)
    requires
        2 <= min <= 8,
    ensures
        stands_behind(lzw_start(min, bits), min, Seq::empty()),
        lzw_start(min, bits).bits == bits,
{
    lemma_clear(min);
}

/// The width of the codes follows from the number of entries of the dictionary alone.
pub proof fn law_width(m: LzwModel, min: nat, words: Seq<Seq<u8>>)
    requires
        stands_behind(m, min, words),
    ensures
        m.table.len() < pow2(m.width) || m.width == 12,
        pow2((m.width - 1) as nat) <= m.table.len(),
{
    lemma_clear(min);
    lemma_width_for(m.table.len());
    lemma2_to64();
}

/// The first code of the bits of `m`, if they start with it.
proof fn lemma_first_code(m: LzwModel, min: nat, words: Seq<Seq<u8>>, code: nat, rest: Seq<bool>)
    requires
        stands_behind(m, min, words),
        code < pow2(m.width),
        m.bits == number_bits(code, m.width) + rest,
    ensures
        m.bits.len() >= m.width,
        m.width > 0,
        bits_value(m.bits.take(m.width as int)) == code,
        m.bits.skip(m.width as int) == rest,
{
    lemma_clear(min);
    lemma_width_for(m.table.len());
    law_bits_value(code, m.width);
    assert(m.bits.take(m.width as int) =~= number_bits(code, m.width));
    assert(m.bits.skip(m.width as int) =~= rest);
}

proof fn lemma_word_step(
    m: LzwModel,
    min: nat,
    words: Seq<Seq<u8>>,
    code: nat,
    word: Seq<u8>,
)
    requires
        stands_behind(m, min, words),
        says(min, words, code, word),
        m.bits.len() >= m.width,
        bits_value(m.bits.take(m.width as int)) == code,
    ensures
        lzw_next(m) matches LzwStep::Emit(got, next) && got == word && next.bits == m.bits.skip(
            m.width as int,
        ) && stands_behind(next, min, words.push(word)),
{
    lemma_clear(min);
    let n = m.table.len();
    lemma_width_for(n);
    lemma2_to64();
    let clear = pow2(min);
    let more = words.push(word);
    assert(code <= n);
    if code >= clear {
        let k = code - clear - 2;
        assert(words[k].len() > 0);
        assert(code == n ==> words.len() > 0);
        if code < n {
            assert(m.table[code as int] == words[k].push(words[k + 1][0]));
            assert(word == m.table[code as int]);
        } else {
            assert(k == words.len() - 1);
            let last = words.last();
            assert(word == last.push(word[0]));
            assert(word[0] == last[0]);
        }
    }
    assert(word_of(m, code) == Some(word));
    let rest = m.bits.skip(m.width as int);
    let next = learn(m, code, word, rest);
    assert(lzw_next(m) == LzwStep::Emit(word, next));
    assert(next.table.len() == entries(min, more.len()));
    assert(next.width == width_for(next.table.len()));
    assert forall|i: int| 0 <= i < clear implies #[trigger] next.table[i] == seq![i as u8] by {
        assert(next.table[i] == m.table[i]);
    }
    assert forall|i: int| clear + 2 <= i < next.table.len() implies #[trigger] next.table[i]
        == more[i - clear - 2].push(more[i - clear - 1][0]) by {
        if i < n {
            assert(next.table[i] == m.table[i]);
            assert(m.table[i] == words[i - clear - 2].push(words[i - clear - 1][0]));
        } else {
            assert(i == n);
            assert(words.last() == words[i - clear - 2]);
        }
    }
    assert forall|k: int| 0 <= k < more.len() implies (#[trigger] more[k]).len() > 0 by {
        if k < words.len() {
            assert(more[k] == words[k]);
        }
    }
    assert(next.table[code as int] == word) by {
        if code < n {
            assert(next.table[code as int] == m.table[code as int]);
        }
    }
}

/// A decoder behind some words reads the next word that was written, and stands behind that then.
pub proof fn law_word_is_read(
    m: LzwModel,
    min: nat,
    words: Seq<Seq<u8>>,
    code: nat,
    word: Seq<u8>,
    rest: Seq<bool>,
)
    requires
        stands_behind(m, min, words),
        says(min, words, code, word),
        m.bits == number_bits(code, width_behind(min, words)) + rest,
    ensures
        lzw_next(m) matches LzwStep::Emit(got, next) && got == word && next.bits == rest
            && stands_behind(next, min, words.push(word)),
{
    lemma_clear(min);
    lemma_width_for(m.table.len());
    lemma2_to64();
    assert(code <= m.table.len());
    lemma_first_code(m, min, words, code, rest);
    lemma_word_step(m, min, words, code, word);
}

/// Every word that comes out of a stream leaves the decoder behind it: what was read is one of the
/// words that may be written there.
pub proof fn law_every_step_stands(m: LzwModel, min: nat, words: Seq<Seq<u8>>) -> (behind: Seq<
    Seq<u8>,
>)
    requires
        stands_behind(m, min, words),
        lzw_next(m) is Emit,
    ensures
        lzw_next(m) matches LzwStep::Emit(word, next) && behind.len() > 0 && behind.last() == word
            && stands_behind(next, min, behind),
    decreases m.bits.len(),
{
    lemma_clear(min);
    lemma_width_for(m.table.len());
    lemma2_to64();
    let clear = pow2(min);
    let code = bits_value(m.bits.take(m.width as int));
    let rest = m.bits.skip(m.width as int);
    if code == clear {
        law_start_stands(min, rest);
        law_every_step_stands(lzw_start(min, rest), min, Seq::empty())
    } else {
        lemma_bits_value_bound(m.bits.take(m.width as int));
        let n = m.table.len();
        let word = word_of(m, code)->0;
        if code > clear && code < n {
            assert(m.table[code as int] == words[code - clear - 2].push(
                words[code - clear - 1][0],
            ));
        } else if code == n {
            assert(words.len() > 0);
            assert(words.last().len() > 0);
            assert(n < 4096);
            assert(words[code - clear - 2] == words.last());
        }
        lemma_word_step(m, min, words, code, word);
        assert(words.push(word).last() == word);
        words.push(word)
    }
}

/// Where a stream stands when `n` words have come out of it, if so many come.
pub open spec fn after_words(m: LzwModel, n: nat) -> Option<LzwModel>
    decreases n,
{
    if n == 0 {
        Some(m)
    } else {
        match lzw_next(m) {
            LzwStep::Emit(_, next) => after_words(next, (n - 1) as nat),
            _ => None,
        }
    }
}

proof fn lemma_width_after(m: LzwModel, min: nat, words: Seq<Seq<u8>>, n: nat)
    requires
        stands_behind(m, min, words),
    ensures
        after_words(m, n) matches Some(at) ==> {
            &&& pow2((at.width - 1) as nat) <= at.table.len()
            &&& at.table.len() < pow2(at.width) || at.width == 12
        },
    decreases n,
{
    law_width(m, min, words);
    if n > 0 && lzw_next(m) is Emit {
        let behind = law_every_step_stands(m, min, words);
        lemma_width_after(lzw_next(m)->Emit_1, min, behind, (n - 1) as nat);
    }
}

/// At every point of every stream the width of the next code follows from the number of entries
/// of the dictionary alone: it is the number of bits of that number, and 12 at most.
pub proof fn law_width_at_every_point(min: nat, bits: Seq<bool>, n: nat)
    requires
        2 <= min <= 8,
    ensures
        after_words(lzw_start(min, bits), n) matches Some(at) ==> {
            &&& pow2((at.width - 1) as nat) <= at.table.len()
            &&& at.table.len() < pow2(at.width) || at.width == 12
        },
{
    law_start_stands(min, bits);
    lemma_width_after(lzw_start(min, bits), min, Seq::empty(), n);
}

/// A decoder behind some words passes over a clear code, and stands behind no words then.
pub proof fn law_clear_is_read(m: LzwModel, min: nat, words: Seq<Seq<u8>>, rest: Seq<bool>)
    requires
        stands_behind(m, min, words),
        m.bits == number_bits(pow2(min), width_behind(min, words)) + rest,
    ensures
        lzw_next(m) == lzw_next(lzw_start(min, rest)),
        stands_behind(lzw_start(min, rest), min, Seq::empty()),
{
    lemma_clear(min);
    lemma_width_for(m.table.len());
    lemma2_to64();
    lemma_first_code(m, min, words, pow2(min), rest);
    law_start_stands(min, rest);
}

/// A decoder behind some words comes to the end where too few bits are left for a code and at the
/// end code, and tells a fault at a code that stands for nothing.
pub proof fn law_end_is_read(m: LzwModel, min: nat, words: Seq<Seq<u8>>, code: nat)
    requires
        stands_behind(m, min, words),
        ends_with(min, words, m.bits, code),
    ensures
        lzw_next(m) == (if m.bits.len() < width_behind(min, words) || code == pow2(min) + 1 {
            LzwStep::End
        } else {
            LzwStep::Fault(LzwError::InvalidCode)
        }),
{
    lemma_clear(min);
    lemma_width_for(m.table.len());
    if m.bits.len() >= m.width {
        let rest = m.bits.skip(m.width as int);
        assert(m.bits =~= number_bits(code, m.width) + rest);
        lemma_first_code(m, min, words, code, rest);
    }
}

proof fn lemma_stream(
    m: LzwModel,
    min: nat,
    words: Seq<Seq<u8>>,
    signs: Seq<Sign>,
    tail: Seq<bool>,
    code: nat,
)
    requires
        stands_behind(m, min, words),
        says_all(min, words, signs),
        m.bits == said_bits(min, words, signs) + tail,
        ends_with(min, words_behind_all(words, signs), tail, code),
    ensures
        lzw_indices(m) == said(signs),
    decreases signs.len(),
{
    if signs.len() == 0 {
        assert(m.bits =~= tail);
        law_end_is_read(m, min, words, code);
    } else {
        let behind = words_behind(words, signs[0]);
        let rest = said_bits(min, behind, signs.skip(1)) + tail;
        match signs[0] {
            Sign::Clear => {
                assert(m.bits =~= number_bits(pow2(min), width_behind(min, words)) + rest);
                law_clear_is_read(m, min, words, rest);
                lemma_stream(lzw_start(min, rest), min, behind, signs.skip(1), tail, code);
            },
            Sign::Word(c, word) => {
                assert(m.bits =~= number_bits(c, width_behind(min, words)) + rest);
                law_word_is_read(m, min, words, c, word, rest);
                let next = lzw_next(m)->Emit_1;
                lemma_stream(next, min, behind, signs.skip(1), tail, code);
            },
        }
    }
}

/// A stream is decoded to the colour indices of the words that were written into it, up to where
/// it ends, breaks off or goes wrong.
pub proof fn law_stream_is_decoded(
    min: u8,
    data: Seq<u8>,
    signs: Seq<Sign>,
    tail: Seq<bool>,
    code: nat,
)
    requires
        2 <= min <= 8,
        says_all(min as nat, Seq::empty(), signs),
        byte_bits(data) == said_bits(min as nat, Seq::empty(), signs) + tail,
        ends_with(min as nat, words_behind_all(Seq::empty(), signs), tail, code),
    ensures
        decoded(min, data) == said(signs),
{
    law_bits_of_bytes(data);
    law_start_stands(min as nat, bits_of(data));
    lemma_stream(
        lzw_start(min as nat, bits_of(data)),
        min as nat,
        Seq::empty(),
        signs,
        tail,
        code,
    );
}

/// Nothing is decoded if the minimum code size is less than 2 or more than 8.
pub proof fn law_wrong_code_size(m: LzwModel, min: u8, data: Seq<u8>)
    requires
        min < 2 || min > 8,
        m.min_code_size == min,
    ensures
        lzw_next(m) == LzwStep::Fault(LzwError::InvalidCodeSize),
        decoded(min, data) == Seq::<u8>::empty(),
{
    assert(lzw_next(lzw_start(min as nat, bits_of(data))) is Fault);
}

/// Nothing comes out of a stream that has no bits left.
pub proof fn law_nothing_left(m: LzwModel)
    requires
        m.bits.len() == 0,
        m.width > 0,
    ensures
        !(lzw_next(m) is Emit),
        lzw_indices(m) == Seq::<u8>::empty(),
{
}

/// All that comes out of a stream is the word that comes first and what comes out behind it.
pub proof fn law_indices_follow_words(m: LzwModel)
    ensures
        lzw_next(m) matches LzwStep::Emit(word, next) ==> lzw_indices(m) == word + lzw_indices(
            next,
        ),
        !(lzw_next(m) is Emit) ==> lzw_indices(m) == Seq::<u8>::empty(),
{
}

} // verus!
