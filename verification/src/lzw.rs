//! The variable-width LZW coding that carries the colour indices of an image.
//!
//! A stream is a run of codes. A code below the clear code stands for the colour index of the
//! same number; the clear code empties the dictionary; the code behind it ends the stream; every
//! higher code stands for a word that the dictionary has learnt from the codes before.

use crate::bitstream::{bits_of, bits_value, lemma_bits_value_bound, BitStream};
use crate::blocks::LenPrefixRawDataView;
use vstd::arithmetic::power2::{lemma2_to64, lemma_pow2_unfold, pow2};
use vstd::prelude::*;

verus! {

/// The widest code, in bits.
pub const MAX_CODE_SIZE: u8 = 12;

/// The largest number of codes that a dictionary holds.
pub const MAX_CODES: u16 = 4096;

/// Why a stream cannot be decoded any further.
#[derive(Debug, Copy, Clone, PartialEq, Eq)]
pub enum LzwError {
    /// The minimum code size is none that an image may have: it is 2 at least and 8 at most.
    InvalidCodeSize,
    /// A code that the dictionary does not hold.
    InvalidCode,
}

/// Where the decoding of a stream stands.
pub ghost struct LzwModel {
    /// The number of bits that a colour index takes.
    pub min_code_size: nat,
    /// The word of each code; the clear code and the end code have none.
    pub table: Seq<Seq<u8>>,
    /// The width of the next code.
    pub width: nat,
    /// The code before, if one came after the dictionary was emptied.
    pub prev: Option<nat>,
    /// The bits that are still to be read.
    pub bits: Seq<bool>,
}

/// What comes next out of a stream.
pub ghost enum LzwStep {
    /// The colour indices of one code, and the state behind it.
    Emit(Seq<u8>, LzwModel),
    /// The end.
    End,
    /// A fault.
    Fault(LzwError),
}

pub open spec fn valid_code_size(min_code_size: nat) -> bool {
    2 <= min_code_size <= 8
}

/// The code that empties the dictionary; the one behind it ends the stream.
pub open spec fn clear_code(min_code_size: nat) -> nat {
    pow2(min_code_size)
}

/// The dictionary that knows nothing but the colour indices.
pub open spec fn fresh_table(min_code_size: nat) -> Seq<Seq<u8>> {
    Seq::new(
        clear_code(min_code_size) + 2,
        |i: int|
            if i < clear_code(min_code_size) {
                seq![i as u8]
            } else {
                Seq::empty()
            },
    )
}

/// The state at the start of a stream, and behind a clear code.
pub open spec fn lzw_start(min_code_size: nat, bits: Seq<bool>) -> LzwModel {
    LzwModel {
        min_code_size,
        table: fresh_table(min_code_size),
        width: min_code_size + 1,
        prev: None,
        bits,
    }
}

/// The word that `code` stands for: one of the dictionary, or the very word that the dictionary
/// is about to learn.
pub open spec fn word_of(m: LzwModel, code: nat) -> Option<Seq<u8>> {
    if code < m.table.len() {
        Some(m.table[code as int])
    } else if code == m.table.len() {
        match m.prev {
            Some(prev) => {
                let word = m.table[prev as int];
                Some(word.push(word[0]))
            },
            None => None,
        }
    } else {
        None
    }
}

/// The state behind a `code` that stands for `word`: the dictionary learns the word before,
/// extended by the first index of this one, and the codes grow wider when it has used them up.
pub open spec fn learn(m: LzwModel, code: nat, word: Seq<u8>, bits: Seq<bool>) -> LzwModel {
    let table = match m.prev {
        Some(prev) => if m.table.len() < MAX_CODES {
            m.table.push(m.table[prev as int].push(word[0]))
        } else {
            m.table
        },
        None => m.table,
    };
    LzwModel {
        min_code_size: m.min_code_size,
        table,
        width: if table.len() == pow2(m.width) && m.width < MAX_CODE_SIZE {
            m.width + 1
        } else {
            m.width
        },
        prev: Some(code),
        bits,
    }
}

/// What comes next out of a stream in state `m`.
pub open spec fn lzw_next(m: LzwModel) -> LzwStep
    decreases m.bits.len(),
{
    if !valid_code_size(m.min_code_size) {
        LzwStep::Fault(LzwError::InvalidCodeSize)
    } else if m.bits.len() < m.width || m.width == 0 {
        LzwStep::End
    } else {
        let code = bits_value(m.bits.take(m.width as int));
        let rest = m.bits.skip(m.width as int);
        if code == clear_code(m.min_code_size) {
            lzw_next(lzw_start(m.min_code_size, rest))
        } else if code == clear_code(m.min_code_size) + 1 {
            LzwStep::End
        } else {
            match word_of(m, code) {
                Some(word) => LzwStep::Emit(word, learn(m, code, word, rest)),
                None => LzwStep::Fault(LzwError::InvalidCode),
            }
        }
    }
}

/// Every step takes bits out of the stream.
pub proof fn lemma_next_shrinks(m: LzwModel)
    ensures
        lzw_next(m) matches LzwStep::Emit(_, next) ==> next.bits.len() < m.bits.len(),
    decreases m.bits.len(),
{
    if valid_code_size(m.min_code_size) && m.bits.len() >= m.width && m.width != 0 {
        lemma_next_shrinks(lzw_start(m.min_code_size, m.bits.skip(m.width as int)));
    }
}

/// All colour indices that come out of a stream in state `m` before its end or a fault.
pub open spec fn lzw_indices(m: LzwModel) -> Seq<u8>
    decreases m.bits.len(),
{
    match lzw_next(m) {
        LzwStep::Emit(word, next) => {
            proof {
                lemma_next_shrinks(m);
            }
            word + lzw_indices(next)
        },
        _ => Seq::empty(),
    }
}

/// The colour indices that some data bytes carry.
pub open spec fn decoded(min_code_size: u8, data: Seq<u8>) -> Seq<u8> {
    lzw_indices(lzw_start(min_code_size as nat, bits_of(data)))
}

/// The word of code `i` in a dictionary that keeps for each code the code of the word without
/// its last index, and that index.
spec fn word_at(clear: nat, prefix: Seq<u16>, suffix: Seq<u8>, i: nat) -> Seq<u8>
    decreases i,
{
    if i < clear {
        seq![suffix[i as int]]
    } else if i <= clear + 1 || prefix[i as int] >= i {
        Seq::empty()
    } else {
        word_at(clear, prefix, suffix, prefix[i as int] as nat).push(suffix[i as int])
    }
}

/// A code that stands for colour indices.
spec fn is_data_code(clear: nat, len: nat, code: nat) -> bool {
    code < len && code != clear && code != clear + 1
}

spec fn links_down(clear: nat, prefix: Seq<u16>) -> bool {
    forall|i: int|
        clear + 2 <= i < prefix.len() ==> is_data_code(clear, i as nat, #[trigger] prefix[i] as nat)
}

proof fn lemma_word_nonempty(clear: nat, prefix: Seq<u16>, suffix: Seq<u8>, i: nat)
    requires
        links_down(clear, prefix),
        is_data_code(clear, prefix.len(), i),
    ensures
        word_at(clear, prefix, suffix, i).len() > 0,
{
}

proof fn lemma_word_local(
    clear: nat,
    prefix: Seq<u16>,
    suffix: Seq<u8>,
    prefix2: Seq<u16>,
    suffix2: Seq<u8>,
    i: nat,
)
    requires
        forall|j: int| 0 <= j <= i ==> prefix[j] == prefix2[j] && suffix[j] == suffix2[j],
    ensures
        word_at(clear, prefix, suffix, i) == word_at(clear, prefix2, suffix2, i),
    decreases i,
{
    assert(prefix[i as int] == prefix2[i as int]);
    if i > clear + 1 && prefix[i as int] < i {
        lemma_word_local(clear, prefix, suffix, prefix2, suffix2, prefix[i as int] as nat);
    }
}

/// A decoder of the stream that a sub-block chain carries.
pub struct Decoder<'a> {
    source: BitStream<'a>,
    done: bool,
    min_code_size: u8,
    clear: u16,
    width: u8,
    /// The number of codes that `width` bits can tell apart.
    limit: u16,
    prefix: Vec<u16>,
    suffix: Vec<u8>,
    prev: Option<u16>,
}

impl<'a> Decoder<'a> {
    pub closed spec fn wf(&self) -> bool {
        &&& self.source.wf()
        &&& valid_code_size(self.min_code_size as nat) ==> self.dictionary_wf()
    }

    spec fn dictionary_wf(&self) -> bool {
        &&& self.clear == clear_code(self.min_code_size as nat)
        &&& 4 <= self.clear <= 256
        &&& self.min_code_size < self.width <= MAX_CODE_SIZE
        &&& self.limit == pow2(self.width as nat)
        &&& self.clear + 2 <= self.prefix@.len() <= MAX_CODES
        &&& self.suffix@.len() == self.prefix@.len()
        &&& forall|i: int| 0 <= i < self.clear ==> self.suffix@[i] == i
        &&& links_down(self.clear as nat, self.prefix@)
        &&& self.prev matches Some(prev) ==> is_data_code(
            self.clear as nat,
            self.prefix@.len(),
            prev as nat,
        )
    }

    spec fn table(&self) -> Seq<Seq<u8>> {
        Seq::new(
            self.prefix@.len(),
            |i: int| word_at(self.clear as nat, self.prefix@, self.suffix@, i as nat),
        )
    }
}

impl<'a> View for Decoder<'a> {
    type V = LzwModel;

    closed spec fn view(&self) -> LzwModel {
        if valid_code_size(self.min_code_size as nat) {
            LzwModel {
                min_code_size: self.min_code_size as nat,
                table: self.table(),
                width: self.width as nat,
                prev: match self.prev {
                    Some(prev) => Some(prev as nat),
                    None => None,
                },
                bits: if self.done {
                    Seq::empty()
                } else {
                    self.source@
                },
            }
        } else {
            lzw_start(
                self.min_code_size as nat,
                if self.done {
                    Seq::empty()
                } else {
                    self.source@
                },
            )
        }
    }
}

impl<'a> Decoder<'a> {
    /// A decoder at the start of the stream.
    pub fn new(source: LenPrefixRawDataView<'a>, min_code_size: u8) -> (res: Self)
        requires
            source.wf(),
            source.closed_chain(),
        ensures
            res.wf(),
            res@ == lzw_start(min_code_size as nat, bits_of(source@)),
    {
        let mut res = Decoder {
            source: BitStream::new(source),
            done: false,
            min_code_size,
            clear: 1,
            width: 0,
            limit: 1,
            prefix: Vec::new(),
            suffix: Vec::new(),
            prev: None,
        };
        if min_code_size < 2 || min_code_size > 8 {
            return res;
        }
        let mut clear: u16 = 1;
        let mut i: u8 = 0;
        proof {
            lemma2_to64();
        }
        while i < min_code_size
            invariant
                i <= min_code_size <= 8,
                clear == pow2(i as nat),
                clear <= 256,
            decreases min_code_size - i,
        {
            proof {
                lemma2_to64();
                lemma_pow2_unfold((i + 1) as nat);
                lemma_pow2_at_most(i as nat, 7);
            }
            clear = clear * 2;
            i += 1;
        }
        proof {
            lemma2_to64();
            lemma_pow2_at_most(2, min_code_size as nat);
        }
        let mut prefix: Vec<u16> = Vec::new();
        let mut suffix: Vec<u8> = Vec::new();
        let mut k: u16 = 0;
        while k < clear + 2
            invariant
                k <= clear + 2,
                clear <= 256,
                prefix@.len() == k,
                suffix@.len() == k,
                forall|j: int| 0 <= j < k && j < clear ==> suffix@[j] == j,
            decreases clear + 2 - k,
        {
            prefix.push(0);
            suffix.push(if k < clear {
                k as u8
            } else {
                0
            });
            k += 1;
        }
        proof {
            lemma_pow2_unfold((min_code_size + 1) as nat);
        }
        res.clear = clear;
        res.width = min_code_size + 1;
        res.limit = clear * 2;
        res.prefix = prefix;
        res.suffix = suffix;
        assert(res.table() =~= fresh_table(min_code_size as nat));
        res
    }

    /// Empties the dictionary.
    fn reset(&mut self)
        requires
            old(self).wf(),
            valid_code_size(old(self).min_code_size as nat),
            !old(self).done,
        ensures
            final(self).wf(),
            final(self).min_code_size == old(self).min_code_size,
            !final(self).done,
            final(self)@ == lzw_start(old(self)@.min_code_size, old(self)@.bits),
    {
        let size = self.clear as usize + 2;
        self.prefix.truncate(size);
        self.suffix.truncate(size);
        self.width = self.min_code_size + 1;
        self.limit = self.clear * 2;
        self.prev = None;
        proof {
            lemma_pow2_unfold((self.min_code_size + 1) as nat);
            assert(self.table() =~= fresh_table(self.min_code_size as nat));
        }
    }

    /// The word of a code that the dictionary holds.
    fn reconstruct(&self, code: u16) -> (word: Vec<u8>)
        requires
            self.wf(),
            valid_code_size(self.min_code_size as nat),
            is_data_code(self.clear as nat, self.prefix@.len(), code as nat),
        ensures
            word@ == self.table()[code as int],
            word@.len() > 0,
    {
        let mut reversed: Vec<u8> = Vec::new();
        let mut at = code;
        let ghost all = word_at(self.clear as nat, self.prefix@, self.suffix@, code as nat);
        proof {
            lemma_word_nonempty(self.clear as nat, self.prefix@, self.suffix@, code as nat);
        }
        while at >= self.clear
            invariant
                self.dictionary_wf(),
                is_data_code(self.clear as nat, self.prefix@.len(), at as nat),
                all == word_at(self.clear as nat, self.prefix@, self.suffix@, at as nat)
                    + reversed@.reverse(),
            decreases at,
        {
            let ghost before = reversed@;
            reversed.push(self.suffix[at as usize]);
            assert(is_data_code(
                self.clear as nat,
                at as nat,
                self.prefix@[at as int] as nat,
            ));
            assert(all =~= word_at(
                self.clear as nat,
                self.prefix@,
                self.suffix@,
                self.prefix@[at as int] as nat,
            ) + reversed@.reverse());
            at = self.prefix[at as usize];
        }
        reversed.push(self.suffix[at as usize]);
        assert(all =~= reversed@.reverse());
        let mut word: Vec<u8> = Vec::new();
        let mut left = reversed.len();
        while left > 0
            invariant
                left <= reversed@.len(),
                word@ == reversed@.skip(left as int).reverse(),
            decreases left,
        {
            left -= 1;
            word.push(reversed[left]);
            assert(word@ =~= reversed@.skip(left as int).reverse());
        }
        assert(reversed@.skip(0) =~= reversed@);
        word
    }

    /// Lets the dictionary learn from a code whose word starts with `first`.
    fn learn(&mut self, code: u16, first: u8)
        requires
            old(self).wf(),
            valid_code_size(old(self).min_code_size as nat),
            !old(self).done,
            code < MAX_CODES,
            code != old(self).clear && code != old(self).clear + 1,
            code <= old(self)@.table.len(),
            code == old(self)@.table.len() ==> old(self)@.prev is Some,
        ensures
            final(self).wf(),
            final(self).min_code_size == old(self).min_code_size,
            final(self)@ == learn(old(self)@, code as nat, seq![first], old(self)@.bits),
    {
        let ghost clear = self.clear as nat;
        let ghost prefix = self.prefix@;
        let ghost suffix = self.suffix@;
        if let Some(prev) = self.prev {
            if self.prefix.len() < MAX_CODES as usize {
                self.prefix.push(prev);
                self.suffix.push(first);
                proof {
                    let n = prefix.len();
                    assert forall|i: int| 0 <= i < n implies #[trigger] self.table()[i]
                        == old(self).table()[i] by {
                        lemma_word_local(
                            clear,
                            prefix,
                            suffix,
                            self.prefix@,
                            self.suffix@,
                            i as nat,
                        );
                    }
                    assert(self.table()[prev as int] == old(self).table()[prev as int]);
                    assert(self.table() =~= old(self).table().push(
                        old(self).table()[prev as int].push(first),
                    ));
                }
            }
        }
        if self.prefix.len() == self.limit as usize && self.width < MAX_CODE_SIZE {
            proof {
                lemma2_to64();
                lemma_pow2_unfold((self.width + 1) as nat);
                lemma_pow2_at_most(self.width as nat, 11);
            }
            self.width += 1;
            self.limit = self.limit * 2;
        }
        self.prev = Some(code);
    }

    /// Decodes the next code that stands for colour indices.
    ///
    /// `Ok(None)` tells the end of the stream. Behind the end or a fault nothing more is decoded.
    pub fn decode_next(&mut self) -> (res: Result<Option<Vec<u8>>, LzwError>)
        requires
            old(self).wf(),
        ensures
            final(self).wf(),
            match lzw_next(old(self)@) {
                LzwStep::Emit(word, next) => res matches Ok(Some(chunk)) && chunk@ == word
                    && final(self)@ == next,
                LzwStep::End => res == Ok::<Option<Vec<u8>>, LzwError>(None)
                    && final(self)@.bits.len() == 0,
                LzwStep::Fault(fault) => res == Err::<Option<Vec<u8>>, _>(fault)
                    && final(self)@.bits.len() == 0,
            },
            final(self)@.min_code_size == old(self)@.min_code_size,
    {
        if self.min_code_size < 2 || self.min_code_size > 8 {
            self.done = true;
            return Err(LzwError::InvalidCodeSize);
        }
        if self.done {
            return Ok(None);
        }
        loop
            invariant
                self.wf(),
                !self.done,
                valid_code_size(self.min_code_size as nat),
                self.min_code_size == old(self).min_code_size,
                lzw_next(self@) == lzw_next(old(self)@),
            decreases self@.bits.len(),
        {
            let ghost m = self@;
            let code = match self.source.read_code(self.width) {
                None => {
                    self.done = true;
                    return Ok(None);
                },
                Some(code) => code,
            };
            let ghost rest = self.source@;
            assert(self.table() == m.table);
            if code == self.clear {
                self.reset();
                assert(self@ == lzw_start(m.min_code_size, rest));
                continue ;
            }
            if code == self.clear + 1 {
                self.done = true;
                return Ok(None);
            }
            let known = self.prefix.len();
            if code as usize > known || (code as usize == known && self.prev.is_none()) {
                self.done = true;
                return Err(LzwError::InvalidCode);
            }
            let word = if (code as usize) < known {
                self.reconstruct(code)
            } else {
                let mut word = self.reconstruct(self.prev.unwrap());
                let first = word[0];
                word.push(first);
                word
            };
            assert(word_of(m, code as nat) == Some(word@));
            proof {
                lemma_bits_value_bound(m.bits.take(m.width as int));
                lemma2_to64();
                lemma_pow2_at_most(m.width, 12);
            }
            self.learn(code, word[0]);
            return Ok(Some(word));
        }
    }
}

proof fn lemma_pow2_at_most(m: nat, n: nat)
    requires
        m <= n,
    ensures
        pow2(m) <= pow2(n),
{
    if m < n {
        vstd::arithmetic::power2::lemma_pow2_strictly_increases(m, n);
    }
}

} // verus!
