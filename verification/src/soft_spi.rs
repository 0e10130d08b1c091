//! A write-only serial bus made of three output pins.
use vstd::prelude::*;

verus! {

/// One pin operation of the bit-banged bus.
#[derive(Clone, Copy, Debug, PartialEq, Eq, Structural)]
pub enum PinOp {
    /// Drive chip select low: the transfer begins.
    CsLow,
    /// Drive chip select high: the transfer is over.
    CsHigh,
    /// Drive the clock low.
    SckLow,
    /// Drive the clock high. The receiver samples the data line on this edge.
    SckHigh,
    /// Drive the data line low: a zero bit.
    MosiLow,
    /// Drive the data line high: a one bit.
    MosiHigh,
}

/// Whether the given bit of a word is set, bit 0 being the most significant.
pub open spec fn bit_is_set(word: u8, bit: u8) -> bool {
    word & (0x80u8 >> bit) != 0
}

/// The pin operation that puts the given bit of a word on the data line.
pub open spec fn data_op(word: u8, bit: u8) -> PinOp {
    if bit_is_set(word, bit) {
        PinOp::MosiHigh
    } else {
        PinOp::MosiLow
    }
}

/// One clock cycle: clock low, the bit on the data line, clock high.
pub open spec fn cycle_ops(word: u8, bit: u8) -> Seq<PinOp> {
    seq![PinOp::SckLow, data_op(word, bit), PinOp::SckHigh]
}

/// The clock cycles for the bits of a word from bit `from` on, most
/// significant bit first.
pub open spec fn bit_ops(word: u8, from: u8) -> Seq<PinOp>
    decreases 8 - from,
{
    if from >= 8 {
        Seq::empty()
    } else {
        cycle_ops(word, from) + bit_ops(word, (from + 1) as u8)
    }
}

/// The clock cycles for a run of words, first word first.
pub open spec fn words_ops(words: Seq<u8>) -> Seq<PinOp>
    decreases words.len(),
{
    if words.len() == 0 {
        Seq::empty()
    } else {
        bit_ops(words[0], 0) + words_ops(words.skip(1))
    }
}

/// A whole write: chip select low, every bit of every word, chip select high.
pub open spec fn write_ops(words: Seq<u8>) -> Seq<PinOp> {
    seq![PinOp::CsLow] + words_ops(words) + seq![PinOp::CsHigh]
}

/// A write costs two pin operations for the chip select and twenty-four for
/// every word.
pub proof fn lemma_write_ops_len(words: Seq<u8>)
    ensures
        write_ops(words).len() == 2 + 24 * words.len(),
    decreases words.len(),
{
    lemma_words_ops_len(words);
}

proof fn lemma_words_ops_len(words: Seq<u8>)
    ensures
        words_ops(words).len() == 24 * words.len(),
    decreases words.len(),
{
    if words.len() > 0 {
        reveal_with_fuel(bit_ops, 9);
        assert(bit_ops(words[0], 0).len() == 24);
        lemma_words_ops_len(words.skip(1));
    }
}

/// The bits of a word from bit `from` on, most significant first.
pub open spec fn word_bits(word: u8, from: u8) -> Seq<bool>
    decreases 8 - from,
{
    if from >= 8 {
        Seq::empty()
    } else {
        seq![bit_is_set(word, from)] + word_bits(word, (from + 1) as u8)
    }
}

/// The bits of a run of words, first word first, each most significant bit
/// first.
pub open spec fn bits_of(words: Seq<u8>) -> Seq<bool>
    decreases words.len(),
{
    if words.len() == 0 {
        Seq::empty()
    } else {
        word_bits(words[0], 0) + bits_of(words.skip(1))
    }
}

/// What a receiver takes in that samples the data line on every rising edge
/// of the clock. `clock` and `data` are the levels of the two lines before
/// the first pin operation.
pub open spec fn sampled(ops: Seq<PinOp>, clock: bool, data: bool) -> Seq<bool>
    decreases ops.len(),
{
    if ops.len() == 0 {
        Seq::empty()
    } else {
        match ops[0] {
            PinOp::SckLow => sampled(ops.skip(1), false, data),
            PinOp::SckHigh => (if clock {
                Seq::empty()
            } else {
                seq![data]
            }) + sampled(ops.skip(1), true, data),
            PinOp::MosiLow => sampled(ops.skip(1), clock, false),
            PinOp::MosiHigh => sampled(ops.skip(1), clock, true),
            _ => sampled(ops.skip(1), clock, data),
        }
    }
}

/// One clock cycle in front of further pin operations delivers its bit and
/// leaves the clock high and the bit on the data line.
proof fn lemma_sampled_cycle(word: u8, bit: u8, rest: Seq<PinOp>, clock: bool, data: bool)
    ensures
        sampled(cycle_ops(word, bit) + rest, clock, data) == seq![bit_is_set(word, bit)] + sampled(
            rest,
            true,
            bit_is_set(word, bit),
        ),
{
    let level = bit_is_set(word, bit);
    let all = cycle_ops(word, bit) + rest;
    let after_low = all.skip(1);
    let after_data = after_low.skip(1);
    assert(all[0] == PinOp::SckLow);
    assert(after_low[0] == data_op(word, bit));
    assert(after_data[0] == PinOp::SckHigh);
    assert(after_data.skip(1) =~= rest);
    assert(sampled(after_data, false, level) =~= seq![level] + sampled(rest, true, level));
    assert(sampled(after_low, false, data) == sampled(after_data, false, level));
    assert(sampled(all, clock, data) == sampled(after_low, false, data));
}

/// The rest of a word, then further words, then the end of the transfer:
/// the receiver takes in exactly the bits shifted out, in order.
proof fn lemma_sampled_words(word: u8, from: u8, rest: Seq<u8>, clock: bool, data: bool)
    requires
        from <= 8,
    ensures
        sampled(bit_ops(word, from) + (words_ops(rest) + seq![PinOp::CsHigh]), clock, data)
            == word_bits(word, from) + bits_of(rest),
    decreases rest.len(), 8 - from,
{
    let tail = words_ops(rest) + seq![PinOp::CsHigh];
    if from >= 8 {
        assert(bit_ops(word, from) + tail =~= tail);
        assert(word_bits(word, from) + bits_of(rest) =~= bits_of(rest));
        if rest.len() == 0 {
            assert(tail =~= seq![PinOp::CsHigh]);
            assert(tail.skip(1) =~= Seq::<PinOp>::empty());
            assert(sampled(tail.skip(1), clock, data) =~= Seq::<bool>::empty());
            assert(sampled(tail, clock, data) =~= Seq::<bool>::empty());
        } else {
            let next_tail = words_ops(rest.skip(1)) + seq![PinOp::CsHigh];
            assert(tail =~= bit_ops(rest[0], 0) + next_tail);
            lemma_sampled_words(rest[0], 0, rest.skip(1), clock, data);
        }
    } else {
        let level = bit_is_set(word, from);
        let next = (from + 1) as u8;
        assert(bit_ops(word, from) + tail =~= cycle_ops(word, from) + (bit_ops(word, next) + tail));
        lemma_sampled_cycle(word, from, bit_ops(word, next) + tail, clock, data);
        lemma_sampled_words(word, next, rest, true, level);
        assert(word_bits(word, from) + bits_of(rest) =~= seq![level] + (word_bits(word, next)
            + bits_of(rest)));
    }
}

/// Sampling on the rising clock edge, the receiver of a write takes in the
/// bits of the words in order, each word most significant bit first, and
/// nothing else, however clock and data line stood before.
pub proof fn lemma_write_sampled(words: Seq<u8>, clock: bool, data: bool)
    ensures
        sampled(write_ops(words), clock, data) == bits_of(words),
{
    let body = words_ops(words) + seq![PinOp::CsHigh];
    let all = write_ops(words);
    assert(all[0] == PinOp::CsLow);
    assert(all.skip(1) =~= body);
    assert(sampled(all, clock, data) == sampled(body, clock, data));
    if words.len() == 0 {
        assert(body =~= seq![PinOp::CsHigh]);
        assert(body.skip(1) =~= Seq::<PinOp>::empty());
        assert(sampled(body.skip(1), clock, data) =~= Seq::<bool>::empty());
        assert(sampled(body, clock, data) =~= Seq::<bool>::empty());
    } else {
        let tail = words_ops(words.skip(1)) + seq![PinOp::CsHigh];
        assert(body =~= bit_ops(words[0], 0) + tail);
        lemma_sampled_words(words[0], 0, words.skip(1), clock, data);
    }
}

/// Bit `i` of what is left of a word from bit `from` on is bit `from + i` of
/// the word.
pub proof fn lemma_word_bits_index(word: u8, from: u8)
    requires
        from <= 8,
    ensures
        word_bits(word, from).len() == 8 - from,
        forall|i: int|
            0 <= i < 8 - from ==> #[trigger] word_bits(word, from)[i] == bit_is_set(
                word,
                (from + i) as u8,
            ),
    decreases 8 - from,
{
    if from < 8 {
        let next = (from + 1) as u8;
        lemma_word_bits_index(word, next);
        assert forall|i: int| 0 <= i < 8 - from implies #[trigger] word_bits(word, from)[i]
            == bit_is_set(word, (from + i) as u8) by {
            if i > 0 {
                assert(word_bits(word, from)[i] == word_bits(word, next)[i - 1]);
            }
        }
    }
}

/// The value of eight bits, the first being the most significant.
pub open spec fn byte_of(bits: Seq<bool>) -> int {
    (if bits[0] { 128int } else { 0int }) + (if bits[1] { 64int } else { 0int }) + (if bits[2] {
        32int
    } else {
        0int
    }) + (if bits[3] { 16int } else { 0int }) + (if bits[4] { 8int } else { 0int }) + (if bits[5] {
        4int
    } else {
        0int
    }) + (if bits[6] { 2int } else { 0int }) + (if bits[7] { 1int } else { 0int })
}

/// The eight bits shifted out for a word, read with the first as the most
/// significant, are the word.
pub proof fn lemma_word_bits_value(word: u8)
    ensures
        word_bits(word, 0).len() == 8,
        byte_of(word_bits(word, 0)) == word,
{
    lemma_word_bits_index(word, 0);
    let bits = word_bits(word, 0);
    assert(bits[0] == bit_is_set(word, 0));
    assert(bits[1] == bit_is_set(word, 1));
    assert(bits[2] == bit_is_set(word, 2));
    assert(bits[3] == bit_is_set(word, 3));
    assert(bits[4] == bit_is_set(word, 4));
    assert(bits[5] == bit_is_set(word, 5));
    assert(bits[6] == bit_is_set(word, 6));
    assert(bits[7] == bit_is_set(word, 7));
    assert(word == (if word & (0x80u8 >> 0u8) != 0 { 128int } else { 0int })
        + (if word & (0x80u8 >> 1u8) != 0 { 64int } else { 0int })
        + (if word & (0x80u8 >> 2u8) != 0 { 32int } else { 0int })
        + (if word & (0x80u8 >> 3u8) != 0 { 16int } else { 0int })
        + (if word & (0x80u8 >> 4u8) != 0 { 8int } else { 0int })
        + (if word & (0x80u8 >> 5u8) != 0 { 4int } else { 0int })
        + (if word & (0x80u8 >> 6u8) != 0 { 2int } else { 0int })
        + (if word & (0x80u8 >> 7u8) != 0 { 1int } else { 0int })) by (bit_vector);
}

/// The bit-banged bus. It owns no pin: it says which pins to drive, in which
/// order.
#[derive(Clone, Copy, Debug, PartialEq, Eq)]
pub struct SoftSpi {}

/// A bit-banged write in progress. It hands out its pin operations one at a
/// time.
#[derive(Clone, Copy, Debug, PartialEq, Eq)]
pub struct Shift<'a> {
    words: &'a [u8],
    /// Chip select has been driven low.
    started: bool,
    /// Index of the word being shifted out.
    index: usize,
    /// Bit of that word being shifted out, 0 for the most significant.
    bit: u8,
    /// How many operations of that bit's clock cycle are done.
    phase: u8,
    /// Chip select has been driven high again.
    finished: bool,
}

impl<'a> Shift<'a> {
    #[verifier::type_invariant]
    spec fn inv(self) -> bool {
        &&& self.index <= self.words@.len()
        &&& self.bit < 8
        &&& self.phase < 3
        &&& self.index == self.words@.len() ==> self.bit == 0 && self.phase == 0
        &&& !self.started ==> self.index == 0 && self.bit == 0 && self.phase == 0 && !self.finished
    }

    /// The pin operations still to be carried out, the next one first.
    pub closed spec fn pending(&self) -> Seq<PinOp> {
        if self.finished {
            Seq::empty()
        } else {
            (if self.started {
                Seq::empty()
            } else {
                seq![PinOp::CsLow]
            }) + (if self.index < self.words@.len() {
                cycle_ops(self.words@[self.index as int], self.bit).skip(self.phase as int)
                    + bit_ops(self.words@[self.index as int], (self.bit + 1) as u8) + words_ops(
                    self.words@.skip(self.index + 1),
                )
            } else {
                Seq::empty()
            }) + seq![PinOp::CsHigh]
        }
    }

    /// The next pin operation, or `None` when the write is complete.
    pub fn next(&mut self) -> (op: Option<PinOp>)
        ensures
            old(self).pending().len() == 0 ==> op is None
                && final(self).pending() == old(self).pending(),
            old(self).pending().len() > 0 ==> op == Some(old(self).pending()[0])
                && final(self).pending() == old(self).pending().skip(1),
    {
        proof {
            use_type_invariant(&*self);
        }
        if self.finished {
            return None;
        }
        if !self.started {
            self.started = true;
            proof {
                if self.words@.len() > 0 {
                    assert(self.words@.skip(0) =~= self.words@);
                    assert(bit_ops(self.words@[0], 0) =~= cycle_ops(self.words@[0], 0).skip(0)
                        + bit_ops(self.words@[0], 1));
                }
            }
            assert(final(self).pending() =~= old(self).pending().skip(1));
            return Some(PinOp::CsLow);
        }
        if self.index >= self.words.len() {
            self.finished = true;
            assert(final(self).pending() =~= old(self).pending().skip(1));
            return Some(PinOp::CsHigh);
        }
        let word = self.words[self.index];
        if self.phase == 0 {
            self.phase = 1;
            assert(final(self).pending() =~= old(self).pending().skip(1));
            return Some(PinOp::SckLow);
        }
        if self.phase == 1 {
            let op = if word & (0x80u8 >> self.bit) != 0 {
                PinOp::MosiHigh
            } else {
                PinOp::MosiLow
            };
            self.phase = 2;
            assert(final(self).pending() =~= old(self).pending().skip(1));
            return Some(op);
        }
        self.phase = 0;
        if self.bit < 7 {
            self.bit = self.bit + 1;
            assert(final(self).pending() =~= old(self).pending().skip(1));
        } else {
            self.bit = 0;
            self.index = self.index + 1;
            proof {
                assert(bit_ops(word, 8) =~= Seq::<PinOp>::empty());
                if self.index < self.words@.len() {
                    let after = self.words@.skip(self.index as int);
                    assert(after.skip(1) =~= self.words@.skip(self.index + 1));
                    assert(after[0] == self.words@[self.index as int]);
                    assert(bit_ops(after[0], 0) =~= cycle_ops(after[0], 0).skip(0) + bit_ops(
                        after[0],
                        1,
                    ));
                } else {
                    assert(self.words@.skip(self.index as int) =~= Seq::<u8>::empty());
                }
            }
            assert(final(self).pending() =~= old(self).pending().skip(1));
        }
        Some(PinOp::SckHigh)
    }

    /// Whether the write is complete.
    pub fn is_finished(&self) -> (finished: bool)
        ensures
            finished == (self.pending().len() == 0),
    {
        self.finished
    }
}

impl SoftSpi {
    /// The bit-banged bus.
    pub fn new() -> (spi: SoftSpi) {
        SoftSpi {  }
    }

    /// Starts a write of `words`: chip select low, then for every word its
    /// eight bits from the most significant down, each as clock low, data,
    /// clock high, and at the end chip select high.
    pub fn write<'a>(&self, words: &'a [u8]) -> (shift: Shift<'a>)
        ensures
            shift.pending() == write_ops(words@),
    {
        let shift = Shift { words, started: false, index: 0, bit: 0, phase: 0, finished: false };
        proof {
            if words@.len() > 0 {
                assert(words@.skip(0) =~= words@);
                assert(bit_ops(words@[0], 0) =~= cycle_ops(words@[0], 0).skip(0) + bit_ops(
                    words@[0],
                    1,
                ));
                assert(words_ops(words@) =~= bit_ops(words@[0], 0) + words_ops(words@.skip(1)));
            } else {
                assert(words_ops(words@) =~= Seq::<PinOp>::empty());
            }
            assert(shift.pending() =~= write_ops(words@));
        }
        shift
    }
}

} // verus!
