//! The range coder: it narrows a 64-bit interval by each coded bit and
//! emits the leading bits on which the interval's ends have come to agree.

use vstd::prelude::*;
use vstd::arithmetic::power2::{pow2, lemma2_to64, lemma_pow2_unfold, lemma_pow2_adds,
    lemma_pow2_pos};
use vstd::bits::lemma_u8_shl_is_mul;
use crate::bits::{bits_of, bytes_to_bits, zero_bits, lemma_bits_of_padded,
    lemma_bits_of_shift_in, lemma_bytes_to_bits_push, lemma_bytes_to_bits_len, lemma_bits_of_len};
use crate::predictor::{BitPrediction, PredictorModel};

verus! {

/// The highest bit of a 64-bit word.
pub const TOP_BIT: u64 = 0x8000_0000_0000_0000;

/// The part of the code space that the bits coded so far have left: every
/// 64-bit value from `low` to `high`, both included.
pub struct Interval {
    pub low: int,
    pub high: int,
}

impl Interval {
    /// The whole code space.
    pub open spec fn whole() -> Interval {
        Interval { low: 0, high: 0xFFFF_FFFF_FFFF_FFFF }
    }

    pub open spec fn wf(self) -> bool {
        0 <= self.low <= self.high <= 0xFFFF_FFFF_FFFF_FFFF
    }

    /// The ends differ in their highest bit, so no bit can be emitted yet.
    pub open spec fn settled(self) -> bool {
        self.low < 0x8000_0000_0000_0000 <= self.high
    }

    /// The last value of the part given to a 1 bit, when a 1 has
    /// probability `prediction / 2^24`.
    pub open spec fn split(self, prediction: int) -> int {
        self.low + ((self.high - self.low) * prediction) / 0x100_0000
    }

    /// The part of the interval that stands for `bit`: a 1 takes the
    /// values up to the split, a 0 the values above it.
    pub open spec fn narrow(self, prediction: int, bit: int) -> Interval {
        if bit == 1 {
            Interval { low: self.low, high: self.split(prediction) }
        } else {
            Interval { low: self.split(prediction) + 1, high: self.high }
        }
    }

    /// The highest bit of the lower end.
    pub open spec fn leading_bit(self) -> bool {
        self.low >= 0x8000_0000_0000_0000
    }

    /// The interval after its leading bit has been emitted: both ends move
    /// up one place, the lower filled with a 0 and the upper with a 1.
    pub open spec fn shift(self) -> Interval {
        Interval {
            low: (2 * self.low) % 0x1_0000_0000_0000_0000,
            high: (2 * self.high + 1) % 0x1_0000_0000_0000_0000,
        }
    }

    /// The interval after every leading bit that its ends share has been
    /// emitted.
    #[verifier::opaque]
    pub open spec fn renormalize(self) -> Interval
        decreases 0x1_0000_0000_0000_0000 - (self.high - self.low),
    {
        if self.wf() && !self.settled() {
            self.shift().renormalize()
        } else {
            self
        }
    }

    /// The window of 64 stream bits that a decoder held before it followed
    /// the interval through its shifts, given the window `after` that it
    /// holds once the interval has settled: at each shift the window loses
    /// its highest bit, which is the bit emitted, and takes in one bit below.
    #[verifier::opaque]
    pub open spec fn window_before(self, after: int) -> int
        decreases 0x1_0000_0000_0000_0000 - (self.high - self.low),
    {
        if self.wf() && !self.settled() {
            (if self.leading_bit() {
                0x8000_0000_0000_0000int
            } else {
                0int
            }) + self.shift().window_before(after) / 2
        } else {
            after
        }
    }

    /// The stream bits that a decoder took into its window while it
    /// followed the interval through its shifts.
    #[verifier::opaque]
    pub open spec fn taken_in(self, after: int) -> Seq<bool>
        decreases 0x1_0000_0000_0000_0000 - (self.high - self.low),
    {
        if self.wf() && !self.settled() {
            seq![self.shift().window_before(after) % 2 == 1] + self.shift().taken_in(after)
        } else {
            Seq::empty()
        }
    }

    /// The leading bits that the interval's ends share, in the order in
    /// which they are emitted.
    #[verifier::opaque]
    pub open spec fn shifted_out(self) -> Seq<bool>
        decreases 0x1_0000_0000_0000_0000 - (self.high - self.low),
    {
        if self.wf() && !self.settled() {
            seq![self.leading_bit()] + self.shift().shifted_out()
        } else {
            Seq::empty()
        }
    }
}

/// The two parts into which a prediction splits an interval are both
/// non-empty, lie inside it, do not overlap and leave no gap: a decoder that
/// knows the prediction can tell from any value of the narrowed interval
/// which bit was coded.
pub proof fn lemma_narrow_partitions(interval: Interval, prediction: int)
    requires
        interval.wf(),
        interval.low < interval.high,
        0 <= prediction < 0x100_0000,
    ensures
        interval.narrow(prediction, 1).wf(),
        interval.narrow(prediction, 0).wf(),
        interval.narrow(prediction, 1).low == interval.low,
        interval.narrow(prediction, 0).high == interval.high,
        interval.narrow(prediction, 1).high + 1 == interval.narrow(prediction, 0).low,
{
    let width = interval.high - interval.low;
    assert(0 <= (width * prediction) / 0x100_0000 < width) by (nonlinear_arith)
        requires
            0 < width,
            0 <= prediction < 0x100_0000,
    ;
}

/// Any value of the narrowed interval tells which bit was coded: it lies at
/// or below the split exactly when the bit was a 1.
pub proof fn lemma_value_tells_bit(interval: Interval, prediction: int, bit: int, value: int)
    requires
        interval.wf(),
        interval.low < interval.high,
        0 <= prediction < 0x100_0000,
        bit == 0 || bit == 1,
        interval.narrow(prediction, bit).low <= value <= interval.narrow(prediction, bit).high,
    ensures
        interval.low <= value <= interval.high,
        value <= interval.split(prediction) <==> bit == 1,
{
    lemma_narrow_partitions(interval, prediction);
}

/// What one shift does to an interval whose ends share their leading bit:
/// the ends move apart, and everything that follows the interval through
/// its shifts goes on from the shifted interval.
pub proof fn lemma_unsettled(interval: Interval, after: int)
    requires
        interval.wf(),
        !interval.settled(),
    ensures
        interval.shift().wf(),
        interval.shift().high - interval.shift().low == 2 * (interval.high - interval.low) + 1,
        interval.leading_bit() ==> interval.shift().low == 2 * interval.low
            - 0x1_0000_0000_0000_0000,
        !interval.leading_bit() ==> interval.shift().low == 2 * interval.low,
        interval.renormalize() == interval.shift().renormalize(),
        interval.shifted_out() == seq![interval.leading_bit()] + interval.shift().shifted_out(),
        interval.window_before(after) == (if interval.leading_bit() {
            0x8000_0000_0000_0000int
        } else {
            0int
        }) + interval.shift().window_before(after) / 2,
        interval.taken_in(after) == seq![interval.shift().window_before(after) % 2 == 1]
            + interval.shift().taken_in(after),
{
    reveal_with_fuel(Interval::renormalize, 2);
    reveal_with_fuel(Interval::shifted_out, 2);
    reveal_with_fuel(Interval::window_before, 2);
    reveal_with_fuel(Interval::taken_in, 2);
}

/// An interval whose ends differ in their highest bit is left as it is.
pub proof fn lemma_settled(interval: Interval, after: int)
    requires
        interval.settled() || !interval.wf(),
    ensures
        interval.renormalize() == interval,
        interval.shifted_out() == Seq::<bool>::empty(),
        interval.window_before(after) == after,
        interval.taken_in(after) == Seq::<bool>::empty(),
{
    reveal_with_fuel(Interval::renormalize, 2);
    reveal_with_fuel(Interval::shifted_out, 2);
    reveal_with_fuel(Interval::window_before, 2);
    reveal_with_fuel(Interval::taken_in, 2);
}

/// Emitting the shared leading bits ends with an interval whose ends
/// differ in their highest bit; in particular its lower end is below its
/// upper end.
pub proof fn lemma_renormalize_settles(interval: Interval)
    requires
        interval.wf(),
    ensures
        interval.renormalize().wf(),
        interval.renormalize().settled(),
        interval.renormalize().low < interval.renormalize().high,
    decreases 0x1_0000_0000_0000_0000 - (interval.high - interval.low),
{
    if !interval.settled() {
        lemma_unsettled(interval, 0);
        lemma_renormalize_settles(interval.shift());
    } else {
        lemma_settled(interval, 0);
    }
}

/// A decoder's window that lies inside the settled interval lay inside the
/// interval before its shifts too, and the bits that passed through the
/// window meanwhile are the bits that the coder emitted: read as a stream,
/// the old window followed by what was taken in is what was emitted followed
/// by the new window.
pub proof fn lemma_window_follows_shifts(interval: Interval, after: int)
    requires
        interval.wf(),
        interval.renormalize().low <= after <= interval.renormalize().high,
    ensures
        interval.low <= interval.window_before(after) <= interval.high,
        bits_of(interval.window_before(after), 64) + interval.taken_in(after)
            == interval.shifted_out() + bits_of(after, 64),
    decreases 0x1_0000_0000_0000_0000 - (interval.high - interval.low),
{
    if !interval.settled() {
        let next = interval.shift();
        let shifted = next.window_before(after);
        let top = interval.leading_bit();
        let before = interval.window_before(after);
        lemma_unsettled(interval, after);
        lemma_window_follows_shifts(next, after);
        crate::bits::lemma_window_step(shifted, top);
        let incoming = seq![shifted % 2 == 1];
        assert(bits_of(before, 64) + (incoming + next.taken_in(after)) =~= (bits_of(before, 64)
            + incoming) + next.taken_in(after));
        assert((seq![top] + bits_of(shifted, 64)) + next.taken_in(after) =~= seq![top] + (
        bits_of(shifted, 64) + next.taken_in(after)));
        assert(seq![top] + (next.shifted_out() + bits_of(after, 64)) =~= (seq![top]
            + next.shifted_out()) + bits_of(after, 64));
    } else {
        lemma_settled(interval, after);
        assert(bits_of(after, 64) + Seq::<bool>::empty() =~= Seq::<bool>::empty() + bits_of(
            after,
            64,
        ));
    }
}

/// One step of decoding. Take a coder that codes `bit` in `context`, and
/// any window inside the interval it ends with. The window that a decoder
/// held before this step then lay inside the interval the coder started
/// from, it lies at or below the split exactly when the bit is a 1, and the
/// stream that the decoder has read is the bits that the coder emitted,
/// followed by the window it holds now.
pub proof fn lemma_decoder_follows_coder(model: CoderModel, context: int, bit: int, after: int)
    requires
        model.wf(),
        0 <= context < model.predictors.len(),
        bit == 0 || bit == 1,
        model.code_bit(context, bit).range.low <= after <= model.code_bit(
            context,
            bit,
        ).range.high,
    ensures
        ({
            let prediction = model.predictors[context].prediction;
            let narrowed = model.range.narrow(prediction, bit);
            let before = narrowed.window_before(after);
            &&& model.range.low <= before <= model.range.high
            &&& before <= model.range.split(prediction) <==> bit == 1
            &&& model.bits + bits_of(before, 64) + narrowed.taken_in(after) == model.code_bit(
                context,
                bit,
            ).bits + bits_of(after, 64)
        }),
{
    reveal(CoderModel::code_bit);
    let predictor = model.predictors[context];
    assert(predictor.wf());
    let narrowed = model.range.narrow(predictor.prediction, bit);
    let before = narrowed.window_before(after);
    lemma_narrow_partitions(model.range, predictor.prediction);
    lemma_window_follows_shifts(narrowed, after);
    lemma_value_tells_bit(model.range, predictor.prediction, bit, before);
    assert(model.bits + bits_of(before, 64) + narrowed.taken_in(after) =~= model.bits + (bits_of(
        before,
        64,
    ) + narrowed.taken_in(after)));
    assert(model.bits + (narrowed.shifted_out() + bits_of(after, 64)) =~= (model.bits
        + narrowed.shifted_out()) + bits_of(after, 64));
}

/// The coder's state: the interval, the bits emitted and not yet handed
/// over, and one predictor per context.
pub struct CoderModel {
    pub range: Interval,
    pub bits: Seq<bool>,
    pub predictors: Seq<PredictorModel>,
}

impl CoderModel {
    /// A coder with `size` fresh predictors that has coded nothing.
    pub open spec fn initial(size: nat) -> CoderModel {
        CoderModel {
            range: Interval::whole(),
            bits: Seq::empty(),
            predictors: Seq::new(size, |i: int| PredictorModel::initial()),
        }
    }

    pub open spec fn wf(self) -> bool {
        &&& self.range.wf()
        &&& self.range.settled()
        &&& forall|i: int| 0 <= i < self.predictors.len() ==> (#[trigger] self.predictors[i]).wf()
    }

    /// The coder after `bit` was coded in `context`: the interval is
    /// narrowed by the context's prediction, the shared leading bits are
    /// emitted, and the context's predictor learns the bit.
    #[verifier::opaque]
    pub open spec fn code_bit(self, context: int, bit: int) -> CoderModel {
        let predictor = self.predictors[context];
        let narrowed = self.range.narrow(predictor.prediction, bit);
        CoderModel {
            range: narrowed.renormalize(),
            bits: self.bits + narrowed.shifted_out(),
            predictors: self.predictors.update(context, predictor.learn(bit)),
        }
    }

    /// The coder after the four bits of `nibble` were coded, the highest
    /// first, each in the context that the bits before it select among the
    /// fifteen after `base`.
    pub open spec fn code_nibble(self, base: int, nibble: int) -> CoderModel {
        let path = 16 + nibble;
        self.code_bit(base + 1, path / 8 % 2).code_bit(base + path / 8, path / 4 % 2).code_bit(
            base + path / 4,
            path / 2 % 2,
        ).code_bit(base + path / 2, path % 2)
    }

    /// The coder after `byte` was coded: its high nibble in the fifteen
    /// contexts after `context`, its low nibble in the fifteen that the high
    /// nibble selects among the sixteen groups that follow.
    pub open spec fn code_byte(self, context: int, byte: u8) -> CoderModel {
        let high = byte as int / 16;
        let low = byte as int % 16;
        self.code_nibble(context, high).code_nibble(context + 15 * (high + 1), low)
    }

    /// How many zero bits fill the last byte after the closing bit.
    pub open spec fn padding(self) -> nat {
        (7 - self.bits.len() % 8) as nat
    }

    /// Everything the closed stream holds: the bits emitted, the leading
    /// bit of the interval's lower end, and zero bits up to a whole byte.
    pub open spec fn finish(self) -> Seq<bool> {
        self.bits + seq![self.range.leading_bit()] + zero_bits(self.padding())
    }
}

/// Coding a bit keeps the coder well formed and the number of predictors.
pub proof fn lemma_code_bit_wf(model: CoderModel, context: int, bit: int)
    requires
        model.wf(),
        0 <= context < model.predictors.len(),
        bit == 0 || bit == 1,
    ensures
        model.code_bit(context, bit).wf(),
        model.code_bit(context, bit).predictors.len() == model.predictors.len(),
        model.code_bit(context, bit).range.low < model.code_bit(context, bit).range.high,
{
    reveal(CoderModel::code_bit);
    let predictor = model.predictors[context];
    assert(predictor.wf());
    crate::predictor::lemma_learn_stays_in_range(predictor, bit);
    lemma_narrow_partitions(model.range, predictor.prediction);
    lemma_renormalize_settles(model.range.narrow(predictor.prediction, bit));
    let after = model.code_bit(context, bit);
    assert forall|i: int| 0 <= i < after.predictors.len() implies (
    #[trigger] after.predictors[i]).wf() by {
        if i != context {
            assert(model.predictors[i].wf());
        }
    }
}

/// Coding a byte in full keeps the coder well formed.
pub proof fn lemma_code_byte_wf(coder: CoderModel, context: int, byte: u8)
    requires
        coder.wf(),
        0 <= context,
        context + 255 < coder.predictors.len(),
    ensures
        coder.code_byte(context, byte).wf(),
        coder.code_byte(context, byte).predictors.len() == coder.predictors.len(),
{
    let high = byte as int / 16;
    let low = byte as int % 16;
    lemma_code_nibble_wf(coder, context, high);
    lemma_code_nibble_wf(coder.code_nibble(context, high), context + 15 * (high + 1), low);
}

/// Coding a nibble keeps the coder well formed.
pub proof fn lemma_code_nibble_wf(coder: CoderModel, base: int, nibble: int)
    requires
        coder.wf(),
        0 <= base,
        base + 15 < coder.predictors.len(),
        0 <= nibble < 16,
    ensures
        coder.code_nibble(base, nibble).wf(),
        coder.code_nibble(base, nibble).predictors.len() == coder.predictors.len(),
{
    let path = 16 + nibble;
    let one = coder.code_bit(base + 1, path / 8 % 2);
    lemma_code_bit_wf(coder, base + 1, path / 8 % 2);
    let two = one.code_bit(base + path / 8, path / 4 % 2);
    lemma_code_bit_wf(one, base + path / 8, path / 4 % 2);
    let three = two.code_bit(base + path / 4, path / 2 % 2);
    lemma_code_bit_wf(two, base + path / 4, path / 2 % 2);
    lemma_code_bit_wf(three, base + path / 2, path % 2);
}

/// The closing bit of a well-formed coder is a zero, so a closed stream is
/// the emitted bits followed by zeros up to the next whole byte, and by
/// eight zeros where the emitted bits already fill whole bytes.
pub proof fn lemma_closing_bit_is_zero(model: CoderModel)
    requires
        model.wf(),
    ensures
        !model.range.leading_bit(),
        model.finish() == model.bits + zero_bits((8 - model.bits.len() % 8) as nat),
{
    assert(seq![false] + zero_bits(model.padding()) =~= zero_bits(model.padding() + 1));
    assert(model.bits + seq![false] + zero_bits(model.padding()) =~= model.bits + (seq![false]
        + zero_bits(model.padding())));
}

/// A closed stream is a whole number of bytes: one more than the emitted
/// bits fill.
pub proof fn lemma_finish_len(model: CoderModel)
    ensures
        model.finish().len() == 8 * (model.bits.len() / 8 + 1),
        model.bits.len() / 8 + 1 == (model.bits.len() + 1 + 7) / 8,
{
}

/// The ends share their highest bit exactly when the highest bit of their
/// exclusive or is clear.
proof fn lemma_shared_top(low: u64, high: u64)
    by (bit_vector)
    ensures
        ((high ^ low) & 0x8000_0000_0000_0000 == 0) <==> ((low >= 0x8000_0000_0000_0000 && high
            >= 0x8000_0000_0000_0000) || (low < 0x8000_0000_0000_0000 && high
            < 0x8000_0000_0000_0000)),
{
}

/// Shifting a word up one place doubles it and drops what no longer fits.
proof fn lemma_shift_words(low: u64, high: u64, next_low: u64, next_high: u64)
    by (bit_vector)
    requires
        next_low == low << 1,
        next_high == (high << 1) | 1,
    ensures
        low < 0x8000_0000_0000_0000 ==> next_low == 2 * low,
        low >= 0x8000_0000_0000_0000 ==> next_low == 2 * (low - 0x8000_0000_0000_0000),
        high < 0x8000_0000_0000_0000 ==> next_high == 2 * high + 1,
        high >= 0x8000_0000_0000_0000 ==> next_high == 2 * (high - 0x8000_0000_0000_0000) + 1,
{
}

/// A nibble's path through its contexts, by shifts and by division.
proof fn lemma_nibble_path(byte: u8)
    by (bit_vector)
    ensures
        (byte >> 4) | 16 == 16 + byte / 16,
        (byte & 15) | 16 == 16 + byte % 16,
{
}

/// The steps of a nibble's path, by shifts and by division.
proof fn lemma_path_steps(path: usize)
    by (bit_vector)
    requires
        16 <= path < 32,
    ensures
        path >> 3 == path / 8,
        path >> 2 == path / 4,
        path >> 1 == path / 2,
        (path >> 3) & 1 == path / 8 % 2,
        (path >> 2) & 1 == path / 4 % 2,
        (path >> 1) & 1 == path / 2 % 2,
        path & 1 == path % 2,
{
}

/// The range coder, with the predictors it codes by and the bytes it has
/// produced.
pub struct BitEncoder {
    low: u64,
    high: u64,
    states: Vec<BitPrediction>,
    bit_buffer: u8,
    bit_count: usize,
    output: Vec<u8>,
}

impl View for BitEncoder {
    type V = CoderModel;

    closed spec fn view(&self) -> CoderModel {
        CoderModel {
            range: self.interval(),
            bits: bytes_to_bits(self.output@) + bits_of(
                self.bit_buffer as int,
                self.bit_count as nat,
            ),
            predictors: Seq::new(self.states.len() as nat, |i: int| self.states[i]@),
        }
    }
}

impl BitEncoder {
    /// The interval between the two ends held.
    pub closed spec fn interval(&self) -> Interval {
        Interval { low: self.low as int, high: self.high as int }
    }

    /// The bytes produced and not yet taken.
    pub closed spec fn written(&self) -> Seq<u8> {
        self.output@
    }

    /// The buffer holds fewer than eight bits and nothing above them.
    pub closed spec fn buffered(&self) -> bool {
        &&& self.bit_count < 8
        &&& self.bit_buffer < pow2(self.bit_count as nat)
    }

    /// The interval is settled and the buffer holds less than a byte.
    pub closed spec fn wf(&self) -> bool {
        &&& self.buffered()
        &&& self@.wf()
    }

    /// A well-formed coder has a well-formed model, and what it has
    /// written is the whole bytes at the front of its bits.
    pub proof fn lemma_wf(&self)
        requires
            self.wf(),
        ensures
            self@.wf(),
            self@.range.low < self@.range.high,
            self.written().len() == self@.bits.len() / 8,
            bytes_to_bits(self.written()) == self@.bits.take(8 * self.written().len() as int),
    {
        lemma_bytes_to_bits_len(self.output@);
        lemma_bits_of_len(self.bit_buffer as int, self.bit_count as nat);
        assert(bytes_to_bits(self.output@) =~= self@.bits.take(8 * self.output@.len() as int));
    }

    /// A coder with `size` fresh predictors.
    pub fn new(size: usize) -> (fresh: BitEncoder)
        ensures
            fresh.wf(),
            fresh@ == CoderModel::initial(size as nat),
            fresh.written() == Seq::<u8>::empty(),
    {
        let fresh = BitEncoder {
            low: 0,
            high: 0xFFFF_FFFF_FFFF_FFFF,
            states: vec![BitPrediction::new(); size],
            bit_buffer: 0,
            bit_count: 0,
            output: Vec::new(),
        };
        proof {
            lemma2_to64();
            assert(fresh@.predictors =~= CoderModel::initial(size as nat).predictors);
            assert(fresh@.bits =~= Seq::<bool>::empty());
        }
        fresh
    }

    /// The lower end of the interval.
    pub fn low(&self) -> (low: u64)
        ensures
            low == self@.range.low,
    {
        self.low
    }

    /// The upper end of the interval.
    pub fn high(&self) -> (high: u64)
        ensures
            high == self@.range.high,
    {
        self.high
    }

    /// Codes `bit` in `context`.
    pub fn bit(&mut self, context: usize, bit: usize)
        requires
            old(self).wf(),
            context < old(self)@.predictors.len(),
            bit == 0 || bit == 1,
        ensures
            final(self).wf(),
            final(self)@ == old(self)@.code_bit(context as int, bit as int),
            final(self)@.range.low < final(self)@.range.high,
            final(self)@.predictors.len() == old(self)@.predictors.len(),
    {
        let ghost before = self@;
        let ghost predictor = before.predictors[context as int];
        proof {
            reveal(CoderModel::code_bit);
            assert(predictor.wf());
            lemma_narrow_partitions(before.range, predictor.prediction);
            lemma_code_bit_wf(before, context as int, bit as int);
        }
        let prediction: u64 = self.states[context].update(bit);
        let width: u64 = self.high - self.low;
        assert(width * prediction < 0x100_0000 * 0x1_0000_0000_0000_0000) by (nonlinear_arith)
            requires
                0 <= width < 0x1_0000_0000_0000_0000,
                0 <= prediction < 0x100_0000,
        ;
        let product: u128 = (width as u128) * (prediction as u128);
        let scaled: u128 = product >> 24;
        assert(scaled == product / 0x100_0000) by (bit_vector)
            requires
                scaled == product >> 24,
        ;
        let delta: u64 = scaled as u64;
        if bit != 0 {
            self.high = self.low + delta;
        } else {
            self.low = self.low + delta + 1;
        }
        proof {
            assert(self.interval() == before.range.narrow(predictor.prediction, bit as int));
            assert(self@.predictors =~= before.predictors.update(
                context as int,
                predictor.learn(bit as int),
            ));
            assert(self@.bits == before.bits);
        }
        self.flush_bit();
    }

    /// Codes the four bits of `nibble` in the fifteen contexts after `base`.
    fn nibble(&mut self, base: usize, path: usize)
        requires
            old(self).wf(),
            16 <= path < 32,
            base + 15 < old(self)@.predictors.len(),
        ensures
            final(self).wf(),
            final(self)@ == old(self)@.code_nibble(base as int, path - 16),
            final(self)@.predictors.len() == old(self)@.predictors.len(),
    {
        proof {
            lemma_path_steps(path);
        }
        self.bit(base + 1, (path >> 3) & 1);
        self.bit(base + (path >> 3), (path >> 2) & 1);
        self.bit(base + (path >> 2), (path >> 1) & 1);
        self.bit(base + (path >> 1), path & 1);
    }

    /// Codes `byte` in the 255 contexts after `context`.
    pub fn byte(&mut self, context: usize, byte: u8)
        requires
            old(self).wf(),
            context + 255 < old(self)@.predictors.len(),
        ensures
            final(self).wf(),
            final(self)@ == old(self)@.code_byte(context as int, byte),
            final(self)@.predictors.len() == old(self)@.predictors.len(),
    {
        proof {
            lemma_nibble_path(byte);
        }
        let high: usize = ((byte >> 4) | 16) as usize;
        self.nibble(context, high);
        let low_context: usize = context + 15 * (high - 15);
        let low: usize = ((byte & 15) | 16) as usize;
        self.nibble(low_context, low);
    }

    /// Appends one bit to the output, writing a byte out when eight are
    /// gathered.
    fn push_bit(&mut self, bit: bool)
        requires
            old(self).buffered(),
        ensures
            final(self).buffered(),
            final(self)@.bits == old(self)@.bits.push(bit),
            final(self).interval() == old(self).interval(),
            final(self)@.predictors == old(self)@.predictors,
    {
        let ghost before_bits = self@.bits;
        let ghost written = self.output@;
        let ghost buffer = self.bit_buffer as int;
        let ghost count = self.bit_count as nat;
        proof {
            lemma2_to64();
            lemma_pow2_unfold(count + 1);
            lemma_bits_of_shift_in(buffer, count, bit);
        }
        let top: u8 = if bit { 1 } else { 0 };
        assert(2 * buffer + top < pow2(count + 1));
        assert(pow2(count + 1) <= 256) by {
            assert(count + 1 == 1 || count + 1 == 2 || count + 1 == 3 || count + 1 == 4 || count
                + 1 == 5 || count + 1 == 6 || count + 1 == 7 || count + 1 == 8);
        }
        self.bit_buffer = 2 * self.bit_buffer + top;
        self.bit_count = self.bit_count + 1;
        if self.bit_count == 8 {
            self.output.push(self.bit_buffer);
            proof {
                lemma_bytes_to_bits_push(written, self.bit_buffer);
            }
            self.bit_count = 0;
            self.bit_buffer = 0;
            assert(self@.bits =~= before_bits.push(bit));
        } else {
            assert(self@.bits =~= before_bits.push(bit));
        }
    }

    /// Emits the leading bits that the interval's ends share.
    fn flush_bit(&mut self)
        requires
            old(self).buffered(),
            old(self).interval().wf(),
            forall|i: int|
                0 <= i < old(self)@.predictors.len() ==> (#[trigger] old(self)@.predictors[i]).wf(),
        ensures
            final(self).wf(),
            final(self).interval() == old(self).interval().renormalize(),
            final(self)@.bits == old(self)@.bits + old(self).interval().shifted_out(),
            final(self)@.predictors == old(self)@.predictors,
    {
        let ghost start = self.interval();
        let ghost start_bits = self@.bits;
        let ghost emitted: Seq<bool> = Seq::empty();
        proof {
            lemma_shared_top(self.low, self.high);
            assert(start_bits + emitted =~= start_bits);
            assert(emitted + start.shifted_out() =~= start.shifted_out());
        }
        while (self.high ^ self.low) & TOP_BIT == 0
            invariant
                self.buffered(),
                self.interval().wf(),
                self.interval().renormalize() == start.renormalize(),
                emitted + self.interval().shifted_out() == start.shifted_out(),
                self@.bits == start_bits + emitted,
                self@.predictors == old(self)@.predictors,
                ((self.high ^ self.low) & TOP_BIT == 0) <==> !self.interval().settled(),
            decreases 0x1_0000_0000_0000_0000 - (self.high - self.low),
        {
            let ghost current = self.interval();
            let ghost rest = current.shift().shifted_out();
            let next_high: u64 = (self.high << 1) | 1;
            let next_low: u64 = self.low << 1;
            proof {
                lemma_shift_words(self.low, self.high, next_low, next_high);
                lemma_unsettled(current, 0);
            }
            self.push_bit(self.low >= TOP_BIT);
            self.high = next_high;
            self.low = next_low;
            proof {
                assert(self.interval() == current.shift());
                assert(current.shifted_out() == seq![current.leading_bit()] + rest);
                assert(emitted.push(current.leading_bit()) + rest =~= emitted + (
                seq![current.leading_bit()] + rest));
                assert(start_bits + emitted.push(current.leading_bit()) =~= (start_bits
                    + emitted).push(current.leading_bit()));
                emitted = emitted.push(current.leading_bit());
                lemma_shared_top(self.low, self.high);
            }
        }
        proof {
            lemma_settled(self.interval(), 0);
            assert(emitted + Seq::<bool>::empty() =~= emitted);
        }
    }

    /// Hands over the bytes produced so far; the coder goes on with the
    /// bits that do not yet fill a byte.
    pub fn take_output(&mut self) -> (taken: Vec<u8>)
        requires
            old(self).wf(),
        ensures
            final(self).wf(),
            taken@ == old(self).written(),
            final(self).written() == Seq::<u8>::empty(),
            final(self)@ == (CoderModel {
                bits: old(self)@.bits.skip(8 * taken@.len() as int),
                ..old(self)@
            }),
    {
        let mut taken: Vec<u8> = Vec::new();
        proof {
            lemma_bytes_to_bits_len(self.output@);
            lemma_bits_of_len(self.bit_buffer as int, self.bit_count as nat);
        }
        core::mem::swap(&mut self.output, &mut taken);
        proof {
            assert(self@.bits =~= old(self)@.bits.skip(8 * taken@.len() as int));
        }
        taken
    }

    /// Closes the stream: one more bit, the leading bit of the lower end,
    /// then zero bits up to a whole byte. Returns every byte not yet taken.
    pub fn flush(self) -> (closed: Vec<u8>)
        requires
            self.wf(),
        ensures
            bytes_to_bits(closed@) == self@.finish(),
            closed@.len() == self@.bits.len() / 8 + 1,
            closed@.take(self.written().len() as int) == self.written(),
    {
        let ghost buffer = self.bit_buffer as int;
        let ghost count = self.bit_count as nat;
        let ghost leading = self.low >= TOP_BIT;
        let top: u8 = if self.low >= TOP_BIT { 1 } else { 0 };
        proof {
            lemma2_to64();
            lemma_pow2_unfold(count + 1);
            lemma_pow2_adds(count + 1, (7 - count) as nat);
            lemma_pow2_pos((7 - count) as nat);
            lemma_bytes_to_bits_len(self.output@);
            lemma_bits_of_len(buffer, count);
        }
        let filled: u8 = 2 * self.bit_buffer + top;
        let shift: u8 = (7 - self.bit_count) as u8;
        proof {
            assert(filled * pow2(shift as nat) < 256) by (nonlinear_arith)
                requires
                    0 <= filled < pow2(count + 1),
                    pow2(count + 1) * pow2(shift as nat) == 256,
                    pow2(shift as nat) > 0,
            ;
            lemma_u8_shl_is_mul(filled, shift);
            lemma_bits_of_shift_in(buffer, count, leading);
            lemma_bits_of_padded(filled as int, count + 1, shift as nat);
        }
        let last: u8 = filled << shift;
        let mut closed = self.output;
        closed.push(last);
        proof {
            lemma_bytes_to_bits_push(self.output@, last);
            assert(self@.padding() == shift as nat);
            assert(bytes_to_bits(closed@) =~= self@.finish());
            assert(closed@.take(self.output@.len() as int) =~= self.output@);
        }
        closed
    }
}

} // verus!
