//! What a decoder can rely on: a model of the reader of a coded stream, and
//! the proof that it reads back every bit that the coder coded, as long as
//! the stream goes on with 64 bits that lie inside the coder's last interval.

use vstd::prelude::*;
use crate::bits::{bits_of, zero_bits, lemma_bits_of_zero};
use crate::coder::{CoderModel, Interval, lemma_closing_bit_is_zero, lemma_code_bit_wf,
    lemma_code_byte_wf, lemma_code_nibble_wf,
    lemma_decoder_follows_coder, lemma_narrow_partitions, lemma_settled, lemma_unsettled,
    lemma_window_follows_shifts};
use crate::predictor::PredictorModel;
use crate::primary_context::context::{ContextModel, is_power_of_two};
use crate::primary_context::matched::ByteMatched;
use crate::stream::{StreamModel, lemma_contexts_in_range, lemma_encode_all_wf,
    lemma_encode_byte_wf};

verus! {

/// A decoder's state: the interval and the predictors, which it keeps equal
/// to the coder's, the window of the 64 stream bits it is looking at, and
/// the stream bits that are still to come.
pub struct DecoderModel {
    pub range: Interval,
    pub window: int,
    pub stream: Seq<bool>,
    pub predictors: Seq<PredictorModel>,
}

impl DecoderModel {
    /// The next bit of the stream; past its end the stream reads as zeros.
    pub open spec fn incoming(self) -> int {
        if self.stream.len() > 0 && self.stream[0] {
            1
        } else {
            0
        }
    }

    /// The stream without its next bit.
    pub open spec fn remaining(self) -> Seq<bool> {
        if self.stream.len() > 0 {
            self.stream.drop_first()
        } else {
            self.stream
        }
    }

    /// The decoder after it has shifted out every leading bit that the
    /// interval's ends share, taking one stream bit into the window for each.
    #[verifier::opaque]
    pub open spec fn settle(self) -> DecoderModel
        decreases 0x1_0000_0000_0000_0000 - (self.range.high - self.range.low),
    {
        if self.range.wf() && !self.range.settled() {
            (DecoderModel {
                range: self.range.shift(),
                window: (2 * self.window + self.incoming()) % 0x1_0000_0000_0000_0000,
                stream: self.remaining(),
                predictors: self.predictors,
            }).settle()
        } else {
            self
        }
    }

    /// The bit that the window shows in `context`: a 1 if the window lies at
    /// or below the split.
    #[verifier::opaque]
    pub open spec fn read(self, context: int) -> int {
        if self.window <= self.range.split(self.predictors[context].prediction) {
            1
        } else {
            0
        }
    }

    /// The decoder after it has read a bit in `context`.
    #[verifier::opaque]
    pub open spec fn decode_bit(self, context: int) -> DecoderModel {
        let predictor = self.predictors[context];
        let bit = self.read(context);
        (DecoderModel {
            range: self.range.narrow(predictor.prediction, bit),
            window: self.window,
            stream: self.stream,
            predictors: self.predictors.update(context, predictor.learn(bit)),
        }).settle()
    }

    /// The nibble read in the fifteen contexts after `base`: four bits, the
    /// highest first, each in the context that the bits before it select.
    pub open spec fn read_nibble(self, base: int) -> int {
        let first = self.read(base + 1);
        let one = self.decode_bit(base + 1);
        let second = one.read(base + 2 + first);
        let two = one.decode_bit(base + 2 + first);
        let third = two.read(base + 4 + 2 * first + second);
        let three = two.decode_bit(base + 4 + 2 * first + second);
        let fourth = three.read(base + 8 + 4 * first + 2 * second + third);
        8 * first + 4 * second + 2 * third + fourth
    }

    /// The decoder after it has read a nibble in the contexts after `base`.
    pub open spec fn decode_nibble(self, base: int) -> DecoderModel {
        let first = self.read(base + 1);
        let one = self.decode_bit(base + 1);
        let second = one.read(base + 2 + first);
        let two = one.decode_bit(base + 2 + first);
        let third = two.read(base + 4 + 2 * first + second);
        let three = two.decode_bit(base + 4 + 2 * first + second);
        three.decode_bit(base + 8 + 4 * first + 2 * second + third)
    }

    /// The byte read in the 255 contexts after `context`.
    #[verifier::opaque]
    pub open spec fn read_byte(self, context: int) -> int {
        let high = self.read_nibble(context);
        16 * high + self.decode_nibble(context).read_nibble(context + 15 * (high + 1))
    }

    /// The decoder after it has read a byte in the contexts after `context`.
    #[verifier::opaque]
    pub open spec fn decode_byte(self, context: int) -> DecoderModel {
        let high = self.read_nibble(context);
        self.decode_nibble(context).decode_nibble(context + 15 * (high + 1))
    }

    /// The bits read in the given contexts, one after the other.
    pub open spec fn decode_bits(self, contexts: Seq<int>) -> Seq<int>
        decreases contexts.len(),
    {
        if contexts.len() == 0 {
            Seq::empty()
        } else {
            seq![self.read(contexts[0])] + self.decode_bit(contexts[0]).decode_bits(
                contexts.drop_first(),
            )
        }
    }
}

/// A window that lost its highest bit and took in a bit below is the window
/// that it was built from.
proof fn lemma_window_moves_up(top: int, shifted: int)
    requires
        top == 0 || top == 0x8000_0000_0000_0000,
        0 <= shifted < 0x1_0000_0000_0000_0000,
    ensures
        (2 * (top + shifted / 2) + shifted % 2) % 0x1_0000_0000_0000_0000 == shifted,
{
    assert(2 * (top + shifted / 2) + shifted % 2 == 2 * top + shifted);
}

/// A decoder whose window and stream are those that lead to `after` ends,
/// once it has settled, with `after` in its window and the rest of the
/// stream before it.
pub proof fn lemma_settle_follows(decoder: DecoderModel, after: int, rest: Seq<bool>)
    requires
        decoder.range.wf(),
        decoder.range.renormalize().low <= after <= decoder.range.renormalize().high,
        decoder.window == decoder.range.window_before(after),
        decoder.stream == decoder.range.taken_in(after) + rest,
    ensures
        decoder.settle() == (DecoderModel {
            range: decoder.range.renormalize(),
            window: after,
            stream: rest,
            predictors: decoder.predictors,
        }),
    decreases 0x1_0000_0000_0000_0000 - (decoder.range.high - decoder.range.low),
{
    let interval = decoder.range;
    if !interval.settled() {
        let next = interval.shift();
        let shifted = next.window_before(after);
        let top = if interval.leading_bit() {
            0x8000_0000_0000_0000int
        } else {
            0int
        };
        let stepped = DecoderModel {
            range: next,
            window: (2 * decoder.window + decoder.incoming()) % 0x1_0000_0000_0000_0000,
            stream: decoder.remaining(),
            predictors: decoder.predictors,
        };
        reveal_with_fuel(DecoderModel::settle, 2);
        lemma_unsettled(interval, after);
        lemma_window_follows_shifts(next, after);
        lemma_window_moves_up(top, shifted);
        assert(decoder.stream[0] == (shifted % 2 == 1));
        assert(stepped.window == shifted);
        assert(stepped.stream =~= next.taken_in(after) + rest);
        lemma_settle_follows(stepped, after, rest);
    } else {
        reveal_with_fuel(DecoderModel::settle, 2);
        lemma_settled(interval, after);
        assert(decoder.stream =~= rest);
    }
}

/// What a decoder must hold for a piece of coding to be read back: its
/// window before the piece, and the stream bits that pass into the window
/// while the piece is read.
pub struct Reading {
    pub window: int,
    pub stream: Seq<bool>,
}

/// A decoder in step with a coder: it has the coder's interval and
/// predictors, the given window, and the given stream before it.
pub open spec fn poised(model: CoderModel, window: int, stream: Seq<bool>) -> DecoderModel {
    DecoderModel { range: model.range, window, stream, predictors: model.predictors }
}

/// What reads back one bit, given the window held after it.
#[verifier::opaque]
pub open spec fn bit_reading(model: CoderModel, context: int, bit: int, after: int) -> Reading {
    let narrowed = model.range.narrow(model.predictors[context].prediction, bit);
    Reading { window: narrowed.window_before(after), stream: narrowed.taken_in(after) }
}

/// Reading one bit: given any window inside the interval that the coder
/// ends with, the decoder that holds the window and stream of
/// `bit_reading` is inside the coder's interval, reads the bit, and ends in
/// step with the coder, holding the given window.
pub proof fn lemma_bit_reads_back(
    model: CoderModel,
    context: int,
    bit: int,
    after: int,
    rest: Seq<bool>,
)
    requires
        model.wf(),
        0 <= context < model.predictors.len(),
        bit == 0 || bit == 1,
        model.code_bit(context, bit).range.low <= after <= model.code_bit(
            context,
            bit,
        ).range.high,
    ensures
        ({
            let reading = bit_reading(model, context, bit, after);
            let decoder = poised(model, reading.window, reading.stream + rest);
            &&& model.range.low <= reading.window <= model.range.high
            &&& decoder.read(context) == bit
            &&& decoder.decode_bit(context) == poised(model.code_bit(context, bit), after, rest)
            &&& model.bits + bits_of(reading.window, 64) + reading.stream == model.code_bit(
                context,
                bit,
            ).bits + bits_of(after, 64)
        }),
{
    reveal(CoderModel::code_bit);
    reveal(DecoderModel::read);
    reveal(DecoderModel::decode_bit);
    reveal(bit_reading);
    let predictor = model.predictors[context];
    let narrowed = model.range.narrow(predictor.prediction, bit);
    assert(predictor.wf());
    lemma_narrow_partitions(model.range, predictor.prediction);
    lemma_decoder_follows_coder(model, context, bit, after);
    lemma_settle_follows(
        DecoderModel {
            range: narrowed,
            window: narrowed.window_before(after),
            stream: narrowed.taken_in(after) + rest,
            predictors: model.predictors.update(context, predictor.learn(bit)),
        },
        after,
        rest,
    );
}

/// The coder after it has coded `bits`, each in the context of the same place.
pub open spec fn code_bits(model: CoderModel, contexts: Seq<int>, bits: Seq<int>) -> CoderModel
    decreases contexts.len(),
{
    if contexts.len() == 0 {
        model
    } else {
        code_bits(model.code_bit(contexts[0], bits[0]), contexts.drop_first(), bits.drop_first())
    }
}

/// What reads back `bits`, given the window held after them.
pub open spec fn bits_reading(model: CoderModel, contexts: Seq<int>, bits: Seq<int>, after: int)
    -> Reading
    decreases contexts.len(),
{
    if contexts.len() == 0 {
        Reading { window: after, stream: Seq::empty() }
    } else {
        let later = bits_reading(
            model.code_bit(contexts[0], bits[0]),
            contexts.drop_first(),
            bits.drop_first(),
            after,
        );
        let first = bit_reading(model, contexts[0], bits[0], later.window);
        Reading { window: first.window, stream: first.stream + later.stream }
    }
}

/// The decoder reads back what the coder coded. Let a coder code `bits` in
/// `contexts`, and let `after` be any 64-bit value inside the interval it
/// ends with. A decoder that starts in step with the coder, and reads the
/// bits that the coder emitted followed by the 64 bits of `after`, reads
/// exactly `bits`, whatever follows in the stream.
pub proof fn lemma_decoder_reads_back(
    model: CoderModel,
    contexts: Seq<int>,
    bits: Seq<int>,
    after: int,
    rest: Seq<bool>,
)
    requires
        model.wf(),
        contexts.len() == bits.len(),
        forall|i: int| 0 <= i < contexts.len() ==> 0 <= #[trigger] contexts[i] < model.predictors.len(),
        forall|i: int| 0 <= i < bits.len() ==> #[trigger] bits[i] == 0 || bits[i] == 1,
        code_bits(model, contexts, bits).range.low <= after <= code_bits(
            model,
            contexts,
            bits,
        ).range.high,
    ensures
        ({
            let reading = bits_reading(model, contexts, bits, after);
            &&& model.range.low <= reading.window <= model.range.high
            &&& model.bits + bits_of(reading.window, 64) + reading.stream == code_bits(
                model,
                contexts,
                bits,
            ).bits + bits_of(after, 64)
            &&& poised(model, reading.window, reading.stream + rest).decode_bits(contexts) == bits
        }),
    decreases contexts.len(),
{
    let reading = bits_reading(model, contexts, bits, after);
    let decoder = poised(model, reading.window, reading.stream + rest);
    if contexts.len() == 0 {
        assert(model.bits + bits_of(after, 64) + Seq::<bool>::empty() =~= model.bits + bits_of(
            after,
            64,
        ));
        assert(decoder.decode_bits(contexts) =~= bits);
    } else {
        let context = contexts[0];
        let bit = bits[0];
        let next = model.code_bit(context, bit);
        let later_contexts = contexts.drop_first();
        let later_bits = bits.drop_first();
        lemma_code_bit_wf(model, context, bit);
        assert forall|i: int| 0 <= i < later_contexts.len() implies 0 <= #[trigger] later_contexts[i]
            < next.predictors.len() by {
            assert(later_contexts[i] == contexts[i + 1]);
        }
        assert forall|i: int| 0 <= i < later_bits.len() implies #[trigger] later_bits[i] == 0
            || later_bits[i] == 1 by {
            assert(later_bits[i] == bits[i + 1]);
        }
        lemma_decoder_reads_back(next, later_contexts, later_bits, after, rest);
        let later = bits_reading(next, later_contexts, later_bits, after);
        let first = bit_reading(model, context, bit, later.window);
        lemma_bit_reads_back(model, context, bit, later.window, later.stream + rest);
        assert(reading.stream + rest =~= first.stream + (later.stream + rest));
        assert(seq![bit] + later_bits =~= bits);
        assert(model.bits + bits_of(reading.window, 64) + reading.stream =~= (model.bits
            + bits_of(first.window, 64) + first.stream) + later.stream);
    }
}

/// What reads back a nibble, given the window held after it.
pub open spec fn nibble_reading(model: CoderModel, base: int, nibble: int, after: int) -> Reading {
    let path = 16 + nibble;
    let one = model.code_bit(base + 1, path / 8 % 2);
    let two = one.code_bit(base + path / 8, path / 4 % 2);
    let three = two.code_bit(base + path / 4, path / 2 % 2);
    let fourth = bit_reading(three, base + path / 2, path % 2, after);
    let third = bit_reading(two, base + path / 4, path / 2 % 2, fourth.window);
    let second = bit_reading(one, base + path / 8, path / 4 % 2, third.window);
    let first = bit_reading(model, base + 1, path / 8 % 2, second.window);
    Reading {
        window: first.window,
        stream: first.stream + second.stream + third.stream + fourth.stream,
    }
}

/// Reading a nibble: the decoder that holds the window and stream of
/// `nibble_reading` is inside the coder's interval, reads the nibble, and
/// ends in step with the coder, holding the given window.
pub proof fn lemma_nibble_reads_back(
    model: CoderModel,
    base: int,
    nibble: int,
    after: int,
    rest: Seq<bool>,
)
    requires
        model.wf(),
        0 <= base,
        base + 15 < model.predictors.len(),
        0 <= nibble < 16,
        model.code_nibble(base, nibble).range.low <= after <= model.code_nibble(
            base,
            nibble,
        ).range.high,
    ensures
        ({
            let reading = nibble_reading(model, base, nibble, after);
            let decoder = poised(model, reading.window, reading.stream + rest);
            &&& model.range.low <= reading.window <= model.range.high
            &&& decoder.read_nibble(base) == nibble
            &&& decoder.decode_nibble(base) == poised(model.code_nibble(base, nibble), after, rest)
            &&& model.bits + bits_of(reading.window, 64) + reading.stream == model.code_nibble(
                base,
                nibble,
            ).bits + bits_of(after, 64)
        }),
{
    let path = 16 + nibble;
    let one = model.code_bit(base + 1, path / 8 % 2);
    let two = one.code_bit(base + path / 8, path / 4 % 2);
    let three = two.code_bit(base + path / 4, path / 2 % 2);
    lemma_code_bit_wf(model, base + 1, path / 8 % 2);
    lemma_code_bit_wf(one, base + path / 8, path / 4 % 2);
    lemma_code_bit_wf(two, base + path / 4, path / 2 % 2);
    let fourth = bit_reading(three, base + path / 2, path % 2, after);
    lemma_bit_reads_back(three, base + path / 2, path % 2, after, rest);
    let third = bit_reading(two, base + path / 4, path / 2 % 2, fourth.window);
    lemma_bit_reads_back(two, base + path / 4, path / 2 % 2, fourth.window, fourth.stream + rest);
    let second = bit_reading(one, base + path / 8, path / 4 % 2, third.window);
    lemma_bit_reads_back(
        one,
        base + path / 8,
        path / 4 % 2,
        third.window,
        third.stream + (fourth.stream + rest),
    );
    let first = bit_reading(model, base + 1, path / 8 % 2, second.window);
    lemma_bit_reads_back(
        model,
        base + 1,
        path / 8 % 2,
        second.window,
        second.stream + (third.stream + (fourth.stream + rest)),
    );
    let reading = nibble_reading(model, base, nibble, after);
    let decoder = poised(model, reading.window, reading.stream + rest);
    assert(reading.stream + rest =~= first.stream + (second.stream + (third.stream + (
    fourth.stream + rest))));
    let decoder_one = poised(one, second.window, second.stream + (third.stream + (fourth.stream
        + rest)));
    let decoder_two = poised(two, third.window, third.stream + (fourth.stream + rest));
    let decoder_three = poised(three, fourth.window, fourth.stream + rest);
    assert(decoder.read(base + 1) == path / 8 % 2);
    assert(decoder.decode_bit(base + 1) == decoder_one);
    assert(base + 2 + path / 8 % 2 == base + path / 8);
    assert(decoder_one.read(base + path / 8) == path / 4 % 2);
    assert(decoder_one.decode_bit(base + path / 8) == decoder_two);
    assert(base + 4 + 2 * (path / 8 % 2) + path / 4 % 2 == base + path / 4);
    assert(decoder_two.read(base + path / 4) == path / 2 % 2);
    assert(decoder_two.decode_bit(base + path / 4) == decoder_three);
    assert(base + 8 + 4 * (path / 8 % 2) + 2 * (path / 4 % 2) + path / 2 % 2 == base + path / 2);
    assert(decoder_three.read(base + path / 2) == path % 2);
    assert(8 * (path / 8 % 2) + 4 * (path / 4 % 2) + 2 * (path / 2 % 2) + path % 2 == nibble);
    assert(model.bits + bits_of(reading.window, 64) + reading.stream =~= (((model.bits + bits_of(
        first.window,
        64,
    ) + first.stream) + second.stream) + third.stream) + fourth.stream);
    assert((one.bits + bits_of(second.window, 64)) + second.stream == two.bits + bits_of(
        third.window,
        64,
    ));
    assert((two.bits + bits_of(third.window, 64)) + third.stream == three.bits + bits_of(
        fourth.window,
        64,
    ));
}

/// What reads back a byte, given the window held after it.
#[verifier::opaque]
pub open spec fn byte_reading(model: CoderModel, context: int, byte: u8, after: int) -> Reading {
    let high = byte as int / 16;
    let low = byte as int % 16;
    let second = nibble_reading(
        model.code_nibble(context, high),
        context + 15 * (high + 1),
        low,
        after,
    );
    let first = nibble_reading(model, context, high, second.window);
    Reading { window: first.window, stream: first.stream + second.stream }
}

/// Reading a byte: the decoder that holds the window and stream of
/// `byte_reading` is inside the coder's interval, reads the byte, and ends
/// in step with the coder, holding the given window.
pub proof fn lemma_byte_reads_back(
    model: CoderModel,
    context: int,
    byte: u8,
    after: int,
    rest: Seq<bool>,
)
    requires
        model.wf(),
        0 <= context,
        context + 255 < model.predictors.len(),
        model.code_byte(context, byte).range.low <= after <= model.code_byte(
            context,
            byte,
        ).range.high,
    ensures
        ({
            let reading = byte_reading(model, context, byte, after);
            let decoder = poised(model, reading.window, reading.stream + rest);
            &&& model.range.low <= reading.window <= model.range.high
            &&& decoder.read_byte(context) == byte
            &&& decoder.decode_byte(context) == poised(model.code_byte(context, byte), after, rest)
            &&& model.bits + bits_of(reading.window, 64) + reading.stream == model.code_byte(
                context,
                byte,
            ).bits + bits_of(after, 64)
        }),
{
    reveal(DecoderModel::read_byte);
    reveal(DecoderModel::decode_byte);
    reveal(byte_reading);
    let high = byte as int / 16;
    let low = byte as int % 16;
    let middle = model.code_nibble(context, high);
    lemma_code_nibble_wf(model, context, high);
    let second = nibble_reading(middle, context + 15 * (high + 1), low, after);
    lemma_nibble_reads_back(middle, context + 15 * (high + 1), low, after, rest);
    let first = nibble_reading(model, context, high, second.window);
    lemma_nibble_reads_back(model, context, high, second.window, second.stream + rest);
    let reading = byte_reading(model, context, byte, after);
    assert(reading.stream + rest =~= first.stream + (second.stream + rest));
    assert(model.bits + bits_of(reading.window, 64) + reading.stream =~= (model.bits + bits_of(
        first.window,
        64,
    ) + first.stream) + second.stream);
}

/// What reads back a byte that matched second or third: a 1, a 1, and
/// `third` to tell the two apart.
pub open spec fn ranked_reading(
    model: CoderModel,
    first_context: int,
    second_context: int,
    third_context: int,
    third: int,
    after: int,
) -> Reading {
    let one = model.code_bit(first_context, 1);
    let two = one.code_bit(second_context, 1);
    let last = bit_reading(two, third_context, third, after);
    let middle = bit_reading(one, second_context, 1, last.window);
    let first = bit_reading(model, first_context, 1, middle.window);
    Reading { window: first.window, stream: first.stream + middle.stream + last.stream }
}

/// What reads back a byte sent in full: a 1, a 0, and the byte.
pub open spec fn literal_reading(
    model: CoderModel,
    first_context: int,
    second_context: int,
    literal_context: int,
    byte: u8,
    after: int,
) -> Reading {
    let one = model.code_bit(first_context, 1);
    let two = one.code_bit(second_context, 0);
    let last = byte_reading(two, literal_context, byte, after);
    let middle = bit_reading(one, second_context, 0, last.window);
    let first = bit_reading(model, first_context, 1, middle.window);
    Reading { window: first.window, stream: first.stream + middle.stream + last.stream }
}

/// Reading a byte that matched second or third.
pub proof fn lemma_ranked_reads_back(
    model: CoderModel,
    first_context: int,
    second_context: int,
    third_context: int,
    third: int,
    after: int,
    rest: Seq<bool>,
)
    requires
        model.wf(),
        0 <= first_context < model.predictors.len(),
        0 <= second_context < model.predictors.len(),
        0 <= third_context < model.predictors.len(),
        third == 0 || third == 1,
        model.code_bit(first_context, 1).code_bit(second_context, 1).code_bit(
            third_context,
            third,
        ).range.low <= after <= model.code_bit(first_context, 1).code_bit(
            second_context,
            1,
        ).code_bit(third_context, third).range.high,
    ensures
        ({
            let reading = ranked_reading(
                model,
                first_context,
                second_context,
                third_context,
                third,
                after,
            );
            let last = model.code_bit(first_context, 1).code_bit(second_context, 1).code_bit(
                third_context,
                third,
            );
            let decoder = poised(model, reading.window, reading.stream + rest);
            let one = decoder.decode_bit(first_context);
            let two = one.decode_bit(second_context);
            &&& model.range.low <= reading.window <= model.range.high
            &&& decoder.read(first_context) == 1
            &&& one.read(second_context) == 1
            &&& two.read(third_context) == third
            &&& two.decode_bit(third_context) == poised(last, after, rest)
            &&& model.bits + bits_of(reading.window, 64) + reading.stream == last.bits + bits_of(
                after,
                64,
            )
        }),
{
    let one = model.code_bit(first_context, 1);
    let two = one.code_bit(second_context, 1);
    lemma_code_bit_wf(model, first_context, 1);
    lemma_code_bit_wf(one, second_context, 1);
    let last = bit_reading(two, third_context, third, after);
    lemma_bit_reads_back(two, third_context, third, after, rest);
    let middle = bit_reading(one, second_context, 1, last.window);
    lemma_bit_reads_back(one, second_context, 1, last.window, last.stream + rest);
    let first = bit_reading(model, first_context, 1, middle.window);
    lemma_bit_reads_back(
        model,
        first_context,
        1,
        middle.window,
        middle.stream + (last.stream + rest),
    );
    let reading = ranked_reading(
        model,
        first_context,
        second_context,
        third_context,
        third,
        after,
    );
    assert(reading.stream + rest =~= first.stream + (middle.stream + (last.stream + rest)));
    assert(model.bits + bits_of(reading.window, 64) + reading.stream =~= ((model.bits + bits_of(
        first.window,
        64,
    ) + first.stream) + middle.stream) + last.stream);
    assert((one.bits + bits_of(middle.window, 64)) + middle.stream == two.bits + bits_of(
        last.window,
        64,
    ));
}

/// Reading a byte sent in full.
pub proof fn lemma_literal_reads_back(
    model: CoderModel,
    first_context: int,
    second_context: int,
    literal_context: int,
    byte: u8,
    after: int,
    rest: Seq<bool>,
)
    requires
        model.wf(),
        0 <= first_context < model.predictors.len(),
        0 <= second_context < model.predictors.len(),
        0 <= literal_context,
        literal_context + 255 < model.predictors.len(),
        model.code_bit(first_context, 1).code_bit(second_context, 0).code_byte(
            literal_context,
            byte,
        ).range.low <= after <= model.code_bit(first_context, 1).code_bit(
            second_context,
            0,
        ).code_byte(literal_context, byte).range.high,
    ensures
        ({
            let reading = literal_reading(
                model,
                first_context,
                second_context,
                literal_context,
                byte,
                after,
            );
            let last = model.code_bit(first_context, 1).code_bit(second_context, 0).code_byte(
                literal_context,
                byte,
            );
            let decoder = poised(model, reading.window, reading.stream + rest);
            let one = decoder.decode_bit(first_context);
            let two = one.decode_bit(second_context);
            &&& model.range.low <= reading.window <= model.range.high
            &&& decoder.read(first_context) == 1
            &&& one.read(second_context) == 0
            &&& two.read_byte(literal_context) == byte
            &&& two.decode_byte(literal_context) == poised(last, after, rest)
            &&& model.bits + bits_of(reading.window, 64) + reading.stream == last.bits + bits_of(
                after,
                64,
            )
        }),
{
    let one = model.code_bit(first_context, 1);
    let two = one.code_bit(second_context, 0);
    lemma_code_bit_wf(model, first_context, 1);
    lemma_code_bit_wf(one, second_context, 0);
    let last = byte_reading(two, literal_context, byte, after);
    lemma_byte_reads_back(two, literal_context, byte, after, rest);
    let middle = bit_reading(one, second_context, 0, last.window);
    lemma_bit_reads_back(one, second_context, 0, last.window, last.stream + rest);
    let first = bit_reading(model, first_context, 1, middle.window);
    lemma_bit_reads_back(
        model,
        first_context,
        1,
        middle.window,
        middle.stream + (last.stream + rest),
    );
    let reading = literal_reading(
        model,
        first_context,
        second_context,
        literal_context,
        byte,
        after,
    );
    assert(reading.stream + rest =~= first.stream + (middle.stream + (last.stream + rest)));
    assert(model.bits + bits_of(reading.window, 64) + reading.stream =~= ((model.bits + bits_of(
        first.window,
        64,
    ) + first.stream) + middle.stream) + last.stream);
    assert((one.bits + bits_of(middle.window, 64)) + middle.stream == two.bits + bits_of(
        last.window,
        64,
    ));
}

/// A decoder of whole streams: the context map, which it keeps equal to
/// the encoder's, and the decoder of bits.
pub struct StreamDecoderModel {
    pub contexts: ContextModel,
    pub decoder: DecoderModel,
}

/// What decoding one symbol gives: the decoder afterwards, and the byte
/// read, or nothing where the symbol was the end mark.
pub struct Decoded {
    pub next: StreamDecoderModel,
    pub byte: Option<u8>,
}

/// A stream decoder in step with an encoder, holding the given window with
/// the given stream before it.
pub open spec fn in_step(model: StreamModel, window: int, stream: Seq<bool>) -> StreamDecoderModel {
    StreamDecoderModel { contexts: model.contexts, decoder: poised(model.coder, window, stream) }
}

impl StreamDecoderModel {
    /// The encoder state that selects the same predictors.
    pub open spec fn selection(self) -> StreamModel {
        StreamModel {
            contexts: self.contexts,
            coder: CoderModel {
                range: self.decoder.range,
                bits: Seq::empty(),
                predictors: self.decoder.predictors,
            },
        }
    }

    /// Reads one symbol: the rank of the next byte, and the byte in full
    /// where it matched nothing. A byte in full that equals the first byte
    /// of the history is the end mark.
    pub open spec fn decode_symbol(self) -> Decoded {
        let at = self.selection();
        let cell = self.contexts.current();
        let one = self.decoder.decode_bit(at.first_context());
        let two = one.decode_bit(at.second_context());
        if self.decoder.read(at.first_context()) == 0 {
            Decoded {
                next: StreamDecoderModel {
                    contexts: self.contexts.apply(cell.first, ByteMatched::FIRST),
                    decoder: one,
                },
                byte: Some(cell.first),
            }
        } else if one.read(at.second_context()) == 0 {
            let literal = two.read_byte(at.literal_context()) as u8;
            let three = two.decode_byte(at.literal_context());
            if literal == cell.first {
                Decoded {
                    next: StreamDecoderModel { contexts: self.contexts, decoder: three },
                    byte: None,
                }
            } else {
                Decoded {
                    next: StreamDecoderModel {
                        contexts: self.contexts.apply(literal, ByteMatched::NONE),
                        decoder: three,
                    },
                    byte: Some(literal),
                }
            }
        } else if two.read(at.third_context()) == 0 {
            Decoded {
                next: StreamDecoderModel {
                    contexts: self.contexts.apply(cell.second, ByteMatched::SECOND),
                    decoder: two.decode_bit(at.third_context()),
                },
                byte: Some(cell.second),
            }
        } else {
            Decoded {
                next: StreamDecoderModel {
                    contexts: self.contexts.apply(cell.third, ByteMatched::THIRD),
                    decoder: two.decode_bit(at.third_context()),
                },
                byte: Some(cell.third),
            }
        }
    }

    /// Reads symbols up to the end mark and gives the bytes read, or
    /// nothing if the end mark is not among the first `limit` symbols.
    pub open spec fn decode_to_end(self, limit: nat) -> Option<Seq<u8>>
        decreases limit,
    {
        if limit == 0 {
            None
        } else {
            let decoded = self.decode_symbol();
            match decoded.byte {
                None => Some(Seq::empty()),
                Some(byte) => match decoded.next.decode_to_end((limit - 1) as nat) {
                    Some(later) => Some(seq![byte] + later),
                    None => None,
                },
            }
        }
    }
}

/// What reads back one encoded byte, given the window held after it.
pub open spec fn symbol_reading(model: StreamModel, byte: u8, after: int) -> Reading {
    match model.contexts.current().classify(byte) {
        ByteMatched::FIRST => bit_reading(model.coder, model.first_context(), 0, after),
        ByteMatched::SECOND => ranked_reading(
            model.coder,
            model.first_context(),
            model.second_context(),
            model.third_context(),
            0,
            after,
        ),
        ByteMatched::THIRD => ranked_reading(
            model.coder,
            model.first_context(),
            model.second_context(),
            model.third_context(),
            1,
            after,
        ),
        ByteMatched::NONE => literal_reading(
            model.coder,
            model.first_context(),
            model.second_context(),
            model.literal_context(),
            byte,
            after,
        ),
    }
}

/// What reads back the end mark, given the window held after it.
pub open spec fn end_reading(model: StreamModel, after: int) -> Reading {
    literal_reading(
        model.coder,
        model.first_context(),
        model.second_context(),
        model.literal_context(),
        model.contexts.current().first,
        after,
    )
}

/// Reading one encoded byte: the stream decoder that holds the window and
/// stream of `symbol_reading` reads the byte and ends in step with the
/// encoder, holding the given window.
pub proof fn lemma_symbol_reads_back(model: StreamModel, byte: u8, after: int, rest: Seq<bool>)
    requires
        model.wf(),
        model.encode_byte(byte).coder.range.low <= after <= model.encode_byte(
            byte,
        ).coder.range.high,
    ensures
        ({
            let reading = symbol_reading(model, byte, after);
            &&& model.coder.range.low <= reading.window <= model.coder.range.high
            &&& in_step(model, reading.window, reading.stream + rest).decode_symbol() == (Decoded {
                next: in_step(model.encode_byte(byte), after, rest),
                byte: Some(byte),
            })
            &&& model.coder.bits + bits_of(reading.window, 64) + reading.stream
                == model.encode_byte(byte).coder.bits + bits_of(after, 64)
        }),
{
    lemma_contexts_in_range(model);
    let reading = symbol_reading(model, byte, after);
    let decoder = in_step(model, reading.window, reading.stream + rest);
    let cell = model.contexts.current();
    assert(decoder.selection().first_context() == model.first_context());
    assert(decoder.selection().second_context() == model.second_context());
    assert(decoder.selection().third_context() == model.third_context());
    assert(decoder.selection().literal_context() == model.literal_context());
    match cell.classify(byte) {
        ByteMatched::FIRST => {
            lemma_bit_reads_back(model.coder, model.first_context(), 0, after, rest);
        },
        ByteMatched::SECOND => {
            lemma_ranked_reads_back(
                model.coder,
                model.first_context(),
                model.second_context(),
                model.third_context(),
                0,
                after,
                rest,
            );
        },
        ByteMatched::THIRD => {
            lemma_ranked_reads_back(
                model.coder,
                model.first_context(),
                model.second_context(),
                model.third_context(),
                1,
                after,
                rest,
            );
        },
        ByteMatched::NONE => {
            lemma_literal_reads_back(
                model.coder,
                model.first_context(),
                model.second_context(),
                model.literal_context(),
                byte,
                after,
                rest,
            );
        },
    }
}

/// Reading the end mark: the stream decoder that holds the window and
/// stream of `end_reading` reads no byte.
pub proof fn lemma_end_reads_back(model: StreamModel, after: int, rest: Seq<bool>)
    requires
        model.wf(),
        model.end().range.low <= after <= model.end().range.high,
    ensures
        ({
            let reading = end_reading(model, after);
            &&& model.coder.range.low <= reading.window <= model.coder.range.high
            &&& in_step(model, reading.window, reading.stream + rest).decode_symbol().byte
                == None::<u8>
            &&& model.coder.bits + bits_of(reading.window, 64) + reading.stream
                == model.end().bits + bits_of(after, 64)
        }),
{
    lemma_contexts_in_range(model);
    let reading = end_reading(model, after);
    let decoder = in_step(model, reading.window, reading.stream + rest);
    assert(decoder.selection().first_context() == model.first_context());
    assert(decoder.selection().second_context() == model.second_context());
    assert(decoder.selection().literal_context() == model.literal_context());
    lemma_literal_reads_back(
        model.coder,
        model.first_context(),
        model.second_context(),
        model.literal_context(),
        model.contexts.current().first,
        after,
        rest,
    );
}

/// What reads back a whole input and its end mark, given the window held
/// after the end mark.
pub open spec fn stream_reading(model: StreamModel, input: Seq<u8>, after: int) -> Reading
    decreases input.len(),
{
    if input.len() == 0 {
        end_reading(model, after)
    } else {
        let later = stream_reading(model.encode_byte(input[0]), input.drop_first(), after);
        let first = symbol_reading(model, input[0], later.window);
        Reading { window: first.window, stream: first.stream + later.stream }
    }
}

/// Encoding a run of bytes is encoding its first byte and then the others.
pub proof fn lemma_encode_all_first(model: StreamModel, input: Seq<u8>)
    requires
        input.len() > 0,
    ensures
        model.encode_all(input) == model.encode_byte(input[0]).encode_all(input.drop_first()),
    decreases input.len(),
{
    if input.len() == 1 {
        assert(input.drop_last().len() == 0);
        assert(input.drop_first().len() == 0);
        assert(model.encode_all(input.drop_last()) == model);
    } else {
        lemma_encode_all_first(model, input.drop_last());
        assert(input.drop_last().drop_first() =~= input.drop_first().drop_last());
        assert(input.drop_last()[0] == input[0]);
        assert(input.drop_first().last() == input.last());
    }
}

/// The round trip, up to the closing bits. Let an encoder encode `input`
/// and mark the end, and let `after` be any 64-bit value inside the interval
/// that its coder ends with. A decoder that starts in step with the encoder
/// and reads the bits that the encoder emitted, followed by the 64 bits of
/// `after`, reads exactly `input` and then the end mark, whatever follows in
/// the stream.
pub proof fn lemma_stream_reads_back(
    model: StreamModel,
    input: Seq<u8>,
    after: int,
    rest: Seq<bool>,
)
    requires
        model.wf(),
        model.encode_all(input).end().range.low <= after <= model.encode_all(
            input,
        ).end().range.high,
    ensures
        ({
            let reading = stream_reading(model, input, after);
            &&& model.coder.range.low <= reading.window <= model.coder.range.high
            &&& model.coder.bits + bits_of(reading.window, 64) + reading.stream
                == model.encode_all(input).end().bits + bits_of(after, 64)
            &&& in_step(model, reading.window, reading.stream + rest).decode_to_end(
                input.len() + 1,
            ) == Some(input)
        }),
    decreases input.len(),
{
    let reading = stream_reading(model, input, after);
    let decoder = in_step(model, reading.window, reading.stream + rest);
    if input.len() == 0 {
        lemma_end_reads_back(model, after, rest);
        assert(model.encode_all(input) == model);
        assert(decoder.decode_to_end(1) == Some(Seq::<u8>::empty()));
        assert(input =~= Seq::<u8>::empty());
    } else {
        let byte = input[0];
        let others = input.drop_first();
        let next = model.encode_byte(byte);
        lemma_encode_all_first(model, input);
        lemma_encode_byte_wf(model, byte);
        lemma_stream_reads_back(next, others, after, rest);
        let later = stream_reading(next, others, after);
        let first = symbol_reading(model, byte, later.window);
        lemma_symbol_reads_back(model, byte, later.window, later.stream + rest);
        assert(reading.stream + rest =~= first.stream + (later.stream + rest));
        assert(decoder.decode_symbol() == (Decoded {
            next: in_step(next, later.window, later.stream + rest),
            byte: Some(byte),
        }));
        assert(in_step(next, later.window, later.stream + rest).decode_to_end(
            others.len() + 1,
        ) == Some(others));
        assert((input.len() + 1 - 1) as nat == others.len() + 1);
        assert(seq![byte] + others =~= input);
        assert(model.coder.bits + bits_of(reading.window, 64) + reading.stream =~= (
        model.coder.bits + bits_of(first.window, 64) + first.stream) + later.stream);
    }
}

/// The round trip for a fresh encoder: the decoder's stream is then the
/// whole output up to the closing bits, followed by the 64 bits of `after`.
pub proof fn lemma_fresh_stream_reads_back(size: int, input: Seq<u8>, after: int, rest: Seq<bool>)
    requires
        is_power_of_two(size),
        StreamModel::initial(size).encode_all(input).end().range.low <= after
            <= StreamModel::initial(size).encode_all(input).end().range.high,
    ensures
        ({
            let start = StreamModel::initial(size);
            let reading = stream_reading(start, input, after);
            &&& bits_of(reading.window, 64) + reading.stream == start.encode_all(input).end().bits
                + bits_of(after, 64)
            &&& in_step(start, reading.window, reading.stream + rest).decode_to_end(
                input.len() + 1,
            ) == Some(input)
        }),
{
    let start = StreamModel::initial(size);
    crate::primary_context::context::lemma_power_of_two_positive(size);
    assert(start.wf());
    lemma_stream_reads_back(start, input, after, rest);
    let reading = stream_reading(start, input, after);
    assert(start.coder.bits + bits_of(reading.window, 64) + reading.stream =~= bits_of(
        reading.window,
        64,
    ) + reading.stream);
}

/// The round trip through the closed stream, where the closing bits carry
/// it: if the lower end of the coder's interval is zero when the stream is
/// closed, a decoder that starts in step with the encoder and reads the
/// closed stream, followed by zeros, reads exactly `input` and then the end
/// mark. Where the lower end is above zero, the closed stream goes on below
/// the interval, and nothing is claimed.
pub proof fn lemma_closed_stream_reads_back(model: StreamModel, input: Seq<u8>, rest: Seq<bool>)
    requires
        model.wf(),
        model.encode_all(input).end().range.low == 0,
    ensures
        ({
            let reading = stream_reading(model, input, 0);
            let closed = model.encode_all(input);
            &&& model.coder.bits + bits_of(reading.window, 64) + reading.stream == closed.finish()
                + zero_bits((56 + closed.end().bits.len() % 8) as nat)
            &&& in_step(model, reading.window, reading.stream + rest).decode_to_end(
                input.len() + 1,
            ) == Some(input)
        }),
{
    let closed = model.encode_all(input);
    let last = closed.end();
    lemma_encode_all_wf(model, input);
    lemma_contexts_in_range(closed);
    lemma_code_bit_wf(closed.coder, closed.first_context(), 1);
    let one = closed.coder.code_bit(closed.first_context(), 1);
    lemma_code_bit_wf(one, closed.second_context(), 0);
    lemma_code_byte_wf(
        one.code_bit(closed.second_context(), 0),
        closed.literal_context(),
        closed.contexts.current().first,
    );
    lemma_stream_reads_back(model, input, 0, rest);
    lemma_closing_bit_is_zero(last);
    lemma_bits_of_zero(64);
    let short = (8 - last.bits.len() % 8) as nat;
    let long = (56 + last.bits.len() % 8) as nat;
    assert(zero_bits(short) + zero_bits(long) =~= zero_bits(64));
    assert(last.bits + zero_bits(64) =~= (last.bits + zero_bits(short)) + zero_bits(long));
}

} // verus!
