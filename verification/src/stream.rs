//! The stream encoder: each byte is ranked against the history of its
//! context, the rank is coded as one to three bits, and a byte that matches
//! nothing is coded in full.

use vstd::prelude::*;
use crate::bits::bytes_to_bits;
use crate::coder::{BitEncoder, CoderModel, lemma_code_bit_wf, lemma_code_byte_wf};
use crate::primary_context::context::{ContextModel, PrimaryContext, is_power_of_two,
    lemma_apply_wf, lemma_hash_is_rolling_hash, rolling_hash};
use crate::primary_context::matched::ByteMatched;

verus! {

/// The number of predictors: 1280 groups of 1024.
pub const PREDICTOR_COUNT: usize = 1_310_720;

/// The first predictor of the group that codes in a context whose history
/// has match count `count`, after the byte `previous`: short runs are told
/// apart by the previous byte, longer runs by their length alone.
pub open spec fn base_context(previous: u8, count: int) -> int {
    if count < 4 {
        (previous as int * 4 + count) * 1024
    } else {
        (1024 + count) * 1024
    }
}

/// The encoder's state: the context map and the coder.
pub struct StreamModel {
    pub contexts: ContextModel,
    pub coder: CoderModel,
}

impl StreamModel {
    /// Before any byte, with `size` contexts.
    pub open spec fn initial(size: int) -> StreamModel {
        StreamModel {
            contexts: ContextModel::initial(size),
            coder: CoderModel::initial(PREDICTOR_COUNT as nat),
        }
    }

    pub open spec fn wf(self) -> bool {
        &&& self.contexts.wf()
        &&& self.coder.wf()
        &&& self.coder.predictors.len() == PREDICTOR_COUNT
    }

    /// The first predictor of the current group.
    pub open spec fn base(self) -> int {
        base_context(self.contexts.previous, self.contexts.current().count)
    }

    /// Where "is it the first byte?" is coded.
    pub open spec fn first_context(self) -> int {
        self.base() + self.contexts.current().first
    }

    /// Where "is it one of the other two?" is coded.
    pub open spec fn second_context(self) -> int {
        let cell = self.contexts.current();
        self.base() + 256 + (cell.second + cell.third) % 256
    }

    /// Where "is it the third rather than the second?" is coded.
    pub open spec fn third_context(self) -> int {
        let cell = self.contexts.current();
        self.base() + 512 + (2 * cell.second - cell.third) % 256
    }

    /// Where a byte that matched nothing is coded in full.
    pub open spec fn literal_context(self) -> int {
        self.base() + 768
    }

    /// The coder after it coded a byte that was ranked as `outcome`.
    pub open spec fn code_outcome(self, byte: u8, outcome: ByteMatched) -> CoderModel {
        match outcome {
            ByteMatched::FIRST => self.coder.code_bit(self.first_context(), 0),
            ByteMatched::SECOND => self.coder.code_bit(self.first_context(), 1).code_bit(
                self.second_context(),
                1,
            ).code_bit(self.third_context(), 0),
            ByteMatched::THIRD => self.coder.code_bit(self.first_context(), 1).code_bit(
                self.second_context(),
                1,
            ).code_bit(self.third_context(), 1),
            ByteMatched::NONE => self.coder.code_bit(self.first_context(), 1).code_bit(
                self.second_context(),
                0,
            ).code_byte(self.literal_context(), byte),
        }
    }

    /// The state after `byte` was encoded.
    pub open spec fn encode_byte(self, byte: u8) -> StreamModel {
        StreamModel {
            contexts: self.contexts.observe(byte),
            coder: self.code_outcome(byte, self.contexts.current().classify(byte)),
        }
    }

    /// The state after all of `bytes` were encoded in order.
    pub open spec fn encode_all(self, bytes: Seq<u8>) -> StreamModel
        decreases bytes.len(),
    {
        if bytes.len() == 0 {
            self
        } else {
            self.encode_all(bytes.drop_last()).encode_byte(bytes.last())
        }
    }

    /// The coder after the end was marked: coded like a byte that matched
    /// nothing, but with the first byte of the history, which a byte that
    /// matched nothing never is.
    pub open spec fn end(self) -> CoderModel {
        self.coder.code_bit(self.first_context(), 1).code_bit(self.second_context(), 0).code_byte(
            self.literal_context(),
            self.contexts.current().first,
        )
    }

    /// The bits of the closed stream.
    pub open spec fn finish(self) -> Seq<bool> {
        self.end().finish()
    }
}

/// The bits that encode `input` with `size` contexts.
pub open spec fn encoded_bits(input: Seq<u8>, size: int) -> Seq<bool> {
    StreamModel::initial(size).encode_all(input).finish()
}

/// Every predictor that a state selects exists, and so do the 255 after
/// the one for literals.
pub proof fn lemma_contexts_in_range(model: StreamModel)
    requires
        model.wf(),
    ensures
        0 <= model.base() <= 1279 * 1024,
        model.base() <= model.first_context() < model.base() + 256,
        model.base() + 256 <= model.second_context() < model.base() + 512,
        model.base() + 512 <= model.third_context() < model.base() + 768,
        model.literal_context() + 255 < PREDICTOR_COUNT,
{
    assert(model.contexts.current().wf());
}

/// Encoding a byte keeps the state well formed.
pub proof fn lemma_encode_byte_wf(model: StreamModel, byte: u8)
    requires
        model.wf(),
    ensures
        model.encode_byte(byte).wf(),
        model.encode_byte(byte).contexts.cells.len() == model.contexts.cells.len(),
{
    lemma_contexts_in_range(model);
    let outcome = model.contexts.current().classify(byte);
    lemma_apply_wf(model.contexts, byte, outcome);
    let one = model.coder.code_bit(model.first_context(), 1);
    lemma_code_bit_wf(model.coder, model.first_context(), 1);
    lemma_code_bit_wf(model.coder, model.first_context(), 0);
    let two = one.code_bit(model.second_context(), 1);
    lemma_code_bit_wf(one, model.second_context(), 1);
    lemma_code_bit_wf(one, model.second_context(), 0);
    lemma_code_bit_wf(two, model.third_context(), 1);
    lemma_code_bit_wf(two, model.third_context(), 0);
    lemma_code_byte_wf(one.code_bit(model.second_context(), 0), model.literal_context(), byte);
}

/// Whatever bytes are encoded, the state stays well formed: the ends of the
/// coder's interval stay apart and differ in their highest bit, and the hash
/// selects an existing context.
pub proof fn lemma_encode_all_wf(model: StreamModel, bytes: Seq<u8>)
    requires
        model.wf(),
    ensures
        model.encode_all(bytes).wf(),
        model.encode_all(bytes).contexts.cells.len() == model.contexts.cells.len(),
        model.encode_all(bytes).coder.range.low < 0x8000_0000_0000_0000
            <= model.encode_all(bytes).coder.range.high,
        0 <= model.encode_all(bytes).contexts.hash < model.contexts.cells.len(),
    decreases bytes.len(),
{
    if bytes.len() > 0 {
        lemma_encode_all_wf(model, bytes.drop_last());
        lemma_encode_byte_wf(model.encode_all(bytes.drop_last()), bytes.last());
    }
}

/// Encoding a run of bytes and then one more is encoding the longer run.
pub proof fn lemma_encode_all_push(model: StreamModel, bytes: Seq<u8>, byte: u8)
    ensures
        model.encode_all(bytes.push(byte)) == model.encode_all(bytes).encode_byte(byte),
{
    assert(bytes.push(byte).drop_last() =~= bytes);
}

/// The context map sees exactly the bytes that were encoded: its state
/// does not depend on what the coder did with them.
pub proof fn lemma_contexts_follow_input(model: StreamModel, bytes: Seq<u8>)
    ensures
        model.encode_all(bytes).contexts == model.contexts.observe_all(bytes),
    decreases bytes.len(),
{
    if bytes.len() > 0 {
        lemma_contexts_follow_input(model, bytes.drop_last());
    }
}

/// After any input, a fresh encoder's hash is the rolling hash of the input.
pub proof fn lemma_hash_follows_input(size: int, bytes: Seq<u8>)
    requires
        size >= 1,
    ensures
        StreamModel::initial(size).encode_all(bytes).contexts.hash == rolling_hash(bytes, size),
        0 <= rolling_hash(bytes, size) < size,
{
    lemma_contexts_follow_input(StreamModel::initial(size), bytes);
    lemma_hash_is_rolling_hash(size, bytes);
}

/// The closed stream is a whole number of bytes, one more than the bits
/// emitted before the closing bit fill.
pub proof fn lemma_finish_is_whole_bytes(model: StreamModel)
    ensures
        model.finish().len() == 8 * (model.end().bits.len() / 8 + 1),
{
    crate::coder::lemma_finish_len(model.end());
}

/// The predictors chosen for the byte to come.
struct Selected {
    first_byte: u8,
    first: usize,
    second: usize,
    third: usize,
    literal: usize,
}

/// A previous byte and a short count, packed by shifting and by multiplying.
proof fn lemma_short_run(previous: usize, count: usize)
    by (bit_vector)
    requires
        previous < 256,
        count < 4,
    ensures
        (previous << 2) | count == previous * 4 + count,
{
}

/// The first predictor of the group for a context.
fn group_base(previous: u8, count: usize) -> (base: usize)
    requires
        count <= 255,
    ensures
        base == base_context(previous, count as int),
        base <= 1279 * 1024,
{
    let wide: usize = previous as usize;
    let group: usize = if count < 4 {
        proof {
            lemma_short_run(wide, count);
        }
        (wide << 2) | count
    } else {
        1024 + count
    };
    group * 1024
}

/// The sum of a history's second and third bytes, kept to a byte.
fn sum_of(second: u8, third: u8) -> (sum: usize)
    ensures
        sum == (second + third) % 256,
{
    second.wrapping_add(third) as usize
}

/// Twice a history's second byte less its third, kept to a byte.
fn swing_of(second: u8, third: u8) -> (swing: usize)
    ensures
        swing == (2 * second - third) % 256,
{
    let doubled: u8 = second.wrapping_mul(2);
    assert(doubled == (2 * second) % 256);
    doubled.wrapping_sub(third) as usize
}

/// The encoder with `SIZE` contexts.
pub struct StreamEncoder<const SIZE: usize> {
    contexts: PrimaryContext<SIZE>,
    encoder: BitEncoder,
}

impl<const SIZE: usize> View for StreamEncoder<SIZE> {
    type V = StreamModel;

    closed spec fn view(&self) -> StreamModel {
        StreamModel { contexts: self.contexts@, coder: self.encoder@ }
    }
}

impl<const SIZE: usize> StreamEncoder<SIZE> {
    pub closed spec fn wf(&self) -> bool {
        &&& self.contexts.wf()
        &&& self.encoder.wf()
        &&& self.encoder@.predictors.len() == PREDICTOR_COUNT
    }

    /// The bytes produced and not yet taken.
    pub closed spec fn written(&self) -> Seq<u8> {
        self.encoder.written()
    }

    /// A well-formed encoder has a well-formed model with `SIZE` contexts.
    pub proof fn lemma_wf(&self)
        requires
            self.wf(),
        ensures
            self@.wf(),
            self@.contexts.cells.len() == SIZE,
            self.written().len() == self@.coder.bits.len() / 8,
            bytes_to_bits(self.written()) == self@.coder.bits.take(8 * self.written().len() as int),
    {
        self.encoder.lemma_wf();
    }

    pub fn new() -> (fresh: Self)
        requires
            is_power_of_two(SIZE as int),
        ensures
            fresh.wf(),
            fresh@ == StreamModel::initial(SIZE as int),
            fresh.written() == Seq::<u8>::empty(),
    {
        StreamEncoder { contexts: PrimaryContext::new(), encoder: BitEncoder::new(PREDICTOR_COUNT) }
    }

    /// Chooses the predictors for the byte to come.
    fn select(&self) -> (selected: Selected)
        requires
            self.wf(),
        ensures
            selected.first_byte == self@.contexts.current().first,
            selected.first == self@.first_context(),
            selected.second == self@.second_context(),
            selected.third == self@.third_context(),
            selected.literal == self@.literal_context(),
    {
        let base: usize = group_base(self.contexts.previous_byte(), self.contexts.match_count());
        let first_byte: u8 = self.contexts.first_byte();
        let second_byte: u8 = self.contexts.second_byte();
        let third_byte: u8 = self.contexts.third_byte();
        Selected {
            first_byte,
            first: base + first_byte as usize,
            second: base + 256 + sum_of(second_byte, third_byte),
            third: base + 512 + swing_of(second_byte, third_byte),
            literal: base + 768,
        }
    }

    /// Encodes one byte.
    pub fn encode_byte(&mut self, byte: u8)
        requires
            old(self).wf(),
        ensures
            final(self).wf(),
            final(self)@ == old(self)@.encode_byte(byte),
    {
        let selected = self.select();
        proof {
            self.encoder.lemma_wf();
            lemma_contexts_in_range(self@);
        }
        match self.contexts.matching(byte) {
            ByteMatched::FIRST => {
                self.encoder.bit(selected.first, 0);
            },
            ByteMatched::SECOND => {
                self.encoder.bit(selected.first, 1);
                self.encoder.bit(selected.second, 1);
                self.encoder.bit(selected.third, 0);
            },
            ByteMatched::THIRD => {
                self.encoder.bit(selected.first, 1);
                self.encoder.bit(selected.second, 1);
                self.encoder.bit(selected.third, 1);
            },
            ByteMatched::NONE => {
                self.encoder.bit(selected.first, 1);
                self.encoder.bit(selected.second, 0);
                self.encoder.byte(selected.literal, byte);
            },
        }
    }

    /// Encodes the bytes of `input` in order.
    pub fn feed(&mut self, input: &[u8])
        requires
            old(self).wf(),
        ensures
            final(self).wf(),
            final(self)@ == old(self)@.encode_all(input@),
    {
        let mut index: usize = 0;
        while index < input.len()
            invariant
                index <= input.len(),
                self.wf(),
                self@ == old(self)@.encode_all(input@.take(index as int)),
            decreases input.len() - index,
        {
            proof {
                lemma_encode_all_push(old(self)@, input@.take(index as int), input@[index as int]);
                assert(input@.take(index as int).push(input@[index as int]) =~= input@.take(
                    index + 1,
                ));
            }
            self.encode_byte(input[index]);
            index = index + 1;
        }
        proof {
            assert(input@.take(index as int) =~= input@);
        }
    }

    /// Hands over the bytes produced so far.
    pub fn take_output(&mut self) -> (taken: Vec<u8>)
        requires
            old(self).wf(),
        ensures
            final(self).wf(),
            taken@ == old(self).written(),
            final(self).written() == Seq::<u8>::empty(),
            final(self)@ == (StreamModel {
                coder: CoderModel {
                    bits: old(self)@.coder.bits.skip(8 * taken@.len() as int),
                    ..old(self)@.coder
                },
                ..old(self)@
            }),
    {
        self.encoder.take_output()
    }

    /// Marks the end and closes the stream. Returns every byte not yet taken.
    pub fn finish(self) -> (closed: Vec<u8>)
        requires
            self.wf(),
        ensures
            bytes_to_bits(closed@) == self@.finish(),
            closed@.len() == self@.end().bits.len() / 8 + 1,
    {
        let selected = self.select();
        proof {
            self.encoder.lemma_wf();
            lemma_contexts_in_range(self@);
        }
        let mut encoder = self.encoder;
        encoder.bit(selected.first, 1);
        encoder.bit(selected.second, 0);
        encoder.byte(selected.literal, selected.first_byte);
        encoder.flush()
    }

    /// Encodes `input` as a whole stream: its bytes, the end mark and the
    /// closing bits.
    pub fn encode(self, input: &[u8]) -> (output: Vec<u8>)
        requires
            self.wf(),
        ensures
            bytes_to_bits(output@) == self@.encode_all(input@).finish(),
            output@.len() == self@.encode_all(input@).end().bits.len() / 8 + 1,
            self@ == StreamModel::initial(SIZE as int) ==> bytes_to_bits(output@) == encoded_bits(
                input@,
                SIZE as int,
            ),
    {
        let mut encoder = self;
        encoder.feed(input);
        encoder.finish()
    }
}

} // verus!
