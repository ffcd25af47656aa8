//! The adaptive bit predictor: one packed word per coding context.

use vstd::prelude::*;
use crate::multiplier::{multiplier, multiplier_of, lemma_multiplier_bounds};

verus! {

/// What a predictor holds: its estimate that the next bit is 1, in units of
/// `2^-24`, and the number of bits it has learned from, which stops at 255.
pub struct PredictorModel {
    pub prediction: int,
    pub count: int,
}

impl PredictorModel {
    /// A predictor that has seen nothing: one half, learned from no bit.
    pub open spec fn initial() -> PredictorModel {
        PredictorModel { prediction: 0x80_0000, count: 0 }
    }

    pub open spec fn wf(self) -> bool {
        &&& 0 <= self.prediction < 0x100_0000
        &&& 0 <= self.count <= 255
    }

    /// How far the estimate moves on seeing `bit`: the distance to certainty
    /// about that bit, times the learning rate, rounded down.
    pub open spec fn step(self, bit: int) -> int {
        ((bit * 0x100_0000 - self.prediction) * multiplier(self.count)) / 0x1_0000_0000
    }

    /// The predictor after it has seen `bit`.
    pub open spec fn learn(self, bit: int) -> PredictorModel {
        PredictorModel {
            prediction: self.prediction + self.step(bit),
            count: if self.count < 255 { self.count + 1 } else { 255 },
        }
    }
}

/// Learning keeps the estimate inside its range and moves it towards the bit
/// seen, never past it and never away from it.
pub proof fn lemma_learn_stays_in_range(model: PredictorModel, bit: int)
    requires
        model.wf(),
        bit == 0 || bit == 1,
    ensures
        model.learn(bit).wf(),
        bit == 1 ==> model.prediction <= model.learn(bit).prediction,
        bit == 0 ==> model.learn(bit).prediction <= model.prediction,
{
    let m = multiplier(model.count);
    let t = bit * 0x100_0000 - model.prediction;
    lemma_multiplier_bounds(model.count);
    if bit == 1 {
        assert(0 <= t * m <= t * 0x8000_0000) by (nonlinear_arith)
            requires
                0 <= t,
                0 < m <= 0x8000_0000,
        ;
    } else {
        assert(t * 0x8000_0000 <= t * m <= 0) by (nonlinear_arith)
            requires
                t <= 0,
                0 < m <= 0x8000_0000,
        ;
    }
}

/// The state of one coding context, packed into a word: the estimate in the
/// upper 24 bits, the count in the lower 8.
#[derive(Clone, Copy)]
pub struct BitPrediction {
    state: u32,
}

impl View for BitPrediction {
    type V = PredictorModel;

    closed spec fn view(&self) -> PredictorModel {
        PredictorModel { prediction: self.state as int / 256, count: self.state as int % 256 }
    }
}

impl BitPrediction {
    pub fn new() -> (fresh: BitPrediction)
        ensures
            fresh@ == PredictorModel::initial(),
    {
        BitPrediction { state: 0x8000_0000 }
    }

    /// Every packed word is a well-formed predictor.
    pub proof fn lemma_view_wf(self)
        ensures
            self@.wf(),
    {
    }

    /// The estimate that the next bit is 1.
    pub fn get_prediction(&self) -> (prediction: u64)
        ensures
            prediction == self@.prediction,
    {
        let state = self.state;
        assert(state >> 8 == state / 256) by (bit_vector);
        (self.state >> 8) as u64
    }

    /// The number of bits learned from, which stops at 255.
    pub fn get_count(&self) -> (count: u8)
        ensures
            count == self@.count,
    {
        let state = self.state;
        assert(state & 0xFF == state % 256) by (bit_vector);
        (self.state & 0xFF) as u8
    }

    /// Learns from `bit` and returns the estimate held before.
    pub fn update(&mut self, bit: usize) -> (before: u64)
        requires
            bit == 0 || bit == 1,
        ensures
            before == old(self)@.prediction,
            final(self)@ == old(self)@.learn(bit as int),
    {
        let state = self.state;
        let ghost model = self@;
        proof {
            lemma_learn_stays_in_range(model, bit as int);
            lemma_multiplier_bounds(model.count);
        }
        assert(state & 0xFF == state % 256 && state >> 8 == state / 256) by (bit_vector);
        let count: u32 = state & 0xFF;
        let current: i64 = (state >> 8) as i64;
        let target: i64 = (bit as i64) << 24;
        assert(target == bit * 0x100_0000) by (bit_vector)
            requires
                target == (bit as i64) << 24,
                bit <= 1,
        ;
        let rate: i64 = multiplier_of(count as u8) as i64;
        let distance: i64 = target - current;
        assert(-0x80_0000_0000_0000 <= distance * rate <= 0x80_0000_0000_0000)
            by (nonlinear_arith)
            requires
                -0x100_0000 <= distance <= 0x100_0000,
                0 < rate <= 0x8000_0000,
        ;
        let product: i64 = distance * rate;
        let scaled: i64 = product >> 24;
        assert(scaled == product / 0x100_0000) by (bit_vector)
            requires
                scaled == product >> 24,
        ;
        let low_bits: u32 = #[verifier::truncate] (scaled as u32);
        let moved: u32 = low_bits & 0xFFFF_FF00;
        assert(moved == ((scaled / 256) % 0x100_0000) * 256) by (bit_vector)
            requires
                moved == (scaled as u32) & 0xFFFF_FF00,
        ;
        assert(scaled / 256 == model.step(bit as int));
        let counted: u32 = if count < 255 { 1 } else { 0 };
        self.state = state.wrapping_add(moved + counted);
        current as u64
    }
}

} // verus!
