//! The context map: a table of histories indexed by a rolling hash of the
//! bytes seen so far.

use vstd::prelude::*;
use vstd::arithmetic::power2::pow2;
use crate::primary_context::history::{ByteHistory, HistoryModel};
use crate::primary_context::matched::ByteMatched;

verus! {

/// What the hash is multiplied by before the next byte is added.
pub const HASH_MULTIPLIER: usize = 160;

/// A table size that the hash can be reduced to by masking.
pub open spec fn is_power_of_two(size: int) -> bool {
    exists|exponent: nat| size == pow2(exponent)
}

/// The hash after `next` arrived, in a table of `size` histories.
pub open spec fn next_hash(hash: int, next: u8, size: int) -> int {
    (hash * 160 + next + 1) % size
}

/// The hash of a whole sequence of bytes, starting from zero.
pub open spec fn rolling_hash(bytes: Seq<u8>, size: int) -> int
    decreases bytes.len(),
{
    if bytes.len() == 0 {
        0
    } else {
        next_hash(rolling_hash(bytes.drop_last(), size), bytes.last(), size)
    }
}

/// The model's state: the byte seen last, the hash of all bytes seen, and
/// one history per hash value.
pub struct ContextModel {
    pub previous: u8,
    pub hash: int,
    pub cells: Seq<HistoryModel>,
}

impl ContextModel {
    /// A table of `size` fresh histories, before any byte.
    pub open spec fn initial(size: int) -> ContextModel {
        ContextModel {
            previous: 0,
            hash: 0,
            cells: Seq::new(size as nat, |i: int| HistoryModel::initial()),
        }
    }

    pub open spec fn wf(self) -> bool {
        &&& is_power_of_two(self.cells.len() as int)
        &&& 0 <= self.hash < self.cells.len()
        &&& forall|i: int| 0 <= i < self.cells.len() ==> (#[trigger] self.cells[i]).wf()
    }

    /// The history that the hash selects.
    pub open spec fn current(self) -> HistoryModel {
        self.cells[self.hash]
    }

    /// The state after `next` arrived and was ranked as `outcome`: the
    /// selected history records it, and the hash moves on.
    pub open spec fn apply(self, next: u8, outcome: ByteMatched) -> ContextModel {
        ContextModel {
            previous: next,
            hash: next_hash(self.hash, next, self.cells.len() as int),
            cells: self.cells.update(self.hash, self.current().apply(next, outcome)),
        }
    }

    /// The state after `next` arrived.
    pub open spec fn observe(self, next: u8) -> ContextModel {
        self.apply(next, self.current().classify(next))
    }

    /// The state after all of `bytes` arrived in order.
    pub open spec fn observe_all(self, bytes: Seq<u8>) -> ContextModel
        decreases bytes.len(),
    {
        if bytes.len() == 0 {
            self
        } else {
            self.observe_all(bytes.drop_last()).observe(bytes.last())
        }
    }
}

/// A power of two is at least one.
pub proof fn lemma_power_of_two_positive(size: int)
    requires
        is_power_of_two(size),
    ensures
        size >= 1,
{
    let exponent = choose|exponent: nat| size == pow2(exponent);
    vstd::arithmetic::power2::lemma_pow2_pos(exponent);
}

/// Observing a byte keeps the state well formed.
pub proof fn lemma_apply_wf(model: ContextModel, next: u8, outcome: ByteMatched)
    requires
        model.wf(),
    ensures
        model.apply(next, outcome).wf(),
        model.apply(next, outcome).cells.len() == model.cells.len(),
{
    lemma_power_of_two_positive(model.cells.len() as int);
    let after = model.apply(next, outcome);
    assert forall|i: int| 0 <= i < after.cells.len() implies (#[trigger] after.cells[i]).wf() by {
        if i != model.hash {
            assert(model.cells[i].wf());
        } else {
            assert(model.current().wf());
        }
    }
}

/// Whoever is told how a byte was ranked, and the byte itself only where it
/// matched nothing, finds the byte in the selected history and, recording
/// it under that rank, reaches the state that observing the byte leads to.
pub proof fn lemma_replay_agrees(model: ContextModel, next: u8, literal: u8)
    requires
        model.current().classify(next) == ByteMatched::NONE ==> literal == next,
    ensures
        model.current().recall(model.current().classify(next), literal) == next,
        model.apply(
            model.current().recall(model.current().classify(next), literal),
            model.current().classify(next),
        ) == model.observe(next),
{
    crate::primary_context::history::lemma_rank_recalls_byte(model.current(), next);
}

/// After any sequence of bytes, the hash is the rolling hash of the
/// sequence, whatever the histories hold.
pub proof fn lemma_hash_is_rolling_hash(size: int, bytes: Seq<u8>)
    requires
        size >= 1,
    ensures
        ContextModel::initial(size).observe_all(bytes).hash == rolling_hash(bytes, size),
        ContextModel::initial(size).observe_all(bytes).cells.len() == size,
        0 <= rolling_hash(bytes, size) < size,
    decreases bytes.len(),
{
    if bytes.len() > 0 {
        lemma_hash_is_rolling_hash(size, bytes.drop_last());
    }
}

/// The context map with `SIZE` histories.
pub struct PrimaryContext<const SIZE: usize> {
    previous_byte: u8,
    hash_value: usize,
    contexts: Vec<ByteHistory>,
}

impl<const SIZE: usize> View for PrimaryContext<SIZE> {
    type V = ContextModel;

    closed spec fn view(&self) -> ContextModel {
        ContextModel {
            previous: self.previous_byte,
            hash: self.hash_value as int,
            cells: Seq::new(self.contexts.len() as nat, |i: int| self.contexts[i]@),
        }
    }
}

impl<const SIZE: usize> PrimaryContext<SIZE> {
    /// The table has `SIZE` histories and the hash selects one of them.
    pub open spec fn wf(&self) -> bool {
        &&& self@.wf()
        &&& self@.cells.len() == SIZE
    }

    pub fn new() -> (fresh: Self)
        requires
            is_power_of_two(SIZE as int),
        ensures
            fresh.wf(),
            fresh@ == ContextModel::initial(SIZE as int),
    {
        let fresh = PrimaryContext {
            previous_byte: 0,
            hash_value: 0,
            contexts: vec![ByteHistory::new(); SIZE],
        };
        proof {
            lemma_power_of_two_positive(SIZE as int);
            assert(fresh@.cells =~= ContextModel::initial(SIZE as int).cells);
        }
        fresh
    }

    /// The selected history.
    pub fn current(&self) -> (cell: &ByteHistory)
        requires
            self.wf(),
        ensures
            cell@ == self@.current(),
    {
        &self.contexts[self.hash_value]
    }

    pub fn first_byte(&self) -> (byte: u8)
        requires
            self.wf(),
        ensures
            byte == self@.current().first,
    {
        self.contexts[self.hash_value].first_byte()
    }

    pub fn second_byte(&self) -> (byte: u8)
        requires
            self.wf(),
        ensures
            byte == self@.current().second,
    {
        self.contexts[self.hash_value].second_byte()
    }

    pub fn third_byte(&self) -> (byte: u8)
        requires
            self.wf(),
        ensures
            byte == self@.current().third,
    {
        self.contexts[self.hash_value].third_byte()
    }

    pub fn match_count(&self) -> (count: usize)
        requires
            self.wf(),
        ensures
            count == self@.current().count,
            count <= 255,
    {
        proof {
            self.contexts[self.hash_value as int].lemma_view_wf();
        }
        self.contexts[self.hash_value].match_count()
    }

    pub fn previous_byte(&self) -> (byte: u8)
        ensures
            byte == self@.previous,
    {
        self.previous_byte
    }

    pub fn hash_value(&self) -> (hash: usize)
        ensures
            hash == self@.hash,
    {
        self.hash_value
    }

    /// Moves the hash on past `next_byte`.
    fn update(&mut self, next_byte: u8)
        requires
            old(self).wf(),
        ensures
            final(self).wf(),
            final(self)@ == (ContextModel {
                previous: next_byte,
                hash: next_hash(old(self)@.hash, next_byte, SIZE as int),
                cells: old(self)@.cells,
            }),
    {
        proof {
            lemma_power_of_two_positive(SIZE as int);
        }
        let wide: u128 = (self.hash_value as u128) * (HASH_MULTIPLIER as u128) + (
        next_byte as u128) + 1;
        self.previous_byte = next_byte;
        self.hash_value = (wide % (SIZE as u128)) as usize;
    }

    /// Ranks `next_byte` in the selected history, records it there, and
    /// moves the hash on.
    pub fn matching(&mut self, next_byte: u8) -> (outcome: ByteMatched)
        requires
            old(self).wf(),
        ensures
            final(self).wf(),
            outcome == old(self)@.current().classify(next_byte),
            final(self)@ == old(self)@.observe(next_byte),
    {
        let ghost before = self@;
        let outcome = self.contexts[self.hash_value].matching(next_byte);
        proof {
            lemma_apply_wf(before, next_byte, outcome);
            assert(self@.cells =~= before.apply(next_byte, outcome).cells);
        }
        self.update(next_byte);
        outcome
    }

    /// Records `next_byte` in the selected history as ranked by `matched`,
    /// and moves the hash on.
    pub fn matched(&mut self, next_byte: u8, matched: ByteMatched)
        requires
            old(self).wf(),
        ensures
            final(self).wf(),
            final(self)@ == old(self)@.apply(next_byte, matched),
    {
        let ghost before = self@;
        self.contexts[self.hash_value].matched(next_byte, matched);
        proof {
            lemma_apply_wf(before, next_byte, matched);
            assert(self@.cells =~= before.apply(next_byte, matched).cells);
        }
        self.update(next_byte);
    }
}

} // verus!
