//! One context's history: three bytes and a match count in a single word.

use vstd::prelude::*;
use crate::primary_context::matched::ByteMatched;

verus! {

/// What a context remembers: the byte seen last in it, the two distinct
/// bytes that held that place before, and how many times in a row the
/// latest byte has repeated, which stops at 255.
pub struct HistoryModel {
    pub first: u8,
    pub second: u8,
    pub third: u8,
    pub count: int,
}

impl HistoryModel {
    /// A context in which nothing has been seen.
    pub open spec fn initial() -> HistoryModel {
        HistoryModel { first: 0, second: 0, third: 0, count: 0 }
    }

    pub open spec fn wf(self) -> bool {
        0 <= self.count <= 255
    }

    /// Ranks `next` against the remembered bytes, the latest first.
    pub open spec fn classify(self, next: u8) -> ByteMatched {
        if next == self.first {
            ByteMatched::FIRST
        } else if next == self.second {
            ByteMatched::SECOND
        } else if next == self.third {
            ByteMatched::THIRD
        } else {
            ByteMatched::NONE
        }
    }

    /// The history after `next` arrived and was ranked as `outcome`.
    pub open spec fn apply(self, next: u8, outcome: ByteMatched) -> HistoryModel {
        match outcome {
            ByteMatched::FIRST => HistoryModel {
                count: if self.count < 255 { self.count + 1 } else { 255 },
                ..self
            },
            ByteMatched::SECOND => HistoryModel {
                first: next,
                second: self.first,
                third: self.third,
                count: 1,
            },
            ByteMatched::THIRD => HistoryModel {
                first: next,
                second: self.first,
                third: self.second,
                count: 1,
            },
            ByteMatched::NONE => HistoryModel {
                first: next,
                second: self.first,
                third: self.second,
                count: 0,
            },
        }
    }

    /// The history after `next` arrived.
    pub open spec fn observe(self, next: u8) -> HistoryModel {
        self.apply(next, self.classify(next))
    }

    /// The byte that was ranked as `outcome`: one of the remembered bytes,
    /// or, when it matched none of them, the byte that was sent in full.
    pub open spec fn recall(self, outcome: ByteMatched, literal: u8) -> u8 {
        match outcome {
            ByteMatched::FIRST => self.first,
            ByteMatched::SECOND => self.second,
            ByteMatched::THIRD => self.third,
            ByteMatched::NONE => literal,
        }
    }

    /// The history after the same byte arrived `times` times in a row.
    pub open spec fn observe_repeated(self, next: u8, times: nat) -> HistoryModel
        decreases times,
    {
        if times == 0 {
            self
        } else {
            self.observe_repeated(next, (times - 1) as nat).observe(next)
        }
    }
}

/// The rank of a byte is enough to find it again, and a byte that matched
/// nothing is never the first byte of the history: a byte sent in full that
/// equals the first byte cannot stand for data.
pub proof fn lemma_rank_recalls_byte(history: HistoryModel, next: u8)
    ensures
        history.recall(history.classify(next), next) == next,
        history.classify(next) == ByteMatched::NONE ==> next != history.first,
{
}

/// A byte that has just been observed ranks first, whatever came before.
pub proof fn lemma_observed_byte_ranks_first(history: HistoryModel, next: u8)
    ensures
        history.observe(next).first == next,
        history.observe(next).classify(next) == ByteMatched::FIRST,
{
}

/// A fresh context fed one nonzero byte over and over: the first arrival
/// matches nothing and leaves the count at zero, every later one matches
/// first and raises the count by one until it stops at 255.
pub proof fn lemma_repeated_byte(next: u8, times: nat)
    requires
        next != 0,
        times >= 1,
    ensures
        HistoryModel::initial().observe_repeated(next, times) == (HistoryModel {
            first: next,
            second: 0,
            third: 0,
            count: if times - 1 < 255 { times - 1 } else { 255 },
        }),
        HistoryModel::initial().observe_repeated(next, (times - 1) as nat).classify(next) == (
        if times == 1 {
            ByteMatched::NONE
        } else {
            ByteMatched::FIRST
        }),
    decreases times,
{
    if times > 1 {
        lemma_repeated_byte(next, (times - 1) as nat);
    } else {
        assert(HistoryModel::initial().observe_repeated(next, 0) == HistoryModel::initial());
    }
}

/// A fresh context fed the zero byte over and over: a fresh context already
/// ranks zero first, so every arrival matches first and the count is the
/// number of arrivals until it stops at 255.
pub proof fn lemma_repeated_zero(times: nat)
    ensures
        HistoryModel::initial().observe_repeated(0, times) == (HistoryModel {
            first: 0,
            second: 0,
            third: 0,
            count: if times < 255 { times as int } else { 255 },
        }),
        HistoryModel::initial().observe_repeated(0, times).classify(0) == ByteMatched::FIRST,
    decreases times,
{
    if times > 0 {
        lemma_repeated_zero((times - 1) as nat);
    }
}

/// How a history is packed: the three bytes in the low 24 bits, the latest
/// lowest, and the match count in the top 8.
#[derive(Clone, Copy)]
pub struct ByteHistory {
    value: u32,
}

impl View for ByteHistory {
    type V = HistoryModel;

    closed spec fn view(&self) -> HistoryModel {
        HistoryModel {
            first: (self.value as int % 256) as u8,
            second: (self.value as int / 0x100 % 256) as u8,
            third: (self.value as int / 0x1_0000 % 256) as u8,
            count: self.value as int / 0x100_0000,
        }
    }
}

/// Splitting a word into its four bytes by shifts is splitting it by division.
proof fn lemma_fields(value: u32)
    by (bit_vector)
    ensures
        value & 0xFF == value % 256,
        (value >> 8) & 0xFF == value / 0x100 % 256,
        (value >> 16) & 0xFF == value / 0x1_0000 % 256,
        value >> 24 == value / 0x100_0000,
{
}

/// A byte spread over the three low places cancels exactly the places that hold it.
proof fn lemma_spread(value: u32, next: u32, spread: u32)
    by (bit_vector)
    requires
        next < 256,
        spread == 0x10101 * next,
    ensures
        ((value ^ spread) & 0xFF == 0) <==> value % 256 == next,
        ((value ^ spread) & 0xFF00 == 0) <==> value / 0x100 % 256 == next,
        ((value ^ spread) & 0xFF_0000 == 0) <==> value / 0x1_0000 % 256 == next,
{
}

/// The word after one more match in first place.
proof fn lemma_count_up(value: u32, moved: u32)
    by (bit_vector)
    requires
        moved == if value < 0xFF00_0000 { (value + 0x0100_0000) as u32 } else { value },
    ensures
        moved % 256 == value % 256,
        moved / 0x100 % 256 == value / 0x100 % 256,
        moved / 0x1_0000 % 256 == value / 0x1_0000 % 256,
        value < 0xFF00_0000 ==> value / 0x100_0000 < 255 && moved / 0x100_0000 == value
            / 0x100_0000 + 1,
        value >= 0xFF00_0000 ==> value / 0x100_0000 == 255 && moved / 0x100_0000 == 255,
{
}

/// The word after a match in second place.
proof fn lemma_promote_second(value: u32, next: u32, moved: u32)
    by (bit_vector)
    requires
        next < 256,
        moved == (value & 0xFF_0000) | ((value << 8) & 0xFF00) | next | 0x100_0000,
    ensures
        moved % 256 == next,
        moved / 0x100 % 256 == value % 256,
        moved / 0x1_0000 % 256 == value / 0x1_0000 % 256,
        moved / 0x100_0000 == 1,
{
}

/// The word after the two latest bytes moved up one place each.
proof fn lemma_shift_in(value: u32, next: u32, moved: u32)
    by (bit_vector)
    requires
        next < 256,
        moved == ((value << 8) & 0xFF_FF00) | next,
    ensures
        moved % 256 == next,
        moved / 0x100 % 256 == value % 256,
        moved / 0x1_0000 % 256 == value / 0x100 % 256,
        moved / 0x100_0000 == 0,
        (moved | 0x100_0000) % 256 == next,
        (moved | 0x100_0000) / 0x100 % 256 == value % 256,
        (moved | 0x100_0000) / 0x1_0000 % 256 == value / 0x100 % 256,
        (moved | 0x100_0000) / 0x100_0000 == 1,
{
}

impl ByteHistory {
    pub fn new() -> (fresh: ByteHistory)
        ensures
            fresh@ == HistoryModel::initial(),
    {
        ByteHistory { value: 0 }
    }

    /// Every packed word is a well-formed history.
    pub proof fn lemma_view_wf(self)
        ensures
            self@.wf(),
    {
    }

    /// The byte seen last.
    pub fn first_byte(&self) -> (byte: u8)
        ensures
            byte == self@.first,
    {
        proof {
            lemma_fields(self.value);
        }
        (self.value & 0xFF) as u8
    }

    /// The byte that was first before the current one.
    pub fn second_byte(&self) -> (byte: u8)
        ensures
            byte == self@.second,
    {
        proof {
            lemma_fields(self.value);
        }
        ((self.value >> 8) & 0xFF) as u8
    }

    /// The byte that was second before the current one.
    pub fn third_byte(&self) -> (byte: u8)
        ensures
            byte == self@.third,
    {
        proof {
            lemma_fields(self.value);
        }
        ((self.value >> 16) & 0xFF) as u8
    }

    /// How many times in a row the first byte has repeated.
    pub fn match_count(&self) -> (count: usize)
        ensures
            count == self@.count,
    {
        proof {
            lemma_fields(self.value);
        }
        (self.value >> 24) as usize
    }

    /// Ranks `next_byte` against the remembered bytes without changing them.
    pub fn classify(&self, next_byte: u8) -> (outcome: ByteMatched)
        ensures
            outcome == self@.classify(next_byte),
    {
        let spread: u32 = 0x10101 * (next_byte as u32);
        let mask: u32 = self.value ^ spread;
        proof {
            lemma_spread(self.value, next_byte as u32, spread);
        }
        if mask & 0xFF == 0 {
            ByteMatched::FIRST
        } else if mask & 0xFF00 == 0 {
            ByteMatched::SECOND
        } else if mask & 0xFF_0000 == 0 {
            ByteMatched::THIRD
        } else {
            ByteMatched::NONE
        }
    }

    /// Ranks `next_byte` and records its arrival.
    pub fn matching(&mut self, next_byte: u8) -> (outcome: ByteMatched)
        ensures
            outcome == old(self)@.classify(next_byte),
            final(self)@ == old(self)@.observe(next_byte),
    {
        let outcome = self.classify(next_byte);
        self.matched(next_byte, outcome);
        outcome
    }

    /// Records the arrival of `next_byte`, ranked as `matched` by whoever
    /// decoded it.
    pub fn matched(&mut self, next_byte: u8, matched: ByteMatched)
        ensures
            final(self)@ == old(self)@.apply(next_byte, matched),
    {
        let value = self.value;
        let next = next_byte as u32;
        match matched {
            ByteMatched::FIRST => {
                let moved: u32 = if value < 0xFF00_0000 {
                    value + 0x0100_0000
                } else {
                    value
                };
                proof {
                    lemma_count_up(value, moved);
                }
                self.value = moved;
            },
            ByteMatched::SECOND => {
                let moved: u32 = (value & 0xFF_0000) | ((value << 8) & 0xFF00) | next
                    | 0x100_0000;
                proof {
                    lemma_promote_second(value, next, moved);
                }
                self.value = moved;
            },
            ByteMatched::THIRD => {
                let moved: u32 = ((value << 8) & 0xFF_FF00) | next;
                proof {
                    lemma_shift_in(value, next, moved);
                }
                self.value = moved | 0x100_0000;
            },
            ByteMatched::NONE => {
                let moved: u32 = ((value << 8) & 0xFF_FF00) | next;
                proof {
                    lemma_shift_in(value, next, moved);
                }
                self.value = moved;
            },
        }
    }
}

} // verus!
