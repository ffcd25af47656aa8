//! Bit strings and how they are packed into bytes, highest bit first.

use vstd::prelude::*;
use vstd::arithmetic::power2::{pow2, lemma_pow2_unfold};

verus! {

/// The lowest `width` bits of `value`, the highest of them first.
pub open spec fn bits_of(value: int, width: nat) -> Seq<bool>
    decreases width,
{
    if width == 0 {
        Seq::empty()
    } else {
        bits_of(value / 2, (width - 1) as nat).push(value % 2 == 1)
    }
}

/// The bits of a run of bytes: eight for each byte, its highest bit first.
pub open spec fn bytes_to_bits(bytes: Seq<u8>) -> Seq<bool>
    decreases bytes.len(),
{
    if bytes.len() == 0 {
        Seq::empty()
    } else {
        bytes_to_bits(bytes.drop_last()) + bits_of(bytes.last() as int, 8)
    }
}

/// `count` bits, all zero.
pub open spec fn zero_bits(count: nat) -> Seq<bool> {
    Seq::new(count, |i: int| false)
}

/// A value has as many bits as were asked for.
pub proof fn lemma_bits_of_len(value: int, width: nat)
    ensures
        bits_of(value, width).len() == width,
    decreases width,
{
    if width > 0 {
        lemma_bits_of_len(value / 2, (width - 1) as nat);
    }
}

/// Bytes unpack to eight bits each.
pub proof fn lemma_bytes_to_bits_len(bytes: Seq<u8>)
    ensures
        bytes_to_bits(bytes).len() == 8 * bytes.len(),
    decreases bytes.len(),
{
    if bytes.len() > 0 {
        lemma_bytes_to_bits_len(bytes.drop_last());
        lemma_bits_of_len(bytes.last() as int, 8);
    }
}

/// Appending a byte appends its eight bits.
pub proof fn lemma_bytes_to_bits_push(bytes: Seq<u8>, byte: u8)
    ensures
        bytes_to_bits(bytes.push(byte)) == bytes_to_bits(bytes) + bits_of(byte as int, 8),
{
    assert(bytes.push(byte).drop_last() =~= bytes);
}

/// Doubling a value and adding a bit appends that bit to its bits.
pub proof fn lemma_bits_of_shift_in(value: int, width: nat, bit: bool)
    ensures
        bits_of(2 * value + if bit { 1int } else { 0int }, width + 1) == bits_of(
            value,
            width,
        ).push(bit),
{
}

/// Multiplying a value by a power of two appends that many zero bits.
pub proof fn lemma_bits_of_padded(value: int, width: nat, padding: nat)
    ensures
        bits_of(value * pow2(padding), width + padding) == bits_of(value, width) + zero_bits(
            padding,
        ),
    decreases padding,
{
    if padding == 0 {
        assert(pow2(0) == 1) by {
            vstd::arithmetic::power2::lemma2_to64();
        }
        assert(value * 1 == value);
        assert(bits_of(value, width) + zero_bits(0) =~= bits_of(value, width));
    } else {
        let less = (padding - 1) as nat;
        lemma_pow2_unfold(padding);
        lemma_bits_of_padded(value, width, less);
        assert(value * pow2(padding) == 2 * (value * pow2(less))) by (nonlinear_arith)
            requires
                pow2(padding) == 2 * pow2(less),
        ;
        lemma_bits_of_shift_in(value * pow2(less), width + less, false);
        assert((bits_of(value, width) + zero_bits(less)).push(false) =~= bits_of(value, width)
            + zero_bits(padding));
    }
}

/// The bits of zero are zeros.
pub proof fn lemma_bits_of_zero(width: nat)
    ensures
        bits_of(0, width) == zero_bits(width),
    decreases width,
{
    if width > 0 {
        lemma_bits_of_zero((width - 1) as nat);
        assert(zero_bits((width - 1) as nat).push(false) =~= zero_bits(width));
    } else {
        assert(bits_of(0, 0) =~= zero_bits(0));
    }
}

/// A bit set above a value comes first among the bits of the sum.
pub proof fn lemma_bits_of_top(value: int, width: nat, top: bool)
    requires
        0 <= value < pow2(width),
    ensures
        bits_of(value + if top { pow2(width) as int } else { 0int }, width + 1) == seq![top]
            + bits_of(value, width),
    decreases width,
{
    let high = if top { pow2(width) as int } else { 0int };
    if width == 0 {
        assert(pow2(0) == 1) by {
            vstd::arithmetic::power2::lemma2_to64();
        }
        assert(bits_of(high, 1) =~= seq![top] + bits_of(value, 0));
    } else {
        let less = (width - 1) as nat;
        lemma_pow2_unfold(width);
        let half = if top { pow2(less) as int } else { 0int };
        assert((value + high) / 2 == value / 2 + half);
        assert((value + high) % 2 == value % 2);
        lemma_bits_of_top(value / 2, less, top);
        assert((seq![top] + bits_of(value / 2, less)).push(value % 2 == 1) =~= seq![top]
            + bits_of(value, width));
    }
}

/// A 64-bit window that gives up its highest bit and takes in a bit below:
/// the old window followed by the bit taken in is the bit given up followed
/// by the new window.
pub proof fn lemma_window_step(shifted: int, top: bool)
    requires
        0 <= shifted < 0x1_0000_0000_0000_0000,
    ensures
        bits_of(
            (if top {
                0x8000_0000_0000_0000int
            } else {
                0int
            }) + shifted / 2,
            64,
        ) + seq![shifted % 2 == 1] == seq![top] + bits_of(shifted, 64),
{
    assert(pow2(63) == 0x8000_0000_0000_0000) by {
        vstd::arithmetic::power2::lemma2_to64_rest();
    }
    lemma_bits_of_top(shifted / 2, 63, top);
    assert(bits_of(shifted, 64) == bits_of(shifted / 2, 63).push(shifted % 2 == 1));
    assert((seq![top] + bits_of(shifted / 2, 63)) + seq![shifted % 2 == 1] =~= seq![top]
        + bits_of(shifted / 2, 63).push(shifted % 2 == 1));
}

/// Two runs of bytes with the same bits are the same bytes: the bits of an
/// output determine it.
pub proof fn lemma_bytes_to_bits_injective(a: Seq<u8>, b: Seq<u8>)
    requires
        bytes_to_bits(a) == bytes_to_bits(b),
    ensures
        a == b,
    decreases a.len(),
{
    lemma_bytes_to_bits_len(a);
    lemma_bytes_to_bits_len(b);
    if a.len() > 0 {
        let x = a.last();
        let y = b.last();
        lemma_bytes_to_bits_len(a.drop_last());
        lemma_bytes_to_bits_len(b.drop_last());
        lemma_bits_of_len(x as int, 8);
        lemma_bits_of_len(y as int, 8);
        let whole = bytes_to_bits(a);
        let cut = 8 * (a.len() - 1);
        assert(whole.subrange(0, cut) =~= bytes_to_bits(a.drop_last()));
        assert(whole.subrange(0, cut) =~= bytes_to_bits(b.drop_last()));
        assert(whole.subrange(cut, cut + 8) =~= bits_of(x as int, 8));
        assert(whole.subrange(cut, cut + 8) =~= bits_of(y as int, 8));
        assert(pow2(8) == 256) by {
            vstd::arithmetic::power2::lemma2_to64();
        }
        lemma_bits_of_injective(x as int, y as int, 8);
        lemma_bytes_to_bits_injective(a.drop_last(), b.drop_last());
        assert(a =~= a.drop_last().push(x));
        assert(b =~= b.drop_last().push(y));
    } else {
        assert(a =~= b);
    }
}

/// Two values below `2^width` with the same `width` bits are equal.
pub proof fn lemma_bits_of_injective(x: int, y: int, width: nat)
    requires
        0 <= x < pow2(width),
        0 <= y < pow2(width),
        bits_of(x, width) == bits_of(y, width),
    ensures
        x == y,
    decreases width,
{
    if width == 0 {
        assert(pow2(0) == 1) by {
            vstd::arithmetic::power2::lemma2_to64();
        }
    } else {
        let less = (width - 1) as nat;
        lemma_pow2_unfold(width);
        lemma_bits_of_len(x / 2, less);
        lemma_bits_of_len(y / 2, less);
        let bx = bits_of(x, width);
        let by = bits_of(y, width);
        assert(bx.drop_last() =~= bits_of(x / 2, less));
        assert(by.drop_last() =~= bits_of(y / 2, less));
        assert(bx.last() == (x % 2 == 1));
        assert(by.last() == (y % 2 == 1));
        lemma_bits_of_injective(x / 2, y / 2, less);
    }
}

} // verus!
