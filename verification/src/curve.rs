//! Points of the three-dimensional Hilbert curve, and the bit depth a scale
//! calls for.

use hilbert::point::Point;
use num::BigUint;
use vstd::arithmetic::power2::lemma2_to64;
use vstd::arithmetic::power2::lemma2_to64_rest;
use vstd::arithmetic::power2::lemma_pow2_strictly_increases;
use vstd::arithmetic::power2::lemma_pow2_unfold;
use vstd::arithmetic::power2::pow2;
use vstd::prelude::*;

verus! {

/// The coordinates of the point at distance `index` along the
/// three-dimensional Hilbert curve with `bits` bits per axis, as the
/// `hilbert` crate computes them.
pub uninterp spec fn hilbert_axes(index: nat, bits: nat) -> Seq<u32>;

/// `hilbert::point::Point::new_from_hilbert_index` with three dimensions,
/// then `get_coordinates`: the three coordinates of the point at `index`,
/// each encoded in `bits` bits. The crate takes the index as a big integer,
/// made here from the `u64`; it asks for at least one bit per axis and
/// shifts a 32-bit word by `bits - 1`.
#[verifier::external_body]
pub(crate) fn hilbert_point(index: u64, bits: usize) -> (axes: Vec<u32>)
    requires
        1 <= bits <= 32,
    ensures
        axes@ == hilbert_axes(index as nat, bits as nat),
        axes@.len() == 3,
        forall|axis: int| 0 <= axis < 3 ==> #[trigger] axes@[axis] < pow2(bits as nat),
{
    Point::new_from_hilbert_index(0, &BigUint::from(index), bits, 3).get_coordinates().clone()
}

/// `bits` is the least number of bits with `2^bits >= color_size`.
pub open spec fn is_bit_depth(color_size: nat, bits: nat) -> bool {
    pow2(bits) >= color_size && (bits > 0 ==> pow2((bits - 1) as nat) < color_size)
}

/// The number of bits per axis that `color_size` values per axis call for:
/// the binary logarithm of the least power of two that is not below
/// `color_size`.
pub open spec fn bit_depth(color_size: nat) -> nat {
    choose|bits: nat| is_bit_depth(color_size, bits)
}

/// Only one number is the bit depth of `color_size`.
pub proof fn lemma_bit_depth_unique(color_size: nat, bits: nat)
    requires
        is_bit_depth(color_size, bits),
    ensures
        bit_depth(color_size) == bits,
{
    let other = bit_depth(color_size);
    if other < bits {
        if other < bits - 1 {
            lemma_pow2_strictly_increases(other, (bits - 1) as nat);
        }
    } else if bits < other {
        if bits < other - 1 {
            lemma_pow2_strictly_increases(bits, (other - 1) as nat);
        }
    }
}

/// The point of the curve at distance `index`, for `bits` bits per axis;
/// a curve of no bits has the origin as its only point.
pub open spec fn curve_point(index: nat, bits: nat) -> Seq<u32> {
    if bits == 0 {
        seq![0u32, 0u32, 0u32]
    } else {
        hilbert_axes(index, bits)
    }
}

/// A coordinate cut down to its low eight bits.
pub open spec fn low_byte(coordinate: u32) -> u8 {
    (coordinate % 256) as u8
}

/// A channel of a colour base, one of `color_size` values, stretched to the
/// range of a byte: `channel * 255 / (color_size - 1)`, rounded down and cut
/// to eight bits. With a single value per axis every channel is zero.
pub open spec fn stretched(channel: u8, color_size: nat) -> u8 {
    if color_size <= 1 {
        0u8
    } else {
        ((channel * 255 / (color_size - 1) as int) % 256) as u8
    }
}

/// The colour for a colour base.
pub open spec fn display_color(base: Seq<u8>, color_size: nat) -> Seq<u8> {
    seq![
        stretched(base[0], color_size),
        stretched(base[1], color_size),
        stretched(base[2], color_size),
    ]
}

/// The colour base of the cell visited at `index`: the low bytes of the
/// point at distance `index` along the curve.
pub open spec fn color_base(index: nat, bits: nat) -> Seq<u8> {
    seq![
        low_byte(curve_point(index, bits)[0]),
        low_byte(curve_point(index, bits)[1]),
        low_byte(curve_point(index, bits)[2]),
    ]
}

/// The colour of the cell visited at `index` in an image of the given
/// scale, which has `scale * scale` values per axis.
pub open spec fn color_of(index: nat, scale: nat) -> Seq<u8> {
    display_color(color_base(index, bit_depth(scale * scale)), scale * scale)
}

/// Computes the number of bits per axis for `color_size` values per axis.
pub fn bits_for(color_size: u64) -> (bits: usize)
    ensures
        bits == bit_depth(color_size as nat),
        is_bit_depth(color_size as nat, bits as nat),
        bits <= 64,
{
    proof {
        lemma2_to64();
        lemma2_to64_rest();
    }
    if color_size > 0x8000_0000_0000_0000 {
        proof {
            lemma_bit_depth_unique(color_size as nat, 64);
        }
        return 64;
    }
    let mut bits: usize = 0;
    let mut reach: u64 = 1;
    while reach < color_size
        invariant
            color_size <= 0x8000_0000_0000_0000,
            reach == pow2(bits as nat),
            reach >= 1,
            bits <= 63,
            bits > 0 ==> pow2((bits - 1) as nat) < color_size,
        decreases 64 - bits,
    {
        proof {
            lemma_pow2_unfold((bits + 1) as nat);
            if bits == 63 {
                lemma2_to64_rest();
            }
        }
        reach = reach * 2;
        bits = bits + 1;
    }
    proof {
        lemma_bit_depth_unique(color_size as nat, bits as nat);
    }
    bits
}

/// Stretches one channel of a colour base to the range of a byte.
fn stretch(channel: u8, color_size: u64) -> (shade: u8)
    ensures
        shade == stretched(channel, color_size as nat),
{
    if color_size <= 1 {
        0
    } else {
        let wide: u64 = channel as u64 * 255 / (color_size - 1);
        (wide % 256) as u8
    }
}

/// Turns a colour base, whose channels are among `color_size` values, into
/// the colour shown.
pub fn color_base_to_color(cb: [u8; 3], color_size: u64) -> (color: [u8; 3])
    ensures
        color@ == display_color(cb@, color_size as nat),
{
    let color = [stretch(cb[0], color_size), stretch(cb[1], color_size), stretch(cb[2], color_size)];
    assert(color@ =~= display_color(cb@, color_size as nat));
    color
}

/// Computes the colour base of the cell visited at `index`. A visit's index
/// is below the number of cells, which is held in a `usize`, so a `u64`
/// holds every index.
pub fn curve_base(index: u64, bits: usize) -> (base: [u8; 3])
    requires
        bits <= 32,
    ensures
        base@ == color_base(index as nat, bits as nat),
        bits <= 8 ==> forall|axis: int|
            0 <= axis < 3 ==> #[trigger] base@[axis] == curve_point(index as nat, bits as nat)[axis]
                < pow2(bits as nat),
{
    proof {
        lemma2_to64();
        if bits < 8 {
            lemma_pow2_strictly_increases(bits as nat, 8);
        }
    }
    if bits == 0 {
        let base: [u8; 3] = [0, 0, 0];
        assert(base@ =~= color_base(index as nat, bits as nat));
        base
    } else {
        let axes = hilbert_point(index, bits);
        let base = [(axes[0] % 256) as u8, (axes[1] % 256) as u8, (axes[2] % 256) as u8];
        assert(base@ =~= color_base(index as nat, bits as nat));
        base
    }
}

} // verus!
