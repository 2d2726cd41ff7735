//! Sets of walls packed into two 64-bit words, one bit per anchor and
//! orientation.

use crate::geometry::{anchor_index, encode8, on_anchor_grid, Orientation, Position, Wall};
use bit_field::BitField;
use vstd::prelude::*;

verus! {

/// Bit `i` of `bits` is one. Bit 0 is the least significant.
pub open spec fn bit_is_set(bits: u64, i: int) -> bool {
    bits & (1u64 << (i as u64)) != 0
}

/// The walls that a pair of words holds: bit `anchor_index(p)` of the first
/// word stands for the horizontal wall anchored at `p`, the same bit of the
/// second word for the vertical one.
pub open spec fn walls_in_bits(horizontal_walls: u64, vertical_walls: u64) -> Set<Wall> {
    Set::new(
        |w: Wall|
            on_anchor_grid(w.1) && match w.0 {
                Orientation::Horizontal => bit_is_set(horizontal_walls, anchor_index(w.1)),
                Orientation::Vertical => bit_is_set(vertical_walls, anchor_index(w.1)),
            },
    )
}

/// Reads one bit through `bit_field::BitField::get_bit` on `u64`, which
/// returns whether the word and `1 << bit` share a bit, and panics for
/// `bit >= 64`.
#[verifier::external_body]
pub(crate) fn get_bit(bits: u64, bit: usize) -> (r: bool)
    requires
        bit < 64,
    ensures
        r == bit_is_set(bits, bit as int),
{
    bits.get_bit(bit)
}

/// Sets one bit through `bit_field::BitField::set_bit` on `u64` with the
/// value `true`, which ors `1 << bit` into the word, and panics for
/// `bit >= 64`.
#[verifier::external_body]
pub(crate) fn set_bit(bits: &mut u64, bit: usize)
    requires
        bit < 64,
    ensures
        *final(bits) == *old(bits) | (1u64 << (bit as u64)),
{
    bits.set_bit(bit, true);
}

proof fn lemma_bit_after_set(bits: u64, i: u64, j: u64)
    requires
        i < 64,
        j < 64,
    ensures
        bit_is_set(bits | (1u64 << i), j as int) == (i == j || bit_is_set(bits, j as int)),
        !bit_is_set(0u64, j as int),
{
    assert(((bits | (1u64 << i)) & (1u64 << j) != 0) == (i == j || (bits & (1u64 << j) != 0)))
        by (bit_vector)
        requires
            i < 64,
            j < 64,
    ;
    assert(0u64 & (1u64 << j) == 0) by (bit_vector);
}

/// Two words without a bit hold no wall.
pub proof fn lemma_no_bits_no_walls()
    ensures
        walls_in_bits(0, 0) == Set::<Wall>::empty(),
{
    assert forall|w: Wall| !walls_in_bits(0, 0).contains(w) by {
        if on_anchor_grid(w.1) {
            lemma_bit_after_set(0, 0, anchor_index(w.1) as u64);
        }
    }
    assert(walls_in_bits(0, 0) =~= Set::<Wall>::empty());
}

/// Adds one wall to a pair of words.
pub fn bitset_add_wall(
    horizontal_walls: &mut u64,
    vertical_walls: &mut u64,
    ori: &Orientation,
    pos: &Position,
)
    requires
        on_anchor_grid(*pos),
    ensures
        walls_in_bits(*final(horizontal_walls), *final(vertical_walls)) == walls_in_bits(
            *old(horizontal_walls),
            *old(vertical_walls),
        ).insert((*ori, *pos)),
{
    let bit: usize = encode8(pos.x - 1, pos.y - 1);
    match ori {
        Orientation::Horizontal => {
            set_bit(horizontal_walls, bit);
        },
        Orientation::Vertical => {
            set_bit(vertical_walls, bit);
        },
    }
    proof {
        let before = walls_in_bits(*old(horizontal_walls), *old(vertical_walls));
        let after = walls_in_bits(*horizontal_walls, *vertical_walls);
        assert forall|w: Wall| after.contains(w) == before.insert((*ori, *pos)).contains(w) by {
            if on_anchor_grid(w.1) {
                let j = anchor_index(w.1) as u64;
                lemma_bit_after_set(*old(horizontal_walls), bit as u64, j);
                lemma_bit_after_set(*old(vertical_walls), bit as u64, j);
            }
        }
        assert(after =~= before.insert((*ori, *pos)));
    }
}

} // verus!
