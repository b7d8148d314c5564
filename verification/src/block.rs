//! The packed 30-bit card-permutation word: one bit per arrangement of the
//! five cards, plus the operations that reinterpret a word from the other
//! player's perspective and replicate it across hand assignments.

use vstd::prelude::*;

verus! {

/// The 30 arrangement bits of a word.
pub const BLOCK_MASK: u32 = 0x3FFFFFFF;

/// Marks a word whose 30 sub-verdicts are all decided.
pub const RESOLVED_BIT: u32 = 0x40000000;

/// A 30-bit packed card-permutation value.
#[derive(Clone, Copy, Debug, PartialEq, Eq, Structural)]
pub struct Block(pub u32);

/// Swap the two hands within each side-card group of a word: the same
/// arrangements as seen by the opponent.
pub open spec fn spec_invert(x: u32) -> u32 {
    let m0 = 0b001001_001001_001001_001001_001001u32;
    let m1 = 0b000111_000111_000111_000111_000111u32;
    let a = (x & (m0 << 1)) << 1 | (x & (m0 << 2)) >> 1 | (x & m0);
    (a & m1) << 3 | (a & (m1 << 3)) >> 3
}

/// Replicate a word across the three rotations of its hand assignment.
pub open spec fn spec_expand(x: u32) -> u32 {
    let d = ((x as u64) << 10) | ((x as u64) << 20);
    (((d | (d >> 30)) & 0x3FFFFFFF) as u32)
}

impl Block {
    /// Reinterpret the word from the opponent's perspective.
    pub fn invert(self) -> (r: Block)
        ensures
            r.0 == spec_invert(self.0),
            r.0 & !BLOCK_MASK == 0,
    {
        let data = self.0;
        let m0: u32 = 0b001001_001001_001001_001001_001001;
        let m1: u32 = 0b000111_000111_000111_000111_000111;
        let data = (data & (m0 << 1)) << 1 | (data & (m0 << 2)) >> 1 | (data & m0);
        let r = (data & m1) << 3 | (data & (m1 << 3)) >> 3;
        proof {
            lemma_invert_domain(self.0);
        }
        Block(r)
    }

    /// Copy the word across all hand assignments that share its side cards.
    pub fn expand(self) -> (r: Block)
        ensures
            r.0 == spec_expand(self.0),
            r.0 & !BLOCK_MASK == 0,
    {
        let d = ((self.0 as u64) << 10) | ((self.0 as u64) << 20);
        let d = d | (d >> 30);
        let r = (d & 0x3FFFFFFF) as u32;
        proof {
            lemma_expand_domain(self.0);
        }
        Block(r)
    }
}

/// The inverted word stays within the 30 arrangement bits.
pub proof fn lemma_invert_domain(x: u32)
    ensures
        spec_invert(x) & !BLOCK_MASK == 0,
        spec_invert(x) < 0x40000000,
{
    assert(spec_invert(x) & !0x3FFFFFFFu32 == 0 && spec_invert(x) < 0x40000000) by (bit_vector);
}

/// The expanded word stays within the 30 arrangement bits.
pub proof fn lemma_expand_domain(x: u32)
    ensures
        spec_expand(x) & !BLOCK_MASK == 0,
        spec_expand(x) < 0x40000000,
{
    assert(spec_expand(x) & !0x3FFFFFFFu32 == 0 && spec_expand(x) < 0x40000000) by (bit_vector);
}

/// On the 30 arrangement bits, inverting twice gives the word back: the
/// hand swap within each six-bit group is an involution.
pub proof fn lemma_invert_involution(x: u32)
    requires
        x & !BLOCK_MASK == 0,
    ensures
        spec_invert(spec_invert(x)) == x,
{
    assert(spec_invert(spec_invert(x)) == x) by (bit_vector)
        requires
            x & !0x3FFFFFFFu32 == 0,
    ;
}

/// The arrangement masks of the five cards: the fixed seed rotated left by
/// one six-bit group per card.  The mask of card `i` selects the six
/// arrangements in which that card is the side card.
pub open spec fn spec_mask_at(i: int) -> u32 {
    if i == 0 {
        0b000000_000000_010100_000000_101011u32
    } else if i == 1 {
        0b000000_010100_000000_101011_000000u32
    } else if i == 2 {
        0b010100_000000_101011_000000_000000u32
    } else if i == 3 {
        0b000000_101011_000000_000000_010100u32
    } else {
        0b101011_000000_000000_010100_000000u32
    }
}

/// Emit the five arrangement masks by rotating the seed.
pub fn mask_iter() -> (r: Vec<u32>)
    ensures
        r.len() == 5,
        forall|i: int| 0 <= i < 5 ==> r[i] == spec_mask_at(i),
{
    let mut r: Vec<u32> = Vec::new();
    let m0: u32 = 0b000000_000000_010100_000000_101011;
    r.push(m0 & BLOCK_MASK);
    let m1 = m0 << 6 | m0 >> 24;
    r.push(m1 & BLOCK_MASK);
    let m2 = m1 << 6 | m1 >> 24;
    r.push(m2 & BLOCK_MASK);
    let m3 = m2 << 6 | m2 >> 24;
    r.push(m3 & BLOCK_MASK);
    let m4 = m3 << 6 | m3 >> 24;
    r.push(m4 & BLOCK_MASK);
    proof {
        assert((m0 & 0x3FFFFFFF) == 0b000000_000000_010100_000000_101011u32 && ((m0 << 6 | m0
            >> 24) & 0x3FFFFFFF) == 0b000000_010100_000000_101011_000000u32 && (((m0 << 6 | m0
            >> 24) << 6 | (m0 << 6 | m0 >> 24) >> 24) & 0x3FFFFFFF)
            == 0b010100_000000_101011_000000_000000u32 && ((((m0 << 6 | m0 >> 24) << 6 | (m0 << 6
            | m0 >> 24) >> 24) << 6 | ((m0 << 6 | m0 >> 24) << 6 | (m0 << 6 | m0 >> 24) >> 24)
            >> 24) & 0x3FFFFFFF) == 0b000000_101011_000000_000000_010100u32 && (((((m0 << 6 | m0
            >> 24) << 6 | (m0 << 6 | m0 >> 24) >> 24) << 6 | ((m0 << 6 | m0 >> 24) << 6 | (m0 << 6
            | m0 >> 24) >> 24) >> 24) << 6 | (((m0 << 6 | m0 >> 24) << 6 | (m0 << 6 | m0 >> 24)
            >> 24) << 6 | ((m0 << 6 | m0 >> 24) << 6 | (m0 << 6 | m0 >> 24) >> 24) >> 24) >> 24)
            & 0x3FFFFFFF) == 0b101011_000000_000000_010100_000000u32) by (bit_vector)
            requires
                m0 == 0b000000_000000_010100_000000_101011u32,
        ;
    }
    r
}

/// Each arrangement mask is its own inverse under the hand swap: a side-card
/// group selects the same arrangements from either player's perspective.
pub proof fn lemma_mask_self_inverse(i: int)
    requires
        0 <= i < 5,
    ensures
        spec_invert(spec_mask_at(i)) == spec_mask_at(i),
        spec_mask_at(i) & !BLOCK_MASK == 0,
{
    assert(spec_invert(0b000000_000000_010100_000000_101011u32)
        == 0b000000_000000_010100_000000_101011u32 && spec_invert(
        0b000000_010100_000000_101011_000000u32,
    ) == 0b000000_010100_000000_101011_000000u32 && spec_invert(
        0b010100_000000_101011_000000_000000u32,
    ) == 0b010100_000000_101011_000000_000000u32 && spec_invert(
        0b000000_101011_000000_000000_010100u32,
    ) == 0b000000_101011_000000_000000_010100u32 && spec_invert(
        0b101011_000000_000000_010100_000000u32,
    ) == 0b101011_000000_000000_010100_000000u32 && 0b101011_000000_000000_010100_000000u32
        & !0x3FFFFFFFu32 == 0 && 0b000000_000000_010100_000000_101011u32 & !0x3FFFFFFFu32 == 0
        && 0b000000_010100_000000_101011_000000u32 & !0x3FFFFFFFu32 == 0
        && 0b010100_000000_101011_000000_000000u32 & !0x3FFFFFFFu32 == 0
        && 0b000000_101011_000000_000000_010100u32 & !0x3FFFFFFFu32 == 0) by (bit_vector);
}

} // verus!
