//! Bit-level primitives: single bits, population counts below a boundary, and
//! the ascending sequence of set-bit positions of a word.

use vstd::prelude::*;

verus! {

/// Whether bit `i` of `x` is set.
pub open spec fn bit(x: u32, i: u32) -> bool {
    x >> i & 1 == 1
}

/// Number of set bits of `x` at positions strictly below `n`.
pub open spec fn pop_below(x: u32, n: nat) -> nat
    decreases n,
{
    if n == 0 {
        0
    } else {
        pop_below(x, (n - 1) as nat) + if bit(x, (n - 1) as u32) {
            1nat
        } else {
            0nat
        }
    }
}

/// Number of set bits of `x`.
pub open spec fn pop(x: u32) -> nat {
    pop_below(x, 32)
}

/// The positions of the set bits of `x` at or above `i`, in ascending order.
pub open spec fn bit_seq(x: u32, i: u32) -> Seq<u32>
    decreases 32 - i when i <= 32
{
    if i >= 32 {
        Seq::empty()
    } else if bit(x, i) {
        seq![i] + bit_seq(x, (i + 1) as u32)
    } else {
        bit_seq(x, (i + 1) as u32)
    }
}

proof fn lemma_shift_bit01(x: u32, i: u32)
    ensures
        x >> i & 1 == 0 || x >> i & 1 == 1,
{
    assert(x >> i & 1 == 0 || x >> i & 1 == 1) by (bit_vector);
}

/// Count the set bits of a word.
pub fn popcount(x: u32) -> (r: u32)
    ensures
        r == pop(x),
        r <= 32,
{
    let mut r: u32 = 0;
    let mut i: u32 = 0;
    while i < 32
        invariant
            i <= 32,
            r == pop_below(x, i as nat),
            r <= i,
        decreases 32 - i,
    {
        proof {
            lemma_shift_bit01(x, i);
        }
        r = r + (x >> i & 1);
        i = i + 1;
    }
    r
}

/// Relies on `bit_iter::BitIter`: iterating over a word yields the positions
/// of its set bits, each exactly once, in ascending order.
#[verifier::external_body]
pub fn bit_positions(x: u32) -> (r: Vec<u32>)
    ensures
        r@ == bit_seq(x, 0),
{
    bit_iter::BitIter::from(x).map(|b| b as u32).collect()
}

/// `pop_below` grows by at most one per position and never exceeds the bound.
pub proof fn lemma_pop_below_le(x: u32, n: nat)
    ensures
        pop_below(x, n) <= n,
    decreases n,
{
    if n > 0 {
        lemma_pop_below_le(x, (n - 1) as nat);
    }
}

/// `pop_below` is monotone in its boundary.
pub proof fn lemma_pop_below_mono(x: u32, m: nat, n: nat)
    requires
        m <= n,
    ensures
        pop_below(x, m) <= pop_below(x, n),
    decreases n,
{
    if m < n {
        lemma_pop_below_mono(x, m, (n - 1) as nat);
    }
}

/// Every entry of `bit_seq(x, i)` is a set bit of `x` in `[i, 32)`, the entry
/// at offset `j` has exactly `j` set bits between it and `i`, and conversely
/// every set bit at or above `i` appears at the offset given by its count of
/// lower set bits.
pub proof fn lemma_bit_seq(x: u32, i: u32)
    requires
        i <= 32,
    ensures
        bit_seq(x, i).len() + pop_below(x, i as nat) == pop(x),
        forall|j: int|
            0 <= j < bit_seq(x, i).len() ==> {
                &&& i <= #[trigger] bit_seq(x, i)[j] < 32
                &&& bit(x, bit_seq(x, i)[j])
                &&& pop_below(x, bit_seq(x, i)[j] as nat) == j + pop_below(x, i as nat)
            },
        forall|p: u32|
            i <= p < 32 && bit(x, p) ==> {
                let j = pop_below(x, p as nat) - pop_below(x, i as nat);
                &&& 0 <= j < bit_seq(x, i).len()
                &&& bit_seq(x, i)[j] == p
            },
    decreases 32 - i,
{
    if i < 32 {
        lemma_bit_seq(x, (i + 1) as u32);
        assert forall|p: u32| i <= p < 32 && bit(x, p) implies {
            let j = pop_below(x, p as nat) - pop_below(x, i as nat);
            &&& 0 <= j < bit_seq(x, i).len()
            &&& bit_seq(x, i)[j] == p
        } by {
            if p > i {
                lemma_pop_below_mono(x, (i + 1) as nat, p as nat);
            }
        }
    }
}

} // verus!

verus! {

/// How moving one piece changes a word: clearing a set bit and setting a
/// clear bit leaves the population unchanged; setting alone raises it by one;
/// clearing alone lowers it by one.
pub proof fn lemma_pop_move(x: u32, f: u32, t: u32)
    requires
        f < 32,
        t < 32,
        f != t,
        bit(x, f),
        !bit(x, t),
    ensures
        pop(x ^ (1u32 << t) ^ (1u32 << f)) == pop(x),
        forall|i: u32|
            i < 32 ==> bit(x ^ (1u32 << t) ^ (1u32 << f), i) == (if i == t {
                true
            } else if i == f {
                false
            } else {
                bit(x, i)
            }),
{
    let y = x ^ (1u32 << t) ^ (1u32 << f);
    assert forall|i: u32| i < 32 implies bit(y, i) == (if i == t {
        true
    } else if i == f {
        false
    } else {
        bit(x, i)
    }) by {
        assert((x ^ (1u32 << t) ^ (1u32 << f)) >> i & 1 == (if i == t {
            1u32
        } else if i == f {
            0u32
        } else {
            x >> i & 1
        })) by (bit_vector)
            requires
                i < 32,
                f < 32,
                t < 32,
                f != t,
                x >> f & 1 == 1,
                !(x >> t & 1 == 1),
        ;
    }
    lemma_pop_shift_count(x, y, f, t, 32);
}

proof fn lemma_pop_shift_count(x: u32, y: u32, f: u32, t: u32, n: u32)
    requires
        n <= 32,
        f < 32,
        t < 32,
        f != t,
        bit(x, f),
        !bit(x, t),
        forall|i: u32|
            i < 32 ==> bit(y, i) == (if i == t {
                true
            } else if i == f {
                false
            } else {
                bit(x, i)
            }),
    ensures
        pop_below(y, n as nat) + (if f < n {
            1nat
        } else {
            0nat
        }) == pop_below(x, n as nat) + (if t < n {
            1nat
        } else {
            0nat
        }),
    decreases n,
{
    if n > 0 {
        lemma_pop_shift_count(x, y, f, t, (n - 1) as u32);
    }
}

/// Setting a clear bit raises the population by one.
pub proof fn lemma_pop_set(x: u32, t: u32)
    requires
        t < 32,
        !bit(x, t),
    ensures
        pop(x | (1u32 << t)) == pop(x) + 1,
        forall|i: u32| i < 32 ==> bit(x | (1u32 << t), i) == (i == t || bit(x, i)),
{
    let y = x | (1u32 << t);
    assert forall|i: u32| i < 32 implies bit(y, i) == (i == t || bit(x, i)) by {
        assert((x | (1u32 << t)) >> i & 1 == 1 <==> (i == t || x >> i & 1 == 1)) by (bit_vector)
            requires
                i < 32,
                t < 32,
        ;
    }
    lemma_pop_one_edit(x, y, t, true, 32);
}

/// Clearing a set bit lowers the population by one.
pub proof fn lemma_pop_clear(x: u32, t: u32)
    requires
        t < 32,
        bit(x, t),
    ensures
        pop(x & !(1u32 << t)) + 1 == pop(x),
        forall|i: u32| i < 32 ==> bit(x & !(1u32 << t), i) == (i != t && bit(x, i)),
{
    let y = x & !(1u32 << t);
    assert forall|i: u32| i < 32 implies bit(y, i) == (i != t && bit(x, i)) by {
        assert((x & !(1u32 << t)) >> i & 1 == 1 <==> (i != t && x >> i & 1 == 1)) by (bit_vector)
            requires
                i < 32,
                t < 32,
        ;
    }
    lemma_pop_one_edit(x, y, t, false, 32);
}

proof fn lemma_pop_one_edit(x: u32, y: u32, t: u32, setting: bool, n: u32)
    requires
        n <= 32,
        t < 32,
        setting ==> !bit(x, t) && forall|i: u32| i < 32 ==> bit(y, i) == (i == t || bit(x, i)),
        !setting ==> bit(x, t) && forall|i: u32| i < 32 ==> bit(y, i) == (i != t && bit(x, i)),
    ensures
        setting ==> pop_below(y, n as nat) == pop_below(x, n as nat) + (if t < n {
            1nat
        } else {
            0nat
        }),
        !setting ==> pop_below(y, n as nat) + (if t < n {
            1nat
        } else {
            0nat
        }) == pop_below(x, n as nat),
    decreases n,
{
    if n > 0 {
        lemma_pop_one_edit(x, y, t, setting, (n - 1) as u32);
    }
}

} // verus!
