use vstd::prelude::*;

verus! {

use vstd::arithmetic::power2::pow2;
use vstd::arithmetic::power2::lemma_pow2_unfold;
use vstd::arithmetic::power2::lemma_pow2_pos;
use vstd::arithmetic::div_mod::lemma_div_denominator;

/// The mathematical sum of a sequence of coin values.
pub open spec fn seq_sum(s: Seq<u64>) -> int
    decreases s.len(),
{
    if s.len() == 0 {
        0
    } else {
        s[0] + seq_sum(s.drop_first())
    }
}

pub proof fn lemma_seq_sum_nonneg(s: Seq<u64>)
    ensures
        0 <= seq_sum(s),
    decreases s.len(),
{
    if s.len() > 0 {
        lemma_seq_sum_nonneg(s.drop_first());
    }
}

pub proof fn lemma_seq_sum_push(s: Seq<u64>, v: u64)
    ensures
        seq_sum(s.push(v)) == seq_sum(s) + v,
    decreases s.len(),
{
    if s.len() == 0 {
        assert(s.push(v)[0] == v);
        assert(s.push(v).drop_first() =~= Seq::<u64>::empty());
        assert(seq_sum(s.push(v).drop_first()) == 0);
        assert(seq_sum(s.push(v)) == v + 0);
    } else {
        assert(s.push(v)[0] == s[0]);
        assert(s.push(v).drop_first() =~= s.drop_first().push(v));
        lemma_seq_sum_push(s.drop_first(), v);
        assert(seq_sum(s.push(v)) == s[0] + seq_sum(s.drop_first().push(v)));
        assert(seq_sum(s) == s[0] + seq_sum(s.drop_first()));
    }
}

pub proof fn lemma_seq_sum_split(s: Seq<u64>, i: int)
    requires
        0 <= i <= s.len(),
    ensures
        seq_sum(s) == seq_sum(s.take(i)) + seq_sum(s.skip(i)),
    decreases i,
{
    if i == 0 {
        assert(s.take(0) =~= Seq::<u64>::empty());
        assert(s.skip(0) =~= s);
    } else {
        assert(s.take(i)[0] == s[0]);
        assert(s.take(i).drop_first() =~= s.drop_first().take(i - 1));
        assert(s.skip(i) =~= s.drop_first().skip(i - 1));
        lemma_seq_sum_split(s.drop_first(), i - 1);
    }
}

pub proof fn lemma_seq_sum_take_le(s: Seq<u64>, i: int)
    requires
        0 <= i <= s.len(),
    ensures
        seq_sum(s.take(i)) <= seq_sum(s),
{
    lemma_seq_sum_split(s, i);
    lemma_seq_sum_nonneg(s.skip(i));
}

/// Sum a slice of coin values; the total is required to fit in a `u64`.
pub fn sum_u64(v: &[u64]) -> (s: u64)
    requires
        seq_sum(v@) <= u64::MAX,
    ensures
        s as int == seq_sum(v@),
{
    let mut acc: u64 = 0;
    let mut i: usize = 0;
    while i < v.len()
        invariant
            0 <= i <= v@.len(),
            acc as int == seq_sum(v@.take(i as int)),
            seq_sum(v@) <= u64::MAX,
        decreases v@.len() - i,
    {
        proof {
            lemma_seq_sum_push(v@.take(i as int), v@[i as int]);
            assert(v@.take(i as int + 1) =~= v@.take(i as int).push(v@[i as int]));
            lemma_seq_sum_take_le(v@, i as int + 1);
            lemma_seq_sum_nonneg(v@.take(i as int + 1));
        }
        acc = acc + v[i];
        i = i + 1;
    }
    proof {
        assert(v@.take(v@.len() as int) =~= v@);
    }
    acc
}

pub proof fn lemma_seq_sum_remove(s: Seq<u64>, i: int)
    requires
        0 <= i < s.len(),
    ensures
        seq_sum(s.remove(i)) == seq_sum(s) - s[i],
    decreases i,
{
    if i == 0 {
        assert(s.remove(0) =~= s.drop_first());
    } else {
        assert(s.remove(i)[0] == s[0]);
        assert(s.remove(i).drop_first() =~= s.drop_first().remove(i - 1));
        lemma_seq_sum_remove(s.drop_first(), i - 1);
        assert(s.drop_first()[i - 1] == s[i]);
    }
}

/// The sum of a sequence depends only on its multiset of elements.
pub proof fn lemma_seq_sum_permutation(s1: Seq<u64>, s2: Seq<u64>)
    requires
        s1.to_multiset() == s2.to_multiset(),
    ensures
        seq_sum(s1) == seq_sum(s2),
    decreases s1.len(),
{
    broadcast use vstd::seq_lib::group_to_multiset_ensures;

    if s1.len() == 0 {
        assert(s2.to_multiset().len() == 0);
    } else {
        let x = s1[0];
        assert(s1.contains(x));
        assert(s2.to_multiset().count(x) > 0);
        assert(s2.contains(x));
        let i = choose|i: int| 0 <= i < s2.len() && s2[i] == x;
        lemma_seq_sum_remove(s2, i);
        assert(s1.remove(0) =~= s1.drop_first());
        assert(s1.remove(0).to_multiset() == s1.to_multiset().remove(x));
        assert(s2.remove(i).to_multiset() == s2.to_multiset().remove(x));
        lemma_seq_sum_permutation(s1.drop_first(), s2.remove(i));
    }
}

/// `t` is expressible as the sum of some (possibly empty) subset of the
/// positions of `s`.
pub open spec fn is_subset_sum_of(s: Seq<u64>, t: int) -> bool
    decreases s.len(),
{
    if t == 0 {
        true
    } else if s.len() == 0 {
        false
    } else {
        is_subset_sum_of(s.drop_first(), t) || is_subset_sum_of(s.drop_first(), t - s[0])
    }
}

pub proof fn lemma_subset_sum_bounds(s: Seq<u64>, t: int)
    requires
        is_subset_sum_of(s, t),
    ensures
        0 <= t <= seq_sum(s),
    decreases s.len(),
{
    lemma_seq_sum_nonneg(s);
    if t == 0 {
    } else {
        if is_subset_sum_of(s.drop_first(), t) {
            lemma_subset_sum_bounds(s.drop_first(), t);
        } else {
            lemma_subset_sum_bounds(s.drop_first(), t - s[0]);
        }
    }
}

pub proof fn lemma_subset_sum_total(s: Seq<u64>)
    ensures
        is_subset_sum_of(s, seq_sum(s)),
    decreases s.len(),
{
    if s.len() == 0 {
    } else {
        lemma_subset_sum_total(s.drop_first());
        if seq_sum(s) != 0 {
            assert(seq_sum(s) - s[0] == seq_sum(s.drop_first()));
        }
    }
}

/// Every element of the set is itself a subset sum.
pub proof fn lemma_element_is_subset_sum(s: Seq<u64>, j: int)
    requires
        0 <= j < s.len(),
    ensures
        is_subset_sum_of(s, s[j] as int),
    decreases j,
{
    if j == 0 {
        assert(is_subset_sum_of(s.drop_first(), s[0] - s[0]));
    } else {
        lemma_element_is_subset_sum(s.drop_first(), j - 1);
        assert(s.drop_first()[j - 1] == s[j]);
    }
}

/// The sum of the elements of `s` selected by the bits of `mask`, where bit
/// `i` (starting from the least significant one) selects `s[i]`.
pub open spec fn mask_sum(s: Seq<u64>, mask: nat) -> int
    decreases s.len(),
{
    if s.len() == 0 {
        0
    } else {
        (if mask % 2 == 1 {
            s[0] as int
        } else {
            0
        }) + mask_sum(s.drop_first(), mask / 2)
    }
}

pub proof fn lemma_mask_sum_zero(s: Seq<u64>)
    ensures
        mask_sum(s, 0) == 0,
    decreases s.len(),
{
    if s.len() > 0 {
        lemma_mask_sum_zero(s.drop_first());
    }
}

pub proof fn lemma_mask_sum_bounds(s: Seq<u64>, mask: nat)
    ensures
        0 <= mask_sum(s, mask) <= seq_sum(s),
    decreases s.len(),
{
    if s.len() > 0 {
        lemma_mask_sum_bounds(s.drop_first(), mask / 2);
    }
}

/// Every mask sum is a subset sum.
pub proof fn lemma_mask_sum_is_subset_sum(s: Seq<u64>, mask: nat)
    ensures
        is_subset_sum_of(s, mask_sum(s, mask)),
    decreases s.len(),
{
    if s.len() == 0 {
    } else {
        lemma_mask_sum_is_subset_sum(s.drop_first(), mask / 2);
        if mask_sum(s, mask) != 0 {
            if mask % 2 == 1 {
                assert(mask_sum(s, mask) - s[0] == mask_sum(s.drop_first(), mask / 2));
            }
        }
    }
}

/// Conversely, every subset sum is hit by some mask below `2^|s|`.
pub proof fn lemma_subset_sum_has_mask(s: Seq<u64>, t: int)
    requires
        is_subset_sum_of(s, t),
    ensures
        exists|mask: nat| mask < pow2(s.len()) && mask_sum(s, mask) == t,
    decreases s.len(),
{
    lemma_pow2_pos(s.len());
    if t == 0 {
        lemma_mask_sum_zero(s);
        assert(0nat < pow2(s.len()) && mask_sum(s, 0nat) == 0);
    } else {
        lemma_pow2_unfold(s.len());
        if is_subset_sum_of(s.drop_first(), t) {
            lemma_subset_sum_has_mask(s.drop_first(), t);
            let m = choose|m: nat|
                m < pow2(s.drop_first().len()) && mask_sum(s.drop_first(), m) == t;
            let m2: nat = 2 * m;
            assert(m2 % 2 == 0 && m2 / 2 == m);
            assert(m2 < pow2(s.len()) && mask_sum(s, m2) == t);
        } else {
            lemma_subset_sum_has_mask(s.drop_first(), t - s[0]);
            let m = choose|m: nat|
                m < pow2(s.drop_first().len()) && mask_sum(s.drop_first(), m) == t - s[0];
            let m2: nat = 2 * m + 1;
            assert(m2 % 2 == 1 && m2 / 2 == m);
            assert(m2 < pow2(s.len()) && mask_sum(s, m2) == t);
        }
    }
}

/// Appending an element extends a mask sum by that element exactly when the
/// bit at the old length is set.
pub proof fn lemma_mask_sum_push(s: Seq<u64>, mask: nat, v: u64)
    ensures
        mask_sum(s.push(v), mask) == mask_sum(s, mask) + (if (mask / pow2(s.len())) % 2 == 1 {
            v as int
        } else {
            0
        }),
    decreases s.len(),
{
    if s.len() == 0 {
        assert(s.push(v)[0] == v);
        assert(s.push(v).drop_first() =~= Seq::<u64>::empty());
        assert(pow2(0) == 1) by {
            vstd::arithmetic::power2::lemma2_to64();
        }
        assert(mask_sum(s.push(v).drop_first(), mask / 2) == 0);
        assert(mask_sum(s, mask) == 0);
        assert(mask / pow2(s.len()) == mask);
    } else {
        assert(s.push(v)[0] == s[0]);
        assert(s.push(v).drop_first() =~= s.drop_first().push(v));
        lemma_mask_sum_push(s.drop_first(), mask / 2, v);
        lemma_pow2_unfold(s.len());
        lemma_pow2_pos((s.len() - 1) as nat);
        lemma_div_denominator(mask as int, 2, pow2((s.len() - 1) as nat) as int);
        assert((mask / 2) / pow2(s.drop_first().len()) == mask / pow2(s.len()));
        assert(mask_sum(s.push(v), mask) == (if mask % 2 == 1 {
            s[0] as int
        } else {
            0
        }) + mask_sum(s.drop_first().push(v), mask / 2));
        assert(mask_sum(s, mask) == (if mask % 2 == 1 {
            s[0] as int
        } else {
            0
        }) + mask_sum(s.drop_first(), mask / 2));
    }
}

/// `2^e` as a machine integer, for exponents small enough to fit.
pub fn pow2_u64(e: u64) -> (r: u64)
    requires
        e <= 63,
    ensures
        r as nat == pow2(e as nat),
{
    proof {
        vstd::arithmetic::power2::lemma2_to64();
        vstd::arithmetic::power2::lemma2_to64_rest();
    }
    let mut r: u64 = 1;
    let mut i: u64 = 0;
    while i < e
        invariant
            0 <= i <= e,
            e <= 63,
            r as nat == pow2(i as nat),
            r <= 0x8000_0000_0000_0000u64,
        decreases e - i,
    {
        proof {
            lemma_pow2_unfold((i + 1) as nat);
            assert(pow2(i as nat) <= pow2(62)) by {
                if (i as nat) < 62 {
                    vstd::arithmetic::power2::lemma_pow2_strictly_increases(i as nat, 62);
                }
            }
            assert(pow2(62) == 0x4000_0000_0000_0000 && pow2(63) == 0x8000_0000_0000_0000) by {
                vstd::arithmetic::power2::lemma2_to64_rest();
            }
        }
        r = r * 2;
        i = i + 1;
    }
    r
}

/// `2^e` as a 128-bit machine integer, for exponents up to 64.
pub fn pow2_u128(e: u64) -> (r: u128)
    requires
        e <= 64,
    ensures
        r as nat == pow2(e as nat),
{
    proof {
        vstd::arithmetic::power2::lemma2_to64();
        vstd::arithmetic::power2::lemma2_to64_rest();
    }
    let mut r: u128 = 1;
    let mut i: u64 = 0;
    while i < e
        invariant
            0 <= i <= e,
            e <= 64,
            r as nat == pow2(i as nat),
            r <= 0x1_0000_0000_0000_0000u128,
        decreases e - i,
    {
        proof {
            lemma_pow2_unfold((i + 1) as nat);
            assert(pow2(i as nat) <= pow2(63)) by {
                if ((i as nat) < 63) {
                    vstd::arithmetic::power2::lemma_pow2_strictly_increases(i as nat, 63);
                }
            }
            assert(pow2(63) == 0x8000_0000_0000_0000 && pow2(64) == 0x1_0000_0000_0000_0000) by {
                vstd::arithmetic::power2::lemma2_to64_rest();
            }
        }
        r = r * 2;
        i = i + 1;
    }
    r
}

} // verus!
