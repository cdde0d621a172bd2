use vstd::prelude::*;

verus! {

use crate::types::CoinSet;
use crate::types::Partition;
use crate::types::Filter;
use crate::sums::seq_sum;
use crate::sums::lemma_seq_sum_push;
use crate::sums::lemma_seq_sum_nonneg;
use crate::sums::sum_u64;
use crate::sums::pow2_u64;
use crate::views::lemma_partition_deep_view;
use crate::views::lemma_partition_deep_view_push;
use vstd::multiset::Multiset;
use vstd::arithmetic::power2::pow2;
use vstd::arithmetic::power2::lemma_pow2_unfold;
use vstd::arithmetic::power2::lemma_pow2_pos;
use vstd::arithmetic::power2::lemma_pow2_strictly_increases;
use vstd::arithmetic::power2::lemma2_to64;
use vstd::arithmetic::power2::lemma2_to64_rest;
use vstd::arithmetic::div_mod::lemma_div_denominator;

/// Bit `i` of `pattern`, counting from the least significant bit.
pub open spec fn pattern_bit(pattern: u64, i: int) -> bool
    recommends
        0 <= i,
{
    (pattern as nat / pow2(i as nat)) % 2 == 1
}

/// The anchored side of the 2-partition of `s` selected by `pattern`: it
/// holds `s[0]`, and the element at position `i >= 1` exactly when bit
/// `i - 1` of `pattern` is clear.
pub open spec fn tuple_left(s: Seq<u64>, pattern: u64) -> Seq<u64>
    decreases s.len(),
{
    if s.len() <= 1 {
        s
    } else if pattern_bit(pattern, s.len() - 2) {
        tuple_left(s.drop_last(), pattern)
    } else {
        tuple_left(s.drop_last(), pattern).push(s.last())
    }
}

/// The complement side: the element at position `i >= 1` exactly when bit
/// `i - 1` of `pattern` is set.
pub open spec fn tuple_right(s: Seq<u64>, pattern: u64) -> Seq<u64>
    decreases s.len(),
{
    if s.len() <= 1 {
        Seq::empty()
    } else if pattern_bit(pattern, s.len() - 2) {
        tuple_right(s.drop_last(), pattern).push(s.last())
    } else {
        tuple_right(s.drop_last(), pattern)
    }
}

/// The two sides of any pattern split a non-empty set exactly: the left side
/// is anchored at `s[0]`, and the sides partition both the multiset of
/// elements and the total sum.
pub proof fn lemma_tuple_split(s: Seq<u64>, pattern: u64)
    requires
        s.len() >= 1,
    ensures
        tuple_left(s, pattern).len() >= 1,
        tuple_left(s, pattern)[0] == s[0],
        tuple_left(s, pattern).len() + tuple_right(s, pattern).len() == s.len(),
        tuple_left(s, pattern).to_multiset().add(tuple_right(s, pattern).to_multiset())
            == s.to_multiset(),
        seq_sum(tuple_left(s, pattern)) + seq_sum(tuple_right(s, pattern)) == seq_sum(s),
    decreases s.len(),
{
    broadcast use vstd::seq_lib::group_to_multiset_ensures;

    let l = tuple_left(s, pattern);
    let r = tuple_right(s, pattern);
    if s.len() == 1 {
        assert(r.to_multiset().len() == 0);
        assert(l.to_multiset().add(r.to_multiset()) =~= s.to_multiset());
        assert(seq_sum(r) == 0);
    } else {
        let dl = s.drop_last();
        lemma_tuple_split(dl, pattern);
        assert(dl.push(s.last()) =~= s);
        assert(dl.push(s.last()).to_multiset() == dl.to_multiset().insert(s.last()));
        let ll = tuple_left(dl, pattern);
        let rr = tuple_right(dl, pattern);
        if pattern_bit(pattern, s.len() - 2) {
            assert(r == rr.push(s.last()));
            assert(rr.push(s.last()).to_multiset() == rr.to_multiset().insert(s.last()));
            assert(ll.to_multiset().add(rr.to_multiset().insert(s.last()))
                =~= ll.to_multiset().add(rr.to_multiset()).insert(s.last()));
            lemma_seq_sum_push(rr, s.last());
            lemma_seq_sum_push(dl, s.last());
        } else {
            assert(l == ll.push(s.last()));
            assert(ll.push(s.last()).to_multiset() == ll.to_multiset().insert(s.last()));
            assert(ll.to_multiset().insert(s.last()).add(rr.to_multiset())
                =~= ll.to_multiset().add(rr.to_multiset()).insert(s.last()));
            assert(l[0] == ll[0]);
            lemma_seq_sum_push(ll, s.last());
            lemma_seq_sum_push(dl, s.last());
        }
    }
}

/// Every in-range, non-zero pattern sends at least one element to the
/// complement side.
pub proof fn lemma_tuple_right_nonempty(s: Seq<u64>, pattern: u64)
    requires
        s.len() >= 2,
        1 <= pattern,
        (pattern as nat) < pow2((s.len() - 1) as nat),
    ensures
        tuple_right(s, pattern).len() >= 1,
    decreases s.len(),
{
    if pattern_bit(pattern, s.len() - 2) {
    } else {
        let d = pow2((s.len() - 2) as nat) as int;
        lemma_pow2_pos((s.len() - 2) as nat);
        lemma_pow2_unfold((s.len() - 1) as nat);
        let q = pattern as int / d;
        let rm = pattern as int % d;
        vstd::arithmetic::div_mod::lemma_fundamental_div_mod(pattern as int, d);
        vstd::arithmetic::div_mod::lemma_mod_division_less_than_divisor(pattern as int, d);
        vstd::arithmetic::div_mod::lemma_div_pos_is_pos(pattern as int, d);
        assert(q % 2 == 0);
        assert(pattern < 2 * d);
        assert(q < 2) by (nonlinear_arith)
            requires
                d > 0,
                pattern as int == d * q + rm,
                0 <= rm,
                rm < d,
                (pattern as int) < 2 * d,
        ;
        assert(q == 0);
        assert(d * q == 0) by (nonlinear_arith)
            requires
                q == 0,
        ;
        assert(pattern < d);
        if s.len() == 2 {
            assert(pow2(0) == 1) by {
                lemma2_to64();
            }
            assert(false);
        } else {
            lemma_tuple_right_nonempty(s.drop_last(), pattern);
        }
    }
}

/// The tuple sides depend only on the pattern bits below the set size.
proof fn lemma_tuple_sides_mod(s: Seq<u64>, p1: u64, p2: u64)
    requires
        s.len() >= 1,
        (p1 as nat) % pow2((s.len() - 1) as nat) == (p2 as nat) % pow2((s.len() - 1) as nat),
    ensures
        tuple_left(s, p1) == tuple_left(s, p2),
        tuple_right(s, p1) == tuple_right(s, p2),
    decreases s.len(),
{
    if s.len() == 1 {
    } else {
        let d = pow2((s.len() - 2) as nat) as int;
        let dd = pow2((s.len() - 1) as nat) as int;
        lemma_pow2_pos((s.len() - 2) as nat);
        lemma_pow2_unfold((s.len() - 1) as nat);
        vstd::arithmetic::div_mod::lemma_breakdown(p1 as int, d, 2);
        vstd::arithmetic::div_mod::lemma_breakdown(p2 as int, d, 2);
        vstd::arithmetic::div_mod::lemma_mod_division_less_than_divisor(p1 as int, d);
        vstd::arithmetic::div_mod::lemma_mod_division_less_than_divisor(p2 as int, d);
        vstd::arithmetic::div_mod::lemma_mod_division_less_than_divisor(p1 as int / d, 2);
        vstd::arithmetic::div_mod::lemma_mod_division_less_than_divisor(p2 as int / d, 2);
        assert(d * 2 == dd);
        assert(d * ((p1 as int / d) % 2) + p1 as int % d == d * ((p2 as int / d) % 2) + p2
            as int % d);
        assert((p1 as int / d) % 2 == (p2 as int / d) % 2 && p1 as int % d == p2 as int % d)
            by (nonlinear_arith)
            requires
                d > 0,
                d * ((p1 as int / d) % 2) + p1 as int % d == d * ((p2 as int / d) % 2) + p2
                    as int % d,
                0 <= (p1 as int / d) % 2 < 2,
                0 <= (p2 as int / d) % 2 < 2,
                0 <= p1 as int % d < d,
                0 <= p2 as int % d < d,
        ;
        assert(pattern_bit(p1, s.len() - 2) == pattern_bit(p2, s.len() - 2));
        lemma_tuple_sides_mod(s.drop_last(), p1, p2);
    }
}

/// A pattern whose bits below the set size are all clear keeps every
/// element on the anchored side.
proof fn lemma_tuple_left_full(s: Seq<u64>, p: u64)
    requires
        s.len() >= 1,
        (p as nat) % pow2((s.len() - 1) as nat) == 0,
    ensures
        tuple_left(s, p) == s,
    decreases s.len(),
{
    if s.len() == 1 {
    } else {
        let d = pow2((s.len() - 2) as nat) as int;
        lemma_pow2_pos((s.len() - 2) as nat);
        lemma_pow2_unfold((s.len() - 1) as nat);
        vstd::arithmetic::div_mod::lemma_breakdown(p as int, d, 2);
        vstd::arithmetic::div_mod::lemma_mod_division_less_than_divisor(p as int, d);
        vstd::arithmetic::div_mod::lemma_mod_division_less_than_divisor(p as int / d, 2);
        assert(d * ((p as int / d) % 2) + p as int % d == 0);
        assert((p as int / d) % 2 == 0 && p as int % d == 0) by (nonlinear_arith)
            requires
                d > 0,
                d * ((p as int / d) % 2) + p as int % d == 0,
                0 <= (p as int / d) % 2 < 2,
                0 <= p as int % d < d,
        ;
        assert(!pattern_bit(p, s.len() - 2));
        lemma_tuple_left_full(s.drop_last(), p);
        assert(s.drop_last().push(s.last()) =~= s);
    }
}

/// For every sub-multiset of the set that takes the anchor value, some
/// in-range pattern realizes exactly that sub-multiset as its anchored
/// side.
proof fn lemma_tuple_pattern_for(s: Seq<u64>, m: Multiset<u64>)
    requires
        1 <= s.len() <= 64,
        m.subset_of(s.to_multiset()),
        m.count(s[0]) >= 1,
    ensures
        exists|p: u64|
            (p as nat) < pow2((s.len() - 1) as nat) && (#[trigger] tuple_left(
                s,
                p,
            )).to_multiset() == m,
    decreases s.len(),
{
    broadcast use vstd::seq_lib::group_to_multiset_ensures;

    if s.len() == 1 {
        assert(s.drop_last() =~= Seq::<u64>::empty());
        assert(s.drop_last().push(s[0]) =~= s);
        assert(s.to_multiset() == Seq::<u64>::empty().to_multiset().insert(s[0]));
        assert(Seq::<u64>::empty().to_multiset().len() == 0);
        assert(s.to_multiset() =~= Multiset::<u64>::empty().insert(s[0]));
        assert forall|y: u64| m.count(y) == s.to_multiset().count(y) by {
            if y == s[0] {
                assert(m.count(y) <= s.to_multiset().count(y));
            } else {
                assert(s.to_multiset().count(y) == 0);
            }
        }
        assert(m =~= s.to_multiset());
        lemma_pow2_pos((s.len() - 1) as nat);
        assert(tuple_left(s, 0u64) == s);
        assert((0u64 as nat) < pow2((s.len() - 1) as nat) && tuple_left(s, 0u64).to_multiset()
            == m);
    } else {
        let dl = s.drop_last();
        let last = s.last();
        assert(dl.push(last) =~= s);
        assert(s.to_multiset() == dl.to_multiset().insert(last));
        let c = m.count(last);
        let cdl = dl.to_multiset().count(last);
        assert(s.to_multiset().count(last) == cdl + 1);
        assert(c <= cdl + 1);
        assert(dl[0] == s[0]);
        lemma_pow2_pos((s.len() - 2) as nat);
        lemma_pow2_unfold((s.len() - 1) as nat);
        if c == cdl + 1 {
            // the last element must sit on the anchored side
            let m2 = m.remove(last);
            assert forall|y: u64| m2.count(y) <= dl.to_multiset().count(y) by {
                if y != last {
                    assert(m.count(y) <= s.to_multiset().count(y));
                    assert(s.to_multiset().count(y) == dl.to_multiset().count(y));
                }
            }
            assert(m2.subset_of(dl.to_multiset()));
            assert(m2.count(s[0]) >= 1) by {
                if s[0] == last {
                    assert(cdl >= 1) by {
                        assert(dl.contains(s[0]));
                    }
                }
            }
            lemma_tuple_pattern_for(dl, m2);
            let p = choose|p: u64|
                (p as nat) < pow2((dl.len() - 1) as nat) && (#[trigger] tuple_left(
                    dl,
                    p,
                )).to_multiset() == m2;
            vstd::arithmetic::div_mod::lemma_basic_div(p as int, pow2((s.len() - 2) as nat) as int);
            assert(!pattern_bit(p, s.len() - 2));
            assert(tuple_left(s, p) == tuple_left(dl, p).push(last));
            assert(tuple_left(s, p).to_multiset() == m2.insert(last));
            assert(m2.insert(last) =~= m);
            assert((p as nat) < pow2((s.len() - 1) as nat) && tuple_left(s, p).to_multiset()
                == m);
        } else {
            // the last element goes to the complement
            assert forall|y: u64| m.count(y) <= dl.to_multiset().count(y) by {
                if y != last {
                    assert(m.count(y) <= s.to_multiset().count(y));
                    assert(s.to_multiset().count(y) == dl.to_multiset().count(y));
                }
            }
            assert(m.subset_of(dl.to_multiset()));
            lemma_tuple_pattern_for(dl, m);
            let p0 = choose|p: u64|
                (p as nat) < pow2((dl.len() - 1) as nat) && (#[trigger] tuple_left(
                    dl,
                    p,
                )).to_multiset() == m;
            let d = pow2((s.len() - 2) as nat);
            assert(d <= pow2(62)) by {
                if ((s.len() - 2) as nat) < 62 {
                    lemma_pow2_strictly_increases((s.len() - 2) as nat, 62);
                }
                lemma2_to64_rest();
            }
            assert(pow2(62) == 0x4000_0000_0000_0000) by {
                lemma2_to64_rest();
            }
            let p: u64 = (p0 + d) as u64;
            assert(p as int == p0 + d);
            vstd::arithmetic::div_mod::lemma_fundamental_div_mod_converse_mod(
                p as int,
                d as int,
                1,
                p0 as int,
            );
            vstd::arithmetic::div_mod::lemma_fundamental_div_mod_converse_div(
                p as int,
                d as int,
                1,
                p0 as int,
            );
            assert(p as int / d as int == 1 && p as int % d as int == p0 as int);
            assert(pattern_bit(p, s.len() - 2));
            assert(tuple_left(s, p) == tuple_left(dl, p));
            vstd::arithmetic::div_mod::lemma_small_mod(p0 as nat, d);
            lemma_tuple_sides_mod(dl, p, p0);
            assert(tuple_left(s, p).to_multiset() == m);
            assert((p as nat) < pow2((s.len() - 1) as nat));
            assert((p as nat) < pow2((s.len() - 1) as nat) && tuple_left(s, p).to_multiset()
                == m);
        }
    }
}

/// Enumerates all 2-partitions (all pairs of a non-empty proper subset
/// anchored at the first element, and its complement) of a coin set.
///
/// The maximum size of the set is 64, as the powerset is indexed by a 64-bit
/// pattern.
pub struct TupleIterator {
    pub first: u64,
    pub set: CoinSet,
    pub current_pattern: u64,
    pub max_pattern: u64,
}

impl TupleIterator {
    pub open spec fn wf(&self) -> bool {
        &&& self.set@.len() <= 64
        &&& self.first == (if self.set@.len() == 0 {
            0u64
        } else {
            self.set@[0]
        })
        &&& self.max_pattern as nat == (if self.set@.len() <= 1 {
            0nat
        } else {
            (pow2((self.set@.len() - 1) as nat) - 1) as nat
        })
        &&& 1 <= self.current_pattern
        &&& self.current_pattern <= self.max_pattern + 1
    }

    pub fn new(set: CoinSet) -> (r: TupleIterator)
        requires
            set@.len() <= 64,
        ensures
            r.wf(),
            r.set@ == set@,
            r.current_pattern == 1,
    {
        let first: u64 = if set.len() == 0 {
            0
        } else {
            set[0]
        };
        let len = set.len();
        let max_pattern: u64 = if len <= 1 {
            0
        } else {
            let p = pow2_u64((len - 1) as u64);
            proof {
                lemma_pow2_pos((len - 1) as nat);
            }
            p - 1
        };
        TupleIterator { first, set, current_pattern: 1, max_pattern }
    }

    pub fn next(&mut self) -> (r: Option<(CoinSet, CoinSet)>)
        requires
            old(self).wf(),
        ensures
            final(self).wf(),
            final(self).set@ == old(self).set@,
            final(self).first == old(self).first,
            final(self).max_pattern == old(self).max_pattern,
            old(self).current_pattern > old(self).max_pattern ==> r is None
                && final(self).current_pattern == old(self).current_pattern,
            old(self).current_pattern <= old(self).max_pattern ==> {
                &&& final(self).current_pattern == old(self).current_pattern + 1
                &&& r matches Some(t) && t.0@ == tuple_left(
                    old(self).set@,
                    old(self).current_pattern,
                ) && t.1@ == tuple_right(old(self).set@, old(self).current_pattern)
            },
    {
        if self.current_pattern > self.max_pattern {
            return None;
        }
        let ghost pat = self.current_pattern;
        proof {
            assert(self.set@.len() >= 2);
        }
        let mut left_set: Vec<u64> = Vec::new();
        left_set.push(self.first);
        let mut right_set: Vec<u64> = Vec::new();
        let mut cur: u64 = self.current_pattern;
        let mut index: usize = 1;
        proof {
            assert(self.set@.take(1) =~= seq![self.set@[0]]);
            assert(left_set@ =~= seq![self.set@[0]]);
            assert(pow2(0) == 1) by {
                lemma2_to64();
            }
            assert((index - 1) as nat == 0nat);
            assert(pat as nat / pow2((index - 1) as nat) == pat as nat);
        }
        while index < self.set.len()
            invariant
                self.wf(),
                self.set@.len() >= 2,
                1 <= index <= self.set@.len(),
                pat == self.current_pattern,
                left_set@ == tuple_left(self.set@.take(index as int), pat),
                right_set@ == tuple_right(self.set@.take(index as int), pat),
                cur as nat == pat as nat / pow2((index - 1) as nat),
            decreases self.set@.len() - index,
        {
            let element = self.set[index];
            proof {
                let t1 = self.set@.take(index as int + 1);
                assert(t1.drop_last() =~= self.set@.take(index as int));
                assert(t1.last() == self.set@[index as int]);
                assert(t1.len() == index + 1);
                lemma_pow2_unfold(index as nat);
                lemma_pow2_pos((index - 1) as nat);
                lemma_div_denominator(pat as int, pow2((index - 1) as nat) as int, 2);
            }
            if cur % 2 == 1 {
                right_set.push(element);
            } else {
                left_set.push(element);
            }
            cur = cur / 2;
            index = index + 1;
        }
        proof {
            assert(self.set@.take(self.set@.len() as int) =~= self.set@);
            lemma2_to64_rest();
            assert(pow2(63) == 0x8000_0000_0000_0000);
            if self.set@.len() >= 2 {
                let e: nat = (self.set@.len() - 1) as nat;
                if e < 63 {
                    lemma_pow2_strictly_increases(e, 63);
                }
                assert(pow2(e) <= pow2(63));
                lemma_pow2_pos(e);
                assert(self.max_pattern as nat == (pow2(e) - 1) as nat);
            } else {
                assert(self.max_pattern as nat == 0nat);
            }
            assert(self.max_pattern < 0x8000_0000_0000_0000u64);
        }
        self.current_pattern = self.current_pattern + 1;
        Some((left_set, right_set))
    }
}

/// Copy a coin vector element by element.
pub fn copy_coins(v: &CoinSet) -> (r: CoinSet)
    ensures
        r@ == v@,
{
    let mut r: Vec<u64> = Vec::new();
    let mut i: usize = 0;
    proof {
        assert(v@.take(0) =~= Seq::<u64>::empty());
    }
    while i < v.len()
        invariant
            0 <= i <= v@.len(),
            r@ == v@.take(i as int),
        decreases v@.len() - i,
    {
        r.push(v[i]);
        proof {
            assert(v@.take(i as int + 1) =~= v@.take(i as int).push(v@[i as int]));
        }
        i = i + 1;
    }
    proof {
        assert(v@.take(v@.len() as int) =~= v@);
    }
    r
}

/// The multiset of all elements of all parts of a partition.
pub open spec fn parts_union(pp: Seq<Seq<u64>>) -> Multiset<u64>
    decreases pp.len(),
{
    if pp.len() == 0 {
        Multiset::empty()
    } else {
        pp[0].to_multiset().add(parts_union(pp.drop_first()))
    }
}

pub proof fn lemma_parts_union_push(pp: Seq<Seq<u64>>, q: Seq<u64>)
    ensures
        parts_union(pp.push(q)) == parts_union(pp).add(q.to_multiset()),
    decreases pp.len(),
{
    if pp.len() == 0 {
        assert(pp.push(q)[0] == q);
        assert(pp.push(q).drop_first() =~= Seq::<Seq<u64>>::empty());
        assert(parts_union(pp.push(q).drop_first()) == Multiset::<u64>::empty());
        assert(q.to_multiset().add(Multiset::<u64>::empty()) =~= Multiset::<u64>::empty().add(
            q.to_multiset(),
        ));
    } else {
        assert(pp.push(q)[0] == pp[0]);
        assert(pp.push(q).drop_first() =~= pp.drop_first().push(q));
        lemma_parts_union_push(pp.drop_first(), q);
        assert(pp[0].to_multiset().add(parts_union(pp.drop_first()).add(q.to_multiset())) =~= (
        pp[0].to_multiset().add(parts_union(pp.drop_first()))).add(q.to_multiset()));
    }
}

/// What is promised of every partition the enumerator yields over set `s`
/// and filter `f`: at least one part, every part non-empty, the parts
/// reassemble `s` exactly as a multiset, and every part's sum is admitted
/// by the filter. A yield with a single part is always the trivial
/// partition.
pub open spec fn yielded_partition_ok<F: Filter<u64>>(
    s: Seq<u64>,
    f: &F,
    pp: Seq<Seq<u64>>,
) -> bool {
    &&& pp.len() >= 1
    &&& parts_union(pp) == s.to_multiset()
    &&& forall|i: int| 0 <= i < pp.len() ==> seq_sum(#[trigger] pp[i]) <= u64::MAX
    &&& forall|i: int| 0 <= i < pp.len() ==> #[trigger] pp[i].len() >= 1
    &&& forall|i: int| 0 <= i < pp.len() ==> f.spec_contains(seq_sum(#[trigger] pp[i]) as u64)
    &&& (pp.len() == 1 ==> pp[0] == s)
}

/// An upper bound on the number of polling steps an enumerator over a set
/// of `n` coins can take before it is exhausted.
pub open spec fn iter_cap(n: nat) -> nat
    decreases n,
{
    if n == 0 {
        1
    } else {
        (pow2((n - 1) as nat) + 1) * (iter_cap((n - 1) as nat) + 1)
    }
}

pub proof fn lemma_iter_cap_pos(n: nat)
    ensures
        iter_cap(n) >= 1,
    decreases n,
{
    if n > 0 {
        lemma_iter_cap_pos((n - 1) as nat);
        lemma_pow2_pos((n - 1) as nat);
        let a = pow2((n - 1) as nat) + 1;
        let b = iter_cap((n - 1) as nat) + 1;
        assert(a * b >= 1) by (nonlinear_arith)
            requires
                a >= 1,
                b >= 1,
        ;
    }
}

pub proof fn lemma_iter_cap_monotone(m: nat, n: nat)
    requires
        m <= n,
    ensures
        iter_cap(m) <= iter_cap(n),
    decreases n,
{
    lemma_iter_cap_pos(m);
    if m < n {
        lemma_iter_cap_monotone(m, (n - 1) as nat);
        lemma_pow2_pos((n - 1) as nat);
        let a = pow2((n - 1) as nat) + 1;
        let b = iter_cap((n - 1) as nat) + 1;
        assert(a * b >= b) by (nonlinear_arith)
            requires
                a >= 1,
                b >= 0,
        ;
    }
}

/// The trivial partition of a non-empty `s` into one part meets the yield
/// contract once the filter admits the total sum.
pub proof fn lemma_trivial_partition_ok<F: Filter<u64>>(s: Seq<u64>, f: &F, pp: Seq<Seq<u64>>)
    requires
        pp.len() == 1,
        pp[0] == s,
        s.len() >= 1,
        seq_sum(s) <= u64::MAX,
        f.spec_contains(seq_sum(s) as u64),
    ensures
        yielded_partition_ok(s, f, pp),
{
    assert(pp.drop_first() =~= Seq::<Seq<u64>>::empty());
    assert(parts_union(pp.drop_first()) == Multiset::<u64>::empty());
    assert(parts_union(pp) == s.to_multiset().add(Multiset::<u64>::empty()));
    assert(s.to_multiset().add(Multiset::<u64>::empty()) =~= s.to_multiset());
}

/// The admissibility predicate of a filter, as a plain function of the
/// queried value; the enumeration order below is phrased over it.
pub open spec fn filter_pred<F: Filter<u64>>(f: &F) -> spec_fn(u64) -> bool {
    |v: u64| f.spec_contains(v)
}

/// The predicate `pred` admits the sum of the part `p`.
pub open spec fn admits(pred: spec_fn(u64) -> bool, p: Seq<u64>) -> bool {
    pred(seq_sum(p) as u64)
}

/// The largest tuple pattern of a set: `2^(n-1) - 1` for `n >= 2` coins,
/// none otherwise.
pub open spec fn tuple_max(s: Seq<u64>) -> int {
    if s.len() <= 1 {
        0
    } else {
        pow2((s.len() - 1) as nat) - 1
    }
}

/// Append the part `l` to every partition of the sequence.
pub open spec fn push_map(pps: Seq<Seq<Seq<u64>>>, l: Seq<u64>) -> Seq<Seq<Seq<u64>>> {
    pps.map_values(|pp: Seq<Seq<u64>>| pp.push(l))
}

/// The trailing trivial yield: the one-part partition of `s`, when `s` is
/// non-empty and its total sum is admitted.
pub open spec fn trivial_yield(s: Seq<u64>, pred: spec_fn(u64) -> bool) -> Seq<Seq<Seq<u64>>> {
    if s.len() >= 1 && admits(pred, s) {
        seq![seq![s]]
    } else {
        Seq::empty()
    }
}

/// The partitions contributed by the tuple patterns from `p` upward: for
/// each pattern whose anchored side is admitted, every enumerated
/// partition of the complement extended by that side.
pub open spec fn splits_from(s: Seq<u64>, pred: spec_fn(u64) -> bool, p: int) -> Seq<
    Seq<Seq<u64>>,
>
    decreases s.len(), tuple_max(s) + 1 - p,
{
    if p < 1 || p > tuple_max(s) {
        Seq::empty()
    } else {
        proof {
            lemma_pow2_pos((s.len() - 1) as nat);
            lemma_tuple_split(s, p as u64);
        }
        (if admits(pred, tuple_left(s, p as u64)) {
            push_map(enumerate_rec(tuple_right(s, p as u64), pred), tuple_left(s, p as u64))
        } else {
            Seq::empty()
        }) + splits_from(s, pred, p + 1)
    }
}

/// The complete output of the enumerator over `s` and an admissibility
/// predicate, in yield order: the anchored splits in pattern order, each
/// paired depth-first with the enumeration of its complement, and the
/// trivial partition last.
pub open spec fn enumerate_rec(s: Seq<u64>, pred: spec_fn(u64) -> bool) -> Seq<Seq<Seq<u64>>>
    decreases s.len(), tuple_max(s) + 2,
{
    proof {
        if s.len() >= 2 {
            lemma_pow2_pos((s.len() - 1) as nat);
        }
    }
    splits_from(s, pred, 1) + trivial_yield(s, pred)
}

pub proof fn lemma_push_map_split(a: Seq<Seq<Seq<u64>>>, b: Seq<Seq<Seq<u64>>>, l: Seq<u64>)
    ensures
        push_map(a + b, l) == push_map(a, l) + push_map(b, l),
{
    assert(push_map(a + b, l) =~= push_map(a, l) + push_map(b, l));
}

pub proof fn lemma_push_map_single(x: Seq<Seq<u64>>, l: Seq<u64>)
    ensures
        push_map(seq![x], l) == seq![x.push(l)],
{
    assert(push_map(seq![x], l) =~= seq![x.push(l)]);
}

/// Every extension of an enumerated complement partition by an admitted
/// anchored side occurs in the splits section from any earlier pattern on.
proof fn lemma_splits_contains(s: Seq<u64>, pred: spec_fn(u64) -> bool, q: int, p: int, k: int)
    requires
        1 <= q <= p,
        p <= tuple_max(s),
        admits(pred, tuple_left(s, p as u64)),
        0 <= k < enumerate_rec(tuple_right(s, p as u64), pred).len(),
    ensures
        exists|idx: int|
            0 <= idx < splits_from(s, pred, q).len() && #[trigger] splits_from(s, pred, q)[idx]
                == enumerate_rec(tuple_right(s, p as u64), pred)[k].push(
                tuple_left(s, p as u64),
            ),
    decreases p - q,
{
    let head = if admits(pred, tuple_left(s, q as u64)) {
        push_map(enumerate_rec(tuple_right(s, q as u64), pred), tuple_left(s, q as u64))
    } else {
        Seq::<Seq<Seq<u64>>>::empty()
    };
    assert(splits_from(s, pred, q) == head + splits_from(s, pred, q + 1));
    let target = enumerate_rec(tuple_right(s, p as u64), pred)[k].push(tuple_left(s, p as u64));
    if q == p {
        assert(head[k] == target);
        assert(splits_from(s, pred, q)[k] == target);
        assert(0 <= k < splits_from(s, pred, q).len() && splits_from(s, pred, q)[k] == target);
    } else {
        lemma_splits_contains(s, pred, q + 1, p, k);
        let idx0 = choose|idx: int|
            0 <= idx < splits_from(s, pred, q + 1).len() && #[trigger] splits_from(
                s,
                pred,
                q + 1,
            )[idx] == target;
        assert(splits_from(s, pred, q)[head.len() + idx0] == target);
        assert(0 <= head.len() + idx0 < splits_from(s, pred, q).len() && splits_from(
            s,
            pred,
            q,
        )[head.len() + idx0] == target);
    }
}

/// A partition as a bag of bags: the order of the parts and the order
/// within each part both forgotten.
pub open spec fn partition_bag(pp: Seq<Seq<u64>>) -> Multiset<Multiset<u64>> {
    pp.map_values(|p: Seq<u64>| p.to_multiset()).to_multiset()
}

pub proof fn lemma_partition_bag_push(pp: Seq<Seq<u64>>, l: Seq<u64>)
    ensures
        partition_bag(pp.push(l)) == partition_bag(pp).insert(l.to_multiset()),
{
    broadcast use vstd::seq_lib::group_to_multiset_ensures;

    assert(pp.push(l).map_values(|p: Seq<u64>| p.to_multiset()) =~= pp.map_values(
        |p: Seq<u64>| p.to_multiset(),
    ).push(l.to_multiset()));
}

pub proof fn lemma_partition_bag_remove(pp: Seq<Seq<u64>>, j: int)
    requires
        0 <= j < pp.len(),
    ensures
        partition_bag(pp.remove(j)) == partition_bag(pp).remove(pp[j].to_multiset()),
        partition_bag(pp).count(pp[j].to_multiset()) >= 1,
{
    broadcast use vstd::seq_lib::group_to_multiset_ensures;

    let mapped = pp.map_values(|p: Seq<u64>| p.to_multiset());
    assert(pp.remove(j).map_values(|p: Seq<u64>| p.to_multiset()) =~= mapped.remove(j));
    assert(mapped[j] == pp[j].to_multiset());
    assert(mapped.contains(pp[j].to_multiset()));
}

/// Removing one part splits the multiset union of a partition.
pub proof fn lemma_parts_union_remove(pp: Seq<Seq<u64>>, j: int)
    requires
        0 <= j < pp.len(),
    ensures
        parts_union(pp) == pp[j].to_multiset().add(parts_union(pp.remove(j))),
    decreases j,
{
    if j == 0 {
        assert(pp.remove(0) =~= pp.drop_first());
    } else {
        assert(pp.remove(j)[0] == pp[0]);
        assert(pp.remove(j).drop_first() =~= pp.drop_first().remove(j - 1));
        lemma_parts_union_remove(pp.drop_first(), j - 1);
        assert(pp.drop_first()[j - 1] == pp[j]);
        assert(pp[0].to_multiset().add(
            pp[j].to_multiset().add(parts_union(pp.drop_first().remove(j - 1))),
        ) =~= pp[j].to_multiset().add(
            pp[0].to_multiset().add(parts_union(pp.drop_first().remove(j - 1))),
        ));
    }
}

/// A value occurring in the union of a partition occurs in some part.
pub proof fn lemma_parts_union_member(pp: Seq<Seq<u64>>, x: u64)
    requires
        parts_union(pp).count(x) > 0,
    ensures
        exists|j: int| 0 <= j < pp.len() && (#[trigger] pp[j]).to_multiset().count(x) > 0,
    decreases pp.len(),
{
    if pp.len() == 0 {
        assert(false);
    } else if pp[0].to_multiset().count(x) > 0 {
        assert(0 <= 0 < pp.len() && pp[0].to_multiset().count(x) > 0);
    } else {
        lemma_parts_union_member(pp.drop_first(), x);
        let j = choose|j: int|
            0 <= j < pp.drop_first().len() && (#[trigger] pp.drop_first()[j]).to_multiset().count(
                x,
            ) > 0;
        assert(pp.drop_first()[j] == pp[j + 1]);
        assert((pp[j + 1]).to_multiset().count(x) > 0);
    }
}

/// How many patterns a tuple enumerator has left to hand out.
pub open spec fn remaining_patterns(ti: TupleIterator) -> nat {
    if ti.current_pattern <= ti.max_pattern + 1 {
        (ti.max_pattern + 1 - ti.current_pattern) as nat
    } else {
        0
    }
}

enum IterResult<T> {
    End,
    Skip,
    Element(T),
}

/// Given a set and a filter, enumerate the partitions of the set whose
/// parts have sums admitted by the filter, by pairing each admissible
/// anchored subset with the recursively enumerated partitions of its
/// complement. The output is pinned exactly: a fresh enumerator yields
/// `enumerate_rec` of its set and filter, element by element, and
/// `lemma_enumerate_complete` shows no admissible partition is missed.
pub struct SumFilteredPartitionIterator<'a, F: Filter<u64>> {
    pub set: CoinSet,
    pub filter: &'a F,
    pub tuple_iterator: TupleIterator,
    pub left_set: Option<CoinSet>,
    pub left_set_sum: u64,
    pub right_partitions_iterator: Option<Box<SumFilteredPartitionIterator<'a, F>>>,
}

impl<'a, F: Filter<u64>> SumFilteredPartitionIterator<'a, F> {
    pub open spec fn wf(&self) -> bool
        decreases self.set@.len(),
    {
        &&& self.set@.len() <= 64
        &&& seq_sum(self.set@) <= u64::MAX
        &&& self.filter.inv()
        &&& self.tuple_iterator.wf()
        &&& self.tuple_iterator.set@ == self.set@
        &&& match self.left_set {
            Some(l) => {
                &&& self.left_set_sum as int == seq_sum(l@)
                &&& match self.right_partitions_iterator {
                    Some(r) => {
                        &&& r.set@.len() < self.set@.len()
                        &&& r.set@.len() >= 1
                        &&& l@.len() >= 1
                        &&& self.tuple_iterator.current_pattern >= 2
                        &&& l@ == tuple_left(
                            self.set@,
                            (self.tuple_iterator.current_pattern - 1) as u64,
                        )
                        &&& r.set@ == tuple_right(
                            self.set@,
                            (self.tuple_iterator.current_pattern - 1) as u64,
                        )
                        &&& l@.to_multiset().add(r.set@.to_multiset()) == self.set@.to_multiset()
                        &&& r.filter == self.filter
                        &&& r.wf()
                    },
                    None => l@ == self.set@ && l@.len() >= 1,
                }
            },
            None => self.right_partitions_iterator is None,
        }
    }

    /// A strictly decreasing bound on the polling steps left in this
    /// enumerator and all its nested ones.
    pub open spec fn measure(&self) -> nat
        decreases self.set@.len(),
    {
        match self.left_set {
            None => 0,
            Some(_) => {
                let n = self.set@.len();
                let cap1 = if n >= 1 {
                    iter_cap((n - 1) as nat)
                } else {
                    0
                };
                remaining_patterns(self.tuple_iterator) * (cap1 + 1) + (
                match self.right_partitions_iterator {
                    Some(r) => if r.set@.len() < self.set@.len() {
                        r.measure()
                    } else {
                        0
                    },
                    None => 0,
                }) + 1
            },
        }
    }

    /// The exact sequence of yields this enumerator will still produce, in
    /// order: what is left of the current nested enumeration under the
    /// current left set, then the splits of the patterns not yet drawn,
    /// then the trivial partition.
    pub open spec fn remaining(&self) -> Seq<Seq<Seq<u64>>>
        decreases self.set@.len(),
    {
        match self.left_set {
            None => Seq::empty(),
            Some(l) => (if admits(filter_pred(self.filter), l@) {
                match self.right_partitions_iterator {
                    Some(r) => if r.set@.len() < self.set@.len() {
                        push_map(r.remaining(), l@)
                    } else {
                        Seq::empty()
                    },
                    None => Seq::empty(),
                }
            } else {
                Seq::empty()
            }) + splits_from(
                self.set@,
                filter_pred(self.filter),
                self.tuple_iterator.current_pattern as int,
            ) + trivial_yield(self.set@, filter_pred(self.filter)),
        }
    }

    pub proof fn lemma_measure_le_cap(&self)
        requires
            self.wf(),
        ensures
            self.measure() <= iter_cap(self.set@.len()),
        decreases self.set@.len(),
    {
        let n = self.set@.len();
        lemma_iter_cap_pos(n);
        match self.left_set {
            None => {},
            Some(l) => {
                let cap1 = if n >= 1 {
                    iter_cap((n - 1) as nat)
                } else {
                    0
                };
                let rem = remaining_patterns(self.tuple_iterator);
                let nested: nat = match self.right_partitions_iterator {
                    Some(r) => if r.set@.len() < self.set@.len() {
                        r.measure()
                    } else {
                        0
                    },
                    None => 0,
                };
                match self.right_partitions_iterator {
                    Some(r) => {
                        r.lemma_measure_le_cap();
                        lemma_iter_cap_monotone(r.set@.len(), (n - 1) as nat);
                    },
                    None => {},
                }
                if n >= 1 {
                    lemma_iter_cap_pos((n - 1) as nat);
                }
                assert(nested <= cap1);
                if n <= 1 {
                    assert(self.tuple_iterator.max_pattern == 0);
                    assert(rem == 0);
                    lemma_iter_cap_pos(n);
                    assert(self.measure() == nested + 1);
                    if n == 1 {
                        assert(iter_cap(1) == (pow2(0) + 1) * (iter_cap(0) + 1));
                        assert(pow2(0) == 1) by {
                            lemma2_to64();
                        }
                        assert(iter_cap(1) == 2 * 2) by (nonlinear_arith)
                            requires
                                iter_cap(1) == (pow2(0) + 1) * (iter_cap(0) + 1),
                                pow2(0) == 1,
                                iter_cap(0) == 1,
                        ;
                    }
                } else {
                    let p = pow2((n - 1) as nat);
                    assert(self.tuple_iterator.max_pattern as nat == (p - 1) as nat);
                    lemma_pow2_pos((n - 1) as nat);
                    assert(rem <= (p - 1) as nat + 1 - 1);
                    assert(iter_cap(n) == (p + 1) * (cap1 + 1));
                    assert(rem * (cap1 + 1) + nested + 1 <= (p + 1) * (cap1 + 1))
                        by (nonlinear_arith)
                        requires
                            rem <= p - 1,
                            nested <= cap1,
                            cap1 >= 1,
                            p >= 1,
                    ;
                    assert(self.measure() == rem * (cap1 + 1) + nested + 1);
                }
            },
        }
    }

    pub fn new(set: CoinSet, filter: &'a F) -> (r: Self)
        requires
            set@.len() <= 64,
            seq_sum(set@) <= u64::MAX,
            filter.inv(),
        ensures
            r.wf(),
            r.set@ == set@,
            r.filter == filter,
            r.remaining() == enumerate_rec(set@, filter_pred(filter)),
        decreases set@.len(),
    {
        let ghost fp = filter_pred(filter);
        let copied = copy_coins(&set);
        let mut tuple_iterator = TupleIterator::new(copied);
        if set.len() == 0 {
            // The empty set has no partition into non-empty parts: the
            // enumerator starts exhausted.
            let r = SumFilteredPartitionIterator {
                set,
                filter,
                tuple_iterator,
                left_set_sum: 0,
                left_set: None,
                right_partitions_iterator: None,
            };
            proof {
                assert(splits_from(r.set@, fp, 1) == Seq::<Seq<Seq<u64>>>::empty());
                assert(r.remaining() =~= enumerate_rec(r.set@, fp));
            }
            return r;
        }
        match tuple_iterator.next() {
            // This case is triggered when the set is a singleton: the only
            // partition is the trivial one.
            None => {
                let s = sum_u64(set.as_slice());
                let left = copy_coins(&set);
                let r = SumFilteredPartitionIterator {
                    set,
                    filter,
                    tuple_iterator,
                    left_set_sum: s,
                    left_set: Some(left),
                    right_partitions_iterator: None,
                };
                proof {
                    assert(splits_from(r.set@, fp, 1) == Seq::<Seq<Seq<u64>>>::empty());
                    assert(r.remaining() =~= enumerate_rec(r.set@, fp));
                }
                r
            },
            // Otherwise iterate over the pairs of an anchored subset and a
            // recursion into the partitions of its complement.
            Some(t) => {
                let (left, right) = t;
                proof {
                    assert(tuple_iterator.max_pattern >= 1);
                    assert(set@.len() >= 2);
                    lemma_pow2_pos((set@.len() - 1) as nat);
                    assert((1 as nat) < pow2((set@.len() - 1) as nat));
                    lemma_tuple_split(set@, 1);
                    lemma_tuple_right_nonempty(set@, 1);
                    lemma_seq_sum_nonneg(tuple_right(set@, 1));
                    lemma_seq_sum_nonneg(tuple_left(set@, 1));
                }
                let ls = sum_u64(left.as_slice());
                let nested = SumFilteredPartitionIterator::new(right, filter);
                let r = SumFilteredPartitionIterator {
                    set,
                    filter,
                    tuple_iterator,
                    left_set_sum: ls,
                    left_set: Some(left),
                    right_partitions_iterator: Some(Box::new(nested)),
                };
                proof {
                    assert(1 <= tuple_max(r.set@));
                    assert(splits_from(r.set@, fp, 1) == (if admits(fp, tuple_left(r.set@, 1)) {
                        push_map(enumerate_rec(tuple_right(r.set@, 1), fp), tuple_left(r.set@, 1))
                    } else {
                        Seq::<Seq<Seq<u64>>>::empty()
                    }) + splits_from(r.set@, fp, 2));
                    assert(r.remaining() =~= enumerate_rec(r.set@, fp));
                }
                r
            },
        }
    }

    /// Install a freshly drawn subset/complement pair as the new left set
    /// and nested enumerator.
    fn advance(&mut self, left: CoinSet, right: CoinSet, Ghost(pat): Ghost<u64>)
        requires
            old(self).set@.len() <= 64,
            seq_sum(old(self).set@) <= u64::MAX,
            old(self).filter.inv(),
            old(self).tuple_iterator.wf(),
            old(self).tuple_iterator.set@ == old(self).set@,
            old(self).set@.len() >= 2,
            left@ == tuple_left(old(self).set@, pat),
            right@ == tuple_right(old(self).set@, pat),
            1 <= pat,
            pat as int == old(self).tuple_iterator.current_pattern - 1,
            (pat as nat) < pow2((old(self).set@.len() - 1) as nat),
        ensures
            final(self).wf(),
            final(self).set@ == old(self).set@,
            final(self).filter == old(self).filter,
            final(self).tuple_iterator == old(self).tuple_iterator,
            final(self).left_set == Some(left),
            ({
                final(self).right_partitions_iterator matches Some(r) && r.set@ == right@
                    && r.remaining() == enumerate_rec(right@, filter_pred(old(self).filter))
            }),
            final(self).measure() <= remaining_patterns(final(self).tuple_iterator) * (iter_cap(
                (old(self).set@.len() - 1) as nat,
            ) + 1) + iter_cap((old(self).set@.len() - 1) as nat) + 1,
    {
        proof {
            lemma_tuple_split(old(self).set@, pat);
            lemma_tuple_right_nonempty(old(self).set@, pat);
            lemma_seq_sum_nonneg(right@);
            lemma_seq_sum_nonneg(left@);
        }
        let ls = sum_u64(left.as_slice());
        let nested = SumFilteredPartitionIterator::new(right, self.filter);
        proof {
            nested.lemma_measure_le_cap();
            lemma_iter_cap_monotone(nested.set@.len(), (old(self).set@.len() - 1) as nat);
        }
        self.left_set = Some(left);
        self.left_set_sum = ls;
        self.right_partitions_iterator = Some(Box::new(nested));
    }

    /// One polling step: yield the next admissible partition, ask to be
    /// polled again, or report exhaustion.
    fn step(&mut self) -> (r: IterResult<Partition>)
        requires
            old(self).wf(),
        ensures
            final(self).wf(),
            final(self).set@ == old(self).set@,
            final(self).filter == old(self).filter,
            final(self).measure() <= old(self).measure(),
            match r {
                IterResult::Element(p) => yielded_partition_ok(
                    final(self).set@,
                    final(self).filter,
                    p.deep_view(),
                ) && final(self).measure() < old(self).measure() && old(self).remaining() == seq![
                    p.deep_view(),
                ] + final(self).remaining(),
                IterResult::Skip => final(self).measure() < old(self).measure()
                    && final(self).remaining() == old(self).remaining(),
                IterResult::End => old(self).remaining() == Seq::<Seq<Seq<u64>>>::empty()
                    && final(self).remaining() == Seq::<Seq<Seq<u64>>>::empty(),
            },
        decreases old(self).set@.len(), 0nat,
    {
        let ghost pre = *old(self);
        let left_set = match &self.left_set {
            Some(s) => copy_coins(s),
            None => {
                return IterResult::End;
            },
        };
        let ghost n = self.set@.len();
        let ghost cap1 = if n >= 1 {
            iter_cap((n - 1) as nat)
        } else {
            0nat
        };
        proof {
            if n >= 1 {
                lemma_iter_cap_pos((n - 1) as nat);
            }
            assert(pre.measure() == remaining_patterns(pre.tuple_iterator) * (cap1 + 1) + (
            match pre.right_partitions_iterator {
                Some(r) => if r.set@.len() < pre.set@.len() {
                    r.measure()
                } else {
                    0nat
                },
                None => 0nat,
            }) + 1);
        }
        let ghost fp = filter_pred(pre.filter);
        let ghost lpre = pre.left_set->Some_0@;
        let ghost cpp = pre.tuple_iterator.current_pattern as int;
        proof {
            assert(seq_sum(lpre) as u64 == pre.left_set_sum);
        }
        let sum_contained = self.filter.contains(&self.left_set_sum);
        proof {
            assert(admits(fp, lpre) == sum_contained);
        }
        if !sum_contained {
            // The current split is inadmissible: draw the next one, or, if
            // the tuple enumerator is depleted, end with the trivial
            // partition if the whole set is admissible.
            match self.tuple_iterator.next() {
                None => {
                    self.left_set = None;
                    self.right_partitions_iterator = None;
                    let set_sum = sum_u64(self.set.as_slice());
                    let sum_contained2 = self.filter.contains(&set_sum);
                    proof {
                        assert(cpp > tuple_max(pre.set@)) by {
                            if pre.set@.len() >= 2 {
                                lemma_pow2_pos((pre.set@.len() - 1) as nat);
                            }
                        }
                        assert(splits_from(pre.set@, fp, cpp) == Seq::<Seq<Seq<u64>>>::empty());
                        assert(pre.remaining() =~= trivial_yield(pre.set@, fp));
                        assert(admits(fp, pre.set@) == sum_contained2);
                    }
                    if sum_contained2 {
                        let whole = copy_coins(&self.set);
                        let mut result: Partition = Vec::new();
                        result.push(whole);
                        proof {
                            lemma_partition_deep_view(result);
                            assert(result.deep_view() =~= seq![pre.set@]);
                            lemma_trivial_partition_ok(pre.set@, pre.filter, result.deep_view());
                            assert(pre.remaining() =~= seq![result.deep_view()]
                                + self.remaining());
                        }
                        IterResult::Element(result)
                    } else {
                        IterResult::End
                    }
                },
                Some(t) => {
                    let (left, right) = t;
                    let ghost pat = pre.tuple_iterator.current_pattern;
                    proof {
                        assert(pre.set@.len() >= 2);
                        lemma_pow2_pos((pre.set@.len() - 1) as nat);
                    }
                    self.advance(left, right, Ghost(pat));
                    proof {
                        let rem_pre = remaining_patterns(pre.tuple_iterator);
                        let rem_new = remaining_patterns(self.tuple_iterator);
                        assert(rem_new == rem_pre - 1);
                        let m_new = self.measure();
                        let m_pre = pre.measure();
                        assert(m_new < m_pre) by (nonlinear_arith)
                            requires
                                m_new <= (rem_pre - 1) * (cap1 + 1) + cap1 + 1,
                                m_pre >= rem_pre * (cap1 + 1) + 1,
                                rem_pre >= 1,
                                cap1 >= 0,
                        ;
                        assert(1 <= cpp && cpp <= tuple_max(pre.set@)) by {
                            lemma_pow2_pos((pre.set@.len() - 1) as nat);
                        }
                        let drawn_split = if admits(fp, tuple_left(pre.set@, pat)) {
                            push_map(
                                enumerate_rec(tuple_right(pre.set@, pat), fp),
                                tuple_left(pre.set@, pat),
                            )
                        } else {
                            Seq::<Seq<Seq<u64>>>::empty()
                        };
                        assert(cpp as u64 == pat);
                        assert(splits_from(pre.set@, fp, cpp) == drawn_split + splits_from(
                            pre.set@,
                            fp,
                            cpp + 1,
                        ));
                        assert(pre.remaining() =~= drawn_split + splits_from(pre.set@, fp, cpp + 1)
                            + trivial_yield(pre.set@, fp));
                        assert(self.remaining() =~= drawn_split + splits_from(pre.set@, fp, cpp + 1)
                            + trivial_yield(pre.set@, fp));
                    }
                    IterResult::Skip
                },
            }
        } else {
            // The left set is admissible: poll the nested enumerator on the
            // complement for its next partition.
            let next_partition = match &mut self.right_partitions_iterator {
                Some(iter) => iter.next(),
                None => None,
            };
            match next_partition {
                // Extend the partition of the complement with the left set.
                Some(mut partition) => {
                    let ghost before = partition;
                    partition.push(left_set);
                    proof {
                        lemma_partition_deep_view_push(before, partition, left_set);
                        let ppr = before.deep_view();
                        let pp = partition.deep_view();
                        let l = left_set@;
                        let rset = pre.right_partitions_iterator->Some_0.set@;
                        lemma_parts_union_push(ppr, l);
                        assert(parts_union(pp) == parts_union(ppr).add(l.to_multiset()));
                        assert(rset.to_multiset().add(l.to_multiset()) =~= l.to_multiset().add(
                            rset.to_multiset(),
                        ));
                        assert(parts_union(pp) == pre.set@.to_multiset());
                        assert(forall|i: int|
                            0 <= i < ppr.len() ==> pp[i] == #[trigger] ppr[i]);
                        assert(pp[pp.len() - 1] == l);
                        assert(seq_sum(l) == pre.left_set_sum as int);
                        assert(pre.filter.spec_contains(pre.left_set_sum));
                        assert forall|i: int| 0 <= i < pp.len() implies pre.filter.spec_contains(
                            seq_sum(#[trigger] pp[i]) as u64,
                        ) by {
                            if i < ppr.len() {
                                assert(pp[i] == ppr[i]);
                            } else {
                                assert(seq_sum(pp[i]) as u64 == pre.left_set_sum);
                            }
                        }
                        assert(yielded_partition_ok(pre.set@, pre.filter, pp));
                        let rpre = pre.right_partitions_iterator->Some_0;
                        let rnew = self.right_partitions_iterator->Some_0;
                        assert(admits(fp, lpre));
                        assert(lpre == l);
                        assert(rpre.remaining() == seq![ppr] + rnew.remaining());
                        lemma_push_map_split(seq![ppr], rnew.remaining(), lpre);
                        lemma_push_map_single(ppr, lpre);
                        assert(pre.remaining() =~= push_map(rpre.remaining(), lpre)
                            + splits_from(pre.set@, fp, cpp) + trivial_yield(pre.set@, fp));
                        assert(self.remaining() =~= push_map(rnew.remaining(), lpre)
                            + splits_from(pre.set@, fp, cpp) + trivial_yield(pre.set@, fp));
                        assert(pre.remaining() =~= seq![pp] + self.remaining());
                    }
                    IterResult::Element(partition)
                },
                // The nested enumerator is exhausted: advance the tuple
                // enumerator, or, if it too is depleted, end with the
                // trivial partition when the filter admits the total sum.
                None => {
                    proof {
                        if pre.right_partitions_iterator is Some {
                            assert(push_map(
                                pre.right_partitions_iterator->Some_0.remaining(),
                                lpre,
                            ) =~= Seq::<Seq<Seq<u64>>>::empty());
                        }
                    }
                    match self.tuple_iterator.next() {
                        None => {
                            self.left_set = None;
                            self.right_partitions_iterator = None;
                            let set_sum = sum_u64(self.set.as_slice());
                            let whole_contained = self.filter.contains(&set_sum);
                            proof {
                                assert(cpp > tuple_max(pre.set@)) by {
                                    if pre.set@.len() >= 2 {
                                        lemma_pow2_pos((pre.set@.len() - 1) as nat);
                                    }
                                }
                                assert(splits_from(pre.set@, fp, cpp) == Seq::<
                                    Seq<Seq<u64>>,
                                >::empty());
                                assert(pre.remaining() =~= trivial_yield(pre.set@, fp));
                                assert(admits(fp, pre.set@) == whole_contained);
                            }
                            if whole_contained {
                                let whole = copy_coins(&self.set);
                                let mut result: Partition = Vec::new();
                                result.push(whole);
                                proof {
                                    lemma_partition_deep_view(result);
                                    assert(result.deep_view() =~= seq![pre.set@]);
                                    lemma_trivial_partition_ok(
                                        pre.set@,
                                        pre.filter,
                                        result.deep_view(),
                                    );
                                    assert(pre.remaining() =~= seq![result.deep_view()]
                                        + self.remaining());
                                }
                                IterResult::Element(result)
                            } else {
                                IterResult::End
                            }
                        },
                        Some(t) => {
                            let (left, right) = t;
                            let ghost pat = pre.tuple_iterator.current_pattern;
                            proof {
                                assert(pre.set@.len() >= 2);
                                lemma_pow2_pos((pre.set@.len() - 1) as nat);
                            }
                            self.advance(left, right, Ghost(pat));
                            proof {
                                let rem_pre = remaining_patterns(pre.tuple_iterator);
                                let rem_new = remaining_patterns(self.tuple_iterator);
                                assert(rem_new == rem_pre - 1);
                                let m_new = self.measure();
                                let m_pre = pre.measure();
                                assert(m_new < m_pre) by (nonlinear_arith)
                                    requires
                                        m_new <= (rem_pre - 1) * (cap1 + 1) + cap1 + 1,
                                        m_pre >= rem_pre * (cap1 + 1) + 1,
                                        rem_pre >= 1,
                                        cap1 >= 0,
                                ;
                            }
                            IterResult::Skip
                        },
                    }
                },
            }
        }
    }

    /// Yield the next admissible partition, or report that the enumeration
    /// is over: exactly the head of what remains, which becomes empty
    /// precisely when the enumeration is done.
    pub fn next(&mut self) -> (r: Option<Partition>)
        requires
            old(self).wf(),
        ensures
            final(self).wf(),
            final(self).set@ == old(self).set@,
            final(self).filter == old(self).filter,
            final(self).measure() <= old(self).measure(),
            r matches Some(p) ==> yielded_partition_ok(
                final(self).set@,
                final(self).filter,
                p.deep_view(),
            ) && final(self).measure() < old(self).measure() && old(self).remaining() == seq![
                p.deep_view(),
            ] + final(self).remaining(),
            r is None ==> old(self).remaining() == Seq::<Seq<Seq<u64>>>::empty()
                && final(self).remaining() == Seq::<Seq<Seq<u64>>>::empty(),
        decreases old(self).set@.len(), 1nat,
    {
        loop
            invariant
                self.wf(),
                self.set@ == old(self).set@,
                self.filter == old(self).filter,
                self.measure() <= old(self).measure(),
                self.remaining() == old(self).remaining(),
            decreases self.measure(),
        {
            match self.step() {
                IterResult::Element(p) => {
                    return Some(p);
                },
                IterResult::End => {
                    return None;
                },
                IterResult::Skip => {},
            }
        }
    }

    /// Drain the enumerator into a vector of partitions: exactly what
    /// remained, in order.
    pub fn collect_partitions(&mut self) -> (r: Vec<Partition>)
        requires
            old(self).wf(),
        ensures
            final(self).wf(),
            final(self).set@ == old(self).set@,
            final(self).filter == old(self).filter,
            r.deep_view() == old(self).remaining(),
            final(self).remaining() == Seq::<Seq<Seq<u64>>>::empty(),
            forall|k: int|
                0 <= k < r@.len() ==> yielded_partition_ok(
                    old(self).set@,
                    old(self).filter,
                    #[trigger] r@[k].deep_view(),
                ),
    {
        let mut result: Vec<Partition> = Vec::new();
        proof {
            crate::views::lemma_partition_vec_deep_view(result);
            assert(result.deep_view() + self.remaining() =~= old(self).remaining());
        }
        loop
            invariant
                self.wf(),
                self.set@ == old(self).set@,
                self.filter == old(self).filter,
                result.deep_view() + self.remaining() == old(self).remaining(),
                forall|k: int|
                    0 <= k < result@.len() ==> yielded_partition_ok(
                        old(self).set@,
                        old(self).filter,
                        #[trigger] result@[k].deep_view(),
                    ),
            decreases self.measure(),
        {
            let ghost result_dv = result.deep_view();
            let ghost mid = self.remaining();
            match self.next() {
                Some(p) => {
                    let ghost before = result;
                    result.push(p);
                    proof {
                        crate::views::lemma_partition_vec_deep_view_push(before, result, p);
                        assert(mid == seq![p.deep_view()] + self.remaining());
                        assert(result.deep_view() + self.remaining() =~= result_dv + mid);
                    }
                },
                None => {
                    proof {
                        assert(result.deep_view() =~= result.deep_view() + self.remaining());
                    }
                    return result;
                },
            }
        }
    }
}

/// Law: the enumeration is complete. Every decomposition of `s` into
/// non-empty parts whose sums the predicate admits occurs in the
/// enumerated output, partitions compared as bags of parts and parts as
/// bags of coins.
pub proof fn lemma_enumerate_complete(s: Seq<u64>, pred: spec_fn(u64) -> bool, pp: Seq<Seq<u64>>)
    requires
        s.len() <= 64,
        pp.len() >= 1,
        forall|i: int| 0 <= i < pp.len() ==> (#[trigger] pp[i]).len() >= 1,
        parts_union(pp) == s.to_multiset(),
        forall|i: int| 0 <= i < pp.len() ==> admits(pred, #[trigger] pp[i]),
    ensures
        exists|k: int|
            0 <= k < enumerate_rec(s, pred).len() && partition_bag(
                #[trigger] enumerate_rec(s, pred)[k],
            ) == partition_bag(pp),
    decreases s.len(),
{
    broadcast use vstd::seq_lib::group_to_multiset_ensures;

    assert(parts_union(pp).len() >= 1) by {
        lemma_parts_union_remove(pp, 0);
    }
    assert(s.len() >= 1);
    if pp.len() == 1 {
        assert(pp.drop_first() =~= Seq::<Seq<u64>>::empty());
        assert(parts_union(pp.drop_first()) == Multiset::<u64>::empty());
        assert(pp[0].to_multiset().add(Multiset::<u64>::empty()) =~= pp[0].to_multiset());
        assert(pp[0].to_multiset() == s.to_multiset());
        crate::sums::lemma_seq_sum_permutation(pp[0], s);
        assert(admits(pred, s));
        assert(trivial_yield(s, pred) == seq![seq![s]]);
        let k = splits_from(s, pred, 1).len() as int;
        assert(enumerate_rec(s, pred)[k] == seq![s]);
        assert(partition_bag(seq![s]) =~= partition_bag(pp)) by {
            assert(seq![s].map_values(|p: Seq<u64>| p.to_multiset()) =~= seq![s.to_multiset()]);
            assert(pp.map_values(|p: Seq<u64>| p.to_multiset()) =~= seq![pp[0].to_multiset()]);
        }
        assert(0 <= k < enumerate_rec(s, pred).len() && partition_bag(enumerate_rec(s, pred)[k])
            == partition_bag(pp));
    } else {
        let s0 = s[0];
        assert(s.contains(s0));
        assert(s.to_multiset().count(s0) > 0);
        lemma_parts_union_member(pp, s0);
        let j = choose|j: int|
            0 <= j < pp.len() && (#[trigger] pp[j]).to_multiset().count(s0) > 0;
        let m = pp[j].to_multiset();
        lemma_parts_union_remove(pp, j);
        assert forall|y: u64| m.count(y) <= s.to_multiset().count(y) by {
            assert(s.to_multiset().count(y) == m.count(y) + parts_union(pp.remove(j)).count(y));
        }
        assert(m.subset_of(s.to_multiset()));
        // a second, distinct part keeps the anchored side proper
        assert(parts_union(pp.remove(j)).len() >= 1) by {
            lemma_parts_union_remove(pp.remove(j), 0);
            assert(pp.remove(j)[0].len() >= 1) by {
                if j == 0 {
                    assert(pp.remove(j)[0] == pp[1]);
                } else {
                    assert(pp.remove(j)[0] == pp[0]);
                }
            }
        }
        lemma_tuple_pattern_for(s, m);
        let p = choose|p: u64|
            (p as nat) < pow2((s.len() - 1) as nat) && (#[trigger] tuple_left(
                s,
                p,
            )).to_multiset() == m;
        let lft = tuple_left(s, p);
        let rgt = tuple_right(s, p);
        lemma_tuple_split(s, p);
        assert(p >= 1) by {
            if p == 0 {
                vstd::arithmetic::div_mod::lemma_small_mod(0nat, pow2((s.len() - 1) as nat));
                lemma_pow2_pos((s.len() - 1) as nat);
                lemma_tuple_left_full(s, 0u64);
                assert(m.len() + parts_union(pp.remove(j)).len() == s.to_multiset().len());
                assert(m.len() < s.to_multiset().len());
                assert(m.len() == s.to_multiset().len());
            }
        }
        assert(p as int <= tuple_max(s)) by {
            lemma_pow2_pos((s.len() - 1) as nat);
        }
        // the left side is admitted because its bag equals the chosen part
        crate::sums::lemma_seq_sum_permutation(lft, pp[j]);
        assert(admits(pred, lft));
        // the rest of the partition decomposes the complement
        let pp2 = pp.remove(j);
        assert forall|y: u64| parts_union(pp2).count(y) == rgt.to_multiset().count(y) by {
            assert(s.to_multiset().count(y) == m.count(y) + parts_union(pp2).count(y));
            assert(s.to_multiset().count(y) == lft.to_multiset().count(y)
                + rgt.to_multiset().count(y));
        }
        assert(parts_union(pp2) =~= rgt.to_multiset());
        assert forall|i: int| 0 <= i < pp2.len() implies (#[trigger] pp2[i]).len() >= 1
            && admits(pred, pp2[i]) by {
            if i < j {
                assert(pp2[i] == pp[i]);
            } else {
                assert(pp2[i] == pp[i + 1]);
            }
        }
        assert(rgt.len() < s.len());
        lemma_enumerate_complete(rgt, pred, pp2);
        let k2 = choose|k: int|
            0 <= k < enumerate_rec(rgt, pred).len() && partition_bag(
                #[trigger] enumerate_rec(rgt, pred)[k],
            ) == partition_bag(pp2);
        lemma_splits_contains(s, pred, 1, p as int, k2);
        let idx = choose|idx: int|
            0 <= idx < splits_from(s, pred, 1).len() && #[trigger] splits_from(s, pred, 1)[idx]
                == enumerate_rec(rgt, pred)[k2].push(lft);
        assert(enumerate_rec(s, pred)[idx] == enumerate_rec(rgt, pred)[k2].push(lft));
        lemma_partition_bag_push(enumerate_rec(rgt, pred)[k2], lft);
        lemma_partition_bag_remove(pp, j);
        assert(partition_bag(enumerate_rec(rgt, pred)[k2].push(lft)) == partition_bag(
            pp2,
        ).insert(m));
        assert(partition_bag(pp2).insert(m) =~= partition_bag(pp));
        assert(0 <= idx < enumerate_rec(s, pred).len() && partition_bag(
            enumerate_rec(s, pred)[idx],
        ) == partition_bag(pp));
    }
}

/// Law: distinct in-range patterns put a different set of positions on the
/// complement side, so each unordered 2-partition of the positions is
/// enumerated exactly once.
pub open spec fn right_index_set(n: int, pattern: u64) -> Set<int> {
    Set::new(|i: int| 1 <= i < n && pattern_bit(pattern, i - 1))
}

proof fn lemma_differing_bit(p1: u64, p2: u64, k: nat)
    requires
        p1 != p2,
        (p1 as nat) < pow2(k),
        (p2 as nat) < pow2(k),
    ensures
        exists|b: nat| b < k && pattern_bit(p1, b as int) != pattern_bit(p2, b as int),
    decreases k,
{
    lemma_pow2_pos(k);
    assert(pow2(0) == 1) by {
        lemma2_to64();
    }
    if k == 0 {
        assert((p1 as nat) < 1 && (p2 as nat) < 1);
        assert(false);
    } else if p1 % 2 != p2 % 2 {
        let zero: int = 0;
        assert(zero as nat == 0nat);
        assert(pow2(zero as nat) == 1);
        assert(p1 as nat / pow2(zero as nat) == p1 as nat) by {
            vstd::arithmetic::div_mod::lemma_div_basics(p1 as int);
        }
        assert(p2 as nat / pow2(zero as nat) == p2 as nat) by {
            vstd::arithmetic::div_mod::lemma_div_basics(p2 as int);
        }
        assert(pattern_bit(p1, zero) == (p1 as nat % 2 == 1));
        assert(pattern_bit(p2, zero) == (p2 as nat % 2 == 1));
        assert(0nat < k && pattern_bit(p1, 0nat as int) != pattern_bit(p2, 0nat as int));
    } else {
        let q1 = p1 / 2;
        let q2 = p2 / 2;
        assert(q1 != q2);
        lemma_pow2_unfold(k);
        assert((q1 as nat) < pow2((k - 1) as nat) && (q2 as nat) < pow2((k - 1) as nat)) by {
            assert(p1 as int == 2 * (q1 as int) + (p1 as int % 2));
            assert(p2 as int == 2 * (q2 as int) + (p2 as int % 2));
        }
        lemma_differing_bit(q1, q2, (k - 1) as nat);
        let b = choose|b: nat|
            b < (k - 1) as nat && pattern_bit(q1, b as int) != pattern_bit(q2, b as int);
        lemma_pow2_pos(b);
        lemma_pow2_unfold((b + 1) as nat);
        lemma_div_denominator(p1 as int, 2, pow2(b) as int);
        lemma_div_denominator(p2 as int, 2, pow2(b) as int);
        assert(pattern_bit(p1, b as int + 1) == pattern_bit(q1, b as int));
        assert(pattern_bit(p2, b as int + 1) == pattern_bit(q2, b as int));
        assert(((b + 1) as nat) < k && pattern_bit(p1, (b + 1) as int) != pattern_bit(
            p2,
            (b + 1) as int,
        ));
    }
}

pub proof fn lemma_tuple_patterns_distinct(n: int, p1: u64, p2: u64)
    requires
        2 <= n <= 64,
        1 <= p1,
        1 <= p2,
        p1 != p2,
        (p1 as nat) < pow2((n - 1) as nat),
        (p2 as nat) < pow2((n - 1) as nat),
    ensures
        right_index_set(n, p1) != right_index_set(n, p2),
{
    lemma_differing_bit(p1, p2, (n - 1) as nat);
    let b = choose|b: nat|
        b < (n - 1) as nat && pattern_bit(p1, b as int) != pattern_bit(p2, b as int);
    let i = b as int + 1;
    assert(1 <= i < n);
    assert(right_index_set(n, p1).contains(i) == pattern_bit(p1, b as int));
    assert(right_index_set(n, p2).contains(i) == pattern_bit(p2, b as int));
    assert(right_index_set(n, p1).contains(i) != right_index_set(n, p2).contains(i));
}

} // verus!
