use vstd::prelude::*;

verus! {

use crate::types::CoinSet;
use crate::types::Partition;
use crate::types::Filter;
use crate::sums::seq_sum;
use crate::sums::is_subset_sum_of;
use crate::sums::mask_sum;
use crate::sums::sum_u64;
use crate::sums::pow2_u128;
use crate::sums::lemma_seq_sum_nonneg;
use crate::sums::lemma_seq_sum_take_le;
use crate::sums::lemma_subset_sum_bounds;
use crate::sums::lemma_subset_sum_total;
use crate::sums::lemma_subset_sum_has_mask;
use crate::sums::lemma_mask_sum_push;
use crate::sums::lemma_mask_sum_bounds;
use vstd::arithmetic::power2::pow2;
use vstd::arithmetic::power2::lemma_pow2_unfold;
use vstd::arithmetic::power2::lemma_pow2_pos;
use vstd::arithmetic::power2::lemma2_to64;
use vstd::arithmetic::power2::lemma2_to64_rest;
use vstd::arithmetic::div_mod::lemma_div_denominator;
use vstd::slice::slice_subrange;
use crate::views::lemma_partition_vec_deep_view;

/// Solve the decision version of subset sum by brute force, returning true
/// exactly when `sum` can be expressed by summing a subset of `set`.
/// Complexity is exponential in the size of the set.
pub fn is_subset_sum(set: &[u64], sum: &u64) -> (r: bool)
    requires
        seq_sum(set@) <= u64::MAX,
    ensures
        r == is_subset_sum_of(set@, *sum as int),
    decreases set@.len(),
{
    if *sum == 0u64 {
        return true;
    }
    if set.len() == 0 {
        return false;
    }
    if set.len() == 1 {
        proof {
            assert(set@.drop_first().len() == 0);
            assert(!is_subset_sum_of(set@.drop_first(), *sum as int));
            assert(is_subset_sum_of(set@.drop_first(), *sum - set@[0]) == (*sum - set@[0] == 0));
        }
        return set[0] == *sum;
    }
    let head = set[0];
    let t = *sum;
    if head == t {
        proof {
            assert(is_subset_sum_of(set@.drop_first(), t - set@[0]));
        }
        return true;
    }
    let tail = slice_subrange(set, 1, set.len());
    proof {
        assert(tail@ =~= set@.drop_first());
        lemma_seq_sum_nonneg(tail@);
        assert(seq_sum(set@) == set@[0] + seq_sum(set@.drop_first()));
    }
    let tail_sum: u64 = sum_u64(tail);
    if head > t {
        proof {
            if is_subset_sum_of(tail@, t - head) {
                lemma_subset_sum_bounds(tail@, t - head);
            }
        }
        if tail_sum < t {
            proof {
                if is_subset_sum_of(tail@, t as int) {
                    lemma_subset_sum_bounds(tail@, t as int);
                }
            }
            return false;
        }
        return is_subset_sum(tail, &t);
    }
    let remaining: u64 = t - head;
    if tail_sum == t || tail_sum == remaining {
        proof {
            lemma_subset_sum_total(tail@);
        }
        return true;
    }
    if tail_sum < remaining {
        proof {
            if is_subset_sum_of(tail@, remaining as int) {
                lemma_subset_sum_bounds(tail@, remaining as int);
            }
            if is_subset_sum_of(tail@, t as int) {
                lemma_subset_sum_bounds(tail@, t as int);
            }
        }
        return false;
    }
    let from_remaining = is_subset_sum(tail, &remaining);
    if from_remaining {
        return true;
    }
    if tail_sum > t {
        return is_subset_sum(tail, &t);
    }
    proof {
        if is_subset_sum_of(tail@, t as int) {
            lemma_subset_sum_bounds(tail@, t as int);
        }
    }
    false
}

/// Enumerates the sumset of a given set, one value per subset, in bitmask
/// order of the subsets.
pub struct SubsetSumIterator<'a> {
    pub set: &'a CoinSet,
    pub set_size: u64,
    pub power_set_size: u128,
    pub pattern: u128,
}

impl<'a> SubsetSumIterator<'a> {
    pub open spec fn wf(&self) -> bool {
        &&& self.set@.len() <= 64
        &&& seq_sum(self.set@) <= u64::MAX
        &&& self.set_size == self.set@.len()
        &&& self.power_set_size as nat == pow2(self.set@.len() as nat)
        &&& self.pattern <= self.power_set_size
    }

    pub fn new(set: &'a CoinSet) -> (r: SubsetSumIterator<'a>)
        requires
            set@.len() <= 64,
            seq_sum(set@) <= u64::MAX,
        ensures
            r.wf(),
            r.set@ == set@,
            r.pattern == 0,
    {
        let set_size = set.len();
        let power = pow2_u128(set_size as u64);
        SubsetSumIterator { set, set_size: set_size as u64, power_set_size: power, pattern: 0 }
    }

    pub fn next(&mut self) -> (r: Option<u64>)
        requires
            old(self).wf(),
        ensures
            final(self).wf(),
            final(self).set@ == old(self).set@,
            old(self).pattern == old(self).power_set_size ==> r is None && final(self).pattern
                == old(self).pattern,
            old(self).pattern < old(self).power_set_size ==> {
                &&& final(self).pattern == old(self).pattern + 1
                &&& r matches Some(v) && v as int == mask_sum(
                    old(self).set@,
                    old(self).pattern as nat,
                )
            },
    {
        if self.pattern >= self.power_set_size {
            return None;
        }
        let ghost m = self.pattern as nat;
        let mut acc: u64 = 0;
        let mut cur: u128 = self.pattern;
        let mut i: usize = 0;
        proof {
            assert(self.set@.take(0) =~= Seq::<u64>::empty());
            assert(pow2(0) == 1) by {
                lemma2_to64();
            }
        }
        while i < self.set.len()
            invariant
                self.wf(),
                0 <= i <= self.set@.len(),
                m == self.pattern as nat,
                acc as int == mask_sum(self.set@.take(i as int), m),
                cur as nat == m / pow2(i as nat),
            decreases self.set@.len() - i,
        {
            proof {
                assert(self.set@.take(i as int + 1) =~= self.set@.take(i as int).push(
                    self.set@[i as int],
                ));
                lemma_mask_sum_push(self.set@.take(i as int), m, self.set@[i as int]);
                lemma_pow2_unfold((i + 1) as nat);
                lemma_pow2_pos(i as nat);
                lemma_div_denominator(m as int, pow2(i as nat) as int, 2);
                lemma_mask_sum_bounds(self.set@.take(i as int + 1), m);
                lemma_seq_sum_take_le(self.set@, i as int + 1);
                lemma_mask_sum_bounds(self.set@.take(i as int), m);
            }
            if cur % 2 == 1 {
                acc = acc + self.set[i];
            }
            cur = cur / 2;
            i = i + 1;
        }
        proof {
            assert(self.set@.take(self.set@.len() as int) =~= self.set@);
            assert(pow2(64) == 0x1_0000_0000_0000_0000) by {
                lemma2_to64_rest();
            }
            assert(pow2(self.set@.len() as nat) <= pow2(64)) by {
                if ((self.set@.len() as nat) < 64) {
                    vstd::arithmetic::power2::lemma_pow2_strictly_increases(
                        self.set@.len() as nat,
                        64,
                    );
                }
            }
        }
        self.pattern = self.pattern + 1;
        Some(acc)
    }
}

/// The bloom crate's standard filter, carried opaquely; its contents are
/// tracked through `bloom_elems`.
#[verifier::external_type_specification]
#[verifier::external_body]
#[verifier::reject_recursive_types(R)]
#[verifier::reject_recursive_types(S)]
pub struct ExBloomFilter<R, S>(bloom::BloomFilter<R, S>);

/// The set of values inserted into a bloom filter so far.
pub uninterp spec fn bloom_elems(filter: bloom::BloomFilter) -> Set<u64>;

/// The number of bits the filter was created with.
pub uninterp spec fn bloom_bit_count(filter: bloom::BloomFilter) -> usize;

/// Relies on bloom::BloomFilter::with_size: a fresh filter of the given
/// geometry reports the requested bit count and has nothing inserted.
#[verifier::external_body]
fn bloom_with_size(num_bits: usize, num_hashes: u32) -> (f: bloom::BloomFilter)
    requires
        num_bits >= 1,
    ensures
        bloom_elems(f) == Set::<u64>::empty(),
        bloom_bit_count(f) == num_bits,
{
    bloom::BloomFilter::with_size(num_bits, num_hashes)
}

/// Relies on bloom::ASMS::insert for BloomFilter: inserting an item only
/// sets bits, so it marks the item present and never unmarks another; the
/// call panics only on a filter with zero bits, which the precondition
/// rules out.
#[verifier::external_body]
fn bloom_insert(filter: &mut bloom::BloomFilter, item: &u64)
    requires
        bloom_bit_count(*old(filter)) >= 1,
    ensures
        bloom_elems(*final(filter)) == bloom_elems(*old(filter)).insert(*item),
        bloom_bit_count(*final(filter)) == bloom_bit_count(*old(filter)),
{
    bloom::ASMS::insert(filter, item);
}

/// Relies on bloom::ASMS::contains for BloomFilter: no false negatives, so
/// an item that was inserted is always reported present; false positives
/// are possible, so nothing is promised of other items. The call panics
/// only on a filter with zero bits, which the precondition rules out.
#[verifier::external_body]
fn bloom_contains(filter: &bloom::BloomFilter, item: &u64) -> (r: bool)
    requires
        bloom_bit_count(*filter) >= 1,
    ensures
        bloom_elems(*filter).contains(*item) ==> r,
{
    bloom::ASMS::contains(filter, item)
}

/// Geometry for a bloom filter expected to hold about `expected` items: ten
/// bits and seven hash functions per item approximate the target
/// false-positive rate of one percent. The rate is only a performance
/// heuristic; exactness comes from the second stage of each filter.
fn bloom_geometry(expected: u32) -> (r: (usize, u32))
    ensures
        r.0 >= 1,
{
    let capped: u32 = if expected > 100_000_000 {
        100_000_000
    } else {
        expected
    };
    let floored: u32 = if capped < 1 {
        1
    } else {
        capped
    };
    ((floored as usize) * 10, 7)
}

/// `mask_sum` truncated to a machine word; the sums inserted at filter
/// construction are in range, so no truncation actually occurs there.
pub open spec fn mask_sum_u64(s: Seq<u64>, m: nat) -> u64 {
    mask_sum(s, m) as u64
}

/// The admissible set of `SubsetSumsFilter` over the reference set `r`, as
/// a plain predicate on queried values.
pub open spec fn subset_sums_pred(r: Seq<u64>) -> spec_fn(u64) -> bool {
    |v: u64| is_subset_sum_of(r, v as int)
}

/// Match sums in the sumset of a given set: a bloom filter built over the
/// full sumset answers definite negatives, and the exact oracle settles the
/// rest.
pub struct SubsetSumsFilter<'a> {
    pub set: &'a CoinSet,
    pub bloom_filter: bloom::BloomFilter,
}

impl<'a> SubsetSumsFilter<'a> {
    /// Initialize the filter. Exponential in the size of the set, since the
    /// full sumset is enumerated to fill the bloom filter.
    pub fn new(set: &'a CoinSet) -> (r: SubsetSumsFilter<'a>)
        requires
            set@.len() <= 64,
            seq_sum(set@) <= u64::MAX,
        ensures
            r.inv(),
            r.set@ == set@,
    {
        let geometry = bloom_geometry(set.len() as u32);
        let mut filter = bloom_with_size(geometry.0, geometry.1);
        let mut iter = SubsetSumIterator::new(set);
        loop
            invariant
                iter.wf(),
                iter.set@ == set@,
                set@.len() <= 64,
                seq_sum(set@) <= u64::MAX,
                bloom_bit_count(filter) >= 1,
                forall|m: nat|
                    m < iter.pattern as nat ==> bloom_elems(filter).contains(
                        #[trigger] mask_sum_u64(set@, m),
                    ),
            ensures
                bloom_bit_count(filter) >= 1,
                forall|m: nat|
                    m < pow2(set@.len() as nat) ==> bloom_elems(filter).contains(
                        #[trigger] mask_sum_u64(set@, m),
                    ),
            decreases iter.power_set_size - iter.pattern,
        {
            let ghost prev = iter.pattern as nat;
            match iter.next() {
                Some(element) => {
                    proof {
                        lemma_mask_sum_bounds(set@, prev);
                        assert(mask_sum_u64(set@, prev) == element);
                    }
                    bloom_insert(&mut filter, &element);
                }
                None => {
                    break ;
                },
            }
        }
        proof {
            assert forall|t: u64| is_subset_sum_of(set@, t as int) implies bloom_elems(
                filter,
            ).contains(t) by {
                lemma_subset_sum_has_mask(set@, t as int);
                let m = choose|m: nat| m < pow2(set@.len()) && mask_sum(set@, m) == t as int;
                assert(bloom_elems(filter).contains(mask_sum_u64(set@, m)));
                assert(mask_sum_u64(set@, m) == t);
            }
        }
        SubsetSumsFilter { set, bloom_filter: filter }
    }
}

impl<'a> Filter<u64> for SubsetSumsFilter<'a> {
    /// The admissible values are exactly the subset sums of the reference
    /// set.
    open spec fn spec_contains(&self, value: u64) -> bool {
        is_subset_sum_of(self.set@, value as int)
    }

    open spec fn inv(&self) -> bool {
        &&& self.set@.len() <= 64
        &&& seq_sum(self.set@) <= u64::MAX
        &&& bloom_bit_count(self.bloom_filter) >= 1
        &&& forall|t: u64|
            is_subset_sum_of(self.set@, t as int) ==> #[trigger] bloom_elems(
                self.bloom_filter,
            ).contains(t)
    }

    /// Exponential complexity due to re-evaluation of the sumset by the
    /// exact oracle, except when the bloom filter excludes a query.
    fn contains(&self, value: &u64) -> (r: bool) {
        match bloom_contains(&self.bloom_filter, value) {
            false => {
                proof {
                    if is_subset_sum_of(self.set@, *value as int) {
                        assert(bloom_elems(self.bloom_filter).contains(*value));
                    }
                }
                false
            },
            true => is_subset_sum(self.set.as_slice(), value),
        }
    }
}

/// Some part somewhere in the collection of partitions has sum `t`.
pub open spec fn has_part_sum(pp: Seq<Seq<Seq<u64>>>, t: int) -> bool {
    exists|i: int, j: int|
        0 <= i < pp.len() && 0 <= j < pp[i].len() && seq_sum(#[trigger] pp[i][j]) == t
}

/// Every part sum in the collection fits in a machine word.
pub open spec fn part_sums_fit(pp: Seq<Seq<Seq<u64>>>) -> bool {
    forall|i: int, j: int|
        0 <= i < pp.len() && 0 <= j < pp[i].len() ==> seq_sum(#[trigger] pp[i][j]) <= u64::MAX
}

/// A part sum as a machine word; used only where `part_sums_fit` holds.
pub open spec fn part_sum_u64(pp: Seq<Seq<Seq<u64>>>, i: int, j: int) -> u64 {
    seq_sum(pp[i][j]) as u64
}

/// The admissible set of `PartitionsSubsetSumsFilter` over a collection of
/// partitions, as a plain predicate on queried values.
pub open spec fn part_sums_pred(pp: Seq<Seq<Seq<u64>>>) -> spec_fn(u64) -> bool {
    |v: u64| has_part_sum(pp, v as int)
}

/// Match sums among the part sums of a given collection of partitions: a
/// bloom filter answers definite negatives, and a linear scan settles the
/// rest exactly.
pub struct PartitionsSubsetSumsFilter<'a> {
    pub partitions: &'a Vec<Partition>,
    pub bloom_filter: bloom::BloomFilter,
}

impl<'a> PartitionsSubsetSumsFilter<'a> {
    pub fn new(partitions: &'a Vec<Partition>) -> (r: PartitionsSubsetSumsFilter<'a>)
        requires
            part_sums_fit(partitions.deep_view()),
        ensures
            r.inv(),
            r.partitions == partitions,
    {
        let ghost pv = partitions.deep_view();
        proof {
            lemma_partition_vec_deep_view(*partitions);
        }
        // Sizing heuristic: the filter is sized for half the number of
        // coins of the underlying set, read off the first partition;
        // deliberately low, the exact scan corrects the rate.
        let mut coins: usize = 0;
        if partitions.len() > 0 {
            let firstp = &partitions[0];
            let mut k: usize = 0;
            while k < firstp.len()
                invariant
                    0 <= k <= firstp@.len(),
                decreases firstp@.len() - k,
            {
                let l = firstp[k].len();
                coins = if coins <= usize::MAX - l {
                    coins + l
                } else {
                    usize::MAX
                };
                k = k + 1;
            }
        }
        let capped: usize = if coins > 200_000_000 {
            200_000_000
        } else {
            coins
        };
        let expected: u32 = (capped as u32) / 2;
        let geometry = bloom_geometry(expected);
        let mut filter = bloom_with_size(geometry.0, geometry.1);
        let mut i: usize = 0;
        while i < partitions.len()
            invariant
                0 <= i <= partitions@.len(),
                pv == partitions.deep_view(),
                pv.len() == partitions@.len(),
                part_sums_fit(pv),
                forall|a: int|
                    0 <= a < partitions@.len() ==> #[trigger] pv[a].len() == partitions@[a]@.len(),
                forall|a: int, b: int|
                    0 <= a < partitions@.len() && 0 <= b < partitions@[a]@.len() ==> #[trigger] pv[a][b]
                        == partitions@[a]@[b]@,
                bloom_bit_count(filter) >= 1,
                forall|a: int, b: int|
                    0 <= a < i && 0 <= b < pv[a].len() ==> bloom_elems(filter).contains(
                        #[trigger] part_sum_u64(pv, a, b),
                    ),
            decreases partitions@.len() - i,
        {
            let partition = &partitions[i];
            let mut j: usize = 0;
            while j < partition.len()
                invariant
                    0 <= i < partitions@.len(),
                    0 <= j <= partition@.len(),
                    partition@ == partitions@[i as int]@,
                    pv == partitions.deep_view(),
                    pv.len() == partitions@.len(),
                    part_sums_fit(pv),
                    forall|a: int|
                        0 <= a < partitions@.len() ==> #[trigger] pv[a].len()
                            == partitions@[a]@.len(),
                    forall|a: int, b: int|
                        0 <= a < partitions@.len() && 0 <= b < partitions@[a]@.len()
                            ==> #[trigger] pv[a][b] == partitions@[a]@[b]@,
                    bloom_bit_count(filter) >= 1,
                    forall|a: int, b: int|
                        0 <= a < i && 0 <= b < pv[a].len() ==> bloom_elems(filter).contains(
                            #[trigger] part_sum_u64(pv, a, b),
                        ),
                    forall|b: int|
                        0 <= b < j ==> bloom_elems(filter).contains(
                            #[trigger] part_sum_u64(pv, i as int, b),
                        ),
                decreases partition@.len() - j,
            {
                proof {
                    assert(pv[i as int][j as int] == partition@[j as int]@);
                }
                let s = sum_u64(partition[j].as_slice());
                proof {
                    assert(part_sum_u64(pv, i as int, j as int) == s);
                }
                bloom_insert(&mut filter, &s);
                j = j + 1;
            }
            i = i + 1;
        }
        PartitionsSubsetSumsFilter { partitions, bloom_filter: filter }
    }
}

impl<'a> Filter<u64> for PartitionsSubsetSumsFilter<'a> {
    /// The admissible values are exactly the part sums occurring in the
    /// collection.
    open spec fn spec_contains(&self, value: u64) -> bool {
        has_part_sum(self.partitions.deep_view(), value as int)
    }

    open spec fn inv(&self) -> bool {
        &&& part_sums_fit(self.partitions.deep_view())
        &&& bloom_bit_count(self.bloom_filter) >= 1
        &&& forall|i: int, j: int|
            0 <= i < self.partitions.deep_view().len() && 0 <= j
                < self.partitions.deep_view()[i].len() ==> bloom_elems(
                self.bloom_filter,
            ).contains(#[trigger] part_sum_u64(self.partitions.deep_view(), i, j))
    }

    /// Complexity is linear in the total number of parts, except when the
    /// bloom filter excludes a query.
    fn contains(&self, value: &u64) -> (r: bool) {
        let ghost pv = self.partitions.deep_view();
        proof {
            lemma_partition_vec_deep_view(*self.partitions);
        }
        if !bloom_contains(&self.bloom_filter, value) {
            proof {
                if has_part_sum(pv, *value as int) {
                    let (i, j) = choose|i: int, j: int|
                        0 <= i < pv.len() && 0 <= j < pv[i].len() && seq_sum(pv[i][j])
                            == *value as int;
                    assert(part_sum_u64(pv, i, j) == *value);
                    assert(bloom_elems(self.bloom_filter).contains(*value));
                }
            }
            return false;
        }
        let mut i: usize = 0;
        while i < self.partitions.len()
            invariant
                0 <= i <= self.partitions@.len(),
                pv == self.partitions.deep_view(),
                pv.len() == self.partitions@.len(),
                part_sums_fit(pv),
                forall|a: int|
                    0 <= a < self.partitions@.len() ==> #[trigger] pv[a].len()
                        == self.partitions@[a]@.len(),
                forall|a: int, b: int|
                    0 <= a < self.partitions@.len() && 0 <= b < self.partitions@[a]@.len()
                        ==> #[trigger] pv[a][b] == self.partitions@[a]@[b]@,
                forall|a: int, b: int|
                    0 <= a < i && 0 <= b < pv[a].len() ==> seq_sum(#[trigger] pv[a][b])
                        != *value as int,
            decreases self.partitions@.len() - i,
        {
            let partition = &self.partitions[i];
            let mut j: usize = 0;
            while j < partition.len()
                invariant
                    0 <= i < self.partitions@.len(),
                    0 <= j <= partition@.len(),
                    partition@ == self.partitions@[i as int]@,
                    pv == self.partitions.deep_view(),
                    pv.len() == self.partitions@.len(),
                    part_sums_fit(pv),
                    forall|a: int|
                        0 <= a < self.partitions@.len() ==> #[trigger] pv[a].len()
                            == self.partitions@[a]@.len(),
                    forall|a: int, b: int|
                        0 <= a < self.partitions@.len() && 0 <= b < self.partitions@[a]@.len()
                            ==> #[trigger] pv[a][b] == self.partitions@[a]@[b]@,
                    forall|b: int|
                        0 <= b < j ==> seq_sum(#[trigger] pv[i as int][b]) != *value as int,
                decreases partition@.len() - j,
            {
                proof {
                    assert(pv[i as int][j as int] == partition@[j as int]@);
                }
                let s = sum_u64(partition[j].as_slice());
                if *value == s {
                    proof {
                        assert(seq_sum(pv[i as int][j as int]) == *value as int);
                        assert(has_part_sum(pv, *value as int));
                    }
                    return true;
                }
                j = j + 1;
            }
            i = i + 1;
        }
        proof {
            if has_part_sum(pv, *value as int) {
                let (a, b) = choose|a: int, b: int|
                    0 <= a < pv.len() && 0 <= b < pv[a].len() && seq_sum(pv[a][b])
                        == *value as int;
                assert(seq_sum(pv[a][b]) != *value as int);
            }
        }
        false
    }
}

} // verus!
