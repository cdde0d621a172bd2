use vstd::prelude::*;

verus! {

use crate::types::CoinSet;
use crate::types::Partition;
use crate::sums::seq_sum;
use crate::sums::sum_u64;
use crate::filters::SubsetSumsFilter;
use crate::filters::PartitionsSubsetSumsFilter;
use crate::filters::part_sums_fit;
use crate::filters::subset_sums_pred;
use crate::filters::part_sums_pred;
use crate::partition::enumerate_rec;
use crate::partition::filter_pred;
use crate::partition::SumFilteredPartitionIterator;
use crate::partition::yielded_partition_ok;
use crate::partition::parts_union;
use crate::partition::copy_coins;
use crate::views::lemma_partition_deep_view;
use crate::views::lemma_partition_vec_deep_view;
use crate::partition::partition_bag;
use vstd::multiset::Multiset;

/// Some part of `b` has sum `t`.
pub open spec fn sum_in_parts(b: Seq<Seq<u64>>, t: int) -> bool {
    exists|j: int| 0 <= j < b.len() && seq_sum(#[trigger] b[j]) == t
}

/// Every part of `a` finds some part of `b` with the same sum. This is the
/// one-way check the matcher performs; parts of `b` may stay unmatched.
pub open spec fn parts_match_spec(a: Seq<Seq<u64>>, b: Seq<Seq<u64>>) -> bool {
    forall|i: int| 0 <= i < a.len() ==> sum_in_parts(b, seq_sum(#[trigger] a[i]))
}

/// Every part sum of the partition fits in a machine word.
pub open spec fn partition_sums_fit(pp: Seq<Seq<u64>>) -> bool {
    forall|i: int| 0 <= i < pp.len() ==> seq_sum(#[trigger] pp[i]) <= u64::MAX
}

/// A partition decomposes `s`: at least one part, all parts non-empty when
/// `s` is, and the parts reassemble `s` exactly as a multiset.
pub open spec fn valid_partition_of(s: Seq<u64>, pp: Seq<Seq<u64>>) -> bool {
    &&& pp.len() >= 1
    &&& parts_union(pp) == s.to_multiset()
    &&& (s.len() >= 1 ==> forall|i: int| 0 <= i < pp.len() ==> #[trigger] pp[i].len() >= 1)
    &&& partition_sums_fit(pp)
}

/// Decide whether each part sum of `a` occurs among the part sums of `b`.
pub fn partitions_match(a: &Partition, b: &Partition) -> (r: bool)
    requires
        partition_sums_fit(a.deep_view()),
        partition_sums_fit(b.deep_view()),
    ensures
        r == parts_match_spec(a.deep_view(), b.deep_view()),
{
    let ghost av = a.deep_view();
    let ghost bv = b.deep_view();
    proof {
        lemma_partition_deep_view(*a);
        lemma_partition_deep_view(*b);
    }
    let mut i: usize = 0;
    while i < a.len()
        invariant
            0 <= i <= a@.len(),
            av == a.deep_view(),
            bv == b.deep_view(),
            av.len() == a@.len(),
            bv.len() == b@.len(),
            forall|k: int| 0 <= k < a@.len() ==> #[trigger] av[k] == a@[k]@,
            forall|k: int| 0 <= k < b@.len() ==> #[trigger] bv[k] == b@[k]@,
            partition_sums_fit(av),
            partition_sums_fit(bv),
            forall|k: int| 0 <= k < i ==> sum_in_parts(bv, seq_sum(#[trigger] av[k])),
        decreases a@.len() - i,
    {
        proof {
            assert(av[i as int] == a@[i as int]@);
            assert(seq_sum(av[i as int]) <= u64::MAX);
        }
        let target = sum_u64(a[i].as_slice());
        let mut found = false;
        let mut j: usize = 0;
        while j < b.len()
            invariant
                0 <= i < a@.len(),
                0 <= j <= b@.len(),
                av == a.deep_view(),
                bv == b.deep_view(),
                av.len() == a@.len(),
                bv.len() == b@.len(),
                forall|k: int| 0 <= k < a@.len() ==> #[trigger] av[k] == a@[k]@,
                forall|k: int| 0 <= k < b@.len() ==> #[trigger] bv[k] == b@[k]@,
                partition_sums_fit(bv),
                target as int == seq_sum(av[i as int]),
                found ==> sum_in_parts(bv, target as int),
                !found ==> forall|jj: int|
                    0 <= jj < j ==> seq_sum(#[trigger] bv[jj]) != target as int,
            decreases b@.len() - j,
    {
            proof {
                assert(bv[j as int] == b@[j as int]@);
                assert(seq_sum(bv[j as int]) <= u64::MAX);
            }
            let s = sum_u64(b[j].as_slice());
            if s == target {
                found = true;
                proof {
                    assert(seq_sum(bv[j as int]) == target as int);
                    assert(sum_in_parts(bv, target as int));
                }
            }
            j = j + 1;
        }
        if !found {
            proof {
                assert(seq_sum(av[i as int]) == target as int);
                assert(!sum_in_parts(bv, seq_sum(av[i as int])));
                assert(!parts_match_spec(av, bv));
            }
            return false;
        }
        i = i + 1;
    }
    proof {
        assert(parts_match_spec(av, bv));
    }
    true
}

/// Copy a partition part by part.
pub fn copy_partition(p: &Partition) -> (r: Partition)
    ensures
        r.deep_view() == p.deep_view(),
{
    let ghost pv = p.deep_view();
    proof {
        lemma_partition_deep_view(*p);
    }
    let mut r: Partition = Vec::new();
    let mut i: usize = 0;
    proof {
        assert(pv.take(0) =~= Seq::<Seq<u64>>::empty());
        lemma_partition_deep_view(r);
        assert(r.deep_view() =~= pv.take(0));
    }
    while i < p.len()
        invariant
            0 <= i <= p@.len(),
            pv == p.deep_view(),
            pv.len() == p@.len(),
            forall|k: int| 0 <= k < p@.len() ==> #[trigger] pv[k] == p@[k]@,
            r.deep_view() == pv.take(i as int),
        decreases p@.len() - i,
    {
        let ghost before = r;
        let part = copy_coins(&p[i]);
        r.push(part);
        proof {
            crate::views::lemma_partition_deep_view_push(before, r, part);
            assert(pv.take(i as int + 1) =~= pv.take(i as int).push(pv[i as int]));
            assert(part@ == pv[i as int]);
        }
        i = i + 1;
    }
    proof {
        assert(pv.take(pv.len() as int) =~= pv);
    }
    r
}

/// The pairs contributed by one input partition `a` against a sequence of
/// output partitions, in order.
pub open spec fn row_pairs(a: Seq<Seq<u64>>, outs: Seq<Seq<Seq<u64>>>) -> Seq<
    (Seq<Seq<u64>>, Seq<Seq<u64>>),
>
    decreases outs.len(),
{
    if outs.len() == 0 {
        Seq::empty()
    } else {
        (if parts_match_spec(a, outs[0]) {
            seq![(a, outs[0])]
        } else {
            Seq::empty()
        }) + row_pairs(a, outs.drop_first())
    }
}

/// All matching pairs of the cross product, input-major, in order.
pub open spec fn matched_pairs_spec(ins: Seq<Seq<Seq<u64>>>, outs: Seq<Seq<Seq<u64>>>) -> Seq<
    (Seq<Seq<u64>>, Seq<Seq<u64>>),
>
    decreases ins.len(),
{
    if ins.len() == 0 {
        Seq::empty()
    } else {
        row_pairs(ins[0], outs) + matched_pairs_spec(ins.drop_first(), outs)
    }
}

pub proof fn lemma_row_pairs_snoc(a: Seq<Seq<u64>>, outs: Seq<Seq<Seq<u64>>>, q: Seq<Seq<u64>>)
    ensures
        row_pairs(a, outs.push(q)) == row_pairs(a, outs) + (if parts_match_spec(a, q) {
            seq![(a, q)]
        } else {
            Seq::empty()
        }),
    decreases outs.len(),
{
    if outs.len() == 0 {
        assert(outs.push(q)[0] == q);
        assert(outs.push(q).drop_first() =~= Seq::<Seq<Seq<u64>>>::empty());
        assert(row_pairs(a, outs.push(q).drop_first()) == Seq::<
            (Seq<Seq<u64>>, Seq<Seq<u64>>),
        >::empty());
        assert(row_pairs(a, outs.push(q)) =~= row_pairs(a, outs) + (if parts_match_spec(a, q) {
            seq![(a, q)]
        } else {
            Seq::<(Seq<Seq<u64>>, Seq<Seq<u64>>)>::empty()
        }));
    } else {
        assert(outs.push(q)[0] == outs[0]);
        assert(outs.push(q).drop_first() =~= outs.drop_first().push(q));
        lemma_row_pairs_snoc(a, outs.drop_first(), q);
        assert(row_pairs(a, outs.push(q)) =~= row_pairs(a, outs) + (if parts_match_spec(a, q) {
            seq![(a, q)]
        } else {
            Seq::<(Seq<Seq<u64>>, Seq<Seq<u64>>)>::empty()
        }));
    }
}

pub proof fn lemma_matched_pairs_snoc(
    ins: Seq<Seq<Seq<u64>>>,
    outs: Seq<Seq<Seq<u64>>>,
    b: Seq<Seq<u64>>,
)
    ensures
        matched_pairs_spec(ins.push(b), outs) == matched_pairs_spec(ins, outs) + row_pairs(
            b,
            outs,
        ),
    decreases ins.len(),
{
    if ins.len() == 0 {
        assert(ins.push(b)[0] == b);
        assert(ins.push(b).drop_first() =~= Seq::<Seq<Seq<u64>>>::empty());
        assert(matched_pairs_spec(ins.push(b).drop_first(), outs) == Seq::<
            (Seq<Seq<u64>>, Seq<Seq<u64>>),
        >::empty());
        assert(matched_pairs_spec(ins, outs) == Seq::<(Seq<Seq<u64>>, Seq<Seq<u64>>)>::empty());
        assert(matched_pairs_spec(ins.push(b), outs) =~= matched_pairs_spec(ins, outs)
            + row_pairs(b, outs));
    } else {
        assert(ins.push(b)[0] == ins[0]);
        assert(ins.push(b).drop_first() =~= ins.drop_first().push(b));
        lemma_matched_pairs_snoc(ins.drop_first(), outs, b);
        assert(matched_pairs_spec(ins.push(b), outs) == row_pairs(ins[0], outs)
            + matched_pairs_spec(ins.drop_first().push(b), outs));
        assert(matched_pairs_spec(ins.drop_first().push(b), outs) == matched_pairs_spec(
            ins.drop_first(),
            outs,
        ) + row_pairs(b, outs));
        assert(matched_pairs_spec(ins, outs) == row_pairs(ins[0], outs) + matched_pairs_spec(
            ins.drop_first(),
            outs,
        ));
        assert(row_pairs(ins[0], outs) + (matched_pairs_spec(ins.drop_first(), outs) + row_pairs(
            b,
            outs,
        )) =~= (row_pairs(ins[0], outs) + matched_pairs_spec(ins.drop_first(), outs)) + row_pairs(
            b,
            outs,
        ));
    }
}

/// `p` is the pair of `a` and some matching output partition.
pub open spec fn pair_from_row(
    a: Seq<Seq<u64>>,
    outs: Seq<Seq<Seq<u64>>>,
    p: (Seq<Seq<u64>>, Seq<Seq<u64>>),
) -> bool {
    exists|j: int|
        0 <= j < outs.len() && p == (a, #[trigger] outs[j]) && parts_match_spec(a, outs[j])
}

/// `p` pairs some input partition with some output partition, and their
/// part sums match.
pub open spec fn pair_from_cross(
    ins: Seq<Seq<Seq<u64>>>,
    outs: Seq<Seq<Seq<u64>>>,
    p: (Seq<Seq<u64>>, Seq<Seq<u64>>),
) -> bool {
    exists|i: int, j: int|
        #![trigger ins[i], outs[j]]
        0 <= i < ins.len() && 0 <= j < outs.len() && p == (ins[i], outs[j]) && parts_match_spec(
            ins[i],
            outs[j],
        )
}

/// Each pair in a row comes from `a` and a matching output partition.
pub proof fn lemma_row_pairs_elems(a: Seq<Seq<u64>>, outs: Seq<Seq<Seq<u64>>>)
    ensures
        forall|k: int|
            0 <= k < row_pairs(a, outs).len() ==> pair_from_row(
                a,
                outs,
                #[trigger] row_pairs(a, outs)[k],
            ),
    decreases outs.len(),
{
    if outs.len() == 0 {
        assert(row_pairs(a, outs).len() == 0);
    } else {
        lemma_row_pairs_elems(a, outs.drop_first());
        let head: Seq<(Seq<Seq<u64>>, Seq<Seq<u64>>)> = if parts_match_spec(a, outs[0]) {
            seq![(a, outs[0])]
        } else {
            Seq::empty()
        };
        let rest = row_pairs(a, outs.drop_first());
        assert(row_pairs(a, outs) == head + rest);
        assert forall|k: int| 0 <= k < row_pairs(a, outs).len() implies pair_from_row(
            a,
            outs,
            #[trigger] row_pairs(a, outs)[k],
        ) by {
            if k < head.len() {
                assert(row_pairs(a, outs)[k] == (a, outs[0]) && parts_match_spec(a, outs[0]));
            } else {
                assert(rest[k - head.len()] == row_pairs(a, outs.drop_first())[k - head.len()]);
                assert(row_pairs(a, outs)[k] == rest[k - head.len()]);
                assert(pair_from_row(a, outs.drop_first(), rest[k - head.len()]));
                let j = choose|j: int|
                    0 <= j < outs.drop_first().len() && rest[k - head.len()] == (
                    a,
                    outs.drop_first()[j],
                ) && parts_match_spec(a, outs.drop_first()[j]);
                assert(outs.drop_first()[j] == outs[j + 1]);
                assert(row_pairs(a, outs)[k] == (a, outs[j + 1]) && parts_match_spec(
                    a,
                    outs[j + 1],
                ));
            }
        }
    }
}

/// Each matched pair comes from an input partition and an output partition
/// whose part sums match.
pub proof fn lemma_matched_pairs_elems(ins: Seq<Seq<Seq<u64>>>, outs: Seq<Seq<Seq<u64>>>)
    ensures
        forall|k: int|
            0 <= k < matched_pairs_spec(ins, outs).len() ==> pair_from_cross(
                ins,
                outs,
                #[trigger] matched_pairs_spec(ins, outs)[k],
            ),
    decreases ins.len(),
{
    if ins.len() == 0 {
        assert(matched_pairs_spec(ins, outs).len() == 0);
    } else {
        lemma_matched_pairs_elems(ins.drop_first(), outs);
        lemma_row_pairs_elems(ins[0], outs);
        let head = row_pairs(ins[0], outs);
        let rest = matched_pairs_spec(ins.drop_first(), outs);
        assert(matched_pairs_spec(ins, outs) == head + rest);
        assert forall|k: int| 0 <= k < matched_pairs_spec(ins, outs).len() implies pair_from_cross(
            ins,
            outs,
            #[trigger] matched_pairs_spec(ins, outs)[k],
        ) by {
            if k < head.len() {
                assert(head[k] == row_pairs(ins[0], outs)[k]);
                assert(pair_from_row(ins[0], outs, row_pairs(ins[0], outs)[k]));
                let j = choose|j: int|
                    0 <= j < outs.len() && row_pairs(ins[0], outs)[k] == (
                    ins[0],
                    outs[j],
                ) && parts_match_spec(ins[0], outs[j]);
                assert(matched_pairs_spec(ins, outs)[k] == (ins[0], outs[j]));
            } else {
                assert(rest[k - head.len()] == matched_pairs_spec(ins.drop_first(), outs)[k
                    - head.len()]);
                assert(pair_from_cross(ins.drop_first(), outs, rest[k - head.len()]));
                let (i, j) = choose|i: int, j: int|
                    #![trigger ins.drop_first()[i], outs[j]]
                    0 <= i < ins.drop_first().len() && 0 <= j < outs.len() && matched_pairs_spec(
                        ins.drop_first(),
                        outs,
                    )[k - head.len()] == (ins.drop_first()[i], outs[j]) && parts_match_spec(
                        ins.drop_first()[i],
                        outs[j],
                    );
                assert(ins.drop_first()[i] == ins[i + 1]);
                assert(matched_pairs_spec(ins, outs)[k] == (ins[i + 1], outs[j])
                    && parts_match_spec(ins[i + 1], outs[j]));
            }
        }
    }
}

/// Collect every matching pair of the cross product of the two partition
/// collections, input-major, in order.
pub fn collect_matching_pairs(
    in_partitions: &Vec<Partition>,
    out_partitions: &Vec<Partition>,
) -> (r: Vec<(Partition, Partition)>)
    requires
        forall|i: int|
            0 <= i < in_partitions.deep_view().len() ==> partition_sums_fit(
                #[trigger] in_partitions.deep_view()[i],
            ),
        forall|i: int|
            0 <= i < out_partitions.deep_view().len() ==> partition_sums_fit(
                #[trigger] out_partitions.deep_view()[i],
            ),
    ensures
        r.deep_view() == matched_pairs_spec(
            in_partitions.deep_view(),
            out_partitions.deep_view(),
        ),
{
    let ghost iv = in_partitions.deep_view();
    let ghost ov = out_partitions.deep_view();
    proof {
        lemma_partition_vec_deep_view(*in_partitions);
        lemma_partition_vec_deep_view(*out_partitions);
    }
    let mut result: Vec<(Partition, Partition)> = Vec::new();
    proof {
        crate::views::lemma_pair_vec_deep_view(result);
        assert(iv.take(0) =~= Seq::<Seq<Seq<u64>>>::empty());
        assert(matched_pairs_spec(iv.take(0), ov).len() == 0);
        assert(result.deep_view() =~= matched_pairs_spec(iv.take(0), ov));
    }
    let mut i: usize = 0;
    while i < in_partitions.len()
        invariant
            0 <= i <= in_partitions@.len(),
            iv == in_partitions.deep_view(),
            ov == out_partitions.deep_view(),
            iv.len() == in_partitions@.len(),
            ov.len() == out_partitions@.len(),
            forall|k: int|
                0 <= k < in_partitions@.len() ==> #[trigger] iv[k]
                    == in_partitions@[k].deep_view(),
            forall|k: int|
                0 <= k < out_partitions@.len() ==> #[trigger] ov[k]
                    == out_partitions@[k].deep_view(),
            forall|k: int| 0 <= k < iv.len() ==> partition_sums_fit(#[trigger] iv[k]),
            forall|k: int| 0 <= k < ov.len() ==> partition_sums_fit(#[trigger] ov[k]),
            result.deep_view() == matched_pairs_spec(iv.take(i as int), ov),
        decreases in_partitions@.len() - i,
    {
        let in_p = &in_partitions[i];
        let mut j: usize = 0;
        proof {
            assert(ov.take(0) =~= Seq::<Seq<Seq<u64>>>::empty());
            assert(row_pairs(iv[i as int], ov.take(0)).len() == 0);
            assert(result.deep_view() =~= matched_pairs_spec(iv.take(i as int), ov) + row_pairs(
                iv[i as int],
                ov.take(0),
            ));
        }
        while j < out_partitions.len()
            invariant
                0 <= i < in_partitions@.len(),
                0 <= j <= out_partitions@.len(),
                iv == in_partitions.deep_view(),
                ov == out_partitions.deep_view(),
                iv.len() == in_partitions@.len(),
                ov.len() == out_partitions@.len(),
                forall|k: int|
                    0 <= k < in_partitions@.len() ==> #[trigger] iv[k]
                        == in_partitions@[k].deep_view(),
                forall|k: int|
                    0 <= k < out_partitions@.len() ==> #[trigger] ov[k]
                        == out_partitions@[k].deep_view(),
                forall|k: int| 0 <= k < iv.len() ==> partition_sums_fit(#[trigger] iv[k]),
                forall|k: int| 0 <= k < ov.len() ==> partition_sums_fit(#[trigger] ov[k]),
                in_p.deep_view() == iv[i as int],
                result.deep_view() == matched_pairs_spec(iv.take(i as int), ov) + row_pairs(
                    iv[i as int],
                    ov.take(j as int),
                ),
            decreases out_partitions@.len() - j,
        {
            let out_p = &out_partitions[j];
            proof {
                assert(out_p.deep_view() == ov[j as int]);
                assert(partition_sums_fit(iv[i as int]));
                assert(partition_sums_fit(ov[j as int]));
            }
            let m = partitions_match(in_p, out_p);
            let ghost before = result;
            if m {
                let pair = (copy_partition(in_p), copy_partition(out_p));
                result.push(pair);
                proof {
                    crate::views::lemma_pair_vec_deep_view_push(before, result, pair);
                    assert(pair.0.deep_view() == iv[i as int]);
                    assert(pair.1.deep_view() == ov[j as int]);
                }
            }
            proof {
                lemma_row_pairs_snoc(iv[i as int], ov.take(j as int), ov[j as int]);
                assert(ov.take(j as int + 1) =~= ov.take(j as int).push(ov[j as int]));
                let x = matched_pairs_spec(iv.take(i as int), ov);
                let row_old = row_pairs(iv[i as int], ov.take(j as int));
                if parts_match_spec(iv[i as int], ov[j as int]) {
                    assert(row_pairs(iv[i as int], ov.take(j as int + 1)) == row_old + seq![
                        (iv[i as int], ov[j as int]),
                    ]);
                    assert(row_old + seq![(iv[i as int], ov[j as int])] =~= row_old.push(
                        (iv[i as int], ov[j as int]),
                    ));
                    assert(x + row_old.push((iv[i as int], ov[j as int])) =~= (x + row_old).push(
                        (iv[i as int], ov[j as int]),
                    ));
                } else {
                    assert(row_pairs(iv[i as int], ov.take(j as int + 1)) == row_old + Seq::<
                        (Seq<Seq<u64>>, Seq<Seq<u64>>),
                    >::empty());
                    assert(row_old + Seq::<(Seq<Seq<u64>>, Seq<Seq<u64>>)>::empty() =~= row_old);
                }
            }
            j = j + 1;
        }
        proof {
            assert(ov.take(ov.len() as int) =~= ov);
            lemma_matched_pairs_snoc(iv.take(i as int), ov, iv[i as int]);
            assert(iv.take(i as int + 1) =~= iv.take(i as int).push(iv[i as int]));
        }
        i = i + 1;
    }
    proof {
        assert(iv.take(iv.len() as int) =~= iv);
    }
    result
}

/// Run the full matching pipeline: enumerate the admissible input
/// partitions against the subset sums of the outputs, enumerate the output
/// partitions against the collected input part sums, and keep the pairs
/// whose part sums match.
/// The mapping set of the matching pipeline over input coins `i` and
/// output coins `o`, exactly: the enumeration of `i` against the subset
/// sums of `o`, the enumeration of `o` against the part sums of the first
/// enumeration, and the matching pairs of their cross product, in order.
pub open spec fn mapping_set_spec(i: Seq<u64>, o: Seq<u64>) -> Seq<
    (Seq<Seq<u64>>, Seq<Seq<u64>>),
> {
    let e_i = enumerate_rec(i, subset_sums_pred(o));
    let e_o = enumerate_rec(o, part_sums_pred(e_i));
    matched_pairs_spec(e_i, e_o)
}

pub fn partition_tuples(in_coins: &CoinSet, out_coins: &CoinSet) -> (r: Vec<
    (Partition, Partition),
>)
    requires
        in_coins@.len() <= 64,
        out_coins@.len() <= 64,
        seq_sum(in_coins@) <= u64::MAX,
        seq_sum(out_coins@) <= u64::MAX,
    ensures
        r.deep_view() == mapping_set_spec(in_coins@, out_coins@),
        forall|k: int|
            0 <= k < r.deep_view().len() ==> {
                let t = #[trigger] r.deep_view()[k];
                parts_match_spec(t.0, t.1) && valid_partition_of(in_coins@, t.0)
                    && valid_partition_of(out_coins@, t.1)
            },
{
    let ghost pred_o = subset_sums_pred(out_coins@);
    let out_filter = SubsetSumsFilter::new(out_coins);
    proof {
        assert(filter_pred(&out_filter) =~= pred_o);
    }
    let mut in_iter = SumFilteredPartitionIterator::new(copy_coins(in_coins), &out_filter);
    let in_partitions = in_iter.collect_partitions();
    let ghost ivv = in_partitions.deep_view();
    proof {
        assert(ivv == enumerate_rec(in_coins@, pred_o));
        lemma_partition_vec_deep_view(in_partitions);
        assert forall|a: int, b: int|
            0 <= a < ivv.len() && 0 <= b < ivv[a].len() implies seq_sum(#[trigger] ivv[a][b])
            <= u64::MAX by {
            assert(ivv[a] == in_partitions@[a].deep_view());
            assert(yielded_partition_ok(in_coins@, &out_filter, in_partitions@[a].deep_view()));
        }
        assert(crate::filters::part_sums_fit(ivv));
    }
    let parts_filter = PartitionsSubsetSumsFilter::new(&in_partitions);
    proof {
        assert(filter_pred(&parts_filter) =~= part_sums_pred(ivv));
    }
    let mut out_iter = SumFilteredPartitionIterator::new(copy_coins(out_coins), &parts_filter);
    let out_partitions = out_iter.collect_partitions();
    let ghost ovv = out_partitions.deep_view();
    proof {
        assert(ovv == enumerate_rec(out_coins@, part_sums_pred(ivv)));
        lemma_partition_vec_deep_view(out_partitions);
        assert forall|a: int| 0 <= a < ivv.len() implies partition_sums_fit(#[trigger] ivv[a]) by {
            assert(ivv[a] == in_partitions@[a].deep_view());
            assert(yielded_partition_ok(in_coins@, &out_filter, in_partitions@[a].deep_view()));
        }
        assert forall|a: int| 0 <= a < ovv.len() implies partition_sums_fit(#[trigger] ovv[a]) by {
            assert(ovv[a] == out_partitions@[a].deep_view());
            assert(yielded_partition_ok(
                out_coins@,
                &parts_filter,
                out_partitions@[a].deep_view(),
            ));
        }
    }
    let result = collect_matching_pairs(&in_partitions, &out_partitions);
    proof {
        assert(result.deep_view() == mapping_set_spec(in_coins@, out_coins@));
        lemma_matched_pairs_elems(ivv, ovv);
        assert forall|k: int| 0 <= k < result.deep_view().len() implies {
            let t = #[trigger] result.deep_view()[k];
            parts_match_spec(t.0, t.1) && valid_partition_of(in_coins@, t.0)
                && valid_partition_of(out_coins@, t.1)
        } by {
            assert(pair_from_cross(ivv, ovv, result.deep_view()[k]));
            let (a, b) = choose|a: int, b: int|
                #![trigger ivv[a], ovv[b]]
                0 <= a < ivv.len() && 0 <= b < ovv.len() && result.deep_view()[k] == (
                ivv[a],
                ovv[b],
                ) && parts_match_spec(ivv[a], ovv[b]);
            assert(ivv[a] == in_partitions@[a].deep_view());
            assert(ovv[b] == out_partitions@[b].deep_view());
            assert(yielded_partition_ok(in_coins@, &out_filter, in_partitions@[a].deep_view()));
            assert(yielded_partition_ok(
                out_coins@,
                &parts_filter,
                out_partitions@[b].deep_view(),
            ));
        }
    }
    result
}

/// The partition of a coin sequence into one singleton part per coin.
pub open spec fn singleton_parts(c: Seq<u64>) -> Seq<Seq<u64>> {
    c.map_values(|v: u64| seq![v])
}

proof fn lemma_singleton_parts_union(c: Seq<u64>)
    ensures
        singleton_parts(c).len() == c.len(),
        forall|i: int| 0 <= i < c.len() ==> #[trigger] singleton_parts(c)[i] == seq![c[i]],
        parts_union(singleton_parts(c)) == c.to_multiset(),
    decreases c.len(),
{
    broadcast use vstd::seq_lib::group_to_multiset_ensures;

    if c.len() == 0 {
        assert(c.to_multiset().len() == 0);
        assert(parts_union(singleton_parts(c)) =~= c.to_multiset());
    } else {
        assert(singleton_parts(c).drop_first() =~= singleton_parts(c.drop_first()));
        lemma_singleton_parts_union(c.drop_first());
        assert(singleton_parts(c)[0] == seq![c[0]]);
        assert(seq![c[0]] =~= Seq::<u64>::empty().push(c[0]));
        assert(seq![c[0]].to_multiset() == Seq::<u64>::empty().to_multiset().insert(c[0]));
        assert(Seq::<u64>::empty().to_multiset().len() == 0);
        assert(c.remove(0) =~= c.drop_first());
        assert(c.remove(0).to_multiset() == c.to_multiset().remove(c[0]));
        assert(c.contains(c[0]));
        assert(c.to_multiset().count(c[0]) > 0);
        assert forall|y: u64|
            parts_union(singleton_parts(c)).count(y) == c.to_multiset().count(y) by {
            assert(c.drop_first().to_multiset().count(y) == c.to_multiset().remove(c[0]).count(
                y,
            ));
        }
        assert(parts_union(singleton_parts(c)) =~= c.to_multiset());
    }
}

/// A bag occurring in a partition's bag of parts belongs to some part.
proof fn lemma_part_with_bag(pp: Seq<Seq<u64>>, b: Multiset<u64>)
    requires
        partition_bag(pp).count(b) > 0,
    ensures
        exists|i: int| 0 <= i < pp.len() && (#[trigger] pp[i]).to_multiset() == b,
{
    broadcast use vstd::seq_lib::group_to_multiset_ensures;

    let mapped = pp.map_values(|p: Seq<u64>| p.to_multiset());
    assert(mapped.contains(b));
    let i = choose|i: int| 0 <= i < mapped.len() && mapped[i] == b;
    assert(0 <= i < pp.len() && pp[i].to_multiset() == b);
}

/// Each part of a partition whose bag equals the singleton bag of `c` is a
/// singleton of some coin of `c`.
proof fn lemma_parts_of_singleton_bag(c: Seq<u64>, pp: Seq<Seq<u64>>, i: int)
    requires
        partition_bag(pp) == partition_bag(singleton_parts(c)),
        0 <= i < pp.len(),
    ensures
        exists|j: int| 0 <= j < c.len() && pp[i] == seq![#[trigger] c[j]],
{
    broadcast use vstd::seq_lib::group_to_multiset_ensures;

    lemma_singleton_parts_union(c);
    let mapped_pp = pp.map_values(|p: Seq<u64>| p.to_multiset());
    let mapped_c = singleton_parts(c).map_values(|p: Seq<u64>| p.to_multiset());
    assert(mapped_pp[i] == pp[i].to_multiset());
    assert(mapped_pp.contains(pp[i].to_multiset()));
    assert(mapped_pp.to_multiset().count(pp[i].to_multiset()) > 0);
    assert(mapped_c.to_multiset().count(pp[i].to_multiset()) > 0);
    assert(mapped_c.contains(pp[i].to_multiset()));
    let j = choose|j: int| 0 <= j < mapped_c.len() && mapped_c[j] == pp[i].to_multiset();
    assert(mapped_c[j] == seq![c[j]].to_multiset());
    assert(seq![c[j]] =~= Seq::<u64>::empty().push(c[j]));
    assert(seq![c[j]].to_multiset() == Seq::<u64>::empty().to_multiset().insert(c[j]));
    assert(Seq::<u64>::empty().to_multiset().len() == 0);
    assert(pp[i].to_multiset().len() == 1);
    assert(pp[i].len() == 1);
    assert(pp[i].contains(pp[i][0]));
    assert(pp[i].to_multiset().count(pp[i][0]) > 0);
    assert(pp[i][0] == c[j]);
    assert(pp[i] =~= seq![c[j]]);
    assert(0 <= j < c.len() && pp[i] == seq![c[j]]);
}

/// A matching pair of the cross product occurs in the matched sequence.
proof fn lemma_row_pairs_member(a: Seq<Seq<u64>>, outs: Seq<Seq<Seq<u64>>>, b: int)
    requires
        0 <= b < outs.len(),
        parts_match_spec(a, outs[b]),
    ensures
        exists|idx: int|
            0 <= idx < row_pairs(a, outs).len() && #[trigger] row_pairs(a, outs)[idx] == (
            a,
            outs[b],
            ),
    decreases outs.len(),
{
    let head: Seq<(Seq<Seq<u64>>, Seq<Seq<u64>>)> = if parts_match_spec(a, outs[0]) {
        seq![(a, outs[0])]
    } else {
        Seq::empty()
    };
    let rest = row_pairs(a, outs.drop_first());
    assert(row_pairs(a, outs) == head + rest);
    if b == 0 {
        assert(row_pairs(a, outs)[0] == (a, outs[0]));
        assert(0 <= 0 < row_pairs(a, outs).len() && row_pairs(a, outs)[0] == (a, outs[b]));
    } else {
        assert(outs.drop_first()[b - 1] == outs[b]);
        lemma_row_pairs_member(a, outs.drop_first(), b - 1);
        let idx0 = choose|idx: int|
            0 <= idx < rest.len() && #[trigger] rest[idx] == (a, outs.drop_first()[b - 1]);
        assert(row_pairs(a, outs)[head.len() + idx0] == (a, outs[b]));
        assert(0 <= head.len() + idx0 < row_pairs(a, outs).len() && row_pairs(a, outs)[head.len()
            + idx0] == (a, outs[b]));
    }
}

proof fn lemma_matched_pairs_member(ins: Seq<Seq<Seq<u64>>>, outs: Seq<Seq<Seq<u64>>>, a: int, b: int)
    requires
        0 <= a < ins.len(),
        0 <= b < outs.len(),
        parts_match_spec(ins[a], outs[b]),
    ensures
        exists|idx: int|
            0 <= idx < matched_pairs_spec(ins, outs).len() && #[trigger] matched_pairs_spec(
                ins,
                outs,
            )[idx] == (ins[a], outs[b]),
    decreases ins.len(),
{
    let head = row_pairs(ins[0], outs);
    let rest = matched_pairs_spec(ins.drop_first(), outs);
    assert(matched_pairs_spec(ins, outs) == head + rest);
    if a == 0 {
        lemma_row_pairs_member(ins[0], outs, b);
        let idx0 = choose|idx: int|
            0 <= idx < head.len() && #[trigger] head[idx] == (ins[0], outs[b]);
        assert(matched_pairs_spec(ins, outs)[idx0] == (ins[a], outs[b]));
        assert(0 <= idx0 < matched_pairs_spec(ins, outs).len() && matched_pairs_spec(
            ins,
            outs,
        )[idx0] == (ins[a], outs[b]));
    } else {
        assert(ins.drop_first()[a - 1] == ins[a]);
        lemma_matched_pairs_member(ins.drop_first(), outs, a - 1, b);
        let idx0 = choose|idx: int|
            0 <= idx < rest.len() && #[trigger] rest[idx] == (ins.drop_first()[a - 1], outs[b]);
        assert(matched_pairs_spec(ins, outs)[head.len() + idx0] == (ins[a], outs[b]));
        assert(0 <= head.len() + idx0 < matched_pairs_spec(ins, outs).len()
            && matched_pairs_spec(ins, outs)[head.len() + idx0] == (ins[a], outs[b]));
    }
}

/// Law: when the outputs equal the inputs, the mapping set holds the
/// identity pair: on both sides a partition of the coins into singletons.
pub proof fn lemma_identity_mapping(c: Seq<u64>)
    requires
        1 <= c.len() <= 64,
    ensures
        exists|idx: int|
            0 <= idx < mapping_set_spec(c, c).len() && partition_bag(
                (#[trigger] mapping_set_spec(c, c)[idx]).0,
            ) == partition_bag(singleton_parts(c)) && partition_bag(
                mapping_set_spec(c, c)[idx].1,
            ) == partition_bag(singleton_parts(c)),
{
    broadcast use vstd::seq_lib::group_to_multiset_ensures;

    let sp = singleton_parts(c);
    lemma_singleton_parts_union(c);
    assert forall|i: int| 0 <= i < sp.len() implies (#[trigger] sp[i]).len() >= 1 && seq_sum(
        sp[i],
    ) == c[i] by {
        assert(sp[i] == seq![c[i]]);
        assert(seq![c[i]].drop_first() =~= Seq::<u64>::empty());
        assert(seq_sum(Seq::<u64>::empty()) == 0);
    }
    let pred_o = subset_sums_pred(c);
    assert forall|i: int| 0 <= i < sp.len() implies crate::partition::admits(
        pred_o,
        #[trigger] sp[i],
    ) by {
        crate::sums::lemma_element_is_subset_sum(c, i);
    }
    crate::partition::lemma_enumerate_complete(c, pred_o, sp);
    let e_i = enumerate_rec(c, pred_o);
    let ki = choose|k: int|
        0 <= k < e_i.len() && partition_bag(#[trigger] e_i[k]) == partition_bag(sp);
    // every coin's value occurs as a part sum of the chosen enumeration
    assert forall|j: int| 0 <= j < c.len() implies crate::filters::has_part_sum(
        e_i,
        #[trigger] c[j] as int,
    ) by {
        assert(sp[j] == seq![c[j]]);
        assert(sp[j].to_multiset() == Seq::<u64>::empty().to_multiset().insert(c[j]));
        assert(partition_bag(sp).count(sp[j].to_multiset()) > 0) by {
            let mapped_c = sp.map_values(|p: Seq<u64>| p.to_multiset());
            assert(mapped_c[j] == sp[j].to_multiset());
            assert(mapped_c.contains(sp[j].to_multiset()));
        }
        lemma_part_with_bag(e_i[ki], sp[j].to_multiset());
        let i2 = choose|i: int|
            0 <= i < e_i[ki].len() && (#[trigger] e_i[ki][i]).to_multiset()
                == sp[j].to_multiset();
        crate::sums::lemma_seq_sum_permutation(e_i[ki][i2], sp[j]);
        assert(seq_sum(e_i[ki][i2]) == c[j] as int);
    }
    let pred_p = part_sums_pred(e_i);
    assert forall|i: int| 0 <= i < sp.len() implies crate::partition::admits(
        pred_p,
        #[trigger] sp[i],
    ) by {
        assert(crate::filters::has_part_sum(e_i, c[i] as int));
    }
    crate::partition::lemma_enumerate_complete(c, pred_p, sp);
    let e_o = enumerate_rec(c, pred_p);
    let ko = choose|k: int|
        0 <= k < e_o.len() && partition_bag(#[trigger] e_o[k]) == partition_bag(sp);
    // the two chosen partitions match part sum for part sum
    assert forall|i: int| 0 <= i < e_i[ki].len() implies sum_in_parts(
        e_o[ko],
        seq_sum(#[trigger] e_i[ki][i]),
    ) by {
        lemma_parts_of_singleton_bag(c, e_i[ki], i);
        let j = choose|j: int| 0 <= j < c.len() && e_i[ki][i] == seq![#[trigger] c[j]];
        assert(seq![c[j]].drop_first() =~= Seq::<u64>::empty());
        assert(seq_sum(Seq::<u64>::empty()) == 0);
        assert(seq_sum(e_i[ki][i]) == c[j] as int);
        assert(partition_bag(sp).count(seq![c[j]].to_multiset()) > 0) by {
            let mapped_c = sp.map_values(|p: Seq<u64>| p.to_multiset());
            assert(mapped_c[j] == sp[j].to_multiset());
            assert(sp[j] == seq![c[j]]);
            assert(mapped_c.contains(seq![c[j]].to_multiset()));
        }
        lemma_part_with_bag(e_o[ko], seq![c[j]].to_multiset());
        let i3 = choose|i3: int|
            0 <= i3 < e_o[ko].len() && (#[trigger] e_o[ko][i3]).to_multiset()
                == seq![c[j]].to_multiset();
        crate::sums::lemma_seq_sum_permutation(e_o[ko][i3], seq![c[j]]);
        assert(seq_sum(e_o[ko][i3]) == c[j] as int);
        assert(sum_in_parts(e_o[ko], c[j] as int));
    }
    assert(parts_match_spec(e_i[ki], e_o[ko]));
    lemma_matched_pairs_member(e_i, e_o, ki, ko);
    let idx = choose|idx: int|
        0 <= idx < matched_pairs_spec(e_i, e_o).len() && #[trigger] matched_pairs_spec(
            e_i,
            e_o,
        )[idx] == (e_i[ki], e_o[ko]);
    assert(mapping_set_spec(c, c)[idx] == (e_i[ki], e_o[ko]));
    assert(0 <= idx < mapping_set_spec(c, c).len() && partition_bag(
        mapping_set_spec(c, c)[idx].0,
    ) == partition_bag(sp) && partition_bag(mapping_set_spec(c, c)[idx].1) == partition_bag(sp));
}

} // verus!
