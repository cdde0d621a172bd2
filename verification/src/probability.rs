use vstd::prelude::*;

verus! {

use crate::types::CoinSet;
use crate::types::Partition;
use crate::sums::seq_sum;
use crate::sums::sum_u64;
use crate::views::lemma_pair_vec_deep_view;
use crate::views::lemma_partition_deep_view;
use crate::matcher::partition_sums_fit;

/// The first part of `pp` containing `coin`; the empty sequence when none
/// does.
pub open spec fn find_part(pp: Seq<Seq<u64>>, coin: u64) -> Seq<u64>
    decreases pp.len(),
{
    if pp.len() == 0 {
        Seq::empty()
    } else if pp[0].contains(coin) {
        pp[0]
    } else {
        find_part(pp.drop_first(), coin)
    }
}

/// Some part of `pp` contains `coin`.
pub open spec fn coin_found(pp: Seq<Seq<u64>>, coin: u64) -> bool {
    exists|i: int| 0 <= i < pp.len() && (#[trigger] pp[i]).contains(coin)
}

/// `find_part` returns the part at the first index containing the coin.
pub proof fn lemma_find_part_at(pp: Seq<Seq<u64>>, coin: u64, i: int)
    requires
        0 <= i < pp.len(),
        pp[i].contains(coin),
        forall|k: int| 0 <= k < i ==> !(#[trigger] pp[k]).contains(coin),
    ensures
        find_part(pp, coin) == pp[i],
    decreases i,
{
    if i == 0 {
    } else {
        assert(!pp[0].contains(coin));
        assert forall|k: int| 0 <= k < i - 1 implies !(#[trigger] pp.drop_first()[k]).contains(
            coin,
        ) by {
            assert(pp.drop_first()[k] == pp[k + 1]);
        }
        assert(pp.drop_first()[i - 1] == pp[i]);
        lemma_find_part_at(pp.drop_first(), coin, i - 1);
    }
}

/// One mapping links input coin `c` to output coin `d`: the part holding
/// `c` on the input side and the part holding `d` on the output side have
/// equal sums.
pub open spec fn in_out_link(t: (Seq<Seq<u64>>, Seq<Seq<u64>>), c: u64, d: u64) -> bool {
    seq_sum(find_part(t.0, c)) == seq_sum(find_part(t.1, d))
}

/// Some part of the partition holds both coins.
pub open spec fn parts_hold_both_spec(pp: Seq<Seq<u64>>, c: u64, d: u64) -> bool {
    exists|i: int| 0 <= i < pp.len() && (#[trigger] pp[i]).contains(c) && pp[i].contains(d)
}

/// One mapping keeps the two input coins together in one part.
pub open spec fn in_in_link(t: (Seq<Seq<u64>>, Seq<Seq<u64>>), c: u64, d: u64) -> bool {
    parts_hold_both_spec(t.0, c, d)
}

/// One mapping keeps the two output coins together in one part.
pub open spec fn out_out_link(t: (Seq<Seq<u64>>, Seq<Seq<u64>>), c: u64, d: u64) -> bool {
    parts_hold_both_spec(t.1, c, d)
}

/// How many mappings link `c` to `d` across their containing parts.
pub open spec fn in_out_count_spec(
    ts: Seq<(Seq<Seq<u64>>, Seq<Seq<u64>>)>,
    c: u64,
    d: u64,
) -> nat
    decreases ts.len(),
{
    if ts.len() == 0 {
        0
    } else {
        (if in_out_link(ts[0], c, d) {
            1nat
        } else {
            0nat
        }) + in_out_count_spec(ts.drop_first(), c, d)
    }
}

/// How many mappings keep the two input coins in one part.
pub open spec fn in_in_count_spec(
    ts: Seq<(Seq<Seq<u64>>, Seq<Seq<u64>>)>,
    c: u64,
    d: u64,
) -> nat
    decreases ts.len(),
{
    if ts.len() == 0 {
        0
    } else {
        (if in_in_link(ts[0], c, d) {
            1nat
        } else {
            0nat
        }) + in_in_count_spec(ts.drop_first(), c, d)
    }
}

/// How many mappings keep the two output coins in one part.
pub open spec fn out_out_count_spec(
    ts: Seq<(Seq<Seq<u64>>, Seq<Seq<u64>>)>,
    c: u64,
    d: u64,
) -> nat
    decreases ts.len(),
{
    if ts.len() == 0 {
        0
    } else {
        (if out_out_link(ts[0], c, d) {
            1nat
        } else {
            0nat
        }) + out_out_count_spec(ts.drop_first(), c, d)
    }
}

pub proof fn lemma_in_out_count_snoc(
    ts: Seq<(Seq<Seq<u64>>, Seq<Seq<u64>>)>,
    x: (Seq<Seq<u64>>, Seq<Seq<u64>>),
    c: u64,
    d: u64,
)
    ensures
        in_out_count_spec(ts.push(x), c, d) == in_out_count_spec(ts, c, d) + (if in_out_link(
            x,
            c,
            d,
        ) {
            1nat
        } else {
            0nat
        }),
    decreases ts.len(),
{
    if ts.len() == 0 {
        assert(ts.push(x)[0] == x);
        assert(ts.push(x).drop_first() =~= Seq::<(Seq<Seq<u64>>, Seq<Seq<u64>>)>::empty());
        assert(in_out_count_spec(ts.push(x).drop_first(), c, d) == 0);
    } else {
        assert(ts.push(x)[0] == ts[0]);
        assert(ts.push(x).drop_first() =~= ts.drop_first().push(x));
        lemma_in_out_count_snoc(ts.drop_first(), x, c, d);
    }
}

pub proof fn lemma_in_in_count_snoc(
    ts: Seq<(Seq<Seq<u64>>, Seq<Seq<u64>>)>,
    x: (Seq<Seq<u64>>, Seq<Seq<u64>>),
    c: u64,
    d: u64,
)
    ensures
        in_in_count_spec(ts.push(x), c, d) == in_in_count_spec(ts, c, d) + (if in_in_link(
            x,
            c,
            d,
        ) {
            1nat
        } else {
            0nat
        }),
    decreases ts.len(),
{
    if ts.len() == 0 {
        assert(ts.push(x)[0] == x);
        assert(ts.push(x).drop_first() =~= Seq::<(Seq<Seq<u64>>, Seq<Seq<u64>>)>::empty());
        assert(in_in_count_spec(ts.push(x).drop_first(), c, d) == 0);
    } else {
        assert(ts.push(x)[0] == ts[0]);
        assert(ts.push(x).drop_first() =~= ts.drop_first().push(x));
        lemma_in_in_count_snoc(ts.drop_first(), x, c, d);
    }
}

pub proof fn lemma_out_out_count_snoc(
    ts: Seq<(Seq<Seq<u64>>, Seq<Seq<u64>>)>,
    x: (Seq<Seq<u64>>, Seq<Seq<u64>>),
    c: u64,
    d: u64,
)
    ensures
        out_out_count_spec(ts.push(x), c, d) == out_out_count_spec(ts, c, d) + (if out_out_link(
            x,
            c,
            d,
        ) {
            1nat
        } else {
            0nat
        }),
    decreases ts.len(),
{
    if ts.len() == 0 {
        assert(ts.push(x)[0] == x);
        assert(ts.push(x).drop_first() =~= Seq::<(Seq<Seq<u64>>, Seq<Seq<u64>>)>::empty());
        assert(out_out_count_spec(ts.push(x).drop_first(), c, d) == 0);
    } else {
        assert(ts.push(x)[0] == ts[0]);
        assert(ts.push(x).drop_first() =~= ts.drop_first().push(x));
        lemma_out_out_count_snoc(ts.drop_first(), x, c, d);
    }
}

pub proof fn lemma_in_out_count_le_len(ts: Seq<(Seq<Seq<u64>>, Seq<Seq<u64>>)>, c: u64, d: u64)
    ensures
        in_out_count_spec(ts, c, d) <= ts.len(),
    decreases ts.len(),
{
    if ts.len() > 0 {
        lemma_in_out_count_le_len(ts.drop_first(), c, d);
    }
}

pub proof fn lemma_in_in_count_le_len(ts: Seq<(Seq<Seq<u64>>, Seq<Seq<u64>>)>, c: u64, d: u64)
    ensures
        in_in_count_spec(ts, c, d) <= ts.len(),
    decreases ts.len(),
{
    if ts.len() > 0 {
        lemma_in_in_count_le_len(ts.drop_first(), c, d);
    }
}

pub proof fn lemma_out_out_count_le_len(ts: Seq<(Seq<Seq<u64>>, Seq<Seq<u64>>)>, c: u64, d: u64)
    ensures
        out_out_count_spec(ts, c, d) <= ts.len(),
    decreases ts.len(),
{
    if ts.len() > 0 {
        lemma_out_out_count_le_len(ts.drop_first(), c, d);
    }
}

/// Whether the part contains the coin.
pub fn coin_in_part(part: &CoinSet, coin: u64) -> (r: bool)
    ensures
        r == part@.contains(coin),
{
    let mut i: usize = 0;
    while i < part.len()
        invariant
            0 <= i <= part@.len(),
            forall|k: int| 0 <= k < i ==> part@[k] != coin,
        decreases part@.len() - i,
    {
        if part[i] == coin {
            return true;
        }
        i = i + 1;
    }
    false
}

/// The index of the first part containing the coin; the caller promises
/// the coin is present.
fn find_part_index(p: &Partition, coin: u64) -> (idx: usize)
    requires
        coin_found(p.deep_view(), coin),
    ensures
        0 <= idx < p@.len(),
        p.deep_view()[idx as int] == find_part(p.deep_view(), coin),
        p.deep_view()[idx as int].contains(coin),
{
    let ghost pv = p.deep_view();
    proof {
        lemma_partition_deep_view(*p);
    }
    let mut i: usize = 0;
    while i < p.len()
        invariant
            0 <= i <= p@.len(),
            pv == p.deep_view(),
            pv.len() == p@.len(),
            forall|k: int| 0 <= k < p@.len() ==> #[trigger] pv[k] == p@[k]@,
            forall|k: int| 0 <= k < i ==> !(#[trigger] pv[k]).contains(coin),
        decreases p@.len() - i,
    {
        if coin_in_part(&p[i], coin) {
            proof {
                lemma_find_part_at(pv, coin, i as int);
            }
            return i;
        }
        i = i + 1;
    }
    proof {
        assert(forall|k: int| 0 <= k < pv.len() ==> !(#[trigger] pv[k]).contains(coin));
        assert(false);
    }
    i
}

/// How many of the mappings put the input coin and the output coin into
/// parts of equal sum. The caller promises that both coins occur in every
/// mapping, as the aggregation stage requires; the probability is this
/// count over the number of mappings.
pub fn in_out_count(
    in_coin: &u64,
    out_coin: &u64,
    partition_tuples: &Vec<(Partition, Partition)>,
) -> (r: u64)
    requires
        forall|k: int|
            0 <= k < partition_tuples.deep_view().len() ==> coin_found(
                (#[trigger] partition_tuples.deep_view()[k]).0,
                *in_coin,
            ) && coin_found(partition_tuples.deep_view()[k].1, *out_coin),
        forall|k: int|
            0 <= k < partition_tuples.deep_view().len() ==> partition_sums_fit(
                (#[trigger] partition_tuples.deep_view()[k]).0,
            ) && partition_sums_fit(partition_tuples.deep_view()[k].1),
    ensures
        r as nat == in_out_count_spec(partition_tuples.deep_view(), *in_coin, *out_coin),
{
    let ghost tv = partition_tuples.deep_view();
    proof {
        lemma_pair_vec_deep_view(*partition_tuples);
    }
    let mut count: u64 = 0;
    let mut k: usize = 0;
    proof {
        assert(tv.take(0) =~= Seq::<(Seq<Seq<u64>>, Seq<Seq<u64>>)>::empty());
    }
    while k < partition_tuples.len()
        invariant
            0 <= k <= partition_tuples@.len(),
            tv == partition_tuples.deep_view(),
            tv.len() == partition_tuples@.len(),
            forall|m: int|
                0 <= m < partition_tuples@.len() ==> #[trigger] tv[m] == (
                    partition_tuples@[m].0.deep_view(),
                    partition_tuples@[m].1.deep_view(),
                ),
            forall|m: int|
                0 <= m < tv.len() ==> coin_found((#[trigger] tv[m]).0, *in_coin) && coin_found(
                    tv[m].1,
                    *out_coin,
                ),
            forall|m: int|
                0 <= m < tv.len() ==> partition_sums_fit((#[trigger] tv[m]).0)
                    && partition_sums_fit(tv[m].1),
            count as nat == in_out_count_spec(tv.take(k as int), *in_coin, *out_coin),
        decreases partition_tuples@.len() - k,
    {
        let t = &partition_tuples[k];
        proof {
            assert(tv[k as int] == (t.0.deep_view(), t.1.deep_view()));
            lemma_in_out_count_le_len(tv.take(k as int), *in_coin, *out_coin);
        }
        let in_idx = find_part_index(&t.0, *in_coin);
        let out_idx = find_part_index(&t.1, *out_coin);
        proof {
            lemma_partition_deep_view(t.0);
            lemma_partition_deep_view(t.1);
            assert(seq_sum(t.0.deep_view()[in_idx as int]) <= u64::MAX);
            assert(seq_sum(t.1.deep_view()[out_idx as int]) <= u64::MAX);
        }
        let in_sum = sum_u64(t.0[in_idx].as_slice());
        let out_sum = sum_u64(t.1[out_idx].as_slice());
        if in_sum == out_sum {
            count = count + 1;
        }
        proof {
            assert(in_out_link(tv[k as int], *in_coin, *out_coin) == (in_sum == out_sum));
            lemma_in_out_count_snoc(tv.take(k as int), tv[k as int], *in_coin, *out_coin);
            assert(tv.take(k as int + 1) =~= tv.take(k as int).push(tv[k as int]));
        }
        k = k + 1;
    }
    proof {
        assert(tv.take(tv.len() as int) =~= tv);
    }
    count
}

/// Whether some part of the partition holds both coins.
fn parts_hold_both(p: &Partition, first: u64, second: u64) -> (r: bool)
    ensures
        r == parts_hold_both_spec(p.deep_view(), first, second),
{
    let ghost pv = p.deep_view();
    proof {
        lemma_partition_deep_view(*p);
    }
    let mut i: usize = 0;
    while i < p.len()
        invariant
            0 <= i <= p@.len(),
            pv == p.deep_view(),
            pv.len() == p@.len(),
            forall|k: int| 0 <= k < p@.len() ==> #[trigger] pv[k] == p@[k]@,
            forall|k: int|
                0 <= k < i ==> !((#[trigger] pv[k]).contains(first) && pv[k].contains(second)),
        decreases p@.len() - i,
    {
        if coin_in_part(&p[i], first) && coin_in_part(&p[i], second) {
            proof {
                assert(pv[i as int].contains(first) && pv[i as int].contains(second));
            }
            return true;
        }
        i = i + 1;
    }
    false
}

/// How many of the mappings keep the two input coins in one part.
pub fn in_in_count(
    first_in_coin: &u64,
    second_in_coin: &u64,
    partition_tuples: &Vec<(Partition, Partition)>,
) -> (r: u64)
    ensures
        r as nat == in_in_count_spec(
            partition_tuples.deep_view(),
            *first_in_coin,
            *second_in_coin,
        ),
{
    let ghost tv = partition_tuples.deep_view();
    proof {
        lemma_pair_vec_deep_view(*partition_tuples);
    }
    let mut count: u64 = 0;
    let mut k: usize = 0;
    proof {
        assert(tv.take(0) =~= Seq::<(Seq<Seq<u64>>, Seq<Seq<u64>>)>::empty());
    }
    while k < partition_tuples.len()
        invariant
            0 <= k <= partition_tuples@.len(),
            tv == partition_tuples.deep_view(),
            tv.len() == partition_tuples@.len(),
            forall|m: int|
                0 <= m < partition_tuples@.len() ==> #[trigger] tv[m] == (
                    partition_tuples@[m].0.deep_view(),
                    partition_tuples@[m].1.deep_view(),
                ),
            count as nat == in_in_count_spec(tv.take(k as int), *first_in_coin, *second_in_coin),
        decreases partition_tuples@.len() - k,
    {
        let t = &partition_tuples[k];
        proof {
            assert(tv[k as int] == (t.0.deep_view(), t.1.deep_view()));
            lemma_in_in_count_le_len(tv.take(k as int), *first_in_coin, *second_in_coin);
        }
        let linked = parts_hold_both(&t.0, *first_in_coin, *second_in_coin);
        if linked {
            count = count + 1;
        }
        proof {
            assert(in_in_link(tv[k as int], *first_in_coin, *second_in_coin) == linked);
            lemma_in_in_count_snoc(
                tv.take(k as int),
                tv[k as int],
                *first_in_coin,
                *second_in_coin,
            );
            assert(tv.take(k as int + 1) =~= tv.take(k as int).push(tv[k as int]));
        }
        k = k + 1;
    }
    proof {
        assert(tv.take(tv.len() as int) =~= tv);
    }
    count
}

/// How many of the mappings keep the two output coins in one part.
pub fn out_out_count(
    first_out_coin: &u64,
    second_out_coin: &u64,
    partition_tuples: &Vec<(Partition, Partition)>,
) -> (r: u64)
    ensures
        r as nat == out_out_count_spec(
            partition_tuples.deep_view(),
            *first_out_coin,
            *second_out_coin,
        ),
{
    let ghost tv = partition_tuples.deep_view();
    proof {
        lemma_pair_vec_deep_view(*partition_tuples);
    }
    let mut count: u64 = 0;
    let mut k: usize = 0;
    proof {
        assert(tv.take(0) =~= Seq::<(Seq<Seq<u64>>, Seq<Seq<u64>>)>::empty());
    }
    while k < partition_tuples.len()
        invariant
            0 <= k <= partition_tuples@.len(),
            tv == partition_tuples.deep_view(),
            tv.len() == partition_tuples@.len(),
            forall|m: int|
                0 <= m < partition_tuples@.len() ==> #[trigger] tv[m] == (
                    partition_tuples@[m].0.deep_view(),
                    partition_tuples@[m].1.deep_view(),
                ),
            count as nat == out_out_count_spec(
                tv.take(k as int),
                *first_out_coin,
                *second_out_coin,
            ),
        decreases partition_tuples@.len() - k,
    {
        let t = &partition_tuples[k];
        proof {
            assert(tv[k as int] == (t.0.deep_view(), t.1.deep_view()));
            lemma_out_out_count_le_len(tv.take(k as int), *first_out_coin, *second_out_coin);
        }
        let linked = parts_hold_both(&t.1, *first_out_coin, *second_out_coin);
        if linked {
            count = count + 1;
        }
        proof {
            assert(out_out_link(tv[k as int], *first_out_coin, *second_out_coin) == linked);
            lemma_out_out_count_snoc(
                tv.take(k as int),
                tv[k as int],
                *first_out_coin,
                *second_out_coin,
            );
            assert(tv.take(k as int + 1) =~= tv.take(k as int).push(tv[k as int]));
        }
        k = k + 1;
    }
    proof {
        assert(tv.take(tv.len() as int) =~= tv);
    }
    count
}

/// The link counts of one input coin against each output coin, in order.
pub open spec fn in_out_row_spec(
    c: u64,
    oc: Seq<u64>,
    ts: Seq<(Seq<Seq<u64>>, Seq<Seq<u64>>)>,
) -> Seq<u64>
    decreases oc.len(),
{
    if oc.len() == 0 {
        Seq::empty()
    } else {
        seq![in_out_count_spec(ts, c, oc[0]) as u64] + in_out_row_spec(c, oc.drop_first(), ts)
    }
}

/// The link counts of every input coin against every output coin,
/// input-major, in order.
pub open spec fn in_out_counts_seq(
    ic: Seq<u64>,
    oc: Seq<u64>,
    ts: Seq<(Seq<Seq<u64>>, Seq<Seq<u64>>)>,
) -> Seq<u64>
    decreases ic.len(),
{
    if ic.len() == 0 {
        Seq::empty()
    } else {
        in_out_row_spec(ic[0], oc, ts) + in_out_counts_seq(ic.drop_first(), oc, ts)
    }
}

pub proof fn lemma_in_out_row_snoc(
    c: u64,
    oc: Seq<u64>,
    z: u64,
    ts: Seq<(Seq<Seq<u64>>, Seq<Seq<u64>>)>,
)
    ensures
        in_out_row_spec(c, oc.push(z), ts) == in_out_row_spec(c, oc, ts) + seq![
            in_out_count_spec(ts, c, z) as u64,
        ],
    decreases oc.len(),
{
    if oc.len() == 0 {
        assert(oc.push(z)[0] == z);
        assert(oc.push(z).drop_first() =~= Seq::<u64>::empty());
        assert(in_out_row_spec(c, oc.push(z).drop_first(), ts) == Seq::<u64>::empty());
        assert(in_out_row_spec(c, oc.push(z), ts) =~= in_out_row_spec(c, oc, ts) + seq![
            in_out_count_spec(ts, c, z) as u64,
        ]);
    } else {
        assert(oc.push(z)[0] == oc[0]);
        assert(oc.push(z).drop_first() =~= oc.drop_first().push(z));
        lemma_in_out_row_snoc(c, oc.drop_first(), z, ts);
        assert(in_out_row_spec(c, oc.push(z), ts) =~= in_out_row_spec(c, oc, ts) + seq![
            in_out_count_spec(ts, c, z) as u64,
        ]);
    }
}

pub proof fn lemma_in_out_counts_snoc(
    ic: Seq<u64>,
    z: u64,
    oc: Seq<u64>,
    ts: Seq<(Seq<Seq<u64>>, Seq<Seq<u64>>)>,
)
    ensures
        in_out_counts_seq(ic.push(z), oc, ts) == in_out_counts_seq(ic, oc, ts) + in_out_row_spec(
            z,
            oc,
            ts,
        ),
    decreases ic.len(),
{
    if ic.len() == 0 {
        assert(ic.push(z)[0] == z);
        assert(ic.push(z).drop_first() =~= Seq::<u64>::empty());
        assert(in_out_counts_seq(ic.push(z).drop_first(), oc, ts) == Seq::<u64>::empty());
        assert(in_out_counts_seq(ic.push(z), oc, ts) =~= in_out_counts_seq(ic, oc, ts)
            + in_out_row_spec(z, oc, ts));
    } else {
        assert(ic.push(z)[0] == ic[0]);
        assert(ic.push(z).drop_first() =~= ic.drop_first().push(z));
        lemma_in_out_counts_snoc(ic.drop_first(), z, oc, ts);
        assert(in_out_counts_seq(ic.push(z), oc, ts) =~= in_out_counts_seq(ic, oc, ts)
            + in_out_row_spec(z, oc, ts));
    }
}

/// The link counts of one coin against each later coin of the same side,
/// in order.
pub open spec fn in_in_row_spec(
    c: u64,
    rest: Seq<u64>,
    ts: Seq<(Seq<Seq<u64>>, Seq<Seq<u64>>)>,
) -> Seq<u64>
    decreases rest.len(),
{
    if rest.len() == 0 {
        Seq::empty()
    } else {
        seq![in_in_count_spec(ts, c, rest[0]) as u64] + in_in_row_spec(c, rest.drop_first(), ts)
    }
}

/// The link counts of every unordered pair of input coins, first-major, in
/// order.
pub open spec fn in_in_counts_seq(
    coins: Seq<u64>,
    ts: Seq<(Seq<Seq<u64>>, Seq<Seq<u64>>)>,
) -> Seq<u64>
    decreases coins.len(),
{
    if coins.len() == 0 {
        Seq::empty()
    } else {
        in_in_row_spec(coins[0], coins.drop_first(), ts) + in_in_counts_seq(
            coins.drop_first(),
            ts,
        )
    }
}

pub proof fn lemma_in_in_row_snoc(
    c: u64,
    rest: Seq<u64>,
    z: u64,
    ts: Seq<(Seq<Seq<u64>>, Seq<Seq<u64>>)>,
)
    ensures
        in_in_row_spec(c, rest.push(z), ts) == in_in_row_spec(c, rest, ts) + seq![
            in_in_count_spec(ts, c, z) as u64,
        ],
    decreases rest.len(),
{
    if rest.len() == 0 {
        assert(rest.push(z)[0] == z);
        assert(rest.push(z).drop_first() =~= Seq::<u64>::empty());
        assert(in_in_row_spec(c, rest.push(z).drop_first(), ts) == Seq::<u64>::empty());
        assert(in_in_row_spec(c, rest.push(z), ts) =~= in_in_row_spec(c, rest, ts) + seq![
            in_in_count_spec(ts, c, z) as u64,
        ]);
    } else {
        assert(rest.push(z)[0] == rest[0]);
        assert(rest.push(z).drop_first() =~= rest.drop_first().push(z));
        lemma_in_in_row_snoc(c, rest.drop_first(), z, ts);
        assert(in_in_row_spec(c, rest.push(z), ts) =~= in_in_row_spec(c, rest, ts) + seq![
            in_in_count_spec(ts, c, z) as u64,
        ]);
    }
}

/// As `in_in_row_spec` but counting on the output side.
pub open spec fn out_out_row_spec(
    c: u64,
    rest: Seq<u64>,
    ts: Seq<(Seq<Seq<u64>>, Seq<Seq<u64>>)>,
) -> Seq<u64>
    decreases rest.len(),
{
    if rest.len() == 0 {
        Seq::empty()
    } else {
        seq![out_out_count_spec(ts, c, rest[0]) as u64] + out_out_row_spec(
            c,
            rest.drop_first(),
            ts,
        )
    }
}

/// The link counts of every unordered pair of output coins, first-major,
/// in order.
pub open spec fn out_out_counts_seq(
    coins: Seq<u64>,
    ts: Seq<(Seq<Seq<u64>>, Seq<Seq<u64>>)>,
) -> Seq<u64>
    decreases coins.len(),
{
    if coins.len() == 0 {
        Seq::empty()
    } else {
        out_out_row_spec(coins[0], coins.drop_first(), ts) + out_out_counts_seq(
            coins.drop_first(),
            ts,
        )
    }
}

pub proof fn lemma_out_out_row_snoc(
    c: u64,
    rest: Seq<u64>,
    z: u64,
    ts: Seq<(Seq<Seq<u64>>, Seq<Seq<u64>>)>,
)
    ensures
        out_out_row_spec(c, rest.push(z), ts) == out_out_row_spec(c, rest, ts) + seq![
            out_out_count_spec(ts, c, z) as u64,
        ],
    decreases rest.len(),
{
    if rest.len() == 0 {
        assert(rest.push(z)[0] == z);
        assert(rest.push(z).drop_first() =~= Seq::<u64>::empty());
        assert(out_out_row_spec(c, rest.push(z).drop_first(), ts) == Seq::<u64>::empty());
        assert(out_out_row_spec(c, rest.push(z), ts) =~= out_out_row_spec(c, rest, ts) + seq![
            out_out_count_spec(ts, c, z) as u64,
        ]);
    } else {
        assert(rest.push(z)[0] == rest[0]);
        assert(rest.push(z).drop_first() =~= rest.drop_first().push(z));
        lemma_out_out_row_snoc(c, rest.drop_first(), z, ts);
        assert(out_out_row_spec(c, rest.push(z), ts) =~= out_out_row_spec(c, rest, ts) + seq![
            out_out_count_spec(ts, c, z) as u64,
        ]);
    }
}

/// All in-to-out link counts, one per (input coin, output coin) pair,
/// input-major. The per-coin-pair linkage probability is each entry
/// divided by the number of mappings.
pub fn aggregated_in_out_counts(
    in_coins: &CoinSet,
    out_coins: &CoinSet,
    partition_tuples: &Vec<(Partition, Partition)>,
) -> (r: Vec<u64>)
    requires
        forall|a: int, k: int|
            0 <= a < in_coins@.len() && 0 <= k < partition_tuples.deep_view().len()
                ==> #[trigger] coin_found(partition_tuples.deep_view()[k].0, in_coins@[a]),
        forall|b: int, k: int|
            0 <= b < out_coins@.len() && 0 <= k < partition_tuples.deep_view().len()
                ==> #[trigger] coin_found(partition_tuples.deep_view()[k].1, out_coins@[b]),
        forall|k: int|
            0 <= k < partition_tuples.deep_view().len() ==> partition_sums_fit(
                (#[trigger] partition_tuples.deep_view()[k]).0,
            ) && partition_sums_fit(partition_tuples.deep_view()[k].1),
    ensures
        r@ == in_out_counts_seq(in_coins@, out_coins@, partition_tuples.deep_view()),
{
    let ghost tv = partition_tuples.deep_view();
    let mut r: Vec<u64> = Vec::new();
    proof {
        assert(in_coins@.take(0) =~= Seq::<u64>::empty());
        assert(r@ =~= in_out_counts_seq(in_coins@.take(0), out_coins@, tv));
    }
    let mut a: usize = 0;
    while a < in_coins.len()
        invariant
            0 <= a <= in_coins@.len(),
            tv == partition_tuples.deep_view(),
            forall|x: int, k: int|
                0 <= x < in_coins@.len() && 0 <= k < tv.len() ==> #[trigger] coin_found(
                    tv[k].0,
                    in_coins@[x],
                ),
            forall|y: int, k: int|
                0 <= y < out_coins@.len() && 0 <= k < tv.len() ==> #[trigger] coin_found(
                    tv[k].1,
                    out_coins@[y],
                ),
            forall|k: int|
                0 <= k < tv.len() ==> partition_sums_fit((#[trigger] tv[k]).0)
                    && partition_sums_fit(tv[k].1),
            r@ == in_out_counts_seq(in_coins@.take(a as int), out_coins@, tv),
        decreases in_coins@.len() - a,
    {
        let ghost prefix = r@;
        let c = in_coins[a];
        let mut b: usize = 0;
        proof {
            assert(out_coins@.take(0) =~= Seq::<u64>::empty());
            assert(in_out_row_spec(c, out_coins@.take(0), tv) == Seq::<u64>::empty());
            assert(r@ =~= prefix + in_out_row_spec(c, out_coins@.take(0), tv));
        }
        while b < out_coins.len()
            invariant
                0 <= a < in_coins@.len(),
                0 <= b <= out_coins@.len(),
                c == in_coins@[a as int],
                tv == partition_tuples.deep_view(),
                forall|x: int, k: int|
                    0 <= x < in_coins@.len() && 0 <= k < tv.len() ==> #[trigger] coin_found(
                        tv[k].0,
                        in_coins@[x],
                    ),
                forall|y: int, k: int|
                    0 <= y < out_coins@.len() && 0 <= k < tv.len() ==> #[trigger] coin_found(
                        tv[k].1,
                        out_coins@[y],
                    ),
                forall|k: int|
                    0 <= k < tv.len() ==> partition_sums_fit((#[trigger] tv[k]).0)
                        && partition_sums_fit(tv[k].1),
                r@ == prefix + in_out_row_spec(c, out_coins@.take(b as int), tv),
            decreases out_coins@.len() - b,
        {
            proof {
                assert forall|k: int| 0 <= k < tv.len() implies coin_found(
                    (#[trigger] tv[k]).0,
                    c,
                ) && coin_found(tv[k].1, out_coins@[b as int]) by {
                    assert(coin_found(tv[k].0, in_coins@[a as int]));
                    assert(coin_found(tv[k].1, out_coins@[b as int]));
                }
            }
            let count = in_out_count(&c, &out_coins[b], partition_tuples);
            r.push(count);
            proof {
                lemma_in_out_count_le_len(tv, c, out_coins@[b as int]);
                lemma_in_out_row_snoc(c, out_coins@.take(b as int), out_coins@[b as int], tv);
                assert(out_coins@.take(b as int + 1) =~= out_coins@.take(b as int).push(
                    out_coins@[b as int],
                ));
                assert(r@ =~= prefix + in_out_row_spec(c, out_coins@.take(b as int + 1), tv));
            }
            b = b + 1;
        }
        proof {
            assert(out_coins@.take(out_coins@.len() as int) =~= out_coins@);
            lemma_in_out_counts_snoc(in_coins@.take(a as int), c, out_coins@, tv);
            assert(in_coins@.take(a as int + 1) =~= in_coins@.take(a as int).push(
                in_coins@[a as int],
            ));
        }
        a = a + 1;
    }
    proof {
        assert(in_coins@.take(in_coins@.len() as int) =~= in_coins@);
    }
    r
}

/// All input-pair link counts, one per unordered pair of input coins,
/// first-major.
pub fn aggregated_in_in_counts(
    in_coins: &CoinSet,
    partition_tuples: &Vec<(Partition, Partition)>,
) -> (r: Vec<u64>)
    ensures
        r@ == in_in_counts_seq(in_coins@, partition_tuples.deep_view()),
{
    let ghost tv = partition_tuples.deep_view();
    let mut r: Vec<u64> = Vec::new();
    proof {
        assert(in_coins@.skip(0) =~= in_coins@);
        assert(r@ + in_in_counts_seq(in_coins@.skip(0), tv) =~= in_in_counts_seq(in_coins@, tv));
    }
    let mut a: usize = 0;
    while a < in_coins.len()
        invariant
            0 <= a <= in_coins@.len(),
            tv == partition_tuples.deep_view(),
            in_in_counts_seq(in_coins@, tv) == r@ + in_in_counts_seq(
                in_coins@.skip(a as int),
                tv,
            ),
        decreases in_coins@.len() - a,
    {
        let ghost prefix = r@;
        let ghost suffix = in_coins@.skip(a as int);
        let c = in_coins[a];
        proof {
            assert(suffix[0] == in_coins@[a as int]);
            assert(suffix.drop_first() =~= in_coins@.skip(a as int + 1));
            assert(in_in_counts_seq(suffix, tv) == in_in_row_spec(
                c,
                in_coins@.skip(a as int + 1),
                tv,
            ) + in_in_counts_seq(in_coins@.skip(a as int + 1), tv));
        }
        let mut b: usize = a + 1;
        proof {
            assert(in_coins@.subrange(a as int + 1, a as int + 1) =~= Seq::<u64>::empty());
            assert(in_in_row_spec(c, in_coins@.subrange(a as int + 1, a as int + 1), tv)
                == Seq::<u64>::empty());
            assert(r@ =~= prefix + in_in_row_spec(
                c,
                in_coins@.subrange(a as int + 1, a as int + 1),
                tv,
            ));
        }
        while b < in_coins.len()
            invariant
                0 <= a < in_coins@.len(),
                a + 1 <= b <= in_coins@.len(),
                c == in_coins@[a as int],
                tv == partition_tuples.deep_view(),
                r@ == prefix + in_in_row_spec(
                    c,
                    in_coins@.subrange(a as int + 1, b as int),
                    tv,
                ),
            decreases in_coins@.len() - b,
        {
            let count = in_in_count(&c, &in_coins[b], partition_tuples);
            r.push(count);
            proof {
                lemma_in_in_count_le_len(tv, c, in_coins@[b as int]);
                lemma_in_in_row_snoc(
                    c,
                    in_coins@.subrange(a as int + 1, b as int),
                    in_coins@[b as int],
                    tv,
                );
                assert(in_coins@.subrange(a as int + 1, b as int + 1) =~= in_coins@.subrange(
                    a as int + 1,
                    b as int,
                ).push(in_coins@[b as int]));
                assert(r@ =~= prefix + in_in_row_spec(
                    c,
                    in_coins@.subrange(a as int + 1, b as int + 1),
                    tv,
                ));
            }
            b = b + 1;
        }
        proof {
            assert(in_coins@.subrange(a as int + 1, in_coins@.len() as int) =~= in_coins@.skip(
                a as int + 1,
            ));
            assert(r@ =~= prefix + in_in_row_spec(c, in_coins@.skip(a as int + 1), tv));
            assert(in_in_counts_seq(in_coins@, tv) == prefix + in_in_counts_seq(suffix, tv));
            assert(prefix + (in_in_row_spec(c, in_coins@.skip(a as int + 1), tv)
                + in_in_counts_seq(in_coins@.skip(a as int + 1), tv)) =~= (prefix
                + in_in_row_spec(c, in_coins@.skip(a as int + 1), tv)) + in_in_counts_seq(
                in_coins@.skip(a as int + 1),
                tv,
            ));
        }
        a = a + 1;
    }
    proof {
        assert(in_coins@.skip(in_coins@.len() as int) =~= Seq::<u64>::empty());
        assert(in_in_counts_seq(in_coins@.skip(in_coins@.len() as int), tv) == Seq::<
            u64,
        >::empty());
        assert(r@ =~= r@ + in_in_counts_seq(in_coins@.skip(in_coins@.len() as int), tv));
    }
    r
}

/// All output-pair link counts, one per unordered pair of output coins,
/// first-major.
pub fn aggregated_out_out_counts(
    out_coins: &CoinSet,
    partition_tuples: &Vec<(Partition, Partition)>,
) -> (r: Vec<u64>)
    ensures
        r@ == out_out_counts_seq(out_coins@, partition_tuples.deep_view()),
{
    let ghost tv = partition_tuples.deep_view();
    let mut r: Vec<u64> = Vec::new();
    proof {
        assert(out_coins@.skip(0) =~= out_coins@);
        assert(r@ + out_out_counts_seq(out_coins@.skip(0), tv) =~= out_out_counts_seq(
            out_coins@,
            tv,
        ));
    }
    let mut a: usize = 0;
    while a < out_coins.len()
        invariant
            0 <= a <= out_coins@.len(),
            tv == partition_tuples.deep_view(),
            out_out_counts_seq(out_coins@, tv) == r@ + out_out_counts_seq(
                out_coins@.skip(a as int),
                tv,
            ),
        decreases out_coins@.len() - a,
    {
        let ghost prefix = r@;
        let ghost suffix = out_coins@.skip(a as int);
        let c = out_coins[a];
        proof {
            assert(suffix[0] == out_coins@[a as int]);
            assert(suffix.drop_first() =~= out_coins@.skip(a as int + 1));
            assert(out_out_counts_seq(suffix, tv) == out_out_row_spec(
                c,
                out_coins@.skip(a as int + 1),
                tv,
            ) + out_out_counts_seq(out_coins@.skip(a as int + 1), tv));
        }
        let mut b: usize = a + 1;
        proof {
            assert(out_coins@.subrange(a as int + 1, a as int + 1) =~= Seq::<u64>::empty());
            assert(out_out_row_spec(c, out_coins@.subrange(a as int + 1, a as int + 1), tv)
                == Seq::<u64>::empty());
            assert(r@ =~= prefix + out_out_row_spec(
                c,
                out_coins@.subrange(a as int + 1, a as int + 1),
                tv,
            ));
        }
        while b < out_coins.len()
            invariant
                0 <= a < out_coins@.len(),
                a + 1 <= b <= out_coins@.len(),
                c == out_coins@[a as int],
                tv == partition_tuples.deep_view(),
                r@ == prefix + out_out_row_spec(
                    c,
                    out_coins@.subrange(a as int + 1, b as int),
                    tv,
                ),
            decreases out_coins@.len() - b,
        {
            let count = out_out_count(&c, &out_coins[b], partition_tuples);
            r.push(count);
            proof {
                lemma_out_out_count_le_len(tv, c, out_coins@[b as int]);
                lemma_out_out_row_snoc(
                    c,
                    out_coins@.subrange(a as int + 1, b as int),
                    out_coins@[b as int],
                    tv,
                );
                assert(out_coins@.subrange(a as int + 1, b as int + 1) =~= out_coins@.subrange(
                    a as int + 1,
                    b as int,
                ).push(out_coins@[b as int]));
                assert(r@ =~= prefix + out_out_row_spec(
                    c,
                    out_coins@.subrange(a as int + 1, b as int + 1),
                    tv,
                ));
            }
            b = b + 1;
        }
        proof {
            assert(out_coins@.subrange(a as int + 1, out_coins@.len() as int)
                =~= out_coins@.skip(a as int + 1));
            assert(r@ =~= prefix + out_out_row_spec(c, out_coins@.skip(a as int + 1), tv));
            assert(out_out_counts_seq(out_coins@, tv) == prefix + out_out_counts_seq(
                suffix,
                tv,
            ));
            assert(prefix + (out_out_row_spec(c, out_coins@.skip(a as int + 1), tv)
                + out_out_counts_seq(out_coins@.skip(a as int + 1), tv)) =~= (prefix
                + out_out_row_spec(c, out_coins@.skip(a as int + 1), tv)) + out_out_counts_seq(
                out_coins@.skip(a as int + 1),
                tv,
            ));
        }
        a = a + 1;
    }
    proof {
        assert(out_coins@.skip(out_coins@.len() as int) =~= Seq::<u64>::empty());
        assert(out_out_counts_seq(out_coins@.skip(out_coins@.len() as int), tv) == Seq::<
            u64,
        >::empty());
        assert(r@ =~= r@ + out_out_counts_seq(out_coins@.skip(out_coins@.len() as int), tv));
    }
    r
}

/// How many entries equal `v`.
pub open spec fn count_eq(s: Seq<u64>, v: u64) -> nat
    decreases s.len(),
{
    if s.len() == 0 {
        0
    } else {
        (if s[0] == v {
            1nat
        } else {
            0nat
        }) + count_eq(s.drop_first(), v)
    }
}

/// How many entries lie strictly between zero and `total`.
pub open spec fn count_interior(s: Seq<u64>, total: u64) -> nat
    decreases s.len(),
{
    if s.len() == 0 {
        0
    } else {
        (if 0 < s[0] && s[0] < total {
            1nat
        } else {
            0nat
        }) + count_interior(s.drop_first(), total)
    }
}

/// The sum of the entries strictly between zero and `total`.
pub open spec fn sum_interior(s: Seq<u64>, total: u64) -> int
    decreases s.len(),
{
    if s.len() == 0 {
        0
    } else {
        (if 0 < s[0] && s[0] < total {
            s[0] as int
        } else {
            0
        }) + sum_interior(s.drop_first(), total)
    }
}

pub proof fn lemma_aggregate_snoc(s: Seq<u64>, z: u64, v: u64, total: u64)
    ensures
        count_eq(s.push(z), v) == count_eq(s, v) + (if z == v {
            1nat
        } else {
            0nat
        }),
        count_interior(s.push(z), total) == count_interior(s, total) + (if 0 < z && z < total {
            1nat
        } else {
            0nat
        }),
        sum_interior(s.push(z), total) == sum_interior(s, total) + (if 0 < z && z < total {
            z as int
        } else {
            0
        }),
    decreases s.len(),
{
    if s.len() == 0 {
        assert(s.push(z)[0] == z);
        assert(s.push(z).drop_first() =~= Seq::<u64>::empty());
        assert(count_eq(s.push(z).drop_first(), v) == 0);
        assert(count_interior(s.push(z).drop_first(), total) == 0);
        assert(sum_interior(s.push(z).drop_first(), total) == 0);
    } else {
        assert(s.push(z)[0] == s[0]);
        assert(s.push(z).drop_first() =~= s.drop_first().push(z));
        lemma_aggregate_snoc(s.drop_first(), z, v, total);
    }
}

pub proof fn lemma_sum_interior_le(s: Seq<u64>, total: u64)
    ensures
        0 <= sum_interior(s, total) <= seq_sum(s),
    decreases s.len(),
{
    if s.len() > 0 {
        lemma_sum_interior_le(s.drop_first(), total);
    }
}

/// Reduce a vector of link counts out of `total` mappings to the four
/// statistics of the linkage report: how many are never linked, how many always,
/// the sum and cardinality of the strictly interior counts, and the sum of
/// all counts. The two means of the report are the sums divided by
/// `total` times the respective cardinality.
pub fn aggregate_counts(counts: &Vec<u64>, total: u64) -> (r: (u64, u64, u64, u64, u64))
    requires
        total >= 1,
        seq_sum(counts@) <= u64::MAX,
    ensures
        r.0 as nat == count_eq(counts@, 0),
        r.1 as nat == count_eq(counts@, total),
        r.2 as nat == count_interior(counts@, total),
        r.3 as int == sum_interior(counts@, total),
        r.4 as int == seq_sum(counts@),
{
    let mut zeros: u64 = 0;
    let mut ones: u64 = 0;
    let mut interior_len: u64 = 0;
    let mut interior_sum: u64 = 0;
    let mut all_sum: u64 = 0;
    let mut i: usize = 0;
    proof {
        assert(counts@.take(0) =~= Seq::<u64>::empty());
    }
    while i < counts.len()
        invariant
            0 <= i <= counts@.len(),
            seq_sum(counts@) <= u64::MAX,
            total >= 1,
            zeros as nat == count_eq(counts@.take(i as int), 0),
            ones as nat == count_eq(counts@.take(i as int), total),
            interior_len as nat == count_interior(counts@.take(i as int), total),
            interior_sum as int == sum_interior(counts@.take(i as int), total),
            all_sum as int == seq_sum(counts@.take(i as int)),
        decreases counts@.len() - i,
    {
        let v = counts[i];
        proof {
            let t1 = counts@.take(i as int + 1);
            assert(t1 =~= counts@.take(i as int).push(counts@[i as int]));
            lemma_aggregate_snoc(counts@.take(i as int), counts@[i as int], 0, total);
            lemma_aggregate_snoc(counts@.take(i as int), counts@[i as int], total, total);
            crate::sums::lemma_seq_sum_push(counts@.take(i as int), counts@[i as int]);
            crate::sums::lemma_seq_sum_take_le(counts@, i as int + 1);
            lemma_sum_interior_le(t1, total);
            crate::sums::lemma_seq_sum_nonneg(counts@.take(i as int));
            assert(count_eq(t1, 0) <= t1.len()) by {
                lemma_count_eq_le_len(t1, 0);
            }
            assert(count_eq(t1, total) <= t1.len()) by {
                lemma_count_eq_le_len(t1, total);
            }
            assert(count_interior(t1, total) <= t1.len()) by {
                lemma_count_interior_le_len(t1, total);
            }
            assert(sum_interior(counts@.take(i as int), total) <= sum_interior(t1, total)
                || true);
        }
        if v == 0 {
            zeros = zeros + 1;
        }
        if v == total {
            ones = ones + 1;
        }
        if 0 < v && v < total {
            interior_len = interior_len + 1;
            proof {
                lemma_sum_interior_le(counts@.take(i as int), total);
                assert(sum_interior(counts@.take(i as int + 1), total) <= seq_sum(
                    counts@.take(i as int + 1),
                ));
            }
            interior_sum = interior_sum + v;
        }
        all_sum = all_sum + v;
        i = i + 1;
    }
    proof {
        assert(counts@.take(counts@.len() as int) =~= counts@);
    }
    (zeros, ones, interior_len, interior_sum, all_sum)
}

pub proof fn lemma_count_eq_le_len(s: Seq<u64>, v: u64)
    ensures
        count_eq(s, v) <= s.len(),
    decreases s.len(),
{
    if s.len() > 0 {
        lemma_count_eq_le_len(s.drop_first(), v);
    }
}

pub proof fn lemma_count_interior_le_len(s: Seq<u64>, total: u64)
    ensures
        count_interior(s, total) <= s.len(),
    decreases s.len(),
{
    if s.len() > 0 {
        lemma_count_interior_le_len(s.drop_first(), total);
    }
}

/// The first index in `parts` whose sum equals `target`, or -1 when no
/// part matches.
pub open spec fn sum_match_index(parts: Seq<Seq<u64>>, target: int) -> int
    decreases parts.len(),
{
    if parts.len() == 0 {
        -1
    } else if seq_sum(parts[0]) == target {
        0
    } else if sum_match_index(parts.drop_first(), target) == -1 {
        -1
    } else {
        sum_match_index(parts.drop_first(), target) + 1
    }
}

pub proof fn lemma_sum_match_index_none(parts: Seq<Seq<u64>>, target: int)
    requires
        forall|k: int| 0 <= k < parts.len() ==> seq_sum(#[trigger] parts[k]) != target,
    ensures
        sum_match_index(parts, target) == -1,
    decreases parts.len(),
{
    if parts.len() > 0 {
        assert forall|k: int| 0 <= k < parts.drop_first().len() implies seq_sum(
            #[trigger] parts.drop_first()[k],
        ) != target by {
            assert(parts.drop_first()[k] == parts[k + 1]);
        }
        lemma_sum_match_index_none(parts.drop_first(), target);
    }
}

pub proof fn lemma_sum_match_index_at(parts: Seq<Seq<u64>>, target: int, j: int)
    requires
        0 <= j < parts.len(),
        seq_sum(parts[j]) == target,
        forall|k: int| 0 <= k < j ==> seq_sum(#[trigger] parts[k]) != target,
    ensures
        sum_match_index(parts, target) == j,
    decreases j,
{
    if j == 0 {
    } else {
        assert(seq_sum(parts[0]) != target);
        assert forall|k: int| 0 <= k < j - 1 implies seq_sum(
            #[trigger] parts.drop_first()[k],
        ) != target by {
            assert(parts.drop_first()[k] == parts[k + 1]);
        }
        assert(parts.drop_first()[j - 1] == parts[j]);
        lemma_sum_match_index_at(parts.drop_first(), target, j - 1);
    }
}

/// Greedily match the parts of `small` against `large` by sum, removing
/// each first match from `large`: the number of unmatched parts of `small`
/// and the parts of `large` left over.
pub open spec fn derive_scan(small: Seq<Seq<u64>>, large: Seq<Seq<u64>>) -> (nat, Seq<Seq<u64>>)
    decreases small.len(),
{
    if small.len() == 0 {
        (0nat, large)
    } else {
        let j = sum_match_index(large, seq_sum(small[0]));
        if j >= 0 {
            derive_scan(small.drop_first(), large.remove(j))
        } else {
            let rec = derive_scan(small.drop_first(), large);
            ((rec.0 + 1) as nat, rec.1)
        }
    }
}

/// The smaller partition is derived from the larger one when the greedy
/// sum matching leaves exactly one part of the small side unmatched and
/// exactly two parts of the large side over: the small partition is the
/// large one with two parts merged.
pub open spec fn is_derived_spec(small: Seq<Seq<u64>>, large: Seq<Seq<u64>>) -> bool {
    derive_scan(small, large).0 == 1 && derive_scan(small, large).1.len() == 2
}

/// Removing a part removes its view from the deep view.
pub proof fn lemma_partition_deep_view_remove(before: Partition, after: Partition, j: int)
    requires
        0 <= j < before@.len(),
        after@ == before@.remove(j),
    ensures
        after.deep_view() == before.deep_view().remove(j),
{
    lemma_partition_deep_view(before);
    lemma_partition_deep_view(after);
    assert forall|k: int| 0 <= k < after@.len() implies after.deep_view()[k]
        == before.deep_view().remove(j)[k] by {
        if k < j {
            assert(after@[k] == before@[k]);
        } else {
            assert(after@[k] == before@[k + 1]);
        }
    }
    assert(after.deep_view() =~= before.deep_view().remove(j));
}

/// Decide whether `part`'s input partition is derived from `plus_part`'s
/// by merging two of its parts.
pub fn is_derived(part: &(Partition, Partition), plus_part: &(Partition, Partition)) -> (r: bool)
    requires
        part.0@.len() + 1 == plus_part.0@.len(),
        partition_sums_fit(part.0.deep_view()),
        partition_sums_fit(plus_part.0.deep_view()),
    ensures
        r == is_derived_spec(part.0.deep_view(), plus_part.0.deep_view()),
{
    let ghost small = part.0.deep_view();
    let ghost large0 = plus_part.0.deep_view();
    proof {
        lemma_partition_deep_view(part.0);
        assert(small.skip(0) =~= small);
    }
    let in_partition = &part.0;
    let mut retained: usize = 0;
    let mut plus_in_partition = crate::matcher::copy_partition(&plus_part.0);
    let mut i: usize = 0;
    while i < in_partition.len()
        invariant
            0 <= i <= in_partition@.len(),
            small == part.0.deep_view(),
            in_partition@.len() == small.len(),
            forall|k: int| 0 <= k < small.len() ==> #[trigger] small[k] == in_partition@[k]@,
            partition_sums_fit(small),
            partition_sums_fit(plus_in_partition.deep_view()),
            retained <= i,
            derive_scan(small, large0).0 == retained + derive_scan(
                small.skip(i as int),
                plus_in_partition.deep_view(),
            ).0,
            derive_scan(small, large0).1 == derive_scan(
                small.skip(i as int),
                plus_in_partition.deep_view(),
            ).1,
        decreases in_partition@.len() - i,
    {
        let ghost cur = plus_in_partition.deep_view();
        proof {
            lemma_partition_deep_view(plus_in_partition);
            assert(small[i as int] == in_partition@[i as int]@);
            assert(seq_sum(small[i as int]) <= u64::MAX);
        }
        let target = sum_u64(in_partition[i].as_slice());
        let n = plus_in_partition.len();
        let mut jfound: usize = n;
        let mut j: usize = 0;
        while j < n
            invariant
                0 <= j <= n,
                n == plus_in_partition@.len(),
                cur == plus_in_partition.deep_view(),
                cur.len() == plus_in_partition@.len(),
                forall|k: int|
                    0 <= k < cur.len() ==> #[trigger] cur[k] == plus_in_partition@[k]@,
                partition_sums_fit(cur),
                jfound <= n,
                jfound == n ==> forall|k: int|
                    0 <= k < j ==> seq_sum(#[trigger] cur[k]) != target as int,
                jfound < n ==> seq_sum(cur[jfound as int]) == target as int && forall|k: int|
                    0 <= k < jfound ==> seq_sum(#[trigger] cur[k]) != target as int,
            decreases n - j,
        {
            if jfound == n {
                proof {
                    assert(cur[j as int] == plus_in_partition@[j as int]@);
                    assert(seq_sum(cur[j as int]) <= u64::MAX);
                }
                let s = sum_u64(plus_in_partition[j].as_slice());
                if s == target {
                    jfound = j;
                }
            }
            j = j + 1;
        }
        proof {
            assert(small.skip(i as int)[0] == small[i as int]);
            assert(small.skip(i as int).drop_first() =~= small.skip(i as int + 1));
            assert(seq_sum(small[i as int]) == target as int);
        }
        if jfound < n {
            proof {
                lemma_sum_match_index_at(cur, target as int, jfound as int);
            }
            let ghost before = plus_in_partition;
            plus_in_partition.remove(jfound);
            proof {
                lemma_partition_deep_view_remove(before, plus_in_partition, jfound as int);
                assert forall|k: int|
                    0 <= k < plus_in_partition.deep_view().len() implies seq_sum(
                    #[trigger] plus_in_partition.deep_view()[k],
                ) <= u64::MAX by {
                    assert(plus_in_partition.deep_view() == cur.remove(jfound as int));
                    if k < jfound {
                        assert(plus_in_partition.deep_view()[k] == cur[k]);
                    } else {
                        assert(plus_in_partition.deep_view()[k] == cur[k + 1]);
                    }
                }
            }
        } else {
            retained = retained + 1;
            proof {
                lemma_sum_match_index_none(cur, target as int);
            }
        }
        i = i + 1;
    }
    proof {
        assert(small.skip(small.len() as int) =~= Seq::<Seq<u64>>::empty());
        assert(derive_scan(Seq::<Seq<u64>>::empty(), plus_in_partition.deep_view()) == (
            0nat,
            plus_in_partition.deep_view(),
        ));
        lemma_partition_deep_view(plus_in_partition);
    }
    retained == 1 && plus_in_partition.len() == 2
}

/// The largest input-partition size among the mapping pairs.
pub open spec fn max_part0_len(tv: Seq<(Seq<Seq<u64>>, Seq<Seq<u64>>)>) -> int
    decreases tv.len(),
{
    if tv.len() == 0 {
        0
    } else if tv.len() == 1 {
        tv[0].0.len() as int
    } else {
        let rest = max_part0_len(tv.drop_first());
        if tv[0].0.len() as int >= rest {
            tv[0].0.len() as int
        } else {
            rest
        }
    }
}

pub proof fn lemma_max_part0_snoc(
    tv: Seq<(Seq<Seq<u64>>, Seq<Seq<u64>>)>,
    z: (Seq<Seq<u64>>, Seq<Seq<u64>>),
)
    ensures
        max_part0_len(tv.push(z)) == (if tv.len() == 0 {
            z.0.len() as int
        } else if max_part0_len(tv) >= z.0.len() as int {
            max_part0_len(tv)
        } else {
            z.0.len() as int
        }),
    decreases tv.len(),
{
    if tv.len() == 0 {
        assert(tv.push(z)[0] == z);
    } else {
        assert(tv.push(z)[0] == tv[0]);
        assert(tv.push(z).drop_first() =~= tv.drop_first().push(z));
        lemma_max_part0_snoc(tv.drop_first(), z);
    }
}

/// The pairs whose input partition has exactly `k` parts, in order.
pub open spec fn group_dv(tv: Seq<(Seq<Seq<u64>>, Seq<Seq<u64>>)>, k: int) -> Seq<
    (Seq<Seq<u64>>, Seq<Seq<u64>>),
>
    decreases tv.len(),
{
    if tv.len() == 0 {
        Seq::empty()
    } else {
        (if tv[0].0.len() == k {
            seq![tv[0]]
        } else {
            Seq::empty()
        }) + group_dv(tv.drop_first(), k)
    }
}

pub proof fn lemma_group_dv_snoc(
    tv: Seq<(Seq<Seq<u64>>, Seq<Seq<u64>>)>,
    z: (Seq<Seq<u64>>, Seq<Seq<u64>>),
    k: int,
)
    ensures
        group_dv(tv.push(z), k) == group_dv(tv, k) + (if z.0.len() == k {
            seq![z]
        } else {
            Seq::<(Seq<Seq<u64>>, Seq<Seq<u64>>)>::empty()
        }),
    decreases tv.len(),
{
    if tv.len() == 0 {
        assert(tv.push(z)[0] == z);
        assert(tv.push(z).drop_first() =~= Seq::<(Seq<Seq<u64>>, Seq<Seq<u64>>)>::empty());
        assert(group_dv(tv.push(z).drop_first(), k) == Seq::<
            (Seq<Seq<u64>>, Seq<Seq<u64>>),
        >::empty());
        assert(group_dv(tv.push(z), k) =~= group_dv(tv, k) + (if z.0.len() == k {
            seq![z]
        } else {
            Seq::<(Seq<Seq<u64>>, Seq<Seq<u64>>)>::empty()
        }));
    } else {
        assert(tv.push(z)[0] == tv[0]);
        assert(tv.push(z).drop_first() =~= tv.drop_first().push(z));
        lemma_group_dv_snoc(tv.drop_first(), z, k);
        assert(group_dv(tv.push(z), k) =~= group_dv(tv, k) + (if z.0.len() == k {
            seq![z]
        } else {
            Seq::<(Seq<Seq<u64>>, Seq<Seq<u64>>)>::empty()
        }));
    }
}

/// Every pair in a group has an input partition of exactly `k` parts.
pub proof fn lemma_group_dv_lens(tv: Seq<(Seq<Seq<u64>>, Seq<Seq<u64>>)>, k: int)
    ensures
        forall|j: int|
            0 <= j < group_dv(tv, k).len() ==> (#[trigger] group_dv(tv, k)[j]).0.len() == k,
    decreases tv.len(),
{
    if tv.len() == 0 {
    } else {
        lemma_group_dv_lens(tv.drop_first(), k);
        let head: Seq<(Seq<Seq<u64>>, Seq<Seq<u64>>)> = if tv[0].0.len() == k {
            seq![tv[0]]
        } else {
            Seq::empty()
        };
        let rest = group_dv(tv.drop_first(), k);
        assert(group_dv(tv, k) == head + rest);
        assert forall|j: int| 0 <= j < group_dv(tv, k).len() implies (#[trigger] group_dv(
            tv,
            k,
        )[j]).0.len() == k by {
            if j < head.len() {
                assert(group_dv(tv, k)[j] == tv[0]);
            } else {
                assert(group_dv(tv, k)[j] == rest[j - head.len()]);
            }
        }
    }
}

/// `p` occurs among the pairs of `g`.
pub open spec fn appears_in(
    g: Seq<(Seq<Seq<u64>>, Seq<Seq<u64>>)>,
    p: (Seq<Seq<u64>>, Seq<Seq<u64>>),
) -> bool {
    exists|j: int| 0 <= j < g.len() && #[trigger] g[j] == p
}

/// A pair of the right output size occurs in its group.
pub proof fn lemma_group_dv_contains(tv: Seq<(Seq<Seq<u64>>, Seq<Seq<u64>>)>, k: int, m: int)
    requires
        0 <= m < tv.len(),
        tv[m].0.len() == k,
    ensures
        appears_in(group_dv(tv, k), tv[m]),
    decreases m,
{
    let head: Seq<(Seq<Seq<u64>>, Seq<Seq<u64>>)> = if tv[0].0.len() == k {
        seq![tv[0]]
    } else {
        Seq::empty()
    };
    let rest = group_dv(tv.drop_first(), k);
    assert(group_dv(tv, k) == head + rest);
    if m == 0 {
        assert(group_dv(tv, k)[0] == tv[0]);
    } else {
        assert(tv.drop_first()[m - 1] == tv[m]);
        lemma_group_dv_contains(tv.drop_first(), k, m - 1);
        let j = choose|j: int| 0 <= j < rest.len() && #[trigger] rest[j] == tv.drop_first()[m - 1];
        assert(group_dv(tv, k)[j + head.len()] == rest[j]);
    }
}

/// Every pair of a group occurs among the given pairs.
pub proof fn lemma_group_dv_elems(tv: Seq<(Seq<Seq<u64>>, Seq<Seq<u64>>)>, k: int)
    ensures
        forall|j: int|
            0 <= j < group_dv(tv, k).len() ==> appears_in(tv, #[trigger] group_dv(tv, k)[j]),
    decreases tv.len(),
{
    if tv.len() == 0 {
    } else {
        lemma_group_dv_elems(tv.drop_first(), k);
        let head: Seq<(Seq<Seq<u64>>, Seq<Seq<u64>>)> = if tv[0].0.len() == k {
            seq![tv[0]]
        } else {
            Seq::empty()
        };
        let rest = group_dv(tv.drop_first(), k);
        assert(group_dv(tv, k) == head + rest);
        assert forall|j: int| 0 <= j < group_dv(tv, k).len() implies appears_in(
            tv,
            #[trigger] group_dv(tv, k)[j],
        ) by {
            if j < head.len() {
                assert(group_dv(tv, k)[j] == tv[0]);
                assert(appears_in(tv, tv[0]));
            } else {
                assert(group_dv(tv, k)[j] == rest[j - head.len()]);
                assert(appears_in(tv.drop_first(), rest[j - head.len()]));
                let m = choose|m: int|
                    0 <= m < tv.drop_first().len() && #[trigger] tv.drop_first()[m] == rest[j
                        - head.len()];
                assert(tv[m + 1] == tv.drop_first()[m]);
            }
        }
    }
}

/// No pair of `next` derives `t`: merging two of its input parts never
/// gives `t`'s input partition.
pub open spec fn no_derived_above(
    t: (Seq<Seq<u64>>, Seq<Seq<u64>>),
    next: Seq<(Seq<Seq<u64>>, Seq<Seq<u64>>)>,
) -> bool {
    forall|u: int| 0 <= u < next.len() ==> !is_derived_spec(t.0, (#[trigger] next[u]).0)
}

/// The pairs of `g` that no pair of `next` derives, in order.
pub open spec fn kept_dv(
    g: Seq<(Seq<Seq<u64>>, Seq<Seq<u64>>)>,
    next: Seq<(Seq<Seq<u64>>, Seq<Seq<u64>>)>,
) -> Seq<(Seq<Seq<u64>>, Seq<Seq<u64>>)>
    decreases g.len(),
{
    if g.len() == 0 {
        Seq::empty()
    } else {
        (if no_derived_above(g[0], next) {
            seq![g[0]]
        } else {
            Seq::empty()
        }) + kept_dv(g.drop_first(), next)
    }
}

pub proof fn lemma_kept_dv_snoc(
    g: Seq<(Seq<Seq<u64>>, Seq<Seq<u64>>)>,
    z: (Seq<Seq<u64>>, Seq<Seq<u64>>),
    next: Seq<(Seq<Seq<u64>>, Seq<Seq<u64>>)>,
)
    ensures
        kept_dv(g.push(z), next) == kept_dv(g, next) + (if no_derived_above(z, next) {
            seq![z]
        } else {
            Seq::<(Seq<Seq<u64>>, Seq<Seq<u64>>)>::empty()
        }),
    decreases g.len(),
{
    if g.len() == 0 {
        assert(g.push(z)[0] == z);
        assert(g.push(z).drop_first() =~= Seq::<(Seq<Seq<u64>>, Seq<Seq<u64>>)>::empty());
        assert(kept_dv(g.push(z).drop_first(), next) == Seq::<
            (Seq<Seq<u64>>, Seq<Seq<u64>>),
        >::empty());
        assert(kept_dv(g.push(z), next) =~= kept_dv(g, next) + (if no_derived_above(z, next) {
            seq![z]
        } else {
            Seq::<(Seq<Seq<u64>>, Seq<Seq<u64>>)>::empty()
        }));
    } else {
        assert(g.push(z)[0] == g[0]);
        assert(g.push(z).drop_first() =~= g.drop_first().push(z));
        lemma_kept_dv_snoc(g.drop_first(), z, next);
        assert(kept_dv(g.push(z), next) =~= kept_dv(g, next) + (if no_derived_above(z, next) {
            seq![z]
        } else {
            Seq::<(Seq<Seq<u64>>, Seq<Seq<u64>>)>::empty()
        }));
    }
}

/// The non-derived pairs of all groups strictly below `i`, smallest group
/// first.
pub open spec fn non_derived_upto(tv: Seq<(Seq<Seq<u64>>, Seq<Seq<u64>>)>, i: int) -> Seq<
    (Seq<Seq<u64>>, Seq<Seq<u64>>),
>
    decreases i,
{
    if i <= 1 {
        Seq::empty()
    } else {
        non_derived_upto(tv, i - 1) + kept_dv(group_dv(tv, i - 1), group_dv(tv, i))
    }
}

/// Drop every mapping pair whose input partition another pair derives by
/// a single merge of two parts; pairs of the largest input size are always
/// retained. The result lists the surviving pairs grouped by input
/// partition size in increasing order.
pub fn filter_derived_partitions(partitions: &Vec<(Partition, Partition)>) -> (r: Vec<
    (Partition, Partition),
>)
    requires
        partitions@.len() >= 1,
        forall|k: int|
            0 <= k < partitions.deep_view().len() ==> partition_sums_fit(
                (#[trigger] partitions.deep_view()[k]).0,
            ),
    ensures
        r.deep_view() == non_derived_upto(
            partitions.deep_view(),
            max_part0_len(partitions.deep_view()),
        ) + group_dv(partitions.deep_view(), max_part0_len(partitions.deep_view())),
{
    let ghost tv = partitions.deep_view();
    proof {
        lemma_pair_vec_deep_view(*partitions);
    }
    // The largest input-partition size.
    let mut max_index: usize = partitions[0].0.len();
    proof {
        assert(tv.take(1) =~= seq![tv[0]]);
        assert(tv[0] == (partitions@[0].0.deep_view(), partitions@[0].1.deep_view()));
        lemma_partition_deep_view(partitions@[0].0);
        assert(max_index as int == max_part0_len(tv.take(1)));
    }
    let mut p: usize = 1;
    while p < partitions.len()
        invariant
            1 <= p <= partitions@.len(),
            tv == partitions.deep_view(),
            tv.len() == partitions@.len(),
            forall|m: int|
                0 <= m < partitions@.len() ==> #[trigger] tv[m] == (
                    partitions@[m].0.deep_view(),
                    partitions@[m].1.deep_view(),
                ),
            max_index as int == max_part0_len(tv.take(p as int)),
        decreases partitions@.len() - p,
    {
        let l = partitions[p].0.len();
        proof {
            lemma_partition_deep_view(partitions@[p as int].0);
            assert(tv[p as int].0.len() == partitions@[p as int].0@.len());
            lemma_max_part0_snoc(tv.take(p as int), tv[p as int]);
            assert(tv.take(p as int + 1) =~= tv.take(p as int).push(tv[p as int]));
        }
        if l > max_index {
            max_index = l;
        }
        p = p + 1;
    }
    proof {
        assert(tv.take(tv.len() as int) =~= tv);
    }
    let ghost m = max_part0_len(tv);
    let mut non_derived: Vec<(Partition, Partition)> = Vec::new();
    proof {
        lemma_pair_vec_deep_view(non_derived);
        assert(non_derived.deep_view() =~= non_derived_upto(tv, 1));
    }
    let mut i: usize = 1;
    while i < max_index
        invariant
            1 <= i,
            max_index as int == m,
            i <= max_index || max_index == 0,
            max_index == 0 ==> i == 1,
            tv == partitions.deep_view(),
            tv.len() == partitions@.len(),
            forall|k: int|
                0 <= k < tv.len() ==> partition_sums_fit((#[trigger] tv[k]).0),
            forall|mm: int|
                0 <= mm < partitions@.len() ==> #[trigger] tv[mm] == (
                    partitions@[mm].0.deep_view(),
                    partitions@[mm].1.deep_view(),
                ),
            non_derived.deep_view() == non_derived_upto(tv, i as int),
        decreases max_index - i,
    {
        let ghost upto_prefix = non_derived.deep_view();
        let mut q: usize = 0;
        proof {
            assert(tv.take(0) =~= Seq::<(Seq<Seq<u64>>, Seq<Seq<u64>>)>::empty());
            assert(group_dv(tv.take(0), i as int).len() == 0);
            assert(kept_dv(group_dv(tv.take(0), i as int), group_dv(tv, i as int + 1)).len()
                == 0);
            assert(non_derived.deep_view() =~= upto_prefix + kept_dv(
                group_dv(tv.take(0), i as int),
                group_dv(tv, i as int + 1),
            ));
        }
        while q < partitions.len()
            invariant
                0 <= q <= partitions@.len(),
                1 <= i < max_index,
                max_index as int == m,
                tv == partitions.deep_view(),
                tv.len() == partitions@.len(),
                forall|k: int|
                    0 <= k < tv.len() ==> partition_sums_fit((#[trigger] tv[k]).0),
                forall|mm: int|
                    0 <= mm < partitions@.len() ==> #[trigger] tv[mm] == (
                        partitions@[mm].0.deep_view(),
                        partitions@[mm].1.deep_view(),
                    ),
                non_derived.deep_view() == upto_prefix + kept_dv(
                    group_dv(tv.take(q as int), i as int),
                    group_dv(tv, i as int + 1),
                ),
            decreases partitions@.len() - q,
        {
            proof {
                lemma_group_dv_snoc(tv.take(q as int), tv[q as int], i as int);
                assert(tv.take(q as int + 1) =~= tv.take(q as int).push(tv[q as int]));
                lemma_partition_deep_view(partitions@[q as int].0);
            }
            let tlen = partitions[q].0.len();
            if tlen == i {
                // Scan the next group for a pair that derives this one.
                let mut found = false;
                let mut u: usize = 0;
                while u < partitions.len()
                    invariant
                        0 <= u <= partitions@.len(),
                        0 <= q < partitions@.len(),
                        1 <= i < max_index,
                        tv == partitions.deep_view(),
                        tv.len() == partitions@.len(),
                        forall|k: int|
                            0 <= k < tv.len() ==> partition_sums_fit((#[trigger] tv[k]).0),
                        forall|mm: int|
                            0 <= mm < partitions@.len() ==> #[trigger] tv[mm] == (
                                partitions@[mm].0.deep_view(),
                                partitions@[mm].1.deep_view(),
                            ),
                        tv[q as int].0.len() == i as int,
                        found ==> !no_derived_above(tv[q as int], group_dv(tv, i as int + 1)),
                        !found ==> forall|k: int|
                            0 <= k < u ==> !((#[trigger] tv[k]).0.len() == i as int + 1
                                && is_derived_spec(tv[q as int].0, tv[k].0)),
                    decreases partitions@.len() - u,
                {
                    if !found {
                        let ulen = partitions[u].0.len();
                        proof {
                            lemma_partition_deep_view(partitions@[u as int].0);
                        }
                        if ulen == i + 1 {
                            proof {
                                lemma_partition_deep_view(partitions@[q as int].0);
                                assert(tv[q as int].0 == partitions@[q as int].0.deep_view());
                                assert(tv[u as int].0 == partitions@[u as int].0.deep_view());
                                assert(partition_sums_fit(partitions@[q as int].0.deep_view()));
                                assert(partition_sums_fit(partitions@[u as int].0.deep_view()));
                                assert(partitions@[q as int].0@.len() == i as int);
                                assert(partitions@[u as int].0@.len() == i as int + 1);
                            }
                            let d = is_derived(&partitions[q], &partitions[u]);
                            if d {
                                found = true;
                                proof {
                                    lemma_group_dv_contains(tv, i as int + 1, u as int);
                                    let j = choose|j: int|
                                        0 <= j < group_dv(tv, i as int + 1).len()
                                            && #[trigger] group_dv(tv, i as int + 1)[j] == tv[
                                            u as int];
                                    assert(is_derived_spec(
                                        tv[q as int].0,
                                        group_dv(tv, i as int + 1)[j].0,
                                    ));
                                }
                            }
                        }
                    }
                    u = u + 1;
                }
                if !found {
                    proof {
                        lemma_group_dv_elems(tv, i as int + 1);
                        lemma_group_dv_lens(tv, i as int + 1);
                        assert forall|uu: int|
                            0 <= uu < group_dv(tv, i as int + 1).len() implies !is_derived_spec(
                            tv[q as int].0,
                            (#[trigger] group_dv(tv, i as int + 1)[uu]).0,
                        ) by {
                            assert(appears_in(tv, group_dv(tv, i as int + 1)[uu]));
                            let mm = choose|mm: int|
                                0 <= mm < tv.len() && #[trigger] tv[mm] == group_dv(
                                    tv,
                                    i as int + 1,
                                )[uu];
                            assert(tv[mm].0.len() == i as int + 1);
                        }
                        assert(no_derived_above(tv[q as int], group_dv(tv, i as int + 1)));
                    }
                    let ghost before = non_derived;
                    let pair = (
                        crate::matcher::copy_partition(&partitions[q].0),
                        crate::matcher::copy_partition(&partitions[q].1),
                    );
                    non_derived.push(pair);
                    proof {
                        crate::views::lemma_pair_vec_deep_view_push(before, non_derived, pair);
                        assert((pair.0.deep_view(), pair.1.deep_view()) == tv[q as int]);
                    }
                }
                proof {
                    let g = group_dv(tv.take(q as int), i as int);
                    lemma_kept_dv_snoc(g, tv[q as int], group_dv(tv, i as int + 1));
                    assert(g + seq![tv[q as int]] =~= g.push(tv[q as int]));
                    assert(group_dv(tv.take(q as int + 1), i as int) == g.push(tv[q as int]));
                    let x = upto_prefix;
                    let y = kept_dv(g, group_dv(tv, i as int + 1));
                    if no_derived_above(tv[q as int], group_dv(tv, i as int + 1)) {
                        assert(x + (y + seq![tv[q as int]]) =~= (x + y) + seq![tv[q as int]]);
                        assert((x + y).push(tv[q as int]) =~= (x + y) + seq![tv[q as int]]);
                    } else {
                        assert(y + Seq::<(Seq<Seq<u64>>, Seq<Seq<u64>>)>::empty() =~= y);
                    }
                }
            } else {
                proof {
                    assert(tv[q as int].0.len() != i as int);
                    let g = group_dv(tv.take(q as int), i as int);
                    assert(g + Seq::<(Seq<Seq<u64>>, Seq<Seq<u64>>)>::empty() =~= g);
                    assert(group_dv(tv.take(q as int + 1), i as int) == g);
                }
            }
            q = q + 1;
        }
        proof {
            assert(tv.take(tv.len() as int) =~= tv);
            assert(non_derived.deep_view() == upto_prefix + kept_dv(
                group_dv(tv, i as int),
                group_dv(tv, i as int + 1),
            ));
            assert(non_derived_upto(tv, i as int + 1) == non_derived_upto(tv, i as int)
                + kept_dv(group_dv(tv, i as int), group_dv(tv, i as int + 1)));
        }
        i = i + 1;
    }
    proof {
        assert(non_derived.deep_view() == non_derived_upto(tv, m));
    }
    // Pairs of the largest size are always retained.
    let mut q: usize = 0;
    let ghost upto_all = non_derived.deep_view();
    proof {
        assert(tv.take(0) =~= Seq::<(Seq<Seq<u64>>, Seq<Seq<u64>>)>::empty());
        assert(group_dv(tv.take(0), m).len() == 0);
        assert(non_derived.deep_view() =~= upto_all + group_dv(tv.take(0), m));
    }
    while q < partitions.len()
        invariant
            0 <= q <= partitions@.len(),
            max_index as int == m,
            tv == partitions.deep_view(),
            tv.len() == partitions@.len(),
            forall|mm: int|
                0 <= mm < partitions@.len() ==> #[trigger] tv[mm] == (
                    partitions@[mm].0.deep_view(),
                    partitions@[mm].1.deep_view(),
                ),
            non_derived.deep_view() == upto_all + group_dv(tv.take(q as int), m),
        decreases partitions@.len() - q,
    {
        proof {
            lemma_group_dv_snoc(tv.take(q as int), tv[q as int], m);
            assert(tv.take(q as int + 1) =~= tv.take(q as int).push(tv[q as int]));
            lemma_partition_deep_view(partitions@[q as int].0);
        }
        let tlen = partitions[q].0.len();
        if tlen == max_index {
            let ghost before = non_derived;
            let pair = (
                crate::matcher::copy_partition(&partitions[q].0),
                crate::matcher::copy_partition(&partitions[q].1),
            );
            non_derived.push(pair);
            proof {
                crate::views::lemma_pair_vec_deep_view_push(before, non_derived, pair);
                assert((pair.0.deep_view(), pair.1.deep_view()) == tv[q as int]);
                let x = upto_all;
                let y = group_dv(tv.take(q as int), m);
                assert(x + (y + seq![tv[q as int]]) =~= (x + y) + seq![tv[q as int]]);
                assert((x + y).push(tv[q as int]) =~= (x + y) + seq![tv[q as int]]);
            }
        } else {
            proof {
                let y = group_dv(tv.take(q as int), m);
                assert(y + Seq::<(Seq<Seq<u64>>, Seq<Seq<u64>>)>::empty() =~= y);
            }
        }
        q = q + 1;
    }
    proof {
        assert(tv.take(tv.len() as int) =~= tv);
    }
    non_derived
}

} // verus!
