use vstd::prelude::*;

verus! {

use crate::types::CoinSet;
use crate::types::Partition;

/// The deep view of a coin vector coincides with its plain view.
pub proof fn lemma_coins_deep_view(v: CoinSet)
    ensures
        v.deep_view() == v@,
{
    assert(v.deep_view() =~= v@);
}

/// The deep view of a partition indexes to the views of its parts.
pub proof fn lemma_partition_deep_view(p: Partition)
    ensures
        p.deep_view().len() == p@.len(),
        forall|j: int| 0 <= j < p@.len() ==> #[trigger] p.deep_view()[j] == p@[j]@,
{
    assert forall|j: int| 0 <= j < p@.len() implies #[trigger] p.deep_view()[j] == p@[j]@ by {
        lemma_coins_deep_view(p@[j]);
    }
}

/// The deep view of a partition collection indexes down to the views of the
/// individual parts.
pub proof fn lemma_partition_vec_deep_view(ps: Vec<Partition>)
    ensures
        ps.deep_view().len() == ps@.len(),
        forall|i: int| 0 <= i < ps@.len() ==> #[trigger] ps.deep_view()[i] == ps@[i].deep_view(),
        forall|i: int|
            0 <= i < ps@.len() ==> #[trigger] ps.deep_view()[i].len() == ps@[i]@.len(),
        forall|i: int, j: int|
            0 <= i < ps@.len() && 0 <= j < ps@[i]@.len() ==> #[trigger] ps.deep_view()[i][j]
                == ps@[i]@[j]@,
{
    assert forall|i: int| 0 <= i < ps@.len() implies #[trigger] ps.deep_view()[i]
        == ps@[i].deep_view() by {}
    assert forall|i: int, j: int|
        0 <= i < ps@.len() && 0 <= j < ps@[i]@.len() implies #[trigger] ps.deep_view()[i][j]
        == ps@[i]@[j]@ by {
        lemma_partition_deep_view(ps@[i]);
    }
}

/// Pushing a part onto a partition pushes its view onto the deep view.
pub proof fn lemma_partition_deep_view_push(before: Partition, after: Partition, c: CoinSet)
    requires
        after@ == before@.push(c),
    ensures
        after.deep_view() == before.deep_view().push(c@),
{
    lemma_partition_deep_view(before);
    lemma_partition_deep_view(after);
    lemma_coins_deep_view(c);
    assert forall|j: int| 0 <= j < after@.len() implies after.deep_view()[j]
        == before.deep_view().push(c@)[j] by {
        if j < before@.len() {
            assert(after@[j] == before@[j]);
        } else {
            assert(after@[j] == c);
        }
    }
    assert(after.deep_view() =~= before.deep_view().push(c@));
}

/// Pushing a partition onto a collection pushes its deep view onto the
/// collection's deep view.
pub proof fn lemma_partition_vec_deep_view_push(
    before: Vec<Partition>,
    after: Vec<Partition>,
    x: Partition,
)
    requires
        after@ == before@.push(x),
    ensures
        after.deep_view() == before.deep_view().push(x.deep_view()),
{
    lemma_partition_vec_deep_view(before);
    lemma_partition_vec_deep_view(after);
    assert forall|j: int| 0 <= j < after@.len() implies after.deep_view()[j]
        == before.deep_view().push(x.deep_view())[j] by {
        if j < before@.len() {
            assert(after@[j] == before@[j]);
        } else {
            assert(after@[j] == x);
        }
    }
    assert(after.deep_view() =~= before.deep_view().push(x.deep_view()));
}

/// The deep view of a vector of partition pairs indexes to the pairs of
/// deep views.
pub proof fn lemma_pair_vec_deep_view(ts: Vec<(Partition, Partition)>)
    ensures
        ts.deep_view().len() == ts@.len(),
        forall|k: int|
            0 <= k < ts@.len() ==> #[trigger] ts.deep_view()[k] == (
                ts@[k].0.deep_view(),
                ts@[k].1.deep_view(),
            ),
{
}

/// Pushing a pair onto a vector of partition pairs pushes the pair of deep
/// views onto the deep view.
pub proof fn lemma_pair_vec_deep_view_push(
    before: Vec<(Partition, Partition)>,
    after: Vec<(Partition, Partition)>,
    x: (Partition, Partition),
)
    requires
        after@ == before@.push(x),
    ensures
        after.deep_view() == before.deep_view().push((x.0.deep_view(), x.1.deep_view())),
{
    lemma_pair_vec_deep_view(before);
    lemma_pair_vec_deep_view(after);
    assert forall|j: int| 0 <= j < after@.len() implies after.deep_view()[j]
        == before.deep_view().push((x.0.deep_view(), x.1.deep_view()))[j] by {
        if j < before@.len() {
            assert(after@[j] == before@[j]);
        } else {
            assert(after@[j] == x);
        }
    }
    assert(after.deep_view() =~= before.deep_view().push((x.0.deep_view(), x.1.deep_view())));
}

} // verus!
