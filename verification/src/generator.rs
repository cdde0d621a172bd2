use vstd::prelude::*;

verus! {

use crate::sums::seq_sum;

/// Walk the coin vector keeping coins while they fit into the remaining
/// debt `d`, and split the first coin that exceeds the debt into its excess
/// and the debt itself; the synthetic transaction generator uses this to
/// reconcile cross-transaction sum drift.
pub open spec fn realize_subsum_spec(v: Seq<u64>, d: u64) -> Seq<u64>
    decreases v.len(),
{
    if v.len() == 0 {
        Seq::empty()
    } else if d == 0 {
        seq![v[0]] + realize_subsum_spec(v.drop_first(), 0)
    } else if v[0] <= d {
        seq![v[0]] + realize_subsum_spec(v.drop_first(), (d - v[0]) as u64)
    } else {
        seq![(v[0] - d) as u64, d] + realize_subsum_spec(v.drop_first(), 0)
    }
}

/// Law: splitting a coin never changes the total value of the vector.
pub proof fn lemma_realize_subsum_sum(v: Seq<u64>, d: u64)
    ensures
        seq_sum(realize_subsum_spec(v, d)) == seq_sum(v),
    decreases v.len(),
{
    if v.len() == 0 {
    } else if d == 0 {
        lemma_realize_subsum_sum(v.drop_first(), 0);
        let rest = realize_subsum_spec(v.drop_first(), 0);
        assert((seq![v[0]] + rest).drop_first() =~= rest);
        assert((seq![v[0]] + rest)[0] == v[0]);
    } else if v[0] <= d {
        lemma_realize_subsum_sum(v.drop_first(), (d - v[0]) as u64);
        let rest = realize_subsum_spec(v.drop_first(), (d - v[0]) as u64);
        assert((seq![v[0]] + rest).drop_first() =~= rest);
        assert((seq![v[0]] + rest)[0] == v[0]);
    } else {
        lemma_realize_subsum_sum(v.drop_first(), 0);
        let rest = realize_subsum_spec(v.drop_first(), 0);
        let s = seq![(v[0] - d) as u64, d] + rest;
        assert(s[0] == (v[0] - d) as u64);
        assert(s.drop_first()[0] == d);
        assert(s.drop_first().drop_first() =~= rest);
        assert(seq_sum(s) == (v[0] - d) as u64 + seq_sum(s.drop_first()));
        assert(seq_sum(s.drop_first()) == d + seq_sum(rest));
    }
}

/// Realize `sum` out of the vector by splitting at most one coin.
pub fn realize_subsum(v: &Vec<u64>, sum: u64) -> (r: Vec<u64>)
    ensures
        r@ == realize_subsum_spec(v@, sum),
{
    let mut d: u64 = sum;
    let mut r: Vec<u64> = Vec::new();
    let mut i: usize = 0;
    proof {
        assert(v@.skip(0) =~= v@);
        assert(r@ + realize_subsum_spec(v@.skip(0), d) =~= realize_subsum_spec(v@, sum));
    }
    while i < v.len()
        invariant
            0 <= i <= v@.len(),
            realize_subsum_spec(v@, sum) == r@ + realize_subsum_spec(v@.skip(i as int), d),
        decreases v@.len() - i,
    {
        let ghost suffix = v@.skip(i as int);
        let ghost r0 = r@;
        let ghost d0 = d;
        proof {
            assert(suffix[0] == v@[i as int]);
            assert(suffix.drop_first() =~= v@.skip(i as int + 1));
        }
        let o = v[i];
        if d == 0 {
            r.push(o);
        } else if o <= d {
            d = d - o;
            r.push(o);
        } else {
            r.push(o - d);
            r.push(d);
            d = 0;
        }
        proof {
            let rest = realize_subsum_spec(v@.skip(i as int + 1), d);
            if d0 == 0 {
                assert(realize_subsum_spec(suffix, d0) == seq![v@[i as int]] + rest);
                assert(r@ =~= r0 + seq![v@[i as int]]);
                assert(r0 + (seq![v@[i as int]] + rest) =~= (r0 + seq![v@[i as int]]) + rest);
            } else if v@[i as int] <= d0 {
                assert(realize_subsum_spec(suffix, d0) == seq![v@[i as int]] + rest);
                assert(r@ =~= r0 + seq![v@[i as int]]);
                assert(r0 + (seq![v@[i as int]] + rest) =~= (r0 + seq![v@[i as int]]) + rest);
            } else {
                let pair = seq![(v@[i as int] - d0) as u64, d0];
                assert(realize_subsum_spec(suffix, d0) == pair + rest);
                assert(r@ =~= r0 + pair);
                assert(r0 + (pair + rest) =~= (r0 + pair) + rest);
            }
        }
        i = i + 1;
    }
    proof {
        assert(v@.skip(v@.len() as int) =~= Seq::<u64>::empty());
        assert(realize_subsum_spec(v@.skip(v@.len() as int), d) == Seq::<u64>::empty());
        assert(r@ =~= r@ + Seq::<u64>::empty());
    }
    r
}

} // verus!
