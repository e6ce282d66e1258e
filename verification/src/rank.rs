//! The order in which candidate swizzles are ranked: fewest serialized
//! transactions first, then fewest conflicting accesses, then most banks used,
//! then by parameters, and finally in the order the candidates were given.
use vstd::prelude::*;
use vstd::relations::{sorted_by, total_ordering};

verus! {

/// What a candidate is ranked by, and where it stood among the candidates.
#[derive(Debug, Clone, Copy)]
pub struct RankKey {
    pub max_conflict_degree: usize,
    pub conflicting_accesses: usize,
    pub unique_banks: usize,
    pub b: u8,
    pub m: u8,
    pub s: u8,
    pub index: usize,
}

/// Whether `x` ranks no later than `y`.
pub open spec fn rank_leq(x: RankKey, y: RankKey) -> bool {
    if x.max_conflict_degree != y.max_conflict_degree {
        x.max_conflict_degree < y.max_conflict_degree
    } else if x.conflicting_accesses != y.conflicting_accesses {
        x.conflicting_accesses < y.conflicting_accesses
    } else if x.unique_banks != y.unique_banks {
        x.unique_banks > y.unique_banks
    } else if x.b != y.b {
        x.b < y.b
    } else if x.m != y.m {
        x.m < y.m
    } else if x.s != y.s {
        x.s < y.s
    } else {
        x.index <= y.index
    }
}

pub open spec fn rank_order() -> spec_fn(RankKey, RankKey) -> bool {
    |x: RankKey, y: RankKey| rank_leq(x, y)
}

/// The ranking order is a total order on keys.
pub proof fn lemma_rank_total()
    ensures
        total_ordering(rank_order()),
{
    let r = rank_order();
    assert forall|x: RankKey, y: RankKey| #[trigger] r(x, y) && #[trigger] r(y, x) implies x
        == y by {
        assert(rank_leq(x, y) && rank_leq(y, x));
    }
    assert forall|x: RankKey, y: RankKey, z: RankKey| #[trigger] r(x, y) && #[trigger] r(
        y,
        z,
    ) implies r(x, z) by {
        assert(rank_leq(x, y) && rank_leq(y, z));
    }
    assert forall|x: RankKey, y: RankKey| #[trigger] r(x, y) || #[trigger] r(y, x) by {
        assert(rank_leq(x, y) || rank_leq(y, x));
    }
    assert forall|x: RankKey| #[trigger] r(x, x) by {
        assert(rank_leq(x, x));
    }
}

fn rank_le(x: &RankKey, y: &RankKey) -> (r: bool)
    ensures
        r == rank_leq(*x, *y),
{
    if x.max_conflict_degree != y.max_conflict_degree {
        x.max_conflict_degree < y.max_conflict_degree
    } else if x.conflicting_accesses != y.conflicting_accesses {
        x.conflicting_accesses < y.conflicting_accesses
    } else if x.unique_banks != y.unique_banks {
        x.unique_banks > y.unique_banks
    } else if x.b != y.b {
        x.b < y.b
    } else if x.m != y.m {
        x.m < y.m
    } else if x.s != y.s {
        x.s < y.s
    } else {
        x.index <= y.index
    }
}

proof fn lemma_insert_multiset<A>(s: Seq<A>, p: int, x: A)
    requires
        0 <= p <= s.len(),
    ensures
        s.insert(p, x).to_multiset() == s.to_multiset().insert(x),
{
    broadcast use vstd::seq_lib::group_to_multiset_ensures;

    let a = s.take(p);
    let b = s.skip(p);
    assert(s.insert(p, x) =~= a.push(x) + b);
    assert(s =~= a + b);
    vstd::seq_lib::lemma_multiset_commutative(a.push(x), b);
    vstd::seq_lib::lemma_multiset_commutative(a, b);
    assert(a.push(x).to_multiset() == a.to_multiset().insert(x));
    assert(a.to_multiset().insert(x).add(b.to_multiset()) =~= a.to_multiset().add(
        b.to_multiset(),
    ).insert(x));
}

/// The keys in ranking order.
pub fn sort_keys(v: &Vec<RankKey>) -> (r: Vec<RankKey>)
    ensures
        r@ == v@.sort_by(rank_order()),
{
    let mut out: Vec<RankKey> = Vec::new();
    let mut i: usize = 0;
    proof {
        lemma_rank_total();
    }
    assert(v@.take(0) =~= Seq::<RankKey>::empty());
    while i < v.len()
        invariant
            i <= v@.len(),
            out@.to_multiset() == v@.take(i as int).to_multiset(),
            sorted_by(out@, rank_order()),
            total_ordering(rank_order()),
        decreases v.len() - i,
    {
        let x = v[i];
        let mut p: usize = 0;
        while p < out.len() && rank_le(&out[p], &x)
            invariant
                p <= out@.len(),
                forall|q: int| 0 <= q < p ==> rank_leq(out@[q], x),
            decreases out.len() - p,
        {
            p += 1;
        }
        let ghost before = out@;
        proof {
            lemma_insert_multiset(before, p as int, x);
            assert(v@.take(i + 1) =~= v@.take(i as int).push(x));
            broadcast use vstd::seq_lib::group_to_multiset_ensures;

        }
        out.insert(p, x);
        proof {
            let r = rank_order();
            assert(out@ =~= before.insert(p as int, x));
            if p < before.len() {
                assert(!rank_leq(before[p as int], x));
                assert(rank_leq(x, before[p as int]));
            }
            assert forall|a: int, c: int| 0 <= a < c < out@.len() implies #[trigger] r(
                out@[a],
                out@[c],
            ) by {
                if c < p {
                    assert(r(before[a], before[c]));
                } else if c == p {
                    assert(rank_leq(before[a], x));
                } else if a < p {
                    assert(r(before[a], before[c - 1]));
                } else if a == p {
                    if c - 1 > p {
                        assert(r(before[p as int], before[c - 1]));
                    }
                    assert(rank_leq(x, before[c - 1]));
                } else {
                    assert(r(before[a - 1], before[c - 1]));
                }
            }
        }
        i += 1;
    }
    proof {
        assert(v@.take(v@.len() as int) =~= v@);
        v@.lemma_sort_by_ensures(rank_order());
        vstd::seq_lib::lemma_sorted_unique(out@, v@.sort_by(rank_order()), rank_order());
    }
    out
}

} // verus!
