use vstd::prelude::*;

use crate::coord::Coord;

verus! {

/// Position `i` ranks before position `j`: its distance is smaller, or the
/// distances are equal and `i` comes first.
pub open spec fn ranks_before(d: Seq<u64>, i: int, j: int) -> bool {
    d[i] < d[j] || (d[i] == d[j] && i < j)
}

/// `order` lists every position of `d` once, nearest first, ties in
/// position order (the order of a stable sort by distance).
pub open spec fn is_ranking(d: Seq<u64>, order: Seq<usize>) -> bool {
    &&& order.len() == d.len()
    &&& forall|a: int| 0 <= a < order.len() ==> #[trigger] order[a] < d.len()
    &&& forall|i: usize| i < d.len() ==> #[trigger] order.contains(i)
    &&& forall|a: int, b: int|
        0 <= a < b < order.len() ==> ranks_before(d, #[trigger] order[a] as int, #[trigger] order[b] as int)
}

/// The ranking without its first entry where that one lies at distance zero.
pub open spec fn without_self(d: Seq<u64>, order: Seq<usize>) -> Seq<usize> {
    if order.len() > 0 && d[order[0] as int] == 0 {
        order.drop_first()
    } else {
        order
    }
}

/// The first `k` points of the ranking, after the entry at distance zero
/// has been dropped.
pub open spec fn nearest_of(points: Seq<Coord>, d: Seq<u64>, order: Seq<usize>, k: nat) -> Seq<Coord> {
    let kept = without_self(d, order);
    let m = if k < kept.len() { k as int } else { kept.len() as int };
    kept.take(m).map_values(|i: usize| points[i as int])
}

/// The positions of `distances`, nearest first, ties in position order.
pub fn ranking(distances: &Vec<u64>) -> (order: Vec<usize>)
    ensures
        is_ranking(distances@, order@),
{
    let d = distances;
    let n = d.len();
    let mut order: Vec<usize> = Vec::new();
    let mut i: usize = 0;
    while i < n
        invariant
            n == d@.len(),
            i <= n,
            order@.len() == i,
            forall|a: int| 0 <= a < order@.len() ==> #[trigger] order@[a] < i,
            forall|t: usize| t < i ==> #[trigger] order@.contains(t),
            forall|a: int, b: int|
                0 <= a < b < order@.len() ==> ranks_before(
                    d@,
                    #[trigger] order@[a] as int,
                    #[trigger] order@[b] as int,
                ),
        decreases n - i,
    {
        // Position `i` goes after every entry at a distance not above its own.
        let mut pos: usize = 0;
        while pos < order.len() && d[order[pos]] <= d[i]
            invariant
                n == d@.len(),
                i < n,
                order@.len() == i,
                pos <= order@.len(),
                forall|a: int| 0 <= a < order@.len() ==> #[trigger] order@[a] < i,
                forall|a: int| 0 <= a < pos ==> d@[#[trigger] order@[a] as int] <= d@[i as int],
                forall|a: int, b: int|
                    0 <= a < b < order@.len() ==> ranks_before(
                        d@,
                        #[trigger] order@[a] as int,
                        #[trigger] order@[b] as int,
                    ),
            decreases order@.len() - pos,
        {
            pos = pos + 1;
        }
        let ghost old_order = order@;
        order.insert(pos, i);
        proof {
            assert(order@ == old_order.insert(pos as int, i));
            assert forall|a: int, b: int| 0 <= a < b < order@.len() implies ranks_before(
                d@,
                #[trigger] order@[a] as int,
                #[trigger] order@[b] as int,
            ) by {
                if b < pos {
                } else if b == pos {
                    assert(d@[old_order[a] as int] <= d@[i as int]);
                } else if a < pos {
                    assert(order@[b] == old_order[b - 1]);
                } else if a == pos {
                    if b - 1 < old_order.len() {
                        // the entry at `pos` is after all those not above `i`
                        assert(old_order[pos as int] == order@[pos + 1]);
                        assert(d@[old_order[pos as int] as int] > d@[i as int]);
                        if b - 1 > pos {
                            assert(ranks_before(d@, old_order[pos as int] as int, old_order[b - 1] as int));
                        }
                    }
                } else {
                    assert(order@[a] == old_order[a - 1]);
                    assert(order@[b] == old_order[b - 1]);
                }
            }
            assert forall|t: usize| t < i + 1 implies #[trigger] order@.contains(t) by {
                if t == i {
                    assert(order@[pos as int] == i);
                } else {
                    assert(old_order.contains(t));
                    let a = choose|a: int| 0 <= a < old_order.len() && old_order[a] == t;
                    if a < pos {
                        assert(order@[a] == t);
                    } else {
                        assert(order@[a + 1] == t);
                    }
                }
            }
        }
        i = i + 1;
    }
    order
}

/// The `k` points nearest to a query, nearest first, ties in input order,
/// where `distances[i]` is the distance of `points[i]` from the query as an
/// order-preserving integer key (for a non-negative double, its bit
/// pattern). Where the nearest lies at distance zero (the query itself), it
/// is left out before the `k` are taken; fewer than `k` come back where the
/// points run out.
pub fn nearest(points: &Vec<Coord>, distances: &Vec<u64>, k: usize) -> (r: Vec<Coord>)
    requires
        points@.len() == distances@.len(),
    ensures
        exists|order: Seq<usize>| is_ranking(distances@, order),
        forall|order: Seq<usize>|
            is_ranking(distances@, order) ==> r@ == nearest_of(points@, distances@, order, k as nat),
{
    let order = ranking(distances);
    let n = order.len();
    let start: usize = if n > 0 && distances[order[0]] == 0 {
        1
    } else {
        0
    };
    let ghost kept = without_self(distances@, order@);
    assert(kept == order@.subrange(start as int, n as int));
    let mut r: Vec<Coord> = Vec::new();
    let mut t: usize = start;
    while t < n && r.len() < k
        invariant
            n == order@.len(),
            n == distances@.len(),
            points@.len() == n,
            is_ranking(distances@, order@),
            start <= t <= n,
            r@.len() == t - start,
            r@.len() <= k,
            kept == order@.subrange(start as int, n as int),
            r@ == kept.take(t - start).map_values(|i: usize| points@[i as int]),
        decreases n - t,
    {
        let idx = order[t];
        r.push(points[idx]);
        assert(kept.take(t + 1 - start) == kept.take(t - start).push(idx));
        t = t + 1;
    }
    assert(r@ == nearest_of(points@, distances@, order@, k as nat));
    assert forall|o: Seq<usize>| is_ranking(distances@, o) implies r@ == nearest_of(
        points@,
        distances@,
        o,
        k as nat,
    ) by {
        lemma_ranking_unique(distances@, o, order@);
    }
    r
}

/// Querying with a point that lies in the set leaves it out of the answer:
/// where `points[z]` is the only point at distance zero and equal points lie
/// at equal distances, no point of the result equals `points[z]`, the first
/// one included.
pub proof fn lemma_self_excluded(
    points: Seq<Coord>,
    d: Seq<u64>,
    order: Seq<usize>,
    k: nat,
    z: usize,
)
    requires
        points.len() == d.len(),
        is_ranking(d, order),
        z < d.len(),
        d[z as int] == 0,
        forall|i: int| 0 <= i < d.len() && d[i] == 0 ==> i == z,
        forall|i: int, j: int|
            0 <= i < d.len() && 0 <= j < d.len() && #[trigger] points[i] == #[trigger] points[j]
                ==> d[i] == d[j],
    ensures
        forall|t: int|
            0 <= t < nearest_of(points, d, order, k).len() ==> #[trigger] nearest_of(
                points,
                d,
                order,
                k,
            )[t] != points[z as int],
{
    assert(order.contains(z));
    let a = choose|a: int| 0 <= a < order.len() && order[a] == z;
    if a > 0 {
        assert(ranks_before(d, order[0] as int, order[a] as int));
        assert(order[0] < d.len());
        let f = order[0] as int;
        assert(d[f] == 0 ==> f == z);
    }
    assert(order[0] == z);
    let kept = without_self(d, order);
    assert(kept == order.drop_first());
    let r = nearest_of(points, d, order, k);
    assert forall|t: int| 0 <= t < r.len() implies #[trigger] r[t] != points[z as int] by {
        let idx = kept[t];
        assert(ranks_before(d, order[0] as int, order[t + 1] as int));
        assert(idx < d.len());
        assert(r[t] == points[idx as int]);
        if points[idx as int] == points[z as int] {
            assert(d[idx as int] == d[z as int]);
        }
    }
}

proof fn lemma_rankings_agree_upto(d: Seq<u64>, o1: Seq<usize>, o2: Seq<usize>, a: int)
    requires
        is_ranking(d, o1),
        is_ranking(d, o2),
        0 <= a < d.len(),
    ensures
        forall|j: int| 0 <= j <= a ==> o1[j] == o2[j],
    decreases a,
{
    if a > 0 {
        lemma_rankings_agree_upto(d, o1, o2, a - 1);
    }
    let x = o1[a];
    let y = o2[a];
    if x != y {
        assert(o1.contains(y));
        let b = choose|b: int| 0 <= b < o1.len() && o1[b] == y;
        assert(o2.contains(x));
        let c = choose|c: int| 0 <= c < o2.len() && o2[c] == x;
        if b < a {
            assert(o2[b] == y);
            assert(ranks_before(d, o2[b] as int, o2[a] as int));
        }
        if c < a {
            assert(o1[c] == x);
            assert(ranks_before(d, o1[c] as int, o1[a] as int));
        }
        assert(ranks_before(d, o1[a] as int, o1[b] as int));
        assert(ranks_before(d, o2[a] as int, o2[c] as int));
    }
}

/// There is one ranking of a list of distances: the order of a stable sort.
pub proof fn lemma_ranking_unique(d: Seq<u64>, o1: Seq<usize>, o2: Seq<usize>)
    requires
        is_ranking(d, o1),
        is_ranking(d, o2),
    ensures
        o1 == o2,
{
    if d.len() > 0 {
        lemma_rankings_agree_upto(d, o1, o2, d.len() - 1);
    }
    assert(o1 =~= o2);
}

} // verus!
