use vstd::prelude::*;

use crate::coord::Coord;

verus! {

/// The pairs `(i, j)` recorded between two tracks.
pub type PairsView = Seq<(usize, usize)>;

/// The partners of one track, each with its recorded pairs.
pub type PartnersView = Seq<(Seq<char>, PairsView)>;

/// A correspondence map, as its rows: each track with its partners.
pub type RowsView = Seq<(Seq<char>, PartnersView)>;

/// For each track `a`, the tracks `b` it was compared with and the index
/// pairs `(i, j)` such that point `i` of `a` lies within the threshold of
/// point `j` of `b`. Rows and partners keep the order in which they were
/// recorded.
#[derive(Debug, PartialEq, Eq)]
pub struct CorrespondenceMap {
    pub rows: Vec<(String, Vec<(String, Vec<(usize, usize)>)>)>,
}

pub open spec fn partners_view(v: Seq<(String, Vec<(usize, usize)>)>) -> PartnersView {
    v.map_values(|e: (String, Vec<(usize, usize)>)| (e.0@, e.1@))
}

pub open spec fn rows_view(v: Seq<(String, Vec<(String, Vec<(usize, usize)>)>)>) -> RowsView {
    v.map_values(|e: (String, Vec<(String, Vec<(usize, usize)>)>)| (e.0@, partners_view(e.1@)))
}

impl View for CorrespondenceMap {
    type V = RowsView;

    open spec fn view(&self) -> RowsView {
        rows_view(self.rows@)
    }
}

/// No key occurs twice in a sequence of keyed entries.
pub open spec fn keys_unique<V>(s: Seq<(Seq<char>, V)>) -> bool {
    forall|i: int, j: int| 0 <= i < j < s.len() ==> s[i].0 != s[j].0
}

/// A map in which each track heads at most one row and names each partner
/// at most once.
pub open spec fn map_wf(m: RowsView) -> bool {
    &&& keys_unique(m)
    &&& forall|i: int| 0 <= i < m.len() ==> keys_unique(#[trigger] m[i].1)
}

/// A map without empty entries: each row has a partner, each partner a pair.
pub open spec fn pruned(m: RowsView) -> bool {
    forall|i: int|
        0 <= i < m.len() ==> {
            &&& (#[trigger] m[i]).1.len() > 0
            &&& forall|j: int| 0 <= j < m[i].1.len() ==> (#[trigger] m[i].1[j]).1.len() > 0
        }
}

/// The value under the first entry with key `k`, if there is one.
pub open spec fn find<V>(s: Seq<(Seq<char>, V)>, k: Seq<char>) -> Option<V>
    decreases s.len(),
{
    if s.len() == 0 {
        None
    } else if s[0].0 == k {
        Some(s[0].1)
    } else {
        find(s.drop_first(), k)
    }
}

/// The pairs recorded from track `a` to track `b`, if any.
pub open spec fn pairs_of(m: RowsView, a: Seq<char>, b: Seq<char>) -> Option<PairsView> {
    match find(m, a) {
        Some(partners) => find(partners, b),
        None => None,
    }
}

/// The pairs between two tracks as the map records them: under `b -> a`
/// where `b` heads a row, else under `a -> b`, else none.
pub open spec fn common_pairs(m: RowsView, a: Seq<char>, b: Seq<char>) -> PairsView {
    let (first, second) = if find(m, b) is Some { (b, a) } else { (a, b) };
    match pairs_of(m, first, second) {
        Some(p) => p,
        None => Seq::empty(),
    }
}

proof fn lemma_find_skip<V>(s: Seq<(Seq<char>, V)>, k: Seq<char>, i: int)
    requires
        0 <= i < s.len(),
        s[i].0 != k,
    ensures
        find(s.skip(i), k) == find(s.skip(i + 1), k),
{
    assert(s.skip(i).drop_first() == s.skip(i + 1));
}

/// Index of the first row headed by `key`, or the number of rows.
fn row_position(rows: &Vec<(String, Vec<(String, Vec<(usize, usize)>)>)>, key: &String) -> (r: usize)
    ensures
        r <= rows@.len(),
        r < rows@.len() ==> find(rows_view(rows@), key@) == Some(rows_view(rows@)[r as int].1),
        r == rows@.len() ==> find(rows_view(rows@), key@) is None,
{
    let n = rows.len();
    let mut i: usize = 0;
    let ghost v = rows_view(rows@);
    assert(v.skip(0) == v);
    while i < n
        invariant
            n == rows@.len(),
            v == rows_view(rows@),
            i <= n,
            find(v, key@) == find(v.skip(i as int), key@),
        decreases n - i,
    {
        if rows[i].0.eq(key) {
            assert(v.skip(i as int)[0] == v[i as int]);
            return i;
        }
        proof {
            lemma_find_skip(v, key@, i as int);
        }
        i = i + 1;
    }
    assert(v.skip(n as int).len() == 0);
    n
}

/// Index of the first partner named `key`, or the number of partners.
fn partner_position(partners: &Vec<(String, Vec<(usize, usize)>)>, key: &String) -> (r: usize)
    ensures
        r <= partners@.len(),
        r < partners@.len() ==> find(partners_view(partners@), key@) == Some(
            partners@[r as int].1@,
        ),
        r == partners@.len() ==> find(partners_view(partners@), key@) is None,
{
    let n = partners.len();
    let mut i: usize = 0;
    let ghost v = partners_view(partners@);
    assert(v.skip(0) == v);
    while i < n
        invariant
            n == partners@.len(),
            v == partners_view(partners@),
            i <= n,
            find(v, key@) == find(v.skip(i as int), key@),
        decreases n - i,
    {
        if partners[i].0.eq(key) {
            assert(v.skip(i as int)[0] == v[i as int]);
            return i;
        }
        proof {
            lemma_find_skip(v, key@, i as int);
        }
        i = i + 1;
    }
    assert(v.skip(n as int).len() == 0);
    n
}

/// A copy of a list of index pairs.
pub fn copy_pairs(v: &Vec<(usize, usize)>) -> (r: Vec<(usize, usize)>)
    ensures
        r@ == v@,
{
    let mut r: Vec<(usize, usize)> = Vec::new();
    let n = v.len();
    let mut i: usize = 0;
    while i < n
        invariant
            n == v@.len(),
            i <= n,
            r@ == v@.take(i as int),
        decreases n - i,
    {
        r.push(v[i]);
        assert(v@.take(i + 1) == v@.take(i as int).push(v@[i as int]));
        i = i + 1;
    }
    assert(v@.take(n as int) == v@);
    r
}

impl CorrespondenceMap {
    pub fn new() -> (r: CorrespondenceMap)
        ensures
            r@ == RowsView::empty(),
    {
        CorrespondenceMap { rows: Vec::new() }
    }

    /// Whether `a` heads a row of the map.
    pub fn contains_key(&self, a: &String) -> (r: bool)
        ensures
            r == find(self@, a@) is Some,
    {
        row_position(&self.rows, a) < self.rows.len()
    }

    /// The pairs recorded from track `a` to track `b`, if any.
    pub fn get(&self, a: &String, b: &String) -> (r: Option<&Vec<(usize, usize)>>)
        ensures
            r is Some <==> pairs_of(self@, a@, b@) is Some,
            r is Some ==> pairs_of(self@, a@, b@) == Some(r->Some_0@),
    {
        let i = row_position(&self.rows, a);
        if i == self.rows.len() {
            return None;
        }
        let partners = &self.rows[i].1;
        let j = partner_position(partners, b);
        if j == partners.len() {
            return None;
        }
        Some(&partners[j].1)
    }
}

/// The index pairs between tracks `file_1` and `file_2`: those the map holds
/// under `file_2 -> file_1` where `file_2` heads a row, else those under
/// `file_1 -> file_2`, and none where that entry is absent.
pub fn find_common_coords_indexes(map: &CorrespondenceMap, file_1: &String, file_2: &String) -> (r:
    Vec<(usize, usize)>)
    ensures
        r@ == common_pairs(map@, file_1@, file_2@),
{
    let (first, second) = if map.contains_key(file_2) {
        (file_2, file_1)
    } else {
        (file_1, file_2)
    };
    match map.get(first, second) {
        Some(pairs) => copy_pairs(pairs),
        None => Vec::new(),
    }
}

/// The points that index pairs name: `(first[i], second[j])` for each
/// `(i, j)`, in order.
pub fn indexes_to_coords(first: &Vec<Coord>, second: &Vec<Coord>, indexes: &Vec<(usize, usize)>) -> (r:
    Vec<(Coord, Coord)>)
    requires
        forall|k: int|
            0 <= k < indexes@.len() ==> (#[trigger] indexes@[k]).0 < first@.len() && indexes@[k].1
                < second@.len(),
    ensures
        r@ == indexes@.map_values(|p: (usize, usize)| (first@[p.0 as int], second@[p.1 as int])),
{
    let mut coords_pairs: Vec<(Coord, Coord)> = Vec::new();
    let n = indexes.len();
    let mut k: usize = 0;
    while k < n
        invariant
            n == indexes@.len(),
            k <= n,
            forall|t: int|
                0 <= t < indexes@.len() ==> (#[trigger] indexes@[t]).0 < first@.len()
                    && indexes@[t].1 < second@.len(),
            coords_pairs@ == indexes@.take(k as int).map_values(
                |p: (usize, usize)| (first@[p.0 as int], second@[p.1 as int]),
            ),
        decreases n - k,
    {
        let (i, j) = indexes[k];
        coords_pairs.push((first[i], second[j]));
        assert(indexes@.take(k + 1) == indexes@.take(k as int).push(indexes@[k as int]));
        k = k + 1;
    }
    assert(indexes@.take(n as int) == indexes@);
    coords_pairs
}

} // verus!
