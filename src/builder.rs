use vstd::prelude::*;

use crate::artifact::format::{decode_rows, enc_rows};
use crate::artifact::laws::lemma_round_trip;
use crate::coord::Coord;
use crate::corrmap::{find, keys_unique, map_wf, pairs_of, pruned, partners_view, rows_view, CorrespondenceMap, PairsView, PartnersView, RowsView};
use crate::error::TrackError;
use crate::store::TrackStore;

verus! {

/// `close` answers `true` for points `x` and `y` (within the threshold).
pub open spec fn near<F: Fn(Coord, Coord) -> bool>(close: F, x: Coord, y: Coord) -> bool {
    close.ensures((x, y), true)
}

/// `close` accepts every pair of points and gives one answer for each.
pub open spec fn decides<F: Fn(Coord, Coord) -> bool>(close: F) -> bool {
    &&& forall|x: Coord, y: Coord| #[trigger] close.requires((x, y))
    &&& forall|x: Coord, y: Coord| #[trigger]
        close.ensures((x, y), true) ==> !close.ensures((x, y), false)
}

/// The pairs `(i, j)` for one fixed `i`, `j` over `0 .. j_end`, with
/// `a[i]` near `b[j]`.
pub open spec fn match_row<F: Fn(Coord, Coord) -> bool>(
    a: Seq<Coord>,
    b: Seq<Coord>,
    close: F,
    i: int,
    j_end: int,
) -> PairsView
    decreases j_end,
{
    if j_end <= 0 {
        Seq::empty()
    } else {
        match_row(a, b, close, i, j_end - 1) + if near(close, a[i], b[j_end - 1]) {
            seq![(i as usize, (j_end - 1) as usize)]
        } else {
            Seq::empty()
        }
    }
}

/// The pairs `(i, j)` with `i < i_end` and `a[i]` near `b[j]`, by `i`, then `j`.
pub open spec fn matches_upto<F: Fn(Coord, Coord) -> bool>(
    a: Seq<Coord>,
    b: Seq<Coord>,
    close: F,
    i_end: int,
) -> PairsView
    decreases i_end,
{
    if i_end <= 0 {
        Seq::empty()
    } else {
        matches_upto(a, b, close, i_end - 1) + match_row(a, b, close, i_end - 1, b.len() as int)
    }
}

/// Every pair `(i, j)` with `a[i]` near `b[j]`, ascending by `i`, then `j`.
pub open spec fn point_matches<F: Fn(Coord, Coord) -> bool>(
    a: Seq<Coord>,
    b: Seq<Coord>,
    close: F,
) -> PairsView {
    matches_upto(a, b, close, a.len() as int)
}

/// The identifiers of a list of strings.
pub open spec fn id_views(ids: Seq<String>) -> Seq<Seq<char>> {
    ids.map_values(|s: String| s@)
}

/// The entry of partner `ids[q]` in the row of `ids[p]`: present only where
/// some pair of their points matches.
pub open spec fn partner_entry<F: Fn(Coord, Coord) -> bool>(
    tracks: Map<Seq<char>, Seq<Coord>>,
    ids: Seq<Seq<char>>,
    close: F,
    p: int,
    q: int,
) -> PartnersView {
    let m = point_matches(tracks[ids[p]], tracks[ids[q]], close);
    if m.len() > 0 {
        seq![(ids[q], m)]
    } else {
        Seq::empty()
    }
}

/// The partners of `ids[p]` among `ids[p + 1 .. q_end]`, in list order.
pub open spec fn partners_upto<F: Fn(Coord, Coord) -> bool>(
    tracks: Map<Seq<char>, Seq<Coord>>,
    ids: Seq<Seq<char>>,
    close: F,
    p: int,
    q_end: int,
) -> PartnersView
    decreases q_end - p,
{
    if q_end <= p + 1 {
        Seq::empty()
    } else {
        partners_upto(tracks, ids, close, p, q_end - 1) + partner_entry(
            tracks,
            ids,
            close,
            p,
            q_end - 1,
        )
    }
}

/// The row of `ids[p]`: present only where it has a partner.
pub open spec fn row_entry<F: Fn(Coord, Coord) -> bool>(
    tracks: Map<Seq<char>, Seq<Coord>>,
    ids: Seq<Seq<char>>,
    close: F,
    p: int,
) -> RowsView {
    let row = partners_upto(tracks, ids, close, p, ids.len() as int);
    if row.len() > 0 {
        seq![(ids[p], row)]
    } else {
        Seq::empty()
    }
}

/// The rows of `ids[0 .. p_end]`, in list order.
pub open spec fn rows_upto<F: Fn(Coord, Coord) -> bool>(
    tracks: Map<Seq<char>, Seq<Coord>>,
    ids: Seq<Seq<char>>,
    close: F,
    p_end: int,
) -> RowsView
    decreases p_end,
{
    if p_end <= 0 {
        Seq::empty()
    } else {
        rows_upto(tracks, ids, close, p_end - 1) + row_entry(tracks, ids, close, p_end - 1)
    }
}

/// The correspondence map of the tracks named by `ids`: each unordered pair
/// of positions `p < q` compared once, recorded under `ids[p] -> ids[q]`.
pub open spec fn correspondences<F: Fn(Coord, Coord) -> bool>(
    tracks: Map<Seq<char>, Seq<Coord>>,
    ids: Seq<Seq<char>>,
    close: F,
) -> RowsView {
    rows_upto(tracks, ids, close, ids.len() as int)
}

/// Every pair `(i, j)` such that `close(a[i], b[j])`, ascending by `i`, then `j`.
pub fn matches_for_pair<F: Fn(Coord, Coord) -> bool>(a: &Vec<Coord>, b: &Vec<Coord>, close: &F) -> (r:
    Vec<(usize, usize)>)
    requires
        decides(*close),
    ensures
        r@ == point_matches(a@, b@, *close),
{
    let mut out: Vec<(usize, usize)> = Vec::new();
    let na = a.len();
    let nb = b.len();
    let mut i: usize = 0;
    while i < na
        invariant
            na == a@.len(),
            nb == b@.len(),
            i <= na,
            decides(*close),
            out@ == matches_upto(a@, b@, *close, i as int),
        decreases na - i,
    {
        let ghost before = out@;
        let mut j: usize = 0;
        while j < nb
            invariant
                na == a@.len(),
                nb == b@.len(),
                i < na,
                j <= nb,
                decides(*close),
                before == matches_upto(a@, b@, *close, i as int),
                out@ == before + match_row(a@, b@, *close, i as int, j as int),
            decreases nb - j,
        {
            let x = a[i];
            let y = b[j];
            let hit = close(x, y);
            if hit {
                out.push((i, j));
                assert(out@ == before + match_row(a@, b@, *close, i as int, j + 1));
            } else {
                assert(out@ == before + match_row(a@, b@, *close, i as int, j + 1));
            }
            j = j + 1;
        }
        i = i + 1;
    }
    out
}

/// Every identifier of `ids` names a track of `tracks`.
pub open spec fn all_present(tracks: Map<Seq<char>, Seq<Coord>>, ids: Seq<Seq<char>>) -> bool {
    forall|k: int| 0 <= k < ids.len() ==> tracks.contains_key(#[trigger] ids[k])
}

/// `ids[m]` is the first identifier of `ids` that names no track.
pub open spec fn first_missing(tracks: Map<Seq<char>, Seq<Coord>>, ids: Seq<Seq<char>>, m: int) -> bool {
    &&& 0 <= m < ids.len()
    &&& !tracks.contains_key(ids[m])
    &&& forall|k: int| 0 <= k < m ==> tracks.contains_key(#[trigger] ids[k])
}

/// Compares every unordered pair of the tracks named by `ids` point by point,
/// and records under `ids[p] -> ids[q]` (`p < q`) each pair `(i, j)` with
/// `close(track p [i], track q [j])`, leaving out empty entries. Fails with
/// `NotFound` naming the first identifier that the store does not hold.
pub fn build_correspondences<F: Fn(Coord, Coord) -> bool>(
    store: &TrackStore,
    ids: &Vec<String>,
    close: &F,
) -> (r: Result<CorrespondenceMap, TrackError>)
    requires
        store.wf(),
        decides(*close),
        id_views(ids@).no_duplicates(),
    ensures
        r is Ok <==> all_present(store@, id_views(ids@)),
        r matches Ok(m) ==> m@ == correspondences(store@, id_views(ids@), *close),
        r matches Ok(m) ==> map_wf(m@) && pruned(m@),
        r matches Err(e) ==> exists|m: int|
            first_missing(store@, id_views(ids@), m) && e == TrackError::NotFound(ids@[m]),
{
    let ghost idv = id_views(ids@);
    let n = ids.len();
    let mut tracks: Vec<&Vec<Coord>> = Vec::new();
    let mut k: usize = 0;
    while k < n
        invariant
            n == ids@.len(),
            idv == id_views(ids@),
            store.wf(),
            k <= n,
            tracks@.len() == k,
            forall|t: int| 0 <= t < k ==> store@.contains_key(#[trigger] idv[t]),
            forall|t: int| 0 <= t < k ==> (#[trigger] tracks@[t])@ == store@[idv[t]],
        decreases n - k,
    {
        match store.get(&ids[k]) {
            Some(points) => {
                tracks.push(points);
            },
            None => {
                let missing = ids[k].clone();
                assert(first_missing(store@, idv, k as int));
                return Err(TrackError::NotFound(missing));
            },
        }
        k = k + 1;
    }
    let mut rows: Vec<(String, Vec<(String, Vec<(usize, usize)>)>)> = Vec::new();
    let mut p: usize = 0;
    while p < n
        invariant
            n == ids@.len(),
            idv == id_views(ids@),
            decides(*close),
            all_present(store@, idv),
            tracks@.len() == n,
            forall|t: int| 0 <= t < n ==> (#[trigger] tracks@[t])@ == store@[idv[t]],
            p <= n,
            rows_view(rows@) == rows_upto(store@, idv, *close, p as int),
        decreases n - p,
    {
        let mut partners: Vec<(String, Vec<(usize, usize)>)> = Vec::new();
        let mut q: usize = p + 1;
        while q < n
            invariant
                n == ids@.len(),
                idv == id_views(ids@),
                decides(*close),
                tracks@.len() == n,
                forall|t: int| 0 <= t < n ==> (#[trigger] tracks@[t])@ == store@[idv[t]],
                p < n,
                p + 1 <= q <= n,
                partners_view(partners@) == partners_upto(store@, idv, *close, p as int, q as int),
            decreases n - q,
        {
            let found = matches_for_pair(tracks[p], tracks[q], close);
            if found.len() > 0 {
                let name = ids[q].clone();
                let ghost pv = partners_view(partners@);
                partners.push((name, found));
                assert(partners_view(partners@) == pv.push((idv[q as int], found@)));
            }
            assert(partners_view(partners@) == partners_upto(store@, idv, *close, p as int, q + 1));
            q = q + 1;
        }
        if partners.len() > 0 {
            let name = ids[p].clone();
            let ghost rv = rows_view(rows@);
            let ghost pv = partners_view(partners@);
            rows.push((name, partners));
            assert(rows_view(rows@) == rv.push((idv[p as int], pv)));
        }
        assert(rows_view(rows@) == rows_upto(store@, idv, *close, p + 1));
        p = p + 1;
    }
    proof {
        lemma_built_map_valid(store@, idv, *close);
    }
    Ok(CorrespondenceMap { rows })
}

proof fn lemma_find_concat<V>(s: Seq<(Seq<char>, V)>, t: Seq<(Seq<char>, V)>, k: Seq<char>)
    ensures
        find(s + t, k) == match find(s, k) {
            Some(v) => Some(v),
            None => find(t, k),
        },
    decreases s.len(),
{
    if s.len() == 0 {
        assert(s + t == t);
    } else {
        assert((s + t)[0] == s[0]);
        assert((s + t).drop_first() == s.drop_first() + t);
        lemma_find_concat(s.drop_first(), t, k);
    }
}

proof fn lemma_find_partners<F: Fn(Coord, Coord) -> bool>(
    tracks: Map<Seq<char>, Seq<Coord>>,
    ids: Seq<Seq<char>>,
    close: F,
    p: int,
    q_end: int,
    q: int,
)
    requires
        ids.no_duplicates(),
        0 <= p < ids.len(),
        0 <= q < ids.len(),
        q_end <= ids.len(),
    ensures
        find(partners_upto(tracks, ids, close, p, q_end), ids[q]) == if p < q < q_end
            && point_matches(tracks[ids[p]], tracks[ids[q]], close).len() > 0 {
            Some(point_matches(tracks[ids[p]], tracks[ids[q]], close))
        } else {
            None::<PairsView>
        },
    decreases q_end - p,
{
    if q_end <= p + 1 {
        assert(find(partners_upto(tracks, ids, close, p, q_end), ids[q]) is None);
    } else {
        lemma_find_partners(tracks, ids, close, p, q_end - 1, q);
        lemma_find_concat(
            partners_upto(tracks, ids, close, p, q_end - 1),
            partner_entry(tracks, ids, close, p, q_end - 1),
            ids[q],
        );
        let e = partner_entry(tracks, ids, close, p, q_end - 1);
        if e.len() > 0 {
            assert(e.drop_first().len() == 0);
            assert(find(e.drop_first(), ids[q]) is None);
        } else {
            assert(find(e, ids[q]) is None);
        }
        if q != q_end - 1 {
            assert(ids[q] != ids[q_end - 1]);
        }
    }
}

proof fn lemma_find_rows<F: Fn(Coord, Coord) -> bool>(
    tracks: Map<Seq<char>, Seq<Coord>>,
    ids: Seq<Seq<char>>,
    close: F,
    p_end: int,
    p: int,
)
    requires
        ids.no_duplicates(),
        0 <= p < ids.len(),
        p_end <= ids.len(),
    ensures
        find(rows_upto(tracks, ids, close, p_end), ids[p]) == if p < p_end && partners_upto(
            tracks,
            ids,
            close,
            p,
            ids.len() as int,
        ).len() > 0 {
            Some(partners_upto(tracks, ids, close, p, ids.len() as int))
        } else {
            None::<PartnersView>
        },
    decreases p_end,
{
    if p_end <= 0 {
        assert(find(rows_upto(tracks, ids, close, p_end), ids[p]) is None);
    } else {
        lemma_find_rows(tracks, ids, close, p_end - 1, p);
        lemma_find_concat(
            rows_upto(tracks, ids, close, p_end - 1),
            row_entry(tracks, ids, close, p_end - 1),
            ids[p],
        );
        let e = row_entry(tracks, ids, close, p_end - 1);
        if e.len() > 0 {
            assert(e.drop_first().len() == 0);
            assert(find(e.drop_first(), ids[p]) is None);
        } else {
            assert(find(e, ids[p]) is None);
        }
        if p != p_end - 1 {
            assert(ids[p] != ids[p_end - 1]);
        }
    }
}

proof fn lemma_partners_empty<F: Fn(Coord, Coord) -> bool>(
    tracks: Map<Seq<char>, Seq<Coord>>,
    ids: Seq<Seq<char>>,
    close: F,
    p: int,
    q_end: int,
)
    requires
        forall|q: int|
            p < q < q_end ==> point_matches(tracks[ids[p]], tracks[#[trigger] ids[q]], close).len()
                == 0,
    ensures
        partners_upto(tracks, ids, close, p, q_end).len() == 0,
    decreases q_end - p,
{
    if q_end > p + 1 {
        lemma_partners_empty(tracks, ids, close, p, q_end - 1);
    }
}

/// The entry of the map under `ids[p] -> ids[q]` holds exactly the matching
/// point pairs where `p < q` and some pair matches; there is no entry where
/// `q <= p` (each unordered pair is recorded in one direction only) nor where
/// no pair of points matches.
pub proof fn lemma_correspondence_entries<F: Fn(Coord, Coord) -> bool>(
    tracks: Map<Seq<char>, Seq<Coord>>,
    ids: Seq<Seq<char>>,
    close: F,
    p: int,
    q: int,
)
    requires
        ids.no_duplicates(),
        0 <= p < ids.len(),
        0 <= q < ids.len(),
    ensures
        pairs_of(correspondences(tracks, ids, close), ids[p], ids[q]) == if p < q
            && point_matches(tracks[ids[p]], tracks[ids[q]], close).len() > 0 {
            Some(point_matches(tracks[ids[p]], tracks[ids[q]], close))
        } else {
            None::<PairsView>
        },
{
    let n = ids.len() as int;
    lemma_find_rows(tracks, ids, close, n, p);
    lemma_find_partners(tracks, ids, close, p, n, q);
    if p < q && point_matches(tracks[ids[p]], tracks[ids[q]], close).len() > 0 {
        assert(partners_upto(tracks, ids, close, p, n).len() > 0);
    }
}

/// Where no pair of points of `ids[p]` and `ids[q]` matches, the map has no
/// entry `ids[p] -> ids[q]`.
pub proof fn lemma_pruning<F: Fn(Coord, Coord) -> bool>(
    tracks: Map<Seq<char>, Seq<Coord>>,
    ids: Seq<Seq<char>>,
    close: F,
    p: int,
    q: int,
)
    requires
        ids.no_duplicates(),
        0 <= p < ids.len(),
        0 <= q < ids.len(),
        point_matches(tracks[ids[p]], tracks[ids[q]], close).len() == 0,
    ensures
        pairs_of(correspondences(tracks, ids, close), ids[p], ids[q]) is None,
{
    lemma_correspondence_entries(tracks, ids, close, p, q);
}

/// Where no point of `ids[p]` is near any point of a later track of `ids`,
/// `ids[p]` heads no row of the map, nor of the object that its persisted
/// text holds.
pub proof fn lemma_outer_key_pruned<F: Fn(Coord, Coord) -> bool>(
    tracks: Map<Seq<char>, Seq<Coord>>,
    ids: Seq<Seq<char>>,
    close: F,
    p: int,
)
    requires
        ids.no_duplicates(),
        0 <= p < ids.len(),
        forall|q: int|
            p < q < ids.len() ==> point_matches(tracks[ids[p]], tracks[#[trigger] ids[q]], close).len()
                == 0,
    ensures
        find(correspondences(tracks, ids, close), ids[p]) is None,
        decode_rows(enc_rows(correspondences(tracks, ids, close))) matches Some(m) && find(m, ids[p])
            is None,
{
    let n = ids.len() as int;
    lemma_find_rows(tracks, ids, close, n, p);
    lemma_partners_empty(tracks, ids, close, p, n);
    lemma_built_map_valid(tracks, ids, close);
    lemma_round_trip(correspondences(tracks, ids, close));
}

/// Running the builder twice on the same tracks, identifiers and closeness
/// test yields maps whose persisted texts are identical.
pub proof fn lemma_deterministic_output<F: Fn(Coord, Coord) -> bool>(
    tracks: Map<Seq<char>, Seq<Coord>>,
    ids: Seq<Seq<char>>,
    close: F,
    first: RowsView,
    second: RowsView,
)
    requires
        first == correspondences(tracks, ids, close),
        second == correspondences(tracks, ids, close),
    ensures
        enc_rows(first) == enc_rows(second),
{
}

proof fn lemma_partners_shape<F: Fn(Coord, Coord) -> bool>(
    tracks: Map<Seq<char>, Seq<Coord>>,
    ids: Seq<Seq<char>>,
    close: F,
    p: int,
    q_end: int,
)
    requires
        ids.no_duplicates(),
        0 <= p < ids.len(),
        q_end <= ids.len(),
    ensures
        keys_unique(partners_upto(tracks, ids, close, p, q_end)),
        forall|j: int|
            0 <= j < partners_upto(tracks, ids, close, p, q_end).len() ==> exists|q: int|
                p < q < q_end && (#[trigger] partners_upto(tracks, ids, close, p, q_end)[j]) == (
                    ids[q],
                    point_matches(tracks[ids[p]], tracks[ids[q]], close),
                ) && point_matches(tracks[ids[p]], tracks[ids[q]], close).len() > 0,
    decreases q_end - p,
{
    if q_end > p + 1 {
        lemma_partners_shape(tracks, ids, close, p, q_end - 1);
        let prev = partners_upto(tracks, ids, close, p, q_end - 1);
        let e = partner_entry(tracks, ids, close, p, q_end - 1);
        let all = partners_upto(tracks, ids, close, p, q_end);
        assert(all == prev + e);
        assert forall|j: int| 0 <= j < all.len() implies exists|q: int|
            p < q < q_end && (#[trigger] all[j]) == (
                ids[q],
                point_matches(tracks[ids[p]], tracks[ids[q]], close),
            ) && point_matches(tracks[ids[p]], tracks[ids[q]], close).len() > 0 by {
            if j < prev.len() {
                assert(all[j] == prev[j]);
            } else {
                assert(all[j] == e[0]);
                let q = q_end - 1;
                assert(p < q < q_end);
            }
        }
        assert forall|a: int, b: int| 0 <= a < b < all.len() implies all[a].0 != all[b].0 by {
            if b >= prev.len() {
                assert(all[a] == prev[a]);
                assert(all[b] == e[0]);
                let qa = choose|q: int|
                    p < q < q_end - 1 && prev[a] == (
                        ids[q],
                        point_matches(tracks[ids[p]], tracks[ids[q]], close),
                    ) && point_matches(tracks[ids[p]], tracks[ids[q]], close).len() > 0;
                assert(ids[qa] != ids[q_end - 1]);
            } else {
                assert(all[a] == prev[a]);
                assert(all[b] == prev[b]);
            }
        }
    }
}

proof fn lemma_rows_shape<F: Fn(Coord, Coord) -> bool>(
    tracks: Map<Seq<char>, Seq<Coord>>,
    ids: Seq<Seq<char>>,
    close: F,
    p_end: int,
)
    requires
        ids.no_duplicates(),
        p_end <= ids.len(),
    ensures
        keys_unique(rows_upto(tracks, ids, close, p_end)),
        forall|i: int|
            0 <= i < rows_upto(tracks, ids, close, p_end).len() ==> exists|p: int|
                0 <= p < p_end && (#[trigger] rows_upto(tracks, ids, close, p_end)[i]) == (
                    ids[p],
                    partners_upto(tracks, ids, close, p, ids.len() as int),
                ) && partners_upto(tracks, ids, close, p, ids.len() as int).len() > 0,
    decreases p_end,
{
    if p_end > 0 {
        let n = ids.len() as int;
        lemma_rows_shape(tracks, ids, close, p_end - 1);
        let prev = rows_upto(tracks, ids, close, p_end - 1);
        let e = row_entry(tracks, ids, close, p_end - 1);
        let all = rows_upto(tracks, ids, close, p_end);
        assert(all == prev + e);
        assert forall|i: int| 0 <= i < all.len() implies exists|p: int|
            0 <= p < p_end && (#[trigger] all[i]) == (
                ids[p],
                partners_upto(tracks, ids, close, p, n),
            ) && partners_upto(tracks, ids, close, p, n).len() > 0 by {
            if i < prev.len() {
                assert(all[i] == prev[i]);
            } else {
                assert(all[i] == e[0]);
                let p = p_end - 1;
                assert(0 <= p < p_end);
            }
        }
        assert forall|a: int, b: int| 0 <= a < b < all.len() implies all[a].0 != all[b].0 by {
            if b >= prev.len() {
                assert(all[a] == prev[a]);
                assert(all[b] == e[0]);
                let pa = choose|p: int|
                    0 <= p < p_end - 1 && prev[a] == (
                        ids[p],
                        partners_upto(tracks, ids, close, p, n),
                    ) && partners_upto(tracks, ids, close, p, n).len() > 0;
                assert(ids[pa] != ids[p_end - 1]);
            } else {
                assert(all[a] == prev[a]);
                assert(all[b] == prev[b]);
            }
        }
    }
}

/// The built map is a valid one: each track heads at most one row and names
/// each partner at most once, and no row, partner or pair list is empty.
pub proof fn lemma_built_map_valid<F: Fn(Coord, Coord) -> bool>(
    tracks: Map<Seq<char>, Seq<Coord>>,
    ids: Seq<Seq<char>>,
    close: F,
)
    requires
        ids.no_duplicates(),
    ensures
        map_wf(correspondences(tracks, ids, close)),
        pruned(correspondences(tracks, ids, close)),
{
    let n = ids.len() as int;
    let m = correspondences(tracks, ids, close);
    lemma_rows_shape(tracks, ids, close, n);
    assert forall|i: int| 0 <= i < m.len() implies keys_unique(#[trigger] m[i].1) && m[i].1.len()
        > 0 && forall|j: int| 0 <= j < m[i].1.len() ==> (#[trigger] m[i].1[j]).1.len() > 0 by {
        let p = choose|p: int|
            0 <= p < n && m[i] == (ids[p], partners_upto(tracks, ids, close, p, n))
                && partners_upto(tracks, ids, close, p, n).len() > 0;
        lemma_partners_shape(tracks, ids, close, p, n);
        let row = m[i].1;
        assert forall|j: int| 0 <= j < row.len() implies (#[trigger] row[j]).1.len() > 0 by {
            let q = choose|q: int|
                p < q < n && row[j] == (
                    ids[q],
                    point_matches(tracks[ids[p]], tracks[ids[q]], close),
                ) && point_matches(tracks[ids[p]], tracks[ids[q]], close).len() > 0;
        }
    }
}

} // verus!
