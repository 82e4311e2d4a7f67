use vstd::prelude::*;

use crate::coord::Coord;

verus! {

/// The map that a sequence of (identifier, points) entries stands for, a later
/// entry replacing an earlier one under the same identifier.
pub open spec fn tracks_map(s: Seq<(String, Vec<Coord>)>) -> Map<Seq<char>, Seq<Coord>>
    decreases s.len(),
{
    if s.len() == 0 {
        Map::empty()
    } else {
        tracks_map(s.drop_last()).insert(s.last().0@, s.last().1@)
    }
}

/// No identifier occurs twice in `s`.
pub open spec fn unique_keys(s: Seq<(String, Vec<Coord>)>) -> bool {
    forall|i: int, j: int| 0 <= i < j < s.len() ==> s[i].0@ != s[j].0@
}

proof fn lemma_tracks_map_at(s: Seq<(String, Vec<Coord>)>, i: int)
    requires
        unique_keys(s),
        0 <= i < s.len(),
    ensures
        tracks_map(s).contains_key(s[i].0@),
        tracks_map(s)[s[i].0@] == s[i].1@,
    decreases s.len(),
{
    if i < s.len() - 1 {
        lemma_tracks_map_at(s.drop_last(), i);
    }
}

proof fn lemma_tracks_map_absent(s: Seq<(String, Vec<Coord>)>, k: Seq<char>)
    requires
        forall|i: int| 0 <= i < s.len() ==> s[i].0@ != k,
    ensures
        !tracks_map(s).contains_key(k),
    decreases s.len(),
{
    if s.len() > 0 {
        lemma_tracks_map_absent(s.drop_last(), k);
    }
}

proof fn lemma_tracks_map_update(s: Seq<(String, Vec<Coord>)>, i: int, e: (String, Vec<Coord>))
    requires
        unique_keys(s),
        0 <= i < s.len(),
        s[i].0@ == e.0@,
    ensures
        tracks_map(s.update(i, e)) == tracks_map(s).insert(e.0@, e.1@),
    decreases s.len(),
{
    let t = s.update(i, e);
    if i == s.len() - 1 {
        assert(t.drop_last() == s.drop_last());
        assert(tracks_map(s).insert(e.0@, e.1@) == tracks_map(s.drop_last()).insert(e.0@, e.1@));
    } else {
        assert(t.drop_last() == s.drop_last().update(i, e));
        lemma_tracks_map_update(s.drop_last(), i, e);
        assert(tracks_map(t) == tracks_map(s).insert(e.0@, e.1@));
    }
}

/// The tracks of one run: each identifier with its ordered points.
pub struct TrackStore {
    entries: Vec<(String, Vec<Coord>)>,
}

impl View for TrackStore {
    type V = Map<Seq<char>, Seq<Coord>>;

    closed spec fn view(&self) -> Map<Seq<char>, Seq<Coord>> {
        tracks_map(self.entries@)
    }
}

impl TrackStore {
    /// The store holds each identifier once.
    pub closed spec fn wf(&self) -> bool {
        unique_keys(self.entries@)
    }

    pub fn new() -> (r: TrackStore)
        ensures
            r.wf(),
            r@ == Map::<Seq<char>, Seq<Coord>>::empty(),
    {
        TrackStore { entries: Vec::new() }
    }

    /// Records `points` under `id`, replacing what the store held under it.
    pub fn insert(&mut self, id: String, points: Vec<Coord>)
        requires
            old(self).wf(),
        ensures
            final(self).wf(),
            final(self)@ == old(self)@.insert(id@, points@),
    {
        let n = self.entries.len();
        let mut i: usize = 0;
        while i < n
            invariant
                n == self.entries@.len(),
                i <= n,
                unique_keys(self.entries@),
                self.entries@ == old(self).entries@,
                forall|k: int| 0 <= k < i ==> self.entries@[k].0@ != id@,
            decreases n - i,
        {
            if self.entries[i].0.eq(&id) {
                let ghost s = self.entries@;
                let e = (id, points);
                proof {
                    lemma_tracks_map_update(s, i as int, e);
                }
                self.entries.set(i, e);
                assert(self.entries@ == s.update(i as int, e));
                return;
            }
            i = i + 1;
        }
        let ghost s = self.entries@;
        self.entries.push((id, points));
        assert(self.entries@.drop_last() == s);
        assert(unique_keys(self.entries@));
    }

    /// Builds a store from (identifier, points) entries; where an identifier
    /// repeats, its last entry stands.
    pub fn build(tracks: Vec<(String, Vec<Coord>)>) -> (r: TrackStore)
        ensures
            r.wf(),
            r@ == tracks_map(tracks@),
    {
        let mut store = TrackStore::new();
        let mut tracks = tracks;
        let ghost all = tracks@;
        let mut rest: Vec<(String, Vec<Coord>)> = Vec::new();
        // Take the entries from the back, then insert them front to back.
        while tracks.len() > 0
            invariant
                all == tracks@ + rest@.reverse(),
            decreases tracks@.len(),
        {
            let e = tracks.pop().unwrap();
            proof {
                assert(rest@.push(e).reverse() == seq![e] + rest@.reverse());
            }
            rest.push(e);
        }
        assert(all == rest@.reverse());
        let ghost i: int = 0;
        while rest.len() > 0
            invariant
                all == all.take(i) + rest@.reverse(),
                0 <= i <= all.len(),
                store.wf(),
                store@ == tracks_map(all.take(i)),
            decreases rest@.len(),
        {
            let ghost r0 = rest@;
            let e = rest.pop().unwrap();
            proof {
                assert(r0 == rest@.push(e));
                assert(r0.reverse() == seq![e] + rest@.reverse());
                assert(all[i] == e);
                assert(all.take(i + 1) == all.take(i).push(e));
                assert(all.take(i + 1).drop_last() == all.take(i));
                assert(all == all.take(i + 1) + rest@.reverse());
            }
            store.insert(e.0, e.1);
            proof {
                i = i + 1;
            }
        }
        assert(all.take(i) == all);
        store
    }

    /// The points held under `id`, if any.
    pub fn get(&self, id: &String) -> (r: Option<&Vec<Coord>>)
        requires
            self.wf(),
        ensures
            r is Some <==> self@.contains_key(id@),
            r is Some ==> r->Some_0@ == self@[id@],
    {
        let n = self.entries.len();
        let mut i: usize = 0;
        while i < n
            invariant
                n == self.entries@.len(),
                i <= n,
                unique_keys(self.entries@),
                forall|k: int| 0 <= k < i ==> self.entries@[k].0@ != id@,
            decreases n - i,
        {
            if self.entries[i].0.eq(id) {
                proof {
                    lemma_tracks_map_at(self.entries@, i as int);
                }
                return Some(&self.entries[i].1);
            }
            i = i + 1;
        }
        proof {
            lemma_tracks_map_absent(self.entries@, id@);
        }
        None
    }
}

} // verus!
