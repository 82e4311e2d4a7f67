use vstd::prelude::*;

verus! {

/// The pairs `(s[i], s[j])` for one fixed `i`, with `j` running over
/// `i + 1 .. s.len()` in ascending order.
pub open spec fn pair_row<T>(s: Seq<T>, i: int) -> Seq<(T, T)> {
    s.subrange(i + 1, s.len() as int).map_values(|y: T| (s[i], y))
}

/// The rows `0 .. i` of the unordered pairs of `s`, concatenated.
pub open spec fn pairs_upto<T>(s: Seq<T>, i: int) -> Seq<(T, T)>
    decreases i,
{
    if i <= 0 {
        Seq::empty()
    } else {
        pairs_upto(s, i - 1) + pair_row(s, i - 1)
    }
}

/// Every unordered pair of positions `i < j` of `s`, each once, ordered by
/// `i` and then by `j`.
pub open spec fn unique_pairs<T>(s: Seq<T>) -> Seq<(T, T)> {
    pairs_upto(s, s.len() as int)
}

/// The pairs of a sequence of pairs of references, with the references followed.
pub open spec fn derefs<T>(s: Seq<(&T, &T)>) -> Seq<(T, T)> {
    s.map_values(|p: (&T, &T)| (*p.0, *p.1))
}

/// Returns every pair `(&v[i], &v[j])` with `i < j`, ordered by `i`, then `j`.
pub fn get_unique_pairs<T>(vector: &Vec<T>) -> (r: Vec<(&T, &T)>)
    ensures
        derefs(r@) == unique_pairs(vector@),
{
    let mut unique_pairs: Vec<(&T, &T)> = Vec::new();
    let n = vector.len();
    let mut i: usize = 0;
    while i < n
        invariant
            n == vector@.len(),
            i <= n,
            derefs(unique_pairs@) == pairs_upto(vector@, i as int),
        decreases n - i,
    {
        let ghost before = derefs(unique_pairs@);
        let item_1 = &vector[i];
        let mut j: usize = i + 1;
        while j < n
            invariant
                n == vector@.len(),
                i < n,
                i + 1 <= j <= n,
                item_1 == vector@[i as int],
                derefs(unique_pairs@) == before + vector@.subrange(i + 1, j as int).map_values(
                    |y: T| (vector@[i as int], y),
                ),
            decreases n - j,
        {
            let ghost prev = unique_pairs@;
            unique_pairs.push((item_1, &vector[j]));
            proof {
                let s = vector@;
                assert(unique_pairs@ == prev.push((item_1, &vector[j as int])));
                assert(derefs(unique_pairs@) == derefs(prev).push((s[i as int], s[j as int])));
                assert(s.subrange(i + 1, j + 1) == s.subrange(i + 1, j as int).push(s[j as int]));
                assert(s.subrange(i + 1, j + 1).map_values(|y: T| (s[i as int], y))
                    == s.subrange(i + 1, j as int).map_values(|y: T| (s[i as int], y)).push(
                    (s[i as int], s[j as int]),
                ));
            }
            j = j + 1;
        }
        i = i + 1;
    }
    unique_pairs
}

} // verus!
