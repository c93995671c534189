//! Minimum set cover.
use vstd::prelude::*;

use super::{DifferenceMut, RangeSet, Subset};

verus! {

/// Set cover methods.
pub trait Cover<Rhs> {
    /// Returns the positions of the fewest sets from `others` which exactly
    /// cover `self`, or `None` when no choice of them does.
    fn find_cover(&self, others: &[Rhs]) -> Option<Vec<usize>>;

    /// Returns the fewest sets from `others` which exactly cover `self`, or
    /// `None` when no choice of them does.
    fn cover<'a>(&self, others: &'a [Rhs]) -> Option<Vec<&'a Rhs>>;
}

/// The values of each set.
pub open spec fn set_views(others: Seq<RangeSet>) -> Seq<Set<int>> {
    others.map_values(|s: RangeSet| s@)
}

/// The values covered by the sets at positions `w`.
pub open spec fn covered(sets: Seq<Set<int>>, w: Seq<int>) -> Set<int>
    decreases w.len(),
{
    if w.len() == 0 {
        Set::empty()
    } else {
        covered(sets, w.drop_last()).union(sets[w.last()])
    }
}

/// No position occurs twice.
pub open spec fn no_repeats(w: Seq<int>) -> bool {
    forall|a: int, b: int| 0 <= a < b < w.len() ==> w[a] != w[b]
}

/// The sets at positions `w` are distinct subsets of `q` whose values are
/// exactly those of `q`.
pub open spec fn exact_cover(q: Set<int>, sets: Seq<Set<int>>, w: Seq<int>) -> bool {
    &&& no_repeats(w)
    &&& forall|k: int| 0 <= k < w.len() ==> 0 <= #[trigger] w[k] < sets.len() && sets[w[k]].subset_of(q)
    &&& covered(sets, w) == q
}

/// Some choice of the sets covers `q` exactly.
pub open spec fn has_cover(q: Set<int>, sets: Seq<Set<int>>) -> bool {
    exists|v: Seq<int>| #[trigger] exact_cover(q, sets, v)
}

/// `w` covers `q` exactly with no more sets than any other exact cover.
pub open spec fn min_cover(q: Set<int>, sets: Seq<Set<int>>, w: Seq<int>) -> bool {
    &&& exact_cover(q, sets, w)
    &&& forall|v: Seq<int>| #[trigger] exact_cover(q, sets, v) ==> w.len() <= v.len()
}

/// A value covered by the sets at `v` lies in one of them.
proof fn lemma_covered_member(sets: Seq<Set<int>>, v: Seq<int>, x: int)
    requires
        covered(sets, v).contains(x),
    ensures
        exists|k: int| 0 <= k < v.len() && sets[v[k]].contains(x),
    decreases v.len(),
{
    if !covered(sets, v.drop_last()).contains(x) {
        assert(sets[v[v.len() - 1]].contains(x));
    } else {
        lemma_covered_member(sets, v.drop_last(), x);
        let k = choose|k: int| 0 <= k < v.drop_last().len() && sets[v.drop_last()[k]].contains(x);
        assert(v.drop_last()[k] == v[k]);
    }
}

/// Each chosen set lies within what the choice covers.
proof fn lemma_covered_part(sets: Seq<Set<int>>, v: Seq<int>, k: int)
    requires
        0 <= k < v.len(),
    ensures
        sets[v[k]].subset_of(covered(sets, v)),
    decreases v.len(),
{
    if k < v.len() - 1 {
        lemma_covered_part(sets, v.drop_last(), k);
        assert(v.drop_last()[k] == v[k]);
    }
}

/// Choosing `c` in front of `w` covers the values of `c` and of `w`.
proof fn lemma_covered_front(sets: Seq<Set<int>>, c: int, w: Seq<int>)
    ensures
        covered(sets, seq![c] + w) == sets[c].union(covered(sets, w)),
{
    let v = seq![c] + w;
    assert forall|x: int| covered(sets, v).contains(x) implies sets[c].union(covered(sets, w)).contains(x) by {
        lemma_covered_member(sets, v, x);
        let k = choose|k: int| 0 <= k < v.len() && sets[v[k]].contains(x);
        if k > 0 {
            assert(v[k] == w[k - 1]);
            lemma_covered_part(sets, w, k - 1);
        }
    }
    assert forall|x: int| sets[c].union(covered(sets, w)).contains(x) implies covered(sets, v).contains(x) by {
        if sets[c].contains(x) {
            assert(v[0] == c);
            lemma_covered_part(sets, v, 0);
        } else {
            lemma_covered_member(sets, w, x);
            let k = choose|k: int| 0 <= k < w.len() && sets[w[k]].contains(x);
            assert(v[k + 1] == w[k]);
            lemma_covered_part(sets, v, k + 1);
        }
    }
    assert(covered(sets, v) =~= sets[c].union(covered(sets, w)));
}

/// `x` is one of the candidates `cs[i..]`.
pub open spec fn cand_from(cs: Seq<int>, i: int, x: int) -> bool {
    exists|j: int| i <= j < cs.len() && cs[j] == x
}

/// `w` chooses distinct candidates among `cs[i..]`.
pub open spec fn picks(cs: Seq<int>, i: int, w: Seq<int>) -> bool {
    &&& no_repeats(w)
    &&& forall|a: int| 0 <= a < w.len() ==> #[trigger] cand_from(cs, i, w[a])
}

/// At most `k` distinct candidates among `cs[i..]` cover `u`.
pub open spec fn coverable(sets: Seq<Set<int>>, cs: Seq<int>, i: int, k: int, u: Set<int>) -> bool {
    exists|w: Seq<int>| #[trigger] picks(cs, i, w) && w.len() <= k && u.subset_of(covered(sets, w))
}

/// The candidates: ascending positions of sets.
pub open spec fn cands_ok(cs: Seq<int>, n: int) -> bool {
    &&& forall|a: int, b: int| 0 <= a < b < cs.len() ==> cs[a] < cs[b]
    &&& forall|a: int| 0 <= a < cs.len() ==> 0 <= #[trigger] cs[a] < n
}

/// The positions held in a vector, as integers.
pub open spec fn positions(v: Seq<usize>) -> Seq<int> {
    v.map_values(|p: usize| p as int)
}

/// Searches `cs[i..]` for at most `k` sets that together hold `u`: with
/// the candidate at `i` first, then without it.
fn cover_search(others: &[RangeSet], cs: &Vec<usize>, u: &RangeSet, i: usize, k: usize) -> (r: Option<
    Vec<usize>,
>)
    requires
        i <= cs@.len(),
        cands_ok(positions(cs@), others@.len() as int),
    ensures
        r matches Some(v) ==> {
            &&& picks(positions(cs@), i as int, positions(v@))
            &&& v@.len() <= k
            &&& u@.subset_of(covered(set_views(others@), positions(v@)))
        },
        r is None ==> !coverable(set_views(others@), positions(cs@), i as int, k as int, u@),
    decreases cs@.len() - i,
{
    let ghost sets = set_views(others@);
    let ghost pcs = positions(cs@);
    if u.is_empty() {
        let v: Vec<usize> = Vec::new();
        proof {
            assert(positions(v@) =~= Seq::<int>::empty());
        }
        return Some(v);
    }
    if k == 0 || i == cs.len() {
        proof {
            if coverable(sets, pcs, i as int, k as int, u@) {
                let w = choose|w: Seq<int>| #[trigger] picks(pcs, i as int, w) && w.len() <= k && u@.subset_of(
                    covered(sets, w),
                );
                if w.len() > 0 {
                    assert(cand_from(pcs, i as int, w[0]));
                }
                assert(covered(sets, w) =~= Set::<int>::empty());
                assert(u@ =~= Set::<int>::empty());
            }
        }
        return None;
    }
    let c = cs[i];
    proof {
        assert(pcs[i as int] == c as int);
    }
    let mut u2 = u.clone();
    u2.difference_mut(&others[c]);
    match cover_search(others, cs, &u2, i + 1, k - 1) {
        Some(mut v) => {
            let ghost w2 = positions(v@);
            v.insert(0, c);
            proof {
                let w = positions(v@);
                assert(w =~= seq![c as int] + w2);
                lemma_covered_front(sets, c as int, w2);
                assert(sets[c as int] == others@[c as int]@);
                assert forall|a: int| 0 <= a < w.len() implies #[trigger] cand_from(pcs, i as int, w[a]) by {
                    if a == 0 {
                        assert(pcs[i as int] == w[a]);
                    } else {
                        assert(w[a] == w2[a - 1]);
                        assert(cand_from(pcs, i + 1, w2[a - 1]));
                        let j = choose|j: int| i + 1 <= j < pcs.len() && pcs[j] == w2[a - 1];
                        assert(i <= j < pcs.len() && pcs[j] == w[a]);
                    }
                }
                assert forall|a: int, b: int| 0 <= a < b < w.len() implies w[a] != w[b] by {
                    assert(w[b] == w2[b - 1]);
                    assert(cand_from(pcs, i + 1, w2[b - 1]));
                    let j = choose|j: int| i + 1 <= j < pcs.len() && pcs[j] == w2[b - 1];
                    if a == 0 {
                        assert(pcs[i as int] < pcs[j]);
                    } else {
                        assert(w[a] == w2[a - 1]);
                    }
                }
            }
            return Some(v);
        },
        None => {},
    }
    let r = cover_search(others, cs, u, i + 1, k);
    proof {
        if let Some(v) = &r {
            let w = positions(v@);
            assert forall|a: int| 0 <= a < w.len() implies #[trigger] cand_from(pcs, i as int, w[a]) by {
                assert(cand_from(pcs, i + 1, w[a]));
                let j = choose|j: int| i + 1 <= j < pcs.len() && pcs[j] == w[a];
                assert(i <= j < pcs.len() && pcs[j] == w[a]);
            }
        } else if coverable(sets, pcs, i as int, k as int, u@) {
            let w = choose|w: Seq<int>| #[trigger] picks(pcs, i as int, w) && w.len() <= k && u@.subset_of(
                covered(sets, w),
            );
            if exists|a: int| 0 <= a < w.len() && w[a] == c as int {
                let a = choose|a: int| 0 <= a < w.len() && w[a] == c as int;
                let w2 = w.remove(a);
                assert forall|b: int| 0 <= b < w2.len() implies #[trigger] cand_from(pcs, i + 1, w2[b]) by {
                    let bb = if b < a {
                        b
                    } else {
                        b + 1
                    };
                    assert(w2[b] == w[bb]);
                    assert(cand_from(pcs, i as int, w[bb]));
                    let j = choose|j: int| i <= j < pcs.len() && pcs[j] == w[bb];
                    if j == i {
                        assert(w[bb] == w[a]);
                    }
                }
                assert forall|b1: int, b2: int| 0 <= b1 < b2 < w2.len() implies w2[b1] != w2[b2] by {
                    let c1 = if b1 < a {
                        b1
                    } else {
                        b1 + 1
                    };
                    let c2 = if b2 < a {
                        b2
                    } else {
                        b2 + 1
                    };
                    assert(w2[b1] == w[c1]);
                    assert(w2[b2] == w[c2]);
                }
                assert(picks(pcs, i + 1, w2));
                assert(u2@.subset_of(covered(sets, w2))) by {
                    assert forall|x: int| u2@.contains(x) implies covered(sets, w2).contains(x) by {
                        assert(covered(sets, w).contains(x));
                        lemma_covered_member(sets, w, x);
                        let b = choose|b: int| 0 <= b < w.len() && sets[w[b]].contains(x);
                        assert(sets[c as int] == others@[c as int]@);
                        assert(b != a);
                        let bb = if b < a {
                            b
                        } else {
                            b - 1
                        };
                        assert(w2[bb] == w[b]);
                        lemma_covered_part(sets, w2, bb);
                    }
                }
                assert(coverable(sets, pcs, i + 1, k - 1, u2@));
            } else {
                assert forall|b: int| 0 <= b < w.len() implies #[trigger] cand_from(pcs, i + 1, w[b]) by {
                    assert(cand_from(pcs, i as int, w[b]));
                    let j = choose|j: int| i <= j < pcs.len() && pcs[j] == w[b];
                    assert(j != i);
                }
                assert(picks(pcs, i + 1, w));
                assert(coverable(sets, pcs, i + 1, k as int, u@));
            }
        }
    }
    r
}

/// A choice of distinct candidates has no more sets than there are
/// candidates.
proof fn lemma_picks_len(cs: Seq<int>, w: Seq<int>)
    requires
        picks(cs, 0, w),
        forall|a: int, b: int| 0 <= a < b < cs.len() ==> cs[a] < cs[b],
    ensures
        w.len() <= cs.len(),
{
    assert(w.no_duplicates()) by {
        assert forall|a: int, b: int| 0 <= a < w.len() && 0 <= b < w.len() && a != b implies w[a] != w[b] by {
            if a > b {
                assert(w[b] != w[a]);
            }
        }
    }
    assert(cs.no_duplicates()) by {
        assert forall|a: int, b: int| 0 <= a < cs.len() && 0 <= b < cs.len() && a != b implies cs[a] != cs[b] by {
            if a > b {
                assert(cs[b] < cs[a]);
            }
        }
    }
    w.unique_seq_to_set();
    cs.unique_seq_to_set();
    assert(w.to_set().subset_of(cs.to_set())) by {
        assert forall|x: int| w.to_set().contains(x) implies cs.to_set().contains(x) by {
            let a = choose|a: int| 0 <= a < w.len() && w[a] == x;
            assert(cand_from(cs, 0, w[a]));
            let j = choose|j: int| 0 <= j < cs.len() && cs[j] == w[a];
        }
    }
    vstd::seq_lib::seq_to_set_is_finite(cs);
    vstd::set_lib::lemma_len_subset(w.to_set(), cs.to_set());
}

/// A minimum exact cover of `query` by sets of `others`: the positions of
/// the fewest sets, each a subset of `query`, whose union is `query`.
///
/// Tries one set, then two, and so on; for each count, the candidates are
/// searched in order of position, each first taken and then left out.
fn min_cover_positions(query: &RangeSet, others: &[RangeSet]) -> (r: Option<Vec<usize>>)
    ensures
        r is Some <==> has_cover(query@, set_views(others@)),
        r matches Some(v) ==> min_cover(query@, set_views(others@), positions(v@)),
{
    let ghost q = query@;
    let ghost sets = set_views(others@);
    let n = others.len();
    let mut cs: Vec<usize> = Vec::new();
    let mut p: usize = 0;
    while p < n
        invariant
            n == others@.len(),
            q == query@,
            sets == set_views(others@),
            0 <= p <= n,
            cands_ok(positions(cs@), n as int),
            forall|k: int| 0 <= k < cs@.len() ==> (#[trigger] cs@[k]) < p,
            forall|x: int| 0 <= x < p ==> (sets[x].subset_of(q) <==> cand_from(positions(cs@), 0, x)),
        decreases n - p,
    {
        let ghost before = positions(cs@);
        if others[p].is_subset(query) {
            cs.push(p);
            proof {
                let pcs = positions(cs@);
                assert(pcs =~= before.push(p as int));
                assert forall|x: int| 0 <= x < p + 1 implies (sets[x].subset_of(q) <==> cand_from(pcs, 0, x)) by {
                    if x < p {
                        if cand_from(before, 0, x) {
                            let j = choose|j: int| 0 <= j < before.len() && before[j] == x;
                            assert(pcs[j] == x);
                        }
                        if cand_from(pcs, 0, x) {
                            let j = choose|j: int| 0 <= j < pcs.len() && pcs[j] == x;
                            assert(j < before.len());
                            assert(before[j] == x);
                        }
                    } else {
                        assert(pcs[before.len() as int] == x);
                    }
                }
            }
        } else {
            proof {
                let pcs = positions(cs@);
                assert forall|x: int| 0 <= x < p + 1 implies (sets[x].subset_of(q) <==> cand_from(pcs, 0, x)) by {
                    if x == p && cand_from(pcs, 0, x) {
                        let j = choose|j: int| 0 <= j < pcs.len() && pcs[j] == x;
                        assert(cs@[j] < p);
                    }
                }
            }
        }
        p += 1;
    }
    let ghost pcs = positions(cs@);
    proof {
        assert(sets.len() == n);
    }
    let mut k: usize = 0;
    loop
        invariant
            q == query@,
            sets == set_views(others@),
            pcs == positions(cs@),
            sets.len() == others@.len(),
            cands_ok(pcs, others@.len() as int),
            forall|x: int| 0 <= x < sets.len() ==> (sets[x].subset_of(q) <==> cand_from(pcs, 0, x)),
            0 <= k <= cs@.len(),
            forall|k2: int| 0 <= k2 < k ==> !#[trigger] coverable(sets, pcs, 0, k2, q),
        decreases cs@.len() - k,
    {
        match cover_search(others, &cs, query, 0, k) {
            Some(v) => {
                proof {
                    let w = positions(v@);
                    assert forall|a: int| 0 <= a < w.len() implies 0 <= #[trigger] w[a] < sets.len()
                        && sets[w[a]].subset_of(q) by {
                        assert(cand_from(pcs, 0, w[a]));
                    }
                    assert(covered(sets, w) =~= q) by {
                        assert forall|x: int| covered(sets, w).contains(x) implies q.contains(x) by {
                            lemma_covered_member(sets, w, x);
                            let a = choose|a: int| 0 <= a < w.len() && sets[w[a]].contains(x);
                            assert(sets[w[a]].subset_of(q));
                        }
                    }
                    assert(exact_cover(q, sets, w));
                    assert forall|v2: Seq<int>| #[trigger] exact_cover(q, sets, v2) implies w.len() <= v2.len() by {
                        assert forall|a: int| 0 <= a < v2.len() implies #[trigger] cand_from(pcs, 0, v2[a]) by {
                            assert(sets[v2[a]].subset_of(q));
                        }
                        assert(picks(pcs, 0, v2));
                        if v2.len() < w.len() {
                            assert(coverable(sets, pcs, 0, v2.len() as int, q));
                        }
                    }
                }
                return Some(v);
            },
            None => {},
        }
        if k == cs.len() {
            proof {
                if has_cover(q, sets) {
                    let v2 = choose|v2: Seq<int>| #[trigger] exact_cover(q, sets, v2);
                    assert forall|a: int| 0 <= a < v2.len() implies #[trigger] cand_from(pcs, 0, v2[a]) by {
                        assert(sets[v2[a]].subset_of(q));
                    }
                    assert(picks(pcs, 0, v2));
                    lemma_picks_len(pcs, v2);
                    assert(coverable(sets, pcs, 0, v2.len() as int, q));
                }
            }
            return None;
        }
        k += 1;
    }
}

impl Cover<RangeSet> for RangeSet {
    fn find_cover(&self, others: &[RangeSet]) -> (r: Option<Vec<usize>>)
        ensures
            r is Some <==> has_cover(self@, set_views(others@)),
            r matches Some(v) ==> min_cover(self@, set_views(others@), positions(v@)),
    {
        min_cover_positions(self, others)
    }

    fn cover<'a>(&self, others: &'a [RangeSet]) -> (r: Option<Vec<&'a RangeSet>>)
        ensures
            r is Some <==> has_cover(self@, set_views(others@)),
            r matches Some(found) ==> exists|w: Seq<int>|
                min_cover(self@, set_views(others@), w) && #[trigger] w.len() == found@.len() && forall|
                    k: int,
                | 0 <= k < w.len() ==> *found@[k] == others@[#[trigger] w[k]],
    {
        match min_cover_positions(self, others) {
            Some(v) => {
                let ghost w = positions(v@);
                proof {
                    assert forall|k: int| 0 <= k < v@.len() implies (#[trigger] v@[k]) < others@.len() by {
                        assert(w[k] == v@[k] as int);
                        assert(exact_cover(self@, set_views(others@), w));
                    }
                }
                let mut found: Vec<&'a RangeSet> = Vec::new();
                let mut k: usize = 0;
                while k < v.len()
                    invariant
                        w == positions(v@),
                        forall|j: int| 0 <= j < v@.len() ==> (#[trigger] v@[j]) < others@.len(),
                        0 <= k <= v@.len(),
                        found@.len() == k,
                        forall|j: int| 0 <= j < k ==> *found@[j] == others@[#[trigger] w[j]],
                    decreases v@.len() - k,
                {
                    found.push(&others[v[k]]);
                    k += 1;
                }
                proof {
                    assert(w.len() == found@.len());
                }
                Some(found)
            },
            None => None,
        }
    }
}

} // verus!
