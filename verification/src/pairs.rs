//! Canonical edge lists.
//!
//! Both the similarity-table builder and the cliques store undirected scored
//! edges as vectors of `(left, right, score)` triples in which `left` is
//! lexicographically smaller than `right` and no unordered pair occurs twice.
//! This module gives that representation its mathematical reading: a finite
//! map from canonical name pairs to scores.
use vstd::prelude::*;

verus! {

use crate::order::lex_lt;
use crate::order::str_eq;

/// The canonical (ascending) form of an unordered pair.
pub open spec fn canon_pair(l: Seq<char>, r: Seq<char>) -> (Seq<char>, Seq<char>) {
    if lex_lt(l, r) {
        (l, r)
    } else {
        (r, l)
    }
}

/// Every entry is canonically ordered: left strictly below right.
pub open spec fn pairs_canonical(s: Seq<(Seq<char>, Seq<char>, u32)>) -> bool {
    forall|k: int| 0 <= k < s.len() ==> lex_lt((#[trigger] s[k]).0, s[k].1)
}

/// No unordered pair occurs twice.
pub open spec fn pairs_distinct(s: Seq<(Seq<char>, Seq<char>, u32)>) -> bool {
    forall|k1: int, k2: int|
        0 <= k1 < k2 < s.len() ==> !((#[trigger] s[k1]).0 == (#[trigger] s[k2]).0 && s[k1].1
            == s[k2].1)
}

pub open spec fn pairs_wf(s: Seq<(Seq<char>, Seq<char>, u32)>) -> bool {
    pairs_canonical(s) && pairs_distinct(s)
}

/// Some entry carries the pair `p`.
pub open spec fn has_pair(s: Seq<(Seq<char>, Seq<char>, u32)>, p: (Seq<char>, Seq<char>)) -> bool {
    exists|k: int| 0 <= k < s.len() && (#[trigger] s[k]).0 == p.0 && s[k].1 == p.1
}

/// Some entry has the name `n` as an endpoint.
pub open spec fn has_endpoint(s: Seq<(Seq<char>, Seq<char>, u32)>, n: Seq<char>) -> bool {
    exists|k: int| 0 <= k < s.len() && ((#[trigger] s[k]).0 == n || s[k].1 == n)
}

/// All names that occur as an endpoint of some entry.
pub open spec fn endpoints(s: Seq<(Seq<char>, Seq<char>, u32)>) -> Set<Seq<char>> {
    Set::new(|n: Seq<char>| has_endpoint(s, n))
}

/// The score map an edge list denotes; a later entry for a pair wins.
pub open spec fn pairs_map(s: Seq<(Seq<char>, Seq<char>, u32)>) -> Map<
    (Seq<char>, Seq<char>),
    u32,
>
    decreases s.len(),
{
    if s.len() == 0 {
        Map::empty()
    } else {
        pairs_map(s.drop_last()).insert((s.last().0, s.last().1), s.last().2)
    }
}

/// A pair is in the map exactly when some entry carries it.
pub proof fn lemma_pairs_map_dom(s: Seq<(Seq<char>, Seq<char>, u32)>)
    ensures
        forall|p: (Seq<char>, Seq<char>)| #[trigger]
            pairs_map(s).dom().contains(p) == has_pair(s, p),
    decreases s.len(),
{
    if s.len() > 0 {
        let sdl = s.drop_last();
        lemma_pairs_map_dom(sdl);
        assert forall|p: (Seq<char>, Seq<char>)| #[trigger]
            pairs_map(s).dom().contains(p) == has_pair(s, p) by {
            if pairs_map(s).dom().contains(p) {
                if p == (s.last().0, s.last().1) {
                    assert((s[s.len() - 1]).0 == p.0 && (s[s.len() - 1]).1 == p.1);
                    assert(has_pair(s, p));
                } else {
                    assert(pairs_map(sdl).dom().contains(p));
                    assert(has_pair(sdl, p));
                    let k = choose|k: int|
                        0 <= k < sdl.len() && (#[trigger] sdl[k]).0 == p.0 && sdl[k].1 == p.1;
                    assert((s[k]).0 == p.0 && (s[k]).1 == p.1);
                    assert(has_pair(s, p));
                }
            }
            if has_pair(s, p) {
                let k = choose|k: int|
                    0 <= k < s.len() && (#[trigger] s[k]).0 == p.0 && s[k].1 == p.1;
                if k < s.len() - 1 {
                    assert((sdl[k]).0 == p.0 && sdl[k].1 == p.1);
                    assert(has_pair(sdl, p));
                    assert(pairs_map(sdl).dom().contains(p));
                } else {
                    assert(p == (s.last().0, s.last().1));
                }
                assert(pairs_map(s).dom().contains(p));
            }
        }
    } else {
        assert forall|p: (Seq<char>, Seq<char>)| #[trigger]
            pairs_map(s).dom().contains(p) == has_pair(s, p) by {
            assert(!pairs_map(s).dom().contains(p));
            assert(!has_pair(s, p));
        }
    }
}

/// With distinct pairs, each entry's score is the one the map records.
pub proof fn lemma_pairs_map_values(s: Seq<(Seq<char>, Seq<char>, u32)>)
    requires
        pairs_distinct(s),
    ensures
        forall|k: int|
            0 <= k < s.len() ==> pairs_map(s).dom().contains(((#[trigger] s[k]).0, s[k].1))
                && pairs_map(s)[(s[k].0, s[k].1)] == s[k].2,
    decreases s.len(),
{
    lemma_pairs_map_dom(s);
    if s.len() > 0 {
        let sdl = s.drop_last();
        assert(pairs_distinct(sdl)) by {
            assert forall|k1: int, k2: int| 0 <= k1 < k2 < sdl.len() implies !((
            #[trigger] sdl[k1]).0 == (#[trigger] sdl[k2]).0 && sdl[k1].1 == sdl[k2].1) by {
                assert(sdl[k1] == s[k1] && sdl[k2] == s[k2]);
            }
        }
        lemma_pairs_map_values(sdl);
        assert forall|k: int| 0 <= k < s.len() implies pairs_map(s).dom().contains(
            ((#[trigger] s[k]).0, s[k].1),
        ) && pairs_map(s)[(s[k].0, s[k].1)] == s[k].2 by {
            assert((s[k]).0 == s[k].0 && (s[k]).1 == s[k].1);
            assert(has_pair(s, (s[k].0, s[k].1)));
            if k < s.len() - 1 {
                assert(sdl[k] == s[k]);
                assert(!(s[k].0 == s[s.len() - 1].0 && s[k].1 == s[s.len() - 1].1));
                assert((s[k].0, s[k].1) != (s.last().0, s.last().1));
                assert(pairs_map(s)[(s[k].0, s[k].1)] == pairs_map(sdl)[(sdl[k].0, sdl[k].1)]);
            }
        }
    }
}

/// Greatest score among the entries; 0 when there are none.
pub open spec fn max_score(s: Seq<(Seq<char>, Seq<char>, u32)>) -> u32
    decreases s.len(),
{
    if s.len() == 0 {
        0u32
    } else {
        let rest = max_score(s.drop_last());
        if s.last().2 > rest {
            s.last().2
        } else {
            rest
        }
    }
}

/// Greatest score among the entries incident to `m`; 0 when there are none.
pub open spec fn max_incident(s: Seq<(Seq<char>, Seq<char>, u32)>, m: Seq<char>) -> u32
    decreases s.len(),
{
    if s.len() == 0 {
        0u32
    } else {
        let rest = max_incident(s.drop_last(), m);
        let cur = if s.last().0 == m || s.last().1 == m {
            s.last().2
        } else {
            0u32
        };
        if cur > rest {
            cur
        } else {
            rest
        }
    }
}

/// Appending an entry extends the endpoint set by the entry's two names.
pub proof fn lemma_endpoints_push(s: Seq<(Seq<char>, Seq<char>, u32)>, t: (Seq<char>, Seq<char>, u32))
    ensures
        endpoints(s.push(t)) == endpoints(s).insert(t.0).insert(t.1),
{
    let sp = s.push(t);
    assert(endpoints(sp) =~= endpoints(s).insert(t.0).insert(t.1)) by {
        assert forall|n: Seq<char>| #![auto] endpoints(sp).contains(n) implies endpoints(s).insert(
            t.0,
        ).insert(t.1).contains(n) by {
            let k = choose|k: int| 0 <= k < sp.len() && ((#[trigger] sp[k]).0 == n || sp[k].1 == n);
            if k < s.len() {
                assert(sp[k] == s[k]);
                assert(has_endpoint(s, n));
            } else {
                assert(sp[k] == t);
            }
        }
        assert forall|n: Seq<char>| #![auto] endpoints(s).insert(t.0).insert(t.1).contains(n)
            implies endpoints(sp).contains(n) by {
            if n == t.0 || n == t.1 {
                assert((sp[s.len() as int]).0 == n || (sp[s.len() as int]).1 == n);
                assert(has_endpoint(sp, n));
            } else {
                let k = choose|k: int|
                    0 <= k < s.len() && ((#[trigger] s[k]).0 == n || s[k].1 == n);
                assert((sp[k]).0 == n || (sp[k]).1 == n);
                assert(has_endpoint(sp, n));
            }
        }
    }
}

/// Appending an entry records its pair in the map.
pub proof fn lemma_pairs_map_push(s: Seq<(Seq<char>, Seq<char>, u32)>, t: (Seq<char>, Seq<char>, u32))
    ensures
        pairs_map(s.push(t)) == pairs_map(s).insert((t.0, t.1), t.2),
{
    assert(s.push(t).drop_last() =~= s);
    assert(s.push(t).last() == t);
}

/// Inserting on the right of a union inserts into the union.
pub proof fn lemma_union_insert_right(
    m1: Map<(Seq<char>, Seq<char>), u32>,
    m2: Map<(Seq<char>, Seq<char>), u32>,
    p: (Seq<char>, Seq<char>),
    v: u32,
)
    ensures
        m1.union_prefer_right(m2).insert(p, v) == m1.union_prefer_right(m2.insert(p, v)),
{
    assert(m1.union_prefer_right(m2).insert(p, v) =~= m1.union_prefer_right(m2.insert(p, v)));
}

/// A union with the empty map on the right is the map itself.
pub proof fn lemma_union_empty_right(m: Map<(Seq<char>, Seq<char>), u32>)
    ensures
        m.union_prefer_right(Map::<(Seq<char>, Seq<char>), u32>::empty()) == m,
{
    assert(m.union_prefer_right(Map::<(Seq<char>, Seq<char>), u32>::empty()) =~= m);
}

/// Finds the entry holding the canonical pair `(a, b)`.
pub fn find_pair(v: &Vec<(String, String, u32)>, a: &str, b: &str) -> (r: Option<usize>)
    ensures
        match r {
            Some(i) => {
                &&& i < v.len()
                &&& v.deep_view()[i as int].0 == a@
                &&& v.deep_view()[i as int].1 == b@
            },
            None => !has_pair(v.deep_view(), (a@, b@)),
        },
{
    let mut i: usize = 0;
    while i < v.len()
        invariant
            i <= v.len(),
            forall|k: int|
                0 <= k < i ==> !((#[trigger] v.deep_view()[k]).0 == a@ && v.deep_view()[k].1
                    == b@),
        decreases v.len() - i,
    {
        let e = &v[i];
        if str_eq(e.0.as_str(), a) && str_eq(e.1.as_str(), b) {
            return Some(i);
        }
        i = i + 1;
    }
    None
}

/// Records a score for the canonical pair `(a, b)`: overwrites the entry for a
/// pair already present, appends a new entry otherwise.
pub fn upsert_pair(v: &mut Vec<(String, String, u32)>, a: String, b: String, ppm: u32)
    requires
        lex_lt(a@, b@),
        pairs_wf(old(v).deep_view()),
    ensures
        pairs_wf(final(v).deep_view()),
        pairs_map(final(v).deep_view()) == pairs_map(old(v).deep_view()).insert((a@, b@), ppm),
        endpoints(final(v).deep_view()) == endpoints(old(v).deep_view()).insert(a@).insert(b@),
        final(v).len() <= old(v).len() + 1,
        final(v).len() >= old(v).len(),
        final(v).len() >= 1,
{
    let ghost old_seq = v.deep_view();
    let found = find_pair(v, a.as_str(), b.as_str());
    match found {
        Some(i) => {
            let _ = v.remove(i);
            v.insert(i, (a, b, ppm));
            proof {
                let new_seq = v.deep_view();
                let ii = i as int;
                assert(new_seq =~= old_seq.update(ii, (a@, b@, ppm)));
                assert(forall|k: int| 0 <= k < new_seq.len() && k != ii ==> new_seq[k]
                    == old_seq[k]);
                assert(new_seq[ii] == (a@, b@, ppm));
                assert(pairs_wf(new_seq)) by {
                    assert(old_seq[ii].0 == a@ && old_seq[ii].1 == b@);
                    assert forall|k1: int, k2: int| 0 <= k1 < k2 < new_seq.len() implies !((
                    #[trigger] new_seq[k1]).0 == (#[trigger] new_seq[k2]).0 && new_seq[k1].1
                        == new_seq[k2].1) by {
                        assert(!(old_seq[k1].0 == old_seq[k2].0 && old_seq[k1].1 == old_seq[k2].1));
                    }
                }
                lemma_pairs_map_dom(old_seq);
                lemma_pairs_map_dom(new_seq);
                lemma_pairs_map_values(old_seq);
                lemma_pairs_map_values(new_seq);
                assert(pairs_map(new_seq) =~= pairs_map(old_seq).insert((a@, b@), ppm)) by {
                    assert forall|p: (Seq<char>, Seq<char>)| #![auto]
                        pairs_map(new_seq).dom().contains(p) == pairs_map(old_seq).insert(
                        (a@, b@),
                        ppm,
                    ).dom().contains(p) by {
                        if has_pair(new_seq, p) {
                            let k = choose|k: int|
                                0 <= k < new_seq.len() && (#[trigger] new_seq[k]).0 == p.0
                                    && new_seq[k].1 == p.1;
                            if k != ii {
                                assert((old_seq[k]).0 == p.0 && (old_seq[k]).1 == p.1);
                                assert(has_pair(old_seq, p));
                            } else {
                                assert(p == (a@, b@));
                            }
                        }
                        if has_pair(old_seq, p) {
                            let k = choose|k: int|
                                0 <= k < old_seq.len() && (#[trigger] old_seq[k]).0 == p.0
                                    && old_seq[k].1 == p.1;
                            if k != ii {
                                assert((new_seq[k]).0 == p.0 && (new_seq[k]).1 == p.1);
                            } else {
                                assert((new_seq[ii]).0 == p.0 && (new_seq[ii]).1 == p.1);
                            }
                            assert(has_pair(new_seq, p));
                        }
                        if p == (a@, b@) {
                            assert((new_seq[ii]).0 == p.0 && (new_seq[ii]).1 == p.1);
                            assert(has_pair(new_seq, p));
                        }
                    }
                    assert forall|p: (Seq<char>, Seq<char>)|
                        pairs_map(new_seq).dom().contains(p) implies #[trigger] pairs_map(
                        new_seq,
                    )[p] == pairs_map(old_seq).insert((a@, b@), ppm)[p] by {
                        let k = choose|k: int|
                            0 <= k < new_seq.len() && (#[trigger] new_seq[k]).0 == p.0
                                && new_seq[k].1 == p.1;
                        assert(p == (new_seq[k].0, new_seq[k].1));
                        assert(pairs_map(new_seq)[p] == new_seq[k].2);
                        if k == ii {
                            assert(p == (a@, b@));
                        } else {
                            assert(p != (a@, b@)) by {
                                if p == (a@, b@) {
                                    if k < ii {
                                        assert(!(new_seq[k].0 == new_seq[ii].0 && new_seq[k].1
                                            == new_seq[ii].1));
                                    } else {
                                        assert(!(new_seq[ii].0 == new_seq[k].0 && new_seq[ii].1
                                            == new_seq[k].1));
                                    }
                                }
                            }
                            assert(old_seq[k] == new_seq[k]);
                            assert(pairs_map(old_seq)[(old_seq[k].0, old_seq[k].1)]
                                == old_seq[k].2);
                        }
                    }
                }
                assert(endpoints(new_seq) =~= endpoints(old_seq).insert(a@).insert(b@)) by {
                    assert(old_seq[ii].0 == a@ && old_seq[ii].1 == b@);
                    assert forall|n: Seq<char>| #![auto] endpoints(new_seq).contains(n)
                        implies endpoints(old_seq).insert(a@).insert(b@).contains(n) by {
                        let k = choose|k: int|
                            0 <= k < new_seq.len() && ((#[trigger] new_seq[k]).0 == n
                                || new_seq[k].1 == n);
                        if k != ii {
                            assert((old_seq[k]).0 == n || (old_seq[k]).1 == n);
                            assert(has_endpoint(old_seq, n));
                        }
                    }
                    assert forall|n: Seq<char>| #![auto] endpoints(old_seq).insert(a@).insert(
                        b@,
                    ).contains(n) implies endpoints(new_seq).contains(n) by {
                        if n == a@ || n == b@ {
                            assert((new_seq[ii]).0 == n || (new_seq[ii]).1 == n);
                            assert(has_endpoint(new_seq, n));
                        } else {
                            let k = choose|k: int|
                                0 <= k < old_seq.len() && ((#[trigger] old_seq[k]).0 == n
                                    || old_seq[k].1 == n);
                            if k == ii {
                                assert(old_seq[ii].0 == a@ && old_seq[ii].1 == b@);
                            } else {
                                assert((new_seq[k]).0 == n || (new_seq[k]).1 == n);
                            }
                            assert(has_endpoint(new_seq, n));
                        }
                    }
                }
            }
        },
        None => {
            v.push((a, b, ppm));
            proof {
                let new_seq = v.deep_view();
                assert(new_seq =~= old_seq.push((a@, b@, ppm)));
                assert(new_seq.drop_last() =~= old_seq);
                assert(new_seq[new_seq.len() - 1] == (a@, b@, ppm));
                assert(forall|k: int| 0 <= k < old_seq.len() ==> new_seq[k] == old_seq[k]);
                assert(pairs_wf(new_seq)) by {
                    assert forall|k1: int, k2: int| 0 <= k1 < k2 < new_seq.len() implies !((
                    #[trigger] new_seq[k1]).0 == (#[trigger] new_seq[k2]).0 && new_seq[k1].1
                        == new_seq[k2].1) by {
                        if k2 == new_seq.len() - 1 {
                            assert(!((old_seq[k1]).0 == a@ && (old_seq[k1]).1 == b@));
                        } else {
                            assert(!(old_seq[k1].0 == old_seq[k2].0 && old_seq[k1].1
                                == old_seq[k2].1));
                        }
                    }
                }
                assert(pairs_map(new_seq) == pairs_map(old_seq).insert((a@, b@), ppm));
                assert(endpoints(new_seq) =~= endpoints(old_seq).insert(a@).insert(b@)) by {
                    assert forall|n: Seq<char>| #![auto] endpoints(new_seq).contains(n)
                        implies endpoints(old_seq).insert(a@).insert(b@).contains(n) by {
                        let k = choose|k: int|
                            0 <= k < new_seq.len() && ((#[trigger] new_seq[k]).0 == n
                                || new_seq[k].1 == n);
                        if k < old_seq.len() {
                            assert((old_seq[k]).0 == n || (old_seq[k]).1 == n);
                            assert(has_endpoint(old_seq, n));
                        }
                    }
                    assert forall|n: Seq<char>| #![auto] endpoints(old_seq).insert(a@).insert(
                        b@,
                    ).contains(n) implies endpoints(new_seq).contains(n) by {
                        if n == a@ || n == b@ {
                            assert((new_seq[new_seq.len() - 1]).0 == n || (new_seq[new_seq.len()
                                - 1]).1 == n);
                            assert(has_endpoint(new_seq, n));
                        } else {
                            let k = choose|k: int|
                                0 <= k < old_seq.len() && ((#[trigger] old_seq[k]).0 == n
                                    || old_seq[k].1 == n);
                            assert((new_seq[k]).0 == n || (new_seq[k]).1 == n);
                            assert(has_endpoint(new_seq, n));
                        }
                    }
                }
            }
        },
    }
}

/// Decides view equality of two entry vectors.
pub fn entries_equal(a: &Vec<(String, String, u32)>, b: &Vec<(String, String, u32)>) -> (r: bool)
    ensures
        r == (a.deep_view() == b.deep_view()),
{
    if a.len() != b.len() {
        proof {
            assert(a.deep_view().len() == a@.len());
            assert(b.deep_view().len() == b@.len());
        }
        return false;
    }
    let mut i: usize = 0;
    while i < a.len()
        invariant
            i <= a.len(),
            a.len() == b.len(),
            forall|j: int| 0 <= j < i ==> a.deep_view()[j] == b.deep_view()[j],
        decreases a.len() - i,
    {
        let x = &a[i];
        let y = &b[i];
        proof {
            assert(a.deep_view()[i as int] == (x.0@, x.1@, x.2));
            assert(b.deep_view()[i as int] == (y.0@, y.1@, y.2));
        }
        if !(str_eq(x.0.as_str(), y.0.as_str()) && str_eq(x.1.as_str(), y.1.as_str()) && x.2
            == y.2) {
            proof {
                assert(a.deep_view()[i as int] != b.deep_view()[i as int]);
            }
            return false;
        }
        i = i + 1;
    }
    proof {
        assert(a.deep_view() =~= b.deep_view());
    }
    true
}

/// Computes `max_score` of the stored entries.
pub fn compute_max_score(v: &Vec<(String, String, u32)>) -> (r: u32)
    ensures
        r == max_score(v.deep_view()),
{
    let mut best: u32 = 0;
    let mut i: usize = 0;
    while i < v.len()
        invariant
            i <= v.len(),
            best == max_score(v.deep_view().take(i as int)),
        decreases v.len() - i,
    {
        proof {
            let s = v.deep_view();
            assert(s.take(i as int + 1).drop_last() =~= s.take(i as int));
            assert(s.take(i as int + 1).last() == s[i as int]);
        }
        let e = &v[i];
        if e.2 > best {
            best = e.2;
        }
        i = i + 1;
    }
    proof {
        assert(v.deep_view().take(v.len() as int) =~= v.deep_view());
    }
    best
}

/// Computes `max_incident` of the stored entries for the name `m`.
pub fn compute_max_incident(v: &Vec<(String, String, u32)>, m: &str) -> (r: u32)
    ensures
        r == max_incident(v.deep_view(), m@),
{
    let mut best: u32 = 0;
    let mut i: usize = 0;
    while i < v.len()
        invariant
            i <= v.len(),
            best == max_incident(v.deep_view().take(i as int), m@),
        decreases v.len() - i,
    {
        proof {
            let s = v.deep_view();
            assert(s.take(i as int + 1).drop_last() =~= s.take(i as int));
            assert(s.take(i as int + 1).last() == s[i as int]);
        }
        let e = &v[i];
        if str_eq(e.0.as_str(), m) || str_eq(e.1.as_str(), m) {
            if e.2 > best {
                best = e.2;
            }
        }
        i = i + 1;
    }
    proof {
        assert(v.deep_view().take(v.len() as int) =~= v.deep_view());
    }
    best
}

} // verus!
