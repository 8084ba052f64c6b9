//! A single connected group of names.
//!
//! A `Clique` is one connected group of names, together with the scored edges
//! that connected them.  It grows by edge addition, absorbs other cliques on
//! merge, and is never split.  Its core member and its greatest edge score
//! are derived from the stored edges, not stored.
use vstd::prelude::*;

verus! {

use crate::order::insert_name;
use crate::order::lemma_lex_le_antisym;
use crate::order::lemma_lex_lt_total;
use crate::order::lex_le;
use crate::order::lex_lt;
use crate::order::find_name;
use crate::order::sorted_strict;
use crate::order::str_eq;
use crate::order::str_lt;
use crate::pairs::canon_pair;
use crate::pairs::compute_max_incident;
use crate::pairs::compute_max_score;
use crate::pairs::endpoints;
use crate::pairs::has_endpoint;
use crate::pairs::lemma_endpoints_push;
use crate::pairs::lemma_pairs_map_push;
use crate::pairs::lemma_union_empty_right;
use crate::pairs::lemma_union_insert_right;
use crate::pairs::max_incident;
use crate::pairs::max_score;
use crate::pairs::pairs_map;
use crate::pairs::pairs_wf;
use crate::pairs::upsert_pair;

/// One connected group of names and its internal scored edges.
#[derive(Clone, Debug)]
pub struct Clique {
    id: usize,
    members: Vec<String>,
    edges: Vec<(String, String, u32)>,
}

/// The read-only projection of a clique: its core member, the other members
/// sorted ascending, and the greatest edge score.
#[derive(Clone, Debug, PartialEq, Eq)]
pub struct CliqueExport {
    pub core: String,
    pub non_core_members: Vec<String>,
    pub max_ppm: u32,
}

/// `a` precedes `b` under the core rule: a smaller greatest incident score,
/// ties broken by the lexicographically smaller name.
pub open spec fn min_max_before(
    es: Seq<(Seq<char>, Seq<char>, u32)>,
    a: Seq<char>,
    b: Seq<char>,
) -> bool {
    max_incident(es, a) < max_incident(es, b) || (max_incident(es, a) == max_incident(es, b)
        && lex_le(a, b))
}

/// The content of an export: core name, non-core names, greatest score.
pub open spec fn export_view(e: CliqueExport) -> (Seq<char>, Seq<Seq<char>>, u32) {
    (e.core@, e.non_core_members.deep_view(), e.max_ppm)
}

/// Ascending order on exports: by greatest score, ties broken by core name.
pub open spec fn export_le(a: CliqueExport, b: CliqueExport) -> bool {
    a.max_ppm < b.max_ppm || (a.max_ppm == b.max_ppm && lex_le(a.core@, b.core@))
}

/// What `cmp_ppm` returns: the ordering of the two greatest scores.
pub open spec fn spec_cmp_ppm(a: CliqueExport, b: CliqueExport) -> core::cmp::Ordering {
    if a.max_ppm < b.max_ppm {
        core::cmp::Ordering::Less
    } else if a.max_ppm > b.max_ppm {
        core::cmp::Ordering::Greater
    } else {
        core::cmp::Ordering::Equal
    }
}

impl Clique {
    /// The stable identifier within one clique set.
    pub closed spec fn spec_id(self) -> int {
        self.id as int
    }

    /// The member names, ascending.
    pub closed spec fn spec_members(self) -> Seq<Seq<char>> {
        self.members.deep_view()
    }

    /// The stored edges, canonical and distinct.
    pub closed spec fn spec_edges(self) -> Seq<(Seq<char>, Seq<char>, u32)> {
        self.edges.deep_view()
    }

    /// The set of member names.
    pub open spec fn member_set(self) -> Set<Seq<char>> {
        self.spec_members().to_set()
    }

    /// The map from canonical member pairs to the score that connected them.
    pub open spec fn edge_map(self) -> Map<(Seq<char>, Seq<char>), u32> {
        pairs_map(self.spec_edges())
    }

    /// Structural soundness: sorted members that are exactly the edge
    /// endpoints, and canonically stored distinct edges.
    pub open spec fn inv(self) -> bool {
        &&& sorted_strict(self.spec_members())
        &&& pairs_wf(self.spec_edges())
        &&& endpoints(self.spec_edges()) == self.member_set()
    }

    /// A clique proper: it was born from an edge, so it holds at least one.
    pub open spec fn wf(self) -> bool {
        self.inv() && self.spec_edges().len() >= 1
    }

    /// The core member: the member whose greatest incident score is
    /// smallest, ties broken by the lexicographically smallest name.
    pub open spec fn spec_core(self) -> Seq<char> {
        choose|m: Seq<char>|
            self.member_set().contains(m) && forall|x: Seq<char>|
                self.member_set().contains(x) ==> #[trigger] min_max_before(
                    self.spec_edges(),
                    m,
                    x,
                )
    }

    /// Creates a clique holding the single edge `(l, r, ppm)`.
    pub fn new(l: &str, r: &str, ppm: u32, id: usize) -> (c: Clique)
        requires
            l@ != r@,
        ensures
            c.wf(),
            c.spec_id() == id,
            c.member_set() == Set::<Seq<char>>::empty().insert(l@).insert(r@),
            c.edge_map() == Map::<(Seq<char>, Seq<char>), u32>::empty().insert(
                canon_pair(l@, r@),
                ppm,
            ),
    {
        let members: Vec<String> = Vec::new();
        let edges: Vec<(String, String, u32)> = Vec::new();
        let mut new_clique = Clique { members, edges, id };
        proof {
            assert(new_clique.spec_members() =~= Seq::<Seq<char>>::empty());
            assert(new_clique.spec_edges() =~= Seq::<(Seq<char>, Seq<char>, u32)>::empty());
            assert(endpoints(new_clique.spec_edges()) =~= new_clique.member_set()) by {
                assert forall|n: Seq<char>| !has_endpoint(new_clique.spec_edges(), n) by {}
            }
            assert(new_clique.member_set() =~= Set::<Seq<char>>::empty());
        }
        new_clique.add(l, r, ppm);
        proof {
            assert(new_clique.member_set() == Set::<Seq<char>>::empty().insert(l@).insert(r@));
        }
        new_clique
    }

    /// The clique's stable identifier.
    pub fn id(&self) -> (r: usize)
        ensures
            r as int == self.spec_id(),
    {
        self.id
    }

    /// Whether the name is a member.
    pub fn contains(&self, l: &str) -> (r: bool)
        ensures
            r == self.member_set().contains(l@),
    {
        match find_name(&self.members, l) {
            Some(i) => {
                proof {
                    assert(self.spec_members()[i as int] == l@);
                    assert(self.spec_members().contains(l@));
                }
                true
            },
            None => false,
        }
    }

    /// Records the edge `(l, r, ppm)`, adding both names as members when new.
    /// An edge recorded for a pair already connected overwrites that pair's
    /// score.
    pub fn add(&mut self, l: &str, r: &str, ppm: u32)
        requires
            old(self).inv(),
            l@ != r@,
        ensures
            final(self).inv(),
            final(self).spec_id() == old(self).spec_id(),
            final(self).member_set() == old(self).member_set().insert(l@).insert(r@),
            final(self).edge_map() == old(self).edge_map().insert(canon_pair(l@, r@), ppm),
            final(self).spec_edges().len() >= 1,
            final(self).spec_edges().len() >= old(self).spec_edges().len(),
    {
        let l_first = str_lt(l, r);
        proof {
            lemma_lex_lt_total(l@, r@);
        }
        insert_name(&mut self.members, l.to_owned());
        insert_name(&mut self.members, r.to_owned());
        if l_first {
            upsert_pair(&mut self.edges, l.to_owned(), r.to_owned(), ppm);
        } else {
            proof {
                assert(lex_lt(r@, l@));
            }
            upsert_pair(&mut self.edges, r.to_owned(), l.to_owned(), ppm);
        }
        proof {
            let p = canon_pair(l@, r@);
            assert(endpoints(self.spec_edges()) == endpoints(old(self).spec_edges()).insert(
                p.0,
            ).insert(p.1));
            assert(endpoints(self.spec_edges()) =~= self.member_set());
        }
    }

    /// The number of members.
    pub fn member_count(&self) -> (r: usize)
        ensures
            r == self.spec_members().len(),
    {
        self.members.len()
    }

    /// The member at a position, in ascending member order.
    pub fn member_at(&self, i: usize) -> (r: &str)
        requires
            i < self.spec_members().len(),
        ensures
            r@ == self.spec_members()[i as int],
    {
        self.members[i].as_str()
    }

    /// The member names, ascending, as a fresh vector.
    pub fn iter(&self) -> (r: Vec<String>)
        ensures
            r.deep_view() == self.spec_members(),
    {
        let mut out: Vec<String> = Vec::new();
        let mut i: usize = 0;
        proof {
            assert(out.deep_view() =~= self.spec_members().take(0));
        }
        while i < self.members.len()
            invariant
                i <= self.members.len(),
                out.deep_view() == self.spec_members().take(i as int),
            decreases self.members.len() - i,
        {
            let k = self.members[i].clone();
            proof {
                assert(k@ == self.spec_members()[i as int]);
                assert(out.deep_view().len() == out@.len());
            }
            out.push(k);
            proof {
                assert(out@.len() == i as int + 1);
                assert(out.deep_view() =~= self.spec_members().take(i as int + 1));
            }
            i = i + 1;
        }
        proof {
            assert(self.spec_members().take(self.members.len() as int) =~= self.spec_members());
        }
        out
    }

    /// A fresh clique with the same identifier, members and edges.
    pub fn duplicate(&self) -> (r: Clique)
        ensures
            r.spec_id() == self.spec_id(),
            r.spec_members() == self.spec_members(),
            r.spec_edges() == self.spec_edges(),
    {
        let members = self.iter();
        let mut edges: Vec<(String, String, u32)> = Vec::new();
        let mut i: usize = 0;
        proof {
            assert(edges.deep_view() =~= self.spec_edges().take(0));
        }
        while i < self.edges.len()
            invariant
                i <= self.edges.len(),
                edges.deep_view() == self.spec_edges().take(i as int),
            decreases self.edges.len() - i,
        {
            let e = &self.edges[i];
            let copied = (e.0.clone(), e.1.clone(), e.2);
            proof {
                assert((copied.0@, copied.1@, copied.2) == self.spec_edges()[i as int]);
                assert(edges.deep_view().len() == edges@.len());
            }
            edges.push(copied);
            proof {
                assert(edges.deep_view() =~= self.spec_edges().take(i as int + 1));
            }
            i = i + 1;
        }
        proof {
            assert(self.spec_edges().take(self.edges.len() as int) =~= self.spec_edges());
        }
        Clique { id: self.id, members, edges }
    }

    /// Absorbs all of another clique's edges and members into this one; the
    /// score of a pair both cliques connected is the absorbed clique's.
    pub fn merge(&mut self, o: Clique)
        requires
            old(self).inv(),
            o.inv(),
        ensures
            final(self).inv(),
            final(self).spec_id() == old(self).spec_id(),
            final(self).member_set() == old(self).member_set().union(o.member_set()),
            final(self).edge_map() == old(self).edge_map().union_prefer_right(o.edge_map()),
            final(self).spec_edges().len() >= old(self).spec_edges().len(),
    {
        let ghost oes = o.spec_edges();
        let ghost old_members = old(self).member_set();
        let ghost old_map = old(self).edge_map();
        proof {
            assert(oes.take(0) =~= Seq::<(Seq<char>, Seq<char>, u32)>::empty());
            lemma_union_empty_right(old_map);
            assert(endpoints(oes.take(0)) =~= Set::<Seq<char>>::empty()) by {
                assert forall|n: Seq<char>| !has_endpoint(oes.take(0), n) by {}
            }
            assert(old_members.union(endpoints(oes.take(0))) =~= old_members);
        }
        let mut k: usize = 0;
        while k < o.edges.len()
            invariant
                k <= o.edges.len(),
                oes == o.spec_edges(),
                o.inv(),
                self.inv(),
                self.spec_id() == old(self).spec_id(),
                old_members == old(self).member_set(),
                old_map == old(self).edge_map(),
                self.member_set() == old_members.union(endpoints(oes.take(k as int))),
                self.edge_map() == old_map.union_prefer_right(pairs_map(oes.take(k as int))),
                self.spec_edges().len() >= old(self).spec_edges().len(),
            decreases o.edges.len() - k,
        {
            let e = &o.edges[k];
            proof {
                assert(oes[k as int] == (e.0@, e.1@, e.2));
                assert(lex_lt(e.0@, e.1@));
            }
            insert_name(&mut self.members, e.0.clone());
            insert_name(&mut self.members, e.1.clone());
            upsert_pair(&mut self.edges, e.0.clone(), e.1.clone(), e.2);
            proof {
                let kk = k as int;
                let t = oes[kk];
                assert(oes.take(kk + 1) =~= oes.take(kk).push(t));
                lemma_endpoints_push(oes.take(kk), t);
                lemma_pairs_map_push(oes.take(kk), t);
                lemma_union_insert_right(old_map, pairs_map(oes.take(kk)), (t.0, t.1), t.2);
                assert(self.member_set() =~= old_members.union(endpoints(oes.take(kk + 1))));
                assert(self.edge_map() == old_map.union_prefer_right(
                    pairs_map(oes.take(kk + 1)),
                ));
                assert(endpoints(self.spec_edges()) =~= self.member_set());
            }
            k = k + 1;
        }
        proof {
            assert(oes.take(o.edges.len() as int) =~= oes);
        }
    }

    /// The greatest edge score in the clique; 0 with no edges.
    pub fn max_ppm(&self) -> (r: u32)
        ensures
            r == max_score(self.spec_edges()),
    {
        compute_max_score(&self.edges)
    }

    /// Selects the core: the member that is, at worst, least similar to any
    /// other member — the one with the smallest greatest incident score,
    /// ties broken by the lexicographically smallest name.
    pub fn core_member(&self) -> (r: String)
        requires
            self.wf(),
        ensures
            self.member_set().contains(r@),
            forall|x: Seq<char>|
                self.member_set().contains(x) ==> #[trigger] min_max_before(
                    self.spec_edges(),
                    r@,
                    x,
                ),
            r@ == self.spec_core(),
    {
        let ghost es = self.spec_edges();
        let ghost ms = self.spec_members();
        proof {
            let e0 = es[0];
            assert(e0.0 == (es[0]).0);
            assert(has_endpoint(es, e0.0));
            assert(self.member_set().contains(e0.0));
            assert(ms.contains(e0.0));
            assert(ms.len() >= 1);
        }
        let mut best_idx: usize = 0;
        let mut best_max: u32 = compute_max_incident(&self.edges, self.members[0].as_str());
        let mut i: usize = 1;
        while i < self.members.len()
            invariant
                0 < i <= self.members.len(),
                best_idx < i,
                self.wf(),
                es == self.spec_edges(),
                ms == self.spec_members(),
                best_max == max_incident(es, ms[best_idx as int]),
                forall|j: int|
                    0 <= j < i ==> min_max_before(es, ms[best_idx as int], #[trigger] ms[j]),
            decreases self.members.len() - i,
        {
            let cur = compute_max_incident(&self.edges, self.members[i].as_str());
            if cur < best_max {
                proof {
                    let old_best = best_idx as int;
                    assert forall|j: int| 0 <= j < i as int + 1 implies min_max_before(
                        es,
                        ms[i as int],
                        #[trigger] ms[j],
                    ) by {
                        if j < i as int {
                            assert(min_max_before(es, ms[old_best], ms[j]));
                        }
                    }
                }
                best_idx = i;
                best_max = cur;
            } else {
                proof {
                    assert(lex_lt(ms[best_idx as int], ms[i as int]));
                    assert(min_max_before(es, ms[best_idx as int], ms[i as int]));
                }
            }
            i = i + 1;
        }
        let r = self.members[best_idx].clone();
        proof {
            assert(r@ == ms[best_idx as int]);
            assert(ms.contains(r@));
            assert(self.member_set().contains(r@));
            assert forall|x: Seq<char>| self.member_set().contains(x)
                implies #[trigger] min_max_before(es, r@, x) by {
                assert(ms.contains(x));
                let j = choose|j: int| 0 <= j < ms.len() && ms[j] == x;
                assert(min_max_before(es, ms[best_idx as int], ms[j]));
            }
            let m = self.spec_core();
            assert(self.member_set().contains(m) && forall|x: Seq<char>|
                self.member_set().contains(x) ==> #[trigger] min_max_before(es, m, x)) by {
                assert(self.member_set().contains(r@) && forall|x: Seq<char>|
                    self.member_set().contains(x) ==> #[trigger] min_max_before(es, r@, x));
            }
            assert(min_max_before(es, m, r@));
            assert(min_max_before(es, r@, m));
            lemma_lex_le_antisym(r@, m);
        }
        r
    }

    /// Projects the clique: the core name, the other members ascending, and
    /// the clique's greatest edge score.
    pub fn export(&self) -> (r: CliqueExport)
        requires
            self.wf(),
        ensures
            r.core@ == self.spec_core(),
            r.non_core_members.deep_view() == self.spec_members().filter(
                |m: Seq<char>| m != self.spec_core(),
            ),
            r.max_ppm == max_score(self.spec_edges()),
    {
        let core_name = self.core_member();
        let ghost ms = self.spec_members();
        let mut non_core: Vec<String> = Vec::new();
        let mut i: usize = 0;
        proof {
            reveal(Seq::filter);
            assert(ms.take(0) =~= Seq::<Seq<char>>::empty());
            assert(non_core.deep_view() =~= ms.take(0).filter(
                |m: Seq<char>| m != self.spec_core(),
            ));
        }
        while i < self.members.len()
            invariant
                i <= self.members.len(),
                self.wf(),
                ms == self.spec_members(),
                core_name@ == self.spec_core(),
                non_core.deep_view() == ms.take(i as int).filter(
                    |m: Seq<char>| m != self.spec_core(),
                ),
            decreases self.members.len() - i,
        {
            let ghost pred = |m: Seq<char>| m != self.spec_core();
            proof {
                reveal(Seq::filter);
                assert(ms.take(i as int + 1).drop_last() =~= ms.take(i as int));
                assert(ms.take(i as int + 1).last() == ms[i as int]);
            }
            if !str_eq(self.members[i].as_str(), core_name.as_str()) {
                let k = self.members[i].clone();
                proof {
                    assert(k@ == ms[i as int]);
                }
                non_core.push(k);
                proof {
                    assert(non_core@.len() == ms.take(i as int).filter(pred).len() + 1);
                    assert(ms.take(i as int + 1).filter(pred) == ms.take(i as int).filter(
                        pred,
                    ).push(ms[i as int]));
                    assert(non_core.deep_view() =~= ms.take(i as int + 1).filter(pred));
                }
            } else {
                proof {
                    assert(ms.take(i as int + 1).filter(pred) == ms.take(i as int).filter(pred));
                }
            }
            i = i + 1;
        }
        proof {
            assert(ms.take(self.members.len() as int) =~= ms);
        }
        let max_ppm = self.max_ppm();
        CliqueExport { core: core_name, non_core_members: non_core, max_ppm }
    }
}

impl CliqueExport {
    /// Compares two exports by their greatest edge score.
    pub fn cmp_ppm(&self, other: &Self) -> (r: core::cmp::Ordering)
        ensures
            r == spec_cmp_ppm(*self, *other),
    {
        if self.max_ppm < other.max_ppm {
            core::cmp::Ordering::Less
        } else if self.max_ppm > other.max_ppm {
            core::cmp::Ordering::Greater
        } else {
            core::cmp::Ordering::Equal
        }
    }
}

/// Determinism of core selection: at most one member is minimal under the
/// min-max rule with its lexicographic tie-break, so the core is a function
/// of the members and their greatest incident scores.
pub proof fn lemma_core_unique(c: Clique, r1: Seq<char>, r2: Seq<char>)
    requires
        c.member_set().contains(r1),
        c.member_set().contains(r2),
        forall|x: Seq<char>|
            c.member_set().contains(x) ==> #[trigger] min_max_before(c.spec_edges(), r1, x),
        forall|x: Seq<char>|
            c.member_set().contains(x) ==> #[trigger] min_max_before(c.spec_edges(), r2, x),
    ensures
        r1 == r2,
{
    assert(min_max_before(c.spec_edges(), r1, r2));
    assert(min_max_before(c.spec_edges(), r2, r1));
    lemma_lex_le_antisym(r1, r2);
}

} // verus!
