//! The partition of names into cliques at one threshold.
//!
//! A `Cliques` value holds the disjoint connected groups formed by the edges
//! added so far.  Adding an edge either creates a new clique, extends one, or
//! merges two; identifiers strictly increase as cliques are created and a
//! retired identifier is never reused.  The whole state has a mathematical
//! model, `CliquesModel`, and every operation is specified as a function on
//! that model.
use vstd::prelude::*;

verus! {

use crate::clique::Clique;
use crate::clique::CliqueExport;
use crate::clique::export_view;
use crate::order::lemma_lex_lt_asym;
use crate::order::lemma_lex_lt_irrefl;
use crate::order::lemma_lex_lt_total;
use crate::order::lex_le;
use crate::order::lex_lt;
use crate::order::str_lt;
use crate::pairs::canon_pair;
use crate::pairs::max_score;

/// The mathematical state of one clique: its identifier, its member set and
/// its map from canonical member pairs to scores.
pub struct CliqueModel {
    pub id: int,
    pub members: Set<Seq<char>>,
    pub edges: Map<(Seq<char>, Seq<char>), u32>,
}

/// The mathematical state of a clique set: the clique states in stored
/// order, and the next identifier to assign.
pub struct CliquesModel {
    pub groups: Seq<CliqueModel>,
    pub next_id: int,
}

/// A partition of the names touched so far into disjoint cliques.
#[derive(Clone, Debug)]
pub struct Cliques {
    cliques: Vec<Clique>,
    base_id: usize,
}

/// The model of one concrete clique.
pub open spec fn clique_model(c: Clique) -> CliqueModel {
    CliqueModel { id: c.spec_id(), members: c.member_set(), edges: c.edge_map() }
}

/// One edge recorded inside a clique.
pub open spec fn clique_model_add(c: CliqueModel, l: Seq<char>, r: Seq<char>, ppm: u32) -> CliqueModel {
    CliqueModel {
        id: c.id,
        members: c.members.insert(l).insert(r),
        edges: c.edges.insert(canon_pair(l, r), ppm),
    }
}

/// One clique absorbed into another; the absorbing clique's identifier
/// survives.
pub open spec fn clique_model_merge(a: CliqueModel, b: CliqueModel) -> CliqueModel {
    CliqueModel {
        id: a.id,
        members: a.members.union(b.members),
        edges: a.edges.union_prefer_right(b.edges),
    }
}

/// The position of the first clique containing `n`, scanning in stored
/// order.  Cliques are member-disjoint, so at most one contains `n`.
pub open spec fn model_find(gs: Seq<CliqueModel>, n: Seq<char>) -> Option<int>
    decreases gs.len(),
{
    if gs.len() == 0 {
        None
    } else if gs[0].members.contains(n) {
        Some(0int)
    } else {
        match model_find(gs.drop_first(), n) {
            Some(i) => Some(i + 1),
            None => None,
        }
    }
}

pub proof fn lemma_model_find(gs: Seq<CliqueModel>, n: Seq<char>)
    ensures
        match model_find(gs, n) {
            Some(i) => 0 <= i < gs.len() && gs[i].members.contains(n) && forall|j: int|
                0 <= j < i ==> !(#[trigger] gs[j]).members.contains(n),
            None => forall|j: int| 0 <= j < gs.len() ==> !(#[trigger] gs[j]).members.contains(n),
        },
    decreases gs.len(),
{
    if gs.len() > 0 {
        let tail = gs.drop_first();
        lemma_model_find(tail, n);
        if !gs[0].members.contains(n) {
            match model_find(tail, n) {
                Some(i) => {
                    assert(model_find(gs, n) == Some(i + 1));
                    assert(gs[i + 1] == tail[i]);
                    assert forall|j: int| 0 <= j < i + 1 implies !(
                    #[trigger] gs[j]).members.contains(n) by {
                        if j > 0 {
                            assert(gs[j] == tail[j - 1]);
                            assert(!tail[j - 1].members.contains(n));
                        }
                    }
                },
                None => {
                    assert forall|j: int| 0 <= j < gs.len() implies !(
                    #[trigger] gs[j]).members.contains(n) by {
                        if j > 0 {
                            assert(gs[j] == tail[j - 1]);
                            assert(!tail[j - 1].members.contains(n));
                        }
                    }
                },
            }
        }
    }
}

/// The §4.3 placement of one edge: create a clique for a fresh pair, extend
/// the clique holding one known endpoint, record the edge inside the common
/// clique, or merge the two cliques holding the endpoints and record it in
/// the merged one.
pub open spec fn model_add(s: CliquesModel, l: Seq<char>, r: Seq<char>, ppm: u32) -> CliquesModel {
    match (model_find(s.groups, l), model_find(s.groups, r)) {
        (Some(li), Some(ri)) => {
            if li == ri {
                CliquesModel {
                    groups: s.groups.update(li, clique_model_add(s.groups[li], l, r, ppm)),
                    next_id: s.next_id,
                }
            } else {
                let merged = clique_model_add(
                    clique_model_merge(s.groups[li], s.groups[ri]),
                    l,
                    r,
                    ppm,
                );
                let li2 = if li < ri {
                    li
                } else {
                    li - 1
                };
                CliquesModel { groups: s.groups.remove(ri).update(li2, merged), next_id: s.next_id }
            }
        },
        (Some(li), None) => CliquesModel {
            groups: s.groups.update(li, clique_model_add(s.groups[li], l, r, ppm)),
            next_id: s.next_id,
        },
        (None, Some(ri)) => CliquesModel {
            groups: s.groups.update(ri, clique_model_add(s.groups[ri], l, r, ppm)),
            next_id: s.next_id,
        },
        (None, None) => CliquesModel {
            groups: s.groups.push(
                CliqueModel {
                    id: s.next_id,
                    members: Set::<Seq<char>>::empty().insert(l).insert(r),
                    edges: Map::<(Seq<char>, Seq<char>), u32>::empty().insert(
                        canon_pair(l, r),
                        ppm,
                    ),
                },
            ),
            next_id: s.next_id + 1,
        },
    }
}

/// The names over all cliques of a state.
pub open spec fn all_members(gs: Seq<CliqueModel>) -> Set<Seq<char>> {
    Set::new(
        |n: Seq<char>|
            exists|j: int| 0 <= j < gs.len() && (#[trigger] gs[j]).members.contains(n),
    )
}

/// Membership conservation: wherever the current grouping places them,
/// placing an edge extends the names over all cliques by exactly the edge's
/// two endpoints.  Folded over an edge list, the total membership of a
/// clique set therefore depends only on the endpoints added, not on the
/// order in which the edges were placed.
pub proof fn lemma_add_conserves_membership(s: CliquesModel, l: Seq<char>, r: Seq<char>, ppm: u32)
    ensures
        all_members(model_add(s, l, r, ppm).groups) == all_members(s.groups).insert(l).insert(r),
{
    lemma_model_find(s.groups, l);
    lemma_model_find(s.groups, r);
    let gs = s.groups;
    let gs2 = model_add(s, l, r, ppm).groups;
    assert forall|n: Seq<char>| #![auto] all_members(gs2).contains(n) implies all_members(
        gs,
    ).insert(l).insert(r).contains(n) by {
        let j = choose|j: int| 0 <= j < gs2.len() && (#[trigger] gs2[j]).members.contains(n);
        match (model_find(gs, l), model_find(gs, r)) {
            (Some(li), Some(ri)) => {
                if li == ri {
                    if j == li {
                        if n != l && n != r {
                            assert(gs[li].members.contains(n));
                        }
                    } else {
                        assert(gs2[j] == gs[j]);
                    }
                } else {
                    let li2 = if li < ri {
                        li
                    } else {
                        li - 1
                    };
                    if j == li2 {
                        if n != l && n != r {
                            assert(gs[li].members.contains(n) || gs[ri].members.contains(n));
                        }
                    } else {
                        let oj = if j < ri {
                            j
                        } else {
                            j + 1
                        };
                        assert(gs2[j] == gs[oj]);
                    }
                }
            },
            (Some(li), None) => {
                if j == li {
                    if n != l && n != r {
                        assert(gs[li].members.contains(n));
                    }
                } else {
                    assert(gs2[j] == gs[j]);
                }
            },
            (None, Some(ri)) => {
                if j == ri {
                    if n != l && n != r {
                        assert(gs[ri].members.contains(n));
                    }
                } else {
                    assert(gs2[j] == gs[j]);
                }
            },
            (None, None) => {
                if j == gs.len() as int {
                    assert(n == l || n == r);
                } else {
                    assert(gs2[j] == gs[j]);
                }
            },
        }
    }
    assert forall|n: Seq<char>| #![auto] all_members(gs).insert(l).insert(r).contains(n)
        implies all_members(gs2).contains(n) by {
        match (model_find(gs, l), model_find(gs, r)) {
            (Some(li), Some(ri)) => {
                if li == ri {
                    if n == l || n == r {
                        assert(gs2[li].members.contains(n));
                    } else {
                        let j = choose|j: int|
                            0 <= j < gs.len() && (#[trigger] gs[j]).members.contains(n);
                        if j == li {
                            assert(gs2[li].members.contains(n));
                        } else {
                            assert(gs2[j] == gs[j]);
                        }
                    }
                } else {
                    let li2 = if li < ri {
                        li
                    } else {
                        li - 1
                    };
                    if n == l || n == r {
                        assert(gs2[li2].members.contains(n));
                    } else {
                        let j = choose|j: int|
                            0 <= j < gs.len() && (#[trigger] gs[j]).members.contains(n);
                        if j == li || j == ri {
                            assert(gs2[li2].members.contains(n));
                        } else {
                            let nj = if j < ri {
                                j
                            } else {
                                j - 1
                            };
                            assert(gs2[nj] == gs[j]);
                            assert(gs2[nj].members.contains(n));
                        }
                    }
                }
            },
            (Some(li), None) => {
                if n == l || n == r {
                    assert(gs2[li].members.contains(n));
                } else {
                    let j = choose|j: int|
                        0 <= j < gs.len() && (#[trigger] gs[j]).members.contains(n);
                    if j == li {
                        assert(gs2[li].members.contains(n));
                    } else {
                        assert(gs2[j] == gs[j]);
                    }
                }
            },
            (None, Some(ri)) => {
                if n == l || n == r {
                    assert(gs2[ri].members.contains(n));
                } else {
                    let j = choose|j: int|
                        0 <= j < gs.len() && (#[trigger] gs[j]).members.contains(n);
                    if j == ri {
                        assert(gs2[ri].members.contains(n));
                    } else {
                        assert(gs2[j] == gs[j]);
                    }
                }
            },
            (None, None) => {
                if n == l || n == r {
                    assert(gs2[gs.len() as int].members.contains(n));
                } else {
                    let j = choose|j: int|
                        0 <= j < gs.len() && (#[trigger] gs[j]).members.contains(n);
                    assert(gs2[j] == gs[j]);
                    assert(gs2[j].members.contains(n));
                }
            },
        }
    }
    assert(all_members(gs2) =~= all_members(gs).insert(l).insert(r));
}

/// A clique state whose stored pairs connect its own members.
pub open spec fn model_self_contained(g: CliqueModel) -> bool {
    forall|p: (Seq<char>, Seq<char>)| #[trigger]
        g.edges.dom().contains(p) ==> g.members.contains(p.0) && g.members.contains(p.1)
}

/// A well-separated state: each clique's pairs connect its own members, and
/// no name belongs to two cliques.
pub open spec fn model_separated(gs: Seq<CliqueModel>) -> bool {
    &&& forall|j: int| 0 <= j < gs.len() ==> model_self_contained(#[trigger] gs[j])
    &&& forall|i: int, j: int|
        0 <= i < gs.len() && 0 <= j < gs.len() && i != j ==> (#[trigger] gs[i]).members.disjoint(
            (#[trigger] gs[j]).members,
        )
}

/// Some clique of the state records the pair.
pub open spec fn some_group_has_pair(gs: Seq<CliqueModel>, p: (Seq<char>, Seq<char>)) -> bool {
    exists|j: int| 0 <= j < gs.len() && (#[trigger] gs[j]).edges.dom().contains(p)
}

/// The scored pairs over all cliques of a state: a pair's score is the one
/// recorded by the clique holding it.
pub open spec fn all_edges(gs: Seq<CliqueModel>) -> Map<(Seq<char>, Seq<char>), u32> {
    Map::new(
        |p: (Seq<char>, Seq<char>)| some_group_has_pair(gs, p),
        |p: (Seq<char>, Seq<char>)|
            gs[choose|j: int|
                0 <= j < gs.len() && (#[trigger] gs[j]).edges.dom().contains(p)].edges[p],
    )
}

/// In a well-separated state, at most one clique records a pair.
pub proof fn lemma_separated_unique_holder(
    gs: Seq<CliqueModel>,
    p: (Seq<char>, Seq<char>),
    j1: int,
    j2: int,
)
    requires
        model_separated(gs),
        0 <= j1 < gs.len(),
        0 <= j2 < gs.len(),
        gs[j1].edges.dom().contains(p),
        gs[j2].edges.dom().contains(p),
    ensures
        j1 == j2,
{
    if j1 != j2 {
        assert(gs[j1].members.contains(p.0));
        assert(gs[j2].members.contains(p.0));
        assert(gs[j1].members.disjoint(gs[j2].members));
    }
}

/// Recording a pair inside the clique at position `i` inserts it into the
/// pairs over all cliques, provided no other clique records that pair.
proof fn lemma_all_edges_update(
    gs: Seq<CliqueModel>,
    i: int,
    g2: CliqueModel,
    pc: (Seq<char>, Seq<char>),
    ppm: u32,
)
    requires
        model_separated(gs),
        0 <= i < gs.len(),
        g2.edges == gs[i].edges.insert(pc, ppm),
        forall|j: int| 0 <= j < gs.len() && j != i ==> !(#[trigger] gs[j]).edges.dom().contains(pc),
    ensures
        all_edges(gs.update(i, g2)) == all_edges(gs).insert(pc, ppm),
{
    let gs2 = gs.update(i, g2);
    assert forall|p: (Seq<char>, Seq<char>)| #![auto]
        some_group_has_pair(gs2, p) == (some_group_has_pair(gs, p) || p == pc) by {
        if some_group_has_pair(gs2, p) {
            let j2 = choose|j: int|
                0 <= j < gs2.len() && (#[trigger] gs2[j]).edges.dom().contains(p);
            if j2 == i {
                if p != pc {
                    assert(gs[i].edges.dom().contains(p));
                }
            } else {
                assert(gs2[j2] == gs[j2]);
            }
        }
        if p == pc {
            assert(gs2[i].edges.dom().contains(p));
        }
        if some_group_has_pair(gs, p) {
            let j = choose|j: int|
                0 <= j < gs.len() && (#[trigger] gs[j]).edges.dom().contains(p);
            if j == i {
                assert(gs2[i].edges.dom().contains(p));
            } else {
                assert(gs2[j] == gs[j]);
                assert(gs2[j].edges.dom().contains(p));
            }
        }
    }
    assert forall|p: (Seq<char>, Seq<char>)| some_group_has_pair(gs2, p) implies #[trigger]
        all_edges(gs2)[p] == all_edges(gs).insert(pc, ppm)[p] by {
        let j2 = choose|j: int| 0 <= j < gs2.len() && (#[trigger] gs2[j]).edges.dom().contains(p);
        assert(all_edges(gs2)[p] == gs2[j2].edges[p]);
        if p == pc {
            if j2 != i {
                assert(gs2[j2] == gs[j2]);
            }
            assert(j2 == i);
            assert(gs2[i].edges[pc] == ppm);
        } else {
            assert(some_group_has_pair(gs, p));
            let j1 = choose|j: int|
                0 <= j < gs.len() && (#[trigger] gs[j]).edges.dom().contains(p);
            assert(all_edges(gs)[p] == gs[j1].edges[p]);
            if j2 == i {
                assert(gs[i].edges.dom().contains(p));
                lemma_separated_unique_holder(gs, p, j1, i);
                assert(gs2[i].edges[p] == gs[i].edges[p]);
            } else {
                assert(gs2[j2] == gs[j2]);
                lemma_separated_unique_holder(gs, p, j1, j2);
            }
        }
    }
    assert(all_edges(gs2) =~= all_edges(gs).insert(pc, ppm));
}

/// Edge conservation: in a well-separated state, placing an edge extends
/// the scored pairs over all cliques by exactly that edge's canonical pair,
/// overwriting any score the pair carried.  Folded over an edge list, the
/// total edge content of a clique set therefore depends only on the pairs
/// added and on the last score each pair was given, not on the order in
/// which distinct pairs were placed.
pub proof fn lemma_add_conserves_edges(s: CliquesModel, l: Seq<char>, r: Seq<char>, ppm: u32)
    requires
        model_separated(s.groups),
        l != r,
    ensures
        all_edges(model_add(s, l, r, ppm).groups) == all_edges(s.groups).insert(
            canon_pair(l, r),
            ppm,
        ),
{
    lemma_model_find(s.groups, l);
    lemma_model_find(s.groups, r);
    let gs = s.groups;
    let gs2 = model_add(s, l, r, ppm).groups;
    let pc = canon_pair(l, r);
    assert(pc.0 == l && pc.1 == r || pc.0 == r && pc.1 == l);
    match (model_find(gs, l), model_find(gs, r)) {
        (Some(li), Some(ri)) => {
            assert(gs[li].members.contains(l));
            assert(gs[ri].members.contains(r));
            if li == ri {
                assert forall|j: int| 0 <= j < gs.len() && j != li implies !(
                #[trigger] gs[j]).edges.dom().contains(pc) by {
                    if gs[j].edges.dom().contains(pc) {
                        assert(gs[j].members.contains(l));
                        assert(gs[j].members.disjoint(gs[li].members));
                    }
                }
                lemma_all_edges_update(
                    gs,
                    li,
                    clique_model_add(gs[li], l, r, ppm),
                    pc,
                    ppm,
                );
            } else {
                let li2 = if li < ri {
                    li
                } else {
                    li - 1
                };
                let merged = clique_model_add(
                    clique_model_merge(gs[li], gs[ri]),
                    l,
                    r,
                    ppm,
                );
                assert forall|p: (Seq<char>, Seq<char>)| #![auto]
                    some_group_has_pair(gs2, p) == (some_group_has_pair(gs, p) || p == pc) by {
                    if some_group_has_pair(gs2, p) {
                        let j2 = choose|j: int|
                            0 <= j < gs2.len() && (#[trigger] gs2[j]).edges.dom().contains(p);
                        if j2 == li2 {
                            if p != pc {
                                assert(gs[li].edges.dom().contains(p) || gs[ri].edges.dom()
                                    .contains(p));
                            }
                        } else {
                            let oj = if j2 < ri {
                                j2
                            } else {
                                j2 + 1
                            };
                            assert(gs2[j2] == gs[oj]);
                        }
                    }
                    if p == pc {
                        assert(gs2[li2].edges.dom().contains(p));
                    }
                    if some_group_has_pair(gs, p) {
                        let j = choose|j: int|
                            0 <= j < gs.len() && (#[trigger] gs[j]).edges.dom().contains(p);
                        if j == li || j == ri {
                            assert(gs2[li2].edges.dom().contains(p));
                        } else {
                            let nj = if j < ri {
                                j
                            } else {
                                j - 1
                            };
                            assert(gs2[nj] == gs[j]);
                            assert(gs2[nj].edges.dom().contains(p));
                        }
                    }
                }
                assert forall|p: (Seq<char>, Seq<char>)| some_group_has_pair(gs2, p)
                    implies #[trigger] all_edges(gs2)[p] == all_edges(gs).insert(pc, ppm)[p] by {
                    let j2 = choose|j: int|
                        0 <= j < gs2.len() && (#[trigger] gs2[j]).edges.dom().contains(p);
                    assert(all_edges(gs2)[p] == gs2[j2].edges[p]);
                    if p == pc {
                        if j2 != li2 {
                            let oj = if j2 < ri {
                                j2
                            } else {
                                j2 + 1
                            };
                            assert(gs2[j2] == gs[oj]);
                            assert(gs[oj].members.contains(l));
                            if oj != li {
                                assert(gs[oj].members.disjoint(gs[li].members));
                            }
                        }
                        assert(j2 == li2);
                        assert(gs2[li2].edges[pc] == ppm);
                    } else {
                        assert(some_group_has_pair(gs, p));
                        let j1 = choose|j: int|
                            0 <= j < gs.len() && (#[trigger] gs[j]).edges.dom().contains(p);
                        assert(all_edges(gs)[p] == gs[j1].edges[p]);
                        if j2 == li2 {
                            assert(merged.edges[p] == (if gs[ri].edges.dom().contains(p) {
                                gs[ri].edges[p]
                            } else {
                                gs[li].edges[p]
                            }));
                            if gs[ri].edges.dom().contains(p) {
                                lemma_separated_unique_holder(gs, p, j1, ri);
                            } else {
                                assert(gs[li].edges.dom().contains(p));
                                lemma_separated_unique_holder(gs, p, j1, li);
                            }
                        } else {
                            let oj = if j2 < ri {
                                j2
                            } else {
                                j2 + 1
                            };
                            assert(gs2[j2] == gs[oj]);
                            lemma_separated_unique_holder(gs, p, j1, oj);
                        }
                    }
                }
                assert(all_edges(gs2) =~= all_edges(gs).insert(pc, ppm));
            }
        },
        (Some(li), None) => {
            assert(gs[li].members.contains(l));
            assert forall|j: int| 0 <= j < gs.len() && j != li implies !(
            #[trigger] gs[j]).edges.dom().contains(pc) by {
                if gs[j].edges.dom().contains(pc) {
                    assert(gs[j].members.contains(r));
                }
            }
            lemma_all_edges_update(gs, li, clique_model_add(gs[li], l, r, ppm), pc, ppm);
        },
        (None, Some(ri)) => {
            assert(gs[ri].members.contains(r));
            assert forall|j: int| 0 <= j < gs.len() && j != ri implies !(
            #[trigger] gs[j]).edges.dom().contains(pc) by {
                if gs[j].edges.dom().contains(pc) {
                    assert(gs[j].members.contains(l));
                }
            }
            lemma_all_edges_update(gs, ri, clique_model_add(gs[ri], l, r, ppm), pc, ppm);
        },
        (None, None) => {
            let fresh = CliqueModel {
                id: s.next_id,
                members: Set::<Seq<char>>::empty().insert(l).insert(r),
                edges: Map::<(Seq<char>, Seq<char>), u32>::empty().insert(pc, ppm),
            };
            assert forall|p: (Seq<char>, Seq<char>)| #![auto]
                some_group_has_pair(gs2, p) == (some_group_has_pair(gs, p) || p == pc) by {
                if some_group_has_pair(gs2, p) {
                    let j2 = choose|j: int|
                        0 <= j < gs2.len() && (#[trigger] gs2[j]).edges.dom().contains(p);
                    if j2 < gs.len() {
                        assert(gs2[j2] == gs[j2]);
                    } else {
                        assert(gs2[j2] == fresh);
                    }
                }
                if p == pc {
                    assert(gs2[gs.len() as int].edges.dom().contains(p));
                }
                if some_group_has_pair(gs, p) {
                    let j = choose|j: int|
                        0 <= j < gs.len() && (#[trigger] gs[j]).edges.dom().contains(p);
                    assert(gs2[j] == gs[j]);
                    assert(gs2[j].edges.dom().contains(p));
                }
            }
            assert forall|p: (Seq<char>, Seq<char>)| some_group_has_pair(gs2, p)
                implies #[trigger] all_edges(gs2)[p] == all_edges(gs).insert(pc, ppm)[p] by {
                let j2 = choose|j: int|
                    0 <= j < gs2.len() && (#[trigger] gs2[j]).edges.dom().contains(p);
                assert(all_edges(gs2)[p] == gs2[j2].edges[p]);
                if p == pc {
                    if j2 < gs.len() {
                        assert(gs2[j2] == gs[j2]);
                        assert(gs[j2].members.contains(l));
                    }
                    assert(j2 == gs.len() as int);
                    assert(gs2[j2].edges[pc] == ppm);
                } else {
                    assert(j2 < gs.len()) by {
                        if j2 == gs.len() as int {
                            assert(gs2[j2] == fresh);
                        }
                    }
                    assert(gs2[j2] == gs[j2]);
                    assert(some_group_has_pair(gs, p));
                    let j1 = choose|j: int|
                        0 <= j < gs.len() && (#[trigger] gs[j]).edges.dom().contains(p);
                    lemma_separated_unique_holder(gs, p, j1, j2);
                }
            }
            assert(all_edges(gs2) =~= all_edges(gs).insert(pc, ppm));
        },
    }
}

/// A well-formed clique set's mathematical state is well-separated, so the
/// conservation laws apply to it.
pub proof fn lemma_wf_model_separated(cs: Cliques)
    requires
        cs.wf(),
    ensures
        model_separated(cs.model().groups),
{
    let gs = cs.model().groups;
    assert forall|j: int| 0 <= j < gs.len() implies model_self_contained(#[trigger] gs[j]) by {
        let c = cs.spec_cliques()[j];
        assert(gs[j] == clique_model(c));
        crate::pairs::lemma_pairs_map_dom(c.spec_edges());
        assert forall|p: (Seq<char>, Seq<char>)| #[trigger] gs[j].edges.dom().contains(p)
            implies gs[j].members.contains(p.0) && gs[j].members.contains(p.1) by {
            assert(crate::pairs::has_pair(c.spec_edges(), p));
            let k = choose|k: int|
                0 <= k < c.spec_edges().len() && (#[trigger] c.spec_edges()[k]).0 == p.0 && c
                    .spec_edges()[k].1 == p.1;
            assert(crate::pairs::has_endpoint(c.spec_edges(), p.0)) by {
                assert((c.spec_edges()[k]).0 == p.0 || (c.spec_edges()[k]).1 == p.0);
            }
            assert(crate::pairs::has_endpoint(c.spec_edges(), p.1)) by {
                assert((c.spec_edges()[k]).0 == p.1 || (c.spec_edges()[k]).1 == p.1);
            }
            assert(crate::pairs::endpoints(c.spec_edges()).contains(p.0));
            assert(crate::pairs::endpoints(c.spec_edges()).contains(p.1));
        }
    }
    assert forall|i: int, j: int|
        0 <= i < gs.len() && 0 <= j < gs.len() && i != j implies (
    #[trigger] gs[i]).members.disjoint((#[trigger] gs[j]).members) by {
        if i < j {
            assert(cs.spec_cliques()[i].member_set().disjoint(cs.spec_cliques()[j].member_set()));
        } else {
            assert(cs.spec_cliques()[j].member_set().disjoint(cs.spec_cliques()[i].member_set()));
            assert forall|n: Seq<char>| gs[i].members.contains(n) implies !gs[j].members.contains(
                n,
            ) by {}
        }
    }
}

impl Cliques {
    /// The stored cliques.
    pub closed spec fn spec_cliques(self) -> Seq<Clique> {
        self.cliques@
    }

    /// The next identifier to assign.
    pub closed spec fn spec_base_id(self) -> int {
        self.base_id as int
    }

    /// The mathematical state.
    pub open spec fn model(self) -> CliquesModel {
        CliquesModel {
            groups: self.spec_cliques().map_values(|c: Clique| clique_model(c)),
            next_id: self.spec_base_id(),
        }
    }

    pub open spec fn wf(self) -> bool {
        &&& forall|i: int| 0 <= i < self.spec_cliques().len() ==> (#[trigger] self.spec_cliques()[i]).wf()
        &&& forall|i: int|
            0 <= i < self.spec_cliques().len() ==> (#[trigger] self.spec_cliques()[i]).spec_id()
                < self.spec_base_id()
        &&& forall|i: int, j: int|
            0 <= i < j < self.spec_cliques().len() ==> (#[trigger] self.spec_cliques()[i]).spec_id()
                != (#[trigger] self.spec_cliques()[j]).spec_id()
        &&& forall|i: int, j: int|
            0 <= i < j < self.spec_cliques().len() ==> (
            #[trigger] self.spec_cliques()[i]).member_set().disjoint(
                (#[trigger] self.spec_cliques()[j]).member_set(),
            )
    }

    /// Creates an empty clique set; its first clique will get `base_id`.
    pub fn new(base_id: u32) -> (r: Cliques)
        ensures
            r.wf(),
            r.model().groups == Seq::<CliqueModel>::empty(),
            r.model().next_id == base_id as int,
    {
        let cliques: Vec<Clique> = Vec::new();
        let base_id = base_id as usize;
        let r = Cliques { cliques, base_id };
        proof {
            assert(r.model().groups =~= Seq::<CliqueModel>::empty());
        }
        r
    }

    /// The index of the clique containing the name, if any.
    fn find_index_of_clique_containing(&self, id: &str) -> (r: Option<usize>)
        ensures
            match r {
                Some(i) => model_find(self.model().groups, id@) == Some(i as int),
                None => model_find(self.model().groups, id@) is None,
            },
    {
        let ghost gs = self.model().groups;
        proof {
            lemma_model_find(gs, id@);
        }
        let mut i: usize = 0;
        while i < self.cliques.len()
            invariant
                i <= self.cliques.len(),
                gs == self.model().groups,
                gs.len() == self.cliques.len(),
                forall|j: int| 0 <= j < i ==> !(#[trigger] gs[j]).members.contains(id@),
            decreases self.cliques.len() - i,
        {
            if self.cliques[i].contains(id) {
                proof {
                    lemma_model_find(gs, id@);
                    assert(gs[i as int].members.contains(id@));
                    match model_find(gs, id@) {
                        Some(m) => {
                            if m < i as int {
                            } else if m > i as int {
                                assert(!gs[i as int].members.contains(id@));
                            }
                        },
                        None => {
                            assert(!gs[i as int].members.contains(id@));
                        },
                    }
                }
                return Some(i);
            }
            i = i + 1;
        }
        proof {
            match model_find(gs, id@) {
                Some(m) => {
                    assert(!gs[m].members.contains(id@));
                },
                None => {},
            }
        }
        None
    }

    /// Places the edge `(l, r, ppm)`: a fresh pair founds a new clique under
    /// the next identifier; one known endpoint extends its clique; a pair
    /// inside one clique records the edge there; endpoints in two different
    /// cliques merge them, the surviving clique keeping the lower-positioned
    /// clique's identifier, and record the edge in the merged clique.
    #[verifier::rlimit(80)]
    pub fn add(&mut self, l: &str, r: &str, ppm: u32)
        requires
            old(self).wf(),
            l@ != r@,
            old(self).spec_base_id() < usize::MAX as int,
        ensures
            final(self).wf(),
            final(self).model() == model_add(old(self).model(), l@, r@, ppm),
            final(self).spec_base_id() <= old(self).spec_base_id() + 1,
    {
        let ghost s0 = old(self).model();
        let ghost cs0 = old(self).spec_cliques();
        let lc = self.find_index_of_clique_containing(l);
        let rc = self.find_index_of_clique_containing(r);
        proof {
            lemma_model_find(s0.groups, l@);
            lemma_model_find(s0.groups, r@);
        }
        match (lc, rc) {
            (Some(li), Some(ri)) => {
                if li != ri {
                    let right_clique = self.cliques.remove(ri);
                    let li2 = if li < ri {
                        li
                    } else {
                        li - 1
                    };
                    let mut left_clique = self.cliques.remove(li2);
                    proof {
                        assert(right_clique == cs0[ri as int]);
                        assert(left_clique == cs0[li as int]);
                    }
                    left_clique.merge(right_clique);
                    left_clique.add(l, r, ppm);
                    self.cliques.insert(li2, left_clique);
                    proof {
                        let li_ = li as int;
                        let ri_ = ri as int;
                        let li2_ = li2 as int;
                        assert(self.spec_cliques() =~= cs0.remove(ri_).update(li2_, left_clique));
                        assert(clique_model(left_clique) == clique_model_add(
                            clique_model_merge(clique_model(cs0[li_]), clique_model(cs0[ri_])),
                            l@,
                            r@,
                            ppm,
                        ));
                        assert(self.model().groups =~= s0.groups.remove(ri_).update(
                            li2_,
                            clique_model_add(
                                clique_model_merge(s0.groups[li_], s0.groups[ri_]),
                                l@,
                                r@,
                                ppm,
                            ),
                        )) by {
                            assert forall|k: int| 0 <= k < self.spec_cliques().len() implies self
                                .model().groups[k] == s0.groups.remove(ri_).update(
                                li2_,
                                clique_model_add(
                                    clique_model_merge(s0.groups[li_], s0.groups[ri_]),
                                    l@,
                                    r@,
                                    ppm,
                                ),
                            )[k] by {
                                if k != li2_ {
                                    if k < ri_ {
                                        assert(self.spec_cliques()[k] == cs0[k]);
                                    } else {
                                        assert(self.spec_cliques()[k] == cs0[k + 1]);
                                    }
                                }
                            }
                        }
                        assert(self.model() == model_add(s0, l@, r@, ppm));
                        assert(self.wf()) by {
                            let merged_members = left_clique.member_set();
                            assert(merged_members =~= cs0[li_].member_set().union(
                                cs0[ri_].member_set(),
                            )) by {
                                assert(cs0[li_].member_set().contains(l@));
                                assert(cs0[ri_].member_set().contains(r@));
                            }
                            assert forall|i: int, j: int|
                                0 <= i < j < self.spec_cliques().len() implies (
                            #[trigger] self.spec_cliques()[i]).member_set().disjoint(
                                (#[trigger] self.spec_cliques()[j]).member_set(),
                            ) by {
                                self.lemma_disjoint_after_merge(cs0, li_, ri_, li2_, left_clique, i, j);
                            }
                            assert forall|i: int, j: int|
                                0 <= i < j < self.spec_cliques().len() implies (
                            #[trigger] self.spec_cliques()[i]).spec_id() != (
                            #[trigger] self.spec_cliques()[j]).spec_id() by {
                                self.lemma_ids_after_merge(cs0, li_, ri_, li2_, left_clique, i, j);
                            }
                        }
                    }
                } else {
                    let mut c = self.cliques.remove(li);
                    c.add(l, r, ppm);
                    self.cliques.insert(li, c);
                    proof {
                        let li_ = li as int;
                        assert(self.spec_cliques() =~= cs0.update(li_, c));
                        assert(self.model().groups =~= s0.groups.update(
                            li_,
                            clique_model_add(s0.groups[li_], l@, r@, ppm),
                        ));
                        assert(self.model() == model_add(s0, l@, r@, ppm));
                        assert(c.member_set() =~= cs0[li_].member_set()) by {
                            assert(cs0[li_].member_set().contains(l@));
                            assert(cs0[li_].member_set().contains(r@));
                        }
                        assert(self.wf());
                    }
                }
            },
            (Some(li), None) => {
                let mut c = self.cliques.remove(li);
                c.add(l, r, ppm);
                self.cliques.insert(li, c);
                proof {
                    let li_ = li as int;
                    assert(self.spec_cliques() =~= cs0.update(li_, c));
                    assert(self.model().groups =~= s0.groups.update(
                        li_,
                        clique_model_add(s0.groups[li_], l@, r@, ppm),
                    ));
                    assert(self.model() == model_add(s0, l@, r@, ppm));
                    assert(c.member_set() =~= cs0[li_].member_set().insert(r@)) by {
                        assert(cs0[li_].member_set().contains(l@));
                    }
                    assert(self.wf()) by {
                        assert forall|i: int, j: int|
                            0 <= i < j < self.spec_cliques().len() implies (
                        #[trigger] self.spec_cliques()[i]).member_set().disjoint(
                            (#[trigger] self.spec_cliques()[j]).member_set(),
                        ) by {
                            if i != li_ && j != li_ {
                                assert(self.spec_cliques()[i] == cs0[i]);
                                assert(self.spec_cliques()[j] == cs0[j]);
                            } else {
                                let other = if i == li_ {
                                    j
                                } else {
                                    i
                                };
                                assert(self.spec_cliques()[other] == cs0[other]);
                                assert(s0.groups[other] == clique_model(cs0[other]));
                                assert(!cs0[other].member_set().contains(r@));
                            }
                        }
                    }
                }
            },
            (None, Some(ri)) => {
                let mut c = self.cliques.remove(ri);
                c.add(l, r, ppm);
                self.cliques.insert(ri, c);
                proof {
                    let ri_ = ri as int;
                    assert(self.spec_cliques() =~= cs0.update(ri_, c));
                    assert(self.model().groups =~= s0.groups.update(
                        ri_,
                        clique_model_add(s0.groups[ri_], l@, r@, ppm),
                    ));
                    assert(self.model() == model_add(s0, l@, r@, ppm));
                    assert(c.member_set() =~= cs0[ri_].member_set().insert(l@)) by {
                        assert(cs0[ri_].member_set().contains(r@));
                    }
                    assert(self.wf()) by {
                        assert forall|i: int, j: int|
                            0 <= i < j < self.spec_cliques().len() implies (
                        #[trigger] self.spec_cliques()[i]).member_set().disjoint(
                            (#[trigger] self.spec_cliques()[j]).member_set(),
                        ) by {
                            if i != ri_ && j != ri_ {
                                assert(self.spec_cliques()[i] == cs0[i]);
                                assert(self.spec_cliques()[j] == cs0[j]);
                            } else {
                                let other = if i == ri_ {
                                    j
                                } else {
                                    i
                                };
                                assert(self.spec_cliques()[other] == cs0[other]);
                                assert(s0.groups[other] == clique_model(cs0[other]));
                                assert(!cs0[other].member_set().contains(l@));
                            }
                        }
                    }
                }
            },
            (None, None) => {
                let c = Clique::new(l, r, ppm, self.base_id);
                self.cliques.push(c);
                self.base_id = self.base_id + 1;
                proof {
                    assert(self.spec_cliques() =~= cs0.push(c));
                    assert(self.model().groups =~= s0.groups.push(
                        CliqueModel {
                            id: s0.next_id,
                            members: Set::<Seq<char>>::empty().insert(l@).insert(r@),
                            edges: Map::<(Seq<char>, Seq<char>), u32>::empty().insert(
                                canon_pair(l@, r@),
                                ppm,
                            ),
                        },
                    ));
                    assert(self.model() == model_add(s0, l@, r@, ppm));
                    assert(self.wf()) by {
                        let last = self.spec_cliques().len() - 1;
                        assert forall|i: int, j: int|
                            0 <= i < j < self.spec_cliques().len() implies (
                        #[trigger] self.spec_cliques()[i]).member_set().disjoint(
                            (#[trigger] self.spec_cliques()[j]).member_set(),
                        ) by {
                            if j == last {
                                assert(self.spec_cliques()[i] == cs0[i]);
                                assert(s0.groups[i] == clique_model(cs0[i]));
                                assert(!cs0[i].member_set().contains(l@));
                                assert(!cs0[i].member_set().contains(r@));
                                assert(self.spec_cliques()[j].member_set()
                                    =~= Set::<Seq<char>>::empty().insert(l@).insert(r@));
                                assert(cs0[i].member_set().disjoint(
                                    self.spec_cliques()[j].member_set(),
                                ));
                            } else {
                                assert(self.spec_cliques()[i] == cs0[i]);
                                assert(self.spec_cliques()[j] == cs0[j]);
                            }
                        }
                    }
                }
            },
        }
    }

    /// A fresh clique set with the same state: the same next identifier and
    /// clique-for-clique the same identifiers, members and edges.
    pub fn duplicate(&self) -> (r: Cliques)
        ensures
            r.spec_base_id() == self.spec_base_id(),
            r.spec_cliques().len() == self.spec_cliques().len(),
            forall|i: int|
                0 <= i < r.spec_cliques().len() ==> {
                    &&& (#[trigger] r.spec_cliques()[i]).spec_id() == self.spec_cliques()[
                        i].spec_id()
                    &&& r.spec_cliques()[i].spec_members() == self.spec_cliques()[i].spec_members()
                    &&& r.spec_cliques()[i].spec_edges() == self.spec_cliques()[i].spec_edges()
                },
            r.model() == self.model(),
            self.wf() ==> r.wf(),
    {
        let mut cliques: Vec<Clique> = Vec::new();
        let mut i: usize = 0;
        while i < self.cliques.len()
            invariant
                i <= self.cliques.len(),
                cliques@.len() == i,
                forall|j: int|
                    0 <= j < i ==> {
                        &&& (#[trigger] cliques@[j]).spec_id() == self.spec_cliques()[j].spec_id()
                        &&& cliques@[j].spec_members() == self.spec_cliques()[j].spec_members()
                        &&& cliques@[j].spec_edges() == self.spec_cliques()[j].spec_edges()
                    },
            decreases self.cliques.len() - i,
        {
            let c = self.cliques[i].duplicate();
            cliques.push(c);
            i = i + 1;
        }
        let r = Cliques { cliques, base_id: self.base_id };
        proof {
            assert(r.model().groups =~= self.model().groups);
            if self.wf() {
                assert forall|i: int|
                    0 <= i < r.spec_cliques().len() implies (
                #[trigger] r.spec_cliques()[i]).wf() by {
                    assert(self.spec_cliques()[i].wf());
                }
                assert forall|i: int, j: int|
                    0 <= i < j < r.spec_cliques().len() implies (
                #[trigger] r.spec_cliques()[i]).member_set().disjoint(
                    (#[trigger] r.spec_cliques()[j]).member_set(),
                ) by {
                    assert(self.spec_cliques()[i].member_set().disjoint(
                        self.spec_cliques()[j].member_set(),
                    ));
                }
            }
        }
        r
    }

    /// Disjointness of the stored cliques after a merge.
    proof fn lemma_disjoint_after_merge(
        self,
        cs0: Seq<Clique>,
        li_: int,
        ri_: int,
        li2_: int,
        merged: Clique,
        i: int,
        j: int,
    )
        requires
            0 <= li_ < cs0.len(),
            0 <= ri_ < cs0.len(),
            li_ != ri_,
            li2_ == if li_ < ri_ { li_ } else { li_ - 1 },
            forall|p: int, q: int|
                0 <= p < q < cs0.len() ==> (#[trigger] cs0[p]).member_set().disjoint(
                    (#[trigger] cs0[q]).member_set(),
                ),
            merged.member_set() == cs0[li_].member_set().union(cs0[ri_].member_set()),
            self.spec_cliques() == cs0.remove(ri_).update(li2_, merged),
            0 <= i < j < self.spec_cliques().len(),
        ensures
            self.spec_cliques()[i].member_set().disjoint(self.spec_cliques()[j].member_set()),
    {
        let cs = self.spec_cliques();
        let orig = |k: int| if k < ri_ { k } else { k + 1 };
        assert(forall|k: int| 0 <= k < cs.len() && k != li2_ ==> cs[k] == cs0[orig(k)]);
        assert(forall|p: int, q: int|
            0 <= p < cs0.len() && 0 <= q < cs0.len() && p != q ==> (
            #[trigger] cs0[p]).member_set().disjoint((#[trigger] cs0[q]).member_set())) by {
            assert forall|p: int, q: int|
                0 <= p < cs0.len() && 0 <= q < cs0.len() && p != q implies (
            #[trigger] cs0[p]).member_set().disjoint((#[trigger] cs0[q]).member_set()) by {
                if q < p {
                    assert(cs0[q].member_set().disjoint(cs0[p].member_set()));
                    assert(cs0[p].member_set().disjoint(cs0[q].member_set())) by {
                        assert forall|n: Seq<char>|
                            cs0[p].member_set().contains(n) implies !cs0[q].member_set().contains(
                            n,
                        ) by {}
                    }
                }
            }
        }
        if i != li2_ && j != li2_ {
            assert(orig(i) != orig(j));
            assert(cs[i].member_set().disjoint(cs[j].member_set()));
        } else {
            let other = if i == li2_ {
                j
            } else {
                i
            };
            let oo = orig(other);
            assert(cs[other] == cs0[oo]);
            assert(oo != li_ && oo != ri_);
            assert(cs0[oo].member_set().disjoint(cs0[li_].member_set()));
            assert(cs0[oo].member_set().disjoint(cs0[ri_].member_set()));
            assert forall|n: Seq<char>| merged.member_set().contains(n) implies !cs0[
                oo
            ].member_set().contains(n) by {}
            assert forall|n: Seq<char>| cs0[oo].member_set().contains(n) implies !merged
                .member_set().contains(n) by {}
            assert(cs[i].member_set().disjoint(cs[j].member_set()));
        }
    }

    /// Distinctness of identifiers after a merge.
    proof fn lemma_ids_after_merge(
        self,
        cs0: Seq<Clique>,
        li_: int,
        ri_: int,
        li2_: int,
        merged: Clique,
        i: int,
        j: int,
    )
        requires
            0 <= li_ < cs0.len(),
            0 <= ri_ < cs0.len(),
            li_ != ri_,
            li2_ == if li_ < ri_ { li_ } else { li_ - 1 },
            forall|p: int, q: int|
                0 <= p < q < cs0.len() ==> (#[trigger] cs0[p]).spec_id() != (
                #[trigger] cs0[q]).spec_id(),
            merged.spec_id() == cs0[li_].spec_id(),
            self.spec_cliques() == cs0.remove(ri_).update(li2_, merged),
            0 <= i < j < self.spec_cliques().len(),
        ensures
            self.spec_cliques()[i].spec_id() != self.spec_cliques()[j].spec_id(),
    {
        let cs = self.spec_cliques();
        let orig = |k: int| if k < ri_ { k } else { k + 1 };
        assert(forall|k: int| 0 <= k < cs.len() && k != li2_ ==> cs[k] == cs0[orig(k)]);
        assert(forall|p: int, q: int|
            0 <= p < cs0.len() && 0 <= q < cs0.len() && p != q ==> (#[trigger] cs0[p]).spec_id()
                != (#[trigger] cs0[q]).spec_id()) by {
            assert forall|p: int, q: int|
                0 <= p < cs0.len() && 0 <= q < cs0.len() && p != q implies (
            #[trigger] cs0[p]).spec_id() != (#[trigger] cs0[q]).spec_id() by {
                if q < p {
                    assert(cs0[q].spec_id() != cs0[p].spec_id());
                }
            }
        }
        if i != li2_ && j != li2_ {
            assert(orig(i) != orig(j));
        } else {
            let other = if i == li2_ {
                j
            } else {
                i
            };
            let oo = orig(other);
            assert(cs[other] == cs0[oo]);
            assert(oo != li_);
        }
    }
}

/// One element of a clique-set export.
#[derive(Clone, Debug, PartialEq, Eq)]
pub enum CliquesExportElement {
    /// A clique sharing no member with any prior clique.
    New(CliqueExport),
    /// A clique continuing prior cliques: its own export, the absorbed prior
    /// cliques' exports ascending, and the members seen for the first time.
    Old { clique: CliqueExport, merged: Vec<CliqueExport>, added: Vec<String> },
}

/// One threshold's export: the ordered element list.
#[derive(Clone, Debug, PartialEq, Eq)]
pub struct CliquesExport {
    pub cliques: Vec<CliquesExportElement>,
}

/// The content of one export element.
pub enum ElementModel {
    New((Seq<char>, Seq<Seq<char>>, u32)),
    Old {
        clique: (Seq<char>, Seq<Seq<char>>, u32),
        merged: Seq<(Seq<char>, Seq<Seq<char>>, u32)>,
        added: Seq<Seq<char>>,
    },
}

/// The content of an export element value.
pub open spec fn element_model(e: CliquesExportElement) -> ElementModel {
    match e {
        CliquesExportElement::New(ce) => ElementModel::New(export_view(ce)),
        CliquesExportElement::Old { clique, merged, added } => ElementModel::Old {
            clique: export_view(clique),
            merged: merged@.map_values(|x: CliqueExport| export_view(x)),
            added: added.deep_view(),
        },
    }
}

/// The contents of a vector of exports.
pub open spec fn export_views_of(v: Seq<CliqueExport>) -> Seq<(Seq<char>, Seq<Seq<char>>, u32)> {
    v.map_values(|x: CliqueExport| export_view(x))
}

/// The contents of a vector of export elements.
pub open spec fn element_models_of(v: Seq<CliquesExportElement>) -> Seq<ElementModel> {
    v.map_values(|e: CliquesExportElement| element_model(e))
}

/// The export content of one clique: its core, the other members ascending,
/// and its greatest edge score.
pub open spec fn clique_export_view(c: Clique) -> (Seq<char>, Seq<Seq<char>>, u32) {
    (
        c.spec_core(),
        c.spec_members().filter(|m: Seq<char>| m != c.spec_core()),
        max_score(c.spec_edges()),
    )
}

/// Two cliques share at least one member.
pub open spec fn cliques_intersect(a: Clique, b: Clique) -> bool {
    exists|n: Seq<char>| a.member_set().contains(n) && #[trigger] b.member_set().contains(n)
}

/// `m` belongs to some clique of `prev`.
pub open spec fn member_of_any(prev: Seq<Clique>, m: Seq<char>) -> bool {
    exists|j: int| 0 <= j < prev.len() && (#[trigger] prev[j]).member_set().contains(m)
}

/// The export contents of the prior cliques sharing a member with `c`, in
/// prior order.
pub open spec fn intersecting_views(prev: Seq<Clique>, c: Clique) -> Seq<
    (Seq<char>, Seq<Seq<char>>, u32),
> {
    prev.filter(|p: Clique| cliques_intersect(p, c)).map_values(
        |p: Clique| clique_export_view(p),
    )
}

/// Ascending order on export contents: by greatest score, ties broken by
/// core name.
pub open spec fn export_view_le(
    a: (Seq<char>, Seq<Seq<char>>, u32),
    b: (Seq<char>, Seq<Seq<char>>, u32),
) -> bool {
    a.2 < b.2 || (a.2 == b.2 && lex_le(a.0, b.0))
}

/// Insertion into a sorted sequence of export contents.
pub open spec fn insert_export_view(
    s: Seq<(Seq<char>, Seq<Seq<char>>, u32)>,
    x: (Seq<char>, Seq<Seq<char>>, u32),
) -> Seq<(Seq<char>, Seq<Seq<char>>, u32)>
    decreases s.len(),
{
    if s.len() == 0 {
        seq![x]
    } else if export_view_le(x, s[0]) {
        seq![x] + s
    } else {
        seq![s[0]] + insert_export_view(s.drop_first(), x)
    }
}

/// Insertion sort of export contents, ascending.
pub open spec fn sort_export_views(s: Seq<(Seq<char>, Seq<Seq<char>>, u32)>) -> Seq<
    (Seq<char>, Seq<Seq<char>>, u32),
>
    decreases s.len(),
{
    if s.len() == 0 {
        Seq::empty()
    } else {
        insert_export_view(sort_export_views(s.drop_last()), s.last())
    }
}

/// The export content an element reports for its clique.
pub open spec fn element_clique_view(e: ElementModel) -> (Seq<char>, Seq<Seq<char>>, u32) {
    match e {
        ElementModel::New(v) => v,
        ElementModel::Old { clique, merged, added } => clique,
    }
}

/// Ascending order on elements: continuations before new cliques, then the
/// export-content order.
pub open spec fn element_le(a: ElementModel, b: ElementModel) -> bool {
    ((a is Old) && !(b is Old)) || ((a is Old) == (b is Old) && export_view_le(
        element_clique_view(a),
        element_clique_view(b),
    ))
}

/// Insertion into a sorted sequence of elements.
pub open spec fn insert_element(s: Seq<ElementModel>, x: ElementModel) -> Seq<ElementModel>
    decreases s.len(),
{
    if s.len() == 0 {
        seq![x]
    } else if element_le(x, s[0]) {
        seq![x] + s
    } else {
        seq![s[0]] + insert_element(s.drop_first(), x)
    }
}

/// Insertion sort of elements, ascending.
pub open spec fn sort_elements(s: Seq<ElementModel>) -> Seq<ElementModel>
    decreases s.len(),
{
    if s.len() == 0 {
        Seq::empty()
    } else {
        insert_element(sort_elements(s.drop_last()), s.last())
    }
}

/// The element a clique of the current set contributes, diffed against the
/// prior cliques.
pub open spec fn expected_element(prev: Seq<Clique>, c: Clique) -> ElementModel {
    let iv = intersecting_views(prev, c);
    if iv.len() == 0 {
        ElementModel::New(clique_export_view(c))
    } else {
        ElementModel::Old {
            clique: clique_export_view(c),
            merged: sort_export_views(iv),
            added: c.spec_members().filter(|m: Seq<char>| !member_of_any(prev, m)),
        }
    }
}

/// What one threshold's export holds, as a function of the current and the
/// previous clique states.
pub open spec fn spec_export(cur: Seq<Clique>, prev: Seq<Clique>) -> Seq<ElementModel> {
    sort_elements(cur.map_values(|c: Clique| expected_element(prev, c)))
}

/// Inserting keeps one element more.
pub proof fn lemma_insert_export_view_len(
    s: Seq<(Seq<char>, Seq<Seq<char>>, u32)>,
    x: (Seq<char>, Seq<Seq<char>>, u32),
)
    ensures
        insert_export_view(s, x).len() == s.len() + 1,
    decreases s.len(),
{
    if s.len() > 0 && !export_view_le(x, s[0]) {
        lemma_insert_export_view_len(s.drop_first(), x);
    }
}

/// Sorting keeps the length.
pub proof fn lemma_sort_export_views_len(s: Seq<(Seq<char>, Seq<Seq<char>>, u32)>)
    ensures
        sort_export_views(s).len() == s.len(),
    decreases s.len(),
{
    if s.len() > 0 {
        lemma_sort_export_views_len(s.drop_last());
        lemma_insert_export_view_len(sort_export_views(s.drop_last()), s.last());
    }
}

/// Where an insertion lands: before the first element not below it.
pub proof fn lemma_insert_export_view_at(
    s: Seq<(Seq<char>, Seq<Seq<char>>, u32)>,
    x: (Seq<char>, Seq<Seq<char>>, u32),
    p: int,
)
    requires
        0 <= p <= s.len(),
        forall|j: int| 0 <= j < p ==> !export_view_le(x, #[trigger] s[j]),
        p < s.len() ==> export_view_le(x, s[p]),
    ensures
        insert_export_view(s, x) == s.take(p) + seq![x] + s.skip(p),
    decreases s.len(),
{
    if p == 0 {
        if s.len() == 0 {
            assert(insert_export_view(s, x) =~= s.take(0) + seq![x] + s.skip(0));
        } else {
            assert(insert_export_view(s, x) =~= s.take(0) + seq![x] + s.skip(0));
        }
    } else {
        assert(!export_view_le(x, s[0]));
        let t = s.drop_first();
        assert forall|j: int| 0 <= j < p - 1 implies !export_view_le(x, #[trigger] t[j]) by {
            assert(t[j] == s[j + 1]);
        }
        assert(p - 1 < t.len() ==> export_view_le(x, t[p - 1]));
        lemma_insert_export_view_at(t, x, p - 1);
        assert(seq![s[0]] + (t.take(p - 1) + seq![x] + t.skip(p - 1)) =~= s.take(p) + seq![x]
            + s.skip(p));
    }
}

/// Where an element insertion lands: before the first element not below it.
pub proof fn lemma_insert_element_at(s: Seq<ElementModel>, x: ElementModel, p: int)
    requires
        0 <= p <= s.len(),
        forall|j: int| 0 <= j < p ==> !element_le(x, #[trigger] s[j]),
        p < s.len() ==> element_le(x, s[p]),
    ensures
        insert_element(s, x) == s.take(p) + seq![x] + s.skip(p),
    decreases s.len(),
{
    if p == 0 {
        assert(insert_element(s, x) =~= s.take(0) + seq![x] + s.skip(0));
    } else {
        assert(!element_le(x, s[0]));
        let t = s.drop_first();
        assert forall|j: int| 0 <= j < p - 1 implies !element_le(x, #[trigger] t[j]) by {
            assert(t[j] == s[j + 1]);
        }
        assert(p - 1 < t.len() ==> element_le(x, t[p - 1]));
        lemma_insert_element_at(t, x, p - 1);
        assert(seq![s[0]] + (t.take(p - 1) + seq![x] + t.skip(p - 1)) =~= s.take(p) + seq![x]
            + s.skip(p));
    }
}

/// A sequence of export contents in ascending order.
pub open spec fn export_views_sorted(s: Seq<(Seq<char>, Seq<Seq<char>>, u32)>) -> bool {
    forall|i: int, j: int|
        0 <= i < j < s.len() ==> export_view_le(#[trigger] s[i], #[trigger] s[j])
}

/// A sequence of elements in ascending order.
pub open spec fn elements_sorted(s: Seq<ElementModel>) -> bool {
    forall|i: int, j: int| 0 <= i < j < s.len() ==> element_le(#[trigger] s[i], #[trigger] s[j])
}

pub proof fn lemma_export_view_le_total(
    a: (Seq<char>, Seq<Seq<char>>, u32),
    b: (Seq<char>, Seq<Seq<char>>, u32),
)
    ensures
        export_view_le(a, b) || export_view_le(b, a),
{
    lemma_lex_lt_total(a.0, b.0);
}

pub proof fn lemma_export_view_le_trans(
    a: (Seq<char>, Seq<Seq<char>>, u32),
    b: (Seq<char>, Seq<Seq<char>>, u32),
    c: (Seq<char>, Seq<Seq<char>>, u32),
)
    requires
        export_view_le(a, b),
        export_view_le(b, c),
    ensures
        export_view_le(a, c),
{
    if a.2 == b.2 && b.2 == c.2 {
        if lex_lt(a.0, b.0) && lex_lt(b.0, c.0) {
            crate::order::lemma_lex_lt_trans(a.0, b.0, c.0);
        }
    }
}

pub proof fn lemma_element_le_total(a: ElementModel, b: ElementModel)
    ensures
        element_le(a, b) || element_le(b, a),
{
    lemma_export_view_le_total(element_clique_view(a), element_clique_view(b));
}

pub proof fn lemma_element_le_trans(a: ElementModel, b: ElementModel, c: ElementModel)
    requires
        element_le(a, b),
        element_le(b, c),
    ensures
        element_le(a, c),
{
    if (a is Old) == (b is Old) && (b is Old) == (c is Old) {
        lemma_export_view_le_trans(
            element_clique_view(a),
            element_clique_view(b),
            element_clique_view(c),
        );
    }
}

/// Inserting below keeps a sorted export list sorted.
pub proof fn lemma_insert_export_view_keeps(
    s: Seq<(Seq<char>, Seq<Seq<char>>, u32)>,
    x: (Seq<char>, Seq<Seq<char>>, u32),
)
    requires
        export_views_sorted(s),
    ensures
        export_views_sorted(insert_export_view(s, x)),
    decreases s.len(),
{
    if s.len() == 0 {
    } else if export_view_le(x, s[0]) {
        let out = seq![x] + s;
        assert forall|i: int, j: int| 0 <= i < j < out.len() implies export_view_le(
            #[trigger] out[i],
            #[trigger] out[j],
        ) by {
            if i == 0 {
                assert(out[j] == s[j - 1]);
                if j - 1 > 0 {
                    assert(export_view_le(s[0], s[j - 1]));
                    lemma_export_view_le_trans(x, s[0], s[j - 1]);
                }
            } else {
                assert(out[i] == s[i - 1]);
                assert(out[j] == s[j - 1]);
            }
        }
    } else {
        let t = s.drop_first();
        assert(export_views_sorted(t)) by {
            assert(forall|i: int, j: int|
                0 <= i < j < t.len() ==> t[i] == s[i + 1] && t[j] == s[j + 1]);
        }
        lemma_insert_export_view_keeps(t, x);
        lemma_insert_export_view_len(t, x);
        let rec = insert_export_view(t, x);
        let out = seq![s[0]] + rec;
        lemma_export_view_le_total(x, s[0]);
        assert(export_view_le(s[0], x));
        assert forall|i: int, j: int| 0 <= i < j < out.len() implies export_view_le(
            #[trigger] out[i],
            #[trigger] out[j],
        ) by {
            if i == 0 {
                assert(out[j] == rec[j - 1]);
                lemma_insert_export_view_elem(t, x, j - 1);
                let e = rec[j - 1];
                if e != x {
                    let k = choose|k: int| 0 <= k < t.len() && (#[trigger] t[k]) == e;
                    assert(t[k] == s[k + 1]);
                    assert(export_view_le(s[0], s[k + 1]));
                }
            } else {
                assert(out[i] == rec[i - 1]);
                assert(out[j] == rec[j - 1]);
            }
        }
    }
}

/// Every entry of an insertion result is the inserted export or one of the
/// exports already present.
pub proof fn lemma_insert_export_view_elem(
    s: Seq<(Seq<char>, Seq<Seq<char>>, u32)>,
    x: (Seq<char>, Seq<Seq<char>>, u32),
    i: int,
)
    requires
        0 <= i < insert_export_view(s, x).len(),
    ensures
        insert_export_view(s, x)[i] == x || exists|k: int|
            0 <= k < s.len() && (#[trigger] s[k]) == insert_export_view(s, x)[i],
    decreases s.len(),
{
    if s.len() == 0 {
    } else if export_view_le(x, s[0]) {
        if i > 0 {
            assert(insert_export_view(s, x)[i] == s[i - 1]);
        }
    } else {
        if i > 0 {
            let t = s.drop_first();
            lemma_insert_export_view_elem(t, x, i - 1);
            let e = insert_export_view(s, x)[i];
            assert(insert_export_view(t, x)[i - 1] == e);
            if e != x {
                let k = choose|k: int| 0 <= k < t.len() && (#[trigger] t[k]) == e;
                assert(s[k + 1] == e);
            }
        } else {
            assert(insert_export_view(s, x)[0] == s[0]);
        }
    }
}

/// The merged list of an export is sorted ascending by greatest score, ties
/// broken by core name, and holds one export per intersecting prior clique.
pub proof fn lemma_sort_export_views_sorted(s: Seq<(Seq<char>, Seq<Seq<char>>, u32)>)
    ensures
        export_views_sorted(sort_export_views(s)),
        sort_export_views(s).len() == s.len(),
    decreases s.len(),
{
    lemma_sort_export_views_len(s);
    if s.len() > 0 {
        lemma_sort_export_views_sorted(s.drop_last());
        lemma_insert_export_view_keeps(sort_export_views(s.drop_last()), s.last());
    }
}

/// Inserting below keeps a sorted element list sorted and one longer.
pub proof fn lemma_insert_element_keeps(s: Seq<ElementModel>, x: ElementModel)
    requires
        elements_sorted(s),
    ensures
        elements_sorted(insert_element(s, x)),
        insert_element(s, x).len() == s.len() + 1,
    decreases s.len(),
{
    if s.len() == 0 {
    } else if element_le(x, s[0]) {
        let out = seq![x] + s;
        assert forall|i: int, j: int| 0 <= i < j < out.len() implies element_le(
            #[trigger] out[i],
            #[trigger] out[j],
        ) by {
            if i == 0 {
                assert(out[j] == s[j - 1]);
                if j - 1 > 0 {
                    assert(element_le(s[0], s[j - 1]));
                    lemma_element_le_trans(x, s[0], s[j - 1]);
                }
            } else {
                assert(out[i] == s[i - 1]);
                assert(out[j] == s[j - 1]);
            }
        }
    } else {
        let t = s.drop_first();
        assert(elements_sorted(t)) by {
            assert(forall|i: int, j: int|
                0 <= i < j < t.len() ==> t[i] == s[i + 1] && t[j] == s[j + 1]);
        }
        lemma_insert_element_keeps(t, x);
        let rec = insert_element(t, x);
        let out = seq![s[0]] + rec;
        lemma_element_le_total(x, s[0]);
        assert(element_le(s[0], x));
        assert forall|i: int, j: int| 0 <= i < j < out.len() implies element_le(
            #[trigger] out[i],
            #[trigger] out[j],
        ) by {
            if i == 0 {
                assert(out[j] == rec[j - 1]);
                lemma_insert_element_elem(t, x, j - 1);
                let e = rec[j - 1];
                if e != x {
                    let k = choose|k: int| 0 <= k < t.len() && (#[trigger] t[k]) == e;
                    assert(t[k] == s[k + 1]);
                    assert(element_le(s[0], s[k + 1]));
                }
            } else {
                assert(out[i] == rec[i - 1]);
                assert(out[j] == rec[j - 1]);
            }
        }
    }
}

/// Every entry of an insertion result is the inserted element or one of the
/// elements already present.
pub proof fn lemma_insert_element_elem(s: Seq<ElementModel>, x: ElementModel, i: int)
    requires
        0 <= i < insert_element(s, x).len(),
    ensures
        insert_element(s, x)[i] == x || exists|k: int|
            0 <= k < s.len() && (#[trigger] s[k]) == insert_element(s, x)[i],
    decreases s.len(),
{
    if s.len() == 0 {
    } else if element_le(x, s[0]) {
        if i > 0 {
            assert(insert_element(s, x)[i] == s[i - 1]);
        }
    } else {
        if i > 0 {
            let t = s.drop_first();
            lemma_insert_element_elem(t, x, i - 1);
            let e = insert_element(s, x)[i];
            assert(insert_element(t, x)[i - 1] == e);
            if e != x {
                let k = choose|k: int| 0 <= k < t.len() && (#[trigger] t[k]) == e;
                assert(s[k + 1] == e);
            }
        } else {
            assert(insert_element(s, x)[0] == s[0]);
        }
    }
}

/// Sorting elements yields a sorted list of the same length.
pub proof fn lemma_sort_elements_sorted(s: Seq<ElementModel>)
    ensures
        elements_sorted(sort_elements(s)),
        sort_elements(s).len() == s.len(),
    decreases s.len(),
{
    if s.len() > 0 {
        lemma_sort_elements_sorted(s.drop_last());
        lemma_insert_element_keeps(sort_elements(s.drop_last()), s.last());
    }
}

/// A threshold's export is sorted: continuations before new cliques, each
/// group ascending by greatest score with ties broken by core name, and it
/// holds exactly one element per current clique.
pub proof fn lemma_spec_export_sorted(cur: Seq<Clique>, prev: Seq<Clique>)
    ensures
        elements_sorted(spec_export(cur, prev)),
        spec_export(cur, prev).len() == cur.len(),
{
    let mapped = cur.map_values(|c: Clique| expected_element(prev, c));
    lemma_sort_elements_sorted(mapped);
}


impl CliqueExport {
    /// Decides the export-content order against another export.
    fn le_exec(&self, other: &CliqueExport) -> (r: bool)
        ensures
            r == export_view_le(export_view(*self), export_view(*other)),
    {
        match self.cmp_ppm(other) {
            core::cmp::Ordering::Less => true,
            core::cmp::Ordering::Greater => false,
            core::cmp::Ordering::Equal => {
                let r = !str_lt(other.core.as_str(), self.core.as_str());
                proof {
                    lemma_lex_lt_total(self.core@, other.core@);
                    lemma_lex_lt_asym(self.core@, other.core@);
                    lemma_lex_lt_irrefl(self.core@);
                }
                r
            },
        }
    }
}

impl CliquesExportElement {
    /// The export this element reports for its clique.
    pub fn clique(&self) -> (r: &CliqueExport)
        ensures
            export_view(*r) == element_clique_view(element_model(*self)),
    {
        match self {
            CliquesExportElement::New(clique) => clique,
            CliquesExportElement::Old { clique, merged, added } => clique,
        }
    }

    /// Orders elements: continuations before new cliques, then by greatest
    /// edge score.
    pub fn cmp_ppm(&self, other: &Self) -> (r: core::cmp::Ordering)
        ensures
            (r == core::cmp::Ordering::Less ==> element_le(
                element_model(*self),
                element_model(*other),
            )),
            (r == core::cmp::Ordering::Greater ==> !element_le(
                element_model(*self),
                element_model(*other),
            )),
            (r == core::cmp::Ordering::Equal ==> (element_model(*self) is Old) == (element_model(
                *other,
            ) is Old) && element_clique_view(element_model(*self)).2 == element_clique_view(
                element_model(*other),
            ).2),
    {
        let self_old = matches!(self, CliquesExportElement::Old { .. });
        let other_old = matches!(other, CliquesExportElement::Old { .. });
        if self_old && !other_old {
            core::cmp::Ordering::Less
        } else if !self_old && other_old {
            core::cmp::Ordering::Greater
        } else {
            self.clique().cmp_ppm(other.clique())
        }
    }

    /// Decides the element order against another element.
    fn le_exec(&self, other: &Self) -> (r: bool)
        ensures
            r == element_le(element_model(*self), element_model(*other)),
    {
        match self.cmp_ppm(other) {
            core::cmp::Ordering::Less => true,
            core::cmp::Ordering::Greater => false,
            core::cmp::Ordering::Equal => {
                let a = self.clique();
                let b = other.clique();
                let r = !str_lt(b.core.as_str(), a.core.as_str());
                proof {
                    lemma_lex_lt_total(a.core@, b.core@);
                    lemma_lex_lt_asym(a.core@, b.core@);
                    lemma_lex_lt_irrefl(a.core@);
                }
                r
            },
        }
    }
}

/// Whether two cliques share a member.
fn cliques_overlap(a: &Clique, b: &Clique) -> (r: bool)
    ensures
        r == cliques_intersect(*a, *b),
{
    let n = a.member_count();
    let mut i: usize = 0;
    while i < n
        invariant
            i <= n,
            n == a.spec_members().len(),
            forall|j: int| 0 <= j < i ==> !b.member_set().contains(#[trigger] a.spec_members()[j]),
        decreases n - i,
    {
        if b.contains(a.member_at(i)) {
            proof {
                assert(a.spec_members().contains(a.spec_members()[i as int]));
                assert(a.member_set().contains(a.spec_members()[i as int]));
            }
            return true;
        }
        i = i + 1;
    }
    proof {
        if cliques_intersect(*a, *b) {
            let n0 = choose|n0: Seq<char>|
                a.member_set().contains(n0) && #[trigger] b.member_set().contains(n0);
            let j = choose|j: int|
                0 <= j < a.spec_members().len() && a.spec_members()[j] == n0;
            assert(!b.member_set().contains(a.spec_members()[j]));
        }
    }
    false
}

/// Whether some clique of `prev` holds the name.
fn name_in_any(prev: &Vec<Clique>, m: &str) -> (r: bool)
    ensures
        r == member_of_any(prev@, m@),
{
    let mut j: usize = 0;
    while j < prev.len()
        invariant
            j <= prev.len(),
            forall|k: int| 0 <= k < j ==> !(#[trigger] prev@[k]).member_set().contains(m@),
        decreases prev.len() - j,
    {
        if prev[j].contains(m) {
            return true;
        }
        j = j + 1;
    }
    false
}

/// Inserts an export into a vector sorted by the export-content order.
fn insert_export_sorted(v: &mut Vec<CliqueExport>, x: CliqueExport)
    ensures
        export_views_of(final(v)@) == insert_export_view(
            export_views_of(old(v)@),
            export_view(x),
        ),
{
    let ghost s = export_views_of(v@);
    let ghost xv = export_view(x);
    let mut p: usize = 0;
    while p < v.len() && !x.le_exec(&v[p])
        invariant
            p <= v.len(),
            v@ == old(v)@,
            s == export_views_of(v@),
            xv == export_view(x),
            forall|j: int| 0 <= j < p ==> !export_view_le(xv, #[trigger] s[j]),
        decreases v.len() - p,
    {
        p = p + 1;
    }
    proof {
        lemma_insert_export_view_at(s, xv, p as int);
    }
    v.insert(p, x);
    proof {
        assert(export_views_of(v@) =~= s.take(p as int) + seq![xv] + s.skip(p as int));
    }
}

/// Inserts an element into a vector sorted by the element order.
fn insert_element_sorted(v: &mut Vec<CliquesExportElement>, x: CliquesExportElement)
    ensures
        element_models_of(final(v)@) == insert_element(
            element_models_of(old(v)@),
            element_model(x),
        ),
{
    let ghost s = element_models_of(v@);
    let ghost xv = element_model(x);
    let mut p: usize = 0;
    while p < v.len() && !x.le_exec(&v[p])
        invariant
            p <= v.len(),
            v@ == old(v)@,
            s == element_models_of(v@),
            xv == element_model(x),
            forall|j: int| 0 <= j < p ==> !element_le(xv, #[trigger] s[j]),
        decreases v.len() - p,
    {
        p = p + 1;
    }
    proof {
        lemma_insert_element_at(s, xv, p as int);
    }
    v.insert(p, x);
    proof {
        assert(element_models_of(v@) =~= s.take(p as int) + seq![xv] + s.skip(p as int));
    }
}

impl Cliques {
    /// The exports of the prior cliques sharing a member with `clique`,
    /// ascending by greatest score, ties broken by core name.
    #[verifier::rlimit(80)]
    #[verifier::spinoff_prover]
    fn merged_cliques(other: &Cliques, clique: &Clique) -> (r: Vec<CliqueExport>)
        requires
            other.wf(),
            clique.wf(),
        ensures
            export_views_of(r@) == sort_export_views(
                intersecting_views(other.spec_cliques(), *clique),
            ),
    {
        let ghost prev = other.spec_cliques();
        let ghost pred = |p: Clique| cliques_intersect(p, *clique);
        let mut out: Vec<CliqueExport> = Vec::new();
        let mut j: usize = 0;
        proof {
            assert(prev.take(0) =~= Seq::<Clique>::empty());
            assert(prev.take(0).filter(pred) =~= Seq::<Clique>::empty()) by {
                reveal(Seq::filter);
            }
            assert(export_views_of(out@) =~= sort_export_views(intersecting_views(
                prev.take(0),
                *clique,
            )));
        }
        while j < other.cliques.len()
            invariant
                j <= other.cliques.len(),
                other.wf(),
                clique.wf(),
                prev == other.spec_cliques(),
                pred == (|p: Clique| cliques_intersect(p, *clique)),
                export_views_of(out@) == sort_export_views(intersecting_views(
                    prev.take(j as int),
                    *clique,
                )),
            decreases other.cliques.len() - j,
        {
            let jj: usize = j;
            proof {
                reveal(Seq::filter);
                assert(prev.take(jj as int + 1).drop_last() =~= prev.take(jj as int));
                assert(prev.take(jj as int + 1).last() == prev[jj as int]);
            }
            if cliques_overlap(&other.cliques[jj], clique) {
                let ex = other.cliques[jj].export();
                proof {
                    assert(export_view(ex) == clique_export_view(prev[jj as int]));
                    assert(prev.take(jj as int + 1).filter(pred) == prev.take(jj as int).filter(
                        pred,
                    ).push(prev[jj as int]));
                    assert(intersecting_views(prev.take(jj as int + 1), *clique)
                        =~= intersecting_views(prev.take(jj as int), *clique).push(
                        clique_export_view(prev[jj as int]),
                    ));
                    assert(intersecting_views(prev.take(jj as int + 1), *clique).drop_last()
                        =~= intersecting_views(prev.take(jj as int), *clique));
                }
                insert_export_sorted(&mut out, ex);
            } else {
                proof {
                    assert(prev.take(jj as int + 1).filter(pred) == prev.take(jj as int).filter(
                        pred,
                    ));
                    assert(intersecting_views(prev.take(jj as int + 1), *clique)
                        =~= intersecting_views(prev.take(jj as int), *clique));
                }
            }
            j = jj + 1;
        }
        proof {
            assert(prev.take(other.cliques.len() as int) =~= prev);
        }
        out
    }

    /// The members of `clique` that no prior clique holds, ascending.
    fn added_members(other: &Cliques, clique: &Clique) -> (r: Vec<String>)
        requires
            other.wf(),
            clique.wf(),
        ensures
            r.deep_view() == clique.spec_members().filter(
                |m: Seq<char>| !member_of_any(other.spec_cliques(), m),
            ),
    {
        let ghost prev = other.spec_cliques();
        let ghost ms = clique.spec_members();
        let ghost pred = |m: Seq<char>| !member_of_any(prev, m);
        let mut out: Vec<String> = Vec::new();
        let mut i: usize = 0;
        proof {
            assert(ms.take(0) =~= Seq::<Seq<char>>::empty());
            assert(ms.take(0).filter(pred) =~= Seq::<Seq<char>>::empty()) by {
                reveal(Seq::filter);
            }
            assert(out.deep_view() =~= ms.take(0).filter(pred));
        }
        let n = clique.member_count();
        while i < n
            invariant
                i <= n,
                n == ms.len(),
                other.wf(),
                clique.wf(),
                prev == other.spec_cliques(),
                ms == clique.spec_members(),
                pred == (|m: Seq<char>| !member_of_any(prev, m)),
                out.deep_view() == ms.take(i as int).filter(pred),
            decreases n - i,
        {
            proof {
                reveal(Seq::filter);
                assert(ms.take(i as int + 1).drop_last() =~= ms.take(i as int));
                assert(ms.take(i as int + 1).last() == ms[i as int]);
            }
            let m = clique.member_at(i);
            if !name_in_any(&other.cliques, m) {
                proof {
                    assert(member_of_any(other.cliques@, m@) == member_of_any(prev, ms[i as int]));
                    assert(out.deep_view().len() == out@.len());
                }
                out.push(m.to_owned());
                proof {
                    assert(ms.take(i as int + 1).filter(pred) == ms.take(i as int).filter(
                        pred,
                    ).push(ms[i as int]));
                    assert(out.deep_view() =~= ms.take(i as int + 1).filter(pred));
                }
            } else {
                proof {
                    assert(member_of_any(other.cliques@, m@) == member_of_any(prev, ms[i as int]));
                    assert(ms.take(i as int + 1).filter(pred) == ms.take(i as int).filter(pred));
                }
            }
            i = i + 1;
        }
        proof {
            assert(ms.take(n as int) =~= ms);
        }
        out
    }

    /// Diffs this clique set against `other`, the previous threshold's set.
    /// A clique sharing no member with any prior clique is reported as
    /// `New`; any other clique is reported as `Old`, with the prior cliques
    /// it absorbed, ascending, and the members seen for the first time.
    /// Continuations come before new cliques, each group ascending by
    /// greatest score with ties broken by core name.
    #[verifier::rlimit(90)]
    #[verifier::spinoff_prover]
    pub fn export(&self, other: &Cliques) -> (r: CliquesExport)
        requires
            self.wf(),
            other.wf(),
        ensures
            element_models_of(r.cliques@) == spec_export(
                self.spec_cliques(),
                other.spec_cliques(),
            ),
    {
        let ghost cur = self.spec_cliques();
        let ghost prev = other.spec_cliques();
        let ghost f = |c: Clique| expected_element(prev, c);
        let mut elements: Vec<CliquesExportElement> = Vec::new();
        let mut i: usize = 0;
        proof {
            assert(cur.take(0) =~= Seq::<Clique>::empty());
            assert(cur.take(0).map_values(f) =~= Seq::<ElementModel>::empty());
            assert(element_models_of(elements@) =~= sort_elements(cur.take(0).map_values(f)));
        }
        while i < self.cliques.len()
            invariant
                i <= self.cliques.len(),
                self.wf(),
                other.wf(),
                cur == self.spec_cliques(),
                prev == other.spec_cliques(),
                f == (|c: Clique| expected_element(prev, c)),
                element_models_of(elements@) == sort_elements(cur.take(i as int).map_values(f)),
            decreases self.cliques.len() - i,
        {
            let c = &self.cliques[i];
            let merged = Self::merged_cliques(other, c);
            let added = Self::added_members(other, c);
            let ex = c.export();
            proof {
                assert(export_view(ex) == clique_export_view(cur[i as int]));
                lemma_sort_export_views_len(intersecting_views(prev, cur[i as int]));
            }
            let elem = if merged.len() == 0 {
                proof {
                    assert(intersecting_views(prev, cur[i as int]).len() == 0);
                    assert(element_model(CliquesExportElement::New(ex)) == expected_element(
                        prev,
                        cur[i as int],
                    ));
                }
                CliquesExportElement::New(ex)
            } else {
                let ghost mv = merged@.map_values(|x: CliqueExport| export_view(x));
                let e = CliquesExportElement::Old { clique: ex, merged, added };
                proof {
                    assert(intersecting_views(prev, cur[i as int]).len() != 0);
                    assert(element_model(e) == expected_element(prev, cur[i as int]));
                }
                e
            };
            proof {
                assert(cur.take(i as int + 1).map_values(f).drop_last() =~= cur.take(
                    i as int,
                ).map_values(f));
                assert(cur.take(i as int + 1).map_values(f).last() == f(cur[i as int]));
            }
            insert_element_sorted(&mut elements, elem);
            i = i + 1;
        }
        proof {
            assert(cur.take(self.cliques.len() as int) =~= cur);
        }
        CliquesExport { cliques: elements }
    }
}

} // verus!
