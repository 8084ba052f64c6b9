//! The evolution driver.
//!
//! Given a complete similarity table and ascending threshold boundaries, the
//! driver feeds the table's edges, in ascending score order, into a running
//! clique set, snapshotting at each boundary and exporting the snapshot
//! against the previous boundary's snapshot.  Edges above the requested
//! limit are never added.
use vstd::prelude::*;

verus! {

use crate::clique::Clique;
use crate::cliques::Cliques;
use crate::cliques::CliquesExport;
use crate::cliques::CliquesModel;
use crate::cliques::element_models_of;
use crate::cliques::model_add;
use crate::cliques::spec_export;
use crate::order::lemma_lex_lt_asym;
use crate::order::lemma_lex_lt_irrefl;
use crate::order::lemma_lex_lt_total;
use crate::order::lemma_lex_lt_trans;
use crate::order::lex_le;
use crate::order::lex_lt;
use crate::order::str_lt;
use crate::ppm_table::PpmTable;
use vstd::arithmetic::div_mod::lemma_fundamental_div_mod;

/// The clique state before any edge was added.
pub open spec fn empty_state() -> CliquesModel {
    CliquesModel { groups: Seq::<crate::cliques::CliqueModel>::empty(), next_id: 0 }
}

/// The state after folding the edges, in order, into `s`.
pub open spec fn model_add_all(
    s: CliquesModel,
    es: Seq<(Seq<char>, Seq<char>, u32)>,
) -> CliquesModel
    decreases es.len(),
{
    if es.len() == 0 {
        s
    } else {
        model_add_all(model_add(s, es[0].0, es[0].1, es[0].2), es.drop_first())
    }
}

pub proof fn lemma_model_add_all_snoc(
    s: CliquesModel,
    es: Seq<(Seq<char>, Seq<char>, u32)>,
    e: (Seq<char>, Seq<char>, u32),
)
    ensures
        model_add_all(s, es.push(e)) == model_add(model_add_all(s, es), e.0, e.1, e.2),
    decreases es.len(),
{
    if es.len() == 0 {
        let sp = es.push(e);
        let s1 = model_add(s, e.0, e.1, e.2);
        assert(sp[0] == e);
        assert(model_add_all(s, sp) == model_add_all(
            model_add(s, sp[0].0, sp[0].1, sp[0].2),
            sp.drop_first(),
        ));
        assert(sp.drop_first().len() == 0);
        assert(model_add_all(s1, sp.drop_first()) == s1);
        assert(model_add_all(s, es) == s);
    } else {
        let sp = es.push(e);
        let s1 = model_add(s, es[0].0, es[0].1, es[0].2);
        assert(sp[0] == es[0]);
        assert(model_add_all(s, sp) == model_add_all(
            model_add(s, sp[0].0, sp[0].1, sp[0].2),
            sp.drop_first(),
        ));
        assert(sp.drop_first() =~= es.drop_first().push(e));
        lemma_model_add_all_snoc(s1, es.drop_first(), e);
        assert(model_add_all(s, es) == model_add_all(s1, es.drop_first()));
    }
}

/// The ascending walk order on edges: by score, ties broken by the left and
/// then the right name.
pub open spec fn edge_le(a: (Seq<char>, Seq<char>, u32), b: (Seq<char>, Seq<char>, u32)) -> bool {
    a.2 < b.2 || (a.2 == b.2 && (lex_lt(a.0, b.0) || (a.0 == b.0 && lex_le(a.1, b.1))))
}

pub proof fn lemma_edge_le_total(a: (Seq<char>, Seq<char>, u32), b: (Seq<char>, Seq<char>, u32))
    ensures
        edge_le(a, b) || edge_le(b, a),
{
    lemma_lex_lt_total(a.0, b.0);
    lemma_lex_lt_total(a.1, b.1);
}

pub proof fn lemma_edge_le_trans(
    a: (Seq<char>, Seq<char>, u32),
    b: (Seq<char>, Seq<char>, u32),
    c: (Seq<char>, Seq<char>, u32),
)
    requires
        edge_le(a, b),
        edge_le(b, c),
    ensures
        edge_le(a, c),
{
    if a.2 == b.2 && b.2 == c.2 {
        if lex_lt(a.0, b.0) && lex_lt(b.0, c.0) {
            lemma_lex_lt_trans(a.0, b.0, c.0);
        }
        if a.0 == b.0 && b.0 == c.0 {
            if lex_lt(a.1, b.1) && lex_lt(b.1, c.1) {
                lemma_lex_lt_trans(a.1, b.1, c.1);
            }
        }
    }
}

/// Insertion into a walk-ordered edge sequence.
pub open spec fn insert_edge(
    s: Seq<(Seq<char>, Seq<char>, u32)>,
    x: (Seq<char>, Seq<char>, u32),
) -> Seq<(Seq<char>, Seq<char>, u32)>
    decreases s.len(),
{
    if s.len() == 0 {
        seq![x]
    } else if edge_le(x, s[0]) {
        seq![x] + s
    } else {
        seq![s[0]] + insert_edge(s.drop_first(), x)
    }
}

/// Insertion sort of edges into the ascending walk order.
pub open spec fn sort_edges(s: Seq<(Seq<char>, Seq<char>, u32)>) -> Seq<
    (Seq<char>, Seq<char>, u32),
>
    decreases s.len(),
{
    if s.len() == 0 {
        Seq::empty()
    } else {
        insert_edge(sort_edges(s.drop_last()), s.last())
    }
}

/// Edges are sorted when every earlier one is at or below every later one.
pub open spec fn edges_sorted(s: Seq<(Seq<char>, Seq<char>, u32)>) -> bool {
    forall|i: int, j: int| 0 <= i < j < s.len() ==> edge_le(#[trigger] s[i], #[trigger] s[j])
}

/// Every edge of the sequence is canonically ordered.
pub open spec fn edges_canonical(s: Seq<(Seq<char>, Seq<char>, u32)>) -> bool {
    forall|i: int| 0 <= i < s.len() ==> lex_lt((#[trigger] s[i]).0, s[i].1)
}

/// Where an edge insertion lands: before the first edge not below it.
pub proof fn lemma_insert_edge_at(
    s: Seq<(Seq<char>, Seq<char>, u32)>,
    x: (Seq<char>, Seq<char>, u32),
    p: int,
)
    requires
        0 <= p <= s.len(),
        forall|j: int| 0 <= j < p ==> !edge_le(x, #[trigger] s[j]),
        p < s.len() ==> edge_le(x, s[p]),
    ensures
        insert_edge(s, x) == s.take(p) + seq![x] + s.skip(p),
    decreases s.len(),
{
    if p == 0 {
        assert(insert_edge(s, x) =~= s.take(0) + seq![x] + s.skip(0));
    } else {
        let t = s.drop_first();
        assert forall|j: int| 0 <= j < p - 1 implies !edge_le(x, #[trigger] t[j]) by {
            assert(t[j] == s[j + 1]);
        }
        assert(p - 1 < t.len() ==> edge_le(x, t[p - 1]));
        lemma_insert_edge_at(t, x, p - 1);
        assert(seq![s[0]] + (t.take(p - 1) + seq![x] + t.skip(p - 1)) =~= s.take(p) + seq![x]
            + s.skip(p));
    }
}

/// Inserting into a sorted edge sequence keeps it sorted and keeps every
/// edge canonical.
pub proof fn lemma_insert_edge_keeps(s: Seq<(Seq<char>, Seq<char>, u32)>, x: (Seq<char>, Seq<char>, u32))
    requires
        edges_sorted(s),
    ensures
        edges_sorted(insert_edge(s, x)),
        insert_edge(s, x).len() == s.len() + 1,
        edges_canonical(s) && lex_lt(x.0, x.1) ==> edges_canonical(insert_edge(s, x)),
    decreases s.len(),
{
    if s.len() == 0 {
    } else if edge_le(x, s[0]) {
        let out = seq![x] + s;
        assert forall|i: int, j: int| 0 <= i < j < out.len() implies edge_le(
            #[trigger] out[i],
            #[trigger] out[j],
        ) by {
            if i == 0 {
                if j > 0 {
                    assert(out[j] == s[j - 1]);
                    if j - 1 > 0 {
                        lemma_edge_le_trans(x, s[0], s[j - 1]);
                    }
                }
            } else {
                assert(out[i] == s[i - 1]);
                assert(out[j] == s[j - 1]);
            }
        }
    } else {
        let t = s.drop_first();
        assert(edges_sorted(t)) by {
            assert(forall|i: int, j: int|
                0 <= i < j < t.len() ==> t[i] == s[i + 1] && t[j] == s[j + 1]);
        }
        lemma_insert_edge_keeps(t, x);
        let rec = insert_edge(t, x);
        let out = seq![s[0]] + rec;
        lemma_edge_le_total(x, s[0]);
        assert(edge_le(s[0], x));
        assert forall|i: int, j: int| 0 <= i < j < out.len() implies edge_le(
            #[trigger] out[i],
            #[trigger] out[j],
        ) by {
            if i == 0 {
                assert(out[j] == rec[j - 1]);
                lemma_insert_edge_elem(t, x, j - 1);
                let e = rec[j - 1];
                if e == x {
                    assert(edge_le(s[0], e));
                } else {
                    let k = choose|k: int| 0 <= k < t.len() && t[k] == e;
                    assert(t[k] == s[k + 1]);
                    assert(edge_le(s[0], s[k + 1]));
                }
            } else {
                assert(out[i] == rec[i - 1]);
                assert(out[j] == rec[j - 1]);
            }
        }
        if edges_canonical(s) && lex_lt(x.0, x.1) {
            assert(edges_canonical(t)) by {
                assert(forall|i: int| 0 <= i < t.len() ==> t[i] == s[i + 1]);
            }
            assert(edges_canonical(out)) by {
                assert(forall|i: int| 0 <= i < rec.len() ==> out[i + 1] == rec[i]);
                assert(edges_canonical(rec));
                assert forall|i: int| 0 <= i < out.len() implies lex_lt(
                    (#[trigger] out[i]).0,
                    out[i].1,
                ) by {
                    if i > 0 {
                        assert(out[i] == rec[i - 1]);
                    }
                }
            }
        }
    }
}

/// Every edge of an insertion result is the inserted edge or one of the
/// original edges.
pub proof fn lemma_insert_edge_elem(
    s: Seq<(Seq<char>, Seq<char>, u32)>,
    x: (Seq<char>, Seq<char>, u32),
    i: int,
)
    requires
        0 <= i < insert_edge(s, x).len(),
    ensures
        insert_edge(s, x)[i] == x || exists|k: int|
            0 <= k < s.len() && (#[trigger] s[k]) == insert_edge(s, x)[i],
    decreases s.len(),
{
    if s.len() == 0 {
    } else if edge_le(x, s[0]) {
        if i > 0 {
            assert(insert_edge(s, x)[i] == s[i - 1]);
        }
    } else {
        if i > 0 {
            let t = s.drop_first();
            lemma_insert_edge_elem(t, x, i - 1);
            let e = insert_edge(s, x)[i];
            assert(insert_edge(t, x)[i - 1] == e);
            if e != x {
                let k = choose|k: int| 0 <= k < t.len() && (#[trigger] t[k]) == e;
                assert(s[k + 1] == e);
            }
        } else {
            assert(insert_edge(s, x)[0] == s[0]);
        }
    }
}

/// The sort's output is sorted, has the input's length, and keeps every
/// edge canonical.
pub proof fn lemma_sort_edges_keeps(s: Seq<(Seq<char>, Seq<char>, u32)>)
    ensures
        edges_sorted(sort_edges(s)),
        sort_edges(s).len() == s.len(),
        edges_canonical(s) ==> edges_canonical(sort_edges(s)),
    decreases s.len(),
{
    if s.len() > 0 {
        let d = s.drop_last();
        assert(edges_canonical(s) ==> edges_canonical(d) && lex_lt(s.last().0, s.last().1)) by {
            if edges_canonical(s) {
                assert(forall|i: int| 0 <= i < d.len() ==> d[i] == s[i]);
            }
        }
        lemma_sort_edges_keeps(d);
        lemma_insert_edge_keeps(sort_edges(d), s.last());
    }
}

/// A sequence split at `p` between scores at or below `b` and scores above
/// it is filtered by taking its first `p` edges.
pub proof fn lemma_filter_prefix(s: Seq<(Seq<char>, Seq<char>, u32)>, b: int, p: int)
    requires
        0 <= p <= s.len(),
        forall|i: int| 0 <= i < p ==> (#[trigger] s[i]).2 <= b,
        forall|i: int| p <= i < s.len() ==> (#[trigger] s[i]).2 > b,
    ensures
        s.filter(|e: (Seq<char>, Seq<char>, u32)| e.2 <= b) == s.take(p),
    decreases s.len(),
{
    reveal(Seq::filter);
    let pred = |e: (Seq<char>, Seq<char>, u32)| e.2 <= b;
    if s.len() == 0 {
        assert(s.filter(pred) =~= s.take(0));
    } else {
        let d = s.drop_last();
        if p == s.len() as int {
            lemma_filter_prefix(d, b, p - 1);
            assert(s.filter(pred) == d.filter(pred).push(s.last()));
            assert(d.filter(pred) == d.take(p - 1));
            assert(d.take(p - 1) =~= d);
            assert(d.push(s.last()) =~= s.take(p));
        } else {
            lemma_filter_prefix(d, b, p);
            assert(!pred(s.last()));
            assert(s.filter(pred) == d.filter(pred));
            assert(d.take(p) =~= s.take(p));
        }
    }
}

/// Filtering by a score bound keeps every edge canonical.
pub proof fn lemma_filter_keeps_canonical(s: Seq<(Seq<char>, Seq<char>, u32)>, limit: u32)
    requires
        edges_canonical(s),
    ensures
        edges_canonical(s.filter(|e: (Seq<char>, Seq<char>, u32)| e.2 <= limit)),
    decreases s.len(),
{
    reveal(Seq::filter);
    let pred = |e: (Seq<char>, Seq<char>, u32)| e.2 <= limit;
    if s.len() == 0 {
    } else {
        let d = s.drop_last();
        assert(edges_canonical(d)) by {
            assert(forall|i: int| 0 <= i < d.len() ==> d[i] == s[i]);
        }
        lemma_filter_keeps_canonical(d, limit);
        let fd = d.filter(pred);
        if pred(s.last()) {
            assert(s.filter(pred) == fd.push(s.last()));
            assert forall|i: int| 0 <= i < s.filter(pred).len() implies lex_lt(
                (#[trigger] s.filter(pred)[i]).0,
                s.filter(pred)[i].1,
            ) by {
                if i < fd.len() {
                    assert(s.filter(pred)[i] == fd[i]);
                } else {
                    assert(s.filter(pred)[i] == s.last());
                }
            }
        } else {
            assert(s.filter(pred) == fd);
        }
    }
}

/// The edges the walk will add: those at or below the limit, in ascending
/// walk order.
pub open spec fn spec_walk_edges(t: PpmTable, limit: u32) -> Seq<(Seq<char>, Seq<char>, u32)> {
    sort_edges(t.spec_edges().filter(|e: (Seq<char>, Seq<char>, u32)| e.2 <= limit))
}

/// The clique state at a boundary: every walk edge at or below it, folded
/// in walk order into the empty state.
pub open spec fn state_at(t: PpmTable, limit: u32, b: int) -> CliquesModel {
    model_add_all(
        empty_state(),
        spec_walk_edges(t, limit).filter(|e: (Seq<char>, Seq<char>, u32)| e.2 <= b),
    )
}

/// How many boundaries a walk to `limit` in steps of `step` emits.
pub open spec fn boundary_count(limit: u32, step: u32) -> int {
    (limit + step - 1) / (step as int) + 1
}

/// The witness of a correct evolution: the snapshot states stand behind the
/// emitted exports.  `snaps[k]` is the clique state at boundary `k * step`,
/// and the export at each boundary diffs that state against the previous
/// boundary's state (the empty state before the first boundary).
pub open spec fn evolution_witness(
    t: PpmTable,
    limit: u32,
    step: u32,
    r: Seq<(u32, CliquesExport)>,
    snaps: Seq<Cliques>,
) -> bool {
    &&& snaps.len() == r.len()
    &&& forall|k: int| 0 <= k < snaps.len() ==> (#[trigger] snaps[k]).wf()
    &&& forall|k: int|
        0 <= k < snaps.len() ==> (#[trigger] snaps[k]).model() == state_at(
            t,
            limit,
            k * (step as int),
        )
    &&& forall|k: int|
        0 <= k < r.len() ==> element_models_of((#[trigger] r[k]).1.cliques@) == spec_export(
            snaps[k].spec_cliques(),
            if k == 0 {
                Seq::<Clique>::empty()
            } else {
                snaps[k - 1].spec_cliques()
            },
        )
}

/// Decides the walk order on two stored edges.
fn edge_le_exec(a: &(String, String, u32), b: &(String, String, u32)) -> (r: bool)
    ensures
        r == edge_le((a.0@, a.1@, a.2), (b.0@, b.1@, b.2)),
{
    if a.2 < b.2 {
        true
    } else if a.2 > b.2 {
        false
    } else if str_lt(a.0.as_str(), b.0.as_str()) {
        true
    } else if str_lt(b.0.as_str(), a.0.as_str()) {
        false
    } else {
        proof {
            lemma_lex_lt_total(a.0@, b.0@);
        }
        let r = !str_lt(b.1.as_str(), a.1.as_str());
        proof {
            lemma_lex_lt_total(a.1@, b.1@);
            lemma_lex_lt_asym(a.1@, b.1@);
            lemma_lex_lt_irrefl(a.1@);
        }
        r
    }
}

/// Inserts an edge into a vector sorted by the walk order.
fn insert_edge_sorted(v: &mut Vec<(String, String, u32)>, x: (String, String, u32))
    ensures
        final(v).deep_view() == insert_edge(old(v).deep_view(), (x.0@, x.1@, x.2)),
{
    let ghost s = v.deep_view();
    let ghost xv = (x.0@, x.1@, x.2);
    let mut p: usize = 0;
    while p < v.len() && !edge_le_exec(&x, &v[p])
        invariant
            p <= v.len(),
            v.deep_view() == s,
            xv == (x.0@, x.1@, x.2),
            forall|j: int| 0 <= j < p ==> !edge_le(xv, #[trigger] s[j]),
        decreases v.len() - p,
    {
        proof {
            assert(s[p as int] == (v@[p as int].0@, v@[p as int].1@, v@[p as int].2));
        }
        p = p + 1;
    }
    proof {
        assert(p < v.len() ==> s[p as int] == (v@[p as int].0@, v@[p as int].1@, v@[
            p as int].2));
        lemma_insert_edge_at(s, xv, p as int);
    }
    v.insert(p, x);
    proof {
        assert(v.deep_view() =~= s.take(p as int) + seq![xv] + s.skip(p as int));
    }
}

/// Walks ascending threshold boundaries over a complete similarity table.
/// The boundaries are `0, step, 2 * step, ...` up to the first boundary
/// covering `ppm_limit`; each is emitted exactly once, in ascending order,
/// paired with the export of its clique state against the previous
/// boundary's state.  Edges scoring above `ppm_limit` are never added.
#[verifier::rlimit(80)]
pub fn evolve(table: &PpmTable, ppm_limit: u32, step: u32) -> (r: Vec<(u32, CliquesExport)>)
    requires
        table.wf(),
        step > 0,
        ppm_limit as int + step as int <= u32::MAX as int,
    ensures
        r@.len() == boundary_count(ppm_limit, step),
        forall|k: int| 0 <= k < r@.len() ==> (#[trigger] r@[k]).0 == k * (step as int),
        exists|snaps: Seq<Cliques>| evolution_witness(*table, ppm_limit, step, r@, snaps),
{
    let ghost all = table.spec_edges();
    let all_edges = table.edges();
    proof {
        table.lemma_edges_up_to_characterize(table.spec_names().len() as int);
        assert(edges_canonical(all)) by {
            assert forall|i: int| 0 <= i < all.len() implies lex_lt(
                (#[trigger] all[i]).0,
                all[i].1,
            ) by {
                assert(all.contains(all[i]));
                assert(table.is_table_edge_up_to(table.spec_names().len() as int, all[i]));
                let (p, q) = choose|p: int, q: int|
                    0 <= p < table.spec_names().len() && p < q < table.spec_names().len() && all[i]
                        == #[trigger] table.edge_at(p, q);
            }
        }
    }
    let ghost keep = |e: (Seq<char>, Seq<char>, u32)| e.2 <= ppm_limit;
    let mut kept: Vec<(String, String, u32)> = Vec::new();
    let mut i: usize = 0;
    proof {
        reveal(Seq::filter);
        assert(all.take(0) =~= Seq::<(Seq<char>, Seq<char>, u32)>::empty());
        assert(kept.deep_view() =~= all.take(0).filter(keep));
    }
    while i < all_edges.len()
        invariant
            i <= all_edges.len(),
            all == all_edges.deep_view(),
            keep == (|e: (Seq<char>, Seq<char>, u32)| e.2 <= ppm_limit),
            kept.deep_view() == all.take(i as int).filter(keep),
        decreases all_edges.len() - i,
    {
        proof {
            reveal(Seq::filter);
            assert(all.take(i as int + 1).drop_last() =~= all.take(i as int));
            assert(all.take(i as int + 1).last() == all[i as int]);
        }
        let e = &all_edges[i];
        proof {
            assert(all[i as int] == (e.0@, e.1@, e.2));
        }
        if e.2 <= ppm_limit {
            let copied = (e.0.clone(), e.1.clone(), e.2);
            proof {
                assert((copied.0@, copied.1@, copied.2) == all[i as int]);
                assert(kept.deep_view().len() == kept@.len());
            }
            kept.push(copied);
            proof {
                assert(kept.deep_view() =~= all.take(i as int + 1).filter(keep));
            }
        } else {
            proof {
                assert(all.take(i as int + 1).filter(keep) == all.take(i as int).filter(keep));
            }
        }
        i = i + 1;
    }
    proof {
        assert(all.take(all_edges.len() as int) =~= all);
    }
    let ghost kept_views = kept.deep_view();
    let mut sorted: Vec<(String, String, u32)> = Vec::new();
    let mut i2: usize = 0;
    proof {
        assert(kept_views.take(0) =~= Seq::<(Seq<char>, Seq<char>, u32)>::empty());
        assert(sorted.deep_view() =~= sort_edges(kept_views.take(0)));
    }
    while i2 < kept.len()
        invariant
            i2 <= kept.len(),
            kept_views == kept.deep_view(),
            sorted.deep_view() == sort_edges(kept_views.take(i2 as int)),
        decreases kept.len() - i2,
    {
        let e = &kept[i2];
        let copied = (e.0.clone(), e.1.clone(), e.2);
        proof {
            assert((copied.0@, copied.1@, copied.2) == kept_views[i2 as int]);
            assert(kept_views.take(i2 as int + 1).drop_last() =~= kept_views.take(i2 as int));
            assert(kept_views.take(i2 as int + 1).last() == kept_views[i2 as int]);
        }
        insert_edge_sorted(&mut sorted, copied);
        i2 = i2 + 1;
    }
    proof {
        assert(kept_views.take(kept.len() as int) =~= kept_views);
    }
    let ghost walk = sorted.deep_view();
    proof {
        assert(walk == spec_walk_edges(*table, ppm_limit));
        lemma_filter_keeps_canonical(all, ppm_limit);
        lemma_sort_edges_keeps(all.filter(keep));
        assert(edges_sorted(walk));
        assert(edges_canonical(walk));
    }
    let count: u32 = (ppm_limit / step) + (if ppm_limit % step == 0 && ppm_limit > 0 {
        0
    } else if ppm_limit == 0 {
        0
    } else {
        1
    });
    proof {
        lemma_fundamental_div_mod(ppm_limit as int, step as int);
        lemma_fundamental_div_mod(ppm_limit as int + step as int - 1, step as int);
        assert(count as int == (ppm_limit as int + step as int - 1) / (step as int)) by {
            let q = ppm_limit as int / (step as int);
            let m = ppm_limit as int % (step as int);
            if m == 0 && ppm_limit > 0 {
                assert((ppm_limit as int + step as int - 1) / (step as int) == q) by (
                nonlinear_arith)
                    requires
                        ppm_limit as int == (step as int) * q + m,
                        m == 0,
                        step > 0,
                        q >= 0,
                ;
            } else if ppm_limit == 0 {
                assert((step as int - 1) / (step as int) == 0) by (nonlinear_arith)
                    requires
                        step > 0,
                ;
            } else {
                assert((ppm_limit as int + step as int - 1) / (step as int) == q + 1) by (
                nonlinear_arith)
                    requires
                        ppm_limit as int == (step as int) * q + m,
                        0 < m < step as int,
                        step > 0,
                        q >= 0,
                ;
            }
        }
        assert((count as int) * (step as int) <= ppm_limit as int + step as int - 1) by (
        nonlinear_arith)
            requires
                count as int == (ppm_limit as int + step as int - 1) / (step as int),
                step > 0,
                ppm_limit >= 0,
        ;
    }
    let mut prev = Cliques::new(0);
    let mut cur = Cliques::new(0);
    let mut idx: usize = 0;
    let mut out: Vec<(u32, CliquesExport)> = Vec::new();
    let ghost mut snaps: Seq<Cliques> = Seq::empty();
    let mut k: u32 = 0;
    proof {
        assert(walk.take(0) =~= Seq::<(Seq<char>, Seq<char>, u32)>::empty());
        assert(cur.model() == model_add_all(empty_state(), walk.take(0)));
        assert(prev.spec_cliques().len() == prev.model().groups.len());
        assert(prev.spec_cliques() =~= Seq::<Clique>::empty());
    }
    while k <= count
        invariant
            k <= count + 1,
            step > 0,
            ppm_limit as int + step as int <= u32::MAX as int,
            (count as int) * (step as int) <= ppm_limit as int + step as int - 1,
            count as int + 1 == boundary_count(ppm_limit, step),
            table.wf(),
            walk == spec_walk_edges(*table, ppm_limit),
            edges_sorted(walk),
            edges_canonical(walk),
            walk == sorted.deep_view(),
            idx <= sorted.len(),
            cur.wf(),
            prev.wf(),
            cur.model() == model_add_all(empty_state(), walk.take(idx as int)),
            cur.spec_base_id() <= idx,
            forall|j: int| 0 <= j < idx ==> (#[trigger] walk[j]).2 <= (k as int) * (step as int),
            out@.len() == k,
            snaps.len() == k,
            forall|m: int| 0 <= m < k ==> (#[trigger] out@[m]).0 == m * (step as int),
            forall|m: int| 0 <= m < snaps.len() ==> (#[trigger] snaps[m]).wf(),
            forall|m: int|
                0 <= m < snaps.len() ==> (#[trigger] snaps[m]).model() == state_at(
                    *table,
                    ppm_limit,
                    m * (step as int),
                ),
            forall|m: int|
                0 <= m < out@.len() ==> element_models_of((#[trigger] out@[m]).1.cliques@)
                    == spec_export(
                    snaps[m].spec_cliques(),
                    if m == 0 {
                        Seq::<Clique>::empty()
                    } else {
                        snaps[m - 1].spec_cliques()
                    },
                ),
            k > 0 ==> snaps.len() > 0 && prev == snaps[k - 1],
            k == 0 ==> prev.spec_cliques() == Seq::<Clique>::empty(),
        decreases count + 1 - k,
    {
        proof {
            assert((k as int) * (step as int) <= (count as int) * (step as int)) by (
            nonlinear_arith)
                requires
                    k <= count,
                    step > 0,
            ;
        }
        let b: u32 = k * step;
        while idx < sorted.len() && sorted[idx].2 <= b
            invariant
                idx <= sorted.len(),
                step > 0,
                b as int == (k as int) * (step as int),
                table.wf(),
                walk == sorted.deep_view(),
                edges_sorted(walk),
                edges_canonical(walk),
                cur.wf(),
                cur.model() == model_add_all(empty_state(), walk.take(idx as int)),
                cur.spec_base_id() <= idx,
                forall|j: int| 0 <= j < idx ==> (#[trigger] walk[j]).2 <= b,
            decreases sorted.len() - idx,
        {
            let e = &sorted[idx];
            proof {
                assert(walk[idx as int] == (e.0@, e.1@, e.2));
                assert(lex_lt(e.0@, e.1@));
                lemma_lex_lt_irrefl(e.0@);
                assert(walk.take(idx as int + 1) =~= walk.take(idx as int).push(walk[idx as int]));
            }
            cur.add(e.0.as_str(), e.1.as_str(), e.2);
            proof {
                lemma_model_add_all_snoc(empty_state(), walk.take(idx as int), walk[idx as int]);
            }
            idx = idx + 1;
        }
        proof {
            assert forall|j: int| idx <= j < walk.len() implies (#[trigger] walk[j]).2
                > b as int by {
                if j > idx {
                    assert(edge_le(walk[idx as int], walk[j]));
                }
            }
            lemma_filter_prefix(walk, b as int, idx as int);
            assert(cur.model() == state_at(*table, ppm_limit, b as int));
        }
        let ex = cur.export(&prev);
        proof {
            snaps = snaps.push(cur);
            assert(snaps[k as int] == cur);
        }
        out.push((b, ex));
        let next = cur.duplicate();
        prev = cur;
        cur = next;
        proof {
            assert((k as int + 1) * (step as int) == (k as int) * (step as int) + step as int) by (
            nonlinear_arith);
            assert forall|j: int| 0 <= j < idx implies (#[trigger] walk[j]).2 <= (k as int + 1) * (
            step as int) by {
                assert(walk[j].2 <= b as int);
            }
        }
        k = k + 1;
    }
    proof {
        assert(evolution_witness(*table, ppm_limit, step, out@, snaps));
    }
    out
}

} // verus!
