//! The compact symmetric similarity table and its builder.
//!
//! A `PpmTable` maps every unordered pair of distinct names from a closed name
//! set to a score.  Names are interned to dense indices by their ascending
//! lexicographic order and only the upper triangle of the score matrix is
//! stored: `rows[i][j]` holds the score of the pair
//! `(names[i], names[i + 1 + j])`.
//!
//! A `PpmTableBuilder` accumulates scored name pairs, the last write to a pair
//! winning, and freezes them into a table once every pair of distinct known
//! names has a score; an incomplete accumulation is handed back unchanged.
use vstd::prelude::*;

verus! {

use crate::order::find_name;
use crate::order::insert_name;
use crate::order::lemma_index_of_sorted;
use crate::order::lemma_lex_lt_asym;
use crate::order::lemma_lex_lt_irrefl;
use crate::order::lemma_lex_lt_total;
use crate::order::lemma_sorted_position;
use crate::order::lex_lt;
use crate::order::sorted_strict;
use crate::order::str_lt;
use crate::pairs::canon_pair;
use crate::pairs::find_pair;
use crate::pairs::endpoints;
use crate::pairs::has_pair;
use crate::pairs::lemma_pairs_map_dom;
use crate::pairs::lemma_pairs_map_values;
use crate::pairs::pairs_distinct;
use crate::pairs::pairs_map;
use crate::pairs::pairs_wf;
use crate::pairs::upsert_pair;

/// An immutable complete symmetric score table over an interned name set.
#[derive(Clone, Debug)]
pub struct PpmTable {
    names: Vec<String>,
    rows: Vec<Vec<u32>>,
}

/// A mutable accumulator of scored name pairs.
#[derive(Clone, Debug)]
pub struct PpmTableBuilder {
    keys: Vec<String>,
    entries: Vec<(String, String, u32)>,
}

impl PpmTable {
    /// The interned names, in ascending order.
    pub closed spec fn spec_names(self) -> Seq<Seq<char>> {
        self.names.deep_view()
    }

    /// The packed upper-triangular score matrix.
    pub closed spec fn spec_rows(self) -> Seq<Seq<u32>> {
        self.rows.deep_view()
    }

    /// The set of known names.
    pub open spec fn name_set(self) -> Set<Seq<char>> {
        self.spec_names().to_set()
    }

    pub open spec fn wf(self) -> bool {
        &&& sorted_strict(self.spec_names())
        &&& self.spec_rows().len() == self.spec_names().len()
        &&& forall|i: int|
            0 <= i < self.spec_rows().len() ==> (#[trigger] self.spec_rows()[i]).len()
                == self.spec_names().len() - i - 1
    }

    /// The score of the pair at matrix position `(i, j)` with `i < j`.
    pub open spec fn spec_score_at(self, i: int, j: int) -> u32 {
        self.spec_rows()[i][j - i - 1]
    }

    /// The map from canonical pairs of distinct known names to their scores.
    pub open spec fn spec_pair_map(self) -> Map<(Seq<char>, Seq<char>), u32> {
        Map::new(
            |p: (Seq<char>, Seq<char>)|
                self.spec_names().contains(p.0) && self.spec_names().contains(p.1) && lex_lt(
                    p.0,
                    p.1,
                ),
            |p: (Seq<char>, Seq<char>)|
                self.spec_score_at(self.spec_names().index_of(p.0), self.spec_names().index_of(p.1)),
        )
    }

    /// What a lookup of the unordered pair `(l, r)` returns: the stored score
    /// of the canonical pair, or nothing when either name is unknown or the
    /// two names are equal.
    pub open spec fn spec_get(self, l: Seq<char>, r: Seq<char>) -> Option<u32> {
        let p = canon_pair(l, r);
        if self.spec_pair_map().dom().contains(p) {
            Some(self.spec_pair_map()[p])
        } else {
            None
        }
    }

    /// The edge triple at matrix position `(p, q)` with `p < q`.
    pub open spec fn edge_at(self, p: int, q: int) -> (Seq<char>, Seq<char>, u32) {
        (self.spec_names()[p], self.spec_names()[q], self.spec_score_at(p, q))
    }

    /// The edge triples of row `i`: the pairs of name `i` with each later
    /// name, inner index ascending.
    pub open spec fn row_edges(self, i: int) -> Seq<(Seq<char>, Seq<char>, u32)> {
        Seq::new(self.spec_rows()[i].len(), |j: int| self.edge_at(i, i + 1 + j))
    }

    /// The edge triples of the first `i` rows, row-major.
    pub open spec fn edges_up_to(self, i: int) -> Seq<(Seq<char>, Seq<char>, u32)>
        decreases i,
    {
        if i <= 0 {
            Seq::empty()
        } else {
            self.edges_up_to(i - 1) + self.row_edges(i - 1)
        }
    }

    /// All edge triples, in the deterministic enumeration order: outer index
    /// ascending, inner index ascending.
    pub open spec fn spec_edges(self) -> Seq<(Seq<char>, Seq<char>, u32)> {
        self.edges_up_to(self.spec_rows().len() as int)
    }

    /// The set of edge triples; two tables with the same set are equal.
    pub open spec fn edge_set(self) -> Set<(Seq<char>, Seq<char>, u32)> {
        self.spec_edges().to_set()
    }

    /// `e` is the edge of some matrix position `(p, q)` with `p < i`.
    pub open spec fn is_table_edge_up_to(self, i: int, e: (Seq<char>, Seq<char>, u32)) -> bool {
        exists|p: int, q: int|
            0 <= p < i && p < q < self.spec_names().len() && e == #[trigger] self.edge_at(p, q)
    }

    /// Which triples the first `i` rows enumerate.
    pub proof fn lemma_edges_up_to_characterize(self, i: int)
        requires
            self.wf(),
            0 <= i <= self.spec_rows().len(),
        ensures
            forall|e: (Seq<char>, Seq<char>, u32)| #[trigger]
                self.edges_up_to(i).contains(e) == self.is_table_edge_up_to(i, e),
        decreases i,
    {
        let n = self.spec_names().len() as int;
        if i > 0 {
            self.lemma_edges_up_to_characterize(i - 1);
            let a = self.edges_up_to(i - 1);
            let row = self.row_edges(i - 1);
            assert(row.len() == n - i);
            assert forall|e: (Seq<char>, Seq<char>, u32)| #[trigger]
                self.edges_up_to(i).contains(e) == self.is_table_edge_up_to(i, e) by {
                if self.edges_up_to(i).contains(e) {
                    let k = choose|k: int|
                        0 <= k < (a + row).len() && (#[trigger] (a + row)[k]) == e;
                    if k < a.len() {
                        assert(a[k] == e);
                        assert(a.contains(e));
                        assert(self.is_table_edge_up_to(i - 1, e));
                        let (p, q) = choose|p: int, q: int|
                            0 <= p < i - 1 && p < q < self.spec_names().len() && e == #[trigger]
                            self.edge_at(p, q);
                        assert(e == self.edge_at(p, q));
                        assert(self.is_table_edge_up_to(i, e));
                    } else {
                        let j = k - a.len();
                        assert(row[j] == e);
                        assert(e == self.edge_at(i - 1, i + j));
                        assert(self.is_table_edge_up_to(i, e));
                    }
                }
                if self.is_table_edge_up_to(i, e) {
                    let (p, q) = choose|p: int, q: int|
                        0 <= p < i && p < q < self.spec_names().len() && e == #[trigger]
                        self.edge_at(p, q);
                    if p < i - 1 {
                        assert(self.is_table_edge_up_to(i - 1, e));
                        assert(a.contains(e));
                        let k = choose|k: int| 0 <= k < a.len() && (#[trigger] a[k]) == e;
                        assert((a + row)[k] == e);
                        assert(self.edges_up_to(i).contains(e));
                    } else {
                        let j = q - i;
                        assert(row[j] == self.edge_at(i - 1, i + j));
                        assert(row[j] == e);
                        assert((a + row)[a.len() + j] == e);
                        assert(self.edges_up_to(i).contains(e));
                    }
                }
            }
        } else {
            assert forall|e: (Seq<char>, Seq<char>, u32)| #[trigger]
                self.edges_up_to(i).contains(e) == self.is_table_edge_up_to(i, e) by {
                assert(!self.edges_up_to(i).contains(e));
                assert(!self.is_table_edge_up_to(i, e));
            }
        }
    }

    /// The edge set is exactly the graph of the pair map: the table holds the
    /// triple `(l, r, s)` precisely when its pair map sends `(l, r)` to `s`.
    pub proof fn lemma_edge_set_is_pair_map(self)
        requires
            self.wf(),
        ensures
            forall|e: (Seq<char>, Seq<char>, u32)| #[trigger]
                self.edge_set().contains(e) == (self.spec_pair_map().dom().contains((e.0, e.1))
                    && self.spec_pair_map()[(e.0, e.1)] == e.2),
    {
        let n = self.spec_names().len() as int;
        let ns = self.spec_names();
        self.lemma_edges_up_to_characterize(n);
        assert forall|e: (Seq<char>, Seq<char>, u32)| #[trigger]
            self.edge_set().contains(e) == (self.spec_pair_map().dom().contains((e.0, e.1))
                && self.spec_pair_map()[(e.0, e.1)] == e.2) by {
            if self.edge_set().contains(e) {
                assert(self.spec_edges().contains(e));
                assert(self.is_table_edge_up_to(n, e));
                let (p, q) = choose|p: int, q: int|
                    0 <= p < n && p < q < ns.len() && e == #[trigger] self.edge_at(p, q);
                assert(ns.contains(ns[p]));
                assert(ns.contains(ns[q]));
                assert(lex_lt(ns[p], ns[q]));
                lemma_index_of_sorted(ns, p);
                lemma_index_of_sorted(ns, q);
                assert(e.0 == ns[p] && e.1 == ns[q] && e.2 == self.spec_score_at(p, q));
                assert(self.spec_pair_map().dom().contains((e.0, e.1)));
                assert(self.spec_pair_map()[(e.0, e.1)] == e.2);
            }
            if self.spec_pair_map().dom().contains((e.0, e.1)) && self.spec_pair_map()[
                (e.0, e.1)
            ] == e.2 {
                assert(ns.contains(e.0) && ns.contains(e.1) && lex_lt(e.0, e.1));
                let p = choose|k: int| 0 <= k < ns.len() && ns[k] == e.0;
                let q = choose|k: int| 0 <= k < ns.len() && ns[k] == e.1;
                lemma_sorted_position(ns, p, q);
                lemma_index_of_sorted(ns, p);
                lemma_index_of_sorted(ns, q);
                assert(e == self.edge_at(p, q)) by {
                    assert(e.2 == self.spec_score_at(p, q));
                    assert(e == (e.0, e.1, e.2));
                }
                assert(self.is_table_edge_up_to(n, e));
                assert(self.spec_edges().contains(e));
            }
        }
    }

    /// Enumerates all `(left, right, score)` triples, one per unordered pair
    /// of distinct known names, in the deterministic enumeration order.
    pub fn edges(&self) -> (r: Vec<(String, String, u32)>)
        requires
            self.wf(),
        ensures
            r.deep_view() == self.spec_edges(),
    {
        let mut out: Vec<(String, String, u32)> = Vec::new();
        let mut i: usize = 0;
        proof {
            assert(out.deep_view() =~= self.edges_up_to(0));
        }
        while i < self.rows.len()
            invariant
                i <= self.rows.len(),
                self.wf(),
                out.deep_view() == self.edges_up_to(i as int),
            decreases self.rows.len() - i,
        {
            let mut j: usize = 0;
            proof {
                assert(self.row_edges(i as int).take(0) =~= Seq::empty());
                assert(out.deep_view() =~= self.edges_up_to(i as int) + self.row_edges(
                    i as int,
                ).take(0));
            }
            let row_len = self.rows[i].len();
            while j < row_len
                invariant
                    i < self.rows.len(),
                    j <= row_len,
                    self.wf(),
                    row_len == self.spec_rows()[i as int].len(),
                    out.deep_view() == self.edges_up_to(i as int) + self.row_edges(
                        i as int,
                    ).take(j as int),
                decreases row_len - j,
            {
                let l = self.names[i].clone();
                let rn = self.names[i + 1 + j].clone();
                let sc = self.rows[i][j];
                proof {
                    assert(l@ == self.spec_names()[i as int]);
                    assert(rn@ == self.spec_names()[i as int + 1 + j as int]);
                    assert(sc == self.spec_rows()[i as int][j as int]);
                }
                let ghost pre = out.deep_view();
                out.push((l, rn, sc));
                proof {
                    let ii = i as int;
                    let jj = j as int;
                    let up = self.edges_up_to(ii);
                    let rowe = self.row_edges(ii);
                    assert(out@.len() == pre.len() + 1);
                    assert(out.deep_view().len() == pre.len() + 1);
                    assert(pre.len() == up.len() + jj);
                    assert(out.deep_view()[pre.len() as int] == self.edge_at(ii, ii + 1 + jj));
                    assert(forall|k: int| 0 <= k < pre.len() ==> out.deep_view()[k] == pre[k]);
                    assert forall|k: int| 0 <= k < pre.len() + 1 implies out.deep_view()[k] == (up
                        + rowe.take(jj + 1))[k] by {
                        if k < up.len() {
                            assert(pre[k] == (up + rowe.take(jj))[k]);
                            assert((up + rowe.take(jj))[k] == up[k]);
                            assert((up + rowe.take(jj + 1))[k] == up[k]);
                        } else if k < pre.len() {
                            assert(pre[k] == (up + rowe.take(jj))[k]);
                            assert((up + rowe.take(jj))[k] == rowe.take(jj)[k - up.len()]);
                            assert(rowe.take(jj)[k - up.len()] == rowe[k - up.len()]);
                            assert((up + rowe.take(jj + 1))[k] == rowe.take(jj + 1)[k - up.len()]);
                            assert(rowe.take(jj + 1)[k - up.len()] == rowe[k - up.len()]);
                        } else {
                            assert(out.deep_view()[k] == self.edge_at(ii, ii + 1 + jj));
                            assert((up + rowe.take(jj + 1))[k] == rowe.take(jj + 1)[jj]);
                            assert(rowe.take(jj + 1)[jj] == rowe[jj]);
                            assert(rowe[jj] == self.edge_at(ii, ii + 1 + jj));
                        }
                    }
                    assert(out.deep_view() =~= up + rowe.take(jj + 1));
                }
                j = j + 1;
            }
            proof {
                assert(self.row_edges(i as int).take(row_len as int) =~= self.row_edges(i as int));
                assert(out.deep_view() =~= self.edges_up_to(i as int + 1));
            }
            i = i + 1;
        }
        out
    }

    /// Decides edge-set equality with another table: the tables are compared
    /// by the triples they hold, not by internal index assignment.
    pub fn table_eq(&self, other: &PpmTable) -> (r: bool)
        requires
            self.wf(),
            other.wf(),
        ensures
            r == (self.edge_set() == other.edge_set()),
    {
        let mine = self.edges();
        let theirs = other.edges();
        let fwd = edges_subset(&mine, &theirs);
        let bwd = edges_subset(&theirs, &mine);
        proof {
            if fwd && bwd {
                assert(self.edge_set() =~= other.edge_set());
            }
            if self.edge_set() == other.edge_set() {
                assert(self.edge_set().subset_of(other.edge_set()));
                assert(other.edge_set().subset_of(self.edge_set()));
            }
        }
        fwd && bwd
    }

    /// Looks up the score of the unordered pair `(l, r)`.
    pub fn get_ppm(&self, l: &str, r: &str) -> (res: Option<u32>)
        requires
            self.wf(),
        ensures
            res == self.spec_get(l@, r@),
    {
        let ghost p = canon_pair(l@, r@);
        let (a, b) = if str_lt(l, r) {
            (l, r)
        } else {
            (r, l)
        };
        proof {
            assert(p == (a@, b@));
        }
        let ai = match find_name(&self.names, a) {
            Some(i) => i,
            None => {
                proof {
                    assert(!self.name_set().contains(a@));
                    assert(!self.spec_pair_map().dom().contains(p));
                }
                return None;
            },
        };
        let bi = match find_name(&self.names, b) {
            Some(i) => i,
            None => {
                proof {
                    assert(!self.name_set().contains(b@));
                    assert(!self.spec_pair_map().dom().contains(p));
                }
                return None;
            },
        };
        if ai < bi {
            proof {
                let ns = self.spec_names();
                assert(ns[ai as int] == a@ && ns[bi as int] == b@);
                assert(lex_lt(a@, b@));
                assert(ns.contains(a@) && ns.contains(b@));
                lemma_index_of_sorted(ns, ai as int);
                lemma_index_of_sorted(ns, bi as int);
                assert(self.spec_pair_map().dom().contains(p));
                assert(self.spec_pair_map()[p] == self.spec_score_at(ai as int, bi as int));
            }
            Some(self.rows[ai][bi - ai - 1])
        } else {
            proof {
                let ns = self.spec_names();
                assert(ns[ai as int] == a@ && ns[bi as int] == b@);
                if lex_lt(a@, b@) {
                    lemma_sorted_position(ns, ai as int, bi as int);
                }
                assert(!lex_lt(a@, b@));
                assert(!self.spec_pair_map().dom().contains(p));
            }
            None
        }
    }
}

impl PpmTableBuilder {
    /// The distinct names seen so far, in ascending order.
    pub closed spec fn spec_keys(self) -> Seq<Seq<char>> {
        self.keys.deep_view()
    }

    /// The accumulated canonical entries.
    pub closed spec fn spec_entries(self) -> Seq<(Seq<char>, Seq<char>, u32)> {
        self.entries.deep_view()
    }

    /// The set of names seen so far.
    pub open spec fn key_set(self) -> Set<Seq<char>> {
        self.spec_keys().to_set()
    }

    /// The accumulated map from canonical pairs to scores.
    pub open spec fn pair_map(self) -> Map<(Seq<char>, Seq<char>), u32> {
        pairs_map(self.spec_entries())
    }

    pub open spec fn wf(self) -> bool {
        &&& sorted_strict(self.spec_keys())
        &&& pairs_wf(self.spec_entries())
        &&& forall|n: Seq<char>|
            endpoints(self.spec_entries()).contains(n) ==> #[trigger] self.key_set().contains(n)
    }

    /// Every pair of distinct known names has a score.
    pub open spec fn complete(self) -> bool {
        forall|a: Seq<char>, b: Seq<char>|
            self.key_set().contains(a) && self.key_set().contains(b) && lex_lt(a, b)
                ==> #[trigger] self.pair_map().dom().contains((a, b))
    }

    /// Creates an empty accumulator.
    pub fn new() -> (r: Self)
        ensures
            r.wf(),
            r.key_set() == Set::<Seq<char>>::empty(),
            r.pair_map() == Map::<(Seq<char>, Seq<char>), u32>::empty(),
    {
        let r = PpmTableBuilder { keys: Vec::new(), entries: Vec::new() };
        proof {
            assert(r.spec_keys() =~= Seq::<Seq<char>>::empty());
            assert(r.spec_entries() =~= Seq::<(Seq<char>, Seq<char>, u32)>::empty());
            assert(r.key_set() =~= Set::<Seq<char>>::empty());
        }
        r
    }

    /// Records the score of the unordered pair `(l, r)`, overwriting any score
    /// recorded for it before, and registers both names.  A pair of equal
    /// names registers the name and stores no score.
    pub fn add_ppm(&mut self, l: String, r: String, ppm: u32)
        requires
            old(self).wf(),
        ensures
            final(self).wf(),
            final(self).key_set() == old(self).key_set().insert(l@).insert(r@),
            l@ != r@ ==> final(self).pair_map() == old(self).pair_map().insert(
                canon_pair(l@, r@),
                ppm,
            ),
            l@ == r@ ==> final(self).pair_map() == old(self).pair_map(),
    {
        let l_first = str_lt(l.as_str(), r.as_str());
        let r_first = str_lt(r.as_str(), l.as_str());
        insert_name(&mut self.keys, l.clone());
        insert_name(&mut self.keys, r.clone());
        proof {
            assert(self.key_set() == old(self).key_set().insert(l@).insert(r@));
        }
        if l_first {
            proof {
                lemma_lex_lt_irrefl(l@);
            }
            upsert_pair(&mut self.entries, l, r, ppm);
            proof {
                Self::lemma_endpoints_covered(*self, *old(self), l@, r@);
            }
        } else if r_first {
            proof {
                lemma_lex_lt_irrefl(l@);
            }
            upsert_pair(&mut self.entries, r, l, ppm);
            proof {
                assert(canon_pair(l@, r@) == (r@, l@));
                Self::lemma_endpoints_covered(*self, *old(self), r@, l@);
            }
        } else {
            proof {
                lemma_lex_lt_total(l@, r@);
                assert(l@ == r@);
                assert forall|n: Seq<char>| endpoints(self.spec_entries()).contains(n)
                    implies #[trigger] self.key_set().contains(n) by {
                    assert(endpoints(old(self).spec_entries()).contains(n));
                    assert(old(self).key_set().contains(n));
                }
            }
        }
    }

    /// After an upsert of the pair `(a, b)` and registration of both names,
    /// every entry endpoint is still a known key.
    proof fn lemma_endpoints_covered(
        cur: PpmTableBuilder,
        prior: PpmTableBuilder,
        a: Seq<char>,
        b: Seq<char>,
    )
        requires
            forall|n: Seq<char>|
                endpoints(prior.spec_entries()).contains(n) ==> #[trigger] prior.key_set().contains(
                    n,
                ),
            endpoints(cur.spec_entries()) == endpoints(prior.spec_entries()).insert(a).insert(b),
            cur.key_set().contains(a),
            cur.key_set().contains(b),
            forall|n: Seq<char>|
                prior.key_set().contains(n) ==> #[trigger] cur.key_set().contains(n),
        ensures
            forall|n: Seq<char>|
                endpoints(cur.spec_entries()).contains(n) ==> #[trigger] cur.key_set().contains(
                    n,
                ),
    {
        assert forall|n: Seq<char>| endpoints(cur.spec_entries()).contains(n)
            implies #[trigger] cur.key_set().contains(n) by {
            if n != a && n != b {
                assert(endpoints(prior.spec_entries()).contains(n));
                assert(prior.key_set().contains(n));
            }
        }
    }

    /// Checks that every pair of distinct known names has a recorded score.
    pub fn data_is_complete(&self) -> (r: bool)
        requires
            self.wf(),
        ensures
            r == self.complete(),
    {
        let ghost ks = self.spec_keys();
        let ghost es = self.spec_entries();
        let n = self.keys.len();
        let mut i: usize = 0;
        while i < n
            invariant
                i <= n,
                n == self.keys.len(),
                self.wf(),
                ks == self.spec_keys(),
                es == self.spec_entries(),
                forall|p: int, q: int|
                    0 <= p < i && p < q < n ==> has_pair(es, ((#[trigger] ks[p]), #[trigger] ks[q])),
            decreases n - i,
        {
            let mut j: usize = i + 1;
            while j < n
                invariant
                    i < n,
                    i < j <= n,
                    n == self.keys.len(),
                    self.wf(),
                    ks == self.spec_keys(),
                    es == self.spec_entries(),
                    forall|p: int, q: int|
                        0 <= p < i && p < q < n ==> has_pair(
                            es,
                            ((#[trigger] ks[p]), #[trigger] ks[q]),
                        ),
                    forall|q: int| i < q < j ==> has_pair(es, (ks[i as int], #[trigger] ks[q])),
                decreases n - j,
            {
                match find_pair(&self.entries, self.keys[i].as_str(), self.keys[j].as_str()) {
                    Some(k) => {
                        proof {
                            assert(es[k as int].0 == ks[i as int] && es[k as int].1
                                == ks[j as int]);
                            assert(has_pair(es, (ks[i as int], ks[j as int])));
                        }
                    },
                    None => {
                        proof {
                            lemma_pairs_map_dom(es);
                            assert(self.key_set().contains(ks[i as int]));
                            assert(self.key_set().contains(ks[j as int]));
                            assert(lex_lt(ks[i as int], ks[j as int]));
                            assert(!self.pair_map().dom().contains((ks[i as int], ks[j as int])));
                            assert(!self.complete());
                        }
                        return false;
                    },
                }
                j = j + 1;
            }
            i = i + 1;
        }
        proof {
            lemma_pairs_map_dom(es);
            assert forall|a: Seq<char>, b: Seq<char>|
                self.key_set().contains(a) && self.key_set().contains(b) && lex_lt(a, b)
                implies #[trigger] self.pair_map().dom().contains((a, b)) by {
                assert(ks.contains(a));
                assert(ks.contains(b));
                let pa = choose|k: int| 0 <= k < ks.len() && ks[k] == a;
                let pb = choose|k: int| 0 <= k < ks.len() && ks[k] == b;
                lemma_sorted_position(ks, pa, pb);
                assert(has_pair(es, (ks[pa], ks[pb])));
            }
        }
        true
    }

    /// Consumes the accumulator.  When the accumulated data is complete, the
    /// frozen table is produced: its names are the sorted keys and its pair
    /// map is exactly the accumulated one.  Otherwise the accumulator itself
    /// is handed back unchanged.
    pub fn build(self) -> (r: Result<PpmTable, PpmTableBuilder>)
        requires
            self.wf(),
        ensures
            r is Ok <==> self.complete(),
            r matches Ok(t) ==> t.wf() && t.spec_names() == self.spec_keys()
                && t.spec_pair_map() == self.pair_map(),
            r matches Err(b) ==> b == self,
    {
        if !self.data_is_complete() {
            return Err(self);
        }
        let ghost ks = self.spec_keys();
        let ghost es = self.spec_entries();
        proof {
            lemma_pairs_map_dom(es);
            assert forall|p: int, q: int| 0 <= p < q < ks.len() implies has_pair(
                es,
                ((#[trigger] ks[p]), #[trigger] ks[q]),
            ) by {
                assert(ks.contains(ks[p]));
                assert(ks.contains(ks[q]));
                assert(self.key_set().contains(ks[p]));
                assert(self.key_set().contains(ks[q]));
                assert(lex_lt(ks[p], ks[q]));
                assert(self.pair_map().dom().contains((ks[p], ks[q])));
            }
        }
        let sorted = self.sorted_keys();
        let rows = Self::generate_ppm_table(&sorted, &self.entries);
        let t = PpmTable { names: sorted, rows };
        proof {
            assert(t.spec_names() == ks);
            assert(t.wf());
            lemma_pairs_map_values(es);
            assert(t.spec_pair_map() =~= self.pair_map()) by {
                assert forall|p: (Seq<char>, Seq<char>)| #![auto]
                    t.spec_pair_map().dom().contains(p) == self.pair_map().dom().contains(p) by {
                    assert(p == (p.0, p.1));
                    if t.spec_pair_map().dom().contains(p) {
                        assert(self.key_set().contains(p.0));
                        assert(self.key_set().contains(p.1));
                        assert(self.pair_map().dom().contains((p.0, p.1)));
                    }
                    if self.pair_map().dom().contains(p) {
                        assert(has_pair(es, p));
                        let k = choose|k: int|
                            0 <= k < es.len() && (#[trigger] es[k]).0 == p.0 && es[k].1 == p.1;
                        assert(endpoints(es).contains(p.0)) by {
                            assert(es[k].0 == p.0 || es[k].1 == p.0);
                        }
                        assert(endpoints(es).contains(p.1)) by {
                            assert(es[k].0 == p.1 || es[k].1 == p.1);
                        }
                        assert(self.key_set().contains(p.0));
                        assert(self.key_set().contains(p.1));
                        assert(ks.contains(p.0));
                        assert(ks.contains(p.1));
                        assert(lex_lt(p.0, p.1)) by {
                            assert(lex_lt(es[k].0, es[k].1));
                        }
                    }
                }
                assert forall|p: (Seq<char>, Seq<char>)|
                    t.spec_pair_map().dom().contains(p) implies #[trigger] t.spec_pair_map()[p]
                    == self.pair_map()[p] by {
                    assert(ks.contains(p.0));
                    assert(ks.contains(p.1));
                    let pa = choose|k: int| 0 <= k < ks.len() && ks[k] == p.0;
                    let pb = choose|k: int| 0 <= k < ks.len() && ks[k] == p.1;
                    lemma_index_of_sorted(ks, pa);
                    lemma_index_of_sorted(ks, pb);
                    assert(ks.index_of(p.0) == pa);
                    assert(ks.index_of(p.1) == pb);
                    lemma_sorted_position(ks, pa, pb);
                    assert(t.spec_rows()[pa][pb - pa - 1] == pairs_map(es)[(ks[pa], ks[pb])]);
                    assert(p == (p.0, p.1));
                }
            }
        }
        Ok(t)
    }

    /// Builds the packed upper-triangular score matrix over the sorted keys
    /// from the accumulated entries.
    pub fn generate_ppm_table(
        sorted: &Vec<String>,
        entries: &Vec<(String, String, u32)>,
    ) -> (rows: Vec<Vec<u32>>)
        requires
            sorted_strict(sorted.deep_view()),
            pairs_distinct(entries.deep_view()),
            forall|p: int, q: int|
                0 <= p < q < sorted.deep_view().len() ==> has_pair(
                    entries.deep_view(),
                    ((#[trigger] sorted.deep_view()[p]), #[trigger] sorted.deep_view()[q]),
                ),
        ensures
            rows.deep_view().len() == sorted.deep_view().len(),
            forall|i: int|
                0 <= i < rows.deep_view().len() ==> (#[trigger] rows.deep_view()[i]).len()
                    == sorted.deep_view().len() - i - 1,
            forall|p: int, q: int|
                0 <= p < q < sorted.deep_view().len() ==> rows.deep_view()[p][q - p - 1]
                    == pairs_map(entries.deep_view())[
                    ((#[trigger] sorted.deep_view()[p]), #[trigger] sorted.deep_view()[q])],
    {
        let mut rows = Self::allocate_ppm_table(sorted.len());
        Self::populate_ppm_table(&mut rows, sorted, entries);
        rows
    }

    /// Reserves the outer vector of the packed matrix.
    pub fn allocate_ppm_table(n: usize) -> (r: Vec<Vec<u32>>)
        ensures
            r@.len() == 0,
    {
        Vec::with_capacity(n)
    }

    /// Fills the packed matrix row by row: row `i` holds the scores of the
    /// pairs of key `i` with every later key.
    pub fn populate_ppm_table(
        rows: &mut Vec<Vec<u32>>,
        sorted: &Vec<String>,
        entries: &Vec<(String, String, u32)>,
    )
        requires
            old(rows)@.len() == 0,
            sorted_strict(sorted.deep_view()),
            pairs_distinct(entries.deep_view()),
            forall|p: int, q: int|
                0 <= p < q < sorted.deep_view().len() ==> has_pair(
                    entries.deep_view(),
                    ((#[trigger] sorted.deep_view()[p]), #[trigger] sorted.deep_view()[q]),
                ),
        ensures
            final(rows).deep_view().len() == sorted.deep_view().len(),
            forall|i: int|
                0 <= i < final(rows).deep_view().len() ==> (#[trigger] final(rows).deep_view()[i]).len()
                    == sorted.deep_view().len() - i - 1,
            forall|p: int, q: int|
                0 <= p < q < sorted.deep_view().len() ==> final(rows).deep_view()[p][q - p - 1]
                    == pairs_map(entries.deep_view())[
                    ((#[trigger] sorted.deep_view()[p]), #[trigger] sorted.deep_view()[q])],
    {
        let ghost ks = sorted.deep_view();
        let ghost es = entries.deep_view();
        let n = sorted.len();
        proof {
            lemma_pairs_map_values(es);
        }
        let mut i: usize = 0;
        while i < n
            invariant
                i <= n,
                n == sorted.len(),
                ks == sorted.deep_view(),
                es == entries.deep_view(),
                sorted_strict(ks),
                pairs_distinct(es),
                forall|p: int, q: int|
                    0 <= p < q < ks.len() ==> has_pair(es, ((#[trigger] ks[p]), #[trigger] ks[q])),
                forall|k: int|
                    0 <= k < es.len() ==> pairs_map(es).dom().contains(
                        ((#[trigger] es[k]).0, es[k].1),
                    ) && pairs_map(es)[(es[k].0, es[k].1)] == es[k].2,
                rows.deep_view().len() == i,
                forall|p: int|
                    0 <= p < i ==> (#[trigger] rows.deep_view()[p]).len() == n - p - 1,
                forall|p: int, q: int|
                    0 <= p < i && p < q < n ==> rows.deep_view()[p][q - p - 1] == pairs_map(es)[
                    ((#[trigger] ks[p]), #[trigger] ks[q])],
            decreases n - i,
        {
            let mut row: Vec<u32> = Vec::new();
            let mut j: usize = i + 1;
            while j < n
                invariant
                    i < n,
                    i < j <= n,
                    n == sorted.len(),
                    ks == sorted.deep_view(),
                    es == entries.deep_view(),
                    sorted_strict(ks),
                    pairs_distinct(es),
                    forall|p: int, q: int|
                        0 <= p < q < ks.len() ==> has_pair(
                            es,
                            ((#[trigger] ks[p]), #[trigger] ks[q]),
                        ),
                    forall|k: int|
                        0 <= k < es.len() ==> pairs_map(es).dom().contains(
                            ((#[trigger] es[k]).0, es[k].1),
                        ) && pairs_map(es)[(es[k].0, es[k].1)] == es[k].2,
                    row@.len() == j - i - 1,
                    forall|q: int|
                        i < q < j ==> row@[q - i - 1] == pairs_map(es)[
                        (ks[i as int], #[trigger] ks[q])],
                decreases n - j,
            {
                let sc = match find_pair(entries, sorted[i].as_str(), sorted[j].as_str()) {
                    Some(k) => {
                        proof {
                            assert(es[k as int].0 == ks[i as int] && es[k as int].1
                                == ks[j as int]);
                        }
                        entries[k].2
                    },
                    None => {
                        proof {
                            assert(has_pair(es, (ks[i as int], ks[j as int])));
                            assert(false);
                        }
                        0
                    },
                };
                proof {
                    assert(sc == pairs_map(es)[(ks[i as int], ks[j as int])]);
                }
                row.push(sc);
                j = j + 1;
            }
            let ghost pre_rows = rows.deep_view();
            let ghost rowv = row.deep_view();
            proof {
                assert(rowv.len() == row@.len());
                assert(forall|q: int| 0 <= q < rowv.len() ==> rowv[q] == row@[q]);
            }
            rows.push(row);
            proof {
                assert(rows@.len() == i as int + 1);
                assert(rows.deep_view().len() == i as int + 1);
                assert forall|p: int| 0 <= p < i as int + 1 implies (
                #[trigger] rows.deep_view()[p]).len() == n - p - 1 by {
                    if p < i as int {
                        assert(rows.deep_view()[p] == pre_rows[p]);
                    } else {
                        assert(rows.deep_view()[p] == rowv);
                    }
                }
                assert forall|p: int, q: int| 0 <= p < i as int + 1 && p < q < n implies rows
                    .deep_view()[p][q - p - 1] == pairs_map(es)[
                    ((#[trigger] ks[p]), #[trigger] ks[q])] by {
                    if p < i as int {
                        assert(rows.deep_view()[p] == pre_rows[p]);
                    } else {
                        assert(rows.deep_view()[p] == rowv);
                        assert(rowv[q - p - 1] == pairs_map(es)[(ks[p], ks[q])]);
                    }
                }
            }
            i = i + 1;
        }
    }

    /// The known names in ascending order, as a fresh vector.
    pub fn sorted_keys(&self) -> (r: Vec<String>)
        ensures
            r.deep_view() == self.spec_keys(),
    {
        let mut out: Vec<String> = Vec::new();
        let mut i: usize = 0;
        while i < self.keys.len()
            invariant
                i <= self.keys.len(),
                out.deep_view() =~= self.spec_keys().take(i as int),
            decreases self.keys.len() - i,
        {
            let k = self.keys[i].clone();
            proof {
                assert(k@ == self.spec_keys()[i as int]);
            }
            let ghost pre = out.deep_view();
            proof {
                assert(pre.len() == i as int);
            }
            out.push(k);
            proof {
                assert(out@.len() == i as int + 1);
                assert(out.deep_view().len() == i as int + 1);
                assert forall|j: int| 0 <= j < i as int + 1 implies out.deep_view()[j]
                    == self.spec_keys().take(i as int + 1)[j] by {
                    if j < i as int {
                        assert(out.deep_view()[j] == pre[j]);
                    } else {
                        assert(out.deep_view()[j] == k@);
                    }
                }
                assert(out.deep_view() =~= self.spec_keys().take(i as int + 1));
            }
            i = i + 1;
        }
        proof {
            assert(self.spec_keys().take(self.keys.len() as int) =~= self.spec_keys());
        }
        out
    }
}

impl PartialEq for PpmTableBuilder {
    /// Accumulators are compared by their stored keys and entries.
    fn eq(&self, other: &Self) -> (r: bool) {
        crate::order::names_equal(&self.keys, &other.keys) && crate::pairs::entries_equal(
            &self.entries,
            &other.entries,
        )
    }
}

impl vstd::std_specs::cmp::PartialEqSpecImpl for PpmTableBuilder {
    open spec fn obeys_eq_spec() -> bool {
        true
    }

    open spec fn eq_spec(&self, other: &Self) -> bool {
        self.spec_keys() == other.spec_keys() && self.spec_entries() == other.spec_entries()
    }
}

impl Default for PpmTableBuilder {
    /// The default accumulator is the empty one.
    fn default() -> (r: Self)
        ensures
            r.wf(),
            r.key_set() == Set::<Seq<char>>::empty(),
            r.pair_map() == Map::<(Seq<char>, Seq<char>), u32>::empty(),
    {
        PpmTableBuilder::new()
    }
}

/// Whether the triple `e` stands somewhere in `ys`.
fn contains_edge(ys: &Vec<(String, String, u32)>, e: &(String, String, u32)) -> (r: bool)
    ensures
        r == ys.deep_view().to_set().contains((e.0@, e.1@, e.2)),
{
    let mut i: usize = 0;
    while i < ys.len()
        invariant
            i <= ys.len(),
            forall|k: int| 0 <= k < i ==> (#[trigger] ys.deep_view()[k]) != (e.0@, e.1@, e.2),
        decreases ys.len() - i,
    {
        let c = &ys[i];
        if crate::order::str_eq(c.0.as_str(), e.0.as_str()) && crate::order::str_eq(
            c.1.as_str(),
            e.1.as_str(),
        ) && c.2 == e.2 {
            proof {
                assert(ys.deep_view()[i as int] == (e.0@, e.1@, e.2));
                assert(ys.deep_view().contains((e.0@, e.1@, e.2)));
            }
            return true;
        }
        proof {
            assert(ys.deep_view()[i as int] == (ys@[i as int].0@, ys@[i as int].1@, ys@[
                i as int].2));
        }
        i = i + 1;
    }
    proof {
        if ys.deep_view().contains((e.0@, e.1@, e.2)) {
            let k = choose|k: int|
                0 <= k < ys.deep_view().len() && (#[trigger] ys.deep_view()[k]) == (
                e.0@,
                e.1@,
                e.2,
                );
            assert(false);
        }
    }
    false
}

/// Whether every triple of `xs` also stands in `ys`.
fn edges_subset(xs: &Vec<(String, String, u32)>, ys: &Vec<(String, String, u32)>) -> (r: bool)
    ensures
        r == xs.deep_view().to_set().subset_of(ys.deep_view().to_set()),
{
    let mut i: usize = 0;
    while i < xs.len()
        invariant
            i <= xs.len(),
            forall|k: int|
                0 <= k < i ==> ys.deep_view().to_set().contains(#[trigger] xs.deep_view()[k]),
        decreases xs.len() - i,
    {
        let e = &xs[i];
        let present = contains_edge(ys, e);
        proof {
            assert(xs.deep_view()[i as int] == (e.0@, e.1@, e.2));
        }
        if !present {
            proof {
                assert(xs.deep_view().contains(xs.deep_view()[i as int]));
                assert(xs.deep_view().to_set().contains(xs.deep_view()[i as int]));
                assert(!ys.deep_view().to_set().contains(xs.deep_view()[i as int]));
            }
            return false;
        }
        i = i + 1;
    }
    proof {
        assert forall|e: (Seq<char>, Seq<char>, u32)| xs.deep_view().to_set().contains(e)
            implies ys.deep_view().to_set().contains(e) by {
            let k = choose|k: int|
                0 <= k < xs.deep_view().len() && (#[trigger] xs.deep_view()[k]) == e;
            assert(ys.deep_view().to_set().contains(xs.deep_view()[k]));
        }
    }
    true
}

/// Round trip between enumeration and lookup: a well-formed table
/// enumerates exactly the triples its lookups answer, one per canonical
/// pair of distinct known names, whatever the order the pairs were
/// recorded in.
pub proof fn lemma_edges_match_lookup(t: PpmTable)
    requires
        t.wf(),
    ensures
        forall|a: Seq<char>, b: Seq<char>, s: u32| #![auto]
            t.edge_set().contains((a, b, s)) == (lex_lt(a, b) && t.spec_get(a, b) == Some(s)),
{
    t.lemma_edge_set_is_pair_map();
    assert forall|a: Seq<char>, b: Seq<char>, s: u32| #![auto]
        t.edge_set().contains((a, b, s)) == (lex_lt(a, b) && t.spec_get(a, b) == Some(s)) by {
        let e = (a, b, s);
        assert(t.edge_set().contains(e) == (t.spec_pair_map().dom().contains((e.0, e.1))
            && t.spec_pair_map()[(e.0, e.1)] == e.2));
        if lex_lt(a, b) {
            assert(canon_pair(a, b) == (a, b));
        } else {
            assert(!t.spec_pair_map().dom().contains((a, b)));
        }
    }
}

/// Symmetry law: a score lookup does not depend on the order of its two
/// names; `get(a, b)` and `get(b, a)` agree on every table.
pub proof fn lemma_get_symmetric(t: PpmTable, l: Seq<char>, r: Seq<char>)
    ensures
        t.spec_get(l, r) == t.spec_get(r, l),
{
    lemma_lex_lt_asym(l, r);
    assert(canon_pair(l, r) == canon_pair(r, l)) by {
        if !lex_lt(l, r) && !lex_lt(r, l) {
            lemma_lex_lt_total(l, r);
            assert(l == r);
        }
    }
}

/// Overwrite law: recording a score for a pair and then recording another
/// score for the same pair leaves exactly the accumulated state that
/// recording only the later score would leave.
pub proof fn lemma_add_ppm_overwrites(
    m: Map<(Seq<char>, Seq<char>), u32>,
    ks: Set<Seq<char>>,
    l: Seq<char>,
    r: Seq<char>,
    s1: u32,
    s2: u32,
)
    ensures
        m.insert(canon_pair(l, r), s1).insert(canon_pair(l, r), s2) == m.insert(
            canon_pair(l, r),
            s2,
        ),
        ks.insert(l).insert(r).insert(l).insert(r) == ks.insert(l).insert(r),
{
    assert(m.insert(canon_pair(l, r), s1).insert(canon_pair(l, r), s2) =~= m.insert(
        canon_pair(l, r),
        s2,
    ));
    assert(ks.insert(l).insert(r).insert(l).insert(r) =~= ks.insert(l).insert(r));
}

/// Order-independence of completeness: whether building succeeds is decided
/// by the accumulated name set and pair map alone, not by the order in which
/// the pairs were recorded.
pub proof fn lemma_complete_determined(b1: PpmTableBuilder, b2: PpmTableBuilder)
    requires
        b1.key_set() == b2.key_set(),
        b1.pair_map() == b2.pair_map(),
    ensures
        b1.complete() == b2.complete(),
{
}

/// Order-independence of the built table: two tables whose pair maps agree,
/// as tables built from the same edges in any insertion order do, hold
/// exactly the same edge triples.
pub proof fn lemma_build_order_independent(t1: PpmTable, t2: PpmTable)
    requires
        t1.wf(),
        t2.wf(),
        t1.spec_pair_map() == t2.spec_pair_map(),
    ensures
        t1.edge_set() == t2.edge_set(),
{
    t1.lemma_edge_set_is_pair_map();
    t2.lemma_edge_set_is_pair_map();
    assert(t1.edge_set() =~= t2.edge_set());
}

} // verus!
