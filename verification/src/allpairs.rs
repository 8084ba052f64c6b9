//! Loading a similarity table from a whitespace-columned report.
//!
//! Each report line holds six whitespace-separated columns: the score, three
//! columns that are read past, and the two item names.  Every line must
//! parse and the collected scores must cover every pair of distinct names.
use vstd::prelude::*;

verus! {

use crate::order::lex_lt;
use crate::order::str_eq;
use crate::pairs::canon_pair;
use crate::ppm_table::PpmTable;
use crate::ppm_table::PpmTableBuilder;
use crate::scan::is_u32_numeral;
use crate::scan::lines_of;
use crate::scan::numeral_value;
use crate::scan::parse_u32;
use crate::scan::split_lines;
use crate::scan::split_tokens;
use crate::scan::tokens_of;

/// What loading can fail with.
#[derive(Clone, Debug)]
pub enum LoadAllpairsError {
    /// The line did not hold exactly six columns.
    InvalidLine(String),
    /// The score column did not hold an unsigned integer a score can carry.
    PpmCaptureFail(String),
    /// The collected scores do not cover every pair of distinct names.
    IncompleteGraph,
}

/// The content of a load error.
pub enum LoadErrorModel {
    InvalidLine(Seq<char>),
    PpmCaptureFail(Seq<char>),
    IncompleteGraph,
}

pub open spec fn error_model(e: LoadAllpairsError) -> LoadErrorModel {
    match e {
        LoadAllpairsError::InvalidLine(s) => LoadErrorModel::InvalidLine(s@),
        LoadAllpairsError::PpmCaptureFail(s) => LoadErrorModel::PpmCaptureFail(s@),
        LoadAllpairsError::IncompleteGraph => LoadErrorModel::IncompleteGraph,
    }
}

impl PartialEq for LoadAllpairsError {
    /// Errors are equal when they are the same kind with the same text.
    fn eq(&self, other: &Self) -> (r: bool) {
        match (self, other) {
            (LoadAllpairsError::InvalidLine(a), LoadAllpairsError::InvalidLine(b)) => str_eq(
                a.as_str(),
                b.as_str(),
            ),
            (LoadAllpairsError::PpmCaptureFail(a), LoadAllpairsError::PpmCaptureFail(b)) => str_eq(
                a.as_str(),
                b.as_str(),
            ),
            (LoadAllpairsError::IncompleteGraph, LoadAllpairsError::IncompleteGraph) => true,
            _ => false,
        }
    }
}

impl vstd::std_specs::cmp::PartialEqSpecImpl for LoadAllpairsError {
    open spec fn obeys_eq_spec() -> bool {
        true
    }

    open spec fn eq_spec(&self, other: &Self) -> bool {
        error_model(*self) == error_model(*other)
    }
}

/// A line parses when it holds six columns whose first is a score.
pub open spec fn line_ok(line: Seq<char>) -> bool {
    let toks = tokens_of(line);
    toks.len() == 6 && is_u32_numeral(toks[0])
}

/// The error a malformed line is reported with.
pub open spec fn line_err(line: Seq<char>) -> LoadErrorModel {
    let toks = tokens_of(line);
    if toks.len() != 6 {
        LoadErrorModel::InvalidLine(line)
    } else {
        LoadErrorModel::PpmCaptureFail(toks[0])
    }
}

/// The triple a well-formed line carries: score, left name, right name.
pub open spec fn line_triple(line: Seq<char>) -> (u32, Seq<char>, Seq<char>) {
    let toks = tokens_of(line);
    ((numeral_value(toks[0])) as u32, toks[4], toks[5])
}

/// Parses one report line.
pub fn parse_line(line: &str) -> (r: Result<(u32, String, String), LoadAllpairsError>)
    ensures
        line_ok(line@) ==> (r matches Ok(t) && (t.0, t.1@, t.2@) == line_triple(line@)),
        !line_ok(line@) ==> (r matches Err(e) && error_model(e) == line_err(line@)),
{
    let toks = split_tokens(line);
    if toks.len() != 6 {
        return Err(LoadAllpairsError::InvalidLine(line.to_owned()));
    }
    let ppm = match parse_ppm(toks[0].as_str()) {
        Ok(v) => v,
        Err(e) => {
            proof {
                assert(toks.deep_view()[0] == toks@[0]@);
            }
            return Err(e);
        },
    };
    let l = toks[4].clone();
    let rn = toks[5].clone();
    proof {
        assert(toks.deep_view()[0] == toks@[0]@);
        assert(toks.deep_view()[4] == l@);
        assert(toks.deep_view()[5] == rn@);
    }
    Ok((ppm, l, rn))
}

/// Parses the score column.
pub fn parse_ppm(ppm_str: &str) -> (r: Result<u32, LoadAllpairsError>)
    ensures
        is_u32_numeral(ppm_str@) ==> (r matches Ok(v) && v == numeral_value(ppm_str@)),
        !is_u32_numeral(ppm_str@) ==> (r matches Err(e) && error_model(e)
            == LoadErrorModel::PpmCaptureFail(ppm_str@)),
{
    match parse_u32(ppm_str) {
        Some(v) => Ok(v),
        None => Err(LoadAllpairsError::PpmCaptureFail(ppm_str.to_owned())),
    }
}

/// The names a triple sequence registers.
pub open spec fn keys_of_triples(ts: Seq<(u32, Seq<char>, Seq<char>)>) -> Set<Seq<char>>
    decreases ts.len(),
{
    if ts.len() == 0 {
        Set::empty()
    } else {
        keys_of_triples(ts.drop_last()).insert(ts.last().1).insert(ts.last().2)
    }
}

/// The pair scores a triple sequence accumulates; a later entry for a pair
/// wins, and a pair of equal names stores nothing.
pub open spec fn map_of_triples(ts: Seq<(u32, Seq<char>, Seq<char>)>) -> Map<
    (Seq<char>, Seq<char>),
    u32,
>
    decreases ts.len(),
{
    if ts.len() == 0 {
        Map::empty()
    } else {
        let m = map_of_triples(ts.drop_last());
        let t = ts.last();
        if t.1 == t.2 {
            m
        } else {
            m.insert(canon_pair(t.1, t.2), t.0)
        }
    }
}

/// Every pair of distinct registered names has a score.
pub open spec fn graph_complete(ks: Set<Seq<char>>, m: Map<(Seq<char>, Seq<char>), u32>) -> bool {
    forall|a: Seq<char>, b: Seq<char>|
        ks.contains(a) && ks.contains(b) && lex_lt(a, b) ==> #[trigger] m.dom().contains((a, b))
}

/// The triples of a fully well-formed report.
pub open spec fn report_triples(lv: Seq<Seq<char>>) -> Seq<(u32, Seq<char>, Seq<char>)> {
    Seq::new(lv.len(), |k: int| line_triple(lv[k]))
}

/// Loads a table from report text: every line is parsed, the triples are
/// accumulated with the last write to a pair winning, and the accumulation
/// is frozen into a table.  The first malformed line is reported; a
/// well-formed report that does not cover every pair of distinct names is
/// rejected as incomplete.
pub fn load(file_contents: String) -> (r: Result<PpmTable, LoadAllpairsError>)
    ensures
        ({
            let lv = lines_of(file_contents@);
            let ts = report_triples(lv);
            &&& (forall|k: int| 0 <= k < lv.len() ==> line_ok(#[trigger] lv[k])) ==> {
                if graph_complete(keys_of_triples(ts), map_of_triples(ts)) {
                    &&& r is Ok
                    &&& r matches Ok(t) ==> t.wf() && t.name_set() == keys_of_triples(ts)
                        && t.spec_pair_map() == map_of_triples(ts)
                } else {
                    (r matches Err(e) && error_model(e) == LoadErrorModel::IncompleteGraph)
                }
            }
            &&& (exists|k: int| 0 <= k < lv.len() && !line_ok(#[trigger] lv[k])) ==> exists|k: int|
                {
                    &&& 0 <= k < lv.len()
                    &&& !line_ok(#[trigger] lv[k])
                    &&& forall|m: int| 0 <= m < k ==> line_ok(#[trigger] lv[m])
                    &&& (r matches Err(e) && error_model(e) == line_err(lv[k]))
                }
        }),
{
    let ghost lv = lines_of(file_contents@);
    let ghost ts = report_triples(lv);
    let lines = split_lines(file_contents.as_str());
    let mut builder = PpmTableBuilder::new();
    let mut i: usize = 0;
    proof {
        assert(ts.take(0) =~= Seq::<(u32, Seq<char>, Seq<char>)>::empty());
        assert(builder.key_set() == keys_of_triples(ts.take(0)));
        assert(builder.pair_map() == map_of_triples(ts.take(0)));
    }
    while i < lines.len()
        invariant
            i <= lines.len(),
            lv == lines_of(file_contents@),
            ts == report_triples(lv),
            lines.deep_view() == lv,
            forall|k: int| 0 <= k < i ==> line_ok(#[trigger] lv[k]),
            builder.wf(),
            builder.key_set() == keys_of_triples(ts.take(i as int)),
            builder.pair_map() == map_of_triples(ts.take(i as int)),
        decreases lines.len() - i,
    {
        match parse_line(lines[i].as_str()) {
            Ok(t) => {
                let (ppm, l, rn) = t;
                proof {
                    assert(lines.deep_view()[i as int] == lv[i as int]);
                    assert(line_ok(lv[i as int]));
                    assert((ppm, l@, rn@) == line_triple(lv[i as int]));
                    assert(ts[i as int] == line_triple(lv[i as int]));
                    assert(ts.take(i as int + 1).drop_last() =~= ts.take(i as int));
                    assert(ts.take(i as int + 1).last() == ts[i as int]);
                }
                builder.add_ppm(l, rn, ppm);
                proof {
                    assert(builder.key_set() == keys_of_triples(ts.take(i as int + 1)));
                    assert(builder.pair_map() == map_of_triples(ts.take(i as int + 1)));
                }
            },
            Err(e) => {
                proof {
                    assert(lines.deep_view()[i as int] == lv[i as int]);
                    assert(!line_ok(lv[i as int]));
                    assert(error_model(e) == line_err(lv[i as int]));
                }
                return Err(e);
            },
        }
        i = i + 1;
    }
    proof {
        assert(ts.take(lines.len() as int) =~= ts);
        assert(forall|k: int| 0 <= k < lv.len() ==> line_ok(#[trigger] lv[k]));
    }
    let ghost bsnap = builder;
    match builder.build() {
        Ok(t) => {
            proof {
                assert(bsnap.complete());
                assert(graph_complete(keys_of_triples(ts), map_of_triples(ts)));
            }
            Ok(t)
        },
        Err(b) => {
            proof {
                assert(!bsnap.complete());
                if graph_complete(keys_of_triples(ts), map_of_triples(ts)) {
                    assert forall|a: Seq<char>, b2: Seq<char>|
                        bsnap.key_set().contains(a) && bsnap.key_set().contains(b2) && lex_lt(
                            a,
                            b2,
                        ) implies #[trigger] bsnap.pair_map().dom().contains((a, b2)) by {
                        assert(map_of_triples(ts).dom().contains((a, b2)));
                    }
                }
            }
            Err(LoadAllpairsError::IncompleteGraph)
        },
    }
}

} // verus!
