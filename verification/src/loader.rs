//! Loading a similarity table from an allpairs report with pattern-based
//! identifier extraction.
//!
//! A report line holds six whitespace-separated columns: a numeric score,
//! three further numeric columns that are read past, and two path columns.
//! Each path is reduced to an item identifier by a caller-supplied regular
//! expression whose first capture group is the identifier.
use vstd::prelude::*;

verus! {

use crate::order::str_eq;
use crate::ppm_table::PpmTable;
use crate::ppm_table::PpmTableBuilder;
use crate::scan::is_digit;
use crate::scan::is_u32_numeral;
use crate::scan::lines_of;
use crate::scan::numeral_value;
use crate::scan::parse_u32;
use crate::scan::split_lines;
use crate::scan::split_tokens;
use crate::scan::tokens_of;
use vstd::string::StrSliceExecFns;

#[verifier::external_type_specification]
#[verifier::external_body]
pub struct ExRegex(regex::Regex);

/// What loading can fail with.
#[derive(Clone, Debug)]
pub enum LoadAllpairsError {
    /// The line was not a valid report entry.
    InvalidLine(String),
    /// The score column did not hold an unsigned integer a score can carry.
    PpmCaptureFail(String),
    /// The identifier pattern did not match a path column.
    IdFromPathCaptureFail { path_capture: String, id_from_path: String },
    /// The identifier pattern matched but captured no identifier.
    IdFromPathGroupFail { path_capture: String, id_from_path: String },
    /// The collected scores do not cover every pair of distinct names.
    IncompleteGraph,
}

/// The content of a load error.
pub enum LoadErrorModel {
    InvalidLine(Seq<char>),
    PpmCaptureFail(Seq<char>),
    IdFromPathCaptureFail { path_capture: Seq<char>, id_from_path: Seq<char> },
    IdFromPathGroupFail { path_capture: Seq<char>, id_from_path: Seq<char> },
    IncompleteGraph,
}

pub open spec fn error_model(e: LoadAllpairsError) -> LoadErrorModel {
    match e {
        LoadAllpairsError::InvalidLine(s) => LoadErrorModel::InvalidLine(s@),
        LoadAllpairsError::PpmCaptureFail(s) => LoadErrorModel::PpmCaptureFail(s@),
        LoadAllpairsError::IdFromPathCaptureFail { path_capture, id_from_path } =>
            LoadErrorModel::IdFromPathCaptureFail {
            path_capture: path_capture@,
            id_from_path: id_from_path@,
        },
        LoadAllpairsError::IdFromPathGroupFail { path_capture, id_from_path } =>
            LoadErrorModel::IdFromPathGroupFail {
            path_capture: path_capture@,
            id_from_path: id_from_path@,
        },
        LoadAllpairsError::IncompleteGraph => LoadErrorModel::IncompleteGraph,
    }
}

impl PartialEq for LoadAllpairsError {
    /// Errors are equal when they are the same kind with the same texts.
    fn eq(&self, other: &Self) -> (r: bool) {
        match (self, other) {
            (LoadAllpairsError::InvalidLine(a), LoadAllpairsError::InvalidLine(b)) => str_eq(
                a.as_str(),
                b.as_str(),
            ),
            (LoadAllpairsError::PpmCaptureFail(a), LoadAllpairsError::PpmCaptureFail(b)) => str_eq(
                a.as_str(),
                b.as_str(),
            ),
            (
                LoadAllpairsError::IdFromPathCaptureFail { path_capture: a1, id_from_path: a2 },
                LoadAllpairsError::IdFromPathCaptureFail { path_capture: b1, id_from_path: b2 },
            ) => str_eq(a1.as_str(), b1.as_str()) && str_eq(a2.as_str(), b2.as_str()),
            (
                LoadAllpairsError::IdFromPathGroupFail { path_capture: a1, id_from_path: a2 },
                LoadAllpairsError::IdFromPathGroupFail { path_capture: b1, id_from_path: b2 },
            ) => str_eq(a1.as_str(), b1.as_str()) && str_eq(a2.as_str(), b2.as_str()),
            (LoadAllpairsError::IncompleteGraph, LoadAllpairsError::IncompleteGraph) => true,
            _ => false,
        }
    }
}

impl vstd::std_specs::cmp::PartialEqSpecImpl for LoadAllpairsError {
    open spec fn obeys_eq_spec() -> bool {
        true
    }

    open spec fn eq_spec(&self, other: &Self) -> bool {
        error_model(*self) == error_model(*other)
    }
}

/// A column of decimal digits.
pub open spec fn all_digits(t: Seq<char>) -> bool {
    t.len() > 0 && forall|i: int| 0 <= i < t.len() ==> is_digit(#[trigger] t[i])
}

/// A line has the report entry shape: six columns, the first four numeric.
pub open spec fn line_shape_ok(line: Seq<char>) -> bool {
    let toks = tokens_of(line);
    &&& toks.len() == 6
    &&& all_digits(toks[0])
    &&& all_digits(toks[1])
    &&& all_digits(toks[2])
    &&& all_digits(toks[3])
}

/// A line parses up to identifier extraction: the entry shape, with a score
/// column a score can carry.
pub open spec fn line_fixed_ok(line: Seq<char>) -> bool {
    line_shape_ok(line) && is_u32_numeral(tokens_of(line)[0])
}

/// `a` is a contiguous part of `b`.
pub open spec fn is_substring_of(a: Seq<char>, b: Seq<char>) -> bool {
    exists|x: int, y: int| 0 <= x <= y <= b.len() && a == b.subrange(x, y)
}

/// The triples a fully read report accumulates, given the identifier each
/// path column was reduced to.
pub open spec fn loader_triples(lv: Seq<Seq<char>>, ids: Seq<(Seq<char>, Seq<char>)>) -> Seq<
    (u32, Seq<char>, Seq<char>),
> {
    Seq::new(lv.len(), |k: int| ((numeral_value(tokens_of(lv[k])[0])) as u32, ids[k].0, ids[k].1))
}

/// Relies on regex::Regex::as_str: it returns the pattern string the
/// regular expression was compiled from.
#[verifier::external_body]
fn regex_pattern(re: &regex::Regex) -> (r: String) {
    re.as_str().to_string()
}

/// Relies on regex::Regex::captures and regex::Captures::get: the text of
/// capture group 1, `None` when the expression does not match the text,
/// `Some(None)` when it matches but group 1 is absent or did not
/// participate.  A captured group is a contiguous part of the searched
/// text.
#[verifier::external_body]
fn capture_first_group(re: &regex::Regex, text: &str) -> (r: Option<Option<String>>)
    ensures
        match r {
            Some(Some(s)) => is_substring_of(s@, text@),
            _ => true,
        },
{
    match re.captures(text) {
        None => None,
        Some(caps) => Some(caps.get(1).map(|m| m.as_str().to_string())),
    }
}

/// Turns an identifier-extraction outcome into the identifier or the error
/// naming the path and the pattern.
pub fn id_from_extraction(
    path_capture: &str,
    id_from_path: String,
    extraction: Option<Option<String>>,
) -> (r: Result<String, LoadAllpairsError>)
    ensures
        match extraction {
            None => (r matches Err(e) && error_model(e)
                == LoadErrorModel::IdFromPathCaptureFail {
                path_capture: path_capture@,
                id_from_path: id_from_path@,
            }),
            Some(None) => (r matches Err(e) && error_model(e)
                == LoadErrorModel::IdFromPathGroupFail {
                path_capture: path_capture@,
                id_from_path: id_from_path@,
            }),
            Some(Some(s)) => (r matches Ok(id) && id == s),
        },
{
    match extraction {
        None => Err(
            LoadAllpairsError::IdFromPathCaptureFail {
                path_capture: path_capture.to_owned(),
                id_from_path,
            },
        ),
        Some(None) => Err(
            LoadAllpairsError::IdFromPathGroupFail {
                path_capture: path_capture.to_owned(),
                id_from_path,
            },
        ),
        Some(Some(s)) => Ok(s),
    }
}

/// Extracts an item identifier from a path column with the caller-supplied
/// pattern; the identifier is the pattern's first capture group.
pub fn parse_id(path_capture: &str, id_from_path: &regex::Regex) -> (r: Result<
    String,
    LoadAllpairsError,
>)
    ensures
        match r {
            Ok(id) => is_substring_of(id@, path_capture@),
            Err(e) => match error_model(e) {
                LoadErrorModel::IdFromPathCaptureFail { path_capture: pc, id_from_path: _p } => pc
                    == path_capture@,
                LoadErrorModel::IdFromPathGroupFail { path_capture: pc, id_from_path: _p } => pc
                    == path_capture@,
                _ => false,
            },
        },
{
    let extraction = capture_first_group(id_from_path, path_capture);
    let pattern = regex_pattern(id_from_path);
    id_from_extraction(path_capture, pattern, extraction)
}

/// Decides whether a column is all digits.
fn digits_only(t: &str) -> (r: bool)
    ensures
        r == all_digits(t@),
{
    let len = t.unicode_len();
    if len == 0 {
        return false;
    }
    let mut i: usize = 0;
    while i < len
        invariant
            i <= len,
            len == t@.len(),
            forall|k: int| 0 <= k < i ==> is_digit(#[trigger] t@[k]),
        decreases len - i,
    {
        let c = t.get_char(i);
        if !(c >= '0' && c <= '9') {
            return false;
        }
        i = i + 1;
    }
    true
}

/// Parses the score column.
pub fn parse_ppm(ppm_capture: &str) -> (r: Result<u32, LoadAllpairsError>)
    ensures
        is_u32_numeral(ppm_capture@) ==> (r matches Ok(v) && v == numeral_value(ppm_capture@)),
        !is_u32_numeral(ppm_capture@) ==> (r matches Err(e) && error_model(e)
            == LoadErrorModel::PpmCaptureFail(ppm_capture@)),
{
    match parse_u32(ppm_capture) {
        Some(v) => Ok(v),
        None => Err(LoadAllpairsError::PpmCaptureFail(ppm_capture.to_owned())),
    }
}

/// Parses one report line: the entry shape is checked, the score is read,
/// and the two path columns are reduced to identifiers with the pattern.
pub fn parse_line(line: &str, id_from_path: &regex::Regex) -> (r: Result<
    (u32, String, String),
    LoadAllpairsError,
>)
    ensures
        !line_shape_ok(line@) ==> (r matches Err(e) && error_model(e)
            == LoadErrorModel::InvalidLine(line@)),
        line_shape_ok(line@) && !is_u32_numeral(tokens_of(line@)[0]) ==> (r matches Err(e)
            && error_model(e) == LoadErrorModel::PpmCaptureFail(tokens_of(line@)[0])),
        line_fixed_ok(line@) ==> match r {
            Ok(t) => t.0 == numeral_value(tokens_of(line@)[0]) && is_substring_of(
                t.1@,
                tokens_of(line@)[4],
            ) && is_substring_of(t.2@, tokens_of(line@)[5]),
            Err(e) => match error_model(e) {
                LoadErrorModel::IdFromPathCaptureFail { path_capture: pc, id_from_path: _p } => pc
                    == tokens_of(line@)[4] || pc == tokens_of(line@)[5],
                LoadErrorModel::IdFromPathGroupFail { path_capture: pc, id_from_path: _p } => pc
                    == tokens_of(line@)[4] || pc == tokens_of(line@)[5],
                _ => false,
            },
        },
{
    let toks = split_tokens(line);
    if toks.len() != 6 {
        return Err(LoadAllpairsError::InvalidLine(line.to_owned()));
    }
    proof {
        assert(toks.deep_view()[0] == toks@[0]@);
        assert(toks.deep_view()[1] == toks@[1]@);
        assert(toks.deep_view()[2] == toks@[2]@);
        assert(toks.deep_view()[3] == toks@[3]@);
        assert(toks.deep_view()[4] == toks@[4]@);
        assert(toks.deep_view()[5] == toks@[5]@);
    }
    if !(digits_only(toks[0].as_str()) && digits_only(toks[1].as_str()) && digits_only(
        toks[2].as_str(),
    ) && digits_only(toks[3].as_str())) {
        return Err(LoadAllpairsError::InvalidLine(line.to_owned()));
    }
    let ppm = match parse_ppm(toks[0].as_str()) {
        Ok(v) => v,
        Err(e) => {
            return Err(e);
        },
    };
    let l = match parse_id(toks[4].as_str(), id_from_path) {
        Ok(id) => id,
        Err(e) => {
            return Err(e);
        },
    };
    let rn = match parse_id(toks[5].as_str(), id_from_path) {
        Ok(id) => id,
        Err(e) => {
            return Err(e);
        },
    };
    Ok((ppm, l, rn))
}

/// Loads a table from report text, reducing each path column to an item
/// identifier with the caller-supplied pattern.  Lines are read in order
/// and the first failing line's error is reported; a fully read report
/// whose scores do not cover every pair of distinct identifiers is
/// rejected as incomplete.
pub fn load_allpairs(file_contents: String, id_from_path: regex::Regex) -> (r: Result<
    PpmTable,
    LoadAllpairsError,
>)
    ensures
        ({
            let lv = lines_of(file_contents@);
            match r {
                Ok(t) => {
                    &&& t.wf()
                    &&& forall|k: int| 0 <= k < lv.len() ==> line_fixed_ok(#[trigger] lv[k])
                    &&& exists|ids: Seq<(Seq<char>, Seq<char>)>|
                        {
                            &&& ids.len() == lv.len()
                            &&& forall|k: int|
                                0 <= k < lv.len() ==> is_substring_of(
                                    (#[trigger] ids[k]).0,
                                    tokens_of(lv[k])[4],
                                ) && is_substring_of(ids[k].1, tokens_of(lv[k])[5])
                            &&& t.name_set() == crate::allpairs::keys_of_triples(
                                loader_triples(lv, ids),
                            )
                            &&& t.spec_pair_map() == crate::allpairs::map_of_triples(
                                loader_triples(lv, ids),
                            )
                        }
                },
                Err(e) => match error_model(e) {
                    LoadErrorModel::InvalidLine(s) => exists|k: int|
                        {
                            &&& 0 <= k < lv.len()
                            &&& (#[trigger] lv[k]) == s
                            &&& !line_shape_ok(lv[k])
                            &&& forall|m: int| 0 <= m < k ==> line_fixed_ok(#[trigger] lv[m])
                        },
                    LoadErrorModel::PpmCaptureFail(s) => exists|k: int|
                        {
                            &&& 0 <= k < lv.len()
                            &&& line_shape_ok(#[trigger] lv[k])
                            &&& !is_u32_numeral(tokens_of(lv[k])[0])
                            &&& s == tokens_of(lv[k])[0]
                            &&& forall|m: int| 0 <= m < k ==> line_fixed_ok(#[trigger] lv[m])
                        },
                    _ => true,
                },
            }
        }),
{
    let ghost lv = lines_of(file_contents@);
    let lines = split_lines(file_contents.as_str());
    let mut builder = PpmTableBuilder::new();
    let mut i: usize = 0;
    let ghost mut trs: Seq<(u32, Seq<char>, Seq<char>)> = Seq::empty();
    proof {
        assert(builder.key_set() == crate::allpairs::keys_of_triples(trs));
        assert(builder.pair_map() == crate::allpairs::map_of_triples(trs));
    }
    while i < lines.len()
        invariant
            i <= lines.len(),
            lv == lines_of(file_contents@),
            lines.deep_view() == lv,
            forall|m: int| 0 <= m < i ==> line_fixed_ok(#[trigger] lv[m]),
            builder.wf(),
            trs.len() == i,
            forall|k: int|
                0 <= k < i ==> (#[trigger] trs[k]).0 == (numeral_value(
                    tokens_of(lv[k])[0],
                )) as u32,
            forall|k: int|
                0 <= k < i ==> is_substring_of((#[trigger] trs[k]).1, tokens_of(lv[k])[4])
                    && is_substring_of(trs[k].2, tokens_of(lv[k])[5]),
            builder.key_set() == crate::allpairs::keys_of_triples(trs),
            builder.pair_map() == crate::allpairs::map_of_triples(trs),
        decreases lines.len() - i,
    {
        proof {
            assert(lines.deep_view()[i as int] == lv[i as int]);
        }
        match parse_line(lines[i].as_str(), &id_from_path) {
            Ok(t) => {
                let (ppm, l, rn) = t;
                proof {
                    if !line_shape_ok(lv[i as int]) {
                        assert(false);
                    }
                    if !is_u32_numeral(tokens_of(lv[i as int])[0]) {
                        assert(false);
                    }
                    let prev_trs = trs;
                    trs = trs.push((ppm, l@, rn@));
                    assert(trs.drop_last() =~= prev_trs);
                    assert(trs.last() == (ppm, l@, rn@));
                }
                builder.add_ppm(l, rn, ppm);
                proof {
                    assert(builder.key_set() == crate::allpairs::keys_of_triples(trs));
                    assert(builder.pair_map() == crate::allpairs::map_of_triples(trs));
                }
            },
            Err(e) => {
                proof {
                    match error_model(e) {
                        LoadErrorModel::InvalidLine(s) => {
                            assert(!line_shape_ok(lv[i as int]));
                            assert(lv[i as int] == s);
                        },
                        LoadErrorModel::PpmCaptureFail(s) => {
                            assert(line_shape_ok(lv[i as int]));
                            assert(!is_u32_numeral(tokens_of(lv[i as int])[0]));
                            assert(s == tokens_of(lv[i as int])[0]);
                        },
                        _ => {},
                    }
                }
                return Err(e);
            },
        }
        i = i + 1;
    }
    match builder.build() {
        Ok(t) => {
            proof {
                let ids = Seq::new(lv.len(), |k: int| (trs[k].1, trs[k].2));
                assert(loader_triples(lv, ids) =~= trs);
                assert(t.name_set() == crate::allpairs::keys_of_triples(loader_triples(lv, ids)));
                assert(t.spec_pair_map() == crate::allpairs::map_of_triples(
                    loader_triples(lv, ids),
                ));
                assert forall|k: int| 0 <= k < lv.len() implies is_substring_of(
                    (#[trigger] ids[k]).0,
                    tokens_of(lv[k])[4],
                ) && is_substring_of(ids[k].1, tokens_of(lv[k])[5]) by {
                    assert(ids[k] == (trs[k].1, trs[k].2));
                }
                assert(lv.len() == lines@.len());
                assert(exists|ids2: Seq<(Seq<char>, Seq<char>)>|
                    {
                        &&& ids2.len() == lv.len()
                        &&& forall|k: int|
                            0 <= k < lv.len() ==> is_substring_of(
                                (#[trigger] ids2[k]).0,
                                tokens_of(lv[k])[4],
                            ) && is_substring_of(ids2[k].1, tokens_of(lv[k])[5])
                        &&& t.name_set() == crate::allpairs::keys_of_triples(
                            loader_triples(lv, ids2),
                        )
                        &&& t.spec_pair_map() == crate::allpairs::map_of_triples(
                            loader_triples(lv, ids2),
                        )
                    }) by {
                    assert({
                        &&& ids.len() == lv.len()
                        &&& forall|k: int|
                            0 <= k < lv.len() ==> is_substring_of(
                                (#[trigger] ids[k]).0,
                                tokens_of(lv[k])[4],
                            ) && is_substring_of(ids[k].1, tokens_of(lv[k])[5])
                        &&& t.name_set() == crate::allpairs::keys_of_triples(
                            loader_triples(lv, ids),
                        )
                        &&& t.spec_pair_map() == crate::allpairs::map_of_triples(
                            loader_triples(lv, ids),
                        )
                    });
                }
            }
            Ok(t)
        },
        Err(_b) => Err(LoadAllpairsError::IncompleteGraph),
    }
}

} // verus!
