use cabal::loader::{load_allpairs, LoadAllpairsError};
use regex::Regex;

const PATH_SLASH_ID_SLASH_HANDIN: &str = r"^[^/]+/(.+)/a2.py";

#[test]
fn test_load_allpairs_one_pair() {
    let ppm_table = load_allpairs(
        "  2191     23   5260   5236 a2-anonymous/001/a2.py a2-anonymous/002/a2.py\n"
            .to_string(),
        Regex::new(PATH_SLASH_ID_SLASH_HANDIN).unwrap(),
    )
    .expect("File should be valid.");
    assert_eq!(ppm_table.get_ppm("001", "002"), Some(2191));
    assert_eq!(ppm_table.get_ppm("002", "001"), Some(2191));
}

#[test]
fn test_load_allpairs_three_pairs() {
    let file_contents = "  2191     23   5260   5236 a2-anonymous/001/a2.py a2-anonymous/002/a2.py\n  2155     49   5260   5000 a2-anonymous/001/a2.py a2-anonymous/003/a2.py\n  2232     12   5236   5000 a2-anonymous/002/a2.py a2-anonymous/003/a2.py\n"
    .to_string();
    let ppm_table = load_allpairs(
        file_contents,
        Regex::new(PATH_SLASH_ID_SLASH_HANDIN).unwrap(),
    )
    .expect("File should be valid.");
    assert_eq!(ppm_table.get_ppm("001", "002"), Some(2191));
    assert_eq!(ppm_table.get_ppm("001", "003"), Some(2155));
    assert_eq!(ppm_table.get_ppm("002", "003"), Some(2232));
}

#[test]
fn test_load_allpairs_invalid_line() {
    let file_contents = "  2191     23   5260   5236 a2-anonymous/001/a2.py a2-anonymous/002/a2.py\n  2191     23   5260   abcd a2-anonymous/003/a2.py a2-anonymous/002/a2.py\n"
    .to_string();
    let err = load_allpairs(
        file_contents,
        Regex::new(PATH_SLASH_ID_SLASH_HANDIN).unwrap(),
    )
    .expect_err("Line 2 should be malformed.");
    assert_eq!(
        err,
        LoadAllpairsError::InvalidLine(
            "  2191     23   5260   abcd a2-anonymous/003/a2.py a2-anonymous/002/a2.py"
                .to_string()
        )
    );
}

#[test]
fn test_load_allpairs_ppm_parse_error() {
    let usize_max_plus_one = "18446744073709551616";
    let file_contents = format!(
        "{}     23   5260   5236 a2-anonymous/001/a2.py a2-anonymous/002/a2.py\n",
        usize_max_plus_one,
    );
    let err = load_allpairs(
        file_contents,
        Regex::new(PATH_SLASH_ID_SLASH_HANDIN).unwrap(),
    )
    .expect_err("Parsing of overly long usize should fail.");
    assert_eq!(
        err,
        LoadAllpairsError::PpmCaptureFail(usize_max_plus_one.to_string())
    );
}

#[test]
fn test_load_allpairs_id_regex_does_not_match() {
    let err = load_allpairs(
        "  2191     23   5260   5236 a2-anonymous/001/a2.py a2-anonymous/002/a2.py\n"
            .to_string(),
        Regex::new(r"^[^/]+/(abc.+)/a2.py").unwrap(),
    )
    .expect_err("Regex should fail to match the paths.");
    assert_eq!(
        err,
        LoadAllpairsError::IdFromPathCaptureFail {
            path_capture: "a2-anonymous/001/a2.py".to_string(),
            id_from_path: r"^[^/]+/(abc.+)/a2.py".to_string()
        }
    );
}

#[test]
fn test_load_allpairs_id_regex_missing_group() {
    let err = load_allpairs(
        "  2191     23   5260   5236 a2-anonymous/001/a2.py a2-anonymous/002/a2.py\n"
            .to_string(),
        Regex::new(r"^[^/]+/.+/a2.py").unwrap(),
    )
    .expect_err("Regex should be missing a group.");
    assert_eq!(
        err,
        LoadAllpairsError::IdFromPathGroupFail {
            path_capture: "a2-anonymous/001/a2.py".to_string(),
            id_from_path: r"^[^/]+/.+/a2.py".to_string()
        }
    );
}

#[test]
fn test_load_allpairs_incomplete_graph() {
    let file_contents = "  2191     23   5260   5236 a2-anonymous/001/a2.py a2-anonymous/002/a2.py\n  2191     23   5260   5236 a2-anonymous/003/a2.py a2-anonymous/002/a2.py\n"
    .to_string();
    let err = load_allpairs(
        file_contents,
        Regex::new(PATH_SLASH_ID_SLASH_HANDIN).unwrap(),
    )
    .expect_err("Parsing of incomplete graph should fail.");
    assert_eq!(err, LoadAllpairsError::IncompleteGraph);
}

#[test]
fn test_id_from_extraction_outcomes() {
    let ok = cabal::loader::id_from_extraction(
        "dir/007/file",
        "pat".to_string(),
        Some(Some("007".to_string())),
    );
    assert_eq!(ok.unwrap(), "007".to_string());

    let no_match =
        cabal::loader::id_from_extraction("dir/007/file", "pat".to_string(), None);
    assert_eq!(
        no_match.unwrap_err(),
        LoadAllpairsError::IdFromPathCaptureFail {
            path_capture: "dir/007/file".to_string(),
            id_from_path: "pat".to_string()
        }
    );

    let no_group =
        cabal::loader::id_from_extraction("dir/007/file", "pat".to_string(), Some(None));
    assert_eq!(
        no_group.unwrap_err(),
        LoadAllpairsError::IdFromPathGroupFail {
            path_capture: "dir/007/file".to_string(),
            id_from_path: "pat".to_string()
        }
    );
}
