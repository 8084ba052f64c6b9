use cabal::allpairs::{load, LoadAllpairsError};

#[test]
fn lib_test_load_allpairs_one_pair() {
    let ppm_table = load(
        "  2191     23   5260   5236 a2-anonymous/001/a2.py a2-anonymous/002/a2.py\n"
            .to_string(),
    )
    .expect("File should be valid.");
    assert_eq!(
        ppm_table.get_ppm("a2-anonymous/001/a2.py", "a2-anonymous/002/a2.py"),
        Some(2191)
    );
    assert_eq!(
        ppm_table.get_ppm("a2-anonymous/002/a2.py", "a2-anonymous/001/a2.py"),
        Some(2191)
    );
}

#[test]
fn lib_test_load_allpairs_three_pairs() {
    let file_contents = "  2191     23   5260   5236 a2-anonymous/001/a2.py a2-anonymous/002/a2.py\n  2155     49   5260   5000 a2-anonymous/001/a2.py a2-anonymous/003/a2.py\n  2232     12   5236   5000 a2-anonymous/002/a2.py a2-anonymous/003/a2.py\n"
    .to_string();
    let ppm_table = load(file_contents).expect("File should be valid.");
    assert_eq!(
        ppm_table.get_ppm("a2-anonymous/001/a2.py", "a2-anonymous/002/a2.py"),
        Some(2191)
    );
    assert_eq!(
        ppm_table.get_ppm("a2-anonymous/001/a2.py", "a2-anonymous/003/a2.py"),
        Some(2155)
    );
    assert_eq!(
        ppm_table.get_ppm("a2-anonymous/002/a2.py", "a2-anonymous/003/a2.py"),
        Some(2232)
    );
}

#[test]
fn lib_test_load_allpairs_invalid_line() {
    let file_contents = "  2191     23   5260   5236 a2-anonymous/001/a2.py a2-anonymous/002/a2.py\n  2191     23   5260   abcda2-anonymous/003/a2.py a2-anonymous/002/a2.py\n"
    .to_string();
    let err = load(file_contents).expect_err("Line 2 should be malformed.");
    assert_eq!(
        err,
        LoadAllpairsError::InvalidLine(
            "  2191     23   5260   abcda2-anonymous/003/a2.py a2-anonymous/002/a2.py"
                .to_string()
        )
    );
}

#[test]
fn lib_test_load_allpairs_ppm_parse_error() {
    let usize_max_plus_one = "18446744073709551616";
    let file_contents = format!(
        "{}     23   5260   5236 a2-anonymous/001/a2.py a2-anonymous/002/a2.py\n",
        usize_max_plus_one,
    );
    let err = load(file_contents).expect_err("Parsing of overly long usize should fail.");
    assert_eq!(
        err,
        LoadAllpairsError::PpmCaptureFail(usize_max_plus_one.to_string())
    );
}

#[test]
fn lib_test_load_allpairs_incomplete_graph() {
    let file_contents = "  2191     23   5260   5236 a2-anonymous/001/a2.py a2-anonymous/002/a2.py\n  2191     23   5260   5236 a2-anonymous/003/a2.py a2-anonymous/002/a2.py\n"
    .to_string();
    let err = load(file_contents).expect_err("Parsing of incomplete graph should fail.");
    assert_eq!(err, LoadAllpairsError::IncompleteGraph);
}

#[test]
fn lib_test_load_allpairs_plus_signed_score() {
    let ppm_table = load("+2191 23 5260 5236 a b\n".to_string()).expect("File should be valid.");
    assert_eq!(ppm_table.get_ppm("a", "b"), Some(2191));
}

#[test]
fn lib_test_load_allpairs_tab_separated_columns() {
    let ppm_table = load("10\t23\t5260\t5236\ta\tb\n".to_string()).expect("File should be valid.");
    assert_eq!(ppm_table.get_ppm("b", "a"), Some(10));
}
