use std::collections::HashSet;

use cabal::ppm_table::PpmTableBuilder;

#[test]
fn test_ppm_table_builder_empty() {
    let builder = PpmTableBuilder::default();
    let table = builder.build().expect("Table should be buildable.");
    assert!(table.edges().is_empty());
}

#[test]
fn test_ppm_table_builder_two_keys() {
    let mut builder = PpmTableBuilder::default();
    builder.add_ppm("a".to_string(), "b".to_string(), 10);
    let table = builder.build().expect("Table should be buildable.");

    assert_eq!(table.get_ppm("a", "b"), Some(10));
    assert_eq!(
        table.edges(),
        vec![("a".to_string(), "b".to_string(), 10)]
    );
}

#[test]
fn test_ppm_table_builder_missing_similarity() {
    let mut builder = PpmTableBuilder::default();
    builder.add_ppm("a".to_string(), "b".to_string(), 10);
    builder.add_ppm("b".to_string(), "c".to_string(), 20);
    let old_builder = builder.clone();
    let table = builder.build().expect_err("Table should not be buildable.");
    assert_eq!(table, old_builder);
}

#[test]
fn test_ppm_table_builder_three_nodes() {
    let mut builder = PpmTableBuilder::default();
    builder.add_ppm("a".to_string(), "b".to_string(), 10);
    builder.add_ppm("a".to_string(), "c".to_string(), 20);
    builder.add_ppm("b".to_string(), "c".to_string(), 14);
    let table = builder.build().expect("Table should be buildable.");

    let expected = {
        let mut set = HashSet::new();
        set.insert(("a".to_string(), "b".to_string(), 10));
        set.insert(("a".to_string(), "c".to_string(), 20));
        set.insert(("b".to_string(), "c".to_string(), 14));
        set
    };
    assert_eq!(table.edges().into_iter().collect::<HashSet<_>>(), expected);
}

#[test]
fn test_ppm_table_builder_overwrite() {
    let mut builder = PpmTableBuilder::default();
    builder.add_ppm("a".to_string(), "b".to_string(), 25);
    builder.add_ppm("a".to_string(), "b".to_string(), 16);
    let table = builder.build().expect("Table should be buildable.");

    assert_eq!(table.get_ppm("a", "b"), Some(16));
    assert_eq!(
        table.edges(),
        vec![("a".to_string(), "b".to_string(), 16)]
    );
}

#[test]
fn test_get_ppm_is_symmetric() {
    let mut builder = PpmTableBuilder::new();
    builder.add_ppm("x".to_string(), "y".to_string(), 123);
    builder.add_ppm("x".to_string(), "z".to_string(), 456);
    builder.add_ppm("z".to_string(), "y".to_string(), 789);
    let table = builder.build().expect("Table should be buildable.");
    assert_eq!(table.get_ppm("x", "y"), table.get_ppm("y", "x"));
    assert_eq!(table.get_ppm("x", "z"), table.get_ppm("z", "x"));
    assert_eq!(table.get_ppm("y", "z"), table.get_ppm("z", "y"));
    assert_eq!(table.get_ppm("x", "w"), None);
    assert_eq!(table.get_ppm("x", "x"), None);
}

#[test]
fn test_table_equality_is_insertion_order_independent() {
    let mut b1 = PpmTableBuilder::new();
    b1.add_ppm("a".to_string(), "b".to_string(), 10);
    b1.add_ppm("a".to_string(), "c".to_string(), 20);
    b1.add_ppm("b".to_string(), "c".to_string(), 14);
    let t1 = b1.build().expect("Table should be buildable.");

    let mut b2 = PpmTableBuilder::new();
    b2.add_ppm("c".to_string(), "b".to_string(), 14);
    b2.add_ppm("b".to_string(), "a".to_string(), 10);
    b2.add_ppm("c".to_string(), "a".to_string(), 20);
    let t2 = b2.build().expect("Table should be buildable.");

    assert!(t1.table_eq(&t2));
    assert!(t2.table_eq(&t1));

    let mut b3 = PpmTableBuilder::new();
    b3.add_ppm("a".to_string(), "b".to_string(), 11);
    let t3 = b3.build().expect("Table should be buildable.");
    assert!(!t1.table_eq(&t3));
}

#[test]
fn test_index_packing_round_trip() {
    let mut builder = PpmTableBuilder::new();
    builder.add_ppm("b".to_string(), "c".to_string(), 14);
    builder.add_ppm("a".to_string(), "c".to_string(), 20);
    builder.add_ppm("a".to_string(), "b".to_string(), 10);
    let table = builder.build().expect("Table should be buildable.");
    let expected = {
        let mut set = HashSet::new();
        set.insert(("a".to_string(), "b".to_string(), 10));
        set.insert(("a".to_string(), "c".to_string(), 20));
        set.insert(("b".to_string(), "c".to_string(), 14));
        set
    };
    assert_eq!(table.edges().into_iter().collect::<HashSet<_>>(), expected);
}

#[test]
fn test_self_pair_registers_name_without_edge() {
    let mut builder = PpmTableBuilder::new();
    builder.add_ppm("a".to_string(), "a".to_string(), 10);
    let table = builder.build().expect("Table should be buildable.");
    assert!(table.edges().is_empty());
    assert_eq!(table.get_ppm("a", "a"), None);
}
