use cabal::cliques::CliquesExportElement;
use cabal::driver::evolve;
use cabal::ppm_table::PpmTableBuilder;

#[test]
fn test_threshold_sweep_folds_in_one_member_per_boundary() {
    let mut builder = PpmTableBuilder::new();
    builder.add_ppm("a".to_string(), "b".to_string(), 5000);
    builder.add_ppm("b".to_string(), "c".to_string(), 15000);
    builder.add_ppm("c".to_string(), "d".to_string(), 25000);
    // The remaining pairs score above the requested limit and are filtered.
    builder.add_ppm("a".to_string(), "c".to_string(), 90000);
    builder.add_ppm("a".to_string(), "d".to_string(), 91000);
    builder.add_ppm("b".to_string(), "d".to_string(), 92000);
    let table = builder.build().expect("Table should be buildable.");

    let sweep = evolve(&table, 30000, 10000);
    assert_eq!(sweep.len(), 4);

    assert_eq!(sweep[0].0, 0);
    assert!(sweep[0].1.cliques.is_empty());

    assert_eq!(sweep[1].0, 10000);
    assert_eq!(sweep[1].1.cliques.len(), 1);
    match &sweep[1].1.cliques[0] {
        CliquesExportElement::New(e) => {
            assert_eq!(e.core, "a".to_string());
            assert_eq!(e.non_core_members, vec!["b".to_string()]);
            assert_eq!(e.max_ppm, 5000);
        }
        CliquesExportElement::Old { .. } => panic!("boundary one should hold a new clique"),
    }

    assert_eq!(sweep[2].0, 20000);
    assert_eq!(sweep[2].1.cliques.len(), 1);
    match &sweep[2].1.cliques[0] {
        CliquesExportElement::Old { clique, merged, added } => {
            assert_eq!(clique.core, "a".to_string());
            assert_eq!(
                clique.non_core_members,
                vec!["b".to_string(), "c".to_string()]
            );
            assert_eq!(clique.max_ppm, 15000);
            assert_eq!(merged.len(), 1);
            assert_eq!(merged[0].max_ppm, 5000);
            assert_eq!(added, &vec!["c".to_string()]);
        }
        CliquesExportElement::New(_) => panic!("boundary two should continue the clique"),
    }

    assert_eq!(sweep[3].0, 30000);
    assert_eq!(sweep[3].1.cliques.len(), 1);
    match &sweep[3].1.cliques[0] {
        CliquesExportElement::Old { clique, merged, added } => {
            assert_eq!(clique.core, "a".to_string());
            assert_eq!(
                clique.non_core_members,
                vec!["b".to_string(), "c".to_string(), "d".to_string()]
            );
            assert_eq!(clique.max_ppm, 25000);
            assert_eq!(merged.len(), 1);
            assert_eq!(merged[0].max_ppm, 15000);
            assert_eq!(added, &vec!["d".to_string()]);
        }
        CliquesExportElement::New(_) => panic!("boundary three should continue the clique"),
    }
}

#[test]
fn test_sweep_of_empty_table_emits_the_zero_boundary() {
    let builder = PpmTableBuilder::new();
    let table = builder.build().expect("Table should be buildable.");
    let sweep = evolve(&table, 0, 10000);
    assert_eq!(sweep.len(), 1);
    assert_eq!(sweep[0].0, 0);
    assert!(sweep[0].1.cliques.is_empty());
}

#[test]
fn test_sweep_emits_every_boundary_up_to_the_limit() {
    let mut builder = PpmTableBuilder::new();
    builder.add_ppm("a".to_string(), "b".to_string(), 500);
    let table = builder.build().expect("Table should be buildable.");
    let sweep = evolve(&table, 25000, 10000);
    // Boundaries 0, 10000, 20000 and 30000: the last covers the limit.
    assert_eq!(sweep.len(), 4);
    assert_eq!(sweep[3].0, 30000);
    assert_eq!(sweep[1].1.cliques.len(), 1);
    // After the first boundary the clique only continues.
    match &sweep[2].1.cliques[0] {
        CliquesExportElement::Old { added, .. } => assert!(added.is_empty()),
        CliquesExportElement::New(_) => panic!("the clique formed at boundary one"),
    }
}
