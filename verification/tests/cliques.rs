use cabal::clique::{Clique, CliqueExport};
use cabal::cliques::{Cliques, CliquesExportElement};

fn export_of(cliques: &Cliques) -> Vec<CliquesExportElement> {
    let empty = Cliques::new(0);
    cliques.export(&empty).cliques
}

#[test]
fn test_clique_new_add_contains() {
    let mut c = Clique::new("b", "a", 10, 7);
    assert_eq!(c.id(), 7);
    assert!(c.contains("a"));
    assert!(c.contains("b"));
    assert!(!c.contains("c"));
    c.add("b", "c", 20);
    assert!(c.contains("c"));
    assert_eq!(c.iter(), vec!["a".to_string(), "b".to_string(), "c".to_string()]);
    assert_eq!(c.max_ppm(), 20);
}

#[test]
fn test_clique_merge_absorbs_members_and_edges() {
    let mut left = Clique::new("a", "b", 10, 0);
    let right = Clique::new("c", "d", 20, 1);
    left.merge(right);
    assert!(left.contains("c"));
    assert!(left.contains("d"));
    assert_eq!(left.max_ppm(), 20);
    assert_eq!(left.id(), 0);
}

#[test]
fn test_core_selects_smallest_max_incident_score() {
    // a: 10, b: 20, c: 20 -- the minimum belongs to a.
    let mut c = Clique::new("c", "b", 20, 0);
    c.add("a", "b", 10);
    assert_eq!(c.core_member(), "a".to_string());
    let e = c.export();
    assert_eq!(e.core, "a".to_string());
    assert_eq!(e.non_core_members, vec!["b".to_string(), "c".to_string()]);
    assert_eq!(e.max_ppm, 20);
}

#[test]
fn test_core_tie_breaks_on_lexicographically_smallest_name() {
    // a, b and c all have a greatest incident score of 10.
    let mut c = Clique::new("b", "c", 10, 0);
    c.add("a", "b", 10);
    c.add("a", "c", 10);
    assert_eq!(c.core_member(), "a".to_string());
}

#[test]
fn test_cmp_ppm_orders_exports_by_score() {
    let low = CliqueExport {
        core: "a".to_string(),
        non_core_members: vec!["b".to_string()],
        max_ppm: 10,
    };
    let high = CliqueExport {
        core: "c".to_string(),
        non_core_members: vec!["d".to_string()],
        max_ppm: 20,
    };
    assert_eq!(low.cmp_ppm(&high), std::cmp::Ordering::Less);
    assert_eq!(high.cmp_ppm(&low), std::cmp::Ordering::Greater);
    assert_eq!(low.cmp_ppm(&low), std::cmp::Ordering::Equal);
}

fn permutations(edges: &[(&str, &str, u32)]) -> Vec<Vec<(String, String, u32)>> {
    if edges.is_empty() {
        return vec![Vec::new()];
    }
    let mut out = Vec::new();
    for i in 0..edges.len() {
        let mut rest: Vec<(&str, &str, u32)> = edges.to_vec();
        let picked = rest.remove(i);
        for mut tail in permutations(&rest) {
            let mut perm = vec![(picked.0.to_string(), picked.1.to_string(), picked.2)];
            perm.append(&mut tail);
            out.push(perm);
        }
    }
    out
}

#[test]
fn test_merge_outcome_is_insertion_order_independent() {
    let edges = [("a", "b", 10u32), ("b", "c", 20), ("d", "e", 30), ("c", "d", 40)];
    let mut reference: Option<Vec<CliquesExportElement>> = None;
    for perm in permutations(&edges) {
        let mut cliques = Cliques::new(0);
        for (l, r, ppm) in &perm {
            cliques.add(l, r, *ppm);
        }
        let exported = export_of(&cliques);
        assert_eq!(exported.len(), 1);
        match &exported[0] {
            CliquesExportElement::New(e) => {
                assert_eq!(e.core, "a".to_string());
                assert_eq!(
                    e.non_core_members,
                    vec![
                        "b".to_string(),
                        "c".to_string(),
                        "d".to_string(),
                        "e".to_string()
                    ]
                );
                assert_eq!(e.max_ppm, 40);
            }
            CliquesExportElement::Old { .. } => panic!("expected a new clique"),
        }
        match &reference {
            None => reference = Some(exported),
            Some(prev) => assert_eq!(&exported, prev),
        }
    }
}

#[test]
fn test_diff_reports_merged_prior_cliques_and_new_pairs() {
    let mut cliques = Cliques::new(0);
    cliques.add("a", "b", 10);
    cliques.add("c", "d", 20);
    let prev = cliques.duplicate();
    cliques.add("b", "c", 15);
    cliques.add("e", "f", 30);

    let exported = cliques.export(&prev).cliques;
    assert_eq!(exported.len(), 2);
    match &exported[0] {
        CliquesExportElement::Old { clique, merged, added } => {
            assert_eq!(clique.core, "a".to_string());
            assert_eq!(
                clique.non_core_members,
                vec!["b".to_string(), "c".to_string(), "d".to_string()]
            );
            assert_eq!(clique.max_ppm, 20);
            assert_eq!(
                merged,
                &vec![
                    CliqueExport {
                        core: "a".to_string(),
                        non_core_members: vec!["b".to_string()],
                        max_ppm: 10,
                    },
                    CliqueExport {
                        core: "c".to_string(),
                        non_core_members: vec!["d".to_string()],
                        max_ppm: 20,
                    },
                ]
            );
            assert!(added.is_empty());
        }
        CliquesExportElement::New(_) => panic!("expected a continuation first"),
    }
    match &exported[1] {
        CliquesExportElement::New(e) => {
            assert_eq!(e.core, "e".to_string());
            assert_eq!(e.non_core_members, vec!["f".to_string()]);
            assert_eq!(e.max_ppm, 30);
        }
        CliquesExportElement::Old { .. } => panic!("expected a new clique second"),
    }
}

#[test]
fn test_element_accessors() {
    let e = CliqueExport {
        core: "a".to_string(),
        non_core_members: vec!["b".to_string()],
        max_ppm: 10,
    };
    let newer = CliquesExportElement::New(e.clone());
    let older = CliquesExportElement::Old {
        clique: e.clone(),
        merged: Vec::new(),
        added: Vec::new(),
    };
    assert_eq!(newer.clique(), &e);
    assert_eq!(older.clique(), &e);
    assert_eq!(older.cmp_ppm(&newer), std::cmp::Ordering::Less);
    assert_eq!(newer.cmp_ppm(&older), std::cmp::Ordering::Greater);
}
