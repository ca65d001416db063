use ropetrace::arena::{Arena, IdAlloc};
use ropetrace::relation::{str_addrs, Relation};
use ropetrace::rope::Rope;

fn edge_count(rel: &Relation, sources: &[usize]) -> usize {
    let mut n = 0;
    for a in sources {
        if let Some(s) = rel.rel(*a) {
            n += s.len();
        }
    }
    n
}

#[test]
fn add_records_both_directions() {
    let mut rel = Relation::new();
    rel.add(1, 2);
    assert!(rel.rel(1).unwrap().contains(&2));
    assert!(rel.inv(2).unwrap().contains(&1));
    assert!(rel.rel(2).is_none());
    assert!(rel.inv(1).is_none());
}

#[test]
fn add_is_idempotent() {
    let mut rel = Relation::new();
    rel.add(1, 2);
    rel.add(1, 2);
    assert_eq!(rel.rel(1).unwrap().len(), 1);
    assert_eq!(rel.inv(2).unwrap().len(), 1);
}

#[test]
fn add_1_n_and_add_n_1() {
    let mut rel = Relation::new();
    rel.add_1_n(5, &[10, 11]);
    assert_eq!(rel.rel(5).unwrap().len(), 2);
    assert!(rel.inv(10).unwrap().contains(&5));
    rel.add_n_1(&[20, 21], 30);
    assert!(rel.rel(20).unwrap().contains(&30));
    assert!(rel.rel(21).unwrap().contains(&30));
    assert_eq!(rel.inv(30).unwrap().len(), 2);
}

#[test]
fn cartesian_product_edge_count() {
    let sources = [1usize, 2];
    let derived = [10usize, 11, 12];
    let mut rel = Relation::new();
    rel.add_n_n(&sources, &derived);
    assert_eq!(edge_count(&rel, &sources), 6);
    // re-adding the same edge set leaves the counts unchanged
    rel.add_n_n(&sources, &derived);
    assert_eq!(edge_count(&rel, &sources), 6);
    for a in sources {
        for b in derived {
            assert!(rel.rel(a).unwrap().contains(&b));
            assert!(rel.inv(b).unwrap().contains(&a));
        }
    }
}

#[test]
fn add_str_str_relates_character_identities() {
    let mut rel = Relation::new();
    rel.add_str_str("ab", 0, "xyz", 100);
    for a in [0usize, 1] {
        let fwd = rel.rel(a).unwrap();
        assert_eq!(fwd.len(), 3);
        for b in [100usize, 101, 102] {
            assert!(fwd.contains(&b));
        }
    }
}

#[test]
fn str_addrs_one_identity_per_character() {
    assert_eq!(str_addrs("abc", 0), vec![0, 1, 2]);
    // the two-byte character occupies identities 101 and 102
    assert_eq!(str_addrs("a\u{e9}b", 100), vec![100, 101, 103]);
    assert_eq!(str_addrs("", 7), Vec::<usize>::new());
}

#[test]
fn track_returns_output_and_relates_everything() {
    let mut rel = Relation::new();
    let out = rel.track(|s: &str| s.chars().rev().collect::<String>(), "abc", 0, 100);
    assert_eq!(out, "cba".to_string());
    for a in [0usize, 1, 2] {
        let fwd = rel.rel(a).unwrap();
        for b in [100usize, 101, 102] {
            assert!(fwd.contains(&b));
        }
    }
    for b in [100usize, 101, 102] {
        let back = rel.inv(b).unwrap();
        for a in [0usize, 1, 2] {
            assert!(back.contains(&a));
        }
    }
}

#[test]
fn track_with_empty_output_records_nothing() {
    let mut rel = Relation::new();
    let out = rel.track(|_s: &str| String::new(), "abc", 0, 100);
    assert_eq!(out, String::new());
    assert!(rel.rel(0).is_none());
    assert!(rel.inv(100).is_none());
}

#[test]
fn arena_allocation_scenario() {
    let mut arena: Arena<String> = Arena::new();
    assert_eq!(arena.allocate("foo".to_string()), 0);
    assert_eq!(arena.allocate("bar".to_string()), 1);
    assert_eq!(arena.get(0).map(|s| s.as_str()), Some("foo"));
    assert_eq!(arena.get(1).map(|s| s.as_str()), Some("bar"));
    assert!(arena.get(2).is_none());
}

#[test]
fn id_alloc_hands_out_disjoint_ranges() {
    let mut ids = IdAlloc::starting_at(0);
    assert_eq!(ids.take(5), Some(0));
    assert_eq!(ids.take(3), Some(5));
    assert_eq!(ids.take(0), Some(8));
    let mut nearly_full = IdAlloc::starting_at(usize::MAX - 1);
    assert_eq!(nearly_full.take(2), None);
    assert_eq!(nearly_full.take(1), Some(usize::MAX - 1));
}

#[test]
fn tracked_rope_pipeline() {
    // ingest a document, rewrite it, and check that the derived text's
    // retained characters answer back to the source document
    let doc = "Modify: \"abc\"";
    let input = Rope::from_str(doc, 0);
    let mut rel = Relation::new();
    let inner = input.slice(9, input.len() - 1);
    let flat = String::from_utf8(inner.flatten()).unwrap();
    let reversed = rel.track(
        |s: &str| s.chars().rev().collect::<String>(),
        flat.as_str(),
        9,
        1000,
    );
    assert_eq!(reversed, "cba".to_string());
    // the source text sits at bytes 9..12 of the document, so identity 9
    // is its first character
    let fwd = rel.rel(9).unwrap();
    assert!(fwd.contains(&1000));
    assert!(fwd.contains(&1002));
}
