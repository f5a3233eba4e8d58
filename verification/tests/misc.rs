use vexra::config::id_counter_start;
use vexra::filter::Filter;
use vexra::ranking::recall_hits;

fn recall(approx: &[u64], truth: &[u64], k: usize) -> f64 {
    let (hits, k) = recall_hits(approx, truth, k);
    if k == 0 {
        1.0
    } else {
        hits as f64 / k as f64
    }
}

#[test]
fn test_recall_perfect() {
    assert_eq!(recall(&[1, 2], &[1, 2], 2), 1.0);
}

#[test]
fn test_recall_partial() {
    assert_eq!(recall(&[1, 3], &[1, 2], 2), 0.5);
}

#[test]
fn recall_caps_k_by_both_lists() {
    assert_eq!(recall_hits(&[1, 2, 3], &[3, 1], 10), (1, 2));
    assert_eq!(recall_hits(&[], &[1], 5), (0, 0));
    assert_eq!(recall(&[], &[1], 5), 1.0);
}

#[test]
fn id_counter_starts_past_the_largest_collection() {
    assert_eq!(id_counter_start(&[]), 1000);
    assert_eq!(id_counter_start(&[3, 17, 5]), 1017);
}

#[test]
fn try_parse_reports_the_lone_quote() {
    assert!(Filter::try_parse(r#"a = ""#).is_none());
    assert!(Filter::try_parse(r#"a = 1 AND b = "  "#).is_none());
    assert!(matches!(Filter::try_parse(r#"a = """#), Some(Ok(_))));
    assert!(matches!(Filter::try_parse("a ? b"), Some(Err(_))));
}

use vexra::doc_ids::{generated_doc_id, unknown_doc_id, DocIds};

#[test]
fn generated_names_carry_the_number() {
    assert_eq!(generated_doc_id(42), "doc_42");
    assert_eq!(generated_doc_id(0), "doc_0");
    assert_eq!(generated_doc_id(10), "doc_10");
    assert_eq!(generated_doc_id(1000), "doc_1000");
    assert_eq!(unknown_doc_id(18446744073709551615), "unknown_18446744073709551615");
}

#[test]
fn doc_ids_map_both_ways() {
    let mut ids = DocIds::new();
    assert_eq!(ids.internal_id("a"), None);
    ids.insert("a", 1);
    ids.insert("b", 2);
    assert_eq!(ids.internal_id("a"), Some(1));
    assert_eq!(ids.doc_name(2).as_deref(), Some("b"));
    // Re-recording a name replaces its internal ID; the old ID keeps naming it.
    ids.insert("a", 3);
    assert_eq!(ids.internal_id("a"), Some(3));
    assert_eq!(ids.doc_name(1).as_deref(), Some("a"));
    assert_eq!(ids.remove("a"), Some(3));
    assert_eq!(ids.internal_id("a"), None);
    assert_eq!(ids.doc_name(3), None);
    assert_eq!(ids.doc_name(1).as_deref(), Some("a"));
    assert_eq!(ids.remove("zzz"), None);
}

use vexra::config::DocIdCounter;

#[test]
fn assign_names_and_numbers_documents() {
    let mut ids = DocIds::new();
    let mut counter = DocIdCounter::new();
    assert_eq!(ids.assign(&mut counter, Some("a")), ("a".to_string(), 1));
    assert_eq!(ids.assign(&mut counter, None), ("doc_2".to_string(), 3));
    // A known name keeps its internal ID and takes no number.
    assert_eq!(ids.assign(&mut counter, Some("a")), ("a".to_string(), 1));
    assert_eq!(counter.next, 4);
    assert_eq!(ids.doc_name(3).as_deref(), Some("doc_2"));
}

#[test]
fn the_counter_wraps_around() {
    let mut counter = DocIdCounter { next: u64::MAX };
    assert_eq!(counter.next_doc_id(), u64::MAX);
    assert_eq!(counter.next_doc_id(), 0);
}
