use speedier::calc::history::stamp_of;
use speedier::calc::{Entry, History};

fn exprs(h: &History) -> Vec<String> {
    h.entries().iter().map(|e| e.expression.clone()).collect()
}

#[test]
fn keeps_only_the_newest_entries() {
    let mut h = History::new(2);
    h.add_at("1", "1", None, 10);
    h.add_at("2", "2", None, 20);
    h.add_at("3", "3", Some("bad".to_string()), 30);
    assert_eq!(h.len(), 2);
    assert_eq!(exprs(&h), vec!["2", "3"]);
    assert_eq!(h.entries()[1].err.as_deref(), Some("bad"));
    assert_eq!(h.entries()[1].at, 30);
}

#[test]
fn zero_limit_keeps_nothing() {
    let mut h = History::new(0);
    h.add("1+1", "2", None);
    assert_eq!(h.len(), 0);
}

#[test]
fn add_stamps_an_entry() {
    let mut h = History::new(5);
    h.add("1+1", "2", None);
    assert_eq!(h.len(), 1);
    assert_eq!(h.entries()[0].expression, "1+1");
    assert_eq!(h.entries()[0].result, "2");
    assert!(h.entries()[0].err.is_none());
}

fn entry(n: i64) -> Entry {
    Entry { expression: n.to_string(), result: n.to_string(), err: None, at: n }
}

#[test]
fn load_keeps_the_newest_within_limit() {
    let mut h = History::new(3);
    h.load_entries((1..=5).map(entry).collect());
    assert_eq!(exprs(&h), vec!["3", "4", "5"]);
    h.load_entries(vec![entry(9)]);
    assert_eq!(exprs(&h), vec!["9"]);
}

#[test]
fn to_vec_copies_the_entries() {
    let mut h = History::new(4);
    h.add_at("a", "b", None, 1);
    h.add_at("c", "d", Some("e".to_string()), 2);
    let v = h.to_vec();
    assert_eq!(v.len(), 2);
    assert_eq!(v[0].expression, "a");
    assert_eq!(v[1].err.as_deref(), Some("e"));
    assert_eq!(exprs(&h), vec!["a", "c"]);
}

#[test]
fn additions_within_limit_are_kept_in_order() {
    let mut h = History::new(4);
    for (i, e) in ["1", "2", "3", "4"].iter().enumerate() {
        h.add_at(e, &format!("r{}", e), None, i as i64);
    }
    assert_eq!(exprs(&h), vec!["1", "2", "3", "4"]);
    let results: Vec<String> = h.entries().iter().map(|e| e.result.clone()).collect();
    assert_eq!(results, vec!["r1", "r2", "r3", "r4"]);
    assert!(h.entries().iter().all(|e| e.err.is_none()));
    h.add_at("5", "r5", None, 9);
    assert_eq!(exprs(&h), vec!["2", "3", "4", "5"]);
}

#[test]
fn stamp_of_a_clock_reading() {
    assert_eq!(stamp_of(None), 0);
    assert_eq!(stamp_of(Some(1_700_000_000)), 1_700_000_000);
    assert_eq!(stamp_of(Some(u64::MAX)), -1);
}

#[test]
fn add_stamps_with_the_clock() {
    let mut h = History::new(1);
    h.add("x", "1", None);
    assert!(h.entries()[0].at > 1_600_000_000);
}
