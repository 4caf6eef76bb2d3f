use std::path::PathBuf;
use vybim::jump::{JumpList, JumpPoint, CAP};

fn p(name: &str, line: usize) -> JumpPoint {
    JumpPoint::new(PathBuf::from(name), line, 0)
}

#[test]
fn record_dedups_adjacent_identical_points() {
    let mut j = JumpList::new();
    j.record(p("a", 1));
    j.record(p("a", 1));
    // Only one entry; stepping back from the tip captures the (same) live
    // location and finds the single prior point.
    assert_eq!(j.points.len(), 1);
}

#[test]
fn back_then_forward_walks_the_trail() {
    // A(1) -> A(50) recorded as origins; live location is B(0).
    let mut j = JumpList::new();
    j.record(p("a", 1));
    j.record(p("a", 50));

    // Back from B returns the most recent origin, then the earlier one.
    assert_eq!(j.back(p("b", 0)), Some(p("a", 50)));
    assert_eq!(j.back(p("a", 50)), Some(p("a", 1)));
    // Already at the start.
    assert_eq!(j.back(p("a", 1)), None);

    // Forward re-advances toward B: A(50), then B, then nothing.
    assert_eq!(j.forward(), Some(p("a", 50)));
    assert_eq!(j.forward(), Some(p("b", 0)));
    assert_eq!(j.forward(), None);
}

#[test]
fn new_jump_after_back_discards_forward_branch() {
    let mut j = JumpList::new();
    j.record(p("a", 1));
    j.record(p("a", 50));
    j.back(p("b", 0)); // now sitting on A(50), forward branch is [B]
    j.back(p("a", 50)); // now sitting on A(1)

    // A divergent jump truncates the forward branch.
    j.record(p("c", 7));
    assert_eq!(j.forward(), None);
}

#[test]
fn back_and_forward_are_noops_on_empty_history() {
    let mut j = JumpList::new();
    assert_eq!(j.back(p("a", 1)), None);
    assert_eq!(j.forward(), None);
    // Empty history must not have been mutated into a phantom entry.
    assert!(j.points.is_empty());
}

#[test]
fn cap_evicts_the_oldest_entries() {
    let mut j = JumpList::new();
    for i in 0..(CAP + 10) {
        j.record(p("a", i));
    }
    assert_eq!(j.points.len(), CAP);
    // The oldest surviving entry is the (10)th recorded, not the first.
    assert_eq!(j.points.first(), Some(&p("a", 10)));
}

#[test]
fn forward_at_tip_is_a_noop() {
    let mut j = JumpList::new();
    j.record(p("a", 1));
    assert_eq!(j.forward(), None);
}
