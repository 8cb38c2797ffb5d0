use pii::progress::{progress_bar, spinner_frame, Progress};

#[test]
fn progress_counts_within_its_total() {
    let mut p = Progress::new("Loading models".to_string(), 10);
    assert_eq!(p.label, "Loading models");
    assert_eq!((p.current, p.total, p.finished), (0, 10, false));
    p.tick(4);
    assert_eq!(p.current, 4);
    p.tick(42);
    assert_eq!(p.current, 10);
    p.inc();
    assert_eq!(p.current, 10);
    p.tick(9);
    p.inc();
    assert_eq!(p.current, 10);
    let mut s = Progress::spinner("Fetching".to_string());
    assert_eq!((s.current, s.total), (0, 0));
    s.inc();
    assert_eq!(s.current, 0);
}

#[test]
fn progress_finishes_once() {
    let mut p = Progress::new("x".to_string(), 1);
    assert!(p.close());
    assert!(p.finished);
    assert!(!p.close());
}

#[test]
fn the_bar_is_twenty_cells() {
    assert_eq!(progress_bar(0, 0), "────────────────────");
    assert_eq!(progress_bar(5, 10), "██████████░░░░░░░░░░");
    assert_eq!(progress_bar(1, 3), "██████░░░░░░░░░░░░░░");
    assert_eq!(progress_bar(10, 10), "████████████████████");
    for c in 0..=7u64 {
        assert_eq!(progress_bar(c, 7).chars().count(), 20);
    }
}

#[test]
fn the_spinner_turns_every_80ms() {
    assert_eq!(spinner_frame(0), '⠋');
    assert_eq!(spinner_frame(79), '⠋');
    assert_eq!(spinner_frame(80), '⠙');
    assert_eq!(spinner_frame(8 * 80), '⠿');
    assert_eq!(spinner_frame(9 * 80), '⠋');
}
