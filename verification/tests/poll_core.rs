use holosocket::ids::{diff, ids_contain, IdSet};
use holosocket::events::{isize_to_string, make_events, LiveEvent};
use holosocket::excerpt::{error_excerpt, nth_line};
use holosocket::state::JetriLive;

#[test]
fn diff_basic() {
    let previous = IdSet::from_ids(&vec![1, 2, 3]);
    let (added, removed) = diff(&previous, &vec![2, 3, 4]);
    assert_eq!(added, vec![4]);
    assert_eq!(removed, vec![1]);
}

#[test]
fn diff_empty_baseline() {
    let previous = IdSet::empty();
    let (added, removed) = diff(&previous, &vec![10, 11]);
    assert_eq!(added, vec![10, 11]);
    assert_eq!(removed, Vec::<isize>::new());
}

#[test]
fn diff_all_removed() {
    let previous = IdSet::from_ids(&vec![5, 6]);
    let (added, removed) = diff(&previous, &vec![]);
    assert_eq!(added, Vec::<isize>::new());
    assert_eq!(removed, vec![5, 6]);
}

#[test]
fn diff_repeated_current_ids() {
    let previous = IdSet::from_ids(&vec![1, 1, 2]);
    assert_eq!(previous.len(), 2);
    let (added, removed) = diff(&previous, &vec![5, 5, 2]);
    assert_eq!(added, vec![5, 5]);
    assert_eq!(removed, vec![1]);
}

#[test]
fn diff_converges_after_baseline_update() {
    let previous = IdSet::from_ids(&vec![1, 2, 3]);
    let current = vec![2, 3, 4];
    let (added, removed) = diff(&previous, &current);
    assert_eq!(added, vec![4]);
    assert_eq!(removed, vec![1]);
    let updated = IdSet::from_ids(&current);
    let (added2, removed2) = diff(&updated, &current);
    assert!(added2.is_empty());
    assert!(removed2.is_empty());
}

#[test]
fn id_set_contains_and_clear() {
    let mut s = IdSet::from_ids(&vec![7, -3]);
    assert!(s.contains(7));
    assert!(s.contains(-3));
    assert!(!s.contains(0));
    s.clear();
    assert_eq!(s.len(), 0);
    assert!(!s.contains(7));
}

#[test]
fn ids_contain_scans_whole_vector() {
    assert!(ids_contain(&vec![1, 2, 3], 3));
    assert!(!ids_contain(&vec![1, 2, 3], 4));
    assert!(!ids_contain(&vec![], 0));
}

#[test]
fn make_events_adds_then_removals() {
    let previous = IdSet::from_ids(&vec![7]);
    let events = make_events(
        &previous,
        &vec![1],
        &vec![String::from("payload-one")],
        "live_add",
        "live_rem",
    );
    assert_eq!(events.len(), 2);
    assert_eq!(events[0].event_type, "live_add");
    assert_eq!(events[0].json, "payload-one");
    assert_eq!(events[1].event_type, "live_rem");
    assert_eq!(events[1].json, "7");
}

#[test]
fn make_events_keeps_known_ids_quiet() {
    let previous = IdSet::from_ids(&vec![1, 2]);
    let events = make_events(
        &previous,
        &vec![1, 2],
        &vec![String::from("a"), String::from("b")],
        "live_add",
        "live_rem",
    );
    assert!(events.is_empty());
}

#[test]
fn make_events_renders_negative_removed_id() {
    let previous = IdSet::from_ids(&vec![-12]);
    let events = make_events(&previous, &vec![], &vec![], "ended_add", "ended_rem");
    assert_eq!(events.len(), 1);
    assert_eq!(events[0].event_type, "ended_rem");
    assert_eq!(events[0].json, "-12");
}

#[test]
fn isize_renders_as_decimal() {
    assert_eq!(isize_to_string(0), "0");
    assert_eq!(isize_to_string(-7), "-7");
    assert_eq!(isize_to_string(12345), "12345");
}

#[test]
fn event_duplicate_keeps_fields() {
    let ev = LiveEvent { event_type: String::from("live_add"), json: String::from("{}") };
    let copy = ev.duplicate();
    assert_eq!(copy.event_type, "live_add");
    assert_eq!(copy.json, "{}");
}

#[test]
fn nth_line_picks_the_right_line() {
    let body = "ab\ncdef\ng";
    assert_eq!(nth_line(body, 0), Some(String::from("ab")));
    assert_eq!(nth_line(body, 1), Some(String::from("cdef")));
    assert_eq!(nth_line(body, 2), Some(String::from("g")));
    assert_eq!(nth_line(body, 3), None);
}

#[test]
fn nth_line_of_empty_text() {
    assert_eq!(nth_line("", 0), Some(String::from("")));
    assert_eq!(nth_line("", 1), None);
}

#[test]
fn excerpt_is_clamped_to_the_line() {
    assert_eq!(error_excerpt("abcdefghij", 7), "cdefghij");
    assert_eq!(error_excerpt("abcdefghij", 3), "abcdefghij");
    assert_eq!(error_excerpt("abc", 50), "");
}

#[test]
fn excerpt_never_splits_a_character() {
    let line = "ééééééééééé";
    let cut = error_excerpt(line, 6);
    assert_eq!(cut.chars().count(), 10);
    assert!(cut.chars().all(|c| c == 'é'));
}

#[test]
fn default_snapshot_is_empty() {
    let snap = JetriLive::default();
    assert!(snap.live.is_empty());
    assert!(snap.upcoming.is_empty());
    assert!(snap.ended.is_empty());
}
