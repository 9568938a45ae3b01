use zsnapfree::app::{snap_ranges, Action, App, Event, SnapshotListItem};
use zsnapfree::zfs::SnapRange;
use zsnapfree::zfs::SnapRange::{Range, Single};

fn items_of(marks: &[(&str, bool)]) -> Vec<SnapshotListItem> {
    marks
        .iter()
        .map(|(name, marked)| SnapshotListItem { name: name.to_string(), marked: *marked })
        .collect()
}

fn session(names: &[&str]) -> App {
    App::new("tank/fs", names.iter().map(|n| n.to_string()).collect())
}

#[test]
fn consecutive_snap_ranges() {
    let items: Vec<SnapshotListItem> = items_of(&[
        ("a", false),
        ("b", true),
        ("c", true),
        ("d", true),
        ("e", false),
        ("f", true),
        ("g", true),
        ("h", false),
        ("i", true),
    ]);

    let want = vec![Range("b", "d"), Range("f", "g"), Single("i")];

    assert_eq!(snap_ranges(&items), want);
}

#[test]
fn ranges_of_empty_list() {
    assert_eq!(snap_ranges(&[]), Vec::<SnapRange>::new());
}

#[test]
fn ranges_all_marked() {
    let items = items_of(&[("a", true), ("b", true), ("c", true)]);
    assert_eq!(snap_ranges(&items), vec![Range("a", "c")]);
}

#[test]
fn ranges_none_marked() {
    let items = items_of(&[("a", false), ("b", false)]);
    assert_eq!(snap_ranges(&items), Vec::<SnapRange>::new());
}

#[test]
fn ranges_name_only_marked_items() {
    let items = items_of(&[("a", true), ("b", false), ("c", true), ("d", false)]);
    let ranges = snap_ranges(&items);
    assert_eq!(ranges, vec![Single("a"), Single("c")]);
    let again = snap_ranges(&items);
    assert_eq!(ranges, again);
    assert_eq!(zsnapfree::zfs::snap_range_commandline(&again), "a,c");
}

#[test]
fn new_session_is_clean() {
    let app = session(&["a", "b"]);
    assert_eq!(app.cursor(), None);
    assert!(!app.is_dirty());
    assert!(!app.should_exit());
    assert_eq!(app.items().len(), 2);
    assert_eq!(app.dataset(), "tank/fs");
    assert_eq!(app.result.bytes, 0);
}

#[test]
fn cursor_moves_are_clamped() {
    let mut app = session(&["a", "b", "c"]);
    app.handle_key_event(Action::Next);
    assert_eq!(app.cursor(), Some(0));
    app.handle_key_event(Action::Previous);
    assert_eq!(app.cursor(), Some(0));
    app.handle_key_event(Action::Last);
    assert_eq!(app.cursor(), Some(2));
    app.handle_key_event(Action::Next);
    assert_eq!(app.cursor(), Some(2));
    app.handle_key_event(Action::First);
    assert_eq!(app.cursor(), Some(0));
}

#[test]
fn cursor_on_empty_list() {
    let mut app = session(&[]);
    app.handle_key_event(Action::Next);
    assert_eq!(app.cursor(), None);
    app.handle_key_event(Action::Toggle);
    assert!(!app.is_dirty());
}

#[test]
fn toggle_without_cursor_does_nothing() {
    let mut app = session(&["a"]);
    app.handle_key_event(Action::Toggle);
    assert!(!app.is_dirty());
    assert!(!app.items()[0].marked);
}

#[test]
fn toggle_back_stays_dirty() {
    let mut app = session(&["a", "b", "c"]);
    app.handle_key_event(Action::First);
    app.handle_key_event(Action::Toggle);
    assert!(app.items()[0].marked);
    assert_eq!(app.cursor(), Some(1));
    app.handle_key_event(Action::Previous);
    app.handle_key_event(Action::Toggle);
    assert!(!app.items()[0].marked);
    assert!(app.is_dirty());
}

#[test]
fn inputs_never_ask_for_dry_run() {
    let mut app = session(&["a", "b", "c"]);
    for action in [Action::First, Action::Toggle, Action::Toggle, Action::Previous, Action::Toggle] {
        assert_eq!(app.handle_event(Event::Input(action)), None);
    }
    assert!(app.is_dirty());
}

#[test]
fn one_dry_run_per_idle_period() {
    let mut app = session(&["a", "b", "c", "d"]);
    app.handle_event(Event::Input(Action::First));
    app.handle_event(Event::Input(Action::Toggle));
    app.handle_event(Event::Input(Action::Toggle));
    app.handle_event(Event::Input(Action::Next));
    app.handle_event(Event::Input(Action::Toggle));
    assert_eq!(app.handle_event(Event::Idle), Some("tank/fs@a%b,d".to_string()));
    assert!(!app.is_dirty());
    assert_eq!(app.handle_event(Event::Idle), None);
}

#[test]
fn idle_with_nothing_marked_empties_result() {
    let mut app = session(&["a", "b"]);
    app.handle_key_event(Action::First);
    app.handle_key_event(Action::Toggle);
    assert_eq!(app.recalculate_result(), Some("tank/fs@a".to_string()));
    let answer = zsnapfree::zfs::reclaim_from_output("destroy\ttank/fs@a\nreclaim\t42\n").unwrap();
    app.apply_reclaim(answer);
    assert_eq!(app.result.bytes, 42);
    assert_eq!(app.result.destroys, vec!["tank/fs@a"]);
    app.handle_key_event(Action::First);
    app.handle_key_event(Action::Toggle);
    assert_eq!(app.handle_event(Event::Idle), None);
    assert_eq!(app.result.bytes, 0);
    assert!(app.result.destroys.is_empty());
    assert!(!app.is_dirty());
}

#[test]
fn exit_request() {
    let mut app = session(&["a"]);
    assert_eq!(app.handle_event(Event::Input(Action::Exit)), None);
    assert!(app.should_exit());
}

#[test]
fn equivalent_command_line_shows_selection() {
    let mut app = session(&["s1", "s2", "s3"]);
    app.handle_key_event(Action::Last);
    app.handle_key_event(Action::Toggle);
    assert_eq!(app.equivalent_command_line(), "zfs destroy -nv tank/fs@s3");
}
