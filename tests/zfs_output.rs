use zsnapfree::zfs::snapshots_from_output as parse_listing;
use zsnapfree::zfs::{destroy_target, reclaim_from_output, SnapRange, ZfsError};

#[test]
fn snap_range_commandline() {
    let data = vec![SnapRange::Single("snap1"), SnapRange::Range("snap3", "snap7")];

    assert_eq!(zsnapfree::zfs::snap_range_commandline(&data), "snap1,snap3%snap7");
}

#[test]
fn snapshots_from_output() {
    let stdout: String = "tank/my_filesystem@zfs-auto-snap_monthly-2023-09-01-0552\t22.5M\t-\t274M\t-\n\
tank/my_filesystem@zfs-auto-snap_monthly-2023-10-01-0552\t8.85M\t-\t293M\t-\n\
tank/my_filesystem@zfs-auto-snap_monthly-2023-11-01-0652\t2.58M\t-\t309M\t-\n\
tank/my_filesystem@zfs-auto-snap_monthly-2023-12-01-0652\t2.55M\t-\t309M\t-\n"
        .into();

    assert_eq!(
        zsnapfree::zfs::snapshots_from_output("tank/my_filesystem", &stdout).unwrap(),
        vec![
            "zfs-auto-snap_monthly-2023-09-01-0552",
            "zfs-auto-snap_monthly-2023-10-01-0552",
            "zfs-auto-snap_monthly-2023-11-01-0652",
            "zfs-auto-snap_monthly-2023-12-01-0652",
        ],
    );

    let want_error = zsnapfree::zfs::snapshots_from_output("tank/some_other_filesystem", &stdout);

    if want_error.is_ok() {
        panic!("Wanted 'wrong filesystem', got {:?}", want_error)
    }
}

#[test]
fn serialize_empty_ranges() {
    assert_eq!(zsnapfree::zfs::snap_range_commandline(&[]), "");
}

#[test]
fn serialize_single_range() {
    assert_eq!(zsnapfree::zfs::snap_range_commandline(&[SnapRange::Range("a", "z")]), "a%z");
}

#[test]
fn destroy_target_names_dataset() {
    let data = vec![SnapRange::Single("snap1"), SnapRange::Range("snap3", "snap7")];
    assert_eq!(destroy_target("tank/fs", &data), "tank/fs@snap1,snap3%snap7");
}

#[test]
fn listing_in_order() {
    let out = "tank/fs@snap-A\t1\ntank/fs@snap-B\t2";
    assert_eq!(parse_listing("tank/fs", out).unwrap(), vec!["snap-A", "snap-B"]);
}

#[test]
fn listing_wrong_dataset() {
    let out = "tank/fs@snap-A\t1\ntank/fs@snap-B\t2";
    match parse_listing("tank/other", out) {
        Err(ZfsError::WrongDataset(name)) => assert_eq!(name, "tank/fs@snap-A"),
        other => panic!("unexpected {:?}", other),
    }
}

#[test]
fn listing_prefix_needs_at_sign() {
    let out = "tank/fsx@snap-A\t1\n";
    assert!(matches!(parse_listing("tank/fs", out), Err(ZfsError::WrongDataset(_))));
}

#[test]
fn listing_line_without_tab() {
    let out = "tank/fs@snap-A\t1\ntank/fs@snap-B\n";
    match parse_listing("tank/fs", out) {
        Err(ZfsError::UnexpectedLine(line)) => assert_eq!(line, "tank/fs@snap-B"),
        other => panic!("unexpected {:?}", other),
    }
}

#[test]
fn listing_empty_output() {
    assert_eq!(parse_listing("tank/fs", "").unwrap(), Vec::<String>::new());
}

#[test]
fn listing_crlf_lines() {
    let out = "tank/fs@a\tx\r\ntank/fs@b\ty\r\n";
    assert_eq!(parse_listing("tank/fs", out).unwrap(), vec!["a", "b"]);
}

#[test]
fn reclaim_with_destroys() {
    let r = reclaim_from_output("destroy\tds@s1\ndestroy\tds@s2\nreclaim\t12345").unwrap();
    assert_eq!(r.destroys, vec!["ds@s1", "ds@s2"]);
    assert_eq!(r.bytes, 12345);
}

#[test]
fn reclaim_stops_at_first_reclaim_line() {
    let r = reclaim_from_output("destroy\tds@s1\nreclaim\t7\ndestroy\tds@s2\nreclaim\tx\n").unwrap();
    assert_eq!(r.destroys, vec!["ds@s1"]);
    assert_eq!(r.bytes, 7);
}

#[test]
fn reclaim_ignores_other_lines() {
    let r = reclaim_from_output("would destroy\ndestroy\tds@s1\nreclaim\t+0\n").unwrap();
    assert_eq!(r.destroys, vec!["ds@s1"]);
    assert_eq!(r.bytes, 0);
}

#[test]
fn reclaim_missing() {
    let out = "destroy\tds@s1\ndestroy\tds@s2\n";
    match reclaim_from_output(out) {
        Err(ZfsError::IncompleteOutput(o)) => assert_eq!(o, out),
        other => panic!("unexpected {:?}", other.map(|r| r.bytes)),
    }
}

#[test]
fn reclaim_malformed_bytes() {
    match reclaim_from_output("reclaim\t12a\n") {
        Err(ZfsError::MalformedBytes(f)) => assert_eq!(f, "12a"),
        other => panic!("unexpected {:?}", other.map(|r| r.bytes)),
    }
    assert!(matches!(reclaim_from_output("reclaim\t\n"), Err(ZfsError::MalformedBytes(_))));
    assert!(matches!(reclaim_from_output("reclaim\t-1\n"), Err(ZfsError::MalformedBytes(_))));
    assert!(matches!(reclaim_from_output("reclaim\t+\n"), Err(ZfsError::MalformedBytes(_))));
}

#[test]
fn reclaim_largest_and_overflow() {
    let max = format!("reclaim\t{}\n", usize::MAX);
    assert_eq!(reclaim_from_output(&max).unwrap().bytes, usize::MAX);
    let over = format!("reclaim\t{}0\n", usize::MAX);
    assert!(matches!(reclaim_from_output(&over), Err(ZfsError::MalformedBytes(_))));
}
