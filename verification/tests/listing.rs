use recent_files::date::{is_from_today, local_today, LocalDate};
use recent_files::entry::{is_hidden, timestamp_of_epoch_offset, Entry, RawEntry, Timestamp};
use recent_files::lister::{limit, paths_of, prepare, scan};

fn date(year: i32, month: u32, day: u32) -> LocalDate {
    LocalDate { year, month, day }
}

fn file(path: &str, name: &str, modified: i128, on: LocalDate) -> Entry {
    Entry {
        path: path.to_string(),
        name: Some(name.to_string()),
        is_file: true,
        modified,
        date: on,
    }
}

fn scenario() -> Vec<Entry> {
    let today = date(2024, 5, 20);
    let yesterday = date(2024, 5, 19);
    let before = date(2024, 5, 18);
    vec![
        file("a.txt", "a.txt", 100, before),
        file("b.txt", "b.txt", 200, yesterday),
        file(".hidden", ".hidden", 300, today),
        file("c.txt", "c.txt", 300, today),
    ]
}

#[test]
fn scenario_all_files_newest_first() {
    let listed = paths_of(scan(scenario(), false, date(2024, 5, 20)));
    assert_eq!(
        listed,
        vec!["c.txt".to_string(), "b.txt".to_string(), "a.txt".to_string()]
    );
}

#[test]
fn scenario_today_only() {
    let listed = paths_of(scan(scenario(), true, date(2024, 5, 20)));
    assert_eq!(listed, vec!["c.txt".to_string()]);
}

#[test]
fn scenario_count_one() {
    let listed = paths_of(scan(scenario(), false, date(2024, 5, 20)));
    assert_eq!(limit(listed, Some(1)), vec!["c.txt".to_string()]);
}

#[test]
fn empty_directory_lists_nothing() {
    let listed = paths_of(scan(Vec::new(), false, date(2024, 5, 20)));
    assert!(listed.is_empty());
}

#[test]
fn scan_is_deterministic() {
    let first = paths_of(scan(scenario(), false, date(2024, 5, 20)));
    let second = paths_of(scan(scenario(), false, date(2024, 5, 20)));
    assert_eq!(first, second);
}

#[test]
fn scan_sorts_descending_by_modification_time() {
    let on = date(2024, 5, 20);
    let entries = vec![
        file("old", "old", 10, on),
        file("newest", "newest", 40, on),
        file("mid", "mid", 25, on),
        file("new", "new", 30, on),
    ];
    let listed = paths_of(scan(entries, false, on));
    assert_eq!(
        listed,
        vec![
            "newest".to_string(),
            "new".to_string(),
            "mid".to_string(),
            "old".to_string()
        ]
    );
}

#[test]
fn scan_drops_directories_and_hidden_entries() {
    let on = date(2024, 5, 20);
    let mut directory = file("sub", "sub", 500, on);
    directory.is_file = false;
    let mut nameless = file("odd", "odd", 400, on);
    nameless.name = None;
    let entries = vec![
        directory,
        nameless,
        file(".dotfile", ".dotfile", 300, on),
        file("plain", "plain", 200, on),
    ];
    let listed = paths_of(scan(entries, false, on));
    assert_eq!(listed, vec!["plain".to_string()]);
}

#[test]
fn scan_ties_keep_both_entries() {
    let on = date(2024, 5, 20);
    let entries = vec![file("x", "x", 7, on), file("y", "y", 7, on)];
    let mut listed = paths_of(scan(entries, false, on));
    listed.sort();
    assert_eq!(listed, vec!["x".to_string(), "y".to_string()]);
}

#[test]
fn limit_without_count_is_identity() {
    let paths = vec!["p".to_string(), "q".to_string(), "r".to_string()];
    assert_eq!(limit(paths.clone(), None), paths);
}

#[test]
fn limit_zero_is_empty() {
    let paths = vec!["p".to_string(), "q".to_string()];
    assert!(limit(paths, Some(0)).is_empty());
}

#[test]
fn limit_keeps_min_of_count_and_length() {
    let paths = vec!["p".to_string(), "q".to_string(), "r".to_string()];
    assert_eq!(limit(paths.clone(), Some(2)).len(), 2);
    assert_eq!(limit(paths.clone(), Some(3)).len(), 3);
    assert_eq!(limit(paths, Some(9)).len(), 3);
}

#[test]
fn limit_keeps_leading_paths() {
    let paths = vec!["p".to_string(), "q".to_string(), "r".to_string()];
    assert_eq!(
        limit(paths, Some(2)),
        vec!["p".to_string(), "q".to_string()]
    );
}

#[test]
fn hidden_names_start_with_a_period() {
    assert!(is_hidden(&Some(".bashrc".to_string())));
    assert!(!is_hidden(&Some("notes.txt".to_string())));
    assert!(!is_hidden(&Some(String::new())));
    assert!(is_hidden(&None));
}

#[test]
fn same_date_counts_as_today() {
    let a = date(2024, 5, 20);
    let b = date(2024, 5, 20);
    let c = date(2024, 5, 21);
    assert!(is_from_today(&a, &b));
    assert!(!is_from_today(&a, &c));
}

#[test]
fn todays_date_is_well_formed() {
    let today = local_today();
    assert!((1..=12).contains(&today.month));
    assert!((1..=31).contains(&today.day));
}

#[test]
fn prepare_keeps_readable_entries_and_flattens_the_instant() {
    let raw = vec![RawEntry {
        path: "kept.txt".to_string(),
        name: Some("kept.txt".to_string()),
        is_file: true,
        modified: Some(Timestamp {
            secs: 1_000_000,
            nanos: 500,
        }),
    }];
    let prepared = prepare(raw);
    assert_eq!(prepared.len(), 1);
    assert_eq!(prepared[0].path, "kept.txt");
    assert_eq!(prepared[0].name, Some("kept.txt".to_string()));
    assert!(prepared[0].is_file);
    assert_eq!(prepared[0].modified, 1_000_000i128 * 1_000_000_000 + 500);
    assert!((1..=12).contains(&prepared[0].date.month));
    assert!((1..=31).contains(&prepared[0].date.day));
}

#[test]
fn prepare_keeps_readable_entries_in_input_order() {
    let raw = vec![
        RawEntry {
            path: "first".to_string(),
            name: Some("first".to_string()),
            is_file: true,
            modified: Some(Timestamp { secs: 20, nanos: 0 }),
        },
        RawEntry {
            path: "unreadable".to_string(),
            name: Some("unreadable".to_string()),
            is_file: true,
            modified: None,
        },
        RawEntry {
            path: "second".to_string(),
            name: Some("second".to_string()),
            is_file: true,
            modified: Some(Timestamp { secs: 10, nanos: 0 }),
        },
    ];
    let prepared = prepare(raw);
    assert_eq!(prepared.len(), 2);
    assert_eq!(prepared[0].path, "first");
    assert_eq!(prepared[1].path, "second");
}

#[test]
fn epoch_offsets_normalize_with_a_borrow_before_the_epoch() {
    assert_eq!(
        timestamp_of_epoch_offset(false, 5, 250),
        Some(Timestamp { secs: 5, nanos: 250 })
    );
    assert_eq!(
        timestamp_of_epoch_offset(true, 5, 0),
        Some(Timestamp { secs: -5, nanos: 0 })
    );
    assert_eq!(
        timestamp_of_epoch_offset(true, 5, 250),
        Some(Timestamp {
            secs: -6,
            nanos: 999_999_750
        })
    );
    assert_eq!(timestamp_of_epoch_offset(false, u64::MAX, 0), None);
    assert_eq!(timestamp_of_epoch_offset(false, 1, 1_000_000_000), None);
}

#[test]
fn prepare_skips_entries_without_a_readable_instant() {
    let raw = vec![
        RawEntry {
            path: "no-metadata".to_string(),
            name: Some("no-metadata".to_string()),
            is_file: true,
            modified: None,
        },
        RawEntry {
            path: "out-of-range".to_string(),
            name: Some("out-of-range".to_string()),
            is_file: true,
            modified: Some(Timestamp {
                secs: i64::MAX,
                nanos: 0,
            }),
        },
    ];
    assert!(prepare(raw).is_empty());
}
