use fiq::glob::matcher_for;
use fiq::scanner::{
    emit, plan_walk, scan, scan_directory, scan_directory_filtered, scan_directory_names_only,
    walker_threads, wants_metadata, Collector, EntryKind, FileInfo, FileMetadata, ScanMode,
    WalkEntry, BATCH_SIZE, DEFAULT_WALKER_THREADS,
};
use fiq::time::Timestamp;

fn entry(path: &str, depth: usize, kind: EntryKind, size: Option<u64>) -> WalkEntry {
    WalkEntry {
        path: path.to_string(),
        depth,
        kind,
        metadata: size.map(|s| FileMetadata { size: s, modified: Some(Timestamp { secs: 7, nanos: 1 }) }),
    }
}

fn sample() -> Vec<WalkEntry> {
    vec![
        entry("/r", 0, EntryKind::Directory, Some(4096)),
        entry("/r/hello.RS", 1, EntryKind::File, Some(10)),
        entry("/r/.hidden", 1, EntryKind::File, Some(1)),
        entry("", 0, EntryKind::Failed, None),
        entry("/r/sub", 1, EntryKind::Directory, Some(4096)),
        entry("/r/sub/deep.rs", 2, EntryKind::File, Some(20)),
        entry("/r/odd", 1, EntryKind::Unknown, Some(5)),
        entry("/r/unreadable.rs", 1, EntryKind::File, None),
        entry("/r/notes.Tar.GZ", 1, EntryKind::File, Some(30)),
    ]
}

fn paths(files: &[FileInfo]) -> Vec<&str> {
    files.iter().map(|f| f.path.as_str()).collect()
}

#[test]
fn full_scan_records_files_with_metadata_and_extension() {
    let files = scan_directory(&sample(), true);
    assert_eq!(paths(&files), vec!["/r/hello.RS", "/r/.hidden", "/r/sub/deep.rs", "/r/notes.Tar.GZ"]);
    assert!(files.iter().all(|f| !f.is_dir));
    assert_eq!(files[0].size, 10);
    assert_eq!(files[0].modified, Some(Timestamp { secs: 7, nanos: 1 }));
    assert_eq!(files[0].extension.as_deref(), Some("rs"));
    assert_eq!(files[1].extension, None);
    assert_eq!(files[3].extension.as_deref(), Some("gz"));
}

#[test]
fn flat_scan_takes_only_direct_children() {
    let files = scan_directory(&sample(), false);
    assert_eq!(paths(&files), vec!["/r/hello.RS", "/r/.hidden", "/r/notes.Tar.GZ"]);
}

#[test]
fn filtered_scan_matches_names_and_skips_extension() {
    let files = scan_directory_filtered(&sample(), true, Some("*.rs"), false);
    assert_eq!(paths(&files), vec!["/r/sub/deep.rs"]);
    assert_eq!(files[0].size, 20);
    assert_eq!(files[0].extension, None);
}

#[test]
fn filtered_scan_without_pattern_is_a_full_scan() {
    let files = scan_directory_filtered(&sample(), true, None, false);
    assert_eq!(files.len(), 4);
    assert_eq!(files[0].extension.as_deref(), Some("rs"));
}

#[test]
fn pushed_down_pattern_is_not_applied_again() {
    let files = scan_directory_filtered(&sample(), true, Some("*.rs"), true);
    assert_eq!(files.len(), 4);
    assert!(files.iter().all(|f| f.extension.is_none()));
}

#[test]
fn unparsable_pattern_filters_nothing() {
    let files = scan_directory_names_only(&sample(), true, Some("abc["), false);
    assert_eq!(files.len(), 5);
}

#[test]
fn names_only_scan_needs_no_metadata() {
    let files = scan_directory_names_only(&sample(), true, Some("*.rs"), false);
    assert_eq!(paths(&files), vec!["/r/sub/deep.rs", "/r/unreadable.rs"]);
    for f in &files {
        assert_eq!(f.size, 0);
        assert_eq!(f.modified, None);
        assert_eq!(f.extension, None);
        assert!(!f.is_dir);
    }
    let all = scan_directory_names_only(&sample(), true, None, false);
    assert_eq!(all.len(), 5);
}

#[test]
fn scan_of_nothing_is_empty() {
    assert!(scan_directory(&Vec::new(), true).is_empty());
    let only_errors = vec![entry("", 0, EntryKind::Failed, None)];
    assert!(scan_directory(&only_errors, true).is_empty());
}

#[test]
fn scan_membership_does_not_depend_on_order() {
    let mut reversed = sample();
    reversed.reverse();
    let mut a: Vec<String> = scan_directory(&sample(), true).into_iter().map(|f| f.path).collect();
    let mut b: Vec<String> = scan_directory(&reversed, true).into_iter().map(|f| f.path).collect();
    a.sort();
    b.sort();
    assert_eq!(a, b);
}

#[test]
fn scan_hands_over_more_than_one_batch() {
    let many: Vec<WalkEntry> = (0..(2 * BATCH_SIZE + 17))
        .map(|i| entry(&format!("/r/f{}", i), 1, EntryKind::File, Some(i as u64)))
        .collect();
    let files = scan_directory(&many, true);
    assert_eq!(files.len(), 2 * BATCH_SIZE + 17);
    for (i, f) in files.iter().enumerate() {
        assert_eq!(f.size, i as u64);
    }
}

#[test]
fn emit_passes_over_what_is_no_file() {
    let none = None;
    assert!(emit(&entry("/r/d", 1, EntryKind::Directory, Some(1)), true, &none, false, false).is_none());
    assert!(emit(&entry("/r/u", 1, EntryKind::Unknown, Some(1)), true, &none, false, false).is_none());
    assert!(emit(&entry("", 0, EntryKind::Failed, None), true, &none, false, false).is_none());
    assert!(emit(&entry("/r/a/b", 2, EntryKind::File, Some(1)), false, &none, false, false).is_none());
    assert!(emit(&entry("/r/a", 1, EntryKind::File, None), true, &none, false, false).is_none());
    let made = emit(&entry("/r/a", 1, EntryKind::File, None), true, &none, false, true).unwrap();
    assert_eq!(made.size, 0);
    let rs = matcher_for("*.rs");
    assert!(rs.is_some());
    assert!(emit(&entry("/r/a.txt", 1, EntryKind::File, Some(1)), true, &rs, true, false).is_none());
    assert!(emit(&entry("/r/a.rs", 1, EntryKind::File, Some(1)), true, &rs, true, false).is_some());
}

#[test]
fn metadata_is_wanted_after_the_cheap_checks() {
    let none = None;
    let rs = matcher_for("*.rs");
    let file = entry("/r/a.rs", 1, EntryKind::File, None);
    assert!(wants_metadata(&file, true, &none, false));
    assert!(wants_metadata(&file, true, &rs, false));
    assert!(!wants_metadata(&file, true, &rs, true));
    assert!(!wants_metadata(&entry("/r/a.txt", 1, EntryKind::File, None), true, &rs, false));
    assert!(!wants_metadata(&entry("/r/d", 1, EntryKind::Directory, None), true, &none, false));
    assert!(!wants_metadata(&entry("/r/a/b.rs", 2, EntryKind::File, None), false, &none, false));
}

#[test]
fn thread_setting_is_read_as_a_number() {
    assert_eq!(DEFAULT_WALKER_THREADS, 4);
    assert_eq!(walker_threads(None), 4);
    assert_eq!(walker_threads(Some("8")), 8);
    assert_eq!(walker_threads(Some("+2")), 2);
    assert_eq!(walker_threads(Some("0")), 0);
    assert_eq!(walker_threads(Some("")), 4);
    assert_eq!(walker_threads(Some(" 8")), 4);
    assert_eq!(walker_threads(Some("eight")), 4);
    assert_eq!(walker_threads(Some("-1")), 4);
    assert_eq!(walker_threads(Some("99999999999999999999999")), 4);
}

#[test]
fn walk_plan_follows_the_thread_policy() {
    let plain = plan_walk(true, false, false, None, Some(16));
    assert_eq!(plain.max_depth, None);
    assert_eq!(plain.threads, 4);
    assert!(!plain.push_down);
    assert!(!plain.skip_hidden);
    assert!(!plain.ignore_rules);

    let configured = plan_walk(false, false, false, Some("6"), Some(16));
    assert_eq!(configured.max_depth, Some(1));
    assert_eq!(configured.threads, 6);

    let pushed = plan_walk(true, true, true, Some("6"), Some(16));
    assert!(pushed.push_down);
    assert_eq!(pushed.threads, 8);
    assert_eq!(plan_walk(true, true, true, None, Some(3)).threads, 2);
    assert_eq!(plan_walk(true, true, true, None, Some(1)).threads, 2);
    assert_eq!(plan_walk(true, true, true, None, None).threads, 4);

    let manual = plan_walk(true, true, false, Some("6"), Some(16));
    assert!(!manual.push_down);
    assert_eq!(manual.threads, 6);
    assert!(!plan_walk(true, false, true, None, None).push_down);
}

#[test]
fn collector_hands_over_full_batches() {
    let info = |i: usize| FileInfo {
        path: format!("f{}", i),
        size: i as u64,
        modified: None,
        is_dir: false,
        extension: None,
    };
    assert_eq!(BATCH_SIZE, 512);
    let mut collector: Collector<FileInfo> = Collector::new();
    assert!(collector.flush().is_none());
    for i in 0..(BATCH_SIZE - 1) {
        assert!(collector.push(info(i)).is_none());
    }
    let batch = collector.push(info(BATCH_SIZE - 1)).expect("the batch is full");
    assert_eq!(batch.len(), BATCH_SIZE);
    assert_eq!(batch[0].path, "f0");
    assert_eq!(batch[BATCH_SIZE - 1].path, "f511");
    assert!(collector.push(info(1000)).is_none());
    let rest = collector.flush().expect("one record is held back");
    assert_eq!(rest.len(), 1);
    assert_eq!(rest[0].path, "f1000");
    assert!(collector.flush().is_none());
}

#[test]
fn scan_modes_name_the_three_scans() {
    let full = scan(&sample(), true, &ScanMode::Full, false);
    assert_eq!(paths(&full), paths(&scan_directory(&sample(), true)));
    assert!(full[0].extension.is_some());

    let filtered = scan(&sample(), true, &ScanMode::Filtered("*.rs".to_string()), false);
    assert_eq!(paths(&filtered), vec!["/r/sub/deep.rs"]);
    assert_eq!(filtered[0].size, 20);

    let names = scan(&sample(), true, &ScanMode::NamesOnly(Some("*.rs".to_string())), false);
    assert_eq!(paths(&names), vec!["/r/sub/deep.rs", "/r/unreadable.rs"]);
    assert_eq!(names[0].size, 0);

    let all_names = scan(&sample(), false, &ScanMode::NamesOnly(None), false);
    assert_eq!(all_names.len(), 4);
}

#[test]
fn collector_takes_any_item() {
    let mut collector: Collector<u32> = Collector::new();
    let mut handed: Vec<u32> = Vec::new();
    for i in 0..1100u32 {
        if let Some(batch) = collector.push(i) {
            assert_eq!(batch.len(), BATCH_SIZE);
            handed.extend(batch);
        }
    }
    assert_eq!(handed.len(), 1024);
    handed.extend(collector.flush().unwrap());
    assert_eq!(handed, (0..1100).collect::<Vec<u32>>());
}
