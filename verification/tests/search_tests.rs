use fiq::duplicates::ReadMethod;
use fiq::index::TrigramIndex;
use fiq::index_cache::try_indexed_search;
use fiq::scanner::{FileInfo, ScanMode};
use fiq::search::{
    content_read_method, index_usable, matching_lines, parse_filters, parse_scaled, parse_size, parse_time,
    passes_filters, plan_search, run_search, search_content, select_files, show_line,
    size_from_text, time_from_text, walk_mode, ContentMatch, Filters, SearchParams, SearchPlan,
};
use fiq::time::Timestamp;

fn at(secs: i64) -> Timestamp {
    Timestamp { secs, nanos: 0 }
}

fn record(path: &str, size: u64, modified: Option<i64>) -> FileInfo {
    FileInfo {
        path: path.to_string(),
        size,
        modified: modified.map(at),
        is_dir: false,
        extension: None,
    }
}

fn params<'a>() -> SearchParams<'a> {
    SearchParams {
        directory: "/r",
        name_pattern: None,
        content_query: None,
        min_size: None,
        max_size: None,
        newer: None,
        older: None,
        recursive: true,
    }
}

#[test]
fn size_parser_reads_units_in_powers_of_1000() {
    assert_eq!(parse_size("1KB"), Some(1000));
    assert_eq!(parse_size("10MB"), Some(10_000_000));
    assert_eq!(parse_size("1.5GB"), Some(1_500_000_000));
    assert_eq!(parse_size("42"), Some(42));
    assert_eq!(parse_size("garbage"), None);
}

#[test]
fn size_parser_details() {
    assert_eq!(parse_size("  7kb "), Some(7000));
    assert_eq!(parse_size("3 mb"), Some(3_000_000));
    assert_eq!(parse_size("12B"), Some(12));
    assert_eq!(parse_size("1.9B"), Some(1));
    assert_eq!(parse_size("0.5KB"), Some(500));
    assert_eq!(parse_size(".5KB"), Some(500));
    assert_eq!(parse_size("5.KB"), Some(5000));
    assert_eq!(parse_size("0.0004KB"), Some(0));
    assert_eq!(parse_size("1.23456789012GB"), Some(1_234_567_890));
    assert_eq!(parse_size("+3"), Some(3));
    assert_eq!(parse_size("+3KB"), Some(3000));
    assert_eq!(parse_size("0"), Some(0));
    assert_eq!(parse_size("18446744073709551615"), Some(u64::MAX));
    assert_eq!(parse_size("18446744073709551616"), None);
    assert_eq!(parse_size("18446744073709551616B"), Some(u64::MAX));
    assert_eq!(parse_size("99999999999999999999GB"), Some(u64::MAX));
    assert_eq!(parse_size(""), None);
    assert_eq!(parse_size("KB"), None);
    assert_eq!(parse_size(".KB"), None);
    assert_eq!(parse_size("1.2.3KB"), None);
    assert_eq!(parse_size("-1KB"), None);
    assert_eq!(parse_size("1TB"), None);
    assert_eq!(parse_size("1 K B"), None);
    assert_eq!(size_from_text("1kb"), None);
    assert_eq!(size_from_text("1KB"), Some(1000));
    assert_eq!(parse_scaled(b"12.345", 2), Some(1234));
    assert_eq!(parse_scaled(b"12", 3), Some(12000));
    assert_eq!(parse_scaled(b"x", 3), None);
}

#[test]
fn time_parser_reads_dates_and_spans() {
    let now = Timestamp { secs: 1_700_000_000, nanos: 123 };
    assert_eq!(parse_time("2024-01-01", now), Some(at(1_704_067_200)));
    assert_eq!(parse_time(" 1970-01-01 ", now), Some(at(0)));
    assert_eq!(parse_time("1969-12-31", now), None);
    assert_eq!(parse_time("7d", now), Some(Timestamp { secs: 1_700_000_000 - 7 * 86_400, nanos: 123 }));
    assert_eq!(parse_time("24h", now), Some(Timestamp { secs: 1_700_000_000 - 86_400, nanos: 123 }));
    assert_eq!(parse_time("30m", now), Some(Timestamp { secs: 1_700_000_000 - 1_800, nanos: 123 }));
    assert_eq!(parse_time(" 3 d", now), Some(Timestamp { secs: 1_700_000_000 - 3 * 86_400, nanos: 123 }));
    assert_eq!(parse_time("0m", now), Some(now));
    assert_eq!(parse_time("2024-13-45", now), None);
    assert_eq!(parse_time("2024/01/01", now), None);
    assert_eq!(parse_time("7", now), None);
    assert_eq!(parse_time("d", now), None);
    assert_eq!(parse_time("7w", now), None);
    assert_eq!(parse_time("-7d", now), None);
    assert_eq!(parse_time("", now), None);
    assert_eq!(parse_time("18446744073709551615d", now), None);
    assert_eq!(parse_time("9223372036854775807m", now), None);
    assert_eq!(
        parse_time("100000000000m", now),
        Some(Timestamp { secs: 1_700_000_000 - 6_000_000_000_000, nanos: 123 })
    );
    assert_eq!(time_from_text("7d ", now), None);
    assert_eq!(time_from_text(" 2024-01-01", now), None);
}

#[test]
fn planner_chooses_the_cheapest_way() {
    let mut p = params();
    assert_eq!(plan_search(&p), SearchPlan::NamesOnly);
    p.name_pattern = Some("*.rs");
    assert_eq!(plan_search(&p), SearchPlan::Indexed);
    p.name_pattern = Some("*.c");
    assert_eq!(plan_search(&p), SearchPlan::NamesOnly);
    p.name_pattern = Some("*.rs");
    p.recursive = false;
    assert_eq!(plan_search(&p), SearchPlan::NamesOnly);
    p.recursive = true;
    p.min_size = Some("1KB");
    assert_eq!(plan_search(&p), SearchPlan::Filtered);
    for i in 0..5 {
        let mut q = params();
        match i {
            0 => q.min_size = Some("garbage"),
            1 => q.max_size = Some("1"),
            2 => q.newer = Some("7d"),
            3 => q.older = Some("7d"),
            _ => q.content_query = Some("x"),
        }
        assert_eq!(plan_search(&q), SearchPlan::Filtered);
    }
    assert!(index_usable("*.rs", true));
    assert!(!index_usable("*.rs", false));
    assert!(!index_usable("*.c", true));
}

#[test]
fn filters_apply_size_then_date() {
    let now = at(1_000_000);
    let mut p = params();
    p.min_size = Some("1KB");
    p.max_size = Some("2KB");
    p.newer = Some("1h");
    p.older = Some("10m");
    let filters = parse_filters(&p, now);
    assert_eq!(filters.min_bytes, Some(1000));
    assert_eq!(filters.max_bytes, Some(2000));
    assert_eq!(filters.newer, Some(at(1_000_000 - 3600)));
    assert_eq!(filters.older, Some(at(1_000_000 - 600)));

    let files = vec![
        record("too small", 999, Some(999_000)),
        record("lower edge", 1000, Some(1_000_000 - 3600)),
        record("upper edge", 2000, Some(1_000_000 - 600)),
        record("too big", 2001, Some(999_000)),
        record("too old", 1500, Some(1_000_000 - 3601)),
        record("too new", 1500, Some(1_000_000 - 599)),
        record("no time", 1500, None),
        record("fine", 1500, Some(999_000)),
    ];
    assert_eq!(select_files(&files, &filters), vec![1, 2, 7]);
    assert!(passes_filters(&files[7], &filters));
    assert!(!passes_filters(&files[6], &filters));

    let open = Filters { min_bytes: None, max_bytes: None, newer: None, older: None };
    assert_eq!(select_files(&files, &open), vec![0, 1, 2, 3, 4, 5, 6, 7]);
}

#[test]
fn unreadable_filter_texts_are_ignored() {
    let mut p = params();
    p.min_size = Some("garbage");
    p.newer = Some("yesterday");
    let filters = parse_filters(&p, at(0));
    assert_eq!(filters.min_bytes, None);
    assert_eq!(filters.newer, None);
    let files = vec![record("a", 1, None)];
    let result = run_search(&files, &p, at(0), Vec::new());
    assert_eq!(result.total_matches, 1);
    assert_eq!(result.files_scanned, 1);
}

#[test]
fn search_by_size_reports_files_within_bounds() {
    let files = vec![record("/r/a", 1, None), record("/r/b", 50, None), record("/r/c", 101, None)];
    let mut p = params();
    p.min_size = Some("1");
    p.max_size = Some("100");
    let result = run_search(&files, &p, at(0), Vec::new());
    assert_eq!(result.files_scanned, 3);
    assert_eq!(result.total_matches, 2);
    assert_eq!(result.matches[0].path, "/r/a");
    assert_eq!(result.matches[1].path, "/r/b");
    assert_eq!(result.matches[1].size, 50);
    assert!(result.matches[1].content_matches.is_none());
}

#[test]
fn search_by_content_reports_files_with_matching_lines() {
    let files = vec![record("/r/hello.txt", 13, None), record("/r/other.txt", 9, None), record("/r/gone.txt", 5, None)];
    let mut p = params();
    p.content_query = Some("Hello");
    let found = vec![
        search_content(Some(b"Hello, world!"), "Hello"),
        search_content(Some(b"nothing\n!"), "Hello"),
        search_content(None, "Hello"),
    ];
    let result = run_search(&files, &p, at(0), found);
    assert_eq!(result.files_scanned, 3);
    assert_eq!(result.total_matches, 1);
    assert_eq!(result.matches[0].path, "/r/hello.txt");
    let lines = result.matches[0].content_matches.as_ref().unwrap();
    assert_eq!(lines.len(), 1);
    assert_eq!(lines[0].line_number, 1);
    assert_eq!(lines[0].line, "Hello, world!");
}

#[test]
fn content_results_beyond_those_handed_in_count_as_none() {
    let files = vec![record("/r/a", 1, None), record("/r/b", 1, None)];
    let mut p = params();
    p.content_query = Some("x");
    let found = vec![Some(vec![ContentMatch { line_number: 3, line: "x".to_string() }])];
    let result = run_search(&files, &p, at(0), found);
    assert_eq!(result.total_matches, 1);
    assert_eq!(result.matches[0].path, "/r/a");
}

#[test]
fn matching_lines_are_numbered_and_limited() {
    let text = "first\nSecond needle\r\nthird\n\nNEEDLE again\nlast needle";
    let found = matching_lines(text, "Needle").unwrap();
    let got: Vec<(usize, &str)> = found.iter().map(|m| (m.line_number, m.line.as_str())).collect();
    assert_eq!(got, vec![(2, "Second needle"), (5, "NEEDLE again"), (6, "last needle")]);
    assert!(matching_lines(text, "absent").is_none());
    assert!(matching_lines("", "x").is_none());

    let many: String = (1..=25).map(|i| format!("hit {}\n", i)).collect();
    let found = matching_lines(&many, "hit").unwrap();
    assert_eq!(found.len(), 10);
    assert_eq!(found[9].line_number, 10);
    assert_eq!(found[9].line, "hit 10");
    assert_eq!(matching_lines("a\nb", "").unwrap().len(), 2);
}

#[test]
fn long_lines_are_cut_on_a_character_boundary() {
    let short = "x".repeat(200);
    assert_eq!(show_line(&short), short);
    let long = "x".repeat(201);
    assert_eq!(show_line(&long), format!("{}...", "x".repeat(200)));
    // 199 bytes, then a character of two bytes that straddles byte 200.
    let straddle = format!("{}\u{e9}tail", "y".repeat(199));
    assert_eq!(show_line(&straddle), format!("{}...", "y".repeat(199)));
    let inside = format!("{}\u{e9}tail", "y".repeat(198));
    assert_eq!(show_line(&inside), format!("{}\u{e9}...", "y".repeat(198)));
    let wide = "\u{1F600}".repeat(60);
    assert_eq!(show_line(&wide), format!("{}...", "\u{1F600}".repeat(50)));
}

#[test]
fn content_is_read_as_text_as_far_as_it_goes() {
    let invalid: &[u8] = b"needle \xff\xfe\nplain needle";
    let found = search_content(Some(invalid), "needle").unwrap();
    assert_eq!(found.len(), 2);
    assert_eq!(found[0].line, "needle \u{fffd}\u{fffd}");
    assert_eq!(found[1].line_number, 2);
    assert!(search_content(Some(b"\xff\xfe"), "needle").is_none());
    assert!(search_content(None, "needle").is_none());
}

#[test]
fn content_is_mapped_from_the_threshold_on() {
    assert_eq!(content_read_method(0), ReadMethod::Whole);
    assert_eq!(content_read_method(131_071), ReadMethod::Whole);
    assert_eq!(content_read_method(131_072), ReadMethod::Mapped);
    assert_eq!(content_read_method(u64::MAX), ReadMethod::Mapped);
}

#[test]
fn indexed_search_reports_paths_without_sizes() {
    let files = vec![record("/r/main.rs", 10, None), record("/r/lib.rs", 20, None), record("/r/a.txt", 5, None)];
    let index = TrigramIndex::build("/r", &files, at(1));
    let result = try_indexed_search(&index, "*.rs", true).expect("the index serves the pattern");
    assert_eq!(result.total_matches, 2);
    assert_eq!(result.files_scanned, 3);
    assert_eq!(result.matches[0].path, "/r/main.rs");
    assert_eq!(result.matches[1].path, "/r/lib.rs");
    assert_eq!(result.matches[0].size, 0);
    assert!(result.matches[0].content_matches.is_none());
    assert!(try_indexed_search(&index, "*.rs", false).is_none());
    assert!(try_indexed_search(&index, "*.c", true).is_none());
    assert_eq!(try_indexed_search(&index, "*.xyz", true).unwrap().total_matches, 0);
}

#[test]
fn walks_read_metadata_only_where_a_filter_needs_it() {
    let mut p = params();
    assert!(matches!(walk_mode(&p), ScanMode::NamesOnly(None)));
    p.name_pattern = Some("*.c");
    assert!(matches!(walk_mode(&p), ScanMode::NamesOnly(Some(ref pattern)) if pattern == "*.c"));
    p.content_query = Some("x");
    assert!(matches!(walk_mode(&p), ScanMode::Filtered(ref pattern) if pattern == "*.c"));
    p.name_pattern = None;
    assert!(matches!(walk_mode(&p), ScanMode::Full));
}
