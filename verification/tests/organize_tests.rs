use fiq::organize::{
    categorize_by_date, categorize_by_size, categorize_by_type, falls_back_to_copy, plan_move,
    rename_candidate, resolve_collision, resolve_next, run_organize, should_skip, Resolution,
};
use fiq::scanner::FileInfo;

fn item(path: &str, size: u64, ext: Option<&str>) -> FileInfo {
    FileInfo {
        path: path.to_string(),
        size,
        modified: None,
        is_dir: false,
        extension: ext.map(|e| e.to_string()),
    }
}

#[test]
fn types_map_to_folders() {
    assert_eq!(categorize_by_type("jpg"), "Images");
    assert_eq!(categorize_by_type("tif"), "Images");
    assert_eq!(categorize_by_type("webm"), "Videos");
    assert_eq!(categorize_by_type("m4a"), "Audio");
    assert_eq!(categorize_by_type("txt"), "Documents");
    assert_eq!(categorize_by_type("md"), "Documents");
    assert_eq!(categorize_by_type("zst"), "Archives");
    assert_eq!(categorize_by_type("rs"), "Code");
    assert_eq!(categorize_by_type("clj"), "Code");
    assert_eq!(categorize_by_type("r"), "Code");
    assert_eq!(categorize_by_type("bin"), "Executables");
    assert_eq!(categorize_by_type("woff2"), "Fonts");
    assert_eq!(categorize_by_type("qcow2"), "DiskImages");
    assert_eq!(categorize_by_type(""), "Other");
    assert_eq!(categorize_by_type("RS"), "Other");
    assert_eq!(categorize_by_type("unknown"), "Other");
}

#[test]
fn sizes_map_to_folders() {
    assert_eq!(categorize_by_size(0), "Empty");
    assert_eq!(categorize_by_size(1), "Tiny (< 1KB)");
    assert_eq!(categorize_by_size(999), "Tiny (< 1KB)");
    assert_eq!(categorize_by_size(1_000), "Small (1KB-1MB)");
    assert_eq!(categorize_by_size(999_999), "Small (1KB-1MB)");
    assert_eq!(categorize_by_size(1_000_000), "Medium (1MB-100MB)");
    assert_eq!(categorize_by_size(99_999_999), "Medium (1MB-100MB)");
    assert_eq!(categorize_by_size(100_000_000), "Large (100MB-1GB)");
    assert_eq!(categorize_by_size(999_999_999), "Large (100MB-1GB)");
    assert_eq!(categorize_by_size(1_000_000_000), "Huge (> 1GB)");
    assert_eq!(categorize_by_size(u64::MAX), "Huge (> 1GB)");
}

#[test]
fn months_map_to_folders() {
    assert_eq!(categorize_by_date(None), "Unknown");
    assert_eq!(categorize_by_date(Some((2024, 3))), "2024/03");
    assert_eq!(categorize_by_date(Some((1999, 12))), "1999/12");
    assert_eq!(categorize_by_date(Some((987, 1))), "0987/01");
    assert_eq!(categorize_by_date(Some((0, 1))), "0000/01");
    assert_eq!(categorize_by_date(Some((10000, 1))), "+10000/01");
    assert_eq!(categorize_by_date(Some((-1, 6))), "-0001/06");
    assert_eq!(categorize_by_date(Some((-12345, 6))), "-12345/06");
    assert_eq!(
        categorize_by_date(Some((2024, 3))),
        chrono::NaiveDate::from_ymd_opt(2024, 3, 1).unwrap().format("%Y/%m").to_string()
    );
    assert_eq!(
        categorize_by_date(Some((-1, 6))),
        chrono::NaiveDate::from_ymd_opt(-1, 6, 1).unwrap().format("%Y/%m").to_string()
    );
    assert_eq!(
        categorize_by_date(Some((12345, 11))),
        chrono::NaiveDate::from_ymd_opt(12345, 11, 1).unwrap().format("%Y/%m").to_string()
    );
}

#[test]
fn renamed_names_keep_stem_and_extension() {
    assert_eq!(rename_candidate("/out/Code/main.rs", 1), "main_1.rs");
    assert_eq!(rename_candidate("/out/Code/main.rs", 999), "main_999.rs");
    assert_eq!(rename_candidate("/out/Other/Makefile", 2), "Makefile_2");
    assert_eq!(rename_candidate("/out/a.tar.gz", 10), "a.tar_10.gz");
    assert_eq!(rename_candidate("/out/.hidden", 3), ".hidden_3");
    assert_eq!(rename_candidate("/", 3), "file_3");
    assert_eq!(rename_candidate("x", 0), "x_0");
    assert_eq!(rename_candidate("x", 18_446_744_073_709_551_615), "x_18446744073709551615");
}

fn used(step: Resolution) -> String {
    match step {
        Resolution::Use(path) => path,
        Resolution::Probe { .. } => panic!("expected a decision"),
    }
}

fn probed(step: Resolution) -> (String, u32) {
    match step {
        Resolution::Probe { candidate, attempt } => (candidate, attempt),
        Resolution::Use(_) => panic!("expected a probe"),
    }
}

#[test]
fn collisions_resolve_by_mode() {
    assert_eq!(used(resolve_collision("/out/a.txt", "rename", false)), "/out/a.txt");
    assert_eq!(used(resolve_collision("/out/a.txt", "overwrite", true)), "/out/a.txt");
    assert_eq!(used(resolve_collision("/out/a.txt", "skip", true)), "/out/a.txt");
    assert_eq!(probed(resolve_collision("/out/a.txt", "rename", true)), ("/out/a_1.txt".to_string(), 1));
    assert_eq!(probed(resolve_collision("/out/a.txt", "other", true)), ("/out/a_1.txt".to_string(), 1));
    assert_eq!(probed(resolve_collision("a.txt", "rename", true)), ("a_1.txt".to_string(), 1));

    assert_eq!(used(resolve_next("/out/a.txt", 1, false)), "/out/a_1.txt");
    assert_eq!(probed(resolve_next("/out/a.txt", 1, true)), ("/out/a_2.txt".to_string(), 2));
    assert_eq!(probed(resolve_next("/out/a.txt", 998, true)), ("/out/a_999.txt".to_string(), 999));
    assert_eq!(used(resolve_next("/out/a.txt", 999, false)), "/out/a_999.txt");
    assert_eq!(used(resolve_next("/out/a.txt", 999, true)), "/out/a.txt");
}

#[test]
fn collision_probing_ends_with_the_first_free_name() {
    let taken = ["/out/a.txt", "/out/a_1.txt", "/out/a_2.txt"];
    let mut step = resolve_collision("/out/a.txt", "rename", taken.contains(&"/out/a.txt"));
    let mut rounds = 0;
    let target = loop {
        match step {
            Resolution::Use(path) => break path,
            Resolution::Probe { candidate, attempt } => {
                rounds += 1;
                step = resolve_next("/out/a.txt", attempt, taken.contains(&candidate.as_str()));
            }
        }
    };
    assert_eq!(target, "/out/a_3.txt");
    assert_eq!(rounds, 3);

    // Every candidate is taken: after 999 attempts the destination itself is used.
    let mut step = resolve_collision("/out/a.txt", "rename", true);
    let mut rounds = 0;
    let target = loop {
        match step {
            Resolution::Use(path) => break path,
            Resolution::Probe { attempt, .. } => {
                rounds += 1;
                step = resolve_next("/out/a.txt", attempt, true);
            }
        }
    };
    assert_eq!(target, "/out/a.txt");
    assert_eq!(rounds, 999);
}

#[test]
fn plan_move_gives_the_destination() {
    let file = item("/in/main.rs", 10, Some("rs"));
    let dest = plan_move(&file, "type", "/out", None).unwrap().unwrap();
    assert_eq!(dest.directory, "/out/Code");
    assert_eq!(dest.path, "/out/Code/main.rs");
    let dest = plan_move(&file, "size", "/out", None).unwrap().unwrap();
    assert_eq!(dest.path, "/out/Tiny (< 1KB)/main.rs");
    let dest = plan_move(&file, "date", "/out", Some((2024, 2))).unwrap().unwrap();
    assert_eq!(dest.path, "/out/2024/02/main.rs");
    let dest = plan_move(&file, "date", "/out", None).unwrap().unwrap();
    assert_eq!(dest.path, "/out/Unknown/main.rs");
    assert_eq!(plan_move(&file, "colour", "/out", None).unwrap_err(), "Unknown strategy: colour");
    let placed = item("/out/Code/main.rs", 10, Some("rs"));
    assert!(plan_move(&placed, "type", "/out", None).unwrap().is_none());
    let bare = item("/in/README", 10, None);
    assert_eq!(plan_move(&bare, "type", "/out", None).unwrap().unwrap().path, "/out/Other/README");
}

#[test]
fn organize_dry_run() {
    let files = vec![
        item("/in/hello.txt", 13, Some("txt")),
        item("/in/main.rs", 30, Some("rs")),
        item("/in/sub/main.rs", 31, Some("rs")),
        item("/in/Code/lib.rs", 5, Some("rs")),
        item("/in/deep/main.rs", 32, Some("rs")),
        item("/in/x", 1, None),
    ];
    let result = run_organize(&files, "type", "rename", "/in", &Vec::new());
    assert!(result.dry_run);
    assert_eq!(result.total_files, 6);
    assert!(result.errors.is_empty());
    let moves: Vec<(&str, &str, u64)> =
        result.moves.iter().map(|m| (m.from.as_str(), m.to.as_str(), m.size)).collect();
    assert_eq!(
        moves,
        vec![
            ("/in/hello.txt", "/in/Documents/hello.txt", 13),
            ("/in/main.rs", "/in/Code/main.rs", 30),
            ("/in/sub/main.rs", "/in/Code/main_1.rs", 31),
            ("/in/deep/main.rs", "/in/Code/main_2.rs", 32),
            ("/in/x", "/in/Other/x", 1),
        ]
    );
}

#[test]
fn organize_by_size_and_date() {
    let files = vec![item("/in/a", 0, None), item("/in/b", 500, None), item("/in/c", 5_000, None)];
    let result = run_organize(&files, "size", "skip", "/out", &Vec::new());
    let to: Vec<&str> = result.moves.iter().map(|m| m.to.as_str()).collect();
    assert_eq!(to, vec!["/out/Empty/a", "/out/Tiny (< 1KB)/b", "/out/Small (1KB-1MB)/c"]);

    let months = vec![Some((2023, 12)), None];
    let result = run_organize(&files, "date", "rename", "/out", &months);
    let to: Vec<&str> = result.moves.iter().map(|m| m.to.as_str()).collect();
    assert_eq!(to, vec!["/out/2023/12/a", "/out/Unknown/b", "/out/Unknown/c"]);
}

#[test]
fn organize_other_modes_do_not_rename() {
    let files = vec![item("/a/x.rs", 1, Some("rs")), item("/b/x.rs", 2, Some("rs"))];
    for mode in ["skip", "overwrite"] {
        let result = run_organize(&files, "type", mode, "/out", &Vec::new());
        let to: Vec<&str> = result.moves.iter().map(|m| m.to.as_str()).collect();
        assert_eq!(to, vec!["/out/Code/x.rs", "/out/Code/x.rs"]);
    }
}

#[test]
fn organize_unknown_strategy_reports_every_file() {
    let files = vec![item("/a/x.rs", 1, Some("rs")), item("/b/y.rs", 2, Some("rs"))];
    let result = run_organize(&files, "colour", "rename", "/out", &Vec::new());
    assert_eq!(result.total_files, 2);
    assert!(result.moves.is_empty());
    assert_eq!(result.errors, vec!["Unknown strategy: colour".to_string(); 2]);
}

#[test]
fn taken_destinations_are_skipped_only_under_skip() {
    assert!(should_skip("skip", true));
    assert!(!should_skip("skip", false));
    assert!(!should_skip("rename", true));
    assert!(!should_skip("overwrite", true));
    assert!(!should_skip("Skip", true));
}

#[test]
fn renames_across_devices_fall_back_to_copying() {
    assert!(falls_back_to_copy(true, None));
    assert!(falls_back_to_copy(false, Some(18)));
    assert!(falls_back_to_copy(true, Some(1)));
    assert!(!falls_back_to_copy(false, Some(13)));
    assert!(!falls_back_to_copy(false, None));
}
