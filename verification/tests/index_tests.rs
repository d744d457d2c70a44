use std::collections::HashMap;
use std::hash::{Hash, Hasher};

use fiq::frame::{frame, unframe};
use fiq::index::{
    extract_trigrams_from_glob, extract_trigrams_from_literal, intersect_sorted, key_of,
    literal_trigrams, IndexParts, TrigramIndex,
};
use fiq::scanner::FileInfo;
use fiq::time::Timestamp;

fn file(path: &str) -> FileInfo {
    FileInfo { path: path.to_string(), size: 0, modified: None, is_dir: false, extension: None }
}

fn tree(root: &str, names: &[&str]) -> Vec<FileInfo> {
    names.iter().map(|n| file(&format!("{}/{}", root, n))).collect()
}

fn built(secs: i64) -> Timestamp {
    Timestamp { secs, nanos: 0 }
}

#[test]
fn test_extract_trigrams_star_rs() {
    let tris = extract_trigrams_from_glob("*.rs");
    assert_eq!(tris, vec![[b'.', b'r', b's']]);
}

#[test]
fn test_extract_trigrams_star_test_js() {
    let tris = extract_trigrams_from_glob("*.test.js");
    assert!(tris.contains(&[b'.', b't', b'e']));
    assert!(tris.contains(&[b'.', b'j', b's']));
    assert!(tris.len() >= 5);
}

#[test]
fn test_extract_trigrams_foo_star_bar() {
    let tris = extract_trigrams_from_glob("foo*bar");
    assert!(tris.contains(&[b'f', b'o', b'o']));
    assert!(tris.contains(&[b'b', b'a', b'r']));
}

#[test]
fn test_extract_trigrams_too_short() {
    assert!(extract_trigrams_from_glob("*.c").is_empty());
    assert!(extract_trigrams_from_glob("*").is_empty());
}

#[test]
fn test_intersect_sorted() {
    assert_eq!(intersect_sorted(&[1, 3, 5, 7], &[2, 3, 5, 8]), vec![3, 5]);
    assert_eq!(intersect_sorted(&[1, 2, 3], &[4, 5, 6]), Vec::<u32>::new());
    assert_eq!(intersect_sorted(&[1, 2, 3], &[1, 2, 3]), vec![1, 2, 3]);
}

#[test]
fn test_build_and_query() {
    let root = "/data/tree";
    let files = tree(root, &["hello.rs", "world.rs", "readme.md", "test.txt"]);
    let index = TrigramIndex::build(root, &files, built(100));
    assert_eq!(index.total_files(), 4);

    let results = index.query("*.rs").expect("should use index");
    assert_eq!(results.len(), 2);
    assert!(results.contains(&"/data/tree/hello.rs".to_string()));
    assert!(results.contains(&"/data/tree/world.rs".to_string()));

    let results = index.query("*.txt").expect("should use index");
    assert_eq!(results, vec!["/data/tree/test.txt".to_string()]);

    assert!(index.query("*.c").is_none());
}

#[test]
fn test_query_no_matches() {
    let root = "/data/tree";
    let files = tree(root, &["hello.rs"]);
    let index = TrigramIndex::build(root, &files, built(100));
    let results = index.query("*.xyz").expect("should use index");
    assert!(results.is_empty());
}

#[test]
fn test_nested_files() {
    let root = "/data/tree";
    let files = tree(root, &["src/main.rs", "src/lib.rs", "Cargo.toml"]);
    let index = TrigramIndex::build(root, &files, built(100));
    assert_eq!(index.total_files(), 3);

    let results = index.query("*.rs").expect("should use index");
    assert_eq!(results.len(), 2);
    assert_eq!(results, vec!["/data/tree/src/main.rs".to_string(), "/data/tree/src/lib.rs".to_string()]);
    assert_eq!(index.get_path(0), Some("src/main.rs"));
    assert_eq!(index.get_path(2), Some("Cargo.toml"));
    assert_eq!(index.get_path(3), None);
}

#[test]
fn test_cache_roundtrip() {
    let root = "/data/tree";
    let files = tree(root, &["file.rs"]);
    let index = TrigramIndex::build(root, &files, built(100));

    // What is written: the parts as bytes, in their envelope.
    let parts = index.into_parts();
    let plain = (
        parts.root.clone(),
        parts.built_at.secs,
        parts.built_at.nanos,
        parts.path_offsets.clone(),
        parts.path_data.clone(),
        parts.trigrams.clone(),
        parts.total_files,
    );
    let payload = bincode::serialize(&plain).expect("save failed");
    let kept = TrigramIndex::from_parts(parts).expect("parts of an index make an index");
    let plan = kept.save_to_cache(Some("/home/user/.cache"), &payload).expect("save failed");
    assert_eq!(plan.directory, "/home/user/.cache/fiq");
    assert!(plan.path.starts_with("/home/user/.cache/fiq/"));
    assert!(plan.path.ends_with(".idx"));

    // What is read back.
    let inner = unframe(&plan.bytes).expect("load failed");
    let (root_back, secs, nanos, path_offsets, path_data, trigrams, total_files): (
        String,
        i64,
        u32,
        Vec<(u32, u16)>,
        Vec<u8>,
        HashMap<u32, Vec<u32>>,
        u32,
    ) = bincode::deserialize(inner).expect("load failed");
    let stored = TrigramIndex::from_parts(IndexParts {
        root: root_back,
        built_at: Timestamp { secs, nanos },
        path_offsets,
        path_data,
        trigrams,
        total_files,
    });
    assert!(stored.is_some());
    let loaded =
        TrigramIndex::load_cached(root, stored, Some(built(50))).expect("load failed");
    assert_eq!(loaded.total_files(), 1);
    assert_eq!(loaded.root(), root);
    assert_eq!(loaded.built_at(), built(100));

    let results = loaded.query("*.rs").expect("should use index");
    assert_eq!(results.len(), 1);
}

#[test]
fn load_rejects_other_root_and_stale_index() {
    let root = "/data/tree";
    let make = || TrigramIndex::build(root, &tree(root, &["file.rs"]), built(100));
    assert!(TrigramIndex::load_cached("/data/other", Some(make()), Some(built(50))).is_none());
    assert!(TrigramIndex::load_cached(root, Some(make()), Some(built(101))).is_none());
    assert!(TrigramIndex::load_cached(root, Some(make()), None).is_none());
    assert!(TrigramIndex::load_cached(root, None, Some(built(50))).is_none());
    assert!(TrigramIndex::load_cached(root, Some(make()), Some(built(100))).is_some());
}

#[test]
fn freshness_compares_root_time_with_build_time() {
    let root = "/data/tree";
    let index = TrigramIndex::build(root, &tree(root, &["a.rs"]), Timestamp { secs: 10, nanos: 5 });
    assert!(index.is_fresh(Some(Timestamp { secs: 10, nanos: 5 })));
    assert!(index.is_fresh(Some(Timestamp { secs: 9, nanos: 999_999_999 })));
    assert!(!index.is_fresh(Some(Timestamp { secs: 10, nanos: 6 })));
    assert!(!index.is_fresh(Some(Timestamp { secs: 11, nanos: 0 })));
    assert!(!index.is_fresh(None));
}

#[test]
fn from_parts_rejects_inconsistent_parts() {
    let root = "/data/tree";
    let fresh = || TrigramIndex::build(root, &tree(root, &["abc.rs", "abd.rs"]), built(1)).into_parts();

    let mut parts = fresh();
    parts.total_files = 3;
    assert!(TrigramIndex::from_parts(parts).is_none());

    let mut parts = fresh();
    parts.path_data.truncate(3);
    assert!(TrigramIndex::from_parts(parts).is_none());

    let mut parts = fresh();
    let key = key_of(&[b'.', b'r', b's']);
    parts.trigrams.insert(key, vec![1, 0]);
    assert!(TrigramIndex::from_parts(parts).is_none());

    let mut parts = fresh();
    parts.trigrams.insert(key, vec![0, 2]);
    assert!(TrigramIndex::from_parts(parts).is_none());

    assert!(TrigramIndex::from_parts(fresh()).is_some());
}

#[test]
fn posting_lists_are_sorted_and_bounded() {
    let root = "/r";
    let files = tree(root, &["aaaa.rs", "b.rs", "sub/aaa.rs", "aaa", "x.txt"]);
    let parts = TrigramIndex::build(root, &files, built(1)).into_parts();
    assert_eq!(parts.total_files, 5);
    assert!(!parts.trigrams.is_empty());
    for list in parts.trigrams.values() {
        assert!(list.windows(2).all(|w| w[0] < w[1]));
        assert!(list.iter().all(|id| *id < parts.total_files));
    }
    assert_eq!(parts.trigrams.get(&key_of(&[b'a', b'a', b'a'])), Some(&vec![0, 2, 3]));
    assert_eq!(parts.trigrams.get(&key_of(&[b'.', b'r', b's'])), Some(&vec![0, 1, 2]));
    assert_eq!(parts.trigrams.get(&key_of(&[b's', b'u', b'b'])), None);
}

#[test]
fn trigrams_come_from_the_lowercased_name_only() {
    let root = "/r";
    let files = tree(root, &["SRC/Main.RS", "src/other.txt"]);
    let index = TrigramIndex::build(root, &files, built(1));
    // The directory `src` gives no trigram, the uppercase name does.
    assert_eq!(index.query("src*").unwrap(), Vec::<String>::new());
    assert_eq!(index.query("Main*").unwrap(), vec!["/r/SRC/Main.RS".to_string()]);
    // The glob itself is matched as it is written.
    assert_eq!(index.query("main*").unwrap(), Vec::<String>::new());
}

#[test]
fn query_agrees_with_a_walk_filtered_by_the_same_glob() {
    let root = "/r";
    let names = ["alpha.rs", "beta.rs", "deep/gamma.rs", "delta.txt", "rs", "x.rsx"];
    let files = tree(root, &names);
    let index = TrigramIndex::build(root, &files, built(1));
    for pattern in ["*.rs", "*.txt", "*a.rs", "alpha*", "*mma*", "*.rs?"] {
        let matcher = globset::Glob::new(pattern).unwrap().compile_matcher();
        let mut walked: Vec<String> = files
            .iter()
            .filter(|f| {
                let name = f.path.rsplit('/').next().unwrap();
                matcher.is_match(name)
            })
            .map(|f| f.path.clone())
            .collect();
        walked.sort();
        let mut found = index.query(pattern).expect("pattern has trigrams");
        found.sort();
        assert_eq!(found, walked, "pattern {}", pattern);
    }
}

#[test]
fn query_with_unparsable_pattern_keeps_all_candidates() {
    let root = "/r";
    let files = tree(root, &["abc1", "abc2", "xyz"]);
    let index = TrigramIndex::build(root, &files, built(1));
    assert!(globset::Glob::new("abc[").is_err());
    assert_eq!(index.query("abc[").unwrap(), vec!["/r/abc1".to_string(), "/r/abc2".to_string()]);
}

#[test]
fn literal_runs_end_at_every_metacharacter() {
    assert_eq!(literal_trigrams(b"ab*cd?ef[gh]ij{kl}mn"), Vec::<[u8; 3]>::new());
    assert_eq!(literal_trigrams(b"abcd"), vec![*b"abc", *b"bcd"]);
    assert_eq!(literal_trigrams(b"abc*abc"), vec![*b"abc"]);
    assert_eq!(literal_trigrams(b"aaaa"), vec![*b"aaa"]);
    assert_eq!(literal_trigrams(b"abc?bcd"), vec![*b"abc", *b"bcd"]);
    assert_eq!(extract_trigrams_from_glob("*.RS"), vec![*b".rs"]);
}

#[test]
fn literal_extraction_skips_seen_trigrams() {
    let mut trigrams: Vec<[u8; 3]> = vec![*b"abc"];
    let mut seen = std::collections::HashSet::new();
    seen.insert(key_of(b"abc"));
    extract_trigrams_from_literal(b"xabcd", &mut trigrams, &mut seen);
    assert_eq!(trigrams, vec![*b"abc", *b"xab", *b"bcd"]);
    assert!(seen.contains(&key_of(b"bcd")));
    extract_trigrams_from_literal(b"ab", &mut trigrams, &mut seen);
    assert_eq!(trigrams.len(), 3);
}

#[test]
fn trigram_keys_pack_three_bytes() {
    assert_eq!(key_of(&[0, 0, 0]), 0);
    assert_eq!(key_of(&[0, 0, 1]), 1);
    assert_eq!(key_of(&[0, 1, 0]), 256);
    assert_eq!(key_of(&[1, 0, 0]), 65536);
    assert_eq!(key_of(&[255, 255, 255]), 16_777_215);
}

#[test]
fn cache_key_is_sixteen_hex_digits_and_an_ending() {
    let key = TrigramIndex::cache_key("/data/tree");
    assert_eq!(key.len(), 20);
    assert!(key.ends_with(".idx"));
    assert!(key[..16].chars().all(|c| c.is_ascii_digit() || ('a'..='f').contains(&c)));
    assert_eq!(key, TrigramIndex::cache_key("/data/tree"));
    assert_ne!(key, TrigramIndex::cache_key("/data/other"));

    let mut hasher = std::collections::hash_map::DefaultHasher::new();
    std::path::Path::new("/data/tree").hash(&mut hasher);
    assert_eq!(key, format!("{:016x}.idx", hasher.finish()));
}

#[test]
fn cache_dir_lies_under_the_user_cache() {
    assert_eq!(TrigramIndex::cache_dir(Some("/home/u/.cache")), Some("/home/u/.cache/fiq".to_string()));
    assert_eq!(TrigramIndex::cache_dir(None), None);
    let index = TrigramIndex::build("/r", &Vec::new(), built(1));
    assert!(index.save_to_cache(None, b"payload").is_err());
}

#[test]
fn empty_tree_gives_an_empty_index() {
    let index = TrigramIndex::build("/r", &Vec::new(), built(1));
    assert_eq!(index.total_files(), 0);
    assert_eq!(index.query("*.rs"), Some(Vec::new()));
    assert_eq!(index.query("*"), None);
}

#[test]
fn stored_paths_are_cut_at_the_limit() {
    let long = "d/".repeat(40_000) + "name.rs";
    let path = format!("/r/{}", long);
    let index = TrigramIndex::build("/r", &vec![file(&path)], built(1));
    let stored = index.get_path(0).expect("cut inside ASCII");
    assert_eq!(stored.len(), 65_535);
    assert!(long.starts_with(stored));
}

#[test]
fn envelope_round_trip_and_rejection() {
    let payload: Vec<u8> = (0..300).map(|i| (i % 251) as u8).collect();
    let bytes = frame(&payload);
    assert_eq!(bytes.len(), payload.len() + 13);
    assert_eq!(&bytes[..4], b"FIQX");
    assert_eq!(bytes[4], 1);
    assert_eq!(&bytes[5..13], &300u64.to_le_bytes());
    assert_eq!(unframe(&bytes), Some(&payload[..]));
    assert_eq!(unframe(&frame(b"")), Some(&b""[..]));

    assert_eq!(unframe(b"FIQX"), None);
    let mut other_mark = bytes.clone();
    other_mark[0] = b'G';
    assert_eq!(unframe(&other_mark), None);
    let mut other_version = bytes.clone();
    other_version[4] = 2;
    assert_eq!(unframe(&other_version), None);
    let mut cut = bytes.clone();
    cut.pop();
    assert_eq!(unframe(&cut), None);
    let mut longer = bytes.clone();
    longer.push(0);
    assert_eq!(unframe(&longer), None);
}

#[test]
fn paths_outside_the_root_are_stored_whole() {
    let files = vec![file("/elsewhere/notes.txt"), file("/r/notes.txt")];
    let index = TrigramIndex::build("/r", &files, built(1));
    assert_eq!(index.get_path(0), Some("/elsewhere/notes.txt"));
    assert_eq!(index.get_path(1), Some("notes.txt"));
    assert_eq!(
        index.query("notes*").unwrap(),
        vec!["/elsewhere/notes.txt".to_string(), "/r/notes.txt".to_string()]
    );
}

#[test]
fn a_path_cut_inside_a_character_is_not_reported() {
    let long = "\u{e9}".repeat(40_000) + "/name.rs";
    let path = format!("/r/{}", long);
    let index = TrigramIndex::build("/r", &vec![file(&path), file("/r/name.rs")], built(1));
    assert_eq!(index.total_files(), 2);
    assert_eq!(index.get_path(0), None);
    assert_eq!(index.query("name*").unwrap(), vec!["/r/name.rs".to_string()]);
}
