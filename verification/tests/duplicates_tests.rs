use fiq::duplicates::{
    duplicate_candidates, hash_file, read_method, run_duplicates, HashedFile, ReadMethod,
    MMAP_THRESHOLD,
};
use fiq::scanner::FileInfo;

fn sized(path: &str, size: u64) -> FileInfo {
    FileInfo { path: path.to_string(), size, modified: None, is_dir: false, extension: None }
}

fn hashed(hash: &str, path: &str, size: u64) -> HashedFile {
    HashedFile { hash: hash.to_string(), path: path.to_string(), size }
}

#[test]
fn duplicate_detection_finds_the_two_copies() {
    let contents: Vec<(&str, &[u8])> = vec![
        ("/t/a", b"duplicate content here"),
        ("/t/b", b"duplicate content here"),
        ("/t/c", b"something unique, of another length"),
    ];
    let files: Vec<FileInfo> =
        contents.iter().map(|(p, c)| sized(p, c.len() as u64)).collect();
    let candidates = duplicate_candidates(&files, 1);
    assert_eq!(candidates, vec![0, 1]);

    let entries: Vec<HashedFile> = candidates
        .iter()
        .filter_map(|&i| {
            let hash = hash_file(files[i].size, Some(contents[i].1))?;
            Some(HashedFile { hash, path: files[i].path.clone(), size: files[i].size })
        })
        .collect();
    let result = run_duplicates(files.len(), &entries);
    assert_eq!(result.total_files_scanned, 3);
    assert_eq!(result.duplicate_groups.len(), 1);
    let group = &result.duplicate_groups[0];
    assert_eq!(group.files, vec!["/t/a".to_string(), "/t/b".to_string()]);
    assert_eq!(group.size, 22);
    assert_eq!(group.hash.len(), 64);
    assert_eq!(result.total_wasted_bytes, 22);
}

#[test]
fn same_size_but_other_content_is_no_duplicate() {
    let files = vec![sized("/t/a", 3), sized("/t/b", 3)];
    assert_eq!(duplicate_candidates(&files, 1), vec![0, 1]);
    let entries = vec![
        hashed(&hash_file(3, Some(b"abc")).unwrap(), "/t/a", 3),
        hashed(&hash_file(3, Some(b"abd")).unwrap(), "/t/b", 3),
    ];
    let result = run_duplicates(2, &entries);
    assert!(result.duplicate_groups.is_empty());
    assert_eq!(result.total_wasted_bytes, 0);
}

#[test]
fn fingerprint_is_the_blake3_digest_in_hex() {
    assert_eq!(
        hash_file(0, None).unwrap(),
        "af1349b9f5f9a1a6a0404dea36dcc9499bcb25c9adc112b7cc9a93cae41f3262"
    );
    assert_eq!(hash_file(0, Some(b"ignored")), hash_file(0, None));
    assert_eq!(hash_file(3, Some(b"abc")).unwrap(), blake3::hash(b"abc").to_hex().to_string());
    assert_ne!(hash_file(3, Some(b"abc")), hash_file(3, Some(b"abd")));
    assert_eq!(hash_file(3, None), None);
    let hex = hash_file(5, Some(b"hello")).unwrap();
    assert_eq!(hex.len(), 64);
    assert!(hex.chars().all(|c| c.is_ascii_digit() || ('a'..='f').contains(&c)));
}

#[test]
fn read_method_goes_by_the_threshold() {
    assert_eq!(MMAP_THRESHOLD, 131_072);
    assert_eq!(read_method(0), ReadMethod::Nothing);
    assert_eq!(read_method(1), ReadMethod::Whole);
    assert_eq!(read_method(131_071), ReadMethod::Whole);
    assert_eq!(read_method(131_072), ReadMethod::Mapped);
    assert_eq!(read_method(u64::MAX), ReadMethod::Mapped);
}

#[test]
fn size_pass_drops_small_and_unique_files() {
    let files = vec![
        sized("a", 10),
        sized("b", 5),
        sized("c", 10),
        sized("d", 5),
        sized("e", 7),
        sized("f", 10),
        sized("g", 0),
        sized("h", 0),
    ];
    assert_eq!(duplicate_candidates(&files, 1), vec![0, 1, 2, 3, 5]);
    assert_eq!(duplicate_candidates(&files, 6), vec![0, 2, 5]);
    assert_eq!(duplicate_candidates(&files, 0), vec![0, 1, 2, 3, 5, 6, 7]);
    assert_eq!(duplicate_candidates(&files, 999_999), Vec::<usize>::new());
    assert_eq!(duplicate_candidates(&Vec::new(), 1), Vec::<usize>::new());
}

#[test]
fn min_size_above_all_files_wastes_nothing() {
    let files = vec![sized("copy1.txt", 22), sized("copy2.txt", 22)];
    let candidates = duplicate_candidates(&files, 999_999);
    assert!(candidates.is_empty());
    let result = run_duplicates(files.len(), &Vec::new());
    assert_eq!(result.total_files_scanned, 2);
    assert!(result.duplicate_groups.is_empty());
    assert_eq!(result.total_wasted_bytes, 0);
}

#[test]
fn groups_are_sorted_by_wasted_bytes() {
    let entries = vec![
        hashed("h1", "small1", 10),
        hashed("h2", "big1", 1000),
        hashed("h1", "small2", 10),
        hashed("h3", "single", 5000),
        hashed("h2", "big2", 1000),
        hashed("h1", "small3", 10),
        hashed("h4", "mid1", 20),
        hashed("h4", "mid2", 20),
    ];
    let result = run_duplicates(100, &entries);
    let hashes: Vec<&str> = result.duplicate_groups.iter().map(|g| g.hash.as_str()).collect();
    assert_eq!(hashes, vec!["h2", "h1", "h4"]);
    assert_eq!(result.duplicate_groups[0].files, vec!["big1".to_string(), "big2".to_string()]);
    assert_eq!(
        result.duplicate_groups[1].files,
        vec!["small1".to_string(), "small2".to_string(), "small3".to_string()]
    );
    assert_eq!(result.duplicate_groups[1].size, 10);
    assert_eq!(result.total_wasted_bytes, 1000 + 20 + 20);
    assert_eq!(result.total_files_scanned, 100);
}

#[test]
fn wasted_bytes_are_capped() {
    let entries = vec![
        hashed("h1", "a", u64::MAX),
        hashed("h1", "b", u64::MAX),
        hashed("h1", "c", u64::MAX),
        hashed("h2", "d", 1),
        hashed("h2", "e", 1),
    ];
    let result = run_duplicates(5, &entries);
    assert_eq!(result.duplicate_groups.len(), 2);
    assert_eq!(result.duplicate_groups[0].hash, "h1");
    assert_eq!(result.total_wasted_bytes, u64::MAX);
}

#[test]
fn many_groups_keep_their_members() {
    let mut entries = Vec::new();
    for round in 0..3 {
        for g in 0..200 {
            entries.push(hashed(&format!("hash-{:03}", g), &format!("f{}-{}", g, round), (g + 1) as u64));
        }
    }
    let result = run_duplicates(600, &entries);
    assert_eq!(result.duplicate_groups.len(), 200);
    assert_eq!(result.duplicate_groups[0].hash, "hash-199");
    assert_eq!(result.duplicate_groups[199].hash, "hash-000");
    for group in &result.duplicate_groups {
        assert_eq!(group.files.len(), 3);
        let g: usize = group.hash[5..].parse().unwrap();
        assert_eq!(group.files[0], format!("f{}-0", g));
        assert_eq!(group.files[2], format!("f{}-2", g));
        assert_eq!(group.size, (g + 1) as u64);
    }
    let expected: u64 = (1..=200u64).map(|s| 2 * s).sum();
    assert_eq!(result.total_wasted_bytes, expected);
}
