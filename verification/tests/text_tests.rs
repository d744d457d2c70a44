use std::sync::Arc;

use fiq::glob::{matcher_for, passes, MAX_PATTERN_BRACES, MAX_PATTERN_BYTES};
use fiq::index::TrigramIndex;
use fiq::index_cache::{promotion, IndexCache, IndexSource};
use fiq::text::{
    add_capped, hex16, is_whitespace, parse_u64, same_text, to_decimal, to_padded_decimal, trim,
};
use fiq::time::Timestamp;

#[test]
fn decimal_numbers_are_read_strictly() {
    assert_eq!(parse_u64(b"0"), Some(0));
    assert_eq!(parse_u64(b"007"), Some(7));
    assert_eq!(parse_u64(b"+15"), Some(15));
    assert_eq!(parse_u64(b"18446744073709551615"), Some(u64::MAX));
    assert_eq!(parse_u64(b"18446744073709551616"), None);
    assert_eq!(parse_u64(b"99999999999999999999999999"), None);
    assert_eq!(parse_u64(b""), None);
    assert_eq!(parse_u64(b"+"), None);
    assert_eq!(parse_u64(b"++1"), None);
    assert_eq!(parse_u64(b"-1"), None);
    assert_eq!(parse_u64(b" 1"), None);
    assert_eq!(parse_u64(b"1 "), None);
    assert_eq!(parse_u64(b"1_000"), None);
    assert_eq!(parse_u64(b"12a"), None);
    assert_eq!(parse_u64("\u{0663}".as_bytes()), None);
    for text in ["0", "42", "+9", "007", "", "+", "x", "18446744073709551615", "18446744073709551616"] {
        assert_eq!(parse_u64(text.as_bytes()), text.parse::<u64>().ok(), "{:?}", text);
    }
}

#[test]
fn numbers_are_written_in_decimal_and_hex() {
    assert_eq!(to_decimal(0), "0");
    assert_eq!(to_decimal(9), "9");
    assert_eq!(to_decimal(10), "10");
    assert_eq!(to_decimal(1_234_567_890), "1234567890");
    assert_eq!(to_decimal(u64::MAX), "18446744073709551615");
    assert_eq!(to_padded_decimal(7, 2), "07");
    assert_eq!(to_padded_decimal(12, 2), "12");
    assert_eq!(to_padded_decimal(123, 2), "123");
    assert_eq!(to_padded_decimal(0, 4), "0000");
    assert_eq!(to_padded_decimal(5, 0), "5");
    assert_eq!(hex16(0), "0000000000000000");
    assert_eq!(hex16(0xdead_beef), "00000000deadbeef");
    assert_eq!(hex16(u64::MAX), "ffffffffffffffff");
    assert_eq!(hex16(0x0123_4567_89ab_cdef), "0123456789abcdef");
}

#[test]
fn capped_addition_stops_at_the_maximum() {
    assert_eq!(add_capped(1, 2), 3);
    assert_eq!(add_capped(u64::MAX, 0), u64::MAX);
    assert_eq!(add_capped(u64::MAX, 1), u64::MAX);
    assert_eq!(add_capped(u64::MAX - 1, 1), u64::MAX);
    assert_eq!(add_capped(u64::MAX / 2 + 1, u64::MAX / 2 + 1), u64::MAX);
}

#[test]
fn points_in_time_compare_by_second_then_nanosecond() {
    let t = |secs, nanos| Timestamp { secs, nanos };
    assert!(t(1, 0).is_at_or_before(&t(1, 0)));
    assert!(t(1, 0).is_at_or_before(&t(1, 1)));
    assert!(t(1, 999_999_999).is_at_or_before(&t(2, 0)));
    assert!(!t(2, 0).is_at_or_before(&t(1, 999_999_999)));
    assert!(t(-5, 0).is_at_or_before(&t(0, 0)));
    assert_eq!(Timestamp::from_secs(9), t(9, 0));
    assert_eq!(t(10, 7).checked_sub_secs(3), Some(t(7, 7)));
    assert_eq!(t(10, 7).checked_sub_secs(20), Some(t(-10, 7)));
    assert_eq!(t(0, 0).checked_sub_secs(i64::MAX as u64), Some(t(-i64::MAX, 0)));
    assert_eq!(t(0, 0).checked_sub_secs(i64::MAX as u64 + 1), Some(t(i64::MIN, 0)));
    assert_eq!(t(0, 0).checked_sub_secs(i64::MAX as u64 + 2), None);
    assert_eq!(t(-1, 0).checked_sub_secs(i64::MAX as u64 + 1), None);
    assert_eq!(t(5, 0).checked_sub_secs(u64::MAX), None);
    assert_eq!(t(i64::MAX, 0).checked_sub_secs(u64::MAX), Some(t(i64::MIN, 0)));
    assert_eq!(t(i64::MIN, 0).checked_sub_secs(0), Some(t(i64::MIN, 0)));
    assert_eq!(t(i64::MIN, 0).checked_sub_secs(1), None);
}

#[test]
fn patterns_are_built_or_refused() {
    let rs = matcher_for("*.rs");
    assert_eq!(rs.as_ref().map(|f| f.pattern()), Some("*.rs"));
    assert!(passes(&rs, "main.rs"));
    assert!(!passes(&rs, "main.txt"));
    assert!(!passes(&rs, "MAIN.RS"));
    assert!(passes(&None, "anything"));
    assert!(matcher_for("abc[").is_none());
    assert!(matcher_for("{a,b").is_none());
    assert!(matcher_for(&"a".repeat(100_000)).is_some());
    let star = matcher_for("*");
    assert!(passes(&star, ""));
    assert!(passes(&star, "a/b"));
}

#[test]
fn deeply_nested_braces_make_no_filter() {
    let nested = |depth: usize| format!("{}a{}", "{".repeat(depth), "}".repeat(depth));
    let shallow = matcher_for(&nested(8));
    assert!(passes(&shallow, "a"));
    assert!(!passes(&shallow, "b"));
    // Deeper than the automaton builder accepts: refused, not a crash.
    assert!(matcher_for(&nested(250)).is_none());
    assert!(matcher_for(&nested(300)).is_none());
    assert!(matcher_for(&nested(MAX_PATTERN_BRACES + 1)).is_none());
    assert!(matcher_for(&nested(100_000)).is_none());
    // Many braces side by side are within the limit as long as they are few enough.
    assert!(matcher_for(&"{a,b}".repeat(MAX_PATTERN_BRACES)).is_some());
    assert!(matcher_for(&"{a,b}".repeat(MAX_PATTERN_BRACES + 1)).is_none());
    assert!(MAX_PATTERN_BYTES >= 1 << 30);
}

#[test]
fn the_set_of_one_pattern_matches_as_the_pattern_does() {
    let names = ["", "a", "a.rs", ".rs", "rs", "main.RS", "foo", "foobar", "xfoo", "a/b.rs", "x.tar.gz"];
    for pattern in ["*.rs", "foo", "foo*", "*foo", "*.tar.gz", "a?rs", "[a-m]*", "*.{rs,gz}", "**/*.rs", "*"] {
        let filter = matcher_for(pattern);
        let single = globset::Glob::new(pattern).unwrap().compile_matcher();
        for name in names {
            assert_eq!(passes(&filter, name), single.is_match(name), "{} on {:?}", pattern, name);
        }
    }
}

fn index_of(root: &str, built: i64) -> Arc<TrigramIndex> {
    Arc::new(TrigramIndex::build(root, &Vec::new(), Timestamp { secs: built, nanos: 0 }))
}

#[test]
fn memory_tier_keeps_one_index_per_root() {
    let now = |secs| Some(Timestamp { secs, nanos: 0 });
    let cache = IndexCache::new();
    assert!(cache.get("/a").is_none());
    assert!(cache.lookup("/a", true, now(0)).is_none());

    let cache = cache.store_in_cache("/a", index_of("/a", 100));
    let cache = cache.store_in_cache("/b", index_of("/b", 200));
    assert_eq!(cache.get("/a").unwrap().built_at().secs, 100);
    assert_eq!(cache.get("/b").unwrap().built_at().secs, 200);
    assert!(cache.get("/c").is_none());

    // A fresh index is handed out, a stale one is not, and nothing without the tier.
    assert_eq!(cache.lookup("/a", true, now(100)).unwrap().built_at().secs, 100);
    assert!(cache.lookup("/a", true, now(101)).is_none());
    assert!(cache.lookup("/a", true, None).is_none());
    assert!(cache.lookup("/a", false, now(100)).is_none());

    // A rebuild replaces the index of its root only.
    let cache = cache.store_in_cache("/a", index_of("/a", 300));
    assert_eq!(cache.get("/a").unwrap().built_at().secs, 300);
    assert_eq!(cache.get("/b").unwrap().built_at().secs, 200);
    assert!(cache.lookup("/a", true, now(101)).is_some());
}

#[test]
fn indexes_move_between_the_tiers() {
    let memory = promotion(IndexSource::Memory, true);
    assert!(!memory.to_disk && !memory.to_memory);
    let disk = promotion(IndexSource::Disk, true);
    assert!(!disk.to_disk && disk.to_memory);
    let disk_only = promotion(IndexSource::Disk, false);
    assert!(!disk_only.to_disk && !disk_only.to_memory);
    let built = promotion(IndexSource::Built, true);
    assert!(built.to_disk && built.to_memory);
    let built_cli = promotion(IndexSource::Built, false);
    assert!(built_cli.to_disk && !built_cli.to_memory);
}

#[test]
fn trimming_removes_unicode_whitespace_at_both_ends() {
    for text in [
        "",
        " ",
        "a",
        "  a b  ",
        "\t\r\n x \n",
        "\u{a0}1.5\u{2003}GB\u{3000}",
        "\u{feff}x",
        "   ",
        "x\u{85}",
        "\u{e9}t\u{e9} ",
    ] {
        assert_eq!(trim(text), text.trim(), "{:?}", text);
    }
}

#[test]
fn texts_are_compared_by_their_characters() {
    assert!(same_text("", ""));
    assert!(same_text("abc", "abc"));
    assert!(!same_text("abc", "abd"));
    assert!(!same_text("abc", "ab"));
    assert!(!same_text("", "a"));
    assert!(same_text("\u{e9}", "\u{e9}"));
    assert!(!same_text("\u{e9}", "e\u{301}"));
}

#[test]
fn whitespace_is_the_unicode_property() {
    for code in 0..=0x10ffffu32 {
        if let Some(c) = char::from_u32(code) {
            assert_eq!(is_whitespace(c), c.is_whitespace(), "U+{:04X}", code);
        }
    }
}
