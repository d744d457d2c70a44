//! The directory walker's rules: which entries of a walk become file records, what
//! each record holds, how many threads a walk uses and how records are handed over
//! in batches.
//!
//! The walk itself happens outside this library. It hands in what it found as
//! `WalkEntry` values and applies the `WalkPlan` that `plan_walk` decides.

use vstd::prelude::*;
use vstd::utf8::encode_utf8;

use crate::glob::{glob_match, matcher_for, passes, pattern_of, usable, NameFilter};
use crate::paths::{extension, extension_of, file_name, name_or_empty};
use crate::text::{decimal_u64, lowercase_of, parse_u64, to_lowercase};
use crate::time::Timestamp;

verus! {

/// The thread count of a walk where nothing else is configured.
pub const DEFAULT_WALKER_THREADS: usize = 4;

/// The number of records that a collector holds back before it hands them over.
pub const BATCH_SIZE: usize = 512;

/// One regular file found by a walk.
#[derive(Debug, Clone)]
pub struct FileInfo {
    /// The file's path.
    pub path: String,
    /// Its length in bytes, or 0 where the walk did not ask for metadata.
    pub size: u64,
    /// When it was last modified, where that is known.
    pub modified: Option<Timestamp>,
    /// Always `false`: directories are never recorded.
    pub is_dir: bool,
    /// Its final extension, lowercased and without the dot, where the walk computed it.
    pub extension: Option<String>,
}

/// What a `FileInfo` holds, with its texts as sequences of characters.
pub struct FileRecord {
    pub path: Seq<char>,
    pub size: u64,
    pub modified: Option<Timestamp>,
    pub is_dir: bool,
    pub extension: Option<Seq<char>>,
}

impl View for FileInfo {
    type V = FileRecord;

    open spec fn view(&self) -> FileRecord {
        FileRecord {
            path: self.path@,
            size: self.size,
            modified: self.modified,
            is_dir: self.is_dir,
            extension: match self.extension {
                Some(ext) => Some(ext@),
                None => None,
            },
        }
    }
}

/// The records of a list of files, in the same order.
pub open spec fn records(files: Seq<FileInfo>) -> Seq<FileRecord> {
    files.map_values(|f: FileInfo| f@)
}

/// What the walker could tell about an entry without asking for its metadata.
#[derive(Debug, Clone, Copy, PartialEq, Eq, Structural)]
pub enum EntryKind {
    /// The walker reported an error in place of the entry.
    Failed,
    /// The entry's file type is not known.
    Unknown,
    /// The entry is a directory.
    Directory,
    /// The entry is anything else: a regular file, a link, a device.
    File,
}

/// The metadata of a file.
#[derive(Debug, Clone, Copy)]
pub struct FileMetadata {
    pub size: u64,
    pub modified: Option<Timestamp>,
}

/// One entry as a walk hands it in.
#[derive(Debug)]
pub struct WalkEntry {
    /// The entry's path.
    pub path: String,
    /// How far below the walk's root it lies: 0 for the root itself.
    pub depth: usize,
    pub kind: EntryKind,
    /// The entry's metadata; `None` where reading it failed or was not asked for.
    pub metadata: Option<FileMetadata>,
}

/// How a walk is to be run.
#[derive(Debug, Clone, Copy)]
pub struct WalkPlan {
    /// How deep to descend; `None` sets no limit.
    pub max_depth: Option<usize>,
    /// The number of worker threads.
    pub threads: usize,
    /// Whether the name pattern is installed in the walker, so that only matching
    /// files are handed in.
    pub push_down: bool,
    /// Whether hidden files are left out. Never set.
    pub skip_hidden: bool,
    /// Whether version-control ignore rules are read. Never set.
    pub ignore_rules: bool,
}

/// The thread count that a configured value stands for: the number it writes, or
/// the default where there is no value or it writes no number that fits.
pub open spec fn configured_threads(configured: Option<Seq<char>>) -> usize {
    match configured {
        Some(value) => match decimal_u64(encode_utf8(value)) {
            Some(n) => if n <= usize::MAX {
                n as usize
            } else {
                DEFAULT_WALKER_THREADS
            },
            None => DEFAULT_WALKER_THREADS,
        },
        None => DEFAULT_WALKER_THREADS,
    }
}

/// The thread count for walks whose name pattern is not pushed down, from the value
/// of the thread setting.
pub fn walker_threads(configured: Option<&str>) -> (threads: usize)
    ensures
        threads == configured_threads(
            match configured {
                Some(value) => Some(value@),
                None => None,
            },
        ),
{
    match configured {
        Some(value) => match parse_u64(value.as_bytes()) {
            Some(n) => if n <= usize::MAX as u64 {
                n as usize
            } else {
                DEFAULT_WALKER_THREADS
            },
            None => DEFAULT_WALKER_THREADS,
        },
        None => DEFAULT_WALKER_THREADS,
    }
}

/// Decides how to run a walk. `has_pattern` says whether a name pattern was given,
/// `pattern_installs` whether the walker accepted it as a filter of its own,
/// `configured` is the value of the thread setting and `cores` the number of
/// available cores where it is known.
pub fn plan_walk(
    recursive: bool,
    has_pattern: bool,
    pattern_installs: bool,
    configured: Option<&str>,
    cores: Option<usize>,
) -> (plan: WalkPlan)
    ensures
        plan.max_depth == if recursive {
            None
        } else {
            Some(1usize)
        },
        plan.push_down == (has_pattern && pattern_installs),
        !plan.skip_hidden,
        !plan.ignore_rules,
        plan.threads == if has_pattern && pattern_installs {
            match cores {
                Some(n) => if n / 2 >= 2 {
                    (n / 2) as usize
                } else {
                    2
                },
                None => 4,
            }
        } else {
            configured_threads(
                match configured {
                    Some(value) => Some(value@),
                    None => None,
                },
            )
        },
{
    let push_down = has_pattern && pattern_installs;
    let threads = if push_down {
        match cores {
            Some(n) => if n / 2 >= 2 {
                n / 2
            } else {
                2
            },
            None => 4,
        }
    } else {
        walker_threads(configured)
    };
    WalkPlan {
        max_depth: if recursive {
            None
        } else {
            Some(1)
        },
        threads,
        push_down,
        skip_hidden: false,
        ignore_rules: false,
    }
}

/// Holds items back until a batch is full, so that a shared result is extended once
/// per batch and not once per item.
pub struct Collector<T> {
    batch: Vec<T>,
}

impl<T> Collector<T> {
    /// The items that are held back.
    pub closed spec fn pending(&self) -> Seq<T> {
        self.batch@
    }

    /// A collector that holds nothing.
    pub fn new() -> (collector: Collector<T>)
        ensures
            collector.pending().len() == 0,
    {
        Collector { batch: Vec::new() }
    }

    /// Takes one more item. Returns the full batch, to be appended to the shared
    /// result, once `BATCH_SIZE` items are held.
    pub fn push(&mut self, item: T) -> (full: Option<Vec<T>>)
        ensures
            match full {
                Some(batch) => batch@ == old(self).pending().push(item) && batch@.len()
                    >= BATCH_SIZE && final(self).pending().len() == 0,
                None => final(self).pending() == old(self).pending().push(item),
            },
            final(self).pending().len() < BATCH_SIZE,
    {
        if self.batch.len() >= BATCH_SIZE - 1 {
            let mut batch: Vec<T> = Vec::new();
            core::mem::swap(&mut self.batch, &mut batch);
            batch.push(item);
            Some(batch)
        } else {
            self.batch.push(item);
            None
        }
    }

    /// Hands over what is held back, if anything.
    pub fn flush(&mut self) -> (rest: Option<Vec<T>>)
        ensures
            final(self).pending().len() == 0,
            match rest {
                Some(batch) => batch@ == old(self).pending() && batch@.len() > 0,
                None => old(self).pending().len() == 0,
            },
    {
        if self.batch.len() == 0 {
            None
        } else {
            let mut batch: Vec<T> = Vec::new();
            core::mem::swap(&mut self.batch, &mut batch);
            Some(batch)
        }
    }
}

/// The rules of one scan.
pub struct ScanRules {
    /// Whether entries below the root's direct children are taken.
    pub recursive: bool,
    /// The compiled name pattern that the scan holds entries against; `None` where
    /// no pattern was given, it cannot be compiled, or the walker applies it.
    pub manual: Option<Seq<char>>,
    /// Whether a name pattern was given at all.
    pub filtered: bool,
    /// Whether records are made without metadata.
    pub skip_metadata: bool,
}

/// The lowercased extension of a path.
pub open spec fn lowered_extension(path: Seq<char>) -> Option<Seq<char>> {
    match extension_of(path) {
        Some(ext) => Some(lowercase_of(ext)),
        None => None,
    }
}

/// The record that a scan makes of an entry, or `None` where it passes the entry
/// over: an entry too deep for a flat scan, one that is no file, one whose name
/// fails the pattern, or one whose metadata is needed and missing.
pub open spec fn emitted(entry: WalkEntry, rules: ScanRules) -> Option<FileRecord> {
    if !rules.recursive && entry.depth > 1 {
        None
    } else if entry.kind != EntryKind::File {
        None
    } else if rules.manual.is_some() && !glob_match(
        rules.manual.unwrap(),
        name_or_empty(entry.path@),
    ) {
        None
    } else if rules.skip_metadata {
        Some(
            FileRecord {
                path: entry.path@,
                size: 0,
                modified: None,
                is_dir: false,
                extension: None,
            },
        )
    } else {
        match entry.metadata {
            None => None,
            Some(meta) => Some(
                FileRecord {
                    path: entry.path@,
                    size: meta.size,
                    modified: meta.modified,
                    is_dir: false,
                    extension: if rules.filtered {
                        None
                    } else {
                        lowered_extension(entry.path@)
                    },
                },
            ),
        }
    }
}

/// The records of the first `n` entries, in order.
pub open spec fn emitted_below(entries: Seq<WalkEntry>, n: nat, rules: ScanRules) -> Seq<
    FileRecord,
>
    decreases n,
{
    if n == 0 {
        Seq::empty()
    } else {
        let earlier = emitted_below(entries, (n - 1) as nat, rules);
        match emitted(entries[n - 1], rules) {
            Some(record) => earlier.push(record),
            None => earlier,
        }
    }
}

/// The records that a scan makes of a walk's entries.
pub open spec fn scan_result(entries: Seq<WalkEntry>, rules: ScanRules) -> Seq<FileRecord> {
    emitted_below(entries, entries.len(), rules)
}

/// The rules that the scan functions apply for their arguments.
pub open spec fn rules_for(
    recursive: bool,
    name_glob: Option<Seq<char>>,
    pushed_down: bool,
    skip_metadata: bool,
) -> ScanRules {
    ScanRules {
        recursive,
        manual: match name_glob {
            Some(pattern) => if !pushed_down && usable(pattern) {
                Some(pattern)
            } else {
                None
            },
            None => None,
        },
        filtered: name_glob.is_some(),
        skip_metadata,
    }
}

/// Whether an entry that passed the walker's own checks needs its metadata read
/// before it is handed in: the scan wants metadata, and the entry is a file that
/// passes the depth limit and the name pattern.
pub fn wants_metadata(
    entry: &WalkEntry,
    recursive: bool,
    matcher: &Option<NameFilter>,
    skip_metadata: bool,
) -> (wanted: bool)
    ensures
        wanted == (!skip_metadata && (recursive || entry.depth <= 1) && entry.kind
            == EntryKind::File && match *matcher {
            Some(m) => glob_match(m.pattern_text(), name_or_empty(entry.path@)),
            None => true,
        }),
{
    if skip_metadata || (!recursive && entry.depth > 1) {
        return false;
    }
    match entry.kind {
        EntryKind::File => {},
        _ => {
            return false;
        },
    }
    name_filter_passes(matcher, entry.path.as_str())
}

/// Holds the final component of a path, or the empty name where there is none,
/// against an optional matcher.
fn name_filter_passes(matcher: &Option<NameFilter>, path: &str) -> (pass: bool)
    ensures
        pass == match *matcher {
            Some(m) => glob_match(m.pattern_text(), name_or_empty(path@)),
            None => true,
        },
{
    match matcher {
        Some(_) => {
            match file_name(path) {
                Some(name) => passes(matcher, name),
                None => {
                    proof {
                        reveal_strlit("");
                    }
                    assert(""@ =~= Seq::<char>::empty());
                    passes(matcher, "")
                },
            }
        },
        None => true,
    }
}

/// Makes the record of one entry, or passes the entry over.
pub fn emit(
    entry: &WalkEntry,
    recursive: bool,
    matcher: &Option<NameFilter>,
    filtered: bool,
    skip_metadata: bool,
) -> (info: Option<FileInfo>)
    ensures
        match info {
            Some(file) => emitted(
                *entry,
                ScanRules { recursive, manual: pattern_of(*matcher), filtered, skip_metadata },
            ) == Some(file@),
            None => emitted(
                *entry,
                ScanRules { recursive, manual: pattern_of(*matcher), filtered, skip_metadata },
            ).is_none(),
        },
{
    if !recursive && entry.depth > 1 {
        return None;
    }
    match entry.kind {
        EntryKind::File => {},
        _ => {
            return None;
        },
    }
    if !name_filter_passes(matcher, entry.path.as_str()) {
        return None;
    }
    if skip_metadata {
        return Some(
            FileInfo {
                path: entry.path.clone(),
                size: 0,
                modified: None,
                is_dir: false,
                extension: None,
            },
        );
    }
    let meta = match entry.metadata {
        Some(meta) => meta,
        None => {
            return None;
        },
    };
    let ext: Option<String> = if filtered {
        None
    } else {
        match extension(entry.path.as_str()) {
            Some(e) => Some(to_lowercase(e)),
            None => None,
        }
    };
    Some(
        FileInfo {
            path: entry.path.clone(),
            size: meta.size,
            modified: meta.modified,
            is_dir: false,
            extension: ext,
        },
    )
}

/// The text of an optional string.
pub open spec fn opt_text(text: Option<&str>) -> Option<Seq<char>> {
    match text {
        Some(t) => Some(t@),
        None => None,
    }
}

/// Turns the entries of a walk into file records, handing them over in batches.
fn scan_directory_impl(
    entries: &Vec<WalkEntry>,
    recursive: bool,
    name_glob: Option<&str>,
    pushed_down: bool,
    skip_metadata: bool,
) -> (files: Vec<FileInfo>)
    ensures
        records(files@) == scan_result(
            entries@,
            rules_for(recursive, opt_text(name_glob), pushed_down, skip_metadata),
        ),
{
    let matcher: Option<NameFilter> = if pushed_down {
        None
    } else {
        match name_glob {
            Some(pattern) => matcher_for(pattern),
            None => None,
        }
    };
    let filtered = name_glob.is_some();
    let ghost rules = rules_for(recursive, opt_text(name_glob), pushed_down, skip_metadata);
    assert(rules == ScanRules {
        recursive,
        manual: pattern_of(matcher),
        filtered,
        skip_metadata,
    });
    let mut files: Vec<FileInfo> = Vec::new();
    let mut collector: Collector<FileInfo> = Collector::new();
    let mut i: usize = 0;
    assert(records(files@ + collector.pending()) =~= emitted_below(entries@, 0, rules));
    while i < entries.len()
        invariant
            i <= entries@.len(),
            rules == (ScanRules { recursive, manual: pattern_of(matcher), filtered, skip_metadata }),
            records(files@ + collector.pending()) == emitted_below(entries@, i as nat, rules),
        decreases entries.len() - i,
    {
        let ghost so_far = files@ + collector.pending();
        match emit(&entries[i], recursive, &matcher, filtered, skip_metadata) {
            Some(info) => {
                match collector.push(info) {
                    Some(mut batch) => {
                        files.append(&mut batch);
                    },
                    None => {},
                }
                assert(files@ + collector.pending() =~= so_far.push(info));
                assert(records(so_far.push(info)) =~= records(so_far).push(info@));
            },
            None => {},
        }
        i += 1;
    }
    let ghost so_far = files@ + collector.pending();
    match collector.flush() {
        Some(mut rest) => {
            files.append(&mut rest);
        },
        None => {},
    }
    assert(files@ =~= so_far);
    files
}

/// The records of all files among a walk's entries, with metadata and extension.
/// A flat scan takes only the root's direct children.
pub fn scan_directory(entries: &Vec<WalkEntry>, recursive: bool) -> (files: Vec<FileInfo>)
    ensures
        records(files@) == scan_result(entries@, rules_for(recursive, None, false, false)),
{
    scan_directory_filtered(entries, recursive, None, false)
}

/// The records of the files whose name passes an optional pattern, with metadata.
/// `pushed_down` says that the walker applied the pattern itself, so that the
/// entries are taken as they come. With a pattern no extension is computed.
pub fn scan_directory_filtered(
    entries: &Vec<WalkEntry>,
    recursive: bool,
    name_glob: Option<&str>,
    pushed_down: bool,
) -> (files: Vec<FileInfo>)
    ensures
        records(files@) == scan_result(
            entries@,
            rules_for(recursive, opt_text(name_glob), pushed_down, false),
        ),
{
    scan_directory_impl(entries, recursive, name_glob, pushed_down, false)
}

/// As `scan_directory_filtered`, but without metadata: every record has size 0, no
/// modification time and no extension.
pub fn scan_directory_names_only(
    entries: &Vec<WalkEntry>,
    recursive: bool,
    name_glob: Option<&str>,
    pushed_down: bool,
) -> (files: Vec<FileInfo>)
    ensures
        records(files@) == scan_result(
            entries@,
            rules_for(recursive, opt_text(name_glob), pushed_down, true),
        ),
{
    scan_directory_impl(entries, recursive, name_glob, pushed_down, true)
}

/// What a scan costs and yields.
#[derive(Debug)]
pub enum ScanMode {
    /// Every file, with metadata and extension.
    Full,
    /// The files whose name passes the pattern, with metadata, without extension.
    Filtered(String),
    /// The files whose name passes the pattern, or every file where there is none,
    /// without metadata.
    NamesOnly(Option<String>),
}

impl ScanMode {
    /// The name pattern of the mode.
    pub open spec fn pattern(&self) -> Option<Seq<char>> {
        match self {
            ScanMode::Full => None,
            ScanMode::Filtered(pattern) => Some(pattern@),
            ScanMode::NamesOnly(Some(pattern)) => Some(pattern@),
            ScanMode::NamesOnly(None) => None,
        }
    }

    /// Whether the mode reads no metadata.
    pub open spec fn names_only(&self) -> bool {
        self is NamesOnly
    }
}

/// Scans the entries of a walk in a mode. `pushed_down` says that the walker applied
/// the mode's pattern itself.
pub fn scan(
    entries: &Vec<WalkEntry>,
    recursive: bool,
    mode: &ScanMode,
    pushed_down: bool,
) -> (files: Vec<FileInfo>)
    ensures
        records(files@) == scan_result(
            entries@,
            rules_for(recursive, mode.pattern(), pushed_down, mode.names_only()),
        ),
{
    match mode {
        ScanMode::Full => scan_directory(entries, recursive),
        ScanMode::Filtered(pattern) => scan_directory_filtered(
            entries,
            recursive,
            Some(pattern.as_str()),
            pushed_down,
        ),
        ScanMode::NamesOnly(Some(pattern)) => scan_directory_names_only(
            entries,
            recursive,
            Some(pattern.as_str()),
            pushed_down,
        ),
        ScanMode::NamesOnly(None) => scan_directory_names_only(
            entries,
            recursive,
            None,
            pushed_down,
        ),
    }
}

/// A record is among the first `n` entries' records exactly if one of those entries
/// yields it.
pub proof fn lemma_emitted_members(entries: Seq<WalkEntry>, n: nat, rules: ScanRules)
    requires
        n <= entries.len(),
    ensures
        forall|record: FileRecord|
            emitted_below(entries, n, rules).contains(record) <==> exists|i: int|
                0 <= i < n && emitted(#[trigger] entries[i], rules) == Some(record),
    decreases n,
{
    if n > 0 {
        lemma_emitted_members(entries, (n - 1) as nat, rules);
        let earlier = emitted_below(entries, (n - 1) as nat, rules);
        let now = emitted_below(entries, n, rules);
        assert forall|record: FileRecord| now.contains(record) implies exists|i: int|
            0 <= i < n && emitted(#[trigger] entries[i], rules) == Some(record) by {
            let at = choose|at: int| 0 <= at < now.len() && now[at] == record;
            if at < earlier.len() {
                assert(earlier[at] == record);
                assert(earlier.contains(record));
                let i = choose|i: int|
                    0 <= i < n - 1 && emitted(#[trigger] entries[i], rules) == Some(record);
                assert(0 <= i < n && emitted(entries[i], rules) == Some(record));
            } else {
                assert(emitted(entries[n - 1], rules) == Some(record));
            }
        }
        assert forall|record: FileRecord|
            (exists|i: int|
                0 <= i < n && emitted(#[trigger] entries[i], rules) == Some(record)) implies now.contains(
            record,
        ) by {
            let i = choose|i: int|
                0 <= i < n && emitted(#[trigger] entries[i], rules) == Some(record);
            if i < n - 1 {
                assert(earlier.contains(record));
                let at = choose|at: int| 0 <= at < earlier.len() && earlier[at] == record;
                assert(now[at] == record);
            } else {
                assert(now[earlier.len() as int] == record);
            }
        }
    }
}

/// A scan never records a directory.
pub proof fn lemma_scan_records_files_only(entries: Seq<WalkEntry>, rules: ScanRules)
    ensures
        forall|k: int|
            0 <= k < scan_result(entries, rules).len() ==> !(#[trigger] scan_result(
                entries,
                rules,
            )[k]).is_dir,
{
    lemma_emitted_members(entries, entries.len(), rules);
    assert forall|k: int| 0 <= k < scan_result(entries, rules).len() implies !(
    #[trigger] scan_result(entries, rules)[k]).is_dir by {
        let record = scan_result(entries, rules)[k];
        assert(scan_result(entries, rules).contains(record));
    }
}

/// Which records a scan makes depends on which entries the walk found, not on the
/// order in which it found them: two walks with the same set of entries give the
/// same set of records.
pub proof fn lemma_scan_is_set_function(
    first: Seq<WalkEntry>,
    second: Seq<WalkEntry>,
    rules: ScanRules,
)
    requires
        first.to_set() == second.to_set(),
    ensures
        scan_result(first, rules).to_set() == scan_result(second, rules).to_set(),
{
    lemma_emitted_members(first, first.len(), rules);
    lemma_emitted_members(second, second.len(), rules);
    assert forall|record: FileRecord|
        scan_result(first, rules).to_set().contains(record) <==> scan_result(
            second,
            rules,
        ).to_set().contains(record) by {
        if scan_result(first, rules).contains(record) {
            let i = choose|i: int|
                0 <= i < first.len() && emitted(#[trigger] first[i], rules) == Some(record);
            assert(first.to_set().contains(first[i]));
            assert(second.contains(first[i]));
            let j = choose|j: int| 0 <= j < second.len() && second[j] == first[i];
            assert(emitted(second[j], rules) == Some(record));
        }
        if scan_result(second, rules).contains(record) {
            let i = choose|i: int|
                0 <= i < second.len() && emitted(#[trigger] second[i], rules) == Some(record);
            assert(second.to_set().contains(second[i]));
            assert(first.contains(second[i]));
            let j = choose|j: int| 0 <= j < first.len() && first[j] == second[i];
            assert(emitted(first[j], rules) == Some(record));
        }
    }
    assert(scan_result(first, rules).to_set() =~= scan_result(second, rules).to_set());
}

/// The records of the first `n` entries depend on those entries only.
proof fn lemma_emitted_prefix(longer: Seq<WalkEntry>, shorter: Seq<WalkEntry>, n: nat, rules: ScanRules)
    requires
        n <= shorter.len() <= longer.len(),
        forall|i: int| 0 <= i < shorter.len() ==> longer[i] == shorter[i],
    ensures
        emitted_below(longer, n, rules) == emitted_below(shorter, n, rules),
    decreases n,
{
    if n > 0 {
        lemma_emitted_prefix(longer, shorter, (n - 1) as nat, rules);
    }
}

/// The records of `a` followed by `b`, as far as the first `m` entries of `b`, are
/// the records of `a` followed by those of the first `m` entries of `b`.
proof fn lemma_emitted_concat(a: Seq<WalkEntry>, b: Seq<WalkEntry>, m: nat, rules: ScanRules)
    requires
        m <= b.len(),
    ensures
        emitted_below(a + b, a.len() + m, rules) == scan_result(a, rules) + emitted_below(
            b,
            m,
            rules,
        ),
    decreases m,
{
    if m == 0 {
        lemma_emitted_prefix(a + b, a, a.len(), rules);
        assert(scan_result(a, rules) + emitted_below(b, 0, rules) =~= scan_result(a, rules));
    } else {
        lemma_emitted_concat(a, b, (m - 1) as nat, rules);
        assert((a + b)[a.len() + m - 1] == b[m - 1]);
        let earlier = emitted_below(b, (m - 1) as nat, rules);
        match emitted(b[m - 1], rules) {
            Some(record) => {
                assert((scan_result(a, rules) + earlier).push(record) =~= scan_result(a, rules)
                    + earlier.push(record));
            },
            None => {},
        }
    }
}

/// A scan of one walk after another makes the records of the one followed by the
/// records of the other.
pub proof fn lemma_scan_concat(a: Seq<WalkEntry>, b: Seq<WalkEntry>, rules: ScanRules)
    ensures
        scan_result(a + b, rules) == scan_result(a, rules) + scan_result(b, rules),
{
    lemma_emitted_concat(a, b, b.len(), rules);
}

/// The records that a scan makes, each as often as it is made, depend on the entries
/// that the walk found, each as often as it was found, and on nothing else: two
/// walks that found the same entries in whatever order, by whatever number of
/// threads and in whatever batches, give the same records up to their order.
pub proof fn lemma_scan_is_order_free(first: Seq<WalkEntry>, second: Seq<WalkEntry>, rules: ScanRules)
    requires
        first.to_multiset() == second.to_multiset(),
    ensures
        scan_result(first, rules).to_multiset() == scan_result(second, rules).to_multiset(),
    decreases first.len(),
{
    vstd::seq_lib::to_multiset_len(first);
    vstd::seq_lib::to_multiset_len(second);
    if first.len() == 0 {
        assert(first =~= second);
    } else {
        let last = first.last();
        let first_rest = first.drop_last();
        assert(first =~= first_rest.push(last));
        vstd::seq_lib::to_multiset_build(first_rest, last);
        vstd::seq_lib::to_multiset_contains(first, last);
        vstd::seq_lib::to_multiset_contains(second, last);
        assert(first.contains(last));
        let j = choose|j: int| 0 <= j < second.len() && second[j] == last;
        let second_rest = second.remove(j);
        vstd::seq_lib::to_multiset_remove(second, j);
        assert(first_rest.to_multiset() =~= first.to_multiset().remove(last));
        lemma_scan_is_order_free(first_rest, second_rest, rules);
        let head = second.subrange(0, j);
        let tail = second.subrange(j + 1, second.len() as int);
        let one = seq![last];
        assert(second =~= (head + one) + tail);
        assert(second_rest =~= head + tail);
        assert(first =~= first_rest + one);
        lemma_scan_concat(first_rest, one, rules);
        lemma_scan_concat(head + one, tail, rules);
        lemma_scan_concat(head, one, rules);
        lemma_scan_concat(head, tail, rules);
        let made = scan_result(one, rules);
        vstd::seq_lib::lemma_multiset_commutative(scan_result(first_rest, rules), made);
        vstd::seq_lib::lemma_multiset_commutative(scan_result(head, rules), made);
        vstd::seq_lib::lemma_multiset_commutative(
            scan_result(head, rules) + made,
            scan_result(tail, rules),
        );
        vstd::seq_lib::lemma_multiset_commutative(
            scan_result(head, rules),
            scan_result(tail, rules),
        );
        assert(scan_result(second, rules).to_multiset() =~= scan_result(
            second_rest,
            rules,
        ).to_multiset().add(made.to_multiset()));
        assert(scan_result(first, rules).to_multiset() =~= scan_result(
            first_rest,
            rules,
        ).to_multiset().add(made.to_multiset()));
    }
}

} // verus!
