//! A trigram index over file names: the relative path of every file under a root,
//! and for every trigram of a lowercased file name the sorted ids of the files whose
//! name holds it.

use std::collections::HashMap;
use vstd::prelude::*;
use vstd::std_specs::iter::IteratorSpec;
use vstd::utf8::{decode_utf8, encode_utf8, valid_utf8};

use crate::frame::{frame, framed};
use crate::glob::{matcher_for, name_passes, passes};
use crate::paths::{
    file_name, file_name_of, hash_path, join, joined, name_or_empty, path_hash, relative_to,
    strip_prefix,
};
use crate::scanner::FileInfo;
use crate::text::{hex16, hex_text, same_text, to_lowercase, utf8_text};
use crate::time::Timestamp;
pub use crate::trigram::{
    extract_trigrams_from_glob, extract_trigrams_from_literal, glob_trigram_keys, has_trigram,
    intersect_sorted, key_of, literal_trigrams, lowered_bytes, strictly_increasing, trigram_keys,
    window_key,
};

verus! {

/// Whether one of the windows of `bytes` that start before position `k` has the key.
pub open spec fn window_before(bytes: Seq<u8>, k: int, key: u32) -> bool {
    exists|j: int| 0 <= j < k && j + 3 <= bytes.len() && #[trigger] window_key(bytes, j) == key
}

/// The posting list filed under a key, or the empty list where the key is absent.
pub open spec fn list_or_empty(postings: Map<u32, Vec<u32>>, key: u32) -> Seq<u32> {
    if postings.contains_key(key) {
        postings[key]@
    } else {
        Seq::empty()
    }
}

/// Every posting list is strictly increasing and holds only ids below `bound`.
pub open spec fn lists_below(postings: Map<u32, Vec<u32>>, bound: int) -> bool {
    forall|key: u32| #[trigger]
        postings.contains_key(key) ==> strictly_increasing(postings[key]@) && forall|j: int|
            0 <= j < postings[key]@.len() ==> #[trigger] postings[key]@[j] < bound
}

/// Files the id of one file under every trigram of its lowercased name.
fn add_postings(postings: &mut HashMap<u32, Vec<u32>>, name: &[u8], id: u32)
    requires
        lists_below(old(postings)@, id as int),
    ensures
        forall|key: u32| #[trigger]
            final(postings)@.contains_key(key) <==> old(postings)@.contains_key(key) || has_trigram(
                name@,
                key,
            ),
        forall|key: u32| #[trigger]
            final(postings)@.contains_key(key) ==> final(postings)@[key]@ == if has_trigram(
                name@,
                key,
            ) {
                list_or_empty(old(postings)@, key).push(id)
            } else {
                old(postings)@[key]@
            },
{
    broadcast use vstd::std_specs::hash::group_hash_axioms;

    let n = name.len();
    if n < 3 {
        assert(forall|key: u32| !has_trigram(name@, key));
        return ;
    }
    let ghost start = postings@;
    let mut k: usize = 0;
    while k < n - 2
        invariant
            n == name@.len(),
            n >= 3,
            k <= n - 2,
            lists_below(start, id as int),
            forall|key: u32| #[trigger]
                postings@.contains_key(key) <==> start.contains_key(key) || window_before(
                    name@,
                    k as int,
                    key,
                ),
            forall|key: u32| #[trigger]
                postings@.contains_key(key) ==> postings@[key]@ == if window_before(
                    name@,
                    k as int,
                    key,
                ) {
                    list_or_empty(start, key).push(id)
                } else {
                    start[key]@
                },
        decreases n - k,
    {
        let tri = [name[k], name[k + 1], name[k + 2]];
        let key = key_of(&tri);
        assert(key == window_key(name@, k as int));
        let ghost before = postings@;
        let mut list: Vec<u32> = match postings.remove(&key) {
            Some(found) => found,
            None => Vec::new(),
        };
        assert(list@ == list_or_empty(before, key));
        let len = list.len();
        if len == 0 || list[len - 1] != id {
            proof {
                if window_before(name@, k as int, key) {
                    assert(before.contains_key(key));
                    assert(list@ == list_or_empty(start, key).push(id));
                    assert(list@[len - 1] == id);
                }
            }
            list.push(id);
        } else {
            proof {
                if !window_before(name@, k as int, key) {
                    assert(before.contains_key(key));
                    assert(start.contains_key(key));
                    assert(list@ == start[key]@);
                    assert(start[key]@[len - 1] < id);
                }
            }
        }
        postings.insert(key, list);
        proof {
            assert(window_before(name@, k + 1, key));
            assert forall|other: u32| other != key implies (window_before(name@, k + 1, other)
                <==> window_before(name@, k as int, other)) by {
                if window_before(name@, k + 1, other) {
                    let j = choose|j: int|
                        0 <= j < k + 1 && j + 3 <= name@.len() && #[trigger] window_key(name@, j)
                            == other;
                    assert(j < k);
                }
                if window_before(name@, k as int, other) {
                    let j = choose|j: int|
                        0 <= j < k && j + 3 <= name@.len() && #[trigger] window_key(name@, j)
                            == other;
                    assert(j < k + 1);
                }
            }
            assert(postings@ == before.insert(key, list));
        }
        k += 1;
    }
    proof {
        assert forall|key: u32| has_trigram(name@, key) <==> window_before(name@, k as int, key) by {
            if has_trigram(name@, key) {
                let j = choose|j: int|
                    0 <= j && j + 3 <= name@.len() && #[trigger] window_key(name@, j) == key;
                assert(0 <= j < k && j + 3 <= name@.len() && window_key(name@, j) == key);
            }
            if window_before(name@, k as int, key) {
                let j = choose|j: int|
                    0 <= j < k && j + 3 <= name@.len() && #[trigger] window_key(name@, j) == key;
                assert(0 <= j && j + 3 <= name@.len() && window_key(name@, j) == key);
            }
        }
    }
}

/// Filing file `i` under the trigrams of its name keeps the posting lists exact.
proof fn lemma_postings_step(
    files: Seq<FileInfo>,
    before: Map<u32, Vec<u32>>,
    after: Map<u32, Vec<u32>>,
    i: int,
)
    requires
        0 <= i < files.len(),
        i < u32::MAX,
        lists_below(before, i),
        forall|key: u32|
            before.contains_key(key) <==> exists|f: int|
                0 <= f < i && #[trigger] name_has_trigram(files[f].path@, key),
        forall|key: u32, id: u32|
            before.contains_key(key) ==> (#[trigger] before[key]@.contains(id) <==> id < i
                && name_has_trigram(files[id as int].path@, key)),
        forall|key: u32| #[trigger]
            after.contains_key(key) <==> before.contains_key(key) || name_has_trigram(
                files[i].path@,
                key,
            ),
        forall|key: u32| #[trigger]
            after.contains_key(key) ==> after[key]@ == if name_has_trigram(files[i].path@, key) {
                list_or_empty(before, key).push(i as u32)
            } else {
                before[key]@
            },
    ensures
        lists_below(after, i + 1),
        forall|key: u32|
            after.contains_key(key) <==> exists|f: int|
                0 <= f < i + 1 && #[trigger] name_has_trigram(files[f].path@, key),
        forall|key: u32, id: u32|
            after.contains_key(key) ==> (#[trigger] after[key]@.contains(id) <==> id < i + 1
                && name_has_trigram(files[id as int].path@, key)),
{
    assert forall|key: u32| #[trigger] after.contains_key(key) implies strictly_increasing(
        after[key]@,
    ) && (forall|j: int| 0 <= j < after[key]@.len() ==> #[trigger] after[key]@[j] < i + 1) && (
    forall|id: u32| #[trigger]
        after[key]@.contains(id) <==> id < i + 1 && name_has_trigram(files[id as int].path@, key))
    by {
        let old_list = list_or_empty(before, key);
        if before.contains_key(key) {
            assert(strictly_increasing(old_list));
            assert(forall|j: int| 0 <= j < old_list.len() ==> #[trigger] old_list[j] < i);
        }
        if name_has_trigram(files[i].path@, key) {
            let new_list = old_list.push(i as u32);
            assert(after[key]@ == new_list);
            assert forall|id: u32| #[trigger]
                new_list.contains(id) <==> id < i + 1 && name_has_trigram(
                    files[id as int].path@,
                    key,
                ) by {
                if new_list.contains(id) {
                    let at = choose|at: int| 0 <= at < new_list.len() && new_list[at] == id;
                    if at < old_list.len() {
                        assert(old_list[at] == id);
                        assert(before[key]@.contains(id));
                    }
                }
                if id < i + 1 && name_has_trigram(files[id as int].path@, key) {
                    if id < i {
                        assert(before.contains_key(key));
                        assert(before[key]@.contains(id));
                        let at = choose|at: int| 0 <= at < old_list.len() && old_list[at] == id;
                        assert(new_list[at] == id);
                    } else {
                        assert(new_list[old_list.len() as int] == id);
                    }
                }
            }
        } else {
            assert(after[key]@ == before[key]@);
        }
    }
    assert forall|key: u32|
        after.contains_key(key) <==> exists|f: int|
            0 <= f < i + 1 && #[trigger] name_has_trigram(files[f].path@, key) by {
        if after.contains_key(key) {
            if before.contains_key(key) {
                let f = choose|f: int|
                    0 <= f < i && #[trigger] name_has_trigram(files[f].path@, key);
                assert(0 <= f < i + 1 && name_has_trigram(files[f].path@, key));
            } else {
                assert(name_has_trigram(files[i].path@, key));
            }
        }
        if exists|f: int| 0 <= f < i + 1 && #[trigger] name_has_trigram(files[f].path@, key) {
            let f = choose|f: int|
                0 <= f < i + 1 && #[trigger] name_has_trigram(files[f].path@, key);
            if f < i {
                assert(before.contains_key(key));
            }
        }
    }
}

/// The texts of a list of strings, in the same order.
pub open spec fn texts(strings: Seq<String>) -> Seq<Seq<char>> {
    strings.map_values(|s: String| s@)
}

/// The longest relative path, in bytes, that the index stores; longer ones are cut.
pub const MAX_PATH_BYTES: usize = 65535;

/// The bytes stored for a file: its path relative to the root, cut to
/// `MAX_PATH_BYTES`.
pub open spec fn stored_bytes(root: Seq<char>, path: Seq<char>) -> Seq<u8> {
    let bytes = encode_utf8(relative_to(path, root));
    if bytes.len() > MAX_PATH_BYTES {
        bytes.take(MAX_PATH_BYTES as int)
    } else {
        bytes
    }
}

/// Whether the lowercased file name of `path` holds the trigram `key`.
pub open spec fn name_has_trigram(path: Seq<char>, key: u32) -> bool {
    match file_name_of(path) {
        Some(name) => has_trigram(lowered_bytes(name), key),
        None => false,
    }
}

/// The bytes that the stored paths of the first `n` files take together.
pub open spec fn stored_total(root: Seq<char>, files: Seq<FileInfo>, n: nat) -> nat
    decreases n,
{
    if n == 0 {
        0
    } else {
        stored_total(root, files, (n - 1) as nat) + stored_bytes(root, files[n - 1].path@).len()
    }
}

/// Whether the first `n` files fit an index: ids and byte offsets are 32-bit.
pub open spec fn fits(root: Seq<char>, files: Seq<FileInfo>, n: nat) -> bool {
    n <= files.len() && n <= u32::MAX && stored_total(root, files, n) <= u32::MAX
}

/// An immutable snapshot of the file names under one root directory: the relative
/// path of every file, and for every trigram of a lowercased file name the sorted
/// ids of the files whose name holds it.
pub struct TrigramIndex {
    root: String,
    built_at: Timestamp,
    path_offsets: Vec<(u32, u16)>,
    path_data: Vec<u8>,
    trigrams: HashMap<u32, Vec<u32>>,
    total_files: u32,
}

impl TrigramIndex {
    /// The root directory that the index covers.
    pub closed spec fn root_text(&self) -> Seq<char> {
        self.root@
    }

    /// When the index was built.
    pub closed spec fn built(&self) -> Timestamp {
        self.built_at
    }

    /// The number of indexed files; their ids are `0..file_count()`.
    pub closed spec fn file_count(&self) -> nat {
        self.total_files as nat
    }

    /// The stored relative path of file `id`, as bytes.
    pub closed spec fn stored_path(&self, id: int) -> Seq<u8> {
        self.path_data@.subrange(
            self.path_offsets@[id].0 as int,
            self.path_offsets@[id].0 + self.path_offsets@[id].1,
        )
    }

    /// The trigram keys that have a posting list.
    pub closed spec fn posting_keys(&self) -> Set<u32> {
        self.trigrams@.dom()
    }

    /// The posting list of a key: the ids of the files whose name holds the trigram.
    pub closed spec fn posting(&self, key: u32) -> Seq<u32> {
        self.trigrams@[key]@
    }

    /// The index is consistent: one offset pair per file, every stored path inside
    /// the packed buffer, and every posting list strictly increasing with ids below
    /// the file count.
    pub closed spec fn wf(&self) -> bool {
        &&& self.path_offsets@.len() == self.total_files
        &&& forall|i: int|
            0 <= i < self.path_offsets@.len() ==> (#[trigger] self.path_offsets@[i]).0
                + self.path_offsets@[i].1 <= self.path_data@.len()
        &&& lists_below(self.trigrams@, self.total_files as int)
    }

    #[verifier::type_invariant]
    spec fn inv(self) -> bool {
        self.wf()
    }

    /// Whether the index holds exactly what `build` makes of a root and a file list.
    pub open spec fn indexes(&self, root: Seq<char>, files: Seq<FileInfo>) -> bool {
        &&& self.wf()
        &&& self.root_text() == root
        &&& fits(root, files, self.file_count())
        &&& self.file_count() == files.len() || !fits(root, files, self.file_count() + 1)
        &&& forall|i: int|
            0 <= i < self.file_count() ==> #[trigger] self.stored_path(i) == stored_bytes(
                root,
                files[i].path@,
            )
        &&& forall|key: u32|
            self.posting_keys().contains(key) <==> exists|i: int|
                0 <= i < self.file_count() && #[trigger] name_has_trigram(files[i].path@, key)
        &&& forall|key: u32, id: u32|
            self.posting_keys().contains(key) ==> (#[trigger] self.posting(key).contains(id) <==> id
                < self.file_count() && name_has_trigram(files[id as int].path@, key))
    }

    /// The stored relative path of file `id` as text, where it is valid UTF-8.
    pub open spec fn path_text(&self, id: int) -> Option<Seq<char>> {
        if valid_utf8(self.stored_path(id)) {
            Some(decode_utf8(self.stored_path(id)))
        } else {
            None
        }
    }

    /// Whether file `id` is listed under every one of the keys.
    pub open spec fn is_candidate(&self, keys: Seq<u32>, id: u32) -> bool {
        forall|k: int|
            0 <= k < keys.len() ==> self.posting_keys().contains(#[trigger] keys[k])
                && self.posting(keys[k]).contains(id)
    }

    /// What a query for `pattern` returns for file `id`: the file's full path where
    /// the file is listed under every trigram of the pattern, its stored path reads
    /// as text with a final component, and that component passes the pattern.
    pub open spec fn hit(&self, pattern: Seq<char>, id: u32) -> Option<Seq<char>> {
        if !self.is_candidate(glob_trigram_keys(lowered_bytes(pattern)), id) {
            None
        } else {
            match self.path_text(id as int) {
                None => None,
                Some(rel) => match file_name_of(rel) {
                    None => None,
                    Some(name) => if name_passes(pattern, name) {
                        Some(joined(self.root_text(), rel))
                    } else {
                        None
                    },
                },
            }
        }
    }

    /// The hits among the files with ids below `n`, in order of id.
    pub open spec fn hits_below(&self, pattern: Seq<char>, n: nat) -> Seq<Seq<char>>
        decreases n,
    {
        if n == 0 {
            Seq::empty()
        } else {
            let earlier = self.hits_below(pattern, (n - 1) as nat);
            match self.hit(pattern, (n - 1) as u32) {
                Some(path) => earlier.push(path),
                None => earlier,
            }
        }
    }

    /// The answer to a query: `None` for a pattern without trigrams, else the hits
    /// among all files in order of id.
    pub open spec fn query_result(&self, pattern: Seq<char>) -> Option<Seq<Seq<char>>> {
        if glob_trigram_keys(lowered_bytes(pattern)).len() == 0 {
            None
        } else {
            Some(self.hits_below(pattern, self.file_count()))
        }
    }

    /// Ids in a range without candidates add no hits.
    proof fn lemma_no_hits_between(&self, pattern: Seq<char>, lo: nat, hi: nat)
        requires
            lo <= hi <= u32::MAX,
            forall|id: u32|
                lo <= id < hi ==> !self.is_candidate(
                    glob_trigram_keys(lowered_bytes(pattern)),
                    id,
                ),
        ensures
            self.hits_below(pattern, hi) == self.hits_below(pattern, lo),
        decreases hi,
    {
        if hi > lo {
            self.lemma_no_hits_between(pattern, lo, (hi - 1) as nat);
            assert(!self.is_candidate(glob_trigram_keys(lowered_bytes(pattern)), (hi - 1) as u32));
        }
    }

    /// The root directory that the index covers.
    pub fn root(&self) -> (root: &str)
        ensures
            root@ == self.root_text(),
    {
        self.root.as_str()
    }

    /// When the index was built.
    pub fn built_at(&self) -> (at: Timestamp)
        ensures
            at == self.built(),
    {
        self.built_at
    }

    /// The number of indexed files.
    pub fn total_files(&self) -> (count: u32)
        ensures
            count == self.file_count(),
    {
        self.total_files
    }

    /// Builds the index of the files that a walk of `root` found. File ids follow the
    /// order of `files`. Where the files exceed what 32-bit ids and offsets can hold,
    /// the longest prefix that fits is indexed.
    pub fn build(root: &str, files: &Vec<FileInfo>, built_at: Timestamp) -> (index: TrigramIndex)
        ensures
            index.indexes(root@, files@),
            index.built() == built_at,
    {
        broadcast use vstd::std_specs::hash::group_hash_axioms;

        let mut path_offsets: Vec<(u32, u16)> = Vec::new();
        let mut path_data: Vec<u8> = Vec::new();
        let mut trigrams: HashMap<u32, Vec<u32>> = HashMap::new();
        let mut i: usize = 0;
        let mut full = false;
        while i < files.len() && !full
            invariant
                i <= files@.len(),
                fits(root@, files@, i as nat),
                full ==> i < files@.len() && !fits(root@, files@, (i + 1) as nat),
                path_offsets@.len() == i,
                path_data@.len() == stored_total(root@, files@, i as nat),
                forall|f: int|
                    0 <= f < i ==> (#[trigger] path_offsets@[f]).0 + path_offsets@[f].1
                        <= path_data@.len() && path_data@.subrange(
                        path_offsets@[f].0 as int,
                        path_offsets@[f].0 + path_offsets@[f].1,
                    ) == stored_bytes(root@, files@[f].path@),
                lists_below(trigrams@, i as int),
                forall|key: u32|
                    trigrams@.contains_key(key) <==> exists|f: int|
                        0 <= f < i && #[trigger] name_has_trigram(files@[f].path@, key),
                forall|key: u32, id: u32|
                    trigrams@.contains_key(key) ==> (#[trigger] trigrams@[key]@.contains(id) <==> id
                        < i && name_has_trigram(files@[id as int].path@, key)),
            decreases files.len() - i + if full { 0int } else { 1int },
        {
            let file = &files[i];
            let stripped = strip_prefix(file.path.as_str(), root);
            let rel: &str = match stripped {
                Some(rest) => rest,
                None => file.path.as_str(),
            };
            let rel_bytes = rel.as_bytes();
            let len: usize = if rel_bytes.len() > MAX_PATH_BYTES {
                MAX_PATH_BYTES
            } else {
                rel_bytes.len()
            };
            let stored = vstd::slice::slice_subrange(rel_bytes, 0, len);
            assert(stored@ == stored_bytes(root@, file.path@));
            if i >= u32::MAX as usize || path_data.len() > u32::MAX as usize - len {
                full = true;
            } else {
                let start = path_data.len() as u32;
                let ghost data_before = path_data@;
                path_data.extend_from_slice(stored);
                path_offsets.push((start, len as u16));
                proof {
                    assert(path_data@ == data_before + stored@);
                    assert forall|f: int| 0 <= f < i + 1 implies (#[trigger] path_offsets@[f]).0
                        + path_offsets@[f].1 <= path_data@.len() && path_data@.subrange(
                        path_offsets@[f].0 as int,
                        path_offsets@[f].0 + path_offsets@[f].1,
                    ) == stored_bytes(root@, files@[f].path@) by {
                        if f < i {
                            assert(path_data@.subrange(
                                path_offsets@[f].0 as int,
                                path_offsets@[f].0 + path_offsets@[f].1,
                            ) =~= data_before.subrange(
                                path_offsets@[f].0 as int,
                                path_offsets@[f].0 + path_offsets@[f].1,
                            ));
                        } else {
                            assert(path_data@.subrange(start as int, start + len) =~= stored@);
                        }
                    }
                }
                let ghost postings_before = trigrams@;
                let name = file_name(file.path.as_str());
                match name {
                    Some(name) => {
                        let lower = to_lowercase(name);
                        let lower_bytes = lower.as_str().as_bytes();
                        assert(lower_bytes@ == lowered_bytes(name@));
                        add_postings(&mut trigrams, lower_bytes, i as u32);
                    },
                    None => {},
                }
                proof {
                    lemma_postings_step(files@, postings_before, trigrams@, i as int);
                }
                i += 1;
            }
        }
        TrigramIndex {
            root: root.to_owned(),
            built_at,
            path_offsets,
            path_data,
            trigrams,
            total_files: i as u32,
        }
    }

    /// The stored relative path of a file, or `None` where the id is not in the
    /// index or the stored bytes are not valid UTF-8.
    pub fn get_path(&self, id: u32) -> (path: Option<&str>)
        ensures
            match path {
                Some(text) => id < self.file_count() && self.path_text(id as int) == Some(text@),
                None => id >= self.file_count() || self.path_text(id as int).is_none(),
            },
    {
        proof {
            use_type_invariant(self);
        }
        if id as usize >= self.path_offsets.len() {
            return None;
        }
        let offset = self.path_offsets[id as usize];
        let total = self.path_data.len();
        assert(offset.0 + offset.1 <= total);
        let start = offset.0 as usize;
        let end = start + offset.1 as usize;
        let bytes = vstd::slice::slice_subrange(self.path_data.as_slice(), start, end);
        let text = utf8_text(bytes);
        proof {
            if let Some(t) = text {
                vstd::utf8::encode_utf8_decode_utf8(t@);
            }
        }
        text
    }

    /// Answers a glob pattern from the index: `None` where the pattern yields no
    /// trigram and the caller has to walk the tree, else the full paths of the
    /// indexed files whose name matches, in order of file id.
    pub fn query(&self, pattern: &str) -> (found: Option<Vec<String>>)
        ensures
            match found {
                Some(paths) => self.query_result(pattern@) == Some(texts(paths@)),
                None => self.query_result(pattern@).is_none(),
            },
    {
        broadcast use vstd::std_specs::hash::group_hash_axioms;

        proof {
            use_type_invariant(self);
        }
        let trigrams = extract_trigrams_from_glob(pattern);
        if trigrams.len() == 0 {
            return None;
        }
        let ghost keys = glob_trigram_keys(lowered_bytes(pattern@));
        assert(keys.len() == trigrams@.len());
        let mut candidates: Option<Vec<u32>> = None;
        let mut t: usize = 0;
        while t < trigrams.len()
            invariant
                self.wf(),
                t <= trigrams@.len(),
                keys == trigram_keys(trigrams@),
                keys == glob_trigram_keys(lowered_bytes(pattern@)),
                candidates.is_none() <==> t == 0,
                candidates matches Some(ids) ==> strictly_increasing(ids@) && forall|id: u32|
                    ids@.contains(id) <==> self.is_candidate(keys.take(t as int), id),
            decreases trigrams.len() - t,
        {
            let key = key_of(&trigrams[t]);
            assert(key == keys[t as int]);
            let posting: &Vec<u32> = match self.trigrams.get(&key) {
                Some(list) => list,
                None => {
                    proof {
                        assert forall|id: u32| !self.is_candidate(keys, id) by {
                            assert(!self.posting_keys().contains(keys[t as int]));
                        }
                        self.lemma_no_hits_between(pattern@, 0, self.file_count());
                    }
                    let nothing: Vec<String> = Vec::new();
                    assert(texts(nothing@) =~= Seq::<Seq<char>>::empty());
                    return Some(nothing);
                },
            };
            assert(posting@ == self.posting(key));
            let next: Vec<u32> = match candidates {
                None => vstd::slice::slice_to_vec(posting.as_slice()),
                Some(current) => intersect_sorted(current.as_slice(), posting.as_slice()),
            };
            proof {
                let before = keys.take(t as int);
                let after = keys.take(t + 1);
                assert forall|id: u32| next@.contains(id) <==> self.is_candidate(after, id) by {
                    if self.is_candidate(after, id) {
                        assert(after[t as int] == key);
                        assert forall|k: int| 0 <= k < before.len() implies self.posting_keys().contains(
                            #[trigger] before[k],
                        ) && self.posting(before[k]).contains(id) by {
                            assert(after[k] == before[k]);
                        }
                    }
                    if next@.contains(id) {
                        assert forall|k: int| 0 <= k < after.len() implies self.posting_keys().contains(
                            #[trigger] after[k],
                        ) && self.posting(after[k]).contains(id) by {
                            if k < t {
                                assert(after[k] == before[k]);
                            }
                        }
                    }
                }
            }
            candidates = Some(next);
            t += 1;
        }
        assert(keys.take(t as int) == keys);
        let ids: Vec<u32> = match candidates {
            Some(ids) => ids,
            None => Vec::new(),
        };
        let matcher = matcher_for(pattern);
        let mut results: Vec<String> = Vec::new();
        let mut c: usize = 0;
        let ghost mut done: nat = 0;
        assert(texts(results@) =~= self.hits_below(pattern@, 0));
        while c < ids.len()
            invariant
                self.wf(),
                c <= ids@.len(),
                keys == glob_trigram_keys(lowered_bytes(pattern@)),
                keys.len() > 0,
                strictly_increasing(ids@),
                forall|id: u32| ids@.contains(id) <==> self.is_candidate(keys, id),
                matcher.is_some() == crate::glob::usable(pattern@),
                matcher matches Some(m) ==> m.pattern_text() == pattern@,
                done <= u32::MAX + 1,
                c < ids@.len() ==> done <= ids@[c as int],
                c > 0 ==> done == ids@[c - 1] + 1,
                c == 0 ==> done == 0,
                texts(results@) == self.hits_below(pattern@, done),
            decreases ids.len() - c,
        {
            let id = ids[c];
            proof {
                assert forall|other: u32| done <= other < id implies !self.is_candidate(
                    keys,
                    other,
                ) by {
                    if self.is_candidate(keys, other) {
                        assert(ids@.contains(other));
                        let at = choose|at: int| 0 <= at < ids@.len() && ids@[at] == other;
                        if at < c {
                            if c > 0 && at < c - 1 {
                                assert(ids@[at] < ids@[c - 1]);
                            }
                        } else if at > c {
                            assert(ids@[c as int] < ids@[at]);
                        }
                    }
                }
                self.lemma_no_hits_between(pattern@, done, id as nat);
                assert(ids@.contains(id));
                assert(self.is_candidate(keys, id));
                assert(self.posting(keys[0]).contains(id));
                let at = choose|at: int|
                    0 <= at < self.posting(keys[0]).len() && self.posting(keys[0])[at] == id;
                assert(self.posting(keys[0])[at] < self.file_count());
            }
            let ghost earlier = texts(results@);
            match self.get_path(id) {
                Some(rel) => {
                    match file_name(rel) {
                        Some(name) => {
                            if passes(&matcher, name) {
                                let full = join(self.root.as_str(), rel);
                                results.push(full);
                                assert(texts(results@) =~= earlier.push(full@));
                            }
                        },
                        None => {},
                    }
                },
                None => {},
            }
            proof {
                done = (id + 1) as nat;
                if c + 1 < ids@.len() {
                    assert(ids@[c as int] < ids@[c + 1]);
                }
            }
            c += 1;
        }
        proof {
            assert forall|other: u32| done <= other < self.file_count() implies !self.is_candidate(
                keys,
                other,
            ) by {
                if self.is_candidate(keys, other) {
                    assert(ids@.contains(other));
                    let at = choose|at: int| 0 <= at < ids@.len() && ids@[at] == other;
                    if at < ids@.len() - 1 {
                        assert(ids@[at] < ids@[ids@.len() - 1]);
                    }
                }
            }
            if done <= self.file_count() {
                self.lemma_no_hits_between(pattern@, done, self.file_count());
            } else {
                // the last candidate id is below the file count
                assert(ids@.len() > 0);
                let last = ids@[ids@.len() - 1];
                assert(ids@.contains(last));
                assert(self.is_candidate(keys, last));
                assert(self.posting(keys[0]).contains(last));
                let at = choose|at: int|
                    0 <= at < self.posting(keys[0]).len() && self.posting(keys[0])[at] == last;
                assert(self.posting(keys[0])[at] < self.file_count());
            }
        }
        Some(results)
    }

    /// Whether the index is fresh for a modification time of its root directory: the
    /// time is known and not later than the build.
    pub open spec fn fresh(&self, root_modified: Option<Timestamp>) -> bool {
        match root_modified {
            Some(modified) => modified.at_or_before(self.built()),
            None => false,
        }
    }

    /// An index is fresh as long as its root directory is as it was when the build
    /// ended: fresh for every modification time up to the build time, and with it
    /// for the build time itself.
    pub proof fn lemma_fresh_after_build(&self, root_modified: Timestamp)
        requires
            root_modified.at_or_before(self.built()),
        ensures
            self.fresh(Some(root_modified)),
            self.fresh(Some(self.built())),
    {
    }

    /// An index is stale once its root directory was modified after the build.
    pub proof fn lemma_stale_after_touch(&self, touched: Timestamp)
        requires
            !touched.at_or_before(self.built()),
        ensures
            !self.fresh(Some(touched)),
    {
    }

    /// Whether the index is still fresh given the root directory's modification time
    /// as it is now.
    pub fn is_fresh(&self, root_modified: Option<Timestamp>) -> (fresh: bool)
        ensures
            fresh == self.fresh(root_modified),
    {
        match root_modified {
            Some(modified) => modified.is_at_or_before(&self.built_at),
            None => false,
        }
    }
}

/// The paths that a walk of the same files keeps under a name pattern.
pub open spec fn walk_matches(files: Seq<FileInfo>, pattern: Seq<char>) -> Set<Seq<char>> {
    Set::new(
        |path: Seq<char>|
            exists|i: int|
                0 <= i < files.len() && (#[trigger] files[i]).path@ == path && name_passes(
                    pattern,
                    name_or_empty(path),
                ),
    )
}

/// Whether a file's path survives being stored relative to the root: the relative
/// path is short enough to be stored whole, joins back to the path, and ends in the
/// same file name.
pub open spec fn path_round_trips(root: Seq<char>, path: Seq<char>) -> bool {
    let rel = relative_to(path, root);
    &&& encode_utf8(rel).len() <= MAX_PATH_BYTES
    &&& joined(root, rel) == path
    &&& file_name_of(rel) == file_name_of(path)
    &&& file_name_of(path).is_some()
}

/// Whether the lowercased file name of `path` holds every one of the trigrams.
pub open spec fn name_has_all(path: Seq<char>, keys: Seq<u32>) -> bool {
    forall|k: int| 0 <= k < keys.len() ==> name_has_trigram(path, #[trigger] keys[k])
}

impl TrigramIndex {
    /// The posting lists of an index are strictly increasing, and every id in them
    /// is below the file count.
    pub proof fn lemma_postings_sorted_and_bounded(&self, key: u32)
        requires
            self.wf(),
            self.posting_keys().contains(key),
        ensures
            strictly_increasing(self.posting(key)),
            forall|j: int| 0 <= j < self.posting(key).len() ==> self.posting(key)[j] < self.file_count(),
    {
    }

    /// A path is among the hits below `n` exactly if it is the hit of some id below `n`.
    proof fn lemma_hits_members(&self, pattern: Seq<char>, n: nat)
        requires
            n <= u32::MAX + 1,
        ensures
            forall|path: Seq<char>|
                self.hits_below(pattern, n).contains(path) <==> exists|id: u32|
                    id < n && #[trigger] self.hit(pattern, id) == Some(path),
        decreases n,
    {
        if n > 0 {
            self.lemma_hits_members(pattern, (n - 1) as nat);
            let earlier = self.hits_below(pattern, (n - 1) as nat);
            let now = self.hits_below(pattern, n);
            let last = (n - 1) as u32;
            assert forall|path: Seq<char>| now.contains(path) implies exists|id: u32|
                id < n && #[trigger] self.hit(pattern, id) == Some(path) by {
                let at = choose|at: int| 0 <= at < now.len() && now[at] == path;
                if at < earlier.len() {
                    assert(earlier[at] == path);
                    assert(earlier.contains(path));
                    let id = choose|id: u32| id < n - 1 && #[trigger] self.hit(pattern, id) == Some(path);
                    assert(id < n && self.hit(pattern, id) == Some(path));
                } else {
                    assert(self.hit(pattern, last) == Some(path));
                }
            }
            assert forall|path: Seq<char>|
                (exists|id: u32| id < n && #[trigger] self.hit(pattern, id) == Some(path)) implies now.contains(
                path,
            ) by {
                let id = choose|id: u32| id < n && #[trigger] self.hit(pattern, id) == Some(path);
                if id < n - 1 {
                    assert(earlier.contains(path));
                    let at = choose|at: int| 0 <= at < earlier.len() && earlier[at] == path;
                    assert(now[at] == path);
                } else {
                    assert(id == last);
                    assert(now[earlier.len() as int] == path);
                }
            }
        }
    }

    /// A query returns the same set of paths as a walk of the same files filtered by
    /// the same pattern. This holds where the pattern yields a trigram, every file
    /// was indexed, every path survives being stored relative to the root, and every
    /// file that passes the pattern holds all the pattern's trigrams in its
    /// lowercased name.
    pub proof fn lemma_query_agrees_with_walk(
        &self,
        root: Seq<char>,
        files: Seq<FileInfo>,
        pattern: Seq<char>,
    )
        requires
            self.indexes(root, files),
            self.file_count() == files.len(),
            glob_trigram_keys(lowered_bytes(pattern)).len() > 0,
            forall|i: int| 0 <= i < files.len() ==> path_round_trips(root, (#[trigger] files[i]).path@),
            forall|i: int|
                0 <= i < files.len() && name_passes(
                    pattern,
                    name_or_empty((#[trigger] files[i]).path@),
                ) ==> name_has_all(files[i].path@, glob_trigram_keys(lowered_bytes(pattern))),
        ensures
            self.query_result(pattern).is_some(),
            self.query_result(pattern).unwrap().to_set() == walk_matches(files, pattern),
    {
        let keys = glob_trigram_keys(lowered_bytes(pattern));
        let found = self.hits_below(pattern, self.file_count());
        self.lemma_hits_members(pattern, self.file_count());
        assert forall|i: int| 0 <= i < files.len() implies self.path_text(i) == Some(
            relative_to(#[trigger] files[i].path@, root),
        ) by {
            let rel = relative_to(files[i].path@, root);
            assert(path_round_trips(root, files[i].path@));
            assert(self.stored_path(i) == stored_bytes(root, files[i].path@));
            vstd::utf8::encode_utf8_valid_utf8(rel);
            vstd::utf8::encode_utf8_decode_utf8(rel);
        }
        assert forall|path: Seq<char>| found.to_set().contains(path) <==> walk_matches(
            files,
            pattern,
        ).contains(path) by {
            if found.contains(path) {
                let id = choose|id: u32|
                    id < self.file_count() && #[trigger] self.hit(pattern, id) == Some(path);
                let i = id as int;
                assert(path_round_trips(root, files[i].path@));
                assert(self.path_text(i) == Some(relative_to(files[i].path@, root)));
                assert(files[i].path@ == path);
            }
            if walk_matches(files, pattern).contains(path) {
                let i = choose|i: int|
                    0 <= i < files.len() && (#[trigger] files[i]).path@ == path && name_passes(
                        pattern,
                        name_or_empty(path),
                    );
                let id = i as u32;
                assert(path_round_trips(root, files[i].path@));
                assert(self.path_text(i) == Some(relative_to(files[i].path@, root)));
                assert(name_has_all(files[i].path@, keys));
                assert forall|k: int| 0 <= k < keys.len() implies self.posting_keys().contains(
                    #[trigger] keys[k],
                ) && self.posting(keys[k]).contains(id) by {
                    assert(name_has_trigram(files[i].path@, keys[k]));
                }
                assert(self.is_candidate(keys, id));
                assert(self.hit(pattern, id) == Some(path));
            }
        }
        assert(found.to_set() =~= walk_matches(files, pattern));
    }
}

/// The fields of an index as plain values, for storing an index and for making one
/// from what was stored.
pub struct IndexParts {
    pub root: String,
    pub built_at: Timestamp,
    /// For every file the start and the length of its relative path in `path_data`.
    pub path_offsets: Vec<(u32, u16)>,
    /// The relative paths of all files, one after the other.
    pub path_data: Vec<u8>,
    /// For every trigram key the ids of the files whose name holds the trigram.
    pub trigrams: HashMap<u32, Vec<u32>>,
    pub total_files: u32,
}

impl IndexParts {
    /// Whether the parts make an index: one offset pair per file, every path inside
    /// the packed buffer, and every posting list strictly increasing with ids below
    /// the file count.
    pub open spec fn valid(&self) -> bool {
        &&& self.path_offsets@.len() == self.total_files
        &&& forall|i: int|
            0 <= i < self.path_offsets@.len() ==> (#[trigger] self.path_offsets@[i]).0
                + self.path_offsets@[i].1 <= self.path_data@.len()
        &&& lists_below(self.trigrams@, self.total_files as int)
    }
}

/// The name of the file that stores the index of a root: the root's hash as sixteen
/// hexadecimal digits, and the ending `.idx`.
pub open spec fn cache_key_of(root: Seq<char>) -> Seq<char> {
    hex_text(path_hash(root) as int, 16) + ".idx"@
}

/// Why an index cannot be stored.
#[derive(Debug, Clone, Copy, PartialEq, Eq, Structural)]
pub enum CacheError {
    /// The user has no cache directory.
    NoCacheDir,
}

/// Where and what to write in order to store an index.
#[derive(Debug)]
pub struct CacheFile {
    /// The directory that holds the stored indexes; it is made where it is missing.
    pub directory: String,
    /// The file to write.
    pub path: String,
    /// The bytes to write: the payload in its envelope.
    pub bytes: Vec<u8>,
}

impl TrigramIndex {
    /// Whether the index holds what the parts hold.
    pub open spec fn holds(&self, parts: IndexParts) -> bool {
        &&& self.root_text() == parts.root@
        &&& self.built() == parts.built_at
        &&& self.file_count() == parts.total_files
        &&& forall|i: int|
            0 <= i < parts.total_files ==> #[trigger] self.stored_path(i)
                == parts.path_data@.subrange(
                parts.path_offsets@[i].0 as int,
                parts.path_offsets@[i].0 + parts.path_offsets@[i].1,
            )
        &&& self.posting_keys() == parts.trigrams@.dom()
        &&& forall|key: u32|
            parts.trigrams@.contains_key(key) ==> #[trigger] self.posting(key)
                == parts.trigrams@[key]@
    }

    /// Whether two indexes cover the same root with the same files and postings and
    /// were built at the same time.
    pub open spec fn same_as(&self, other: TrigramIndex) -> bool {
        &&& self.root_text() == other.root_text()
        &&& self.built() == other.built()
        &&& self.file_count() == other.file_count()
        &&& forall|i: int|
            0 <= i < self.file_count() ==> #[trigger] self.stored_path(i) == other.stored_path(i)
        &&& self.posting_keys() == other.posting_keys()
        &&& forall|key: u32|
            self.posting_keys().contains(key) ==> #[trigger] self.posting(key) == other.posting(
                key,
            )
    }

    /// Takes the index apart.
    pub fn into_parts(self) -> (parts: IndexParts)
        ensures
            parts.valid(),
            self.holds(parts),
    {
        proof {
            use_type_invariant(&self);
        }
        IndexParts {
            root: self.root,
            built_at: self.built_at,
            path_offsets: self.path_offsets,
            path_data: self.path_data,
            trigrams: self.trigrams,
            total_files: self.total_files,
        }
    }

    /// Makes an index of parts, or `None` where the parts make no index.
    pub fn from_parts(parts: IndexParts) -> (index: Option<TrigramIndex>)
        ensures
            match index {
                Some(made) => parts.valid() && made.wf() && made.holds(parts),
                None => !parts.valid(),
            },
    {
        broadcast use vstd::std_specs::hash::group_hash_axioms;

        if parts.path_offsets.len() != parts.total_files as usize {
            return None;
        }
        let data_len = parts.path_data.len();
        let mut i: usize = 0;
        while i < parts.path_offsets.len()
            invariant
                i <= parts.path_offsets@.len(),
                data_len == parts.path_data@.len(),
                forall|f: int|
                    0 <= f < i ==> (#[trigger] parts.path_offsets@[f]).0 + parts.path_offsets@[f].1
                        <= data_len,
            decreases parts.path_offsets.len() - i,
        {
            let offset = parts.path_offsets[i];
            if offset.0 as u64 + offset.1 as u64 > data_len as u64 {
                return None;
            }
            i += 1;
        }
        let ghost entries = vstd::std_specs::hash::spec_hash_map_iter(&parts.trigrams).remaining();
        let mut sorted = true;
        for pair in it: parts.trigrams.iter()
            invariant
                it.seq() == entries,
                sorted == (forall|j: int|
                    0 <= j < it.index() ==> list_below((#[trigger] it.seq()[j]).1@, parts.total_files as int)),
        {
            if !is_list_below(pair.1, parts.total_files) {
                sorted = false;
            }
        }
        proof {
            vstd::std_specs::hash::axiom_spec_hash_map_iter(&parts.trigrams);
            if sorted {
                assert forall|key: u32| #[trigger]
                    parts.trigrams@.contains_key(key) implies list_below(
                    parts.trigrams@[key]@,
                    parts.total_files as int,
                ) by {
                    assert(entries.contains((&key, &parts.trigrams@[key])));
                    let j = choose|j: int|
                        0 <= j < entries.len() && entries[j] == (&key, &parts.trigrams@[key]);
                    assert(list_below(entries[j].1@, parts.total_files as int));
                }
            } else {
                let j = choose|j: int|
                    0 <= j < entries.len() && !list_below(
                        (#[trigger] entries[j]).1@,
                        parts.total_files as int,
                    );
                assert(parts.trigrams@.contains_key(*entries[j].0) && parts.trigrams@[*entries[j].0]
                    == *entries[j].1);
            }
        }
        if !sorted {
            return None;
        }
        Some(
            TrigramIndex {
                root: parts.root,
                built_at: parts.built_at,
                path_offsets: parts.path_offsets,
                path_data: parts.path_data,
                trigrams: parts.trigrams,
                total_files: parts.total_files,
            },
        )
    }

    /// The directory that holds the stored indexes, under the user's cache directory.
    pub fn cache_dir(user_cache: Option<&str>) -> (directory: Option<String>)
        ensures
            match directory {
                Some(dir) => user_cache.is_some() && dir@ == joined(user_cache.unwrap()@, "fiq"@),
                None => user_cache.is_none(),
            },
    {
        match user_cache {
            Some(base) => Some(join(base, "fiq")),
            None => None,
        }
    }

    /// The name of the file that stores the index of a root.
    pub fn cache_key(root: &str) -> (key: String)
        ensures
            key@ == cache_key_of(root@),
    {
        let mut key = hex16(hash_path(root));
        key.append(".idx");
        key
    }

    /// Plans the storing of the index: the file under the user's cache directory
    /// that belongs to the index's root, and the payload in its envelope. The
    /// payload is the index as bytes, in whatever encoding the caller reads back.
    pub fn save_to_cache(&self, user_cache: Option<&str>, payload: &[u8]) -> (plan: Result<
        CacheFile,
        CacheError,
    >)
        ensures
            match plan {
                Ok(file) => user_cache.is_some() && file.directory@ == joined(
                    user_cache.unwrap()@,
                    "fiq"@,
                ) && file.path@ == joined(file.directory@, cache_key_of(self.root_text()))
                    && file.bytes@ == framed(payload@),
                Err(e) => user_cache.is_none() && e == CacheError::NoCacheDir,
            },
    {
        let directory = match TrigramIndex::cache_dir(user_cache) {
            Some(dir) => dir,
            None => {
                return Err(CacheError::NoCacheDir);
            },
        };
        let key = TrigramIndex::cache_key(self.root.as_str());
        let path = join(directory.as_str(), key.as_str());
        Ok(CacheFile { directory, path, bytes: frame(payload) })
    }

    /// Decides whether a stored index serves a root: it was read, it covers that
    /// root, and it is fresh given the root's modification time as it is now.
    pub fn load_cached(
        root: &str,
        stored: Option<TrigramIndex>,
        root_modified: Option<Timestamp>,
    ) -> (index: Option<TrigramIndex>)
        ensures
            match index {
                Some(kept) => stored == Some(kept) && kept.root_text() == root@ && kept.fresh(
                    root_modified,
                ),
                None => stored.is_none() || stored.unwrap().root_text() != root@
                    || !stored.unwrap().fresh(root_modified),
            },
    {
        match stored {
            Some(candidate) => {
                if same_text(candidate.root.as_str(), root) && candidate.is_fresh(root_modified) {
                    Some(candidate)
                } else {
                    None
                }
            },
            None => None,
        }
    }

    /// An index that was taken apart and made of its parts again is the same index.
    pub proof fn lemma_parts_round_trip(&self, parts: IndexParts, back: TrigramIndex)
        requires
            self.holds(parts),
            back.holds(parts),
        ensures
            back.same_as(*self),
    {
    }

    /// Two indexes that are the same give the same answer to every query.
    pub proof fn lemma_same_index_same_answers(&self, other: TrigramIndex, pattern: Seq<char>)
        requires
            self.same_as(other),
            self.wf(),
            other.wf(),
        ensures
            self.query_result(pattern) == other.query_result(pattern),
    {
        self.lemma_same_hits(other, pattern, self.file_count());
    }

    proof fn lemma_same_hits(&self, other: TrigramIndex, pattern: Seq<char>, n: nat)
        requires
            self.same_as(other),
            n <= self.file_count(),
        ensures
            self.hits_below(pattern, n) == other.hits_below(pattern, n),
        decreases n,
    {
        if n > 0 {
            self.lemma_same_hits(other, pattern, (n - 1) as nat);
            let keys = glob_trigram_keys(lowered_bytes(pattern));
            let id = (n - 1) as u32;
            assert(self.stored_path(id as int) == other.stored_path(id as int));
            assert(self.is_candidate(keys, id) == other.is_candidate(keys, id)) by {
                if self.is_candidate(keys, id) {
                    assert forall|k: int| 0 <= k < keys.len() implies other.posting_keys().contains(
                        #[trigger] keys[k],
                    ) && other.posting(keys[k]).contains(id) by {
                        assert(self.posting(keys[k]) == other.posting(keys[k]));
                    }
                }
                if other.is_candidate(keys, id) {
                    assert forall|k: int| 0 <= k < keys.len() implies self.posting_keys().contains(
                        #[trigger] keys[k],
                    ) && self.posting(keys[k]).contains(id) by {
                        assert(self.posting(keys[k]) == other.posting(keys[k]));
                    }
                }
            }
        }
    }
}

/// Whether a posting list is strictly increasing and holds only ids below `bound`.
pub open spec fn list_below(list: Seq<u32>, bound: int) -> bool {
    strictly_increasing(list) && forall|j: int| 0 <= j < list.len() ==> #[trigger] list[j] < bound
}

/// Checks a posting list.
fn is_list_below(list: &Vec<u32>, bound: u32) -> (ok: bool)
    ensures
        ok == list_below(list@, bound as int),
{
    let mut j: usize = 0;
    while j < list.len()
        invariant
            j <= list@.len(),
            forall|q: int| 0 <= q < j ==> #[trigger] list@[q] < bound,
            forall|a: int, b: int| 0 <= a < b < j ==> list@[a] < list@[b],
        decreases list.len() - j,
    {
        if list[j] >= bound {
            return false;
        }
        if j > 0 && list[j - 1] >= list[j] {
            return false;
        }
        proof {
            assert forall|a: int, b: int| 0 <= a < b < j + 1 implies list@[a] < list@[b] by {
                if b == j && a < j - 1 {
                    assert(list@[a] < list@[j - 1]);
                }
            }
        }
        j += 1;
    }
    true
}

} // verus!