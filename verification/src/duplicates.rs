//! The duplicate finder: files are bucketed by size, the files that share a size are
//! fingerprinted, and the files that share a fingerprint form a duplicate group.
//!
//! Reading file contents happens outside this library, between the two passes.

use std::collections::HashMap;
use vstd::prelude::*;

use crate::grouping::{
    group_positions, grouped, label_texts, lemma_group_in_range, lemma_group_labels, positions,
    positions_with,
};
use crate::order::{arrange, is_ranking, rank_descending, ranked};
use crate::scanner::FileInfo;

verus! {

/// Files at least this long are memory-mapped for hashing; shorter ones are read whole.
pub const MMAP_THRESHOLD: u64 = 128 * 1024;

/// How the content of a file is obtained for hashing.
#[derive(Debug, Clone, Copy, PartialEq, Eq, Structural)]
pub enum ReadMethod {
    /// The file is empty: nothing is read.
    Nothing,
    /// The file is read into memory.
    Whole,
    /// The file is memory-mapped and hashed in place.
    Mapped,
}

/// Chooses how to read a file of the given size.
pub fn read_method(size: u64) -> (method: ReadMethod)
    ensures
        method == if size == 0 {
            ReadMethod::Nothing
        } else if size < MMAP_THRESHOLD {
            ReadMethod::Whole
        } else {
            ReadMethod::Mapped
        },
{
    if size == 0 {
        ReadMethod::Nothing
    } else if size < MMAP_THRESHOLD {
        ReadMethod::Whole
    } else {
        ReadMethod::Mapped
    }
}

/// The BLAKE3 digest of a content, written as 64 lowercase hexadecimal digits.
pub uninterp spec fn content_fingerprint(content: Seq<u8>) -> Seq<char>;

/// Whether a character is one of `0` to `9` and `a` to `f`.
pub open spec fn is_hex_digit(c: char) -> bool {
    ('0' <= c && c <= '9') || ('a' <= c && c <= 'f')
}

/// Whether a text is the lowercase hexadecimal form of 256 bits.
pub open spec fn is_digest_text(text: Seq<char>) -> bool {
    text.len() == 64 && forall|i: int| 0 <= i < text.len() ==> is_hex_digit(#[trigger] text[i])
}

/// Hashes a content with `blake3::hash` and writes the digest with `Hash::to_hex`,
/// which gives two lowercase hexadecimal digits for each of its 32 bytes. The
/// result is taken on trust to be the fingerprint that `content_fingerprint` names.
#[verifier::external_body]
fn fingerprint(content: &[u8]) -> (hex: String)
    ensures
        hex@ == content_fingerprint(content@),
        is_digest_text(hex@),
{
    blake3::hash(content).to_hex().to_string()
}

/// The fingerprint of a file of the given size: that of the empty content for an
/// empty file, whatever was read; else that of the content, or none where reading
/// failed.
pub open spec fn file_fingerprint(size: u64, content: Option<Seq<u8>>) -> Option<Seq<char>> {
    if size == 0 {
        Some(content_fingerprint(Seq::empty()))
    } else {
        match content {
            Some(bytes) => Some(content_fingerprint(bytes)),
            None => None,
        }
    }
}

/// Fingerprints a file from its size and its content as far as it was read; `None`
/// stands for a content that could not be read.
pub fn hash_file(size: u64, content: Option<&[u8]>) -> (hash: Option<String>)
    ensures
        match hash {
            Some(hex) => file_fingerprint(
                size,
                match content {
                    Some(bytes) => Some(bytes@),
                    None => None,
                },
            ) == Some(hex@) && is_digest_text(hex@),
            None => size != 0 && content.is_none(),
        },
{
    if size == 0 {
        let nothing: Vec<u8> = Vec::new();
        Some(fingerprint(nothing.as_slice()))
    } else {
        match content {
            Some(bytes) => Some(fingerprint(bytes)),
            None => None,
        }
    }
}

/// Whether file `i` is worth hashing: it is at least `min_size` long and another
/// file has the same size.
pub open spec fn shares_size(files: Seq<FileInfo>, min_size: u64, i: int) -> bool {
    &&& files[i].size >= min_size
    &&& exists|j: int| 0 <= j < files.len() && j != i && (#[trigger] files[j]).size == files[i].size
}

/// Two files of the same size that is at least `min_size` are both worth hashing.
pub proof fn lemma_same_size_both_hashed(files: Seq<FileInfo>, min_size: u64, i: int, j: int)
    requires
        0 <= i < files.len(),
        0 <= j < files.len(),
        i != j,
        files[i].size == files[j].size,
        files[i].size >= min_size,
    ensures
        shares_size(files, min_size, i),
        shares_size(files, min_size, j),
{
}

/// The first pass: the positions of the files that are at least `min_size` long and
/// share their size with another file, in ascending order.
pub fn duplicate_candidates(files: &Vec<FileInfo>, min_size: u64) -> (candidates: Vec<usize>)
    ensures
        forall|a: int, b: int|
            0 <= a < b < candidates@.len() ==> candidates@[a] < candidates@[b],
        forall|i: int|
            0 <= i < files@.len() ==> (candidates@.contains(i as usize) <==> shares_size(
                files@,
                min_size,
                i,
            )),
        forall|a: int| 0 <= a < candidates@.len() ==> #[trigger] candidates@[a] < files@.len(),
{
    broadcast use vstd::std_specs::hash::group_hash_axioms;

    // For every size seen: whether a second file of that size was seen.
    let mut seen: HashMap<u64, bool> = HashMap::new();
    let mut i: usize = 0;
    while i < files.len()
        invariant
            i <= files@.len(),
            forall|size: u64|
                seen@.contains_key(size) <==> exists|j: int|
                    0 <= j < i && (#[trigger] files@[j]).size == size,
            forall|size: u64|
                seen@.contains_key(size) ==> (#[trigger] seen@[size] <==> exists|j: int, k: int|
                    0 <= j < k < i && (#[trigger] files@[j]).size == size && (
                    #[trigger] files@[k]).size == size),
        decreases files.len() - i,
    {
        let size = files[i].size;
        let ghost before = seen@;
        let again = seen.contains_key(&size);
        seen.insert(size, again);
        proof {
            assert(seen@ == before.insert(size, again));
            assert forall|s: u64|
                seen@.contains_key(s) <==> exists|j: int|
                    0 <= j < i + 1 && (#[trigger] files@[j]).size == s by {
                if seen@.contains_key(s) {
                    if s == size {
                        assert(files@[i as int].size == s);
                    } else {
                        let j = choose|j: int| 0 <= j < i && (#[trigger] files@[j]).size == s;
                        assert(0 <= j < i + 1 && files@[j].size == s);
                    }
                }
                if exists|j: int| 0 <= j < i + 1 && (#[trigger] files@[j]).size == s {
                    let j = choose|j: int| 0 <= j < i + 1 && (#[trigger] files@[j]).size == s;
                    if j < i {
                        assert(before.contains_key(s));
                    }
                }
            }
            assert forall|s: u64| seen@.contains_key(s) implies (#[trigger] seen@[s] <==> exists|
                j: int,
                k: int,
            |
                0 <= j < k < i + 1 && (#[trigger] files@[j]).size == s && (#[trigger] files@[k]).size
                    == s) by {
                if seen@[s] {
                    if s == size {
                        assert(before.contains_key(s));
                        let j = choose|j: int| 0 <= j < i && (#[trigger] files@[j]).size == s;
                        assert(0 <= j < i < i + 1 && files@[j].size == s && files@[i as int].size
                            == s);
                    } else {
                        let (j, k) = choose|j: int, k: int|
                            0 <= j < k < i && (#[trigger] files@[j]).size == s && (
                            #[trigger] files@[k]).size == s;
                        assert(0 <= j < k < i + 1 && files@[j].size == s && files@[k].size == s);
                    }
                }
                if exists|j: int, k: int|
                    0 <= j < k < i + 1 && (#[trigger] files@[j]).size == s && (
                    #[trigger] files@[k]).size == s {
                    let (j, k) = choose|j: int, k: int|
                        0 <= j < k < i + 1 && (#[trigger] files@[j]).size == s && (
                        #[trigger] files@[k]).size == s;
                    if k < i {
                        assert(before.contains_key(s));
                        assert(before[s]);
                    } else {
                        assert(s == size);
                        assert(before.contains_key(s));
                    }
                }
            }
        }
        i += 1;
    }
    let mut candidates: Vec<usize> = Vec::new();
    let mut c: usize = 0;
    while c < files.len()
        invariant
            c <= files@.len(),
            forall|size: u64|
                seen@.contains_key(size) <==> exists|j: int|
                    0 <= j < files@.len() && (#[trigger] files@[j]).size == size,
            forall|size: u64|
                seen@.contains_key(size) ==> (#[trigger] seen@[size] <==> exists|j: int, k: int|
                    0 <= j < k < files@.len() && (#[trigger] files@[j]).size == size && (
                    #[trigger] files@[k]).size == size),
            forall|a: int, b: int|
                0 <= a < b < candidates@.len() ==> candidates@[a] < candidates@[b],
            forall|a: int| 0 <= a < candidates@.len() ==> #[trigger] candidates@[a] < c,
            forall|k: int|
                0 <= k < c ==> (candidates@.contains(k as usize) <==> shares_size(
                    files@,
                    min_size,
                    k,
                )),
        decreases files.len() - c,
    {
        let size = files[c].size;
        let shared = match seen.get(&size) {
            Some(twice) => *twice,
            None => false,
        };
        let ghost before = candidates@;
        proof {
            assert(seen@.contains_key(size));
            if seen@[size] {
                let (j, k) = choose|j: int, k: int|
                    0 <= j < k < files@.len() && (#[trigger] files@[j]).size == size && (
                    #[trigger] files@[k]).size == size;
                if j != c {
                    assert(files@[j].size == files@[c as int].size);
                } else {
                    assert(files@[k].size == files@[c as int].size);
                }
            }
            if exists|j: int|
                0 <= j < files@.len() && j != c && (#[trigger] files@[j]).size == size {
                let j = choose|j: int|
                    0 <= j < files@.len() && j != c && (#[trigger] files@[j]).size == size;
                if j < c {
                    assert(0 <= j < c < files@.len() && files@[j].size == size && files@[c as int].size
                        == size);
                } else {
                    assert(0 <= c < j < files@.len() && files@[c as int].size == size
                        && files@[j].size == size);
                }
            }
            assert(shared == (exists|j: int|
                0 <= j < files@.len() && j != c && (#[trigger] files@[j]).size == size));
        }
        if size >= min_size && shared {
            candidates.push(c);
            proof {
                assert(candidates@[before.len() as int] == c);
                assert forall|k: int| 0 <= k < c + 1 implies (candidates@.contains(k as usize)
                    <==> shares_size(files@, min_size, k)) by {
                    if k < c {
                        if before.contains(k as usize) {
                            let a = choose|a: int| 0 <= a < before.len() && before[a] == k as usize;
                            assert(candidates@[a] == k as usize);
                        }
                        if candidates@.contains(k as usize) {
                            let a = choose|a: int|
                                0 <= a < candidates@.len() && candidates@[a] == k as usize;
                            assert(before[a] == k as usize);
                        }
                    }
                }
            }
        } else {
            proof {
                assert(!shares_size(files@, min_size, c as int));
                if candidates@.contains(c) {
                    let a = choose|a: int| 0 <= a < candidates@.len() && candidates@[a] == c;
                    assert(candidates@[a] < c);
                }
            }
        }
        c += 1;
    }
    candidates
}

/// A file of the first pass together with its fingerprint.
#[derive(Debug)]
pub struct HashedFile {
    pub hash: String,
    pub path: String,
    pub size: u64,
}

/// Files with one fingerprint: `size` is the length of the first of them.
#[derive(Debug)]
pub struct DuplicateGroup {
    pub hash: String,
    pub size: u64,
    pub files: Vec<String>,
}

/// What a `DuplicateGroup` holds, with its texts as sequences of characters.
pub struct GroupView {
    pub hash: Seq<char>,
    pub size: u64,
    pub files: Seq<Seq<char>>,
}

impl View for DuplicateGroup {
    type V = GroupView;

    open spec fn view(&self) -> GroupView {
        GroupView {
            hash: self.hash@,
            size: self.size,
            files: self.files@.map_values(|s: String| s@),
        }
    }
}

/// The outcome of a duplicate search.
#[derive(Debug)]
pub struct DuplicatesResult {
    pub total_files_scanned: usize,
    pub duplicate_groups: Vec<DuplicateGroup>,
    pub total_wasted_bytes: u64,
}

/// The fingerprints of a list of entries, in the same order.
pub open spec fn fingerprints(hashed: Seq<HashedFile>) -> Seq<Seq<char>> {
    hashed.map_values(|h: HashedFile| h.hash@)
}

/// The group made of the entries at the given positions: the fingerprint and the
/// size of the first of them, and the paths of all.
pub open spec fn group_at(hashed: Seq<HashedFile>, at: Seq<int>) -> GroupView {
    GroupView {
        hash: hashed[at[0]].hash@,
        size: hashed[at[0]].size,
        files: at.map_values(|p: int| hashed[p].path@),
    }
}

/// One group per fingerprint, in order of first occurrence, each with the paths of
/// all entries that have the fingerprint; a group may hold a single file.
pub open spec fn all_groups(hashed: Seq<HashedFile>) -> Seq<GroupView> {
    grouped(fingerprints(hashed), hashed.len()).map_values(|at: Seq<int>| group_at(hashed, at))
}

/// The first `n` of the groups, without those that hold a single file.
pub open spec fn repeated_below(groups: Seq<GroupView>, n: nat) -> Seq<GroupView>
    decreases n,
{
    if n == 0 {
        Seq::empty()
    } else {
        let earlier = repeated_below(groups, (n - 1) as nat);
        if groups[n - 1].files.len() >= 2 {
            earlier.push(groups[n - 1])
        } else {
            earlier
        }
    }
}

/// The duplicate groups of a list of fingerprinted files, in order of first
/// occurrence: one group for every fingerprint that two or more files have.
pub open spec fn duplicate_groups(hashed: Seq<HashedFile>) -> Seq<GroupView> {
    let groups = all_groups(hashed);
    repeated_below(groups, groups.len())
}

/// The bytes that deleting all but one file of a group would free, reported as
/// `u64::MAX` where they exceed it.
pub open spec fn wasted(group: GroupView) -> u64 {
    if group.size * (group.files.len() - 1) > u64::MAX {
        u64::MAX
    } else {
        (group.size * (group.files.len() - 1)) as u64
    }
}

/// The sum of the wasted bytes of the first `n` groups.
pub open spec fn wasted_sum(groups: Seq<GroupView>, n: nat) -> nat
    decreases n,
{
    if n == 0 {
        0
    } else {
        wasted_sum(groups, (n - 1) as nat) + wasted(groups[n - 1]) as nat
    }
}

/// Groups fingerprinted files by fingerprint, one group per fingerprint in order of
/// first occurrence.
fn group_by_hash(hashed: &Vec<HashedFile>) -> (groups: Vec<DuplicateGroup>)
    ensures
        group_views(groups@) == all_groups(hashed@),
{
    let mut labels: Vec<String> = Vec::new();
    let mut i: usize = 0;
    while i < hashed.len()
        invariant
            i <= hashed@.len(),
            label_texts(labels@) == fingerprints(hashed@).take(i as int),
        decreases hashed.len() - i,
    {
        let ghost before = labels@;
        let label = hashed[i].hash.clone();
        labels.push(label);
        assert(label_texts(labels@) =~= label_texts(before).push(label@));
        assert(fingerprints(hashed@).take(i + 1) =~= fingerprints(hashed@).take(i as int).push(
            hashed@[i as int].hash@,
        ));
        i += 1;
    }
    assert(label_texts(labels@) =~= fingerprints(hashed@));
    let placed = group_positions(&labels);
    let ghost wanted = grouped(fingerprints(hashed@), hashed@.len());
    assert(placed@.len() == wanted.len());
    let mut groups: Vec<DuplicateGroup> = Vec::new();
    let mut g: usize = 0;
    while g < placed.len()
        invariant
            g <= placed@.len(),
            placed@.map_values(|p: Vec<usize>| positions(p)) == wanted,
            wanted == grouped(fingerprints(hashed@), hashed@.len()),
            groups@.len() == g,
            forall|k: int| 0 <= k < g ==> (#[trigger] groups@[k])@ == group_at(hashed@, wanted[k]),
        decreases placed.len() - g,
    {
        let at = &placed[g];
        proof {
            assert(positions(*at) == wanted[g as int]);
            lemma_group_in_range(fingerprints(hashed@), hashed@.len(), g as int);
            assert forall|q: int| 0 <= q < at@.len() implies (#[trigger] at@[q]) < hashed@.len() by {
                assert(positions(*at)[q] == at@[q] as int);
                assert(wanted[g as int][q] < hashed@.len());
            }
        }
        let first = &hashed[at[0]];
        assert(at@[0] as int == wanted[g as int][0]);
        let mut files: Vec<String> = Vec::new();
        let mut f: usize = 0;
        while f < at.len()
            invariant
                f <= at@.len(),
                positions(*at) == wanted[g as int],
                forall|q: int| 0 <= q < at@.len() ==> (#[trigger] at@[q]) < hashed@.len(),
                files@.len() == f,
                forall|q: int| 0 <= q < f ==> (#[trigger] files@[q])@ == hashed@[at@[q] as int].path@,
            decreases at.len() - f,
        {
            files.push(hashed[at[f]].path.clone());
            f += 1;
        }
        let group = DuplicateGroup { hash: first.hash.clone(), size: first.size, files };
        assert(group@.files =~= group_at(hashed@, wanted[g as int]).files);
        groups.push(group);
        g += 1;
    }
    assert(group_views(groups@) =~= all_groups(hashed@));
    groups
}

/// The sort keys of a list of groups: their wasted bytes.
pub open spec fn wasted_keys(groups: Seq<GroupView>) -> Seq<u64> {
    groups.map_values(|g: GroupView| wasted(g))
}

/// Whether `sorted` holds the groups by descending wasted bytes, groups with equal
/// wasted bytes in their given order.
pub open spec fn sorted_by_waste(groups: Seq<GroupView>, sorted: Seq<GroupView>) -> bool {
    ranked(groups, wasted_keys(groups), sorted)
}

/// The views of a list of groups, in the same order.
pub open spec fn group_views(groups: Seq<DuplicateGroup>) -> Seq<GroupView> {
    groups.map_values(|g: DuplicateGroup| g@)
}

/// Computes the wasted bytes of a group.
fn wasted_bytes(group: &DuplicateGroup) -> (bytes: u64)
    requires
        group.files@.len() >= 1,
    ensures
        bytes == wasted(group@),
{
    let extra = (group.files.len() - 1) as u64;
    assert(group.size * extra == group.size * (group@.files.len() - 1));
    match group.size.checked_mul(extra) {
        Some(product) => product,
        None => u64::MAX,
    }
}

/// The second pass: groups the fingerprinted files, keeps the groups of two or more
/// files and sorts them by the bytes that each wastes, most first. The total is the
/// sum of those bytes, reported as `u64::MAX` where it exceeds it.
pub fn run_duplicates(total_files_scanned: usize, hashed: &Vec<HashedFile>) -> (result:
    DuplicatesResult)
    ensures
        result.total_files_scanned == total_files_scanned,
        sorted_by_waste(duplicate_groups(hashed@), group_views(result.duplicate_groups@)),
        forall|k: int|
            0 <= k < result.duplicate_groups@.len() ==> (#[trigger] result.duplicate_groups@[k]).files@.len()
                >= 2,
        result.total_wasted_bytes == if wasted_sum(
            duplicate_groups(hashed@),
            duplicate_groups(hashed@).len(),
        ) > u64::MAX {
            u64::MAX
        } else {
            wasted_sum(duplicate_groups(hashed@), duplicate_groups(hashed@).len()) as u64
        },
{
    let groups = group_by_hash(hashed);
    let ghost all = group_views(groups@);
    let ghost wanted = duplicate_groups(hashed@);
    // The positions of the groups of two or more files, their sort keys and the total.
    let mut keep: Vec<usize> = Vec::new();
    let mut keys: Vec<u64> = Vec::new();
    let mut total_wasted: u64 = 0;
    let mut g: usize = 0;
    while g < groups.len()
        invariant
            g <= groups@.len(),
            all == group_views(groups@),
            keep@.len() == repeated_below(all, g as nat).len(),
            keys@.len() == keep@.len(),
            forall|k: int|
                0 <= k < keep@.len() ==> (#[trigger] keep@[k]) < g && all[keep@[k] as int]
                    == repeated_below(all, g as nat)[k],
            forall|a: int, b: int| 0 <= a < b < keep@.len() ==> keep@[a] < keep@[b],
            forall|k: int|
                0 <= k < keep@.len() ==> (#[trigger] repeated_below(all, g as nat)[k]).files.len()
                    >= 2,
            keys@ == wasted_keys(repeated_below(all, g as nat)),
            total_wasted == if wasted_sum(
                repeated_below(all, g as nat),
                repeated_below(all, g as nat).len(),
            ) > u64::MAX {
                u64::MAX
            } else {
                wasted_sum(
                    repeated_below(all, g as nat),
                    repeated_below(all, g as nat).len(),
                ) as u64
            },
        decreases groups.len() - g,
    {
        let group = &groups[g];
        let ghost earlier = repeated_below(all, g as nat);
        assert(all[g as int] == group@);
        if group.files.len() >= 2 {
            let key = wasted_bytes(group);
            keep.push(g);
            keys.push(key);
            total_wasted = match total_wasted.checked_add(key) {
                Some(sum) => sum,
                None => u64::MAX,
            };
            proof {
                let now = repeated_below(all, (g + 1) as nat);
                assert(now == earlier.push(group@));
                assert(keys@ =~= wasted_keys(now));
                lemma_wasted_sum_prefix(now, earlier.len());
                assert(now.take(earlier.len() as int) =~= earlier);
                assert(wasted_sum(now, now.len()) == wasted_sum(now, earlier.len()) + wasted(
                    now[earlier.len() as int],
                ));
            }
        }
        g += 1;
    }
    assert(repeated_below(all, groups@.len() as nat) == wanted);
    let order = rank_descending(&keys);
    let mut chosen: Vec<usize> = Vec::new();
    let mut r: usize = 0;
    while r < order.len()
        invariant
            r <= order@.len(),
            is_ranking(keys@, order@),
            keys@.len() == keep@.len(),
            chosen@.len() == r,
            forall|k: int| 0 <= k < r ==> #[trigger] chosen@[k] == keep@[order@[k] as int],
        decreases order.len() - r,
    {
        chosen.push(keep[order[r]]);
        r += 1;
    }
    proof {
        crate::order::lemma_ranking_arranges(keys@, order@);
        assert forall|a: int, b: int|
            0 <= a < chosen@.len() && 0 <= b < chosen@.len() && a != b implies chosen@[a]
            != chosen@[b] by {
            let x = order@[a] as int;
            let y = order@[b] as int;
            if x < y {
                assert(keep@[x] < keep@[y]);
            } else {
                assert(keep@[y] < keep@[x]);
            }
        }
    }
    let ghost given = groups@;
    let sorted = arrange(groups, &chosen, chosen.len());
    proof {
        assert(group_views(sorted@).len() == order@.len());
        assert forall|k: int| 0 <= k < order@.len() implies group_views(sorted@)[k]
            == wanted[order@[k] as int] by {
            assert(sorted@[k] == given[chosen@[k] as int]);
            assert(all[keep@[order@[k] as int] as int] == wanted[order@[k] as int]);
        }
        assert(sorted_by_waste(wanted, group_views(sorted@)));
        assert forall|k: int| 0 <= k < sorted@.len() implies (#[trigger] sorted@[k]).files@.len()
            >= 2 by {
            assert(sorted@[k]@ == wanted[order@[k] as int]);
            assert(wanted[order@[k] as int].files.len() >= 2);
        }
    }
    DuplicatesResult {
        total_files_scanned,
        duplicate_groups: sorted,
        total_wasted_bytes: total_wasted,
    }
}

/// The wasted bytes of a prefix of the groups do not depend on the groups after it.
proof fn lemma_wasted_sum_prefix(groups: Seq<GroupView>, n: nat)
    requires
        n <= groups.len(),
    ensures
        wasted_sum(groups, n) == wasted_sum(groups.take(n as int), n),
    decreases n,
{
    if n > 0 {
        lemma_wasted_sum_prefix(groups, (n - 1) as nat);
        lemma_wasted_sum_prefix(groups.take(n as int), (n - 1) as nat);
        assert(groups.take(n as int).take(n - 1) =~= groups.take(n - 1));
    }
}

/// A group of two or more files among the first `n` is among the repeated ones.
proof fn lemma_repeated_contains(groups: Seq<GroupView>, n: nat, at: int)
    requires
        0 <= at < n <= groups.len(),
        groups[at].files.len() >= 2,
    ensures
        repeated_below(groups, n).contains(groups[at]),
    decreases n,
{
    let earlier = repeated_below(groups, (n - 1) as nat);
    let now = repeated_below(groups, n);
    if at < n - 1 {
        lemma_repeated_contains(groups, (n - 1) as nat, at);
        let w = choose|w: int| 0 <= w < earlier.len() && earlier[w] == groups[at];
        assert(now[w] == groups[at]);
    } else {
        assert(now[earlier.len() as int] == groups[at]);
    }
}

/// The position among the groups of the repeated group with number `w`.
pub open spec fn repeated_source(groups: Seq<GroupView>, n: nat, w: int) -> int
    decreases n,
{
    if n == 0 {
        0
    } else if w < repeated_below(groups, (n - 1) as nat).len() {
        repeated_source(groups, (n - 1) as nat, w)
    } else {
        n - 1
    }
}

/// A repeated group is the group at its source, which holds two or more files.
proof fn lemma_repeated_source(groups: Seq<GroupView>, n: nat, w: int)
    requires
        n <= groups.len(),
        0 <= w < repeated_below(groups, n).len(),
    ensures
        0 <= repeated_source(groups, n, w) < n,
        groups[repeated_source(groups, n, w)] == repeated_below(groups, n)[w],
        repeated_below(groups, n)[w].files.len() >= 2,
    decreases n,
{
    if w < repeated_below(groups, (n - 1) as nat).len() {
        lemma_repeated_source(groups, (n - 1) as nat, w);
    }
}

/// Different repeated groups have different sources.
proof fn lemma_repeated_sources_differ(groups: Seq<GroupView>, n: nat, v: int, w: int)
    requires
        n <= groups.len(),
        0 <= v < w < repeated_below(groups, n).len(),
    ensures
        repeated_source(groups, n, v) < repeated_source(groups, n, w),
    decreases n,
{
    let earlier = repeated_below(groups, (n - 1) as nat);
    if w < earlier.len() {
        lemma_repeated_sources_differ(groups, (n - 1) as nat, v, w);
    } else {
        lemma_repeated_source(groups, (n - 1) as nat, v);
    }
}

/// The ranking behind a sorted list of duplicate groups.
spec fn ranking_of(hashed: Seq<HashedFile>, sorted: Seq<GroupView>) -> Seq<usize> {
    let wanted = duplicate_groups(hashed);
    choose|order: Seq<usize>|
        #![auto]
        is_ranking(wasted_keys(wanted), order) && sorted.len() == (if wanted.len() < order.len() {
            wanted.len()
        } else {
            order.len()
        }) && forall|k: int| 0 <= k < sorted.len() ==> sorted[k] == wanted[order[k] as int]
}

/// The ranking behind a sorted list lists every duplicate group once.
proof fn lemma_ranking_of(hashed: Seq<HashedFile>, sorted: Seq<GroupView>)
    requires
        sorted_by_waste(duplicate_groups(hashed), sorted),
    ensures
        is_ranking(wasted_keys(duplicate_groups(hashed)), ranking_of(hashed, sorted)),
        sorted.len() == duplicate_groups(hashed).len(),
        ranking_of(hashed, sorted).len() == sorted.len(),
        forall|k: int|
            0 <= k < sorted.len() ==> 0 <= #[trigger] ranking_of(hashed, sorted)[k]
                < duplicate_groups(hashed).len() && sorted[k] == duplicate_groups(
                hashed,
            )[ranking_of(hashed, sorted)[k] as int],
{
    let wanted = duplicate_groups(hashed);
    assert(wasted_keys(wanted).len() == wanted.len());
}

/// The positions of the entries with a fingerprint, in order.
pub open spec fn entries_with(hashed: Seq<HashedFile>, hash: Seq<char>) -> Seq<int> {
    positions_with(fingerprints(hashed), hash, hashed.len())
}

/// Whether a group is the one that an entry belongs to.
pub open spec fn holds(group: GroupView, entry: HashedFile) -> bool {
    group.hash == entry.hash@ && group.files.contains(entry.path@)
}

/// Every group of the result holds two or more files: exactly the entries that carry
/// its fingerprint, in their order, with the size of the first of them. No two
/// groups of the result have the same fingerprint.
pub proof fn lemma_groups_are_exact(hashed: Seq<HashedFile>, sorted: Seq<GroupView>, k: int)
    requires
        sorted_by_waste(duplicate_groups(hashed), sorted),
        0 <= k < sorted.len(),
    ensures
        sorted[k].files.len() >= 2,
        entries_with(hashed, sorted[k].hash).len() == sorted[k].files.len(),
        sorted[k] == group_at(hashed, entries_with(hashed, sorted[k].hash)),
        forall|q: int|
            0 <= q < entries_with(hashed, sorted[k].hash).len() ==> 0 <= #[trigger] entries_with(
                hashed,
                sorted[k].hash,
            )[q] < hashed.len() && hashed[entries_with(hashed, sorted[k].hash)[q]].hash@
                == sorted[k].hash,
        forall|other: int|
            0 <= other < sorted.len() && other != k ==> (#[trigger] sorted[other]).hash
                != sorted[k].hash,
{
    let n = hashed.len();
    let labels = fingerprints(hashed);
    let placed = grouped(labels, n);
    let groups = all_groups(hashed);
    let order = ranking_of(hashed, sorted);
    lemma_ranking_of(hashed, sorted);
    let w = order[k] as int;
    let g = repeated_source(groups, groups.len(), w);
    lemma_repeated_source(groups, groups.len(), w);
    lemma_group_labels(labels, n, g);
    assert(groups[g] == group_at(hashed, placed[g]));
    let hash = labels[placed[g][0]];
    assert(hash == hashed[placed[g][0]].hash@);
    assert(sorted[k].hash == hash);
    crate::grouping::lemma_positions(labels, hash, n);
    assert forall|other: int| 0 <= other < sorted.len() && other != k implies (
    #[trigger] sorted[other]).hash != sorted[k].hash by {
        let w2 = order[other] as int;
        crate::order::lemma_ranking_distinct(
            wasted_keys(duplicate_groups(hashed)),
            order,
            other,
            k,
        );
        let g2 = repeated_source(groups, groups.len(), w2);
        lemma_repeated_source(groups, groups.len(), w2);
        if w2 < w {
            lemma_repeated_sources_differ(groups, groups.len(), w2, w);
        } else {
            lemma_repeated_sources_differ(groups, groups.len(), w, w2);
        }
        lemma_group_labels(labels, n, g2);
        assert(groups[g2] == group_at(hashed, placed[g2]));
        assert(sorted[other].hash == labels[placed[g2][0]]);
    }
}

/// Every fingerprint that two entries carry has its group in the result.
pub proof fn lemma_shared_fingerprint_has_group(
    hashed: Seq<HashedFile>,
    sorted: Seq<GroupView>,
    i: int,
    j: int,
) -> (k: int)
    requires
        0 <= i < j < hashed.len(),
        hashed[i].hash@ == hashed[j].hash@,
        sorted_by_waste(duplicate_groups(hashed), sorted),
    ensures
        0 <= k < sorted.len(),
        holds(sorted[k], hashed[i]),
        holds(sorted[k], hashed[j]),
        forall|other: int|
            0 <= other < sorted.len() && other != k ==> !holds(#[trigger] sorted[other], hashed[i])
                && !holds(sorted[other], hashed[j]),
{
    let n = hashed.len();
    let labels = fingerprints(hashed);
    let hash = labels[i];
    let placed = grouped(labels, n);
    let groups = all_groups(hashed);
    let f = crate::grouping::lemma_first_of(labels, n, i);
    crate::grouping::lemma_positions(labels, hash, n);
    let at = placed[f];
    assert(at == positions_with(labels, hash, n));
    assert(labels[j] == hashed[j].hash@);
    assert(at.contains(i) && at.contains(j));
    let pi = choose|pi: int| 0 <= pi < at.len() && at[pi] == i;
    let pj = choose|pj: int| 0 <= pj < at.len() && at[pj] == j;
    assert(pi != pj);
    assert(labels[at[0]] == hash);
    assert(groups[f] == group_at(hashed, at));
    assert(groups[f].files[pi] == hashed[i].path@);
    assert(groups[f].files[pj] == hashed[j].path@);
    lemma_repeated_contains(groups, groups.len(), f);
    let wanted = duplicate_groups(hashed);
    let w = choose|w: int| 0 <= w < wanted.len() && wanted[w] == groups[f];
    let order = ranking_of(hashed, sorted);
    lemma_ranking_of(hashed, sorted);
    assert(crate::order::lists(order, w));
    let k = choose|k: int| 0 <= k < order.len() && #[trigger] order[k] == w;
    assert(sorted[k] == groups[f]);
    lemma_groups_are_exact(hashed, sorted, k);
    k
}

/// Two files with the same content end up in the same duplicate group: whenever two
/// fingerprinted entries carry the fingerprint of one content, exactly one group of
/// the result holds the one, and it holds the other too.
pub proof fn lemma_same_content_same_group(
    hashed: Seq<HashedFile>,
    sorted: Seq<GroupView>,
    i: int,
    j: int,
    content: Seq<u8>,
)
    requires
        0 <= i < j < hashed.len(),
        hashed[i].hash@ == content_fingerprint(content),
        hashed[j].hash@ == content_fingerprint(content),
        sorted_by_waste(duplicate_groups(hashed), sorted),
    ensures
        exists|k: int|
            0 <= k < sorted.len() && holds(#[trigger] sorted[k], hashed[i]) && holds(
                sorted[k],
                hashed[j],
            ) && forall|other: int|
                0 <= other < sorted.len() && other != k ==> !holds(
                    #[trigger] sorted[other],
                    hashed[i],
                ),
{
    let _ = lemma_shared_fingerprint_has_group(hashed, sorted, i, j);
}

/// Whether `hashed` holds, in order, the files at the positions `candidates` with
/// the fingerprints of their contents.
pub open spec fn hashes_candidates(
    files: Seq<FileInfo>,
    contents: Seq<Seq<u8>>,
    candidates: Seq<usize>,
    hashed: Seq<HashedFile>,
) -> bool {
    &&& contents.len() == files.len()
    &&& hashed.len() == candidates.len()
    &&& forall|k: int|
        0 <= k < candidates.len() ==> (#[trigger] candidates[k]) < files.len() && hashed[k].path@
            == files[candidates[k] as int].path@ && hashed[k].hash@ == content_fingerprint(
            contents[candidates[k] as int],
        )
}

/// Two files with the same content, both at least `min_size` long, end up in one
/// duplicate group and in no other: where the walk lists no path twice and every
/// file of the first pass was read and fingerprinted, exactly one group of the
/// result lists the path of the one, and it lists the path of the other too.
pub proof fn lemma_identical_files_share_a_group(
    files: Seq<FileInfo>,
    contents: Seq<Seq<u8>>,
    min_size: u64,
    candidates: Seq<usize>,
    hashed: Seq<HashedFile>,
    sorted: Seq<GroupView>,
    i: int,
    j: int,
)
    requires
        0 <= i < j < files.len() <= usize::MAX,
        forall|a: int, b: int|
            0 <= a < b < files.len() ==> (#[trigger] files[a]).path@ != (#[trigger] files[b]).path@,
        contents.len() == files.len(),
        contents[i] == contents[j],
        files[i].size == files[j].size,
        files[i].size >= min_size,
        forall|a: int, b: int| 0 <= a < b < candidates.len() ==> candidates[a] < candidates[b],
        forall|p: int|
            0 <= p < files.len() ==> (candidates.contains(p as usize) <==> shares_size(
                files,
                min_size,
                p,
            )),
        hashes_candidates(files, contents, candidates, hashed),
        sorted_by_waste(duplicate_groups(hashed), sorted),
    ensures
        exists|k: int|
            0 <= k < sorted.len() && (#[trigger] sorted[k]).files.contains(files[i].path@)
                && sorted[k].files.contains(files[j].path@) && forall|other: int|
                0 <= other < sorted.len() && other != k ==> !(#[trigger] sorted[other]).files.contains(
                    files[i].path@,
                ),
{
    lemma_same_size_both_hashed(files, min_size, i, j);
    assert(candidates.contains(i as usize));
    assert(candidates.contains(j as usize));
    let a = choose|a: int| 0 <= a < candidates.len() && candidates[a] == i as usize;
    let b = choose|b: int| 0 <= b < candidates.len() && candidates[b] == j as usize;
    assert(candidates[a] as int == i && candidates[b] as int == j);
    if a > b {
        assert(candidates[b] < candidates[a]);
    }
    assert(a < b);
    assert(hashed[a].hash@ == content_fingerprint(contents[i]));
    assert(hashed[b].hash@ == content_fingerprint(contents[j]));
    let k = lemma_shared_fingerprint_has_group(hashed, sorted, a, b);
    assert(sorted[k].files.contains(files[i].path@) && sorted[k].files.contains(files[j].path@));
    assert forall|other: int| 0 <= other < sorted.len() && other != k implies !(
    #[trigger] sorted[other]).files.contains(files[i].path@) by {
        if sorted[other].files.contains(files[i].path@) {
            lemma_groups_are_exact(hashed, sorted, other);
            let at = entries_with(hashed, sorted[other].hash);
            let q = choose|q: int|
                0 <= q < sorted[other].files.len() && sorted[other].files[q] == files[i].path@;
            let e = at[q];
            assert(hashed[e].path@ == files[i].path@);
            assert(hashed[e].path@ == files[candidates[e] as int].path@);
            let c = candidates[e] as int;
            if c < i {
                assert(files[c].path@ != files[i].path@);
            } else if c > i {
                assert(files[i].path@ != files[c].path@);
            }
            assert(c == i);
            if e < a {
                assert(candidates[e] < candidates[a]);
            } else if e > a {
                assert(candidates[a] < candidates[e]);
            }
            assert(e == a);
            assert(holds(sorted[other], hashed[a]));
        }
    }
}

/// Whether entries with the same fingerprint have the same size.
pub open spec fn sizes_follow_fingerprints(hashed: Seq<HashedFile>) -> bool {
    forall|a: int, b: int|
        0 <= a < hashed.len() && 0 <= b < hashed.len() && (#[trigger] hashed[a]).hash@ == (
        #[trigger] hashed[b]).hash@ ==> hashed[a].size == hashed[b].size
}

/// Entries with the same fingerprint have the same size where every entry carries
/// the fingerprint and the length of its content and no two different contents
/// have the same fingerprint.
pub proof fn lemma_sizes_follow_fingerprints(hashed: Seq<HashedFile>, contents: Seq<Seq<u8>>)
    requires
        contents.len() == hashed.len(),
        forall|a: int|
            0 <= a < hashed.len() ==> (#[trigger] hashed[a]).hash@ == content_fingerprint(
                contents[a],
            ) && hashed[a].size == contents[a].len(),
        forall|a: int, b: int|
            0 <= a < hashed.len() && 0 <= b < hashed.len() && content_fingerprint(
                #[trigger] contents[a],
            ) == content_fingerprint(#[trigger] contents[b]) ==> contents[a] == contents[b],
    ensures
        sizes_follow_fingerprints(hashed),
{
    assert forall|a: int, b: int|
        0 <= a < hashed.len() && 0 <= b < hashed.len() && (#[trigger] hashed[a]).hash@ == (
        #[trigger] hashed[b]).hash@ implies hashed[a].size == hashed[b].size by {
        assert(contents[a] == contents[b]);
    }
}

/// Whether a path is that of an entry with the fingerprint and the size of a group.
pub open spec fn is_sized_member(hashed: Seq<HashedFile>, group: GroupView, path: Seq<char>) -> bool {
    exists|e: int|
        0 <= e < hashed.len() && (#[trigger] hashed[e]).path@ == path && hashed[e].hash@
            == group.hash && hashed[e].size == group.size
}

/// Every file that a group lists has the size of the group, so that two files of
/// different sizes never share a group. This holds where entries with the same
/// fingerprint have the same size.
pub proof fn lemma_distinct_sizes_distinct_groups(
    hashed: Seq<HashedFile>,
    sorted: Seq<GroupView>,
    k: int,
)
    requires
        sizes_follow_fingerprints(hashed),
        sorted_by_waste(duplicate_groups(hashed), sorted),
        0 <= k < sorted.len(),
    ensures
        forall|q: int|
            0 <= q < sorted[k].files.len() ==> is_sized_member(
                hashed,
                sorted[k],
                #[trigger] sorted[k].files[q],
            ),
        forall|i: int|
            0 <= i < hashed.len() && holds(sorted[k], #[trigger] hashed[i]) ==> hashed[i].size
                == sorted[k].size,
        forall|i: int, j: int|
            0 <= i < hashed.len() && 0 <= j < hashed.len() && hashed[i].size != hashed[j].size
                ==> !(holds(sorted[k], #[trigger] hashed[i]) && holds(
                sorted[k],
                #[trigger] hashed[j],
            )),
{
    lemma_groups_are_exact(hashed, sorted, k);
    let at = entries_with(hashed, sorted[k].hash);
    let first = at[0];
    assert(hashed[first].hash@ == sorted[k].hash);
    assert(sorted[k].size == hashed[first].size);
    assert forall|q: int| 0 <= q < sorted[k].files.len() implies is_sized_member(
        hashed,
        sorted[k],
        #[trigger] sorted[k].files[q],
    ) by {
        let e = at[q];
        assert(hashed[e].hash@ == sorted[k].hash);
        assert(hashed[e].path@ == sorted[k].files[q]);
        assert(hashed[e].size == hashed[first].size);
    }
    assert forall|i: int| 0 <= i < hashed.len() && holds(sorted[k], #[trigger] hashed[i]) implies hashed[i].size
        == sorted[k].size by {
        assert(hashed[i].hash@ == hashed[first].hash@);
    }
}

} // verus!
