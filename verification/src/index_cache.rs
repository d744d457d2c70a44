//! The two tiers of the index cache: the indexes kept in memory during a session,
//! keyed by their root, and the rules by which an index moves between memory, disk
//! and a fresh build.

use std::sync::Arc;
use vstd::prelude::*;

use crate::index::{texts, TrigramIndex};
use crate::search::{
    index_serves, index_usable, search_views, SearchMatch, SearchMatchView, SearchResult,
};
use crate::text::same_text;
use crate::time::Timestamp;

verus! {

/// Makes another handle to a shared index with `Arc::clone`: the new handle points
/// to the same index.
#[verifier::external_body]
fn share(index: &Arc<TrigramIndex>) -> (handle: Arc<TrigramIndex>)
    ensures
        *handle == **index,
{
    Arc::clone(index)
}

/// One kept index with the root it covers.
struct CacheEntry {
    root: String,
    index: Arc<TrigramIndex>,
}

/// The indexes kept in memory, at most one per root.
pub struct IndexCache {
    entries: Vec<CacheEntry>,
}

/// The map that the first `n` entries make: every root with its index.
spec fn map_of(entries: Seq<CacheEntry>, n: nat) -> Map<Seq<char>, TrigramIndex>
    decreases n,
{
    if n == 0 {
        Map::empty()
    } else {
        map_of(entries, (n - 1) as nat).insert(entries[n - 1].root@, *entries[n - 1].index)
    }
}

/// Whether no two entries have the same root.
spec fn distinct_roots(entries: Seq<CacheEntry>) -> bool {
    forall|a: int, b: int|
        0 <= a < b < entries.len() ==> (#[trigger] entries[a]).root@ != (#[trigger] entries[b]).root@
}

/// The map of distinct entries holds exactly their roots, each with its index.
proof fn lemma_map_of(entries: Seq<CacheEntry>, n: nat)
    requires
        n <= entries.len(),
        distinct_roots(entries),
    ensures
        forall|k: int|
            0 <= k < n ==> map_of(entries, n).contains_key((#[trigger] entries[k]).root@) && map_of(
                entries,
                n,
            )[entries[k].root@] == *entries[k].index,
        forall|root: Seq<char>|
            map_of(entries, n).contains_key(root) ==> exists|k: int|
                0 <= k < n && (#[trigger] entries[k]).root@ == root,
    decreases n,
{
    if n > 0 {
        lemma_map_of(entries, (n - 1) as nat);
        assert forall|root: Seq<char>| map_of(entries, n).contains_key(root) implies exists|k: int|
            0 <= k < n && (#[trigger] entries[k]).root@ == root by {
            if root != entries[n - 1].root@ {
                assert(map_of(entries, (n - 1) as nat).contains_key(root));
                let k = choose|k: int| 0 <= k < n - 1 && (#[trigger] entries[k]).root@ == root;
                assert(0 <= k < n && entries[k].root@ == root);
            }
        }
    }
}

impl IndexCache {
    /// The kept indexes by root.
    pub closed spec fn view(&self) -> Map<Seq<char>, TrigramIndex> {
        map_of(self.entries@, self.entries@.len())
    }

    #[verifier::type_invariant]
    spec fn inv(self) -> bool {
        distinct_roots(self.entries@)
    }

    /// A cache that keeps nothing.
    pub fn new() -> (cache: IndexCache)
        ensures
            cache.view() == Map::<Seq<char>, TrigramIndex>::empty(),
    {
        IndexCache { entries: Vec::new() }
    }

    fn position(&self, root: &str) -> (at: Option<usize>)
        ensures
            match at {
                Some(k) => k < self.entries@.len() && self.entries@[k as int].root@ == root@,
                None => forall|k: int|
                    0 <= k < self.entries@.len() ==> (#[trigger] self.entries@[k]).root@ != root@,
            },
    {
        let mut k: usize = 0;
        while k < self.entries.len()
            invariant
                k <= self.entries@.len(),
                forall|j: int| 0 <= j < k ==> (#[trigger] self.entries@[j]).root@ != root@,
            decreases self.entries.len() - k,
        {
            if same_text(self.entries[k].root.as_str(), root) {
                return Some(k);
            }
            k += 1;
        }
        None
    }

    /// The index kept for a root.
    pub fn get(&self, root: &str) -> (kept: Option<&Arc<TrigramIndex>>)
        ensures
            match kept {
                Some(index) => self.view().contains_key(root@) && **index == self.view()[root@],
                None => !self.view().contains_key(root@),
            },
    {
        proof {
            use_type_invariant(self);
            lemma_map_of(self.entries@, self.entries@.len());
        }
        match self.position(root) {
            Some(k) => Some(&self.entries[k].index),
            None => None,
        }
    }

    /// Keeps an index for a root, in place of the one kept for that root before.
    pub fn store_in_cache(self, root: &str, index: Arc<TrigramIndex>) -> (kept: IndexCache)
        ensures
            kept.view() == self.view().insert(root@, *index),
    {
        proof {
            use_type_invariant(&self);
        }
        let found = self.position(root);
        let mut entries = self.entries;
        let ghost before = entries@;
        proof {
            lemma_map_of(before, before.len());
        }
        match found {
            Some(k) => {
                entries[k].index = index;
                proof {
                    let after = entries@;
                    assert forall|a: int, b: int| 0 <= a < b < after.len() implies (
                    #[trigger] after[a]).root@ != (#[trigger] after[b]).root@ by {
                        assert(after[a].root == before[a].root);
                        assert(after[b].root == before[b].root);
                    }
                    lemma_map_of(after, after.len());
                    assert forall|r: Seq<char>|
                        map_of(after, after.len()).contains_key(r) <==> map_of(
                            before,
                            before.len(),
                        ).insert(root@, *index).contains_key(r) by {
                        if map_of(after, after.len()).contains_key(r) {
                            let j = choose|j: int|
                                0 <= j < after.len() && (#[trigger] after[j]).root@ == r;
                            assert(before[j].root@ == r);
                        }
                        if map_of(before, before.len()).contains_key(r) {
                            let j = choose|j: int|
                                0 <= j < before.len() && (#[trigger] before[j]).root@ == r;
                            assert(after[j].root@ == r);
                        }
                        if r == root@ {
                            assert(after[k as int].root@ == r);
                        }
                    }
                    assert forall|r: Seq<char>|
                        map_of(after, after.len()).contains_key(r) implies map_of(
                        after,
                        after.len(),
                    )[r] == map_of(before, before.len()).insert(root@, *index)[r] by {
                        let j = choose|j: int|
                            0 <= j < after.len() && (#[trigger] after[j]).root@ == r;
                        if j != k {
                            assert(after[j] == before[j]);
                            assert(before[j].root@ != before[k as int].root@);
                        }
                    }
                    assert(map_of(after, after.len()) =~= map_of(before, before.len()).insert(
                        root@,
                        *index,
                    ));
                }
            },
            None => {
                entries.push(CacheEntry { root: root.to_owned(), index });
                proof {
                    let after = entries@;
                    assert(after.len() == before.len() + 1);
                    lemma_map_prefix(after, before, before.len());
                }
            },
        }
        IndexCache { entries }
    }

    /// The memory tier of a lookup: the index kept for the root, where the memory
    /// tier takes part and the index is fresh given the root's modification time as
    /// it is now.
    pub fn lookup(
        &self,
        root: &str,
        use_memory_cache: bool,
        root_modified: Option<Timestamp>,
    ) -> (found: Option<Arc<TrigramIndex>>)
        ensures
            match found {
                Some(index) => use_memory_cache && self.view().contains_key(root@) && *index
                    == self.view()[root@] && index.fresh(root_modified),
                None => !use_memory_cache || !self.view().contains_key(root@)
                    || !self.view()[root@].fresh(root_modified),
            },
    {
        if !use_memory_cache {
            return None;
        }
        match self.get(root) {
            Some(index) => {
                if index.is_fresh(root_modified) {
                    Some(share(index))
                } else {
                    None
                }
            },
            None => None,
        }
    }
}

/// The map of the first `n` entries depends on those entries only.
proof fn lemma_map_prefix(longer: Seq<CacheEntry>, shorter: Seq<CacheEntry>, n: nat)
    requires
        n <= shorter.len() <= longer.len(),
        forall|j: int| 0 <= j < shorter.len() ==> longer[j] == shorter[j],
    ensures
        map_of(longer, n) == map_of(shorter, n),
    decreases n,
{
    if n > 0 {
        lemma_map_prefix(longer, shorter, (n - 1) as nat);
    }
}

/// Where an index came from.
#[derive(Debug, Clone, Copy, PartialEq, Eq, Structural)]
pub enum IndexSource {
    /// It was kept in memory and is fresh.
    Memory,
    /// It was read from disk, covers the root and is fresh.
    Disk,
    /// It was built.
    Built,
}

/// What is done with an index once it is at hand.
#[derive(Debug, Clone, Copy, PartialEq, Eq, Structural)]
pub struct Promotion {
    /// Whether it is written to disk.
    pub to_disk: bool,
    /// Whether it is kept in memory.
    pub to_memory: bool,
}

/// Decides what is done with an index once it is at hand: a built index is written
/// to disk, and an index that did not come from memory is kept there where the
/// memory tier takes part.
pub fn promotion(source: IndexSource, use_memory_cache: bool) -> (steps: Promotion)
    ensures
        steps.to_disk == (source == IndexSource::Built),
        steps.to_memory == (use_memory_cache && source != IndexSource::Memory),
{
    match source {
        IndexSource::Memory => Promotion { to_disk: false, to_memory: false },
        IndexSource::Disk => Promotion { to_disk: false, to_memory: use_memory_cache },
        IndexSource::Built => Promotion { to_disk: true, to_memory: use_memory_cache },
    }
}

/// The entries of a search result for the paths that an index found.
pub open spec fn indexed_entries(paths: Seq<Seq<char>>) -> Seq<SearchMatchView> {
    paths.map_values(|p: Seq<char>| SearchMatchView { path: p, size: 0, content_matches: None })
}

/// Answers a search by name from an index. `None` says that the index cannot serve
/// the search, which then has to walk the tree: the search is not recursive, or the
/// pattern yields no trigram. Sizes are not known to the index and reported as 0.
pub fn try_indexed_search(index: &TrigramIndex, name_pattern: &str, recursive: bool) -> (result:
    Option<SearchResult>)
    ensures
        match result {
            Some(found) => index_serves(name_pattern@, recursive) && index.query_result(
                name_pattern@,
            ).is_some() && search_views(found.matches@) == indexed_entries(
                index.query_result(name_pattern@).unwrap(),
            ) && found.total_matches == found.matches@.len() && found.files_scanned
                == index.file_count(),
            None => !index_serves(name_pattern@, recursive),
        },
{
    if !index_usable(name_pattern, recursive) {
        return None;
    }
    let paths = match index.query(name_pattern) {
        Some(paths) => paths,
        None => {
            return None;
        },
    };
    let ghost wanted = texts(paths@);
    let mut paths = paths;
    let mut reversed: Vec<SearchMatch> = Vec::new();
    let ghost total = paths@.len();
    while paths.len() > 0
        invariant
            paths@.len() + reversed@.len() == total,
            total == wanted.len(),
            forall|k: int| 0 <= k < paths@.len() ==> (#[trigger] paths@[k])@ == wanted[k],
            forall|k: int|
                0 <= k < reversed@.len() ==> (#[trigger] reversed@[k])@ == indexed_entries(
                    wanted,
                )[total - 1 - k],
        decreases paths@.len(),
    {
        let path = paths.pop().unwrap();
        reversed.push(SearchMatch { path, size: 0, content_matches: None });
    }
    let mut matches: Vec<SearchMatch> = Vec::new();
    while reversed.len() > 0
        invariant
            matches@.len() + reversed@.len() == total,
            total == wanted.len(),
            forall|k: int|
                0 <= k < reversed@.len() ==> (#[trigger] reversed@[k])@ == indexed_entries(
                    wanted,
                )[total - 1 - k],
            forall|k: int|
                0 <= k < matches@.len() ==> (#[trigger] matches@[k])@ == indexed_entries(wanted)[k],
        decreases reversed@.len(),
    {
        let entry = reversed.pop().unwrap();
        matches.push(entry);
    }
    assert(search_views(matches@) =~= indexed_entries(wanted));
    let total_matches = matches.len();
    Some(SearchResult { matches, total_matches, files_scanned: index.total_files() as usize })
}

} // verus!
