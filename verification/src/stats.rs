//! Directory statistics: the number and total size of the files of a walk, the same
//! per extension, and the largest files.

use vstd::prelude::*;

use crate::grouping::{group_positions, grouped, label_texts, lemma_group_in_range, positions};
use crate::order::{
    arrange, is_ranking, lemma_ranking_arranges, rank_descending, ranked, top_ranked,
};
use crate::scanner::FileInfo;
use crate::text::{add_capped, capped};

verus! {

/// The statistics of a walk.
#[derive(Debug)]
pub struct StatsResult {
    pub total_files: usize,
    pub total_size: u64,
    pub by_extension: Vec<ExtensionStats>,
    pub largest_files: Vec<FileEntry>,
}

/// The files of one extension.
#[derive(Debug)]
pub struct ExtensionStats {
    pub extension: String,
    pub count: usize,
    pub total_size: u64,
}

/// One file with its size.
#[derive(Debug)]
pub struct FileEntry {
    pub path: String,
    pub size: u64,
}

/// What an `ExtensionStats` holds, with its text as a sequence of characters.
pub struct ExtensionView {
    pub extension: Seq<char>,
    pub count: nat,
    pub total_size: u64,
}

impl View for ExtensionStats {
    type V = ExtensionView;

    open spec fn view(&self) -> ExtensionView {
        ExtensionView {
            extension: self.extension@,
            count: self.count as nat,
            total_size: self.total_size,
        }
    }
}

/// What a `FileEntry` holds, with its text as a sequence of characters.
pub struct EntryView {
    pub path: Seq<char>,
    pub size: u64,
}

impl View for FileEntry {
    type V = EntryView;

    open spec fn view(&self) -> EntryView {
        EntryView { path: self.path@, size: self.size }
    }
}

/// The label under which a file is counted: its extension, or `(no ext)`.
pub open spec fn label_of(file: FileInfo) -> Seq<char> {
    match file.extension {
        Some(ext) => ext@,
        None => "(no ext)"@,
    }
}

/// The labels of a list of files, in the same order.
pub open spec fn labels_of(files: Seq<FileInfo>) -> Seq<Seq<char>> {
    files.map_values(|f: FileInfo| label_of(f))
}

/// The sizes of a list of files, in the same order.
pub open spec fn sizes_of(files: Seq<FileInfo>) -> Seq<u64> {
    files.map_values(|f: FileInfo| f.size)
}

/// The files of a list as entries, in the same order.
pub open spec fn entries_of(files: Seq<FileInfo>) -> Seq<EntryView> {
    files.map_values(|f: FileInfo| EntryView { path: f.path@, size: f.size })
}

/// The sizes of the first `n` files together.
pub open spec fn size_total(files: Seq<FileInfo>, n: nat) -> nat
    decreases n,
{
    if n == 0 {
        0
    } else {
        size_total(files, (n - 1) as nat) + files[n - 1].size as nat
    }
}

/// The sizes of the files at the first `n` of the given positions together.
pub open spec fn size_at(files: Seq<FileInfo>, at: Seq<int>, n: nat) -> nat
    decreases n,
{
    if n == 0 {
        0
    } else {
        size_at(files, at, (n - 1) as nat) + files[at[n - 1]].size as nat
    }
}

/// The statistics of the files at the given positions, which share one label.
pub open spec fn stats_at(files: Seq<FileInfo>, at: Seq<int>) -> ExtensionView {
    ExtensionView {
        extension: label_of(files[at[0]]),
        count: at.len(),
        total_size: capped(size_at(files, at, at.len())),
    }
}

/// The statistics per label, in order of first occurrence.
pub open spec fn extension_stats(files: Seq<FileInfo>) -> Seq<ExtensionView> {
    grouped(labels_of(files), files.len()).map_values(|at: Seq<int>| stats_at(files, at))
}

/// The sort keys of the statistics per label: their total sizes.
pub open spec fn total_sizes(stats: Seq<ExtensionView>) -> Seq<u64> {
    stats.map_values(|s: ExtensionView| s.total_size)
}

/// The views of a list of statistics, in the same order.
pub open spec fn stats_views(stats: Seq<ExtensionStats>) -> Seq<ExtensionView> {
    stats.map_values(|s: ExtensionStats| s@)
}

/// The views of a list of entries, in the same order.
pub open spec fn entry_views(entries: Seq<FileEntry>) -> Seq<EntryView> {
    entries.map_values(|e: FileEntry| e@)
}

/// Computes the statistics of the files of a walk: how many there are and how large
/// they are together, the same for every extension, sorted by total size with the
/// largest first, and the `top_n` largest files. Sizes that add up beyond `u64::MAX`
/// are reported as `u64::MAX`. Among equal sizes the earlier file, or the extension
/// that occurs first, comes first.
pub fn run_stats(files: &Vec<FileInfo>, top_n: usize) -> (result: StatsResult)
    ensures
        result.total_files == files@.len(),
        result.total_size == capped(size_total(files@, files@.len())),
        ranked(
            extension_stats(files@),
            total_sizes(extension_stats(files@)),
            stats_views(result.by_extension@),
        ),
        top_ranked(
            entries_of(files@),
            sizes_of(files@),
            top_n as nat,
            entry_views(result.largest_files@),
        ),
{
    let n = files.len();
    let mut total_size: u64 = 0;
    let mut labels: Vec<String> = Vec::new();
    let mut sizes: Vec<u64> = Vec::new();
    let mut i: usize = 0;
    while i < n
        invariant
            n == files@.len(),
            i <= n,
            total_size == capped(size_total(files@, i as nat)),
            label_texts(labels@) == labels_of(files@).take(i as int),
            sizes@ == sizes_of(files@).take(i as int),
        decreases n - i,
    {
        let file = &files[i];
        total_size = add_capped(total_size, file.size);
        let ghost before = labels@;
        let label: String = match &file.extension {
            Some(ext) => ext.clone(),
            None => "(no ext)".to_owned(),
        };
        assert(label@ == label_of(*file));
        labels.push(label);
        sizes.push(file.size);
        proof {
            assert(label_texts(labels@) =~= label_texts(before).push(label@));
            assert(labels_of(files@).take(i + 1) =~= labels_of(files@).take(i as int).push(
                label_of(files@[i as int]),
            ));
            assert(sizes@ =~= sizes_of(files@).take(i + 1));
        }
        i += 1;
    }
    assert(label_texts(labels@) =~= labels_of(files@));
    assert(sizes@ =~= sizes_of(files@));
    // Per extension.
    let placed = group_positions(&labels);
    let ghost wanted = grouped(labels_of(files@), files@.len());
    let mut stats: Vec<ExtensionStats> = Vec::new();
    let mut keys: Vec<u64> = Vec::new();
    let mut g: usize = 0;
    while g < placed.len()
        invariant
            n == files@.len(),
            g <= placed@.len(),
            placed@.map_values(|p: Vec<usize>| positions(p)) == wanted,
            wanted == grouped(labels_of(files@), files@.len()),
            label_texts(labels@) == labels_of(files@),
            labels@.len() == n,
            stats@.len() == g,
            keys@.len() == g,
            forall|k: int| 0 <= k < g ==> (#[trigger] stats@[k])@ == stats_at(files@, wanted[k]),
            forall|k: int| 0 <= k < g ==> #[trigger] keys@[k] == stats_at(files@, wanted[k]).total_size,
        decreases placed.len() - g,
    {
        let at = &placed[g];
        proof {
            assert(positions(*at) == wanted[g as int]);
            lemma_group_in_range(labels_of(files@), files@.len(), g as int);
            assert forall|q: int| 0 <= q < at@.len() implies (#[trigger] at@[q]) < n by {
                assert(positions(*at)[q] == at@[q] as int);
                assert(wanted[g as int][q] < n);
            }
            assert(at@[0] as int == wanted[g as int][0]);
        }
        let mut group_size: u64 = 0;
        let mut q: usize = 0;
        while q < at.len()
            invariant
                n == files@.len(),
                q <= at@.len(),
                positions(*at) == wanted[g as int],
                wanted[g as int].len() == at@.len(),
                forall|p: int| 0 <= p < at@.len() ==> (#[trigger] at@[p]) < n,
                group_size == capped(size_at(files@, wanted[g as int], q as nat)),
            decreases at.len() - q,
        {
            assert(positions(*at)[q as int] == at@[q as int] as int);
            group_size = add_capped(group_size, files[at[q]].size);
            q += 1;
        }
        let extension = labels[at[0]].clone();
        assert(extension@ == label_texts(labels@)[at@[0] as int]);
        assert(extension@ == label_of(files@[at@[0] as int]));
        stats.push(ExtensionStats { extension, count: at.len(), total_size: group_size });
        keys.push(group_size);
        g += 1;
    }
    proof {
        assert(stats_views(stats@) =~= extension_stats(files@));
        assert(keys@ =~= total_sizes(extension_stats(files@)));
    }
    let order = rank_descending(&keys);
    proof {
        lemma_ranking_arranges(keys@, order@);
    }
    let ghost unsorted = stats@;
    let by_extension = arrange(stats, &order, order.len());
    proof {
        assert forall|k: int| 0 <= k < order@.len() implies stats_views(by_extension@)[k]
            == extension_stats(files@)[order@[k] as int] by {
            assert(by_extension@[k] == unsorted[order@[k] as int]);
            assert(stats_views(unsorted)[order@[k] as int] == unsorted[order@[k] as int]@);
        }
        assert(ranked(
            extension_stats(files@),
            total_sizes(extension_stats(files@)),
            stats_views(by_extension@),
        ));
    }
    // The largest files.
    let by_size = rank_descending(&sizes);
    let wanted_files = if top_n < n {
        top_n
    } else {
        n
    };
    let mut largest_files: Vec<FileEntry> = Vec::new();
    let mut r: usize = 0;
    while r < wanted_files
        invariant
            n == files@.len(),
            r <= wanted_files <= n,
            is_ranking(sizes_of(files@), by_size@),
            largest_files@.len() == r,
            forall|k: int|
                0 <= k < r ==> (#[trigger] largest_files@[k])@ == entries_of(
                    files@,
                )[by_size@[k] as int],
        decreases wanted_files - r,
    {
        let file = &files[by_size[r]];
        largest_files.push(FileEntry { path: file.path.clone(), size: file.size });
        r += 1;
    }
    proof {
        assert forall|k: int| 0 <= k < entry_views(largest_files@).len() implies entry_views(
            largest_files@,
        )[k] == entries_of(files@)[by_size@[k] as int] by {
            assert(entry_views(largest_files@)[k] == largest_files@[k]@);
        }
        assert(top_ranked(
            entries_of(files@),
            sizes_of(files@),
            top_n as nat,
            entry_views(largest_files@),
        ));
    }
    StatsResult { total_files: n, total_size, by_extension, largest_files }
}

} // verus!
