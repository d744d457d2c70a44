//! Organizing files into folders by type, by month or by size: the folder that a
//! file belongs to, the destination it is moved to, and what happens where a
//! destination is taken.
//!
//! Moving files happens outside this library. A preview is planned here in full.

use vstd::prelude::*;

use crate::grouping::{earlier_same, label_texts, occurrences};
use crate::paths::{
    extension, extension_of, file_name, file_name_of, file_stem, file_stem_of, join, joined,
    parent, parent_of,
};
use crate::scanner::FileInfo;
use vstd::string::StrSliceExecFns;
use crate::text::{
    decimal_text, padded_decimal, same_text, to_decimal, to_padded_decimal,
};

verus! {

/// The last number that is tried when a destination is renamed.
pub const MAX_RENAME_ATTEMPTS: u32 = 999;

pub open spec fn image_types() -> Seq<Seq<char>> {
    seq!["jpg"@, "jpeg"@, "png"@, "gif"@, "bmp"@, "svg"@, "webp"@, "ico"@, "tiff"@, "tif"@]
}

pub open spec fn video_types() -> Seq<Seq<char>> {
    seq!["mp4"@, "mkv"@, "avi"@, "mov"@, "wmv"@, "flv"@, "webm"@]
}

pub open spec fn audio_types() -> Seq<Seq<char>> {
    seq!["mp3"@, "wav"@, "flac"@, "aac"@, "ogg"@, "wma"@, "m4a"@]
}

pub open spec fn document_types() -> Seq<Seq<char>> {
    seq![
        "pdf"@,
        "doc"@,
        "docx"@,
        "xls"@,
        "xlsx"@,
        "ppt"@,
        "pptx"@,
        "odt"@,
        "ods"@,
        "odp"@,
        "txt"@,
        "rtf"@,
        "csv"@,
        "md"@,
    ]
}

pub open spec fn archive_types() -> Seq<Seq<char>> {
    seq!["zip"@, "tar"@, "gz"@, "bz2"@, "xz"@, "7z"@, "rar"@, "zst"@]
}

pub open spec fn code_types() -> Seq<Seq<char>> {
    seq![
        "rs"@,
        "py"@,
        "js"@,
        "ts"@,
        "go"@,
        "c"@,
        "cpp"@,
        "h"@,
        "hpp"@,
        "java"@,
        "rb"@,
        "php"@,
        "swift"@,
        "kt"@,
        "cs"@,
        "sh"@,
        "bash"@,
        "zsh"@,
        "fish"@,
        "ps1"@,
        "toml"@,
        "yaml"@,
        "yml"@,
        "json"@,
        "xml"@,
        "html"@,
        "css"@,
        "scss"@,
        "less"@,
        "sql"@,
        "r"@,
        "lua"@,
        "vim"@,
        "el"@,
        "ex"@,
        "exs"@,
        "hs"@,
        "ml"@,
        "clj"@,
    ]
}

pub open spec fn executable_types() -> Seq<Seq<char>> {
    seq!["exe"@, "msi"@, "dmg"@, "app"@, "deb"@, "rpm"@, "appimage"@, "bin"@]
}

pub open spec fn font_types() -> Seq<Seq<char>> {
    seq!["ttf"@, "otf"@, "woff"@, "woff2"@, "eot"@]
}

pub open spec fn disk_image_types() -> Seq<Seq<char>> {
    seq!["iso"@, "img"@, "vmdk"@, "vdi"@, "qcow2"@]
}

/// The folder for files of an extension.
pub open spec fn type_folder(ext: Seq<char>) -> Seq<char> {
    if image_types().contains(ext) {
        "Images"@
    } else if video_types().contains(ext) {
        "Videos"@
    } else if audio_types().contains(ext) {
        "Audio"@
    } else if document_types().contains(ext) {
        "Documents"@
    } else if archive_types().contains(ext) {
        "Archives"@
    } else if code_types().contains(ext) {
        "Code"@
    } else if executable_types().contains(ext) {
        "Executables"@
    } else if font_types().contains(ext) {
        "Fonts"@
    } else if disk_image_types().contains(ext) {
        "DiskImages"@
    } else {
        "Other"@
    }
}

/// The texts of a list of string slices.
pub open spec fn slice_texts(list: Seq<&'static str>) -> Seq<Seq<char>> {
    list.map_values(|s: &'static str| s@)
}

/// Whether a text is one of a list.
fn is_among<const N: usize>(text: &str, list: &[&'static str; N]) -> (found: bool)
    ensures
        found == slice_texts(list@).contains(text@),
{
    let mut i: usize = 0;
    while i < N
        invariant
            i <= N,
            list@.len() == N,
            forall|j: int| 0 <= j < i ==> slice_texts(list@)[j] != text@,
        decreases N - i,
    {
        if same_text(list[i], text) {
            assert(slice_texts(list@)[i as int] == text@);
            return true;
        }
        i += 1;
    }
    false
}

/// Maps a lowercased file extension to the folder for files of its type.
pub fn categorize_by_type(ext: &str) -> (folder: &'static str)
    ensures
        folder@ == type_folder(ext@),
{
    let images = ["jpg", "jpeg", "png", "gif", "bmp", "svg", "webp", "ico", "tiff", "tif"];
    assert(slice_texts(images@) =~= image_types());
    if is_among(ext, &images) {
        return "Images";
    }
    let videos = ["mp4", "mkv", "avi", "mov", "wmv", "flv", "webm"];
    assert(slice_texts(videos@) =~= video_types());
    if is_among(ext, &videos) {
        return "Videos";
    }
    let audio = ["mp3", "wav", "flac", "aac", "ogg", "wma", "m4a"];
    assert(slice_texts(audio@) =~= audio_types());
    if is_among(ext, &audio) {
        return "Audio";
    }
    let documents = [
        "pdf",
        "doc",
        "docx",
        "xls",
        "xlsx",
        "ppt",
        "pptx",
        "odt",
        "ods",
        "odp",
        "txt",
        "rtf",
        "csv",
        "md",
    ];
    assert(slice_texts(documents@) =~= document_types());
    if is_among(ext, &documents) {
        return "Documents";
    }
    let archives = ["zip", "tar", "gz", "bz2", "xz", "7z", "rar", "zst"];
    assert(slice_texts(archives@) =~= archive_types());
    if is_among(ext, &archives) {
        return "Archives";
    }
    let code = [
        "rs",
        "py",
        "js",
        "ts",
        "go",
        "c",
        "cpp",
        "h",
        "hpp",
        "java",
        "rb",
        "php",
        "swift",
        "kt",
        "cs",
        "sh",
        "bash",
        "zsh",
        "fish",
        "ps1",
        "toml",
        "yaml",
        "yml",
        "json",
        "xml",
        "html",
        "css",
        "scss",
        "less",
        "sql",
        "r",
        "lua",
        "vim",
        "el",
        "ex",
        "exs",
        "hs",
        "ml",
        "clj",
    ];
    assert(slice_texts(code@) =~= code_types());
    if is_among(ext, &code) {
        return "Code";
    }
    let executables = ["exe", "msi", "dmg", "app", "deb", "rpm", "appimage", "bin"];
    assert(slice_texts(executables@) =~= executable_types());
    if is_among(ext, &executables) {
        return "Executables";
    }
    let fonts = ["ttf", "otf", "woff", "woff2", "eot"];
    assert(slice_texts(fonts@) =~= font_types());
    if is_among(ext, &fonts) {
        return "Fonts";
    }
    let disk_images = ["iso", "img", "vmdk", "vdi", "qcow2"];
    assert(slice_texts(disk_images@) =~= disk_image_types());
    if is_among(ext, &disk_images) {
        return "DiskImages";
    }
    "Other"
}

/// The folder for files of a size.
pub open spec fn size_folder(size: u64) -> Seq<char> {
    if size == 0 {
        "Empty"@
    } else if size < 1_000 {
        "Tiny (< 1KB)"@
    } else if size < 1_000_000 {
        "Small (1KB-1MB)"@
    } else if size < 100_000_000 {
        "Medium (1MB-100MB)"@
    } else if size < 1_000_000_000 {
        "Large (100MB-1GB)"@
    } else {
        "Huge (> 1GB)"@
    }
}

/// Maps a file size to the folder for files of that size.
pub fn categorize_by_size(size: u64) -> (folder: &'static str)
    ensures
        folder@ == size_folder(size),
{
    if size == 0 {
        "Empty"
    } else if size < 1_000 {
        "Tiny (< 1KB)"
    } else if size < 1_000_000 {
        "Small (1KB-1MB)"
    } else if size < 100_000_000 {
        "Medium (1MB-100MB)"
    } else if size < 1_000_000_000 {
        "Large (100MB-1GB)"
    } else {
        "Huge (> 1GB)"
    }
}

/// A year as the folder name writes it: four digits, or a sign and at least four
/// digits for a year before 0 or after 9999.
pub open spec fn year_text(year: int) -> Seq<char> {
    if 0 <= year < 10000 {
        padded_decimal(year, 4)
    } else if year < 0 {
        "-"@ + padded_decimal(-year, 4)
    } else {
        "+"@ + padded_decimal(year, 4)
    }
}

/// The folder for files last modified in a month of the local calendar, or
/// `Unknown` where the time is not known.
pub open spec fn date_folder(local_month: Option<(i32, u32)>) -> Seq<char> {
    match local_month {
        Some((year, month)) => year_text(year as int) + "/"@ + padded_decimal(month as int, 2),
        None => "Unknown"@,
    }
}

/// Maps the year and month in which a file was last modified, taken in the local
/// time zone, to the folder for files of that month.
pub fn categorize_by_date(local_month: Option<(i32, u32)>) -> (folder: String)
    ensures
        folder@ == date_folder(local_month),
{
    match local_month {
        Some((year, month)) => {
            let mut folder: String = if 0 <= year && year < 10000 {
                to_padded_decimal(year as u64, 4)
            } else if year < 0 {
                let mut text = "-".to_owned();
                text.append(to_padded_decimal((-(year as i64)) as u64, 4).as_str());
                text
            } else {
                let mut text = "+".to_owned();
                text.append(to_padded_decimal(year as u64, 4).as_str());
                text
            };
            folder.append("/");
            folder.append(to_padded_decimal(month as u64, 2).as_str());
            folder
        },
        None => "Unknown".to_owned(),
    }
}

/// The name that a file is given when its destination is taken: the name's stem, an
/// underscore and a number, and the name's extension where it has one.
pub open spec fn renamed(path: Seq<char>, number: int) -> Seq<char> {
    let stem = match file_stem_of(path) {
        Some(s) => s,
        None => "file"@,
    };
    let numbered = stem + "_"@ + decimal_text(number);
    match extension_of(path) {
        Some(ext) => if ext.len() == 0 {
            numbered
        } else {
            numbered + "."@ + ext
        },
        None => numbered,
    }
}

/// Makes the name that a file is given when its destination is taken.
pub fn rename_candidate(path: &str, number: u64) -> (name: String)
    ensures
        name@ == renamed(path@, number as int),
{
    let mut name: String = match file_stem(path) {
        Some(stem) => stem.to_owned(),
        None => "file".to_owned(),
    };
    name.append("_");
    name.append(to_decimal(number).as_str());
    match extension(path) {
        Some(ext) => {
            if ext.unicode_len() != 0 {
                name.append(".");
                name.append(ext);
            }
        },
        None => {},
    }
    name
}

/// The directory in which a destination lies: its parent, or `.` where it has none.
pub open spec fn directory_of(path: Seq<char>) -> Seq<char> {
    match parent_of(path) {
        Some(dir) => dir,
        None => "."@,
    }
}

/// What to do about a destination.
#[derive(Debug)]
pub enum Resolution {
    /// Move the file to this path.
    Use(String),
    /// Look whether this path is taken, and ask again with the answer.
    Probe { candidate: String, attempt: u32 },
}

/// What a `Resolution` holds, with its texts as sequences of characters.
pub enum ResolutionView {
    Use(Seq<char>),
    Probe { candidate: Seq<char>, attempt: u32 },
}

impl View for Resolution {
    type V = ResolutionView;

    open spec fn view(&self) -> ResolutionView {
        match self {
            Resolution::Use(path) => ResolutionView::Use(path@),
            Resolution::Probe { candidate, attempt } => ResolutionView::Probe {
                candidate: candidate@,
                attempt: *attempt,
            },
        }
    }
}

/// The candidate of an attempt: the destination renamed with the attempt's number, in
/// the destination's directory.
pub open spec fn candidate_of(dest: Seq<char>, attempt: int) -> Seq<char> {
    joined(directory_of(dest), renamed(dest, attempt))
}

fn candidate(dest: &str, attempt: u32) -> (path: String)
    ensures
        path@ == candidate_of(dest@, attempt as int),
{
    let dir: &str = match parent(dest) {
        Some(dir) => dir,
        None => ".",
    };
    join(dir, rename_candidate(dest, attempt as u64).as_str())
}

/// Begins to resolve a destination. A destination that is free is used, and so is a
/// taken one under the modes `overwrite` and `skip`; under every other mode a taken
/// destination is renamed, starting with the number 1.
pub fn resolve_collision(dest: &str, mode: &str, dest_exists: bool) -> (step: Resolution)
    ensures
        step@ == if !dest_exists || mode@ == "overwrite"@ || mode@ == "skip"@ {
            ResolutionView::Use(dest@)
        } else {
            ResolutionView::Probe { candidate: candidate_of(dest@, 1), attempt: 1 }
        },
{
    if !dest_exists || same_text(mode, "overwrite") || same_text(mode, "skip") {
        Resolution::Use(dest.to_owned())
    } else {
        Resolution::Probe { candidate: candidate(dest, 1), attempt: 1 }
    }
}

/// Goes on resolving a destination once it is known whether the candidate of an
/// attempt is taken. A free candidate is used. After a taken one the next number is
/// tried, up to `MAX_RENAME_ATTEMPTS`; after that the destination itself is used.
pub fn resolve_next(dest: &str, attempt: u32, candidate_exists: bool) -> (step: Resolution)
    ensures
        step@ == if !candidate_exists {
            ResolutionView::Use(candidate_of(dest@, attempt as int))
        } else if attempt < MAX_RENAME_ATTEMPTS {
            ResolutionView::Probe {
                candidate: candidate_of(dest@, attempt + 1),
                attempt: (attempt + 1) as u32,
            }
        } else {
            ResolutionView::Use(dest@)
        },
{
    if !candidate_exists {
        Resolution::Use(candidate(dest, attempt))
    } else if attempt < MAX_RENAME_ATTEMPTS {
        Resolution::Probe { candidate: candidate(dest, attempt + 1), attempt: attempt + 1 }
    } else {
        Resolution::Use(dest.to_owned())
    }
}

/// The error number with which the system refuses a rename across devices.
pub const CROSS_DEVICE_ERROR: i32 = 18;

/// Whether a file stays where it is because its destination is taken: under the
/// mode `skip` a taken destination is never touched.
pub fn should_skip(mode: &str, dest_exists: bool) -> (skip: bool)
    ensures
        skip == (dest_exists && mode@ == "skip"@),
{
    dest_exists && same_text(mode, "skip")
}

/// Whether a failed rename is made up for by copying the file and deleting the
/// source: the rename failed because source and destination lie on different
/// devices. `crosses_devices` says that the error is of that kind, `os_error` is the
/// system's error number where there is one.
pub fn falls_back_to_copy(crosses_devices: bool, os_error: Option<i32>) -> (copy: bool)
    ensures
        copy == (crosses_devices || os_error == Some(CROSS_DEVICE_ERROR)),
{
    crosses_devices || match os_error {
        Some(number) => number == CROSS_DEVICE_ERROR,
        None => false,
    }
}

/// One file and where it goes.
#[derive(Debug)]
pub struct FileMove {
    pub from: String,
    pub to: String,
    pub size: u64,
}

/// What a `FileMove` holds, with its texts as sequences of characters.
pub struct MoveView {
    pub from: Seq<char>,
    pub to: Seq<char>,
    pub size: u64,
}

impl View for FileMove {
    type V = MoveView;

    open spec fn view(&self) -> MoveView {
        MoveView { from: self.from@, to: self.to@, size: self.size }
    }
}

/// The outcome of organizing, or of its preview.
#[derive(Debug)]
pub struct OrganizeResult {
    pub total_files: usize,
    pub moves: Vec<FileMove>,
    pub dry_run: bool,
    pub errors: Vec<String>,
}

/// Whether a strategy is one of `type`, `date` and `size`.
pub open spec fn strategy_known(by: Seq<char>) -> bool {
    by == "type"@ || by == "date"@ || by == "size"@
}

/// The extension of a file, or the empty text where it has none.
pub open spec fn ext_or_empty(file: FileInfo) -> Seq<char> {
    match file.extension {
        Some(ext) => ext@,
        None => Seq::empty(),
    }
}

/// The folder that a file belongs to under a known strategy.
pub open spec fn folder_of(file: FileInfo, by: Seq<char>, local_month: Option<(i32, u32)>) -> Seq<
    char,
> {
    if by == "type"@ {
        type_folder(ext_or_empty(file))
    } else if by == "date"@ {
        date_folder(local_month)
    } else {
        size_folder(file.size)
    }
}

/// Where a file goes.
#[derive(Debug)]
pub struct Destination {
    /// The folder that receives the file.
    pub directory: String,
    /// The file's path in that folder.
    pub path: String,
}

/// The folder that receives a file: its folder under the output directory.
pub open spec fn dest_dir_of(
    file: FileInfo,
    by: Seq<char>,
    output_base: Seq<char>,
    local_month: Option<(i32, u32)>,
) -> Seq<char> {
    joined(output_base, folder_of(file, by, local_month))
}

/// The name under which a file is moved: its final component, or `unknown`.
pub open spec fn moved_name(path: Seq<char>) -> Seq<char> {
    match file_name_of(path) {
        Some(name) => name,
        None => "unknown"@,
    }
}

/// The path that a file is moved to where nothing is in the way.
pub open spec fn dest_path_of(
    file: FileInfo,
    by: Seq<char>,
    output_base: Seq<char>,
    local_month: Option<(i32, u32)>,
) -> Seq<char> {
    joined(dest_dir_of(file, by, output_base, local_month), moved_name(file.path@))
}

/// The message for a strategy that is not known.
pub open spec fn unknown_strategy(by: Seq<char>) -> Seq<char> {
    "Unknown strategy: "@ + by
}

/// Plans the move of one file under a strategy. The result is an error message for
/// a strategy that is not known, `None` for a file that is where it belongs, and
/// else the file's destination. `local_month` is the year and month of the file's
/// modification time in the local time zone, which the strategy `date` goes by.
pub fn plan_move(
    file: &FileInfo,
    by: &str,
    output_base: &str,
    local_month: Option<(i32, u32)>,
) -> (plan: Result<Option<Destination>, String>)
    ensures
        match plan {
            Err(message) => !strategy_known(by@) && message@ == unknown_strategy(by@),
            Ok(None) => strategy_known(by@) && dest_path_of(*file, by@, output_base@, local_month)
                == file.path@,
            Ok(Some(dest)) => strategy_known(by@) && dest.directory@ == dest_dir_of(
                *file,
                by@,
                output_base@,
                local_month,
            ) && dest.path@ == dest_path_of(*file, by@, output_base@, local_month) && dest.path@
                != file.path@,
        },
{
    let folder: String = if same_text(by, "type") {
        let ext: &str = match &file.extension {
            Some(ext) => ext.as_str(),
            None => {
                proof {
                    reveal_strlit("");
                }
                assert(""@ =~= Seq::<char>::empty());
                ""
            },
        };
        categorize_by_type(ext).to_owned()
    } else if same_text(by, "date") {
        categorize_by_date(local_month)
    } else if same_text(by, "size") {
        categorize_by_size(file.size).to_owned()
    } else {
        let mut message = "Unknown strategy: ".to_owned();
        message.append(by);
        return Err(message);
    };
    let name: &str = match file_name(file.path.as_str()) {
        Some(name) => name,
        None => "unknown",
    };
    let directory = join(output_base, folder.as_str());
    let path = join(directory.as_str(), name);
    if same_text(file.path.as_str(), path.as_str()) {
        Ok(None)
    } else {
        Ok(Some(Destination { directory, path }))
    }
}

/// The month that goes with file `i`, where one was handed in.
pub open spec fn month_at(local_months: Seq<Option<(i32, u32)>>, i: int) -> Option<(i32, u32)> {
    if 0 <= i < local_months.len() {
        local_months[i]
    } else {
        None
    }
}

/// Whether file `i` is moved: it is not where it belongs already.
pub open spec fn is_moved(
    files: Seq<FileInfo>,
    by: Seq<char>,
    output_base: Seq<char>,
    local_months: Seq<Option<(i32, u32)>>,
    i: int,
) -> bool {
    dest_path_of(files[i], by, output_base, month_at(local_months, i)) != files[i].path@
}

/// The positions before `n` of the files that are moved, ascending.
pub open spec fn moved_below(
    files: Seq<FileInfo>,
    by: Seq<char>,
    output_base: Seq<char>,
    local_months: Seq<Option<(i32, u32)>>,
    n: nat,
) -> Seq<int>
    decreases n,
{
    if n == 0 {
        Seq::empty()
    } else {
        let earlier = moved_below(files, by, output_base, local_months, (n - 1) as nat);
        if is_moved(files, by, output_base, local_months, n - 1) {
            earlier.push(n - 1)
        } else {
            earlier
        }
    }
}

/// The path that a previewed move ends at. The first file with a destination gets
/// it; under the mode `rename` every further file with the same destination is
/// renamed with the number of files that came before it.
pub open spec fn previewed_path(
    directory: Seq<char>,
    path: Seq<char>,
    earlier: nat,
    mode: Seq<char>,
) -> Seq<char> {
    if earlier >= 1 && mode == "rename"@ {
        joined(directory, renamed(path, earlier as int))
    } else {
        path
    }
}

/// The paths that the files at the given positions are moved to where nothing is in
/// the way.
pub open spec fn planned_paths(
    files: Seq<FileInfo>,
    by: Seq<char>,
    output_base: Seq<char>,
    local_months: Seq<Option<(i32, u32)>>,
    moved: Seq<int>,
) -> Seq<Seq<char>> {
    moved.map_values(
        |i: int| dest_path_of(files[i], by, output_base, month_at(local_months, i)),
    )
}

/// The previewed moves of the files at the given positions.
pub open spec fn previewed_moves(
    files: Seq<FileInfo>,
    by: Seq<char>,
    mode: Seq<char>,
    output_base: Seq<char>,
    local_months: Seq<Option<(i32, u32)>>,
    moved: Seq<int>,
) -> Seq<MoveView> {
    let paths = planned_paths(files, by, output_base, local_months, moved);
    Seq::new(
        moved.len(),
        |k: int|
            MoveView {
                from: files[moved[k]].path@,
                to: previewed_path(
                    dest_dir_of(files[moved[k]], by, output_base, month_at(local_months, moved[k])),
                    paths[k],
                    earlier_same(paths, k),
                    mode,
                ),
                size: files[moved[k]].size,
            },
    )
}

/// The views of a list of moves, in the same order.
pub open spec fn move_views(moves: Seq<FileMove>) -> Seq<MoveView> {
    moves.map_values(|m: FileMove| m@)
}

/// Previews the organizing of the files of a walk: where every file would go, without
/// looking at what exists. `local_months` holds for every file the year and month of
/// its modification time in the local time zone. Under a strategy that is not known
/// nothing moves and every file is reported with a message.
pub fn run_organize(
    files: &Vec<FileInfo>,
    by: &str,
    mode: &str,
    output_base: &str,
    local_months: &Vec<Option<(i32, u32)>>,
) -> (result: OrganizeResult)
    ensures
        result.total_files == files@.len(),
        result.dry_run,
        !strategy_known(by@) ==> result.moves@.len() == 0 && result.errors@.len() == files@.len()
            && forall|k: int|
            0 <= k < files@.len() ==> (#[trigger] result.errors@[k])@ == unknown_strategy(by@),
        strategy_known(by@) ==> result.errors@.len() == 0 && move_views(result.moves@)
            == previewed_moves(
            files@,
            by@,
            mode@,
            output_base@,
            local_months@,
            moved_below(files@, by@, output_base@, local_months@, files@.len()),
        ),
{
    let n = files.len();
    let mut errors: Vec<String> = Vec::new();
    let mut moved: Vec<usize> = Vec::new();
    let mut directories: Vec<String> = Vec::new();
    let mut paths: Vec<String> = Vec::new();
    let ghost wanted = moved_below(files@, by@, output_base@, local_months@, n as nat);
    let mut i: usize = 0;
    while i < n
        invariant
            n == files@.len(),
            i <= n,
            !strategy_known(by@) ==> moved@.len() == 0 && errors@.len() == i && forall|k: int|
                0 <= k < i ==> (#[trigger] errors@[k])@ == unknown_strategy(by@),
            strategy_known(by@) ==> errors@.len() == 0,
            strategy_known(by@) ==> moved@.map_values(|p: usize| p as int) == moved_below(
                files@,
                by@,
                output_base@,
                local_months@,
                i as nat,
            ),
            directories@.len() == moved@.len(),
            paths@.len() == moved@.len(),
            forall|k: int| 0 <= k < moved@.len() ==> (#[trigger] moved@[k]) < i,
            forall|k: int|
                0 <= k < moved@.len() ==> (#[trigger] directories@[k])@ == dest_dir_of(
                    files@[moved@[k] as int],
                    by@,
                    output_base@,
                    month_at(local_months@, moved@[k] as int),
                ),
            forall|k: int|
                0 <= k < moved@.len() ==> (#[trigger] paths@[k])@ == dest_path_of(
                    files@[moved@[k] as int],
                    by@,
                    output_base@,
                    month_at(local_months@, moved@[k] as int),
                ),
        decreases n - i,
    {
        let month = if i < local_months.len() {
            local_months[i]
        } else {
            None
        };
        let ghost before = moved@.map_values(|p: usize| p as int);
        match plan_move(&files[i], by, output_base, month) {
            Err(message) => {
                errors.push(message);
            },
            Ok(None) => {},
            Ok(Some(dest)) => {
                moved.push(i);
                directories.push(dest.directory);
                paths.push(dest.path);
                assert(moved@.map_values(|p: usize| p as int) =~= before.push(i as int));
            },
        }
        i += 1;
    }
    let mut moves: Vec<FileMove> = Vec::new();
    if moved.len() > 0 {
        let earlier = occurrences(&paths);
        let rename = same_text(mode, "rename");
        let ghost positions = moved@.map_values(|p: usize| p as int);
        let ghost all_paths = planned_paths(files@, by@, output_base@, local_months@, positions);
        assert(label_texts(paths@) =~= all_paths);
        let mut k: usize = 0;
        while k < moved.len()
            invariant
                n == files@.len(),
                k <= moved@.len(),
                strategy_known(by@),
                rename == (mode@ == "rename"@),
                positions == moved@.map_values(|p: usize| p as int),
                positions == wanted,
                wanted == moved_below(files@, by@, output_base@, local_months@, n as nat),
                all_paths == label_texts(paths@),
                all_paths == planned_paths(files@, by@, output_base@, local_months@, positions),
                directories@.len() == moved@.len(),
                paths@.len() == moved@.len(),
                earlier@.len() == moved@.len(),
                forall|q: int| 0 <= q < moved@.len() ==> (#[trigger] moved@[q]) < n,
                forall|q: int|
                    0 <= q < moved@.len() ==> (#[trigger] directories@[q])@ == dest_dir_of(
                        files@[moved@[q] as int],
                        by@,
                        output_base@,
                        month_at(local_months@, moved@[q] as int),
                    ),
                forall|q: int|
                    0 <= q < moved@.len() ==> #[trigger] earlier@[q] == earlier_same(all_paths, q),
                moves@.len() == k,
                forall|q: int|
                    0 <= q < k ==> (#[trigger] moves@[q])@ == previewed_moves(
                        files@,
                        by@,
                        mode@,
                        output_base@,
                        local_months@,
                        wanted,
                    )[q],
            decreases moved.len() - k,
        {
            let file = &files[moved[k]];
            let count = earlier[k];
            let to: String = if count >= 1 && rename {
                join(
                    directories[k].as_str(),
                    rename_candidate(paths[k].as_str(), count as u64).as_str(),
                )
            } else {
                paths[k].clone()
            };
            assert(paths@[k as int]@ == all_paths[k as int]);
            assert(positions[k as int] == moved@[k as int] as int);
            moves.push(FileMove { from: file.path.clone(), to, size: file.size });
            k += 1;
        }
    }
    proof {
        if strategy_known(by@) {
            assert(move_views(moves@) =~= previewed_moves(
                files@,
                by@,
                mode@,
                output_base@,
                local_months@,
                wanted,
            ));
        }
    }
    OrganizeResult { total_files: n, moves, dry_run: true, errors }
}

} // verus!
