//! Where the speech model lives, where else one may be found, what is
//! reported about it, and the bookkeeping of its download.

use vstd::prelude::*;
use crate::paths::{
    join, with_extension, path_join, path_with_extension, last_dot, last_char_before,
    plain_name, with_extension_of_join, file_name, parent, file_name_of_join, parent_of_join,
    join_plain_is_stable,
};
use crate::text::{views, chars_of, contains_seq, contains_exec, ends_with, ends_with_exec};

verus! {

/// File name of the model.
pub open spec fn model_file_name() -> Seq<char> {
    "ggml-large-v3-turbo.bin"@
}

/// Name under which the model is shown.
pub open spec fn model_display_name() -> Seq<char> {
    "Whisper Large V3 Turbo"@
}

/// Calls `dirs::data_local_dir`. The result comes from the environment and
/// the operating system, so nothing is claimed of it; a path that is not
/// UTF-8 is converted with replacement characters.
#[verifier::external_body]
fn data_local_dir() -> Option<String> {
    match dirs::data_local_dir() {
        Some(p) => Some(p.to_string_lossy().into_owned()),
        None => None,
    }
}

/// Calls `dirs::home_dir`. The result comes from the environment and the
/// operating system, so nothing is claimed of it; a path that is not UTF-8
/// is converted with replacement characters.
#[verifier::external_body]
fn home_dir() -> Option<String> {
    match dirs::home_dir() {
        Some(p) => Some(p.to_string_lossy().into_owned()),
        None => None,
    }
}

/// The models directory: the application's directory `com.videoscribe.app`
/// under a local data directory (on macOS `~/Library/Application Support`),
/// or under "." when there is none.
pub open spec fn models_dir_for(data_dir: Option<Seq<char>>) -> Seq<char> {
    let base = match data_dir {
        Some(d) => d,
        None => "."@,
    };
    join(base, "com.videoscribe.app"@)
}

/// The default model path under a local data directory.
pub open spec fn default_model_path_for(data_dir: Option<Seq<char>>) -> Seq<char> {
    join(models_dir_for(data_dir), model_file_name())
}

/// The models directory, `com.videoscribe.app` under the given local data
/// directory, or under "." when there is none.
pub fn models_dir_in(data_dir: Option<&str>) -> (r: String)
    ensures
        r@ == models_dir_for(match data_dir { Some(d) => Some(d@), None => None }),
{
    let base = match data_dir {
        Some(d) => d,
        None => ".",
    };
    path_join(base, "com.videoscribe.app")
}

/// The models directory under the user's local data directory.
pub fn models_dir() -> (r: String)
    ensures
        exists|d: Option<Seq<char>>| r@ == models_dir_for(d),
{
    let d = data_local_dir();
    let r = match &d {
        Some(s) => models_dir_in(Some(s.as_str())),
        None => models_dir_in(None),
    };
    proof {
        let w = match d { Some(s) => Some(s@), None => None::<Seq<char>> };
        assert(r@ == models_dir_for(w));
    }
    r
}

/// The default model path under the given local data directory.
pub fn default_model_path_in(data_dir: Option<&str>) -> (r: String)
    ensures
        r@ == default_model_path_for(match data_dir { Some(d) => Some(d@), None => None }),
{
    let dir = models_dir_in(data_dir);
    path_join(dir.as_str(), "ggml-large-v3-turbo.bin")
}

/// The default model path, the model file in the models directory under
/// the user's local data directory.
pub fn default_model_path() -> (r: String)
    ensures
        exists|d: Option<Seq<char>>| r@ == default_model_path_for(d),
{
    let d = data_local_dir();
    let r = match &d {
        Some(s) => default_model_path_in(Some(s.as_str())),
        None => default_model_path_in(None),
    };
    proof {
        let w = match d { Some(s) => Some(s@), None => None::<Seq<char>> };
        assert(r@ == default_model_path_for(w));
    }
    r
}


/// Model files that other whisper.cpp setups keep under a home directory,
/// in the order they are tried.
pub open spec fn known_model_files(home: Seq<char>) -> Seq<Seq<char>> {
    seq![
        join(home, ".cache/whisper/ggml-large-v3-turbo.bin"@),
        join(home, "whisper.cpp/models/ggml-large-v3-turbo.bin"@),
        join(home, ".local/share/whisper/ggml-large-v3-turbo.bin"@),
    ]
}

/// Directories under a home directory searched for any turbo model, in order.
pub open spec fn model_search_dirs(home: Seq<char>) -> Seq<Seq<char>> {
    seq![
        join(home, ".cache/whisper"@),
        join(home, "whisper.cpp/models"@),
        join(home, ".local/share/whisper"@),
    ]
}

/// Where to look for a model besides the default path.
pub struct ModelSearch {
    /// Files to try, in order.
    pub files: Vec<String>,
    /// Directories whose entries are tried next, in order.
    pub dirs: Vec<String>,
}

/// Where to look for a model under the home directory `home`.
pub fn model_search_in(home: &str) -> (r: ModelSearch)
    ensures
        views(r.files@) == known_model_files(home@),
        views(r.dirs@) == model_search_dirs(home@),
{
    let files = vec![
        path_join(home, ".cache/whisper/ggml-large-v3-turbo.bin"),
        path_join(home, "whisper.cpp/models/ggml-large-v3-turbo.bin"),
        path_join(home, ".local/share/whisper/ggml-large-v3-turbo.bin"),
    ];
    let dirs = vec![
        path_join(home, ".cache/whisper"),
        path_join(home, "whisper.cpp/models"),
        path_join(home, ".local/share/whisper"),
    ];
    assert(views(files@) =~= known_model_files(home@));
    assert(views(dirs@) =~= model_search_dirs(home@));
    ModelSearch { files, dirs }
}

/// Where to look for a model under the user's home directory; nothing when
/// the home directory is unknown.
pub fn model_search() -> (r: Option<ModelSearch>)
    ensures
        r matches Some(m) ==> exists|home: Seq<char>| views(m.files@) == known_model_files(home)
            && views(m.dirs@) == model_search_dirs(home),
{
    match home_dir() {
        Some(h) => Some(model_search_in(h.as_str())),
        None => None,
    }
}

/// A file name that marks a turbo model: it contains "turbo" and ends in ".bin".
pub open spec fn turbo_model_name(name: Seq<char>) -> bool {
    contains_seq(name, "turbo"@) && ends_with(name, ".bin"@)
}

/// Whether a directory entry named `name` is taken for a turbo model.
pub fn is_turbo_model_name(name: &str) -> (r: bool)
    ensures
        r == turbo_model_name(name@),
{
    let v = chars_of(name);
    let turbo = chars_of("turbo");
    let bin = chars_of(".bin");
    contains_exec(&v, &turbo) && ends_with_exec(&v, &bin)
}

/// An entry listed in one of the searched directories.
pub struct DirEntry {
    /// Its file name.
    pub name: String,
    /// Its full path.
    pub path: String,
}

/// Name and path of each listed entry.
pub open spec fn entry_views(v: Seq<DirEntry>) -> Seq<(Seq<char>, Seq<char>)> {
    v.map_values(|e: DirEntry| (e.name@, e.path@))
}

/// The first of `files`, from index `i` on, that exists.
pub open spec fn first_existing_from(files: Seq<Seq<char>>, exist: Seq<bool>, i: int) -> Option<Seq<char>>
    decreases files.len() - i,
{
    if i < 0 || i >= files.len() || i >= exist.len() {
        None
    } else if exist[i] {
        Some(files[i])
    } else {
        first_existing_from(files, exist, i + 1)
    }
}

/// The path of the first entry, from index `i` on, named like a turbo model.
pub open spec fn first_turbo_from(entries: Seq<(Seq<char>, Seq<char>)>, i: int) -> Option<Seq<char>>
    decreases entries.len() - i,
{
    if i < 0 || i >= entries.len() {
        None
    } else if turbo_model_name(entries[i].0) {
        Some(entries[i].1)
    } else {
        first_turbo_from(entries, i + 1)
    }
}

/// The model to use: the default path if it exists, else the first of the
/// known files that exists, else the first entry of the searched
/// directories, in the order listed, named like a turbo model.
pub open spec fn selected_model(
    default_path: Seq<char>,
    default_exists: bool,
    files: Seq<Seq<char>>,
    exist: Seq<bool>,
    entries: Seq<(Seq<char>, Seq<char>)>,
) -> Option<Seq<char>> {
    if default_exists {
        Some(default_path)
    } else {
        match first_existing_from(files, exist, 0) {
            Some(f) => Some(f),
            None => first_turbo_from(entries, 0),
        }
    }
}

/// Picks the model to use from what was found on disk: whether the default
/// path exists, which of the known files exist (`file_exists[i]` for
/// `known_files[i]`), and the entries listed in the searched directories.
pub fn select_existing_model(
    default_path: &str,
    default_exists: bool,
    known_files: &Vec<String>,
    file_exists: &Vec<bool>,
    entries: &Vec<DirEntry>,
) -> (r: Option<String>)
    ensures
        match selected_model(default_path@, default_exists, views(known_files@), file_exists@, entry_views(entries@)) {
            Some(p) => r matches Some(s) && s@ == p,
            None => r is None,
        },
{
    if default_exists {
        return Some(String::from_str(default_path));
    }
    let ghost files = views(known_files@);
    let mut i: usize = 0;
    while i < known_files.len() && i < file_exists.len()
        invariant
            !default_exists,
            files == views(known_files@),
            files.len() == known_files@.len(),
            first_existing_from(files, file_exists@, i as int) == first_existing_from(files, file_exists@, 0),
        decreases known_files@.len() - i,
    {
        assert(files[i as int] == known_files@[i as int]@);
        if file_exists[i] {
            let f = known_files[i].clone();
            return Some(f);
        }
        i = i + 1;
    }
    let ghost ev = entry_views(entries@);
    let mut k: usize = 0;
    while k < entries.len()
        invariant
            !default_exists,
            files == views(known_files@),
            ev == entry_views(entries@),
            ev.len() == entries@.len(),
            first_existing_from(files, file_exists@, 0) is None,
            first_turbo_from(ev, k as int) == first_turbo_from(ev, 0),
        decreases entries@.len() - k,
    {
        assert(ev[k as int] == (entries@[k as int].name@, entries@[k as int].path@));
        if is_turbo_model_name(entries[k].name.as_str()) {
            let p = entries[k].path.clone();
            return Some(p);
        }
        k = k + 1;
    }
    None
}

/// What is reported about the model.
pub struct ModelInfo {
    /// The model file is there.
    pub exists: bool,
    /// Its path.
    pub path: String,
    /// Its size in bytes, 0 when it is absent or its size is unknown.
    pub size_bytes: u64,
    /// The name under which it is shown.
    pub name: String,
}

/// Report on the model at `path`, given whether it exists and, if it could
/// be read, the size of the file.
pub fn check_model(path: String, present: bool, size_bytes: Option<u64>) -> (info: ModelInfo)
    ensures
        (info.exists) == present,
        info.path@ == path@,
        info.size_bytes == (if present { match size_bytes { Some(n) => n, None => 0 } } else { 0 }),
        info.name@ == model_display_name(),
{
    let size = if present {
        match size_bytes {
            Some(n) => n,
            None => 0,
        }
    } else {
        0
    };
    ModelInfo { exists: present, path, size_bytes: size, name: String::from_str("Whisper Large V3 Turbo") }
}

/// A model file found on disk.
pub struct ModelFile {
    /// Its path.
    pub path: String,
    /// Its size in bytes, if it could be read.
    pub size_bytes: Option<u64>,
}

/// Report on the model: the one found, if any, otherwise the report on the
/// default path.
pub fn check_model_status(found: Option<ModelFile>, default_report: ModelInfo) -> (info: ModelInfo)
    ensures
        match found {
            Some(f) => {
                &&& (info.exists)
                &&& info.path@ == f.path@
                &&& info.size_bytes == match f.size_bytes { Some(n) => n, None => 0 }
                &&& info.name@ == model_display_name()
            },
            None => info == default_report,
        },
{
    match found {
        Some(f) => check_model(f.path, true, f.size_bytes),
        None => default_report,
    }
}

/// Where a download goes until it is complete: the model path with the
/// extension "bin.downloading".
pub fn download_temp_path(model_path: &str) -> (r: String)
    ensures
        r@ == with_extension(model_path@, "bin.downloading"@),
{
    path_with_extension(model_path, "bin.downloading")
}

/// Progress of a download.
pub struct DownloadCounter {
    /// Bytes received so far.
    pub downloaded: u64,
    /// Size announced by the server, 0 when unknown.
    pub total: u64,
}

impl DownloadCounter {
    /// Nothing received yet of a download of `total` bytes (0 when unknown).
    pub fn new(total: u64) -> (c: Self)
        ensures
            c.downloaded == 0,
            c.total == total,
    {
        DownloadCounter { downloaded: 0, total }
    }

    /// Counts a received chunk of `len` bytes.
    pub fn record_chunk(&mut self, len: u64)
        requires
            old(self).downloaded + len <= u64::MAX,
        ensures
            final(self).downloaded == old(self).downloaded + len,
            final(self).total == old(self).total,
    {
        self.downloaded = self.downloaded + len;
    }
}


proof fn lemma_model_file_name()
    ensures
        model_file_name().len() == 23,
        plain_name(model_file_name()),
        last_dot(model_file_name()) == 19,
        model_file_name().subrange(19, 23) == ".bin"@,
{
    reveal_strlit("ggml-large-v3-turbo.bin");
    reveal_strlit(".bin");
    let name = model_file_name();
    assert(plain_name(name)) by {
        if name.contains('/') {
            let j = choose|j: int| 0 <= j < name.len() && name[j] == '/';
        }
    }
    assert(last_char_before(name, '.', 20) == 19);
    assert(last_char_before(name, '.', 21) == 19);
    assert(last_char_before(name, '.', 22) == 19);
    assert(name.subrange(19, 23) =~= ".bin"@);
}

proof fn lemma_app_dir_name()
    ensures
        plain_name("com.videoscribe.app"@),
{
    reveal_strlit("com.videoscribe.app");
    let n = "com.videoscribe.app"@;
    if n.contains('/') {
        let j = choose|j: int| 0 <= j < n.len() && n[j] == '/';
    }
}

/// Law: the default model path is the model file in the models directory:
/// its file name is the model's and its parent is the models directory made
/// from the same local data directory.
pub proof fn default_model_path_in_models_dir(data_dir: Option<Seq<char>>)
    ensures
        file_name(default_model_path_for(data_dir)) == Some(model_file_name()),
        parent(default_model_path_for(data_dir)) == Some(models_dir_for(data_dir)),
{
    lemma_model_file_name();
    lemma_app_dir_name();
    let base = match data_dir {
        Some(d) => d,
        None => "."@,
    };
    join_plain_is_stable(base, "com.videoscribe.app"@);
    file_name_of_join(models_dir_for(data_dir), model_file_name());
    parent_of_join(models_dir_for(data_dir), model_file_name());
}

/// Law: a download is written next to the model, to the model path with
/// ".downloading" added, so the model file appears only by the final rename.
pub proof fn download_goes_next_to_model(data_dir: Option<Seq<char>>)
    ensures
        with_extension(default_model_path_for(data_dir), "bin.downloading"@)
            == default_model_path_for(data_dir) + ".downloading"@,
{
    let name = model_file_name();
    let p = default_model_path_for(data_dir);
    lemma_model_file_name();
    reveal_strlit("bin.downloading");
    with_extension_of_join(models_dir_for(data_dir), name, "bin.downloading"@);
    let at = p.len() - 23;
    lemma_downloading_suffix(p, at, name);
}

proof fn lemma_downloading_suffix(p: Seq<char>, at: int, name: Seq<char>)
    requires
        0 <= at,
        at + 23 == p.len(),
        p.subrange(at, p.len() as int) == name,
        name.subrange(19, 23) == ".bin"@,
    ensures
        p.subrange(0, at + 19) + seq!['.'] + "bin.downloading"@ == p + ".downloading"@,
{
    reveal_strlit(".bin");
    reveal_strlit("bin.downloading");
    reveal_strlit(".downloading");
    assert(p.subrange(at + 19, p.len() as int) =~= name.subrange(19, 23));
    assert(p =~= p.subrange(0, at + 19) + p.subrange(at + 19, p.len() as int));
    assert(".bin"@ =~= seq!['.', 'b', 'i', 'n']);
    assert("bin.downloading"@ =~= seq!['b', 'i', 'n'] + ".downloading"@);
    assert(p.subrange(0, at + 19) + seq!['.'] + "bin.downloading"@ =~= p + ".downloading"@);
}

/// From `k` on, the first existing file is the one at `i` when none
/// between them exists.
proof fn lemma_first_existing_at(files: Seq<Seq<char>>, exist: Seq<bool>, k: int, i: int)
    requires
        0 <= k <= i < files.len(),
        i < exist.len(),
        exist[i],
        forall|j: int| k <= j < i ==> !exist[j],
    ensures
        first_existing_from(files, exist, k) == Some(files[i]),
    decreases i - k,
{
    if k < i {
        lemma_first_existing_at(files, exist, k + 1, i);
    }
}

/// From `k` on, no file exists when none of the rest is marked existing.
proof fn lemma_first_existing_none(files: Seq<Seq<char>>, exist: Seq<bool>, k: int)
    requires
        0 <= k,
        forall|j: int| k <= j < files.len() && j < exist.len() ==> !exist[j],
    ensures
        first_existing_from(files, exist, k) is None,
    decreases files.len() - k,
{
    if k < files.len() && k < exist.len() {
        lemma_first_existing_none(files, exist, k + 1);
    }
}

/// From `k` on, the first turbo entry is the one at `i` when none between
/// them is named like a turbo model.
proof fn lemma_first_turbo_at(entries: Seq<(Seq<char>, Seq<char>)>, k: int, i: int)
    requires
        0 <= k <= i < entries.len(),
        turbo_model_name(entries[i].0),
        forall|j: int| k <= j < i ==> !turbo_model_name(#[trigger] entries[j].0),
    ensures
        first_turbo_from(entries, k) == Some(entries[i].1),
    decreases i - k,
{
    if k < i {
        lemma_first_turbo_at(entries, k + 1, i);
    }
}

/// From `k` on, there is no turbo entry when none of the rest is named so.
proof fn lemma_first_turbo_none(entries: Seq<(Seq<char>, Seq<char>)>, k: int)
    requires
        0 <= k,
        forall|j: int| k <= j < entries.len() ==> !turbo_model_name(#[trigger] entries[j].0),
    ensures
        first_turbo_from(entries, k) is None,
    decreases entries.len() - k,
{
    if k < entries.len() {
        lemma_first_turbo_none(entries, k + 1);
    }
}

/// Law: the model is looked for in a fixed order. An existing default path
/// wins; otherwise the first known file, in the order given, that exists;
/// otherwise the path of the first listed entry, wherever it stands in the
/// listing (the first one included), whose name contains "turbo" and ends
/// in ".bin"; otherwise there is none.
pub proof fn model_search_order(
    default_path: Seq<char>,
    default_exists: bool,
    files: Seq<Seq<char>>,
    exist: Seq<bool>,
    entries: Seq<(Seq<char>, Seq<char>)>,
    i: int,
)
    ensures
        default_exists ==> selected_model(default_path, true, files, exist, entries) == Some(default_path),
        !default_exists && 0 <= i < files.len() && i < exist.len() && exist[i]
            && (forall|j: int| 0 <= j < i ==> !exist[j])
            ==> selected_model(default_path, false, files, exist, entries) == Some(files[i]),
        !default_exists && (forall|j: int| 0 <= j < files.len() && j < exist.len() ==> !exist[j])
            && 0 <= i < entries.len() && contains_seq(entries[i].0, "turbo"@) && ends_with(entries[i].0, ".bin"@)
            && (forall|j: int| 0 <= j < i ==> !turbo_model_name(#[trigger] entries[j].0))
            ==> selected_model(default_path, false, files, exist, entries) == Some(entries[i].1),
        !default_exists && (forall|j: int| 0 <= j < files.len() && j < exist.len() ==> !exist[j])
            && (forall|j: int| 0 <= j < entries.len() ==> !turbo_model_name(#[trigger] entries[j].0))
            ==> selected_model(default_path, false, files, exist, entries) is None,
{
    if 0 <= i < files.len() && i < exist.len() && exist[i] && (forall|j: int| 0 <= j < i ==> !exist[j]) {
        lemma_first_existing_at(files, exist, 0, i);
    }
    if forall|j: int| 0 <= j < files.len() && j < exist.len() ==> !exist[j] {
        lemma_first_existing_none(files, exist, 0);
        if 0 <= i < entries.len() && turbo_model_name(entries[i].0)
            && (forall|j: int| 0 <= j < i ==> !turbo_model_name(#[trigger] entries[j].0)) {
            lemma_first_turbo_at(entries, 0, i);
        }
        if forall|j: int| 0 <= j < entries.len() ==> !turbo_model_name(#[trigger] entries[j].0) {
            lemma_first_turbo_none(entries, 0);
        }
    }
}

} // verus!
