//! The source files of a project: which of the discovered entries count, and their order.

use crate::indexer::config;
use crate::path;
use crate::sort;
use crate::text;
use vstd::prelude::*;

verus! {

/// Something that was found in a project directory.
#[derive(Debug)]
pub struct Discovered {
    pub path: String,
    /// Whether it is a directory, or of no known type.
    pub is_dir: bool,
    pub size_bytes: u64,
}

/// Information about a discovered file.
#[derive(Debug)]
pub struct FileEntry {
    pub absolute_path: String,
    pub relative_path: String,
    pub extension: String,
    pub size_bytes: u64,
}

/// The value of a file entry.
pub struct FileModel {
    pub absolute_path: Seq<char>,
    pub relative_path: Seq<char>,
    pub extension: Seq<char>,
    pub size_bytes: u64,
}

impl View for FileEntry {
    type V = FileModel;

    open spec fn view(&self) -> FileModel {
        FileModel {
            absolute_path: self.absolute_path@,
            relative_path: self.relative_path@,
            extension: self.extension@,
            size_bytes: self.size_bytes,
        }
    }
}

impl FileEntry {
    /// The same entry once more.
    pub fn copy(&self) -> (r: FileEntry)
        ensures
            r@ == self@,
    {
        FileEntry {
            absolute_path: self.absolute_path.clone(),
            relative_path: self.relative_path.clone(),
            extension: self.extension.clone(),
            size_bytes: self.size_bytes,
        }
    }
}

/// The values of a list of file entries.
pub open spec fn models(files: Seq<FileEntry>) -> Seq<FileModel> {
    files.map_values(|f: FileEntry| f@)
}

/// A path as it is shown within a project: without the project's own path where it lies in it.
pub open spec fn relative_to(p: Seq<char>, project: Seq<char>) -> Seq<char> {
    match path::spec_strip_prefix(p, project) {
        Some(r) => r,
        None => p,
    }
}

/// The file entry of something discovered, unless it is no source file.
pub open spec fn entry_of(d: Discovered, project: Seq<char>) -> Option<FileModel> {
    if d.is_dir || !config::source_extension(path::extension_or_empty(d.path@)) {
        None
    } else {
        Some(
            FileModel {
                absolute_path: d.path@,
                relative_path: relative_to(d.path@, project),
                extension: path::extension_or_empty(d.path@),
                size_bytes: d.size_bytes,
            },
        )
    }
}

/// The source files among what was discovered.
pub open spec fn entries(found: Seq<Discovered>, project: Seq<char>) -> Seq<FileModel>
    decreases found.len(),
{
    if found.len() == 0 {
        Seq::empty()
    } else {
        match entry_of(found.last(), project) {
            Some(f) => entries(found.drop_last(), project).push(f),
            None => entries(found.drop_last(), project),
        }
    }
}

/// The relative paths of a list of files.
pub open spec fn relative_paths(files: Seq<FileModel>) -> Seq<Seq<char>> {
    files.map_values(|f: FileModel| f.relative_path)
}

/// Whether `r` are given files in the order of their relative paths.
pub open spec fn by_path(files: Seq<FileModel>, r: Seq<FileModel>) -> bool {
    exists|order: Seq<usize>| #[trigger]
        sort::sorts_texts(relative_paths(files), order) && r == order.map_values(
            |k: usize| files[k as int],
        )
}

fn entry(d: &Discovered, project_path: &[char]) -> (r: Option<FileEntry>)
    ensures
        match r {
            Some(f) => entry_of(*d, project_path@) == Some(f@),
            None => entry_of(*d, project_path@) is None,
        },
{
    let extension = path::extension_of(d.path.as_str());
    if d.is_dir || !config::is_source_file(extension.as_str()) {
        return None;
    }
    let chars = text::chars_of(d.path.as_str());
    let relative_path = match path::strip_prefix(chars.as_slice(), project_path) {
        Some(rest) => text::string_of(rest),
        None => d.path.clone(),
    };
    Some(
        FileEntry {
            absolute_path: d.path.clone(),
            relative_path,
            extension,
            size_bytes: d.size_bytes,
        },
    )
}

/// The source files of a project (no binaries, lock files, etc.) among what a walk through its
/// directory discovered, by relative path.
pub fn walk_project(project_path: &str, found: &[Discovered]) -> (r: Vec<FileEntry>)
    ensures
        by_path(entries(found@, project_path@), models(r@)),
{
    let project = text::chars_of(project_path);
    let mut files: Vec<FileEntry> = Vec::new();
    let mut names: Vec<String> = Vec::new();
    assert(found@.take(0) =~= Seq::empty());
    assert(models(files@) =~= Seq::empty());
    assert(text::texts(names@) =~= Seq::empty());
    assert(relative_paths(models(files@)) =~= Seq::empty());
    for i in 0..found.len()
        invariant
            project@ == project_path@,
            models(files@) == entries(found@.take(i as int), project_path@),
            text::texts(names@) == relative_paths(models(files@)),
    {
        proof {
            assert(found@.take(i + 1).drop_last() =~= found@.take(i as int));
            assert(found@.take(i + 1).last() == found@[i as int]);
        }
        match entry(&found[i], project.as_slice()) {
            Some(f) => {
                let ghost before = models(files@);
                let ghost paths = text::texts(names@);
                let ghost model = f@;
                names.push(f.relative_path.clone());
                assert(text::texts(names@) =~= paths.push(model.relative_path));
                files.push(f);
                assert(models(files@) =~= before.push(model));
                assert(relative_paths(before.push(model)) =~= relative_paths(before).push(
                    model.relative_path,
                ));
            },
            None => {},
        }
    }
    assert(found@.take(found@.len() as int) =~= found@);
    let order = sort::order_texts(names.as_slice());
    let ghost all = models(files@);
    let ghost sorted = order@.map_values(|k: usize| all[k as int]);
    let mut out: Vec<FileEntry> = Vec::new();
    assert(models(out@) =~= sorted.take(0));
    for i in 0..order.len()
        invariant
            all == models(files@),
            all.len() == files@.len(),
            sorted == order@.map_values(|k: usize| all[k as int]),
            forall|k: int| 0 <= k < order@.len() ==> #[trigger] order@[k] < files@.len(),
            models(out@) == sorted.take(i as int),
    {
        let ghost before = models(out@);
        out.push(files[order[i]].copy());
        assert(models(out@) =~= before.push(sorted[i as int]));
        assert(sorted.take(i + 1) =~= before.push(sorted[i as int]));
    }
    assert(sorted.take(sorted.len() as int) =~= sorted);
    out
}

proof fn lemma_entries(found: Seq<Discovered>, project: Seq<char>)
    ensures
        forall|i: int|
            0 <= i < entries(found, project).len() ==> config::source_extension(
                (#[trigger] entries(found, project)[i]).extension,
            ),
    decreases found.len(),
{
    if found.len() > 0 {
        let before = entries(found.drop_last(), project);
        lemma_entries(found.drop_last(), project);
        assert forall|i: int| 0 <= i < entries(found, project).len() implies config::source_extension(
            (#[trigger] entries(found, project)[i]).extension,
        ) by {
            if i < before.len() {
                assert(entries(found, project)[i] == before[i]);
            }
        }
    }
}

/// A walk lists source files only, by relative path.
pub proof fn law_walk_lists_source_files_in_order(
    found: Seq<Discovered>,
    project: Seq<char>,
    r: Seq<FileModel>,
    i: int,
    j: int,
)
    requires
        by_path(entries(found, project), r),
        0 <= i < j < r.len(),
    ensures
        config::source_extension(r[i].extension),
        config::source_extension(r[j].extension),
        sort::bytes_at_most(
            vstd::utf8::encode_utf8(r[i].relative_path),
            vstd::utf8::encode_utf8(r[j].relative_path),
        ),
{
    let files = entries(found, project);
    lemma_entries(found, project);
    let order = choose|order: Seq<usize>| #[trigger]
        sort::sorts_texts(relative_paths(files), order) && r == order.map_values(
            |k: usize| files[k as int],
        );
    assert(order[i] < files.len());
    assert(order[j] < files.len());
    assert(r[i] == files[order[i] as int]);
    assert(r[j] == files[order[j] as int]);
    assert(sort::text_precedes(relative_paths(files), order[i] as int, order[j] as int));
}

proof fn lemma_entry_kept(found: Seq<Discovered>, project: Seq<char>, i: int)
    requires
        0 <= i < found.len(),
    ensures
        entry_of(found[i], project) matches Some(f) ==> entries(found, project).contains(f),
    decreases found.len(),
{
    match entry_of(found[i], project) {
        Some(f) => {
            let rest = found.drop_last();
            let before = entries(rest, project);
            let all = entries(found, project);
            if i == found.len() - 1 {
                assert(all[before.len() as int] == f);
            } else {
                assert(rest[i] == found[i]);
                lemma_entry_kept(rest, project, i);
                let k = choose|k: int| 0 <= k < before.len() && before[k] == f;
                assert(all[k] == f);
            }
        },
        None => {},
    }
}

/// A walk lists every source file that was discovered, with its path, its extension and its size,
/// and lists nothing else.
pub proof fn law_walk_lists_all_source_files(
    found: Seq<Discovered>,
    project: Seq<char>,
    r: Seq<FileModel>,
    i: int,
)
    requires
        by_path(entries(found, project), r),
        0 <= i < found.len(),
        !found[i].is_dir,
        config::source_extension(path::extension_or_empty(found[i].path@)),
    ensures
        exists|k: int|
            0 <= k < r.len() && (#[trigger] r[k]).absolute_path == found[i].path@ && r[k].extension
                == path::extension_or_empty(found[i].path@) && r[k].size_bytes
                == found[i].size_bytes && r[k].relative_path == (match path::spec_strip_prefix(
                found[i].path@,
                project,
            ) {
                Some(t) => t,
                None => found[i].path@,
            }),
        r.len() <= found.len(),
{
    let files = entries(found, project);
    lemma_entry_kept(found, project, i);
    let f = entry_of(found[i], project)->0;
    let j = choose|j: int| 0 <= j < files.len() && files[j] == f;
    let order = choose|order: Seq<usize>| #[trigger]
        sort::sorts_texts(relative_paths(files), order) && r == order.map_values(
            |k: usize| files[k as int],
        );
    assert(sort::listed(order, j));
    let k = choose|k: int| 0 <= k < order.len() && #[trigger] order[k] == j;
    assert(r[k] == f);
    lemma_no_more_entries(found, project);
}

proof fn lemma_no_more_entries(found: Seq<Discovered>, project: Seq<char>)
    ensures
        entries(found, project).len() <= found.len(),
    decreases found.len(),
{
    if found.len() > 0 {
        lemma_no_more_entries(found.drop_last(), project);
    }
}

} // verus!
