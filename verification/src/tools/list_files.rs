//! The directory tree of a project.

use crate::indexer::file_walker;
use crate::indexer::file_walker::{FileEntry, FileModel};
use crate::numerals;
use crate::path;
use crate::text;
use vstd::prelude::*;
use vstd::slice::slice_subrange;

verus! {

/// A number of bytes as it is shown.
pub open spec fn spec_format_size(bytes: u64) -> Seq<char> {
    if bytes < 1024 {
        numerals::spec_decimal(bytes as nat) + "B"@
    } else if bytes < 1024 * 1024 {
        numerals::spec_tenths(numerals::nearest_double(bytes as nat), 1024) + "KB"@
    } else {
        numerals::spec_tenths(numerals::nearest_double(bytes as nat), 1024 * 1024) + "MB"@
    }
}

/// A number of bytes as it is shown.
pub fn format_size(bytes: u64) -> (r: String)
    ensures
        r@ == spec_format_size(bytes),
{
    if bytes < 1024 {
        numerals::decimal(bytes).concat("B")
    } else if bytes < 1024 * 1024 {
        let size: u128 = numerals::as_double(bytes);
        numerals::tenths(size, 1024).concat("KB")
    } else {
        let size: u128 = numerals::as_double(bytes);
        numerals::tenths(size, 1024 * 1024).concat("MB")
    }
}

/// How many slashes a path has.
pub open spec fn slashes(p: Seq<char>) -> nat
    decreases p.len(),
{
    if p.len() == 0 {
        0
    } else {
        slashes(p.drop_last()) + if p.last() == '/' {
            1nat
        } else {
            0
        }
    }
}

/// The directory of a relative path: what stands before the last slash.
pub open spec fn dir_of(p: Seq<char>) -> Seq<char> {
    match text::spec_rfind(p, '/') {
        Some(i) => p.take(i),
        None => Seq::empty(),
    }
}

/// The name of a relative path: what stands behind the last slash.
pub open spec fn name_of(p: Seq<char>) -> Seq<char> {
    match text::spec_rfind(p, '/') {
        Some(i) => p.skip(i + 1),
        None => p,
    }
}

/// Whether a file lies too deep to be shown.
pub open spec fn too_deep(f: FileModel, max_depth: u32) -> bool {
    slashes(f.relative_path) as u32 >= max_depth
}

/// The line of a file.
pub open spec fn file_line(f: FileModel) -> Seq<char> {
    (if dir_of(f.relative_path).len() == 0 {
        "  "@
    } else {
        "    "@
    }) + "├── "@ + name_of(f.relative_path) + " ("@ + spec_format_size(f.size_bytes) + ")\n"@
}

/// The lines of files, and the directory of the last one that is shown. A directory has a line
/// of its own in front of its files.
pub open spec fn tree_lines(files: Seq<FileModel>, max_depth: u32) -> (Seq<char>, Seq<char>)
    decreases files.len(),
{
    if files.len() == 0 {
        (Seq::empty(), Seq::empty())
    } else {
        let (lines, dir) = tree_lines(files.drop_last(), max_depth);
        let f = files.last();
        let own = dir_of(f.relative_path);
        if too_deep(f, max_depth) {
            (lines, dir)
        } else if own != dir && own.len() > 0 {
            (lines + "  "@ + own + "/\n"@ + file_line(f), own)
        } else {
            (lines + file_line(f), own)
        }
    }
}

/// The name of a directory as it is shown.
pub open spec fn dir_name(base: Seq<char>) -> Seq<char> {
    match path::spec_file_name(base) {
        Some(name) => name,
        None => Seq::empty(),
    }
}

/// The directory tree of files.
pub open spec fn spec_file_tree(
    base: Seq<char>,
    files: Seq<FileModel>,
    max_depth: u32,
) -> Seq<char> {
    dir_name(base) + "/\n\n"@ + tree_lines(files, max_depth).0 + "\n"@ + numerals::spec_decimal(
        files.len(),
    ) + " files total\n"@
}

fn count_slashes(p: &[char]) -> (r: usize)
    ensures
        r == slashes(p@),
{
    let mut count: usize = 0;
    assert(p@.take(0) =~= Seq::empty());
    for i in 0..p.len()
        invariant
            count <= i,
            count == slashes(p@.take(i as int)),
    {
        assert(p@.take(i + 1).drop_last() =~= p@.take(i as int));
        if p[i] == '/' {
            count = count + 1;
        }
    }
    assert(p@.take(p@.len() as int) =~= p@);
    count
}

fn show_file(p: &[char], size_bytes: u64) -> (r: (String, String))
    ensures
        r.0@ == dir_of(p@),
        r.1@ == (if dir_of(p@).len() == 0 {
            "  "@
        } else {
            "    "@
        }) + "├── "@ + name_of(p@) + " ("@ + spec_format_size(size_bytes) + ")\n"@,
{
    let n: usize = p.len();
    let (dir, name) = match text::rfind(p, '/') {
        Some(i) => {
            let front = slice_subrange(p, 0, i);
            let back = slice_subrange(p, i + 1, n);
            assert(front@ =~= p@.take(i as int));
            assert(back@ =~= p@.skip(i + 1));
            (text::string_of(front), text::string_of(back))
        },
        None => {
            let none = String::new();
            assert(none@ =~= Seq::empty());
            (none, text::string_of(p))
        },
    };
    let indent = if dir.as_str().unicode_len() == 0 {
        text::owned("  ")
    } else {
        text::owned("    ")
    };
    let line = indent.concat("├── ").concat(name.as_str()).concat(" (").concat(
        format_size(size_bytes).as_str(),
    ).concat(")\n");
    (dir, line)
}

/// The name of a directory as it is shown.
pub fn show_dir_name(base: &str) -> (r: String)
    ensures
        r@ == dir_name(base@),
{
    let chars = text::chars_of(base);
    match path::file_name(chars.as_slice()) {
        Some(name) => text::string_of(name),
        None => {
            let none = String::new();
            assert(none@ =~= Seq::empty());
            none
        },
    }
}

/// Build a directory tree string of files that are sorted by path, down to a depth.
pub fn build_file_tree(base: &str, files: &[FileEntry], max_depth: u32) -> (r: String)
    ensures
        r@ == spec_file_tree(base@, file_walker::models(files@), max_depth),
{
    let title = show_dir_name(base);
    let ghost models = file_walker::models(files@);
    let mut lines = String::new();
    let mut current_dir = String::new();
    assert(lines@ =~= Seq::empty());
    assert(current_dir@ =~= Seq::empty());
    assert(models.take(0) =~= Seq::empty());
    for i in 0..files.len()
        invariant
            models == file_walker::models(files@),
            (lines@, current_dir@) == tree_lines(models.take(i as int), max_depth),
    {
        proof {
            assert(models.take(i + 1).drop_last() =~= models.take(i as int));
            assert(models.take(i + 1).last() == files@[i as int]@);
        }
        let file = &files[i];
        let relative = text::chars_of(file.relative_path.as_str());
        let depth: u32 = count_slashes(relative.as_slice()) as u32;
        if depth < max_depth {
            let (dir, line) = show_file(relative.as_slice(), file.size_bytes);
            if !text::same(dir.as_str(), current_dir.as_str()) && dir.as_str().unicode_len() > 0 {
                lines = lines.concat("  ").concat(dir.as_str()).concat("/\n").concat(
                    line.as_str(),
                );
            } else {
                lines = lines.concat(line.as_str());
            }
            current_dir = dir;
        }
    }
    assert(models.take(models.len() as int) =~= models);
    title.concat("/\n\n").concat(lines.as_str()).concat("\n").concat(
        numerals::decimal_usize(files.len()).as_str(),
    ).concat(" files total\n")
}

/// Sizes are shown in bytes below a kilobyte, in kilobytes below a megabyte, else in megabytes, the
/// larger units with one digit after the point.
pub proof fn law_sizes(bytes: u64)
    ensures
        bytes < 1024 ==> spec_format_size(bytes) == numerals::spec_decimal(bytes as nat) + "B"@,
        1024 <= bytes < 1_048_576 ==> spec_format_size(bytes) == numerals::spec_tenths(
            numerals::nearest_double(bytes as nat),
            1024,
        ) + "KB"@,
        1_048_576 <= bytes ==> spec_format_size(bytes) == numerals::spec_tenths(
            numerals::nearest_double(bytes as nat),
            1_048_576,
        ) + "MB"@,
{
}

proof fn lemma_slashes(dirs: Seq<Seq<char>>, name: Seq<char>)
    requires
        path::all_plain(dirs),
        path::plain(name),
    ensures
        slashes(text::spec_join(dirs.push(name), "/"@)) == dirs.len(),
    decreases dirs.len(),
{
    reveal_strlit("/");
    assert("/"@ =~= seq!['/']);
    assert(dirs.push(name).drop_last() =~= dirs);
    lemma_no_slashes(Seq::empty(), name);
    if dirs.len() > 0 {
        let front = text::spec_join(dirs, "/"@);
        let s = text::spec_join(dirs.push(name), "/"@);
        assert(s =~= front.push('/') + name);
        lemma_no_slashes(front.push('/'), name);
        assert(front.push('/').drop_last() =~= front);
        let d = dirs.drop_last();
        assert(path::plain(dirs.last()));
        assert forall|i: int| 0 <= i < d.len() implies path::plain(#[trigger] d[i]) by {
            assert(d[i] == dirs[i]);
        }
        assert(d.push(dirs.last()) =~= dirs);
        lemma_slashes(d, dirs.last());
    } else {
        assert(text::spec_join(dirs.push(name), "/"@) =~= Seq::<char>::empty() + name);
    }
}

proof fn lemma_no_slashes(front: Seq<char>, name: Seq<char>)
    requires
        forall|i: int| 0 <= i < name.len() ==> #[trigger] name[i] != '/',
    ensures
        slashes(front + name) == slashes(front),
    decreases name.len(),
{
    if name.len() == 0 {
        assert(front + name =~= front);
    } else {
        let s = front + name;
        assert(s.drop_last() =~= front + name.drop_last());
        assert(s.last() == name.last());
        lemma_no_slashes(front, name.drop_last());
    }
}

/// A file in fewer directories than the depth that is shown has a line with its name and its size,
/// indented below the line of its directory, which comes before its first file; one in more has
/// none.
pub proof fn law_files_have_lines(
    files: Seq<FileModel>,
    f: FileModel,
    dirs: Seq<Seq<char>>,
    name: Seq<char>,
    max_depth: u32,
)
    requires
        path::all_plain(dirs),
        path::plain(name),
        dirs.len() <= u32::MAX,
        f.relative_path == text::spec_join(dirs.push(name), "/"@),
    ensures
        ({
            let (lines, dir) = tree_lines(files, max_depth);
            let own = text::spec_join(dirs, "/"@);
            let line = name + " ("@ + spec_format_size(f.size_bytes) + ")\n"@;
            let (more, after) = tree_lines(files.push(f), max_depth);
            &&& tree_lines(Seq::empty(), max_depth) == (Seq::<char>::empty(), Seq::<char>::empty())
            &&& dirs.len() >= max_depth ==> (more, after) == (lines, dir)
            &&& dirs.len() < max_depth ==> after == own
            &&& dirs.len() < max_depth && dirs.len() == 0 ==> more == lines + ("  "@ + "├── "@
                + line)
            &&& dirs.len() < max_depth && dirs.len() > 0 && own == dir ==> more == lines + ("    "@
                + "├── "@ + line)
            &&& dirs.len() < max_depth && dirs.len() > 0 && own != dir ==> more == lines + ("  "@
                + own + "/\n"@ + ("    "@ + "├── "@ + line))
        }),
{
    reveal_strlit("/");
    assert("/"@ =~= seq!['/']);
    assert(files.push(f).drop_last() =~= files);
    assert(dirs.push(name).drop_last() =~= dirs);
    lemma_slashes(dirs, name);
    let p = f.relative_path;
    let own = text::spec_join(dirs, "/"@);
    text::lemma_rfind(p, '/');
    if dirs.len() == 0 {
        assert(p =~= name);
        assert(own =~= Seq::empty());
    } else {
        let i = own.len() as int;
        assert(p =~= own + seq!['/'] + name);
        assert(p[i] == '/');
        assert forall|j: int| i < j < p.len() implies p[j] != '/' by {
            assert(p[j] == name[j - i - 1]);
        }
        assert(p.take(i) =~= own);
        assert(p.skip(i + 1) =~= name);
        lemma_joined_not_empty(dirs);
    }
    let (lines, dir) = tree_lines(files, max_depth);
    let line = name + " ("@ + spec_format_size(f.size_bytes) + ")\n"@;
    let (more, after) = tree_lines(files.push(f), max_depth);
    if dirs.len() < max_depth {
        let indent = if dirs.len() == 0 {
            "  "@
        } else {
            "    "@
        };
        assert(file_line(f) =~= indent + "├── "@ + line);
        assert(lines + "  "@ + own + "/\n"@ + file_line(f) =~= lines + ("  "@ + own + "/\n"@
            + file_line(f)));
    }
}

proof fn lemma_joined_not_empty(dirs: Seq<Seq<char>>)
    requires
        path::all_plain(dirs),
        dirs.len() > 0,
    ensures
        text::spec_join(dirs, "/"@).len() > 0,
{
    assert(path::plain(dirs[0]));
    assert(path::plain(dirs.last()));
}

/// A tree starts with the name of the directory and ends with the number of all files, also of those
/// that lie too deep to be shown.
pub proof fn law_trees(base: Seq<char>, files: Seq<FileModel>, max_depth: u32)
    ensures
        text::begins(spec_file_tree(base, files, max_depth), dir_name(base) + "/\n\n"@),
        text::ends(
            spec_file_tree(base, files, max_depth),
            "\n"@ + numerals::spec_decimal(files.len()) + " files total\n"@,
        ),
        text::has(spec_file_tree(base, files, max_depth), tree_lines(files, max_depth).0),
{
    let t = spec_file_tree(base, files, max_depth);
    let head = dir_name(base) + "/\n\n"@;
    let lines = tree_lines(files, max_depth).0;
    let last = "\n"@ + numerals::spec_decimal(files.len()) + " files total\n"@;
    assert(t =~= head + lines + last);
    assert(t.subrange(0, head.len() as int) =~= head);
    assert(t.subrange(t.len() - last.len(), t.len() as int) =~= last);
    text::law_has_is_a_part(t, lines);
}

} // verus!
