//! What a file watcher's events mean for the index: which files are to be indexed again and
//! which are to be removed.

use crate::indexer::config;
use crate::path;
use crate::text;
use vstd::hash_map::StringHashMap;
use vstd::prelude::*;

verus! {

/// How long events are collected before they are acted on, in milliseconds.
pub const DEBOUNCE_MILLIS: u64 = 500;

/// How long the watcher waits for one more event while it collects, in milliseconds.
pub const POLL_MILLIS: u64 = 50;

/// How long the watcher waits for a first event before it looks again, in seconds.
pub const IDLE_SECONDS: u64 = 60;

/// What happened to files.
#[derive(Debug, Clone, Copy, PartialEq, Eq, Structural)]
pub enum FileEvent {
    /// They were created or modified.
    Touched,
    /// They were removed.
    Removed,
    /// Anything else.
    Other,
}

/// A path whose file changed or was removed. Paths with the same components are the same path,
/// and are told by `key`.
pub struct Change {
    pub key: Seq<char>,
    pub path: Seq<char>,
    pub removed: bool,
}

/// The components of a path, written in one way.
pub open spec fn key_of(p: Seq<char>) -> Seq<char> {
    text::spec_join(path::spec_components(p), "/"@)
}

/// Where a path stands in a list of changes.
pub open spec fn place_of(list: Seq<Change>, key: Seq<char>) -> Option<int>
    decreases list.len(),
{
    if list.len() == 0 {
        None
    } else if list.last().key == key {
        Some(list.len() - 1)
    } else {
        place_of(list.drop_last(), key)
    }
}

/// The changes after one more event of one path: a path is either changed or removed, whichever
/// came last.
pub open spec fn spec_note(list: Seq<Change>, p: Seq<char>, removed: bool) -> Seq<Change> {
    let change = Change { key: key_of(p), path: p, removed };
    match place_of(list, key_of(p)) {
        Some(i) => if list[i].removed == removed {
            list
        } else {
            list.update(i, change)
        },
        None => list.push(change),
    }
}

/// The changes after an event of several paths.
pub open spec fn spec_note_all(list: Seq<Change>, paths: Seq<Seq<char>>, removed: bool) -> Seq<
    Change,
>
    decreases paths.len(),
{
    if paths.len() == 0 {
        list
    } else {
        spec_note(spec_note_all(list, paths.drop_last(), removed), paths.last(), removed)
    }
}

/// The changes after an event.
pub open spec fn spec_classify(
    list: Seq<Change>,
    event: FileEvent,
    paths: Seq<Seq<char>>,
) -> Seq<Change> {
    match event {
        FileEvent::Touched => spec_note_all(list, paths, false),
        FileEvent::Removed => spec_note_all(list, paths, true),
        FileEvent::Other => list,
    }
}

proof fn lemma_place_of(list: Seq<Change>, key: Seq<char>)
    ensures
        match place_of(list, key) {
            Some(i) => 0 <= i < list.len() && list[i].key == key,
            None => forall|i: int| 0 <= i < list.len() ==> (#[trigger] list[i]).key != key,
        },
    decreases list.len(),
{
    if list.len() > 0 && list.last().key != key {
        lemma_place_of(list.drop_last(), key);
        if place_of(list, key) is None {
            assert forall|i: int| 0 <= i < list.len() implies (#[trigger] list[i]).key != key by {
                if i < list.len() - 1 {
                    assert(list.drop_last()[i] == list[i]);
                }
            }
        }
    }
}

/// Whether no path occurs twice.
pub open spec fn separate(list: Seq<Change>) -> bool {
    forall|i: int, j: int|
        #![trigger list[i], list[j]]
        0 <= i < j < list.len() ==> list[i].key != list[j].key
}

proof fn lemma_place_unique(list: Seq<Change>, i: int)
    requires
        separate(list),
        0 <= i < list.len(),
    ensures
        place_of(list, list[i].key) == Some(i),
{
    lemma_place_of(list, list[i].key);
}

/// The changes that were collected, in the order in which their paths first came.
pub struct PathChanges {
    keys: Vec<String>,
    paths: Vec<String>,
    removed: Vec<bool>,
    index: StringHashMap<usize>,
}

impl View for PathChanges {
    type V = Seq<Change>;

    closed spec fn view(&self) -> Seq<Change> {
        Seq::new(
            self.keys@.len(),
            |i: int|
                Change {
                    key: self.keys@[i]@,
                    path: self.paths@[i]@,
                    removed: self.removed@[i],
                },
        )
    }
}

fn key(p: &str) -> (r: String)
    ensures
        r@ == key_of(p@),
{
    let chars = text::chars_of(p);
    let parts = path::components(chars.as_slice());
    let ghost all = text::slices(parts@);
    let mut names: Vec<String> = Vec::new();
    assert(text::texts(names@) =~= all.take(0));
    for i in 0..parts.len()
        invariant
            all == text::slices(parts@),
            text::texts(names@) == all.take(i as int),
    {
        let ghost before = text::texts(names@);
        names.push(text::string_of(parts[i]));
        assert(text::texts(names@) =~= before.push(all[i as int]));
        assert(all.take(i + 1) =~= before.push(all[i as int]));
    }
    assert(all.take(all.len() as int) =~= all);
    text::join(names.as_slice(), "/")
}

impl PathChanges {
    /// Whether every path has one state and is found by the index.
    pub closed spec fn wf(self) -> bool {
        &&& self.paths@.len() == self.keys@.len()
        &&& self.removed@.len() == self.keys@.len()
        &&& forall|i: int|
            0 <= i < self.keys@.len() ==> self.index@.contains_key(#[trigger] self.keys@[i]@)
                && self.index@[self.keys@[i]@] == i
        &&& forall|t: Seq<char>| #[trigger]
            self.index@.contains_key(t) ==> self.index@[t] < self.keys@.len()
                && self.keys@[self.index@[t] as int]@ == t
    }

    proof fn lemma_find(&self, key: Seq<char>)
        requires
            self.wf(),
        ensures
            match place_of(self@, key) {
                Some(i) => self.index@.contains_key(key) && self.index@[key] == i,
                None => !self.index@.contains_key(key),
            },
    {
        lemma_place_of(self@, key);
        match place_of(self@, key) {
            Some(i) => {
                assert(self@[i].key == self.keys@[i]@);
            },
            None => {
                if self.index@.contains_key(key) {
                    let i = self.index@[key] as int;
                    assert(self@[i].key == self.keys@[i]@);
                }
            },
        }
    }

    /// No changes.
    pub fn new() -> (r: Self)
        ensures
            r.wf(),
            r@ == Seq::<Change>::empty(),
    {
        let r = PathChanges {
            keys: Vec::new(),
            paths: Vec::new(),
            removed: Vec::new(),
            index: StringHashMap::new(),
        };
        assert(r@ =~= Seq::empty());
        r
    }

    fn note(&mut self, p: &str, removed: bool)
        requires
            old(self).wf(),
        ensures
            final(self).wf(),
            final(self)@ == spec_note(old(self)@, p@, removed),
    {
        let name = key(p);
        let ghost before = *self;
        proof {
            self.lemma_find(name@);
        }
        match self.index.get(name.as_str()) {
            Some(i) => {
                let i: usize = *i;
                if self.removed[i] != removed {
                    self.paths.set(i, text::owned(p));
                    self.removed.set(i, removed);
                    assert(self@ =~= spec_note(before@, p@, removed));
                }
            },
            None => {
                let n: usize = self.keys.len();
                let copy = name.clone();
                self.index.insert(copy, n);
                self.keys.push(name);
                self.paths.push(text::owned(p));
                self.removed.push(removed);
                assert(self@ =~= spec_note(before@, p@, removed));
                assert forall|i: int| 0 <= i < self.keys@.len() implies self.index@.contains_key(
                    #[trigger] self.keys@[i]@,
                ) && self.index@[self.keys@[i]@] == i by {
                    if i < n {
                        assert(self.keys@[i] == before.keys@[i]);
                        assert(before.index@.contains_key(before.keys@[i]@));
                    }
                }
                assert forall|t: Seq<char>| #[trigger] self.index@.contains_key(t) implies
                    self.index@[t] < self.keys@.len() && self.keys@[self.index@[t] as int]@
                    == t by {
                    if t != key_of(p@) {
                        assert(before.index@.contains_key(t));
                        assert(self.keys@[before.index@[t] as int]
                            == before.keys@[before.index@[t] as int]);
                    }
                }
            },
        }
    }

    /// Classify an event into changed or removed paths.
    pub fn classify_event(&mut self, event: FileEvent, paths: &[String])
        requires
            old(self).wf(),
        ensures
            final(self).wf(),
            final(self)@ == spec_classify(old(self)@, event, text::texts(paths@)),
    {
        let removed = match event {
            FileEvent::Touched => false,
            FileEvent::Removed => true,
            FileEvent::Other => {
                return;
            },
        };
        let ghost before = self@;
        let ghost all = text::texts(paths@);
        assert(all.take(0) =~= Seq::empty());
        for i in 0..paths.len()
            invariant
                self.wf(),
                all == text::texts(paths@),
                self@ == spec_note_all(before, all.take(i as int), removed),
        {
            assert(all.take(i + 1).drop_last() =~= all.take(i as int));
            assert(all.take(i + 1).last() == paths@[i as int]@);
            self.note(paths[i].as_str(), removed);
        }
        assert(all.take(all.len() as int) =~= all);
    }

    fn selected(&self, project_path: &str, removed: bool) -> (r: Vec<String>)
        requires
            self.wf(),
        ensures
            text::texts(r@) == spec_selected(self@, project_path@, removed),
    {
        let ghost all = self@;
        let mut out: Vec<String> = Vec::new();
        assert(all.take(0) =~= Seq::empty());
        assert(text::texts(out@) =~= Seq::empty());
        for i in 0..self.keys.len()
            invariant
                self.wf(),
                all == self@,
                text::texts(out@) == spec_selected(all.take(i as int), project_path@, removed),
        {
            proof {
                assert(all.take(i + 1).drop_last() =~= all.take(i as int));
                assert(all.take(i + 1).last() == all[i as int]);
                assert(all[i as int].path == self.paths@[i as int]@);
            }
            if self.removed[i] == removed {
                match to_relative_source(self.paths[i].as_str(), project_path) {
                    Some(t) => {
                        let ghost before = text::texts(out@);
                        let ghost model = t@;
                        out.push(t);
                        assert(text::texts(out@) =~= before.push(model));
                    },
                    None => {},
                }
            }
        }
        assert(all.take(all.len() as int) =~= all);
        out
    }

    /// The source files of a project that are to be indexed again.
    pub fn to_reindex(&self, project_path: &str) -> (r: Vec<String>)
        requires
            self.wf(),
        ensures
            text::texts(r@) == spec_selected(self@, project_path@, false),
    {
        self.selected(project_path, false)
    }

    /// The source files of a project that are to be removed from the index.
    pub fn to_delete(&self, project_path: &str) -> (r: Vec<String>)
        requires
            self.wf(),
        ensures
            text::texts(r@) == spec_selected(self@, project_path@, true),
    {
        self.selected(project_path, true)
    }
}

/// The relative paths of the source files that changed, or that were removed.
pub open spec fn spec_selected(list: Seq<Change>, project: Seq<char>, removed: bool) -> Seq<
    Seq<char>,
>
    decreases list.len(),
{
    if list.len() == 0 {
        Seq::empty()
    } else {
        let before = spec_selected(list.drop_last(), project, removed);
        if list.last().removed == removed {
            match spec_to_relative_source(list.last().path, project) {
                Some(t) => before.push(t),
                None => before,
            }
        } else {
            before
        }
    }
}

/// Whether a component of a path keeps a file out of the index: a hidden name, or a directory
/// that is skipped.
pub open spec fn skipped_part(name: Seq<char>) -> bool {
    text::begins(name, "."@) || config::skip_dir(name)
}

/// A path as a source file of a project, relative to it, unless it is none.
pub open spec fn spec_to_relative_source(p: Seq<char>, project: Seq<char>) -> Option<Seq<char>> {
    match path::spec_strip_prefix(p, project) {
        Some(relative) => if (exists|i: int|
            0 <= i < path::spec_components(relative).len() && skipped_part(
                #[trigger] path::spec_components(relative)[i],
            )) || !config::source_extension(path::extension_or_empty(p)) {
            None
        } else {
            Some(relative)
        },
        None => None,
    }
}

/// Convert an absolute path to a relative source-file path, or None if it should be skipped.
pub fn to_relative_source(p: &str, project_path: &str) -> (r: Option<String>)
    ensures
        match r {
            Some(t) => spec_to_relative_source(p@, project_path@) == Some(t@),
            None => spec_to_relative_source(p@, project_path@) is None,
        },
{
    let chars = text::chars_of(p);
    let project = text::chars_of(project_path);
    let relative = match path::strip_prefix(chars.as_slice(), project.as_slice()) {
        Some(rest) => rest,
        None => {
            return None;
        },
    };
    let parts = path::components(relative);
    let ghost all = path::spec_components(relative@);
    assert(text::slices(parts@).len() == parts@.len());
    for i in 0..parts.len()
        invariant
            all == path::spec_components(relative@),
            all == text::slices(parts@),
            path::spec_strip_prefix(p@, project_path@) == Some(relative@),
            forall|k: int| 0 <= k < i ==> !skipped_part(#[trigger] all[k]),
    {
        let name = text::string_of(parts[i]);
        assert(all[i as int] == name@);
        if text::starts_with(parts[i], ".") || config::is_skip_dir(name.as_str()) {
            assert(skipped_part(all[i as int]));
            return None;
        }
    }
    let extension = path::extension_of(p);
    if !config::is_source_file(extension.as_str()) {
        return None;
    }
    Some(text::string_of(relative))
}

// ── Laws ─────────────────────────────────────────────────────────────

/// Whether a path is among those that changed, or among those that were removed.
pub open spec fn noted(list: Seq<Change>, key: Seq<char>, removed: bool) -> bool {
    place_of(list, key) matches Some(i) && list[i].removed == removed
}

/// After an event of a path, the path is among the changed or the removed ones as the event
/// says, and not among the others; nothing else is moved.
pub proof fn law_last_event_decides(list: Seq<Change>, p: Seq<char>, removed: bool, other: Seq<char>)
    requires
        separate(list),
    ensures
        separate(spec_note(list, p, removed)),
        noted(spec_note(list, p, removed), key_of(p), removed),
        !noted(spec_note(list, p, removed), key_of(p), !removed),
        other != key_of(p) ==> noted(spec_note(list, p, removed), other, true) == noted(
            list,
            other,
            true,
        ) && noted(spec_note(list, p, removed), other, false) == noted(list, other, false),
{
    let k = key_of(p);
    let after = spec_note(list, p, removed);
    lemma_place_of(list, k);
    lemma_place_of(after, k);
    lemma_place_of(list, other);
    lemma_place_of(after, other);
    match place_of(list, k) {
        Some(i) => {
            assert(after[i].key == k);
            lemma_place_unique(after, i);
        },
        None => {
            let n = list.len() as int;
            assert(after[n].key == k);
            lemma_place_unique(after, n);
        },
    }
    if other != k {
        match place_of(list, other) {
            Some(i) => {
                assert(after[i] == list[i]);
                lemma_place_unique(after, i);
            },
            None => {
                match place_of(after, other) {
                    Some(j) => {
                        if j < list.len() {
                            assert(list[j].key != other);
                        }
                    },
                    None => {},
                }
            },
        }
    }
}

/// No path is to be both indexed again and removed, whatever events came.
pub proof fn law_changed_and_removed_are_disjoint(
    list: Seq<Change>,
    event: FileEvent,
    paths: Seq<Seq<char>>,
    key: Seq<char>,
)
    requires
        separate(list),
    ensures
        separate(spec_classify(list, event, paths)),
        !(noted(spec_classify(list, event, paths), key, true) && noted(
            spec_classify(list, event, paths),
            key,
            false,
        )),
    decreases paths.len(),
{
    if paths.len() > 0 {
        let removed = event is Removed;
        law_changed_and_removed_are_disjoint(list, event, paths.drop_last(), key);
        if event !is Other {
            law_last_event_decides(
                spec_note_all(list, paths.drop_last(), removed),
                paths.last(),
                removed,
                key,
            );
        }
    }
}

/// Whether a name keeps what lies below it out of the index: one in front of which a dot stands, or
/// that of a directory with what is installed, built or cached.
pub open spec fn kept_out(name: Seq<char>) -> bool {
    name[0] == '.' || name == "node_modules"@ || name == "dist"@ || name == "build"@ || name
        == "target"@ || name == "coverage"@ || name == "__pycache__"@ || name == "venv"@
}

proof fn lemma_kept_out(name: Seq<char>)
    requires
        name.len() > 0,
    ensures
        skipped_part(name) == kept_out(name),
{
    reveal_strlit(".");
    reveal_strlit(".git");
    reveal_strlit(".next");
    reveal_strlit(".venv");
    reveal_strlit(".DS_Store");
    if name[0] == '.' {
        assert(name.subrange(0, 1) =~= "."@);
    }
    if text::begins(name, "."@) {
        assert(name.subrange(0, 1)[0] == '.');
    }
}

/// A changed file of a project is a source file, known by its path in the project, exactly where
/// its extension is that of one and no name on the way keeps it out.
pub proof fn law_source_files_of_a_project(dirs: Seq<Seq<char>>, rest: Seq<Seq<char>>)
    requires
        path::all_plain(dirs),
        path::all_plain(rest),
        dirs.len() > 0,
        rest.len() > 0,
    ensures
        ({
            let project = "/"@ + text::spec_join(dirs, "/"@);
            let p = "/"@ + text::spec_join(dirs + rest, "/"@);
            let out = exists|i: int| 0 <= i < rest.len() && kept_out(#[trigger] rest[i]);
            let source = config::source_extension(path::extension_or_empty(p));
            &&& source && !out ==> spec_to_relative_source(p, project) == Some(
                text::spec_join(rest, "/"@),
            )
            &&& !source || out ==> spec_to_relative_source(p, project) is None
        }),
{
    path::law_paths_in_a_directory(dirs, rest);
    path::lemma_components_of_joined(rest);
    let relative = text::spec_join(rest, "/"@);
    let parts = path::spec_components(relative);
    assert forall|i: int| 0 <= i < rest.len() implies skipped_part(#[trigger] parts[i]) == kept_out(
        rest[i],
    ) by {
        assert(path::plain(rest[i]));
        lemma_kept_out(rest[i]);
    }
    let out = exists|i: int| 0 <= i < rest.len() && kept_out(#[trigger] rest[i]);
    if out {
        let i = choose|i: int| 0 <= i < rest.len() && kept_out(#[trigger] rest[i]);
        assert(skipped_part(parts[i]));
    }
    if exists|i: int| 0 <= i < parts.len() && skipped_part(#[trigger] parts[i]) {
        let i = choose|i: int| 0 <= i < parts.len() && skipped_part(#[trigger] parts[i]);
        assert(kept_out(rest[i]));
    }
}

/// Every noted change of a source file is handed on, with the changed ones or with the removed
/// ones as it was noted.
pub proof fn law_noted_changes_are_handed_on(
    list: Seq<Change>,
    project: Seq<char>,
    removed: bool,
    i: int,
)
    requires
        0 <= i < list.len(),
        list[i].removed == removed,
    ensures
        spec_to_relative_source(list[i].path, project) matches Some(t) ==> spec_selected(
            list,
            project,
            removed,
        ).contains(t),
    decreases list.len(),
{
    match spec_to_relative_source(list[i].path, project) {
        Some(t) => {
            let rest = list.drop_last();
            let before = spec_selected(rest, project, removed);
            let all = spec_selected(list, project, removed);
            if i == list.len() - 1 {
                assert(all[before.len() as int] == t);
            } else {
                assert(rest[i] == list[i]);
                law_noted_changes_are_handed_on(rest, project, removed, i);
                let k = choose|k: int| 0 <= k < before.len() && before[k] == t;
                assert(all[k] == t);
            }
        },
        None => {},
    }
}

proof fn lemma_separate(list: Seq<Change>, paths: Seq<Seq<char>>, removed: bool)
    requires
        separate(list),
    ensures
        separate(spec_note_all(list, paths, removed)),
    decreases paths.len(),
{
    if paths.len() > 0 {
        lemma_separate(list, paths.drop_last(), removed);
        law_last_event_decides(
            spec_note_all(list, paths.drop_last(), removed),
            paths.last(),
            removed,
            Seq::empty(),
        );
    }
}

proof fn lemma_all_noted(list: Seq<Change>, paths: Seq<Seq<char>>, removed: bool, i: int)
    requires
        separate(list),
        0 <= i < paths.len(),
    ensures
        noted(spec_note_all(list, paths, removed), key_of(paths[i]), removed),
    decreases paths.len(),
{
    let rest = paths.drop_last();
    let before = spec_note_all(list, rest, removed);
    lemma_separate(list, rest, removed);
    law_last_event_decides(before, paths.last(), removed, key_of(paths[i]));
    if i < rest.len() {
        assert(rest[i] == paths[i]);
        lemma_all_noted(list, rest, removed, i);
        assert(removed || !removed);
    }
}

/// Files that were created or changed are noted as changed, files that were removed as removed,
/// all of those that an event names, and other events change nothing.
pub proof fn law_events_are_noted(list: Seq<Change>, paths: Seq<Seq<char>>, i: int)
    requires
        separate(list),
        0 <= i < paths.len(),
    ensures
        noted(spec_classify(list, FileEvent::Touched, paths), key_of(paths[i]), false),
        noted(spec_classify(list, FileEvent::Removed, paths), key_of(paths[i]), true),
        spec_classify(list, FileEvent::Other, paths) == list,
{
    lemma_all_noted(list, paths, false, i);
    lemma_all_noted(list, paths, true, i);
}

/// Events are gathered for half a second, looked for every twentieth of a second, and given up on
/// after a minute without any.
pub proof fn law_watching_times()
    ensures
        DEBOUNCE_MILLIS == 500,
        POLL_MILLIS == 50,
        IDLE_SECONDS == 60,
{
}

} // verus!
