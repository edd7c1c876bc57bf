//! Indexing a project: which files need it, what is stored of each, and what is embedded.

use crate::collections;
use crate::collections::{NameSet, Tally};
use crate::hash;
use crate::indexer::config;
use crate::indexer::file_walker;
use crate::indexer::file_walker::{FileEntry, FileModel};
use crate::indexer::import_extractor;
use crate::indexer::import_extractor::SourceModel;
use crate::indexer::symbol_extractor;
use crate::indexer::symbol_extractor::{Symbol, SymbolModel};
use crate::numerals;
use crate::path;
use crate::text;
use vstd::prelude::*;

verus! {

/// The hash by which a change of a file's content is noticed.
pub fn hash_content(content: &str) -> (r: String)
    ensures
        r@ == hash::spec_digest(content@),
{
    hash::digest(content)
}

/// Whether a project has been indexed, given the number of files that its database holds, if
/// it has one that can be opened.
pub fn is_indexed(file_count: Option<i64>) -> (r: bool)
    ensures
        r == (file_count matches Some(n) && n > 0),
{
    match file_count {
        Some(n) => n > 0,
        None => false,
    }
}

// ── Statistics ───────────────────────────────────────────────────────

/// What indexing a project did.
#[derive(Debug, Clone, Copy, PartialEq, Eq, Structural)]
pub struct IndexStats {
    pub files_total: usize,
    pub files_indexed: usize,
    pub files_skipped: usize,
    pub symbols_extracted: usize,
    pub embeddings_generated: usize,
}

impl IndexStats {
    /// What indexing did, in words.
    pub open spec fn spec_render(self) -> Seq<char> {
        "Indexed "@ + numerals::spec_decimal(self.files_indexed as nat) + "/"@
            + numerals::spec_decimal(self.files_total as nat) + " files ("@
            + numerals::spec_decimal(self.files_skipped as nat) + " skipped), "@
            + numerals::spec_decimal(self.symbols_extracted as nat) + " symbols, "@
            + numerals::spec_decimal(self.embeddings_generated as nat) + " embeddings"@
    }

    /// What indexing did, in words.
    pub fn render(&self) -> (r: String)
        ensures
            r@ == self.spec_render(),
    {
        text::owned("Indexed ").concat(
            numerals::decimal_usize(self.files_indexed).as_str(),
        ).concat("/").concat(numerals::decimal_usize(self.files_total).as_str()).concat(
            " files (",
        ).concat(numerals::decimal_usize(self.files_skipped).as_str()).concat(
            " skipped), ",
        ).concat(numerals::decimal_usize(self.symbols_extracted).as_str()).concat(
            " symbols, ",
        ).concat(numerals::decimal_usize(self.embeddings_generated).as_str()).concat(" embeddings")
    }
}

/// What storing files did.
#[derive(Debug, Clone, Copy, PartialEq, Eq, Structural)]
pub struct EmbedStats {
    pub embeddings_generated: usize,
    pub symbols_extracted: usize,
}

// ── Files that need indexing ─────────────────────────────────────────

/// A file that is to be indexed.
#[derive(Debug)]
pub struct PendingFile {
    pub relative_path: String,
    pub extension: String,
    pub size_bytes: u64,
    pub content: String,
    pub content_hash: String,
}

/// The value of a pending file.
pub struct PendingModel {
    pub relative_path: Seq<char>,
    pub extension: Seq<char>,
    pub size_bytes: u64,
    pub content: Seq<char>,
    pub content_hash: Seq<char>,
}

impl View for PendingFile {
    type V = PendingModel;

    open spec fn view(&self) -> PendingModel {
        PendingModel {
            relative_path: self.relative_path@,
            extension: self.extension@,
            size_bytes: self.size_bytes,
            content: self.content@,
            content_hash: self.content_hash@,
        }
    }
}

/// The values of a list of pending files.
pub open spec fn pendings(files: Seq<PendingFile>) -> Seq<PendingModel> {
    files.map_values(|f: PendingFile| f@)
}

/// The text of an optional string slice.
pub open spec fn slice_of(t: Option<&str>) -> Option<Seq<char>> {
    match t {
        Some(x) => Some(x@),
        None => None,
    }
}

/// The text of an optional string.
pub open spec fn string_of(t: Option<String>) -> Option<Seq<char>> {
    match t {
        Some(x) => Some(x@),
        None => None,
    }
}

/// What is to be indexed of a file: nothing where it could not be read, or where it still has
/// the content that it was indexed with.
pub open spec fn spec_pending(
    relative_path: Seq<char>,
    extension: Seq<char>,
    size_bytes: u64,
    content: Option<Seq<char>>,
    existing_hash: Option<Seq<char>>,
) -> Option<PendingModel> {
    match content {
        Some(c) => if existing_hash == Some(hash::spec_digest(c)) {
            None
        } else {
            Some(
                PendingModel {
                    relative_path,
                    extension,
                    size_bytes,
                    content: c,
                    content_hash: hash::spec_digest(c),
                },
            )
        },
        None => None,
    }
}

/// What is to be indexed of a file, given its content, if it could be read, and the hash that
/// it was indexed with, if it was.
pub fn pending(
    relative_path: &str,
    extension: &str,
    size_bytes: u64,
    content: Option<String>,
    existing_hash: Option<&str>,
) -> (r: Option<PendingFile>)
    ensures
        match r {
            Some(f) => spec_pending(
                relative_path@,
                extension@,
                size_bytes,
                string_of(content),
                slice_of(existing_hash),
            ) == Some(f@),
            None => spec_pending(
                relative_path@,
                extension@,
                size_bytes,
                string_of(content),
                slice_of(existing_hash),
            ) is None,
        },
{
    let content = match content {
        Some(c) => c,
        None => {
            return None;
        },
    };
    let content_hash = hash_content(content.as_str());
    match existing_hash {
        Some(h) => {
            if text::same(h, content_hash.as_str()) {
                return None;
            }
        },
        None => {},
    }
    Some(
        PendingFile {
            relative_path: text::owned(relative_path),
            extension: text::owned(extension),
            size_bytes,
            content,
            content_hash,
        },
    )
}

/// What is to be indexed of a file that changed: nothing where it is no source file either.
pub open spec fn spec_changed(
    relative_path: Seq<char>,
    size_bytes: u64,
    content: Option<Seq<char>>,
    existing_hash: Option<Seq<char>>,
) -> Option<PendingModel> {
    let extension = path::extension_or_empty(relative_path);
    if config::source_extension(extension) {
        spec_pending(relative_path, extension, size_bytes, content, existing_hash)
    } else {
        None
    }
}

/// What is to be indexed of a file that changed, for incremental re-indexing.
pub fn changed(
    relative_path: &str,
    size_bytes: u64,
    content: Option<String>,
    existing_hash: Option<&str>,
) -> (r: Option<PendingFile>)
    ensures
        match r {
            Some(f) => spec_changed(
                relative_path@,
                size_bytes,
                string_of(content),
                slice_of(existing_hash),
            ) == Some(f@),
            None => spec_changed(
                relative_path@,
                size_bytes,
                string_of(content),
                slice_of(existing_hash),
            ) is None,
        },
{
    let extension = path::extension_of(relative_path);
    if !config::is_source_file(extension.as_str()) {
        return None;
    }
    pending(relative_path, extension.as_str(), size_bytes, content, existing_hash)
}

/// A run of indexing: the files that are to be indexed so far, and how many were skipped.
#[derive(Debug)]
pub struct IndexRun {
    pub files_total: usize,
    pub files_skipped: usize,
    pub to_index: Vec<PendingFile>,
}

/// The value of a run of indexing.
pub struct RunModel {
    pub files_total: nat,
    pub files_skipped: nat,
    pub to_index: Seq<PendingModel>,
}

impl View for IndexRun {
    type V = RunModel;

    open spec fn view(&self) -> RunModel {
        RunModel {
            files_total: self.files_total as nat,
            files_skipped: self.files_skipped as nat,
            to_index: pendings(self.to_index@),
        }
    }
}

/// A run through so many files that has not looked at any.
pub open spec fn run_start(files_total: nat) -> RunModel {
    RunModel { files_total, files_skipped: 0, to_index: Seq::empty() }
}

/// A run after one more file: the file is to be indexed, or it is skipped.
pub open spec fn run_step(
    run: RunModel,
    file: FileModel,
    content: Option<Seq<char>>,
    existing_hash: Option<Seq<char>>,
) -> RunModel {
    match spec_pending(
        file.relative_path,
        file.extension,
        file.size_bytes,
        content,
        existing_hash,
    ) {
        Some(f) => RunModel { to_index: run.to_index.push(f), ..run },
        None => RunModel { files_skipped: run.files_skipped + 1, ..run },
    }
}

/// What a run without anything to index did.
pub open spec fn nothing_indexed(run: RunModel) -> IndexStats {
    IndexStats {
        files_total: run.files_total as usize,
        files_indexed: 0,
        files_skipped: run.files_skipped as usize,
        symbols_extracted: 0,
        embeddings_generated: 0,
    }
}

impl IndexRun {
    /// Whether no more files were looked at than there are.
    pub open spec fn wf(self) -> bool {
        self.files_skipped + self.to_index@.len() <= self.files_total
    }

    /// How many files were looked at.
    pub open spec fn seen(self) -> int {
        self.files_skipped + self.to_index@.len()
    }

    /// A run through a project with so many files.
    pub fn new(files_total: usize) -> (r: Self)
        ensures
            r.wf(),
            r.seen() == 0,
            r@ == run_start(files_total as nat),
    {
        let r = IndexRun { files_total, files_skipped: 0, to_index: Vec::new() };
        assert(pendings(r.to_index@) =~= Seq::empty());
        r
    }

    /// Looks at the next file, given its content, if it could be read, and the hash that it was
    /// indexed with, if it was.
    pub fn offer(&mut self, file: &FileEntry, content: Option<String>, existing_hash: Option<&str>)
        requires
            old(self).wf(),
            old(self).seen() < old(self).files_total,
        ensures
            final(self).wf(),
            final(self).seen() == old(self).seen() + 1,
            final(self)@ == run_step(
                old(self)@,
                file@,
                string_of(content),
                slice_of(existing_hash),
            ),
    {
        let ghost before = pendings(self.to_index@);
        match pending(
            file.relative_path.as_str(),
            file.extension.as_str(),
            file.size_bytes,
            content,
            existing_hash,
        ) {
            Some(f) => {
                let ghost model = f@;
                self.to_index.push(f);
                assert(pendings(self.to_index@) =~= before.push(model));
            },
            None => {
                self.files_skipped = self.files_skipped + 1;
            },
        }
    }

    /// What the run did, if there is nothing to index.
    pub fn up_to_date(&self) -> (r: Option<IndexStats>)
        ensures
            r == (if self@.to_index.len() == 0 {
                Some(nothing_indexed(self@))
            } else {
                None
            }),
    {
        assert(self@.to_index.len() == self.to_index@.len());
        if self.to_index.len() == 0 {
            Some(
                IndexStats {
                    files_total: self.files_total,
                    files_indexed: 0,
                    files_skipped: self.files_skipped,
                    symbols_extracted: 0,
                    embeddings_generated: 0,
                },
            )
        } else {
            None
        }
    }

    /// What the run did, given what storing its files did.
    pub fn finish(&self, stored: EmbedStats) -> (r: IndexStats)
        ensures
            r == (IndexStats {
                files_total: self.files_total,
                files_indexed: self.to_index@.len() as usize,
                files_skipped: self.files_skipped,
                symbols_extracted: stored.symbols_extracted,
                embeddings_generated: stored.embeddings_generated,
            }),
    {
        IndexStats {
            files_total: self.files_total,
            files_indexed: self.to_index.len(),
            files_skipped: self.files_skipped,
            symbols_extracted: stored.symbols_extracted,
            embeddings_generated: stored.embeddings_generated,
        }
    }
}

// ── What is stored ───────────────────────────────────────────────────

/// The symbols of an extraction, or none.
pub open spec fn or_none(found: Option<Seq<SymbolModel>>) -> Seq<SymbolModel> {
    match found {
        Some(list) => list,
        None => Seq::empty(),
    }
}

/// Whether `r` can be the symbols of a file: none where its language has no grammar or it is too
/// large to parse.
pub open spec fn lists_symbols(
    content: Seq<char>,
    extension: Seq<char>,
    r: Seq<SymbolModel>,
) -> bool {
    if config::ast_extension(extension) {
        exists|found: Option<Seq<SymbolModel>>| #[trigger]
            symbol_extractor::extracts(content, extension, found) && r == or_none(found)
    } else {
        r == Seq::<SymbolModel>::empty()
    }
}

/// The symbols of a file.
pub fn symbols_of(content: &str, extension: &str) -> (r: Vec<Symbol>)
    ensures
        lists_symbols(content@, extension@, symbol_extractor::symbols(r@)),
{
    if config::has_ast_support(extension) {
        let found = symbol_extractor::extract_symbols(content, extension);
        assert(symbol_extractor::extracts(
            content@,
            extension@,
            symbol_extractor::extracted(found),
        ));
        match found {
            Ok(list) => {
                return list;
            },
            Err(_) => {},
        }
    }
    let none: Vec<Symbol> = Vec::new();
    assert(symbol_extractor::symbols(none@) =~= Seq::empty());
    none
}

/// A symbol that is to be stored. Where it has an embedding, that is the one of the text at
/// `embed_index`.
#[derive(Debug)]
pub struct PendingSymbol {
    pub name: String,
    pub kind: String,
    pub start_line: usize,
    pub end_line: usize,
    pub signature: String,
    pub embed_index: Option<usize>,
}

/// The value of a pending symbol.
pub struct PlannedSymbol {
    pub name: Seq<char>,
    pub kind: Seq<char>,
    pub start_line: nat,
    pub end_line: nat,
    pub signature: Seq<char>,
    pub embed_index: Option<nat>,
}

impl View for PendingSymbol {
    type V = PlannedSymbol;

    open spec fn view(&self) -> PlannedSymbol {
        PlannedSymbol {
            name: self.name@,
            kind: self.kind@,
            start_line: self.start_line as nat,
            end_line: self.end_line as nat,
            signature: self.signature@,
            embed_index: match self.embed_index {
                Some(i) => Some(i as nat),
                None => None,
            },
        }
    }
}

/// The values of a list of pending symbols.
pub open spec fn planned(v: Seq<PendingSymbol>) -> Seq<PlannedSymbol> {
    v.map_values(|s: PendingSymbol| s@)
}

/// Whether a symbol is long enough to be embedded: more than three lines beyond its first.
pub open spec fn wants_embedding(s: SymbolModel) -> bool {
    s.end_line > s.start_line + 3
}

/// The texts of the symbols of a list that are embedded.
pub open spec fn embedded(list: Seq<SymbolModel>) -> Seq<Seq<char>>
    decreases list.len(),
{
    if list.len() == 0 {
        Seq::empty()
    } else {
        let s = list.last();
        if wants_embedding(s) {
            embedded(list.drop_last()).push(s.name + " "@ + s.signature)
        } else {
            embedded(list.drop_last())
        }
    }
}

/// The text by which a symbol is embedded: its name and its signature.
pub fn embed_text_of(s: &Symbol) -> (r: String)
    ensures
        r@ == s@.name + " "@ + s@.signature,
{
    text::owned(s.name.as_str()).concat(" ").concat(s.signature.as_str())
}

/// The symbols of a file as they are stored, where so many texts come before the file's.
pub open spec fn plan_symbols(list: Seq<SymbolModel>, base: nat) -> Seq<PlannedSymbol> {
    Seq::new(
        list.len(),
        |i: int|
            PlannedSymbol {
                name: list[i].name,
                kind: symbol_extractor::spec_label(list[i].kind),
                start_line: list[i].start_line,
                end_line: list[i].end_line,
                signature: list[i].signature,
                embed_index: if wants_embedding(list[i]) {
                    Some(base + embedded(list.take(i)).len())
                } else {
                    None
                },
            },
    )
}

/// The texts of all symbols that are embedded, file by file.
pub open spec fn all_embedded(lists: Seq<Seq<SymbolModel>>) -> Seq<Seq<char>>
    decreases lists.len(),
{
    if lists.len() == 0 {
        Seq::empty()
    } else {
        all_embedded(lists.drop_last()) + embedded(lists.last())
    }
}

/// The text by which a file is embedded: its path and the beginning of its content.
pub open spec fn summary_of(f: PendingModel) -> Seq<char> {
    f.relative_path + " "@ + text::first_n(f.content, 500)
}

/// What is stored of a file besides its own row.
#[derive(Debug)]
pub struct FilePlan {
    pub line_count: usize,
    pub symbols: Vec<PendingSymbol>,
}

/// What is stored, and what is embedded: one summary for each file, and the texts of symbols.
#[derive(Debug)]
pub struct StorePlan {
    pub summaries: Vec<String>,
    pub files: Vec<FilePlan>,
    pub embed_texts: Vec<String>,
}

/// The values of lists of symbols.
pub open spec fn symbol_lists(lists: Seq<Vec<Symbol>>) -> Seq<Seq<SymbolModel>> {
    lists.map_values(|v: Vec<Symbol>| symbol_extractor::symbols(v@))
}

/// Whether a file is stored with the number of its lines and its symbols.
pub open spec fn file_planned(
    p: FilePlan,
    f: PendingModel,
    lists: Seq<Seq<SymbolModel>>,
    i: int,
) -> bool {
    p.line_count == text::spec_lines(f.content).len() && planned(p.symbols@) == plan_symbols(
        lists[i],
        all_embedded(lists.take(i)).len(),
    )
}

/// Whether a plan is that of given files with given symbols.
pub open spec fn plans(
    plan: StorePlan,
    files: Seq<PendingModel>,
    lists: Seq<Seq<SymbolModel>>,
) -> bool {
    &&& text::texts(plan.summaries@) == files.map_values(|f: PendingModel| summary_of(f))
    &&& text::texts(plan.embed_texts@) == all_embedded(lists)
    &&& plan.files@.len() == files.len()
    &&& forall|i: int|
        0 <= i < files.len() ==> #[trigger] file_planned(plan.files@[i], files[i], lists, i)
}

fn plan_file(list: &Vec<Symbol>, texts: &mut Vec<String>) -> (r: Vec<PendingSymbol>)
    ensures
        planned(r@) == plan_symbols(symbol_extractor::symbols(list@), old(texts)@.len()),
        text::texts(final(texts)@) == text::texts(old(texts)@) + embedded(
            symbol_extractor::symbols(list@),
        ),
{
    let ghost models = symbol_extractor::symbols(list@);
    let ghost base = texts@.len();
    let ghost start = text::texts(texts@);
    let ghost all = plan_symbols(models, base);
    let mut out: Vec<PendingSymbol> = Vec::new();
    assert(models.take(0) =~= Seq::empty());
    assert(start + embedded(models.take(0)) =~= start);
    assert(planned(out@) =~= all.take(0));
    for i in 0..list.len()
        invariant
            models == symbol_extractor::symbols(list@),
            models.len() == list@.len(),
            all == plan_symbols(models, base),
            start.len() == base,
            text::texts(texts@) == start + embedded(models.take(i as int)),
            planned(out@) == all.take(i as int),
    {
        let sym = &list[i];
        proof {
            assert(models.take(i + 1).drop_last() =~= models.take(i as int));
            assert(models.take(i + 1).last() == sym@);
            assert(text::texts(texts@).len() == texts@.len());
        }
        let ghost before = text::texts(texts@);
        let long = sym.end_line > sym.start_line && sym.end_line - sym.start_line > 3;
        assert(long == wants_embedding(sym@));
        let embed_index: Option<usize> = if long {
            let place: usize = texts.len();
            texts.push(embed_text_of(sym));
            assert(text::texts(texts@) =~= before.push(sym@.name + " "@ + sym@.signature));
            assert(start + embedded(models.take(i + 1)) =~= (start + embedded(
                models.take(i as int),
            )).push(sym@.name + " "@ + sym@.signature));
            Some(place)
        } else {
            None
        };
        let ghost done = planned(out@);
        out.push(
            PendingSymbol {
                name: sym.name.clone(),
                kind: text::owned(sym.kind.label()),
                start_line: sym.start_line,
                end_line: sym.end_line,
                signature: sym.signature.clone(),
                embed_index,
            },
        );
        assert(planned(out@) =~= done.push(out@[i as int]@));
        assert(out@[i as int]@ == all[i as int]);
        assert(all.take(i + 1) =~= done.push(all[i as int]));
    }
    assert(models.take(models.len() as int) =~= models);
    assert(all.take(all.len() as int) =~= all);
    out
}

/// The plan of files whose symbols are known.
pub fn plan_from(files: &[PendingFile], lists: &[Vec<Symbol>]) -> (r: StorePlan)
    requires
        lists@.len() == files@.len(),
    ensures
        plans(r, pendings(files@), symbol_lists(lists@)),
{
    let ghost models = pendings(files@);
    let ghost all = symbol_lists(lists@);
    let ghost texts_of = models.map_values(|f: PendingModel| summary_of(f));
    let mut summaries: Vec<String> = Vec::new();
    let mut plan: Vec<FilePlan> = Vec::new();
    let mut embed_texts: Vec<String> = Vec::new();
    assert(all.take(0) =~= Seq::empty());
    assert(text::texts(summaries@) =~= texts_of.take(0));
    assert(text::texts(embed_texts@) =~= Seq::empty());
    for i in 0..files.len()
        invariant
            lists@.len() == files@.len(),
            models == pendings(files@),
            models.len() == files@.len(),
            all == symbol_lists(lists@),
            all.len() == files@.len(),
            texts_of == models.map_values(|f: PendingModel| summary_of(f)),
            text::texts(summaries@) == texts_of.take(i as int),
            text::texts(embed_texts@) == all_embedded(all.take(i as int)),
            plan@.len() == i,
            forall|k: int|
                0 <= k < i ==> #[trigger] file_planned(plan@[k], models[k], all, k),
    {
        let file = &files[i];
        let ghost done = text::texts(summaries@);
        let ghost before = plan@;
        proof {
            assert(all.take(i + 1).drop_last() =~= all.take(i as int));
            assert(all.take(i + 1).last() == all[i as int]);
            assert(text::texts(embed_texts@).len() == embed_texts@.len());
        }
        let content = text::chars_of(file.content.as_str());
        let start = text::head(content.as_slice(), 500);
        summaries.push(
            text::owned(file.relative_path.as_str()).concat(" ").concat(
                text::string_of(start).as_str(),
            ),
        );
        assert(text::texts(summaries@) =~= done.push(summary_of(file@)));
        assert(texts_of.take(i + 1) =~= done.push(texts_of[i as int]));
        let lines = text::lines(content.as_slice());
        assert(text::slices(lines@).len() == lines@.len());
        let symbols = plan_file(&lists[i], &mut embed_texts);
        plan.push(FilePlan { line_count: lines.len(), symbols });
        assert forall|k: int| 0 <= k < i + 1 implies #[trigger] file_planned(
            plan@[k],
            models[k],
            all,
            k,
        ) by {
            if k < i {
                assert(plan@[k] == before[k]);
            }
        }
    }
    assert(all.take(all.len() as int) =~= all);
    assert(texts_of.take(texts_of.len() as int) =~= texts_of);
    StorePlan { summaries, files: plan, embed_texts }
}

/// Whether `lists` can be the symbols of files.
pub open spec fn lists_all(files: Seq<PendingModel>, lists: Seq<Seq<SymbolModel>>) -> bool {
    &&& lists.len() == files.len()
    &&& forall|k: int|
        0 <= k < files.len() ==> #[trigger] lists_symbols(
            files[k].content,
            files[k].extension,
            lists[k],
        )
}

/// What is stored of files that are to be indexed, and what is embedded.
pub fn plan_store(files: &[PendingFile]) -> (r: StorePlan)
    ensures
        exists|lists: Seq<Seq<SymbolModel>>| #[trigger]
            lists_all(pendings(files@), lists) && plans(r, pendings(files@), lists),
{
    let ghost models = pendings(files@);
    let mut lists: Vec<Vec<Symbol>> = Vec::new();
    for i in 0..files.len()
        invariant
            models == pendings(files@),
            lists@.len() == i,
            forall|k: int|
                0 <= k < i ==> lists_symbols(
                    models[k].content,
                    models[k].extension,
                    symbol_extractor::symbols((#[trigger] lists@[k])@),
                ),
    {
        lists.push(symbols_of(files[i].content.as_str(), files[i].extension.as_str()));
    }
    let ghost found = symbol_lists(lists@);
    assert forall|k: int| 0 <= k < models.len() implies #[trigger] lists_symbols(
        models[k].content,
        models[k].extension,
        found[k],
    ) by {
        assert(found[k] == symbol_extractor::symbols(lists@[k]@));
    }
    assert(lists_all(models, found));
    plan_from(files, lists.as_slice())
}

/// How many symbols the first `n` files of a plan have.
pub open spec fn symbol_count(files: Seq<FilePlan>, n: int) -> nat
    decreases n,
{
    if n <= 0 {
        0
    } else {
        symbol_count(files, n - 1) + files[n - 1].symbols@.len()
    }
}

proof fn lemma_symbol_count(files: Seq<FilePlan>, n: int, m: int)
    requires
        n <= m,
    ensures
        symbol_count(files, n) <= symbol_count(files, m),
    decreases m,
{
    if n < m && m > 0 {
        lemma_symbol_count(files, n, m - 1);
    }
}

impl StorePlan {
    /// What storing the plan did, given how many embeddings of files and of symbols the model
    /// returned.
    pub fn stats(&self, file_embeddings: usize, symbol_embeddings: usize) -> (r: EmbedStats)
        requires
            file_embeddings + symbol_embeddings <= usize::MAX,
            symbol_count(self.files@, self.files@.len() as int) <= usize::MAX,
        ensures
            r.embeddings_generated == file_embeddings + symbol_embeddings,
            r.symbols_extracted == symbol_count(self.files@, self.files@.len() as int),
    {
        let mut count: usize = 0;
        for i in 0..self.files.len()
            invariant
                symbol_count(self.files@, self.files@.len() as int) <= usize::MAX,
                count == symbol_count(self.files@, i as int),
        {
            proof {
                lemma_symbol_count(self.files@, i + 1, self.files@.len() as int);
            }
            count = count + self.files[i].symbols.len();
        }
        EmbedStats {
            embeddings_generated: file_embeddings + symbol_embeddings,
            symbols_extracted: count,
        }
    }
}

// ── Centrality ───────────────────────────────────────────────────────

/// The paths of pending files.
pub open spec fn pending_paths(files: Seq<PendingModel>) -> Seq<Seq<char>> {
    files.map_values(|f: PendingModel| f.relative_path)
}

/// The places of the files that are not among given paths.
pub open spec fn others(files: Seq<FileModel>, paths: Seq<Seq<char>>) -> Seq<int>
    decreases files.len(),
{
    if files.len() == 0 {
        Seq::empty()
    } else if paths.contains(files.last().relative_path) {
        others(files.drop_last(), paths)
    } else {
        others(files.drop_last(), paths).push(files.len() - 1)
    }
}

fn path_set(files: &[PendingFile]) -> (r: NameSet)
    ensures
        r.wf(),
        r@ == collections::distinct(pending_paths(pendings(files@))),
{
    let ghost all = pending_paths(pendings(files@));
    let mut out = NameSet::new();
    assert(all.take(0) =~= Seq::empty());
    for i in 0..files.len()
        invariant
            out.wf(),
            all == pending_paths(pendings(files@)),
            out@ == collections::distinct(all.take(i as int)),
    {
        assert(all.take(i + 1).drop_last() =~= all.take(i as int));
        assert(all.take(i + 1).last() == files@[i as int].relative_path@);
        out.insert(files[i].relative_path.clone());
    }
    assert(all.take(all.len() as int) =~= all);
    out
}

/// The places of the files of a project that are not to be indexed: they are read once more
/// for their imports.
pub fn not_indexed(files: &[FileEntry], to_index: &[PendingFile]) -> (r: Vec<usize>)
    ensures
        r@.map_values(|k: usize| k as int) == others(
            file_walker::models(files@),
            pending_paths(pendings(to_index@)),
        ),
{
    let ghost models = file_walker::models(files@);
    let ghost paths = pending_paths(pendings(to_index@));
    let indexed = path_set(to_index);
    proof {
        collections::law_distinct(paths);
    }
    let mut out: Vec<usize> = Vec::new();
    assert(models.take(0) =~= Seq::empty());
    assert(out@.map_values(|k: usize| k as int) =~= Seq::empty());
    for i in 0..files.len()
        invariant
            indexed.wf(),
            indexed@ == collections::distinct(paths),
            forall|t: Seq<char>| #[trigger]
                collections::distinct(paths).contains(t) <==> paths.contains(t),
            models == file_walker::models(files@),
            out@.map_values(|k: usize| k as int) == others(models.take(i as int), paths),
    {
        proof {
            assert(models.take(i + 1).drop_last() =~= models.take(i as int));
            assert(models.take(i + 1).last() == files@[i as int]@);
        }
        if !indexed.contains(files[i].relative_path.as_str()) {
            let ghost before = out@.map_values(|k: usize| k as int);
            out.push(i);
            assert(out@.map_values(|k: usize| k as int) =~= before.push(i as int));
        }
    }
    assert(models.take(models.len() as int) =~= models);
    out
}

/// The sources of pending files.
pub open spec fn pending_sources(files: Seq<PendingModel>) -> Seq<SourceModel> {
    files.map_values(|f: PendingModel| (f.relative_path, f.extension, f.content))
}

/// How many other files import each file of a project: the imports are those of the files that
/// are to be indexed and of others, given as path, extension and content.
pub fn import_counts(
    files: &[FileEntry],
    to_index: &[PendingFile],
    rest: Vec<(String, String, String)>,
) -> (r: Tally)
    ensures
        r.wf(),
        r@ == collections::tally_of(
            import_extractor::all_targets(
                pending_sources(pendings(to_index@)) + import_extractor::sources(rest@),
                collections::distinct(
                    file_walker::relative_paths(file_walker::models(files@)),
                ),
            ),
        ),
{
    let ghost all = file_walker::relative_paths(file_walker::models(files@));
    let mut known = NameSet::new();
    assert(all.take(0) =~= Seq::empty());
    for i in 0..files.len()
        invariant
            known.wf(),
            all == file_walker::relative_paths(file_walker::models(files@)),
            known@ == collections::distinct(all.take(i as int)),
    {
        assert(all.take(i + 1).drop_last() =~= all.take(i as int));
        assert(all.take(i + 1).last() == files@[i as int].relative_path@);
        known.insert(files[i].relative_path.clone());
    }
    assert(all.take(all.len() as int) =~= all);
    let ghost models = pending_sources(pendings(to_index@));
    let mut data: Vec<(String, String, String)> = Vec::new();
    assert(import_extractor::sources(data@) =~= models.take(0));
    for i in 0..to_index.len()
        invariant
            models == pending_sources(pendings(to_index@)),
            import_extractor::sources(data@) == models.take(i as int),
    {
        let f = &to_index[i];
        let ghost before = import_extractor::sources(data@);
        data.push((f.relative_path.clone(), f.extension.clone(), f.content.clone()));
        assert(import_extractor::sources(data@) =~= before.push(models[i as int]));
        assert(models.take(i + 1) =~= before.push(models[i as int]));
    }
    assert(models.take(models.len() as int) =~= models);
    let ghost before = data@;
    let ghost more = rest@;
    let mut rest = rest;
    data.append(&mut rest);
    assert(import_extractor::sources(data@) =~= import_extractor::sources(before)
        + import_extractor::sources(more));
    import_extractor::build_import_counts(data.as_slice(), &known)
}

// ── Laws ─────────────────────────────────────────────────────────────

/// A file that still has the content that it was indexed with is not indexed again, whether
/// the whole project is indexed or the file changed; any other content is.
pub proof fn law_unchanged_files_are_skipped(
    relative_path: Seq<char>,
    extension: Seq<char>,
    size_bytes: u64,
    content: Seq<char>,
    existing_hash: Option<Seq<char>>,
)
    ensures
        spec_pending(relative_path, extension, size_bytes, Some(content), existing_hash) is None
            <==> existing_hash == Some(hash::spec_digest(content)),
        spec_pending(relative_path, extension, size_bytes, Some(content), existing_hash) matches Some(
            f,
        ) ==> spec_pending(
            relative_path,
            extension,
            size_bytes,
            Some(content),
            Some(f.content_hash),
        ) is None,
        existing_hash == Some(hash::spec_digest(content)) ==> spec_changed(
            relative_path,
            size_bytes,
            Some(content),
            existing_hash,
        ) is None,
{
}

proof fn lemma_embedded_split(list: Seq<SymbolModel>, i: int)
    requires
        0 <= i < list.len(),
        wants_embedding(list[i]),
    ensures
        embedded(list.take(i)).len() < embedded(list).len(),
        embedded(list)[embedded(list.take(i)).len() as int] == list[i].name + " "@
            + list[i].signature,
    decreases list.len(),
{
    let front = list.drop_last();
    if i == list.len() - 1 {
        assert(list.take(i) =~= front);
    } else {
        assert(front.take(i) =~= list.take(i));
        lemma_embedded_split(front, i);
        assert(embedded(list)[embedded(list.take(i)).len() as int] == embedded(
            front,
        )[embedded(list.take(i)).len() as int]);
    }
}

proof fn lemma_all_embedded_split(lists: Seq<Seq<SymbolModel>>, f: int)
    requires
        0 <= f < lists.len(),
    ensures
        all_embedded(lists.take(f)).len() + embedded(lists[f]).len() <= all_embedded(lists).len(),
        forall|k: int|
            0 <= k < embedded(lists[f]).len() ==> all_embedded(lists)[all_embedded(
                lists.take(f),
            ).len() + k] == #[trigger] embedded(lists[f])[k],
    decreases lists.len(),
{
    let front = lists.drop_last();
    if f == lists.len() - 1 {
        assert(lists.take(f) =~= front);
    } else {
        assert(front.take(f) =~= lists.take(f));
        assert(front[f] == lists[f]);
        lemma_all_embedded_split(front, f);
        assert forall|k: int| 0 <= k < embedded(lists[f]).len() implies all_embedded(
            lists,
        )[all_embedded(lists.take(f)).len() + k] == #[trigger] embedded(lists[f])[k] by {
            let at = all_embedded(lists.take(f)).len() + k;
            assert(all_embedded(front)[at] == embedded(front[f])[k]);
            assert(all_embedded(lists)[at] == all_embedded(front)[at]);
        }
    }
}

/// The embedding of a symbol is the one of its own name and signature: the index that a plan
/// gives it is that of this text.
pub proof fn law_symbols_get_their_own_embedding(
    plan: StorePlan,
    files: Seq<PendingModel>,
    lists: Seq<Seq<SymbolModel>>,
    f: int,
    s: int,
)
    requires
        files.len() == lists.len(),
        plans(plan, files, lists),
        0 <= f < files.len(),
        0 <= s < lists[f].len(),
    ensures
        s < plan.files@[f].symbols@.len(),
        match plan.files@[f].symbols@[s].embed_index {
            Some(i) => wants_embedding(lists[f][s]) && i < plan.embed_texts@.len()
                && plan.embed_texts@[i as int]@ == lists[f][s].name + " "@
                + lists[f][s].signature,
            None => !wants_embedding(lists[f][s]),
        },
{
    let list = lists[f];
    let base = all_embedded(lists.take(f)).len();
    let symbols = planned(plan.files@[f].symbols@);
    assert(file_planned(plan.files@[f], files[f], lists, f));
    assert(symbols == plan_symbols(list, base));
    assert(symbols.len() == list.len());
    assert(symbols[s] == plan.files@[f].symbols@[s]@);
    assert(symbols[s] == plan_symbols(list, base)[s]);
    if wants_embedding(list[s]) {
        let k = embedded(list.take(s)).len() as int;
        lemma_embedded_split(list, s);
        lemma_all_embedded_split(lists, f);
        assert(all_embedded(lists)[base + k] == embedded(lists[f])[k]);
        assert(text::texts(plan.embed_texts@)[base + k] == plan.embed_texts@[base + k]@);
    }
}

/// A file that a run looks at: the file, its content, if it can be read, and the hash that it
/// was indexed with, if it was.
pub type Look = (FileModel, Option<Seq<char>>, Option<Seq<char>>);

/// A run through files.
pub open spec fn run_through(looks: Seq<Look>, files_total: nat) -> RunModel
    decreases looks.len(),
{
    if looks.len() == 0 {
        run_start(files_total)
    } else {
        let l = looks.last();
        run_step(run_through(looks.drop_last(), files_total), l.0, l.1, l.2)
    }
}

/// The same files after a run: the hash of each that could be read is that of its content.
pub open spec fn indexed_looks(looks: Seq<Look>) -> Seq<Look> {
    looks.map_values(
        |l: Look|
            match l.1 {
                Some(c) => (l.0, l.1, Some(hash::spec_digest(c))),
                None => l,
            },
    )
}

proof fn lemma_run_counts(looks: Seq<Look>, files_total: nat)
    ensures
        run_through(looks, files_total).files_total == files_total,
        run_through(looks, files_total).to_index.len() + run_through(
            looks,
            files_total,
        ).files_skipped == looks.len(),
    decreases looks.len(),
{
    if looks.len() > 0 {
        lemma_run_counts(looks.drop_last(), files_total);
    }
}

proof fn lemma_second_run(looks: Seq<Look>, files_total: nat)
    ensures
        run_through(indexed_looks(looks), files_total).to_index.len() == 0,
    decreases looks.len(),
{
    if looks.len() > 0 {
        assert(indexed_looks(looks).drop_last() =~= indexed_looks(looks.drop_last()));
        lemma_second_run(looks.drop_last(), files_total);
    }
}

/// Every file of a run is indexed or skipped, and a second run over files that have not changed
/// since indexes nothing and skips all of them.
pub proof fn law_second_run_indexes_nothing(looks: Seq<Look>)
    requires
        looks.len() <= usize::MAX,
    ensures
        run_through(looks, looks.len()).to_index.len() + run_through(
            looks,
            looks.len(),
        ).files_skipped == looks.len(),
        run_through(indexed_looks(looks), looks.len()).to_index.len() == 0,
        nothing_indexed(run_through(indexed_looks(looks), looks.len())) == (IndexStats {
            files_total: looks.len() as usize,
            files_indexed: 0,
            files_skipped: looks.len() as usize,
            symbols_extracted: 0,
            embeddings_generated: 0,
        }),
{
    lemma_run_counts(looks, looks.len());
    lemma_run_counts(indexed_looks(looks), looks.len());
    lemma_second_run(looks, looks.len());
}

/// A symbol is embedded by its name and its signature where it has more than four lines, and not
/// otherwise.
pub proof fn law_long_symbols_are_embedded(list: Seq<SymbolModel>, s: SymbolModel)
    ensures
        s.end_line - s.start_line + 1 > 4 ==> embedded(list.push(s)) == embedded(list).push(
            s.name + " "@ + s.signature,
        ),
        s.end_line - s.start_line + 1 <= 4 ==> embedded(list.push(s)) == embedded(list),
{
    assert(list.push(s).drop_last() =~= list);
}

/// A plan keeps all that is known of its files: the number of their lines and, in their order, the
/// names, kinds, lines and signatures of their symbols. A file is embedded by its path and its
/// first five hundred characters.
pub proof fn law_plans_keep_what_is_known(
    plan: StorePlan,
    files: Seq<PendingModel>,
    lists: Seq<Seq<SymbolModel>>,
    f: int,
    s: int,
)
    requires
        files.len() == lists.len(),
        plans(plan, files, lists),
        0 <= f < files.len(),
    ensures
        plan.files@.len() == files.len(),
        plan.files@[f].line_count == text::spec_lines(files[f].content).len(),
        plan.files@[f].symbols@.len() == lists[f].len(),
        0 <= s < lists[f].len() ==> {
            let p = plan.files@[f].symbols@[s];
            let known = lists[f][s];
            &&& p.name@ == known.name && p.signature@ == known.signature
            &&& p.kind@ == symbol_extractor::spec_label(known.kind)
            &&& p.start_line == known.start_line && p.end_line == known.end_line
        },
        plan.summaries@.len() == files.len(),
        plan.summaries@[f]@ == files[f].relative_path + " "@ + (if files[f].content.len() <= 500 {
            files[f].content
        } else {
            files[f].content.take(500)
        }),
{
    assert(file_planned(plan.files@[f], files[f], lists, f));
    let texts = text::texts(plan.summaries@);
    assert(texts.len() == files.len());
    assert(texts[f] == plan.summaries@[f]@);
    let kept = planned(plan.files@[f].symbols@);
    assert(kept.len() == lists[f].len());
    if 0 <= s < lists[f].len() {
        assert(kept[s] == plan.files@[f].symbols@[s]@);
    }
}

/// A file that was read and does not have the hash of its content is to be indexed with all that is
/// known of it; a file that could not be read is not. A change is looked at only in source files.
pub proof fn law_changed_files_are_indexed(
    relative_path: Seq<char>,
    extension: Seq<char>,
    size_bytes: u64,
    content: Seq<char>,
    existing_hash: Option<Seq<char>>,
)
    requires
        existing_hash != Some(hash::spec_digest(content)),
    ensures
        spec_pending(relative_path, extension, size_bytes, Some(content), existing_hash) == Some(
            PendingModel {
                relative_path,
                extension,
                size_bytes,
                content,
                content_hash: hash::spec_digest(content),
            },
        ),
        spec_pending(relative_path, extension, size_bytes, None, existing_hash) is None,
        config::source_extension(path::extension_or_empty(relative_path)) ==> spec_changed(
            relative_path,
            size_bytes,
            Some(content),
            existing_hash,
        ) == spec_pending(
            relative_path,
            path::extension_or_empty(relative_path),
            size_bytes,
            Some(content),
            existing_hash,
        ),
        !config::source_extension(path::extension_or_empty(relative_path)) ==> spec_changed(
            relative_path,
            size_bytes,
            Some(content),
            existing_hash,
        ) is None,
{
}

/// The files that are not to be indexed are all those whose path is not that of a file that is.
pub proof fn law_other_files_are_read_again(
    files: Seq<FileModel>,
    paths: Seq<Seq<char>>,
    k: int,
)
    requires
        0 <= k < files.len(),
    ensures
        others(files, paths).contains(k) <==> !paths.contains(files[k].relative_path),
    decreases files.len(),
{
    let rest = files.drop_last();
    let before = others(rest, paths);
    let all = others(files, paths);
    lemma_others_below(rest, paths);
    if k == files.len() - 1 {
        if !paths.contains(files[k].relative_path) {
            assert(all[before.len() as int] == k);
        }
    } else {
        law_other_files_are_read_again(rest, paths, k);
        assert(rest[k] == files[k]);
        if before.contains(k) {
            let j = choose|j: int| 0 <= j < before.len() && before[j] == k;
            assert(all[j] == k);
        }
        if all.contains(k) {
            let j = choose|j: int| 0 <= j < all.len() && all[j] == k;
            assert(before[j] == k);
        }
    }
}

proof fn lemma_others_below(files: Seq<FileModel>, paths: Seq<Seq<char>>)
    ensures
        forall|j: int|
            0 <= j < others(files, paths).len() ==> 0 <= #[trigger] others(files, paths)[j]
                < files.len(),
    decreases files.len(),
{
    if files.len() > 0 {
        let before = others(files.drop_last(), paths);
        let all = others(files, paths);
        lemma_others_below(files.drop_last(), paths);
        assert forall|j: int| 0 <= j < all.len() implies 0 <= #[trigger] all[j] < files.len() by {
            if j < before.len() {
                assert(all[j] == before[j]);
            }
        }
    }
}

/// The symbols of a file are those that are extracted from it where its language has a grammar, and
/// none where it has none or is too large to parse.
pub proof fn law_symbols_of_files(content: Seq<char>, extension: Seq<char>, r: Seq<SymbolModel>)
    requires
        lists_symbols(content, extension, r),
    ensures
        !config::ast_extension(extension) ==> r.len() == 0,
        config::ast_extension(extension) ==> symbol_extractor::extracts(
            content,
            extension,
            Some(r),
        ) || (symbol_extractor::extracts(content, extension, None) && r.len() == 0),
{
}

} // verus!
