//! Syntax trees as lists of nodes.
//!
//! A tree is read out of the parser in preorder: each node with its kind, the field under
//! which its parent holds it, its depth and its place in the source. The children of a node are
//! the nodes one level deeper that follow it before the next node that is not deeper than
//! itself.

use crate::text;
use crate::width;
use vstd::prelude::*;

verus! {

/// A grammar that source code can be parsed with.
#[derive(Debug, Clone, Copy, PartialEq, Eq, Structural)]
pub enum Grammar {
    JavaScript,
    TypeScript,
    Tsx,
    Python,
    Rust,
    Go,
    C,
    Cpp,
}

// ── The parser ───────────────────────────────────────────────────────

/// A syntax tree of the parser.
#[verifier::external_type_specification]
#[verifier::external_body]
pub struct ExTree(tree_sitter::Tree);

/// The parser's refusal of a grammar that was made for another version of it.
#[verifier::external_type_specification]
#[verifier::external_body]
pub struct ExLanguageError(tree_sitter::LanguageError);

/// A node as the parser gives it: its place is counted in bytes.
#[derive(Debug)]
pub struct RawNode {
    pub kind: String,
    pub field: Option<String>,
    pub depth: usize,
    pub start_byte: usize,
    pub end_byte: usize,
}

/// The value of a `RawNode`.
pub struct RawModel {
    pub kind: Seq<char>,
    pub field: Option<Seq<char>>,
    pub depth: nat,
    pub start_byte: nat,
    pub end_byte: nat,
}

/// The text of an optional string.
pub open spec fn text_of_option(s: Option<String>) -> Option<Seq<char>> {
    match s {
        Some(t) => Some(t@),
        None => None,
    }
}

impl View for RawNode {
    type V = RawModel;

    open spec fn view(&self) -> RawModel {
        RawModel {
            kind: self.kind@,
            field: text_of_option(self.field),
            depth: self.depth as nat,
            start_byte: self.start_byte as nat,
            end_byte: self.end_byte as nat,
        }
    }
}

/// The nodes of a tree, in preorder, as the parser's cursor visits them.
pub uninterp spec fn tree_nodes(tree: tree_sitter::Tree) -> Seq<RawModel>;

/// Whether the parser can give these nodes for a text and a grammar. The scanners of some
/// grammars ask the C library of the host what kind of character they see, so the nodes of a
/// text may differ from one host to another: this holds of all that some host gives.
pub uninterp spec fn may_parse(source: Seq<char>, grammar: Grammar, nodes: Seq<RawModel>) -> bool;

/// `Parser::set_language` and `Parser::parse` on a new parser without an older tree. There is a
/// tree: each grammar has a version that the parser takes, and the parser gives up only on a
/// timeout or a cancellation flag, which a new one does not have. The nodes of the tree are
/// among those that the text and the grammar can give; which of them they are is not stated.
/// Positions have 32 bits in the parser.
#[verifier::external_body]
fn parse(source: &str, grammar: Grammar) -> (r: Result<
    Option<tree_sitter::Tree>,
    tree_sitter::LanguageError,
>)
    requires
        width::bytes_of(source@) < 0x1_0000_0000,
    ensures
        match r {
            Ok(Some(tree)) => may_parse(source@, grammar, tree_nodes(tree)),
            _ => false,
        },
{
    let language: tree_sitter::Language = match grammar {
        Grammar::JavaScript => tree_sitter_javascript::LANGUAGE.into(),
        Grammar::TypeScript => tree_sitter_typescript::LANGUAGE_TYPESCRIPT.into(),
        Grammar::Tsx => tree_sitter_typescript::LANGUAGE_TSX.into(),
        Grammar::Python => tree_sitter_python::LANGUAGE.into(),
        Grammar::Rust => tree_sitter_rust::LANGUAGE.into(),
        Grammar::Go => tree_sitter_go::LANGUAGE.into(),
        Grammar::C => tree_sitter_c::LANGUAGE.into(),
        Grammar::Cpp => tree_sitter_cpp::LANGUAGE.into(),
    };
    let mut parser = tree_sitter::Parser::new();
    parser.set_language(&language)?;
    Ok(parser.parse(source, None))
}

/// `Node::descendant_count` of the root: how many nodes the cursor visits, the root among
/// them.
#[verifier::external_body]
fn node_count(tree: &tree_sitter::Tree) -> (r: usize)
    ensures
        r == tree_nodes(*tree).len(),
{
    tree.root_node().descendant_count()
}

/// `TreeCursor::goto_descendant` from the root, and what the cursor and its node say there:
/// `TreeCursor::depth` and `field_name`, `Node::kind` and byte range.
#[verifier::external_body]
fn node_at(tree: &tree_sitter::Tree, i: usize) -> (r: RawNode)
    requires
        i < tree_nodes(*tree).len(),
    ensures
        r@ == tree_nodes(*tree)[i as int],
{
    let mut cursor = tree.walk();
    cursor.goto_descendant(i);
    let node = cursor.node();
    RawNode {
        kind: node.kind().to_string(),
        field: cursor.field_name().map(str::to_string),
        depth: cursor.depth() as usize,
        start_byte: node.start_byte(),
        end_byte: node.end_byte(),
    }
}

/// The values of a list of nodes.
pub open spec fn raw_models(nodes: Seq<RawNode>) -> Seq<RawModel> {
    nodes.map_values(|n: RawNode| n@)
}

/// Why there is no list of nodes.
#[derive(Debug, Clone, Copy, PartialEq, Eq, Structural)]
pub enum SyntaxError {
    /// The parser does not take the grammar.
    IncompatibleGrammar,
    /// The parser gave up.
    ParseFailed,
    /// The source has more bytes than the parser can count.
    TooLarge,
}

/// From how many bytes on a source is too large for the parser: its positions have 32 bits.
pub const MAX_SOURCE_BYTES: usize = 0xffff_ffff;

/// The nodes of the syntax tree of a text, unless it is too large.
pub fn raw_nodes(source: &str, grammar: Grammar) -> (r: Result<Vec<RawNode>, SyntaxError>)
    ensures
        match r {
            Ok(nodes) => width::bytes_of(source@) < MAX_SOURCE_BYTES && may_parse(
                source@,
                grammar,
                raw_models(nodes@),
            ),
            Err(e) => width::bytes_of(source@) >= MAX_SOURCE_BYTES && e == SyntaxError::TooLarge,
        },
{
    if width::byte_len(source) >= MAX_SOURCE_BYTES {
        return Err(SyntaxError::TooLarge);
    }
    let tree = match parse(source, grammar) {
        Ok(Some(tree)) => tree,
        Ok(None) => {
            return Err(SyntaxError::ParseFailed);
        },
        Err(_) => {
            return Err(SyntaxError::IncompatibleGrammar);
        },
    };
    let n: usize = node_count(&tree);
    let mut out: Vec<RawNode> = Vec::new();
    for i in 0..n
        invariant
            n == tree_nodes(tree).len(),
            may_parse(source@, grammar, tree_nodes(tree)),
            raw_models(out@) == tree_nodes(tree).take(i as int),
    {
        let ghost done = raw_models(out@);
        let node = node_at(&tree, i);
        out.push(node);
        assert(raw_models(out@) =~= done.push(node@));
        assert(done.push(node@) =~= tree_nodes(tree).take(i + 1));
    }
    assert(tree_nodes(tree).take(n as int) =~= tree_nodes(tree));
    Ok(out)
}

// ── Placing nodes ────────────────────────────────────────────────────

/// A node whose place is counted in characters.
#[derive(Debug)]
pub struct Node {
    pub kind: String,
    pub field: Option<String>,
    pub depth: usize,
    pub start_row: usize,
    pub end_row: usize,
    pub start: usize,
    pub end: usize,
}

/// The value of a `Node`.
pub struct NodeModel {
    pub kind: Seq<char>,
    pub field: Option<Seq<char>>,
    pub depth: nat,
    pub start_row: nat,
    pub end_row: nat,
    pub start: nat,
    pub end: nat,
}

impl View for Node {
    type V = NodeModel;

    open spec fn view(&self) -> NodeModel {
        NodeModel {
            kind: self.kind@,
            field: text_of_option(self.field),
            depth: self.depth as nat,
            start_row: self.start_row as nat,
            end_row: self.end_row as nat,
            start: self.start as nat,
            end: self.end as nat,
        }
    }
}

/// The values of a list of nodes.
pub open spec fn models(nodes: Seq<Node>) -> Seq<NodeModel> {
    nodes.map_values(|n: Node| n@)
}

/// How many line feeds a text has.
pub open spec fn newlines(s: Seq<char>) -> nat
    decreases s.len(),
{
    if s.len() == 0 {
        0
    } else {
        newlines(s.drop_last()) + if s.last() == '\n' {
            1nat
        } else {
            0
        }
    }
}

/// A text has no more line feeds than characters.
pub proof fn lemma_newlines(s: Seq<char>)
    ensures
        newlines(s) <= s.len(),
    decreases s.len(),
{
    if s.len() > 0 {
        lemma_newlines(s.drop_last());
    }
}

/// The node with its place counted in characters of the source. Its rows are counted by the line
/// feeds before its start and before its end.
pub open spec fn placed(source: Seq<char>, n: RawModel) -> NodeModel {
    let start = width::fitting(source, n.start_byte);
    let end = if n.end_byte < n.start_byte {
        start
    } else {
        width::fitting(source, n.end_byte)
    };
    NodeModel {
        kind: n.kind,
        field: n.field,
        depth: n.depth,
        start_row: newlines(source.take(start as int)),
        end_row: newlines(source.take(end as int)),
        start,
        end,
    }
}

/// The nodes with their places counted in characters.
pub open spec fn spec_place(source: Seq<char>, nodes: Seq<RawModel>) -> Seq<NodeModel> {
    nodes.map_values(|n: RawModel| placed(source, n))
}

/// Whether every node lies within a text of `len` characters and `rows` line feeds.
pub open spec fn within(nodes: Seq<NodeModel>, len: nat, rows: nat) -> bool {
    forall|i: int|
        0 <= i < nodes.len() ==> (#[trigger] nodes[i]).start <= nodes[i].end <= len
            && nodes[i].start_row <= nodes[i].end_row <= rows
}

/// Longer prefixes have more bytes.
proof fn lemma_prefix_bytes(s: Seq<char>, a: int, b: int)
    requires
        0 <= a < b <= s.len(),
    ensures
        width::bytes_of(s.take(a)) < width::bytes_of(s.take(b)),
{
    let rest = s.subrange(a, b);
    assert(s.take(b) =~= s.take(a) + rest);
    width::lemma_encode_concat(s.take(a), rest);
    width::lemma_bytes_at_least_chars(rest);
}

/// Where character `i` covers byte `at`, `i` characters fit before it.
proof fn lemma_covered(s: Seq<char>, i: int, at: nat)
    requires
        0 <= i < s.len(),
        width::bytes_of(s.take(i)) <= at < width::bytes_of(s.take(i + 1)),
    ensures
        width::fitting(s, at) == i,
{
    width::lemma_fitting(s, at);
    let f = width::fitting(s, at) as int;
    if f > i + 1 {
        lemma_prefix_bytes(s, i + 1, f);
    }
}

/// A longer prefix has no fewer line feeds.
proof fn lemma_rows_rise(s: Seq<char>, a: int, b: int)
    requires
        0 <= a <= b <= s.len(),
    ensures
        newlines(s.take(a)) <= newlines(s.take(b)),
    decreases b,
{
    if a < b {
        lemma_rows_rise(s, a, b - 1);
        assert(s.take(b).drop_last() =~= s.take(b - 1));
    }
}

/// More bytes hold no fewer characters.
proof fn lemma_fitting_rises(s: Seq<char>, a: nat, b: nat)
    requires
        a <= b,
    ensures
        width::fitting(s, a) <= width::fitting(s, b),
{
    width::lemma_fitting(s, a);
    width::lemma_fitting(s, b);
}

/// For each byte of a text, and its end, the number of characters that fit before it.
fn byte_index(s: &[char]) -> (r: Vec<usize>)
    requires
        width::bytes_of(s@) < usize::MAX,
    ensures
        r@.len() == width::bytes_of(s@) + 1,
        forall|b: int| 0 <= b < r@.len() ==> #[trigger] r@[b] == width::fitting(s@, b as nat),
{
    let n: usize = s.len();
    let mut out: Vec<usize> = Vec::new();
    assert(s@.take(0) =~= Seq::empty());
    assert(width::bytes_of(s@.take(0)) == 0) by {
        width::lemma_bytes_at_least_chars(s@.take(0));
    }
    for i in 0..n
        invariant
            n == s@.len(),
            width::bytes_of(s@) < usize::MAX,
            out@.len() == width::bytes_of(s@.take(i as int)),
            forall|b: int|
                0 <= b < out@.len() ==> #[trigger] out@[b] == width::fitting(s@, b as nat),
    {
        let w = width::char_width(s[i]);
        let ghost base = width::bytes_of(s@.take(i as int));
        proof {
            assert(s@.take(i + 1) =~= s@.take(i as int) + seq![s@[i as int]]);
            width::lemma_encode_concat(s@.take(i as int), seq![s@[i as int]]);
            width::lemma_single(s@[i as int]);
        }
        for j in 0..w
            invariant
                n == s@.len(),
                i < n,
                base == width::bytes_of(s@.take(i as int)),
                width::bytes_of(s@.take(i + 1)) == base + w,
                out@.len() == base + j,
                forall|b: int|
                    0 <= b < out@.len() ==> #[trigger] out@[b] == width::fitting(s@, b as nat),
        {
            proof {
                lemma_covered(s@, i as int, (base + j) as nat);
            }
            out.push(i);
        }
    }
    assert(s@.take(n as int) =~= s@);
    proof {
        width::lemma_fitting_whole(s@, width::bytes_of(s@));
    }
    out.push(n);
    out
}

/// For each character of a text, and its end, the number of line feeds before it.
fn row_index(s: &[char]) -> (r: Vec<usize>)
    ensures
        r@.len() == s@.len() + 1,
        forall|k: int| 0 <= k < r@.len() ==> #[trigger] r@[k] == newlines(s@.take(k)),
{
    let n: usize = s.len();
    let mut count: usize = 0;
    let mut out: Vec<usize> = Vec::new();
    assert(s@.take(0) =~= Seq::empty());
    for i in 0..n
        invariant
            n == s@.len(),
            count <= i,
            count == newlines(s@.take(i as int)),
            out@.len() == i,
            forall|k: int| 0 <= k < i ==> #[trigger] out@[k] == newlines(s@.take(k)),
    {
        out.push(count);
        assert(s@.take(i + 1).drop_last() =~= s@.take(i as int));
        if s[i] == '\n' {
            count = count + 1;
        }
    }
    out.push(count);
    out
}

/// How many characters of a text fit before a byte, given its index.
fn look_up(Ghost(s): Ghost<Seq<char>>, index: &Vec<usize>, at: usize) -> (r: usize)
    requires
        index@.len() == width::bytes_of(s) + 1,
        forall|b: int|
            0 <= b < index@.len() ==> #[trigger] index@[b] == width::fitting(s, b as nat),
    ensures
        r == width::fitting(s, at as nat),
        r <= s.len(),
{
    proof {
        width::lemma_fitting(s, at as nat);
        if at >= index@.len() {
            width::lemma_fitting_whole(s, at as nat);
            width::lemma_fitting_whole(s, (index@.len() - 1) as nat);
        }
    }
    if at < index.len() {
        index[at]
    } else {
        index[index.len() - 1]
    }
}

/// The nodes with their places counted in characters of the source.
pub fn place(source: &[char], nodes: &[RawNode]) -> (r: Vec<Node>)
    requires
        width::bytes_of(source@) < usize::MAX,
    ensures
        models(r@) == spec_place(source@, raw_models(nodes@)),
        within(models(r@), source@.len(), newlines(source@)),
{
    let index = byte_index(source);
    let rows = row_index(source);
    let ghost raws = raw_models(nodes@);
    let mut out: Vec<Node> = Vec::new();
    assert(source@.take(source@.len() as int) =~= source@);
    assert(models(out@) =~= spec_place(source@, raws.take(0)));
    for i in 0..nodes.len()
        invariant
            raws == raw_models(nodes@),
            source@.take(source@.len() as int) == source@,
            index@.len() == width::bytes_of(source@) + 1,
            forall|b: int|
                0 <= b < index@.len() ==> #[trigger] index@[b] == width::fitting(
                    source@,
                    b as nat,
                ),
            rows@.len() == source@.len() + 1,
            forall|k: int| 0 <= k < rows@.len() ==> #[trigger] rows@[k] == newlines(source@.take(k)),
            models(out@) == spec_place(source@, raws.take(i as int)),
            within(models(out@), source@.len(), newlines(source@)),
    {
        let node = &nodes[i];
        let start: usize = look_up(Ghost(source@), &index, node.start_byte);
        let end: usize = if node.end_byte < node.start_byte {
            start
        } else {
            proof {
                lemma_fitting_rises(source@, node.start_byte as nat, node.end_byte as nat);
            }
            look_up(Ghost(source@), &index, node.end_byte)
        };
        proof {
            lemma_rows_rise(source@, start as int, end as int);
            lemma_rows_rise(source@, end as int, source@.len() as int);
        }
        let ghost done = models(out@);
        let made = Node {
            kind: node.kind.clone(),
            field: copy_option(&node.field),
            depth: node.depth,
            start_row: rows[start],
            end_row: rows[end],
            start,
            end,
        };
        assert(raws[i as int] == node@);
        assert(made@ == placed(source@, raws[i as int]));
        out.push(made);
        assert(models(out@) =~= done.push(made@));
        assert(models(out@) =~= spec_place(source@, raws.take(i + 1)));
    }
    assert(raws.take(raws.len() as int) =~= raws);
    out
}

fn copy_option(s: &Option<String>) -> (r: Option<String>)
    ensures
        text_of_option(r) == text_of_option(*s),
{
    match s {
        Some(t) => Some(t.clone()),
        None => None,
    }
}

/// Whether `r` are placed nodes that a text and a grammar can give. There are none only where
/// the text is too large.
pub open spec fn gives_nodes(
    source: Seq<char>,
    grammar: Grammar,
    r: Result<Seq<NodeModel>, SyntaxError>,
) -> bool {
    if width::bytes_of(source) >= MAX_SOURCE_BYTES {
        r == Err::<Seq<NodeModel>, _>(SyntaxError::TooLarge)
    } else {
        exists|raws: Seq<RawModel>| #[trigger]
            may_parse(source, grammar, raws) && r == Ok::<_, SyntaxError>(
                spec_place(source, raws),
            )
    }
}

/// The outcome of a parse with the values of its nodes.
pub open spec fn outcome(r: Result<Vec<Node>, SyntaxError>) -> Result<
    Seq<NodeModel>,
    SyntaxError,
> {
    match r {
        Ok(nodes) => Ok(models(nodes@)),
        Err(e) => Err(e),
    }
}

/// The placed nodes of the syntax tree of a text, unless it is too large.
pub fn nodes_of(source: &str, chars: &[char], grammar: Grammar) -> (r: Result<
    Vec<Node>,
    SyntaxError,
>)
    requires
        chars@ == source@,
    ensures
        gives_nodes(source@, grammar, outcome(r)),
        r matches Ok(nodes) ==> within(models(nodes@), chars@.len(), newlines(chars@))
            && chars@.len() < usize::MAX,
{
    proof {
        width::lemma_bytes_at_least_chars(source@);
    }
    match raw_nodes(source, grammar) {
        Ok(raws) => Ok(place(chars, raws.as_slice())),
        Err(e) => Err(e),
    }
}

// ── Children ─────────────────────────────────────────────────────────

/// The children of node `i` from node `j` on.
pub open spec fn children_from(nodes: Seq<NodeModel>, i: int, j: int) -> Seq<int>
    decreases nodes.len() - j,
{
    if j >= nodes.len() || nodes[j].depth <= nodes[i].depth {
        Seq::empty()
    } else if nodes[j].depth == nodes[i].depth + 1 {
        seq![j] + children_from(nodes, i, j + 1)
    } else {
        children_from(nodes, i, j + 1)
    }
}

/// The children of a node.
pub open spec fn spec_children(nodes: Seq<NodeModel>, i: int) -> Seq<int> {
    children_from(nodes, i, i + 1)
}

/// The first node of a list that its parent holds under a field.
pub open spec fn first_with_field(
    nodes: Seq<NodeModel>,
    list: Seq<int>,
    field: Seq<char>,
) -> Option<int>
    decreases list.len(),
{
    if list.len() == 0 {
        None
    } else if nodes[list[0]].field == Some(field) {
        Some(list[0])
    } else {
        first_with_field(nodes, list.drop_first(), field)
    }
}

/// The first child that a node holds under a field.
pub open spec fn spec_field_child(nodes: Seq<NodeModel>, i: int, field: Seq<char>) -> Option<int> {
    first_with_field(nodes, spec_children(nodes, i), field)
}

/// The text of a node.
pub open spec fn node_text(chars: Seq<char>, nodes: Seq<NodeModel>, i: int) -> Seq<char> {
    chars.subrange(nodes[i].start as int, nodes[i].end as int)
}

/// Children come after their parent.
pub proof fn lemma_children_from(nodes: Seq<NodeModel>, i: int, j: int)
    requires
        0 <= i < j,
    ensures
        forall|k: int|
            0 <= k < children_from(nodes, i, j).len() ==> j <= #[trigger] children_from(
                nodes,
                i,
                j,
            )[k] < nodes.len(),
    decreases nodes.len() - j,
{
    if j < nodes.len() && nodes[j].depth > nodes[i].depth {
        lemma_children_from(nodes, i, j + 1);
        let rest = children_from(nodes, i, j + 1);
        if nodes[j].depth == nodes[i].depth + 1 {
            assert forall|k: int| 0 <= k < children_from(nodes, i, j).len() implies j
                <= #[trigger] children_from(nodes, i, j)[k] < nodes.len() by {
                if k > 0 {
                    assert(children_from(nodes, i, j)[k] == rest[k - 1]);
                }
            }
        }
    }
}

/// A list of indices as integers of the specification.
pub open spec fn ints(v: Seq<usize>) -> Seq<int> {
    v.map_values(|x: usize| x as int)
}

/// The children of a node.
pub fn children(nodes: &[Node], i: usize) -> (r: Vec<usize>)
    requires
        i < nodes@.len(),
    ensures
        ints(r@) == spec_children(models(nodes@), i as int),
        forall|k: int| 0 <= k < r@.len() ==> i < #[trigger] r@[k] < nodes@.len(),
{
    let ghost all = models(nodes@);
    let n: usize = nodes.len();
    let depth: usize = nodes[i].depth;
    let mut out: Vec<usize> = Vec::new();
    let mut j: usize = i + 1;
    assert(ints(out@) + children_from(all, i as int, j as int) =~= spec_children(all, i as int));
    while j < n && nodes[j].depth > depth
        invariant
            all == models(nodes@),
            n == nodes@.len(),
            i < j <= n,
            depth == all[i as int].depth,
            ints(out@) + children_from(all, i as int, j as int) == spec_children(all, i as int),
        decreases n - j,
    {
        let ghost done = ints(out@);
        assert(all[j as int] == nodes@[j as int]@);
        if nodes[j].depth - depth == 1 {
            out.push(j);
            assert(ints(out@) =~= done.push(j as int));
            assert(done + (seq![j as int] + children_from(all, i as int, j + 1)) =~= ints(out@)
                + children_from(all, i as int, j + 1));
        }
        j = j + 1;
    }
    proof {
        if j < n {
            assert(all[j as int] == nodes@[j as int]@);
        }
        assert(ints(out@) + children_from(all, i as int, j as int) =~= ints(out@));
        lemma_children_from(all, i as int, i + 1);
        assert forall|k: int| 0 <= k < out@.len() implies i < #[trigger] out@[k] < nodes@.len() by {
            assert(ints(out@)[k] == spec_children(all, i as int)[k]);
        }
    }
    out
}

fn field_is(node: &Node, field: &str) -> (r: bool)
    ensures
        r == (node@.field == Some(field@)),
{
    match &node.field {
        Some(f) => text::same(f.as_str(), field),
        None => false,
    }
}

/// The first child that a node holds under a field.
pub fn field_child(nodes: &[Node], i: usize, field: &str) -> (r: Option<usize>)
    requires
        i < nodes@.len(),
    ensures
        match r {
            Some(k) => spec_field_child(models(nodes@), i as int, field@) == Some(k as int) && i
                < k < nodes@.len(),
            None => spec_field_child(models(nodes@), i as int, field@) is None,
        },
{
    let list = children(nodes, i);
    let ghost all = models(nodes@);
    let ghost whole = ints(list@);
    assert(whole.skip(0) =~= whole);
    for k in 0..list.len()
        invariant
            all == models(nodes@),
            whole == ints(list@),
            whole == spec_children(all, i as int),
            forall|k: int| 0 <= k < list@.len() ==> i < #[trigger] list@[k] < nodes@.len(),
            spec_field_child(all, i as int, field@) == first_with_field(
                all,
                whole.skip(k as int),
                field@,
            ),
    {
        let c: usize = list[k];
        proof {
            assert(whole.skip(k as int)[0] == c);
            assert(all[c as int] == nodes@[c as int]@);
            assert(whole.skip(k as int).drop_first() =~= whole.skip(k + 1));
        }
        if field_is(&nodes[c], field) {
            return Some(c);
        }
    }
    None
}

/// Whether node `c` is a child of node `i`: one level below it, with nothing between them that
/// is not inside it.
pub open spec fn child_of(nodes: Seq<NodeModel>, i: int, c: int) -> bool {
    0 <= i < c < nodes.len() && nodes[c].depth == nodes[i].depth + 1 && forall|k: int|
        i < k <= c ==> nodes[i].depth < (#[trigger] nodes[k]).depth
}

/// Whether node `n` is the first child that node `i` holds under a field.
pub open spec fn holds_first(nodes: Seq<NodeModel>, i: int, field: Seq<char>, n: int) -> bool {
    child_of(nodes, i, n) && nodes[n].field == Some(field) && forall|k: int|
        i < k < n && #[trigger] child_of(nodes, i, k) ==> nodes[k].field != Some(field)
}

proof fn lemma_children_are(nodes: Seq<NodeModel>, i: int, j: int)
    requires
        0 <= i < j <= nodes.len(),
        forall|k: int| i < k < j ==> nodes[i].depth < (#[trigger] nodes[k]).depth,
    ensures
        forall|c: int| #[trigger]
            children_from(nodes, i, j).contains(c) <==> j <= c && child_of(nodes, i, c),
        forall|a: int, b: int|
            #![trigger children_from(nodes, i, j)[a], children_from(nodes, i, j)[b]]
            0 <= a < b < children_from(nodes, i, j).len() ==> children_from(nodes, i, j)[a]
                < children_from(nodes, i, j)[b],
    decreases nodes.len() - j,
{
    let all = children_from(nodes, i, j);
    if j >= nodes.len() || nodes[j].depth <= nodes[i].depth {
        assert forall|c: int| #[trigger] all.contains(c) <==> j <= c && child_of(nodes, i, c) by {
            if j <= c && child_of(nodes, i, c) {
                assert(nodes[i].depth < nodes[j].depth);
            }
        }
    } else {
        lemma_children_are(nodes, i, j + 1);
        lemma_children_from(nodes, i, j + 1);
        let rest = children_from(nodes, i, j + 1);
        if nodes[j].depth == nodes[i].depth + 1 {
            assert(all =~= seq![j] + rest);
            assert(child_of(nodes, i, j));
            assert forall|c: int| #[trigger] all.contains(c) <==> j <= c && child_of(
                nodes,
                i,
                c,
            ) by {
                if all.contains(c) {
                    let k = choose|k: int| 0 <= k < all.len() && all[k] == c;
                    if k > 0 {
                        assert(rest[k - 1] == c);
                        assert(rest.contains(c));
                    }
                }
                if j <= c && child_of(nodes, i, c) {
                    if c == j {
                        assert(all[0] == c);
                    } else {
                        assert(rest.contains(c));
                        let k = choose|k: int| 0 <= k < rest.len() && rest[k] == c;
                        assert(all[k + 1] == c);
                    }
                }
            }
            assert forall|a: int, b: int|
                #![trigger all[a], all[b]]
                0 <= a < b < all.len() implies all[a] < all[b] by {
                assert(all[b] == rest[b - 1]);
                if a > 0 {
                    assert(all[a] == rest[a - 1]);
                }
            }
        } else {
            assert forall|c: int| #[trigger] all.contains(c) <==> j <= c && child_of(
                nodes,
                i,
                c,
            ) by {
                assert(!child_of(nodes, i, j));
                assert(rest.contains(c) <==> j + 1 <= c && child_of(nodes, i, c));
            }
        }
    }
}

/// The children of a node are the nodes one level below it that lie inside it, in the order of
/// the text, each once.
pub proof fn law_children(nodes: Seq<NodeModel>, i: int)
    requires
        0 <= i < nodes.len(),
    ensures
        forall|c: int| #[trigger] spec_children(nodes, i).contains(c) <==> child_of(nodes, i, c),
        forall|a: int, b: int|
            #![trigger spec_children(nodes, i)[a], spec_children(nodes, i)[b]]
            0 <= a < b < spec_children(nodes, i).len() ==> spec_children(nodes, i)[a]
                < spec_children(nodes, i)[b],
{
    lemma_children_are(nodes, i, i + 1);
}

proof fn lemma_first_with_field(nodes: Seq<NodeModel>, list: Seq<int>, field: Seq<char>)
    requires
        forall|a: int, b: int|
            #![trigger list[a], list[b]]
            0 <= a < b < list.len() ==> list[a] < list[b],
    ensures
        match first_with_field(nodes, list, field) {
            Some(n) => list.contains(n) && nodes[n].field == Some(field) && forall|k: int|
                #[trigger] list.contains(k) && k < n ==> nodes[k].field != Some(field),
            None => forall|k: int| #[trigger] list.contains(k) ==> nodes[k].field != Some(field),
        },
    decreases list.len(),
{
    if list.len() > 0 {
        let rest = list.drop_first();
        if nodes[list[0]].field == Some(field) {
            assert(list.contains(list[0]));
            assert forall|k: int| #[trigger] list.contains(k) && k < list[0] implies nodes[k].field
                != Some(field) by {
                let a = choose|a: int| 0 <= a < list.len() && list[a] == k;
                assert(a > 0);
                assert(list[0] < list[a]);
            }
        } else {
            assert forall|a: int, b: int|
                #![trigger rest[a], rest[b]]
                0 <= a < b < rest.len() implies rest[a] < rest[b] by {
                assert(list[a + 1] < list[b + 1]);
            }
            lemma_first_with_field(nodes, rest, field);
            assert forall|k: int| #[trigger] list.contains(k) implies k == list[0]
                || rest.contains(k) by {
                let a = choose|a: int| 0 <= a < list.len() && list[a] == k;
                if a > 0 {
                    assert(rest[a - 1] == k);
                }
            }
            match first_with_field(nodes, rest, field) {
                Some(n) => {
                    let a = choose|a: int| 0 <= a < rest.len() && rest[a] == n;
                    assert(list[a + 1] == n);
                },
                None => {},
            }
        }
    }
}

/// What a node holds under a field is the first of its children that carries the field, and
/// nothing where none of them does.
pub proof fn law_field_children(nodes: Seq<NodeModel>, i: int, field: Seq<char>, n: int)
    requires
        0 <= i < nodes.len(),
    ensures
        spec_field_child(nodes, i, field) == Some(n) <==> holds_first(nodes, i, field, n),
        spec_field_child(nodes, i, field) is None <==> (forall|k: int| #[trigger]
            child_of(nodes, i, k) ==> nodes[k].field != Some(field)),
        spec_field_child(nodes, i, field) matches Some(m) ==> holds_first(nodes, i, field, m),
{
    law_children(nodes, i);
    let list = spec_children(nodes, i);
    lemma_first_with_field(nodes, list, field);
    assert forall|k: int| #[trigger] child_of(nodes, i, k) implies list.contains(k) by {}
    match spec_field_child(nodes, i, field) {
        Some(m) => {
            assert(list.contains(m));
            assert(child_of(nodes, i, m));
            assert forall|k: int| i < k < m && #[trigger] child_of(nodes, i, k) implies nodes[k].field
                != Some(field) by {
                assert(list.contains(k));
            }
            assert(holds_first(nodes, i, field, m));
            if holds_first(nodes, i, field, n) {
                assert(list.contains(n));
                if n < m {
                    assert(nodes[n].field != Some(field));
                } else if m < n {
                    assert(nodes[m].field != Some(field));
                }
            }
        },
        None => {
            if holds_first(nodes, i, field, n) {
                assert(list.contains(n));
            }
        },
    }
}

proof fn lemma_fitting_prefix(a: Seq<char>, b: Seq<char>)
    ensures
        width::fitting(a + b, width::bytes_of(a)) == a.len(),
{
    let s = a + b;
    let n = width::fitting(s, width::bytes_of(a)) as int;
    width::lemma_fitting(s, width::bytes_of(a));
    assert(s.take(a.len() as int) =~= a);
    if n > a.len() {
        let more = s.subrange(a.len() as int, n);
        assert(s.take(n) =~= a + more);
        width::lemma_encode_concat(a, more);
        width::lemma_bytes_at_least_chars(more);
    }
}

/// A node whose bytes are those of a part of the text is placed at that part: it starts after
/// the characters before it, ends with it, and is on the rows that the line feeds before its
/// ends count. Its kind, field and depth stay as they are.
pub proof fn law_nodes_are_placed(a: Seq<char>, m: Seq<char>, b: Seq<char>, n: RawModel)
    requires
        n.start_byte == width::bytes_of(a),
        n.end_byte == width::bytes_of(a + m),
    ensures
        ({
            let p = placed(a + m + b, n);
            &&& p.start == a.len() && p.end == a.len() + m.len()
            &&& p.start_row == newlines(a) && p.end_row == newlines(a + m)
            &&& p.kind == n.kind && p.field == n.field && p.depth == n.depth
            &&& (a + m + b).subrange(p.start as int, p.end as int) == m
        }),
{
    let s = a + m + b;
    assert(s =~= a + (m + b));
    lemma_fitting_prefix(a, m + b);
    lemma_fitting_prefix(a + m, b);
    width::lemma_encode_concat(a, m);
    assert(s.take(a.len() as int) =~= a);
    assert(s.take((a + m).len() as int) =~= a + m);
    assert(s.subrange(a.len() as int, (a + m).len() as int) =~= m);
}

/// Rows are counted by line feeds alone.
pub proof fn law_rows(s: Seq<char>, c: char)
    ensures
        newlines(Seq::empty()) == 0,
        newlines(s.push('\n')) == newlines(s) + 1,
        c != '\n' ==> newlines(s.push(c)) == newlines(s),
{
    assert(s.push(c).drop_last() =~= s);
    assert(s.push('\n').drop_last() =~= s);
}

} // verus!
