//! Symbols of source code, read off its syntax tree.
//!
//! What a file defines is found among the children of the root of its tree: declarations by
//! the kind of their node, exports by looking inside them. For large functions the structure
//! of the body is found line by line where the tree does not show it.

use crate::indexer::config;
use crate::indexer::syntax;
use crate::indexer::syntax::{Grammar, Node, NodeModel, SyntaxError};
use crate::sort;
use crate::text;
use crate::width;
use vstd::prelude::*;
use vstd::slice::slice_subrange;

verus! {

/// A symbol extracted from source code via AST parsing.
#[derive(Debug, Clone)]
pub struct Symbol {
    pub name: String,
    pub kind: SymbolKind,
    pub start_line: usize,
    pub end_line: usize,
    pub signature: String,
    pub code: String,
}

/// What a symbol is.
#[derive(Debug, Clone, Copy, PartialEq, Eq, Structural)]
pub enum SymbolKind {
    Function,
    AsyncFunction,
    Class,
    Method,
    Interface,
    TypeAlias,
    Enum,
    Struct,
    Trait,
    Impl,
    Export,
    Constant,
}

/// The value of a `Symbol`.
pub struct SymbolModel {
    pub name: Seq<char>,
    pub kind: SymbolKind,
    pub start_line: nat,
    pub end_line: nat,
    pub signature: Seq<char>,
    pub code: Seq<char>,
}

impl View for Symbol {
    type V = SymbolModel;

    open spec fn view(&self) -> SymbolModel {
        SymbolModel {
            name: self.name@,
            kind: self.kind,
            start_line: self.start_line as nat,
            end_line: self.end_line as nat,
            signature: self.signature@,
            code: self.code@,
        }
    }
}

/// The values of a list of symbols.
pub open spec fn symbols(v: Seq<Symbol>) -> Seq<SymbolModel> {
    v.map_values(|s: Symbol| s@)
}

/// The name of a kind.
pub open spec fn spec_label(kind: SymbolKind) -> Seq<char> {
    match kind {
        SymbolKind::Function => "function"@,
        SymbolKind::AsyncFunction => "async function"@,
        SymbolKind::Class => "class"@,
        SymbolKind::Method => "method"@,
        SymbolKind::Interface => "interface"@,
        SymbolKind::TypeAlias => "type"@,
        SymbolKind::Enum => "enum"@,
        SymbolKind::Struct => "struct"@,
        SymbolKind::Trait => "trait"@,
        SymbolKind::Impl => "impl"@,
        SymbolKind::Export => "export"@,
        SymbolKind::Constant => "const"@,
    }
}

/// The short name of a kind.
pub open spec fn spec_short(kind: SymbolKind) -> Seq<char> {
    match kind {
        SymbolKind::Function => "fn"@,
        SymbolKind::AsyncFunction => "async fn"@,
        SymbolKind::Class => "class"@,
        SymbolKind::Method => "method"@,
        SymbolKind::Interface => "iface"@,
        SymbolKind::TypeAlias => "type"@,
        SymbolKind::Enum => "enum"@,
        SymbolKind::Struct => "struct"@,
        SymbolKind::Trait => "trait"@,
        SymbolKind::Impl => "impl"@,
        SymbolKind::Export => "export"@,
        SymbolKind::Constant => "const"@,
    }
}

impl SymbolKind {
    /// The name of the kind, as it is stored.
    pub fn label(&self) -> (r: &'static str)
        ensures
            r@ == spec_label(*self),
    {
        match self {
            SymbolKind::Function => "function",
            SymbolKind::AsyncFunction => "async function",
            SymbolKind::Class => "class",
            SymbolKind::Method => "method",
            SymbolKind::Interface => "interface",
            SymbolKind::TypeAlias => "type",
            SymbolKind::Enum => "enum",
            SymbolKind::Struct => "struct",
            SymbolKind::Trait => "trait",
            SymbolKind::Impl => "impl",
            SymbolKind::Export => "export",
            SymbolKind::Constant => "const",
        }
    }

    /// The short name of the kind, as it is shown.
    pub fn short(&self) -> (r: &'static str)
        ensures
            r@ == spec_short(*self),
    {
        match self {
            SymbolKind::Function => "fn",
            SymbolKind::AsyncFunction => "async fn",
            SymbolKind::Class => "class",
            SymbolKind::Method => "method",
            SymbolKind::Interface => "iface",
            SymbolKind::TypeAlias => "type",
            SymbolKind::Enum => "enum",
            SymbolKind::Struct => "struct",
            SymbolKind::Trait => "trait",
            SymbolKind::Impl => "impl",
            SymbolKind::Export => "export",
            SymbolKind::Constant => "const",
        }
    }
}

/// The short name for the stored name of a kind; any other text stands for itself.
pub open spec fn spec_abbreviate_kind(kind: Seq<char>) -> Seq<char> {
    if kind == "function"@ {
        "fn"@
    } else if kind == "async function"@ {
        "async fn"@
    } else if kind == "interface"@ {
        "iface"@
    } else {
        kind
    }
}

/// The short name for the stored name of a kind.
pub fn abbreviate_kind(kind: &str) -> (r: String)
    ensures
        r@ == spec_abbreviate_kind(kind@),
{
    if text::same(kind, "function") {
        text::owned("fn")
    } else if text::same(kind, "async function") {
        text::owned("async fn")
    } else if text::same(kind, "interface") {
        text::owned("iface")
    } else {
        text::owned(kind)
    }
}

// ── Extraction rules ─────────────────────────────────────────────────

/// A table of node kinds that define a symbol.
#[derive(Debug, Clone, Copy, PartialEq, Eq, Structural)]
pub enum Rules {
    JavaScript,
    TypeScriptExtra,
    Python,
    Rust,
    Go,
}

/// The kind of symbol that a node of some kind defines, and the field that holds its name.
pub open spec fn spec_rule(rules: Rules, kind: Seq<char>) -> Option<(SymbolKind, Seq<char>)> {
    match rules {
        Rules::JavaScript => if kind == "function_declaration"@ {
            Some((SymbolKind::Function, "name"@))
        } else if kind == "class_declaration"@ {
            Some((SymbolKind::Class, "name"@))
        } else {
            None
        },
        Rules::TypeScriptExtra => if kind == "interface_declaration"@ {
            Some((SymbolKind::Interface, "name"@))
        } else if kind == "type_alias_declaration"@ {
            Some((SymbolKind::TypeAlias, "name"@))
        } else if kind == "enum_declaration"@ {
            Some((SymbolKind::Enum, "name"@))
        } else {
            None
        },
        Rules::Python => if kind == "function_definition"@ {
            Some((SymbolKind::Function, "name"@))
        } else if kind == "class_definition"@ {
            Some((SymbolKind::Class, "name"@))
        } else {
            None
        },
        Rules::Rust => if kind == "function_item"@ {
            Some((SymbolKind::Function, "name"@))
        } else if kind == "struct_item"@ {
            Some((SymbolKind::Struct, "name"@))
        } else if kind == "enum_item"@ {
            Some((SymbolKind::Enum, "name"@))
        } else if kind == "trait_item"@ {
            Some((SymbolKind::Trait, "name"@))
        } else if kind == "impl_item"@ {
            Some((SymbolKind::Impl, "type"@))
        } else {
            None
        },
        Rules::Go => if kind == "function_declaration"@ {
            Some((SymbolKind::Function, "name"@))
        } else if kind == "method_declaration"@ {
            Some((SymbolKind::Method, "name"@))
        } else {
            None
        },
    }
}

fn rule(rules: Rules, kind: &str) -> (r: Option<(SymbolKind, &'static str)>)
    ensures
        match r {
            Some((k, f)) => spec_rule(rules, kind@) == Some((k, f@)),
            None => spec_rule(rules, kind@) is None,
        },
{
    match rules {
        Rules::JavaScript => if text::same(kind, "function_declaration") {
            Some((SymbolKind::Function, "name"))
        } else if text::same(kind, "class_declaration") {
            Some((SymbolKind::Class, "name"))
        } else {
            None
        },
        Rules::TypeScriptExtra => if text::same(kind, "interface_declaration") {
            Some((SymbolKind::Interface, "name"))
        } else if text::same(kind, "type_alias_declaration") {
            Some((SymbolKind::TypeAlias, "name"))
        } else if text::same(kind, "enum_declaration") {
            Some((SymbolKind::Enum, "name"))
        } else {
            None
        },
        Rules::Python => if text::same(kind, "function_definition") {
            Some((SymbolKind::Function, "name"))
        } else if text::same(kind, "class_definition") {
            Some((SymbolKind::Class, "name"))
        } else {
            None
        },
        Rules::Rust => if text::same(kind, "function_item") {
            Some((SymbolKind::Function, "name"))
        } else if text::same(kind, "struct_item") {
            Some((SymbolKind::Struct, "name"))
        } else if text::same(kind, "enum_item") {
            Some((SymbolKind::Enum, "name"))
        } else if text::same(kind, "trait_item") {
            Some((SymbolKind::Trait, "name"))
        } else if text::same(kind, "impl_item") {
            Some((SymbolKind::Impl, "type"))
        } else {
            None
        },
        Rules::Go => if text::same(kind, "function_declaration") {
            Some((SymbolKind::Function, "name"))
        } else if text::same(kind, "method_declaration") {
            Some((SymbolKind::Method, "name"))
        } else {
            None
        },
    }
}

// ── Making symbols ───────────────────────────────────────────────────

/// The first line of a text.
pub open spec fn spec_first_line(s: Seq<char>) -> Seq<char> {
    match text::spec_find_char(s, '\n') {
        Some(i) => text::drop_return(s.take(i)),
        None => s,
    }
}

fn first_line<'a>(s: &'a [char]) -> (r: &'a [char])
    ensures
        r@ == spec_first_line(s@),
{
    match text::find_char(s, '\n') {
        Some(i) => {
            let end: usize = if i > 0 && s[i - 1] == '\r' {
                i - 1
            } else {
                i
            };
            let line = slice_subrange(s, 0, end);
            assert(line@ =~= text::drop_return(s@.take(i as int)));
            line
        },
        None => s,
    }
}

/// What stands before the first `c`.
pub open spec fn spec_before(s: Seq<char>, c: char) -> Seq<char> {
    match text::spec_find_char(s, c) {
        Some(i) => s.take(i),
        None => s,
    }
}

fn before<'a>(s: &'a [char], c: char) -> (r: &'a [char])
    ensures
        r@ == spec_before(s@, c),
{
    match text::find_char(s, c) {
        Some(i) => {
            assert(s@.subrange(0, i as int) =~= s@.take(i as int));
            slice_subrange(s, 0, i)
        },
        None => s,
    }
}

/// The symbol that spans node `i`.
pub open spec fn made(
    chars: Seq<char>,
    nodes: Seq<NodeModel>,
    i: int,
    name: Seq<char>,
    kind: SymbolKind,
) -> SymbolModel {
    SymbolModel {
        name,
        kind,
        start_line: nodes[i].start_row + 1,
        end_line: nodes[i].end_row + 1,
        signature: spec_first_line(syntax::node_text(chars, nodes, i)),
        code: syntax::node_text(chars, nodes, i),
    }
}

/// Whether the nodes lie within the text.
pub open spec fn sound(chars: Seq<char>, nodes: Seq<NodeModel>) -> bool {
    chars.len() < usize::MAX && syntax::within(nodes, chars.len(), syntax::newlines(chars))
}

fn node_chars<'a>(chars: &'a [char], nodes: &[Node], i: usize) -> (r: &'a [char])
    requires
        sound(chars@, syntax::models(nodes@)),
        i < nodes@.len(),
    ensures
        r@ == syntax::node_text(chars@, syntax::models(nodes@), i as int),
{
    assert(syntax::models(nodes@)[i as int] == nodes@[i as int]@);
    slice_subrange(chars, nodes[i].start, nodes[i].end)
}

fn has_kind(nodes: &[Node], i: usize, kind: &str) -> (r: bool)
    requires
        i < nodes@.len(),
    ensures
        r == (syntax::models(nodes@)[i as int].kind == kind@),
{
    assert(syntax::models(nodes@)[i as int] == nodes@[i as int]@);
    text::same(nodes[i].kind.as_str(), kind)
}

fn make_symbol(chars: &[char], nodes: &[Node], i: usize, name: String, kind: SymbolKind) -> (r:
    Symbol)
    requires
        sound(chars@, syntax::models(nodes@)),
        i < nodes@.len(),
    ensures
        r@ == made(chars@, syntax::models(nodes@), i as int, name@, kind),
{
    proof {
        assert(syntax::models(nodes@)[i as int] == nodes@[i as int]@);
        syntax::lemma_newlines(chars@);
    }
    let code = node_chars(chars, nodes, i);
    Symbol {
        name,
        kind,
        start_line: nodes[i].start_row + 1,
        end_line: nodes[i].end_row + 1,
        signature: text::string_of(first_line(code)),
        code: text::string_of(code),
    }
}

fn one(s: Symbol) -> (r: Vec<Symbol>)
    ensures
        symbols(r@) == seq![s@],
{
    let mut out: Vec<Symbol> = Vec::new();
    out.push(s);
    assert(symbols(out@) =~= seq![s@]);
    out
}

fn none() -> (r: Vec<Symbol>)
    ensures
        symbols(r@) == Seq::<SymbolModel>::empty(),
{
    let out: Vec<Symbol> = Vec::new();
    assert(symbols(out@) =~= Seq::empty());
    out
}

fn both(a: Vec<Symbol>, b: Vec<Symbol>) -> (r: Vec<Symbol>)
    ensures
        symbols(r@) == symbols(a@) + symbols(b@),
{
    let mut out = a;
    let mut rest = b;
    out.append(&mut rest);
    assert(symbols(out@) =~= symbols(a@) + symbols(b@));
    out
}

/// The symbols that each node of a list gives, one after another.
pub open spec fn gather(list: Seq<int>, f: spec_fn(int) -> Seq<SymbolModel>) -> Seq<SymbolModel>
    decreases list.len(),
{
    if list.len() == 0 {
        Seq::empty()
    } else {
        gather(list.drop_last(), f) + f(list.last())
    }
}

/// The symbol that a node defines by a table of rules.
pub open spec fn by_rule(chars: Seq<char>, nodes: Seq<NodeModel>, rules: Rules, c: int) -> Seq<
    SymbolModel,
> {
    match spec_rule(rules, nodes[c].kind) {
        Some((kind, field)) => match syntax::spec_field_child(nodes, c, field) {
            Some(n) => seq![
                made(
                    chars,
                    nodes,
                    c,
                    syntax::node_text(chars, nodes, n),
                    if kind == SymbolKind::Function && text::begins(
                        syntax::node_text(chars, nodes, c),
                        "async"@,
                    ) {
                        SymbolKind::AsyncFunction
                    } else {
                        kind
                    },
                ),
            ],
            None => Seq::empty(),
        },
        None => Seq::empty(),
    }
}

fn extract_by_rule(chars: &[char], nodes: &[Node], rules: Rules, c: usize) -> (r: Vec<Symbol>)
    requires
        sound(chars@, syntax::models(nodes@)),
        c < nodes@.len(),
    ensures
        symbols(r@) == by_rule(chars@, syntax::models(nodes@), rules, c as int),
{
    assert(syntax::models(nodes@)[c as int] == nodes@[c as int]@);
    match rule(rules, nodes[c].kind.as_str()) {
        Some((kind, field)) => match syntax::field_child(nodes, c, field) {
            Some(n) => {
                let name = text::string_of(node_chars(chars, nodes, n));
                let is_async = text::starts_with(node_chars(chars, nodes, c), "async");
                let kind = if kind == SymbolKind::Function && is_async {
                    SymbolKind::AsyncFunction
                } else {
                    kind
                };
                one(make_symbol(chars, nodes, c, name, kind))
            },
            None => none(),
        },
        None => none(),
    }
}

/// `by_rule` as a function of the node.
pub open spec fn by_rule_part(chars: Seq<char>, nodes: Seq<NodeModel>, rules: Rules) -> spec_fn(int) -> Seq<
    SymbolModel,
> {
    |c: int| by_rule(chars, nodes, rules, c)
}

/// The symbols that the children of a node define by a table of rules.
fn extract_by_rules(chars: &[char], nodes: &[Node], rules: Rules, i: usize) -> (r: Vec<Symbol>)
    requires
        sound(chars@, syntax::models(nodes@)),
        i < nodes@.len(),
    ensures
        symbols(r@) == gather(
            syntax::spec_children(syntax::models(nodes@), i as int),
            by_rule_part(chars@, syntax::models(nodes@), rules),
        ),
{
    let list = syntax::children(nodes, i);
    let ghost whole = syntax::ints(list@);
    let ghost f = by_rule_part(chars@, syntax::models(nodes@), rules);
    let mut out = none();
    assert(whole.take(0) =~= Seq::empty());
    for k in 0..list.len()
        invariant
            sound(chars@, syntax::models(nodes@)),
            whole == syntax::ints(list@),
            forall|k: int| 0 <= k < list@.len() ==> i < #[trigger] list@[k] < nodes@.len(),
            f == by_rule_part(chars@, syntax::models(nodes@), rules),
            symbols(out@) == gather(whole.take(k as int), f),
    {
        let c: usize = list[k];
        proof {
            assert(whole.take(k + 1).drop_last() =~= whole.take(k as int));
            assert(whole.take(k + 1).last() == c);
        }
        out = both(out, extract_by_rule(chars, nodes, rules, c));
    }
    assert(whole.take(whole.len() as int) =~= whole);
    out
}

// ── JavaScript ───────────────────────────────────────────────────────

/// The kind of symbol that a variable is, by the kind of its value.
pub open spec fn spec_value_kind(kind: Seq<char>) -> SymbolKind {
    if kind == "arrow_function"@ || kind == "function"@ {
        SymbolKind::Function
    } else if kind == "class"@ {
        SymbolKind::Class
    } else {
        SymbolKind::Constant
    }
}

/// The symbol of one declarator of declaration `node`: it needs a name and a value.
pub open spec fn declared(chars: Seq<char>, nodes: Seq<NodeModel>, node: int, c: int) -> Seq<
    SymbolModel,
> {
    if nodes[c].kind == "variable_declarator"@ {
        match (
            syntax::spec_field_child(nodes, c, "name"@),
            syntax::spec_field_child(nodes, c, "value"@),
        ) {
            (Some(n), Some(v)) => seq![
                made(
                    chars,
                    nodes,
                    node,
                    syntax::node_text(chars, nodes, n),
                    spec_value_kind(nodes[v].kind),
                ),
            ],
            _ => Seq::empty(),
        }
    } else {
        Seq::empty()
    }
}

fn extract_declared(chars: &[char], nodes: &[Node], node: usize, c: usize) -> (r: Vec<Symbol>)
    requires
        sound(chars@, syntax::models(nodes@)),
        node < nodes@.len(),
        c < nodes@.len(),
    ensures
        symbols(r@) == declared(chars@, syntax::models(nodes@), node as int, c as int),
{
    if has_kind(nodes, c, "variable_declarator") {
        match (
            syntax::field_child(nodes, c, "name"),
            syntax::field_child(nodes, c, "value"),
        ) {
            (Some(n), Some(v)) => {
                let kind = if has_kind(nodes, v, "arrow_function") || has_kind(nodes, v, "function") {
                    SymbolKind::Function
                } else if has_kind(nodes, v, "class") {
                    SymbolKind::Class
                } else {
                    SymbolKind::Constant
                };
                let name = text::string_of(node_chars(chars, nodes, n));
                one(make_symbol(chars, nodes, node, name, kind))
            },
            _ => none(),
        }
    } else {
        none()
    }
}

/// `declared` as a function of the declarator.
pub open spec fn declared_part(chars: Seq<char>, nodes: Seq<NodeModel>, node: int) -> spec_fn(int) -> Seq<
    SymbolModel,
> {
    |c: int| declared(chars, nodes, node, c)
}

/// The symbols of a variable declaration.
fn extract_variable_declarations(chars: &[char], nodes: &[Node], i: usize) -> (r: Vec<Symbol>)
    requires
        sound(chars@, syntax::models(nodes@)),
        i < nodes@.len(),
    ensures
        symbols(r@) == gather(
            syntax::spec_children(syntax::models(nodes@), i as int),
            declared_part(chars@, syntax::models(nodes@), i as int),
        ),
{
    let list = syntax::children(nodes, i);
    let ghost whole = syntax::ints(list@);
    let ghost f = declared_part(chars@, syntax::models(nodes@), i as int);
    let mut out = none();
    assert(whole.take(0) =~= Seq::empty());
    for k in 0..list.len()
        invariant
            sound(chars@, syntax::models(nodes@)),
            i < nodes@.len(),
            whole == syntax::ints(list@),
            forall|k: int| 0 <= k < list@.len() ==> i < #[trigger] list@[k] < nodes@.len(),
            f == declared_part(chars@, syntax::models(nodes@), i as int),
            symbols(out@) == gather(whole.take(k as int), f),
    {
        let c: usize = list[k];
        proof {
            assert(whole.take(k + 1).drop_last() =~= whole.take(k as int));
            assert(whole.take(k + 1).last() == c);
        }
        out = both(out, extract_declared(chars, nodes, i, c));
    }
    assert(whole.take(whole.len() as int) =~= whole);
    out
}

/// The symbols of a variable declaration.
pub open spec fn variables(chars: Seq<char>, nodes: Seq<NodeModel>, node: int) -> Seq<SymbolModel> {
    gather(syntax::spec_children(nodes, node), declared_part(chars, nodes, node))
}

/// Whether a node declares variables.
pub open spec fn declares_variables(kind: Seq<char>) -> bool {
    kind == "lexical_declaration"@ || kind == "variable_declaration"@
}

/// The symbol that a node defines by a table of rules, spanning the node around it.
pub open spec fn ruled(
    chars: Seq<char>,
    nodes: Seq<NodeModel>,
    node: int,
    rules: Rules,
    c: int,
) -> Seq<SymbolModel> {
    match spec_rule(rules, nodes[c].kind) {
        Some((kind, field)) => match syntax::spec_field_child(nodes, c, field) {
            Some(n) => seq![made(chars, nodes, node, syntax::node_text(chars, nodes, n), kind)],
            None => Seq::empty(),
        },
        None => Seq::empty(),
    }
}

/// The symbols of one part of export statement `node`: declarations count with the whole
/// statement.
pub open spec fn exported(
    chars: Seq<char>,
    nodes: Seq<NodeModel>,
    node: int,
    rules: Rules,
    c: int,
) -> Seq<SymbolModel> {
    ruled(chars, nodes, node, rules, c) + if declares_variables(nodes[c].kind) {
        variables(chars, nodes, c)
    } else {
        Seq::empty()
    }
}

fn extract_ruled(chars: &[char], nodes: &[Node], node: usize, rules: Rules, c: usize) -> (r: Vec<
    Symbol,
>)
    requires
        sound(chars@, syntax::models(nodes@)),
        node < nodes@.len(),
        c < nodes@.len(),
    ensures
        symbols(r@) == ruled(chars@, syntax::models(nodes@), node as int, rules, c as int),
{
    assert(syntax::models(nodes@)[c as int] == nodes@[c as int]@);
    match rule(rules, nodes[c].kind.as_str()) {
        Some((kind, field)) => match syntax::field_child(nodes, c, field) {
            Some(n) => {
                let name = text::string_of(node_chars(chars, nodes, n));
                one(make_symbol(chars, nodes, node, name, kind))
            },
            None => none(),
        },
        None => none(),
    }
}

fn extract_exported(chars: &[char], nodes: &[Node], node: usize, rules: Rules, c: usize) -> (r: Vec<
    Symbol,
>)
    requires
        sound(chars@, syntax::models(nodes@)),
        node < nodes@.len(),
        c < nodes@.len(),
    ensures
        symbols(r@) == exported(chars@, syntax::models(nodes@), node as int, rules, c as int),
{
    let ruled = extract_ruled(chars, nodes, node, rules, c);
    let rest = if has_kind(nodes, c, "lexical_declaration") || has_kind(nodes, c, "variable_declaration") {
        extract_variable_declarations(chars, nodes, c)
    } else {
        none()
    };
    both(ruled, rest)
}

/// `exported` as a function of the part.
pub open spec fn exported_part(chars: Seq<char>, nodes: Seq<NodeModel>, node: int, rules: Rules) -> spec_fn(int) -> Seq<
    SymbolModel,
> {
    |c: int| exported(chars, nodes, node, rules, c)
}

/// The symbols of an export statement.
fn extract_export_contents(chars: &[char], nodes: &[Node], rules: Rules, i: usize) -> (r: Vec<Symbol>)
    requires
        sound(chars@, syntax::models(nodes@)),
        i < nodes@.len(),
    ensures
        symbols(r@) == gather(
            syntax::spec_children(syntax::models(nodes@), i as int),
            exported_part(chars@, syntax::models(nodes@), i as int, rules),
        ),
{
    let list = syntax::children(nodes, i);
    let ghost whole = syntax::ints(list@);
    let ghost f = exported_part(chars@, syntax::models(nodes@), i as int, rules);
    let mut out = none();
    assert(whole.take(0) =~= Seq::empty());
    for k in 0..list.len()
        invariant
            sound(chars@, syntax::models(nodes@)),
            i < nodes@.len(),
            whole == syntax::ints(list@),
            forall|k: int| 0 <= k < list@.len() ==> i < #[trigger] list@[k] < nodes@.len(),
            f == exported_part(chars@, syntax::models(nodes@), i as int, rules),
            symbols(out@) == gather(whole.take(k as int), f),
    {
        let c: usize = list[k];
        proof {
            assert(whole.take(k + 1).drop_last() =~= whole.take(k as int));
            assert(whole.take(k + 1).last() == c);
        }
        out = both(out, extract_exported(chars, nodes, i, rules, c));
    }
    assert(whole.take(whole.len() as int) =~= whole);
    out
}

/// The name under which a property of an exported object is known.
pub open spec fn property_name(chars: Seq<char>, nodes: Seq<NodeModel>, c: int) -> Option<
    Seq<char>,
> {
    if nodes[c].kind == "shorthand_property_identifier"@ {
        Some(syntax::node_text(chars, nodes, c))
    } else if nodes[c].kind == "pair"@ {
        match syntax::spec_field_child(nodes, c, "key"@) {
            Some(k) => Some(syntax::node_text(chars, nodes, k)),
            None => None,
        }
    } else {
        None
    }
}

/// The names of the properties among a list of nodes.
pub open spec fn property_names(chars: Seq<char>, nodes: Seq<NodeModel>, list: Seq<int>) -> Seq<
    Seq<char>,
>
    decreases list.len(),
{
    if list.len() == 0 {
        Seq::empty()
    } else {
        let before = property_names(chars, nodes, list.drop_last());
        match property_name(chars, nodes, list.last()) {
            Some(name) => before.push(name),
            None => before,
        }
    }
}

fn extract_property_name(chars: &[char], nodes: &[Node], c: usize) -> (r: Option<String>)
    requires
        sound(chars@, syntax::models(nodes@)),
        c < nodes@.len(),
    ensures
        syntax::text_of_option(r) == property_name(chars@, syntax::models(nodes@), c as int),
{
    if has_kind(nodes, c, "shorthand_property_identifier") {
        Some(text::string_of(node_chars(chars, nodes, c)))
    } else if has_kind(nodes, c, "pair") {
        match syntax::field_child(nodes, c, "key") {
            Some(k) => Some(text::string_of(node_chars(chars, nodes, k))),
            None => None,
        }
    } else {
        None
    }
}

fn extract_property_names(chars: &[char], nodes: &[Node], i: usize) -> (r: Vec<String>)
    requires
        sound(chars@, syntax::models(nodes@)),
        i < nodes@.len(),
    ensures
        text::texts(r@) == property_names(
            chars@,
            syntax::models(nodes@),
            syntax::spec_children(syntax::models(nodes@), i as int),
        ),
{
    let list = syntax::children(nodes, i);
    let ghost whole = syntax::ints(list@);
    let mut out: Vec<String> = Vec::new();
    assert(whole.take(0) =~= Seq::empty());
    assert(text::texts(out@) =~= Seq::empty());
    for k in 0..list.len()
        invariant
            sound(chars@, syntax::models(nodes@)),
            whole == syntax::ints(list@),
            forall|k: int| 0 <= k < list@.len() ==> i < #[trigger] list@[k] < nodes@.len(),
            text::texts(out@) == property_names(
                chars@,
                syntax::models(nodes@),
                whole.take(k as int),
            ),
    {
        let c: usize = list[k];
        proof {
            assert(whole.take(k + 1).drop_last() =~= whole.take(k as int));
            assert(whole.take(k + 1).last() == c);
        }
        let ghost done = text::texts(out@);
        match extract_property_name(chars, nodes, c) {
            Some(name) => {
                out.push(name);
                assert(text::texts(out@) =~= done.push(name@));
            },
            None => {},
        }
    }
    assert(whole.take(whole.len() as int) =~= whole);
    out
}

/// The symbol of an assignment to `module.exports` in statement `node`: the names of an
/// object's properties, or the first characters of any other value.
pub open spec fn module_export(chars: Seq<char>, nodes: Seq<NodeModel>, node: int, c: int) -> Seq<
    SymbolModel,
> {
    if nodes[c].kind == "assignment_expression"@ {
        match syntax::spec_field_child(nodes, c, "right"@) {
            Some(right) => if nodes[right].kind == "object"@ {
                let names = property_names(chars, nodes, syntax::spec_children(nodes, right));
                if names.len() == 0 {
                    Seq::empty()
                } else {
                    seq![
                        made(
                            chars,
                            nodes,
                            node,
                            "module.exports("@ + text::spec_join(names, ", "@) + ")"@,
                            SymbolKind::Export,
                        ),
                    ]
                }
            } else {
                seq![
                    made(
                        chars,
                        nodes,
                        node,
                        "module.exports = "@ + text::first_n(
                            syntax::node_text(chars, nodes, right),
                            60,
                        ),
                        SymbolKind::Export,
                    ),
                ]
            },
            None => Seq::empty(),
        }
    } else {
        Seq::empty()
    }
}

fn extract_module_export(chars: &[char], nodes: &[Node], node: usize, c: usize) -> (r: Vec<Symbol>)
    requires
        sound(chars@, syntax::models(nodes@)),
        node < nodes@.len(),
        c < nodes@.len(),
    ensures
        symbols(r@) == module_export(chars@, syntax::models(nodes@), node as int, c as int),
{
    if !has_kind(nodes, c, "assignment_expression") {
        return none();
    }
    match syntax::field_child(nodes, c, "right") {
        Some(right) => {
            if has_kind(nodes, right, "object") {
                let names = extract_property_names(chars, nodes, right);
                assert(text::texts(names@).len() == names@.len());
                if names.len() == 0 {
                    none()
                } else {
                    let list = text::join(names.as_slice(), ", ");
                    let name = text::owned("module.exports(").concat(list.as_str()).concat(")");
                    one(make_symbol(chars, nodes, node, name, SymbolKind::Export))
                }
            } else {
                let value = text::string_of(text::head(node_chars(chars, nodes, right), 60));
                let name = text::owned("module.exports = ").concat(value.as_str());
                one(make_symbol(chars, nodes, node, name, SymbolKind::Export))
            }
        },
        None => none(),
    }
}

/// `module_export` as a function of the child.
pub open spec fn module_export_part(chars: Seq<char>, nodes: Seq<NodeModel>, node: int) -> spec_fn(int) -> Seq<
    SymbolModel,
> {
    |c: int| module_export(chars, nodes, node, c)
}

/// The symbols of assignments to `module.exports`.
fn extract_module_exports(chars: &[char], nodes: &[Node], i: usize) -> (r: Vec<Symbol>)
    requires
        sound(chars@, syntax::models(nodes@)),
        i < nodes@.len(),
    ensures
        symbols(r@) == gather(
            syntax::spec_children(syntax::models(nodes@), i as int),
            module_export_part(chars@, syntax::models(nodes@), i as int),
        ),
{
    let list = syntax::children(nodes, i);
    let ghost whole = syntax::ints(list@);
    let ghost f = module_export_part(chars@, syntax::models(nodes@), i as int);
    let mut out = none();
    assert(whole.take(0) =~= Seq::empty());
    for k in 0..list.len()
        invariant
            sound(chars@, syntax::models(nodes@)),
            i < nodes@.len(),
            whole == syntax::ints(list@),
            forall|k: int| 0 <= k < list@.len() ==> i < #[trigger] list@[k] < nodes@.len(),
            f == module_export_part(chars@, syntax::models(nodes@), i as int),
            symbols(out@) == gather(whole.take(k as int), f),
    {
        let c: usize = list[k];
        proof {
            assert(whole.take(k + 1).drop_last() =~= whole.take(k as int));
            assert(whole.take(k + 1).last() == c);
        }
        out = both(out, extract_module_export(chars, nodes, i, c));
    }
    assert(whole.take(whole.len() as int) =~= whole);
    out
}

/// The symbol of an assignment to a property of `exports` in statement `node`.
pub open spec fn named_export(chars: Seq<char>, nodes: Seq<NodeModel>, node: int, c: int) -> Seq<
    SymbolModel,
> {
    if nodes[c].kind == "assignment_expression"@ {
        match syntax::spec_field_child(nodes, c, "left"@) {
            Some(left) => if nodes[left].kind == "member_expression"@ {
                match syntax::spec_field_child(nodes, left, "property"@) {
                    Some(p) => seq![
                        made(
                            chars,
                            nodes,
                            node,
                            syntax::node_text(chars, nodes, p),
                            SymbolKind::Export,
                        ),
                    ],
                    None => Seq::empty(),
                }
            } else {
                Seq::empty()
            },
            None => Seq::empty(),
        }
    } else {
        Seq::empty()
    }
}

fn extract_named_export(chars: &[char], nodes: &[Node], node: usize, c: usize) -> (r: Vec<Symbol>)
    requires
        sound(chars@, syntax::models(nodes@)),
        node < nodes@.len(),
        c < nodes@.len(),
    ensures
        symbols(r@) == named_export(chars@, syntax::models(nodes@), node as int, c as int),
{
    if !has_kind(nodes, c, "assignment_expression") {
        return none();
    }
    match syntax::field_child(nodes, c, "left") {
        Some(left) => {
            if has_kind(nodes, left, "member_expression") {
                match syntax::field_child(nodes, left, "property") {
                    Some(p) => {
                        let name = text::string_of(node_chars(chars, nodes, p));
                        one(make_symbol(chars, nodes, node, name, SymbolKind::Export))
                    },
                    None => none(),
                }
            } else {
                none()
            }
        },
        None => none(),
    }
}

/// `named_export` as a function of the child.
pub open spec fn named_export_part(chars: Seq<char>, nodes: Seq<NodeModel>, node: int) -> spec_fn(int) -> Seq<
    SymbolModel,
> {
    |c: int| named_export(chars, nodes, node, c)
}

/// The symbols of assignments to properties of `exports`.
fn extract_named_exports(chars: &[char], nodes: &[Node], i: usize) -> (r: Vec<Symbol>)
    requires
        sound(chars@, syntax::models(nodes@)),
        i < nodes@.len(),
    ensures
        symbols(r@) == gather(
            syntax::spec_children(syntax::models(nodes@), i as int),
            named_export_part(chars@, syntax::models(nodes@), i as int),
        ),
{
    let list = syntax::children(nodes, i);
    let ghost whole = syntax::ints(list@);
    let ghost f = named_export_part(chars@, syntax::models(nodes@), i as int);
    let mut out = none();
    assert(whole.take(0) =~= Seq::empty());
    for k in 0..list.len()
        invariant
            sound(chars@, syntax::models(nodes@)),
            i < nodes@.len(),
            whole == syntax::ints(list@),
            forall|k: int| 0 <= k < list@.len() ==> i < #[trigger] list@[k] < nodes@.len(),
            f == named_export_part(chars@, syntax::models(nodes@), i as int),
            symbols(out@) == gather(whole.take(k as int), f),
    {
        let c: usize = list[k];
        proof {
            assert(whole.take(k + 1).drop_last() =~= whole.take(k as int));
            assert(whole.take(k + 1).last() == c);
        }
        out = both(out, extract_named_export(chars, nodes, i, c));
    }
    assert(whole.take(whole.len() as int) =~= whole);
    out
}

/// The symbols of a statement `module.exports = ...` or `exports.x = ...`.
pub open spec fn commonjs(chars: Seq<char>, nodes: Seq<NodeModel>, node: int) -> Seq<SymbolModel> {
    let code = syntax::node_text(chars, nodes, node);
    if text::begins(code, "module.exports"@) {
        gather(syntax::spec_children(nodes, node), module_export_part(chars, nodes, node))
    } else if text::begins(code, "exports."@) {
        gather(syntax::spec_children(nodes, node), named_export_part(chars, nodes, node))
    } else {
        Seq::empty()
    }
}

fn extract_commonjs_exports(chars: &[char], nodes: &[Node], node: usize) -> (r: Vec<Symbol>)
    requires
        sound(chars@, syntax::models(nodes@)),
        node < nodes@.len(),
    ensures
        symbols(r@) == commonjs(chars@, syntax::models(nodes@), node as int),
{
    let code = node_chars(chars, nodes, node);
    if text::starts_with(code, "module.exports") {
        extract_module_exports(chars, nodes, node)
    } else if text::starts_with(code, "exports.") {
        extract_named_exports(chars, nodes, node)
    } else {
        none()
    }
}

/// The symbols of the parts of an export statement.
pub open spec fn exports(chars: Seq<char>, nodes: Seq<NodeModel>, rules: Rules, node: int) -> Seq<
    SymbolModel,
> {
    gather(syntax::spec_children(nodes, node), exported_part(chars, nodes, node, rules))
}

/// The symbols of a top-level JavaScript statement that no rule covers.
pub open spec fn js_statement(chars: Seq<char>, nodes: Seq<NodeModel>, c: int) -> Seq<SymbolModel> {
    if declares_variables(nodes[c].kind) {
        variables(chars, nodes, c)
    } else if nodes[c].kind == "export_statement"@ {
        exports(chars, nodes, Rules::JavaScript, c)
    } else if nodes[c].kind == "expression_statement"@ {
        commonjs(chars, nodes, c)
    } else {
        Seq::empty()
    }
}

fn extract_js_statement(chars: &[char], nodes: &[Node], c: usize) -> (r: Vec<Symbol>)
    requires
        sound(chars@, syntax::models(nodes@)),
        c < nodes@.len(),
    ensures
        symbols(r@) == js_statement(chars@, syntax::models(nodes@), c as int),
{
    if has_kind(nodes, c, "lexical_declaration") || has_kind(nodes, c, "variable_declaration") {
        extract_variable_declarations(chars, nodes, c)
    } else if has_kind(nodes, c, "export_statement") {
        extract_export_contents(chars, nodes, Rules::JavaScript, c)
    } else if has_kind(nodes, c, "expression_statement") {
        extract_commonjs_exports(chars, nodes, c)
    } else {
        none()
    }
}

/// `js_statement` as a function of the statement.
pub open spec fn js_statement_part(chars: Seq<char>, nodes: Seq<NodeModel>) -> spec_fn(int) -> Seq<
    SymbolModel,
> {
    |c: int| js_statement(chars, nodes, c)
}

/// The symbols of the top-level statements that no rule covers.
fn extract_js_statements(chars: &[char], nodes: &[Node], i: usize) -> (r: Vec<Symbol>)
    requires
        sound(chars@, syntax::models(nodes@)),
        i < nodes@.len(),
    ensures
        symbols(r@) == gather(
            syntax::spec_children(syntax::models(nodes@), i as int),
            js_statement_part(chars@, syntax::models(nodes@)),
        ),
{
    let list = syntax::children(nodes, i);
    let ghost whole = syntax::ints(list@);
    let ghost f = js_statement_part(chars@, syntax::models(nodes@));
    let mut out = none();
    assert(whole.take(0) =~= Seq::empty());
    for k in 0..list.len()
        invariant
            sound(chars@, syntax::models(nodes@)),
            whole == syntax::ints(list@),
            forall|k: int| 0 <= k < list@.len() ==> i < #[trigger] list@[k] < nodes@.len(),
            f == js_statement_part(chars@, syntax::models(nodes@)),
            symbols(out@) == gather(whole.take(k as int), f),
    {
        let c: usize = list[k];
        proof {
            assert(whole.take(k + 1).drop_last() =~= whole.take(k as int));
            assert(whole.take(k + 1).last() == c);
        }
        out = both(out, extract_js_statement(chars, nodes, c));
    }
    assert(whole.take(whole.len() as int) =~= whole);
    out
}

/// The symbols that the rules of a table find among the children of a node.
pub open spec fn by_rules(chars: Seq<char>, nodes: Seq<NodeModel>, rules: Rules, i: int) -> Seq<
    SymbolModel,
> {
    gather(syntax::spec_children(nodes, i), by_rule_part(chars, nodes, rules))
}

/// The symbols of a JavaScript file: declared functions and classes, then variables and
/// exports.
pub open spec fn js_symbols(chars: Seq<char>, nodes: Seq<NodeModel>) -> Seq<SymbolModel> {
    by_rules(chars, nodes, Rules::JavaScript, 0) + gather(
        syntax::spec_children(nodes, 0),
        js_statement_part(chars, nodes),
    )
}

fn extract_js_symbols(chars: &[char], nodes: &[Node]) -> (r: Vec<Symbol>)
    requires
        sound(chars@, syntax::models(nodes@)),
        nodes@.len() > 0,
    ensures
        symbols(r@) == js_symbols(chars@, syntax::models(nodes@)),
{
    let ruled = extract_by_rules(chars, nodes, Rules::JavaScript, 0);
    both(ruled, extract_js_statements(chars, nodes, 0))
}

// ── TypeScript ───────────────────────────────────────────────────────

/// The types that an export statement exports.
pub open spec fn ts_export(chars: Seq<char>, nodes: Seq<NodeModel>, c: int) -> Seq<SymbolModel> {
    if nodes[c].kind == "export_statement"@ {
        exports(chars, nodes, Rules::TypeScriptExtra, c)
    } else {
        Seq::empty()
    }
}

fn extract_ts_export(chars: &[char], nodes: &[Node], c: usize) -> (r: Vec<Symbol>)
    requires
        sound(chars@, syntax::models(nodes@)),
        c < nodes@.len(),
    ensures
        symbols(r@) == ts_export(chars@, syntax::models(nodes@), c as int),
{
    if has_kind(nodes, c, "export_statement") {
        extract_export_contents(chars, nodes, Rules::TypeScriptExtra, c)
    } else {
        none()
    }
}

/// `ts_export` as a function of the statement.
pub open spec fn ts_export_part(chars: Seq<char>, nodes: Seq<NodeModel>) -> spec_fn(int) -> Seq<
    SymbolModel,
> {
    |c: int| ts_export(chars, nodes, c)
}

/// The types that the top-level export statements export.
fn extract_ts_exports(chars: &[char], nodes: &[Node], i: usize) -> (r: Vec<Symbol>)
    requires
        sound(chars@, syntax::models(nodes@)),
        i < nodes@.len(),
    ensures
        symbols(r@) == gather(
            syntax::spec_children(syntax::models(nodes@), i as int),
            ts_export_part(chars@, syntax::models(nodes@)),
        ),
{
    let list = syntax::children(nodes, i);
    let ghost whole = syntax::ints(list@);
    let ghost f = ts_export_part(chars@, syntax::models(nodes@));
    let mut out = none();
    assert(whole.take(0) =~= Seq::empty());
    for k in 0..list.len()
        invariant
            sound(chars@, syntax::models(nodes@)),
            whole == syntax::ints(list@),
            forall|k: int| 0 <= k < list@.len() ==> i < #[trigger] list@[k] < nodes@.len(),
            f == ts_export_part(chars@, syntax::models(nodes@)),
            symbols(out@) == gather(whole.take(k as int), f),
    {
        let c: usize = list[k];
        proof {
            assert(whole.take(k + 1).drop_last() =~= whole.take(k as int));
            assert(whole.take(k + 1).last() == c);
        }
        out = both(out, extract_ts_export(chars, nodes, c));
    }
    assert(whole.take(whole.len() as int) =~= whole);
    out
}

/// The symbols of a TypeScript file: those of JavaScript, then types, then exported types.
pub open spec fn ts_symbols(chars: Seq<char>, nodes: Seq<NodeModel>) -> Seq<SymbolModel> {
    js_symbols(chars, nodes) + by_rules(chars, nodes, Rules::TypeScriptExtra, 0) + gather(
        syntax::spec_children(nodes, 0),
        ts_export_part(chars, nodes),
    )
}

fn extract_ts_symbols(chars: &[char], nodes: &[Node]) -> (r: Vec<Symbol>)
    requires
        sound(chars@, syntax::models(nodes@)),
        nodes@.len() > 0,
    ensures
        symbols(r@) == ts_symbols(chars@, syntax::models(nodes@)),
{
    let js = extract_js_symbols(chars, nodes);
    let types = extract_by_rules(chars, nodes, Rules::TypeScriptExtra, 0);
    both(both(js, types), extract_ts_exports(chars, nodes, 0))
}

// ── Python ───────────────────────────────────────────────────────────

/// The symbol of a part of decorated definition `node`: it counts with its decorators.
pub open spec fn decorated(chars: Seq<char>, nodes: Seq<NodeModel>, node: int, c: int) -> Seq<
    SymbolModel,
> {
    ruled(chars, nodes, node, Rules::Python, c)
}

/// `decorated` as a function of the child.
pub open spec fn decorated_part(chars: Seq<char>, nodes: Seq<NodeModel>, node: int) -> spec_fn(int) -> Seq<
    SymbolModel,
> {
    |c: int| decorated(chars, nodes, node, c)
}

/// The symbols of a decorated definition.
fn extract_decorated(chars: &[char], nodes: &[Node], i: usize) -> (r: Vec<Symbol>)
    requires
        sound(chars@, syntax::models(nodes@)),
        i < nodes@.len(),
    ensures
        symbols(r@) == gather(
            syntax::spec_children(syntax::models(nodes@), i as int),
            decorated_part(chars@, syntax::models(nodes@), i as int),
        ),
{
    let list = syntax::children(nodes, i);
    let ghost whole = syntax::ints(list@);
    let ghost f = decorated_part(chars@, syntax::models(nodes@), i as int);
    let mut out = none();
    assert(whole.take(0) =~= Seq::empty());
    for k in 0..list.len()
        invariant
            sound(chars@, syntax::models(nodes@)),
            i < nodes@.len(),
            whole == syntax::ints(list@),
            forall|k: int| 0 <= k < list@.len() ==> i < #[trigger] list@[k] < nodes@.len(),
            f == decorated_part(chars@, syntax::models(nodes@), i as int),
            symbols(out@) == gather(whole.take(k as int), f),
    {
        let c: usize = list[k];
        proof {
            assert(whole.take(k + 1).drop_last() =~= whole.take(k as int));
            assert(whole.take(k + 1).last() == c);
        }
        out = both(out, extract_ruled(chars, nodes, i, Rules::Python, c));
    }
    assert(whole.take(whole.len() as int) =~= whole);
    out
}

/// The symbols of a top-level Python statement that no rule covers.
pub open spec fn python_statement(chars: Seq<char>, nodes: Seq<NodeModel>, c: int) -> Seq<
    SymbolModel,
> {
    if nodes[c].kind == "decorated_definition"@ {
        gather(syntax::spec_children(nodes, c), decorated_part(chars, nodes, c))
    } else {
        Seq::empty()
    }
}

fn extract_python_statement(chars: &[char], nodes: &[Node], c: usize) -> (r: Vec<Symbol>)
    requires
        sound(chars@, syntax::models(nodes@)),
        c < nodes@.len(),
    ensures
        symbols(r@) == python_statement(chars@, syntax::models(nodes@), c as int),
{
    if has_kind(nodes, c, "decorated_definition") {
        extract_decorated(chars, nodes, c)
    } else {
        none()
    }
}

/// `python_statement` as a function of the statement.
pub open spec fn python_statement_part(chars: Seq<char>, nodes: Seq<NodeModel>) -> spec_fn(int) -> Seq<
    SymbolModel,
> {
    |c: int| python_statement(chars, nodes, c)
}

/// The symbols of the decorated definitions.
fn extract_python_statements(chars: &[char], nodes: &[Node], i: usize) -> (r: Vec<Symbol>)
    requires
        sound(chars@, syntax::models(nodes@)),
        i < nodes@.len(),
    ensures
        symbols(r@) == gather(
            syntax::spec_children(syntax::models(nodes@), i as int),
            python_statement_part(chars@, syntax::models(nodes@)),
        ),
{
    let list = syntax::children(nodes, i);
    let ghost whole = syntax::ints(list@);
    let ghost f = python_statement_part(chars@, syntax::models(nodes@));
    let mut out = none();
    assert(whole.take(0) =~= Seq::empty());
    for k in 0..list.len()
        invariant
            sound(chars@, syntax::models(nodes@)),
            whole == syntax::ints(list@),
            forall|k: int| 0 <= k < list@.len() ==> i < #[trigger] list@[k] < nodes@.len(),
            f == python_statement_part(chars@, syntax::models(nodes@)),
            symbols(out@) == gather(whole.take(k as int), f),
    {
        let c: usize = list[k];
        proof {
            assert(whole.take(k + 1).drop_last() =~= whole.take(k as int));
            assert(whole.take(k + 1).last() == c);
        }
        out = both(out, extract_python_statement(chars, nodes, c));
    }
    assert(whole.take(whole.len() as int) =~= whole);
    out
}

/// The symbols of a Python file: functions and classes, then decorated ones.
pub open spec fn python_symbols(chars: Seq<char>, nodes: Seq<NodeModel>) -> Seq<SymbolModel> {
    by_rules(chars, nodes, Rules::Python, 0) + gather(
        syntax::spec_children(nodes, 0),
        python_statement_part(chars, nodes),
    )
}

fn extract_python_symbols(chars: &[char], nodes: &[Node]) -> (r: Vec<Symbol>)
    requires
        sound(chars@, syntax::models(nodes@)),
        nodes@.len() > 0,
    ensures
        symbols(r@) == python_symbols(chars@, syntax::models(nodes@)),
{
    let plain = extract_by_rules(chars, nodes, Rules::Python, 0);
    both(plain, extract_python_statements(chars, nodes, 0))
}

// ── Go ───────────────────────────────────────────────────────────────

/// The kind of a declared Go type, by the kind of its definition.
pub open spec fn go_type_kind(nodes: Seq<NodeModel>, c: int) -> SymbolKind {
    match syntax::spec_field_child(nodes, c, "type"@) {
        Some(t) => if nodes[t].kind == "struct_type"@ {
            SymbolKind::Struct
        } else if nodes[t].kind == "interface_type"@ {
            SymbolKind::Interface
        } else {
            SymbolKind::TypeAlias
        },
        None => SymbolKind::TypeAlias,
    }
}

/// The symbol of one type of a Go type declaration.
pub open spec fn go_type(chars: Seq<char>, nodes: Seq<NodeModel>, c: int) -> Seq<SymbolModel> {
    if nodes[c].kind == "type_spec"@ {
        match syntax::spec_field_child(nodes, c, "name"@) {
            Some(n) => seq![
                made(
                    chars,
                    nodes,
                    c,
                    syntax::node_text(chars, nodes, n),
                    go_type_kind(nodes, c),
                ),
            ],
            None => Seq::empty(),
        }
    } else {
        Seq::empty()
    }
}

fn extract_go_type(chars: &[char], nodes: &[Node], c: usize) -> (r: Vec<Symbol>)
    requires
        sound(chars@, syntax::models(nodes@)),
        c < nodes@.len(),
    ensures
        symbols(r@) == go_type(chars@, syntax::models(nodes@), c as int),
{
    if !has_kind(nodes, c, "type_spec") {
        return none();
    }
    match syntax::field_child(nodes, c, "name") {
        Some(n) => {
            let name = text::string_of(node_chars(chars, nodes, n));
            let kind = match syntax::field_child(nodes, c, "type") {
                Some(t) => if has_kind(nodes, t, "struct_type") {
                    SymbolKind::Struct
                } else if has_kind(nodes, t, "interface_type") {
                    SymbolKind::Interface
                } else {
                    SymbolKind::TypeAlias
                },
                None => SymbolKind::TypeAlias,
            };
            one(make_symbol(chars, nodes, c, name, kind))
        },
        None => none(),
    }
}

/// `go_type` as a function of the type.
pub open spec fn go_type_part(chars: Seq<char>, nodes: Seq<NodeModel>) -> spec_fn(int) -> Seq<
    SymbolModel,
> {
    |c: int| go_type(chars, nodes, c)
}

/// The symbols of a Go type declaration.
fn extract_go_types(chars: &[char], nodes: &[Node], i: usize) -> (r: Vec<Symbol>)
    requires
        sound(chars@, syntax::models(nodes@)),
        i < nodes@.len(),
    ensures
        symbols(r@) == gather(
            syntax::spec_children(syntax::models(nodes@), i as int),
            go_type_part(chars@, syntax::models(nodes@)),
        ),
{
    let list = syntax::children(nodes, i);
    let ghost whole = syntax::ints(list@);
    let ghost f = go_type_part(chars@, syntax::models(nodes@));
    let mut out = none();
    assert(whole.take(0) =~= Seq::empty());
    for k in 0..list.len()
        invariant
            sound(chars@, syntax::models(nodes@)),
            whole == syntax::ints(list@),
            forall|k: int| 0 <= k < list@.len() ==> i < #[trigger] list@[k] < nodes@.len(),
            f == go_type_part(chars@, syntax::models(nodes@)),
            symbols(out@) == gather(whole.take(k as int), f),
    {
        let c: usize = list[k];
        proof {
            assert(whole.take(k + 1).drop_last() =~= whole.take(k as int));
            assert(whole.take(k + 1).last() == c);
        }
        out = both(out, extract_go_type(chars, nodes, c));
    }
    assert(whole.take(whole.len() as int) =~= whole);
    out
}

/// The symbol of one entry of a Go constant or variable declaration.
pub open spec fn go_value(chars: Seq<char>, nodes: Seq<NodeModel>, c: int) -> Seq<SymbolModel> {
    if nodes[c].kind == "const_spec"@ || nodes[c].kind == "var_spec"@ {
        match syntax::spec_field_child(nodes, c, "name"@) {
            Some(n) => seq![
                made(
                    chars,
                    nodes,
                    c,
                    syntax::node_text(chars, nodes, n),
                    SymbolKind::Constant,
                ),
            ],
            None => Seq::empty(),
        }
    } else {
        Seq::empty()
    }
}

fn extract_go_value(chars: &[char], nodes: &[Node], c: usize) -> (r: Vec<Symbol>)
    requires
        sound(chars@, syntax::models(nodes@)),
        c < nodes@.len(),
    ensures
        symbols(r@) == go_value(chars@, syntax::models(nodes@), c as int),
{
    if !has_kind(nodes, c, "const_spec") && !has_kind(nodes, c, "var_spec") {
        return none();
    }
    match syntax::field_child(nodes, c, "name") {
        Some(n) => {
            let name = text::string_of(node_chars(chars, nodes, n));
            one(make_symbol(chars, nodes, c, name, SymbolKind::Constant))
        },
        None => none(),
    }
}

/// `go_value` as a function of the entry.
pub open spec fn go_value_part(chars: Seq<char>, nodes: Seq<NodeModel>) -> spec_fn(int) -> Seq<
    SymbolModel,
> {
    |c: int| go_value(chars, nodes, c)
}

/// The symbols of a Go constant or variable declaration.
fn extract_go_values(chars: &[char], nodes: &[Node], i: usize) -> (r: Vec<Symbol>)
    requires
        sound(chars@, syntax::models(nodes@)),
        i < nodes@.len(),
    ensures
        symbols(r@) == gather(
            syntax::spec_children(syntax::models(nodes@), i as int),
            go_value_part(chars@, syntax::models(nodes@)),
        ),
{
    let list = syntax::children(nodes, i);
    let ghost whole = syntax::ints(list@);
    let ghost f = go_value_part(chars@, syntax::models(nodes@));
    let mut out = none();
    assert(whole.take(0) =~= Seq::empty());
    for k in 0..list.len()
        invariant
            sound(chars@, syntax::models(nodes@)),
            whole == syntax::ints(list@),
            forall|k: int| 0 <= k < list@.len() ==> i < #[trigger] list@[k] < nodes@.len(),
            f == go_value_part(chars@, syntax::models(nodes@)),
            symbols(out@) == gather(whole.take(k as int), f),
    {
        let c: usize = list[k];
        proof {
            assert(whole.take(k + 1).drop_last() =~= whole.take(k as int));
            assert(whole.take(k + 1).last() == c);
        }
        out = both(out, extract_go_value(chars, nodes, c));
    }
    assert(whole.take(whole.len() as int) =~= whole);
    out
}

/// The symbols of a top-level Go declaration that no rule covers.
pub open spec fn go_statement(chars: Seq<char>, nodes: Seq<NodeModel>, c: int) -> Seq<SymbolModel> {
    if nodes[c].kind == "type_declaration"@ {
        gather(syntax::spec_children(nodes, c), go_type_part(chars, nodes))
    } else if nodes[c].kind == "const_declaration"@ || nodes[c].kind == "var_declaration"@ {
        gather(syntax::spec_children(nodes, c), go_value_part(chars, nodes))
    } else {
        Seq::empty()
    }
}

fn extract_go_statement(chars: &[char], nodes: &[Node], c: usize) -> (r: Vec<Symbol>)
    requires
        sound(chars@, syntax::models(nodes@)),
        c < nodes@.len(),
    ensures
        symbols(r@) == go_statement(chars@, syntax::models(nodes@), c as int),
{
    if has_kind(nodes, c, "type_declaration") {
        extract_go_types(chars, nodes, c)
    } else if has_kind(nodes, c, "const_declaration") || has_kind(nodes, c, "var_declaration") {
        extract_go_values(chars, nodes, c)
    } else {
        none()
    }
}

/// `go_statement` as a function of the declaration.
pub open spec fn go_statement_part(chars: Seq<char>, nodes: Seq<NodeModel>) -> spec_fn(int) -> Seq<
    SymbolModel,
> {
    |c: int| go_statement(chars, nodes, c)
}

/// The symbols of the top-level declarations that no rule covers.
fn extract_go_statements(chars: &[char], nodes: &[Node], i: usize) -> (r: Vec<Symbol>)
    requires
        sound(chars@, syntax::models(nodes@)),
        i < nodes@.len(),
    ensures
        symbols(r@) == gather(
            syntax::spec_children(syntax::models(nodes@), i as int),
            go_statement_part(chars@, syntax::models(nodes@)),
        ),
{
    let list = syntax::children(nodes, i);
    let ghost whole = syntax::ints(list@);
    let ghost f = go_statement_part(chars@, syntax::models(nodes@));
    let mut out = none();
    assert(whole.take(0) =~= Seq::empty());
    for k in 0..list.len()
        invariant
            sound(chars@, syntax::models(nodes@)),
            whole == syntax::ints(list@),
            forall|k: int| 0 <= k < list@.len() ==> i < #[trigger] list@[k] < nodes@.len(),
            f == go_statement_part(chars@, syntax::models(nodes@)),
            symbols(out@) == gather(whole.take(k as int), f),
    {
        let c: usize = list[k];
        proof {
            assert(whole.take(k + 1).drop_last() =~= whole.take(k as int));
            assert(whole.take(k + 1).last() == c);
        }
        out = both(out, extract_go_statement(chars, nodes, c));
    }
    assert(whole.take(whole.len() as int) =~= whole);
    out
}

/// The symbols of a Go file: functions and methods, then types, constants and variables.
pub open spec fn go_symbols(chars: Seq<char>, nodes: Seq<NodeModel>) -> Seq<SymbolModel> {
    by_rules(chars, nodes, Rules::Go, 0) + gather(
        syntax::spec_children(nodes, 0),
        go_statement_part(chars, nodes),
    )
}

fn extract_go_symbols(chars: &[char], nodes: &[Node]) -> (r: Vec<Symbol>)
    requires
        sound(chars@, syntax::models(nodes@)),
        nodes@.len() > 0,
    ensures
        symbols(r@) == go_symbols(chars@, syntax::models(nodes@)),
{
    let functions = extract_by_rules(chars, nodes, Rules::Go, 0);
    both(functions, extract_go_statements(chars, nodes, 0))
}

// ── C and C++ ────────────────────────────────────────────────────────

/// Whether a declarator wraps another one.
pub open spec fn wraps_declarator(kind: Seq<char>) -> bool {
    kind == "function_declarator"@ || kind == "pointer_declarator"@ || kind
        == "parenthesized_declarator"@
}

/// The identifier inside a C declarator: the first that is found, outermost first.
pub open spec fn c_name(chars: Seq<char>, nodes: Seq<NodeModel>, i: int) -> Option<Seq<char>>
    decreases 2 * (nodes.len() - i) + 1,
{
    if !(0 <= i < nodes.len()) {
        None
    } else if nodes[i].kind == "identifier"@ {
        Some(syntax::node_text(chars, nodes, i))
    } else if wraps_declarator(nodes[i].kind) {
        c_name_among(chars, nodes, i, i + 1)
    } else {
        None
    }
}

/// The first identifier inside the children of node `i` from node `j` on.
pub open spec fn c_name_among(chars: Seq<char>, nodes: Seq<NodeModel>, i: int, j: int) -> Option<
    Seq<char>,
>
    decreases 2 * (nodes.len() - j) + 2,
{
    if j >= nodes.len() || j <= i || nodes[j].depth <= nodes[i].depth {
        None
    } else if nodes[j].depth == nodes[i].depth + 1 && c_name(chars, nodes, j) is Some {
        c_name(chars, nodes, j)
    } else {
        c_name_among(chars, nodes, i, j + 1)
    }
}

fn find_c_function_name(chars: &[char], nodes: &[Node], i: usize) -> (r: Option<String>)
    requires
        sound(chars@, syntax::models(nodes@)),
        i < nodes@.len(),
    ensures
        syntax::text_of_option(r) == c_name(chars@, syntax::models(nodes@), i as int),
    decreases nodes@.len() - i,
{
    let ghost all = syntax::models(nodes@);
    if has_kind(nodes, i, "identifier") {
        return Some(text::string_of(node_chars(chars, nodes, i)));
    }
    if !has_kind(nodes, i, "function_declarator") && !has_kind(nodes, i, "pointer_declarator") && !has_kind(
        nodes,
        i,
        "parenthesized_declarator",
    ) {
        return None;
    }
    let n: usize = nodes.len();
    let depth: usize = nodes[i].depth;
    let mut j: usize = i + 1;
    while j < n && nodes[j].depth > depth
        invariant
            sound(chars@, all),
            all == syntax::models(nodes@),
            n == nodes@.len(),
            i < j <= n,
            depth == all[i as int].depth,
            c_name(chars@, all, i as int) == c_name_among(chars@, all, i as int, j as int),
        decreases n - j,
    {
        assert(all[j as int] == nodes@[j as int]@);
        if nodes[j].depth - depth == 1 {
            let found = find_c_function_name(chars, nodes, j);
            if found.is_some() {
                return found;
            }
        }
        j = j + 1;
    }
    proof {
        if j < n {
            assert(all[j as int] == nodes@[j as int]@);
        }
    }
    None
}

/// The symbol that a struct, union or enum specifier names, spanning node `node`.
pub open spec fn specified(chars: Seq<char>, nodes: Seq<NodeModel>, node: int, c: int) -> Seq<
    SymbolModel,
> {
    let kind = if nodes[c].kind == "struct_specifier"@ || nodes[c].kind == "union_specifier"@ {
        Some(SymbolKind::Struct)
    } else if nodes[c].kind == "enum_specifier"@ {
        Some(SymbolKind::Enum)
    } else {
        None
    };
    match (kind, syntax::spec_field_child(nodes, c, "name"@)) {
        (Some(k), Some(n)) => seq![made(chars, nodes, node, syntax::node_text(chars, nodes, n), k)],
        _ => Seq::empty(),
    }
}

fn extract_specified(chars: &[char], nodes: &[Node], node: usize, c: usize) -> (r: Vec<Symbol>)
    requires
        sound(chars@, syntax::models(nodes@)),
        node < nodes@.len(),
        c < nodes@.len(),
    ensures
        symbols(r@) == specified(chars@, syntax::models(nodes@), node as int, c as int),
{
    let kind = if has_kind(nodes, c, "struct_specifier") || has_kind(nodes, c, "union_specifier") {
        Some(SymbolKind::Struct)
    } else if has_kind(nodes, c, "enum_specifier") {
        Some(SymbolKind::Enum)
    } else {
        None
    };
    match (kind, syntax::field_child(nodes, c, "name")) {
        (Some(k), Some(n)) => {
            let name = text::string_of(node_chars(chars, nodes, n));
            one(make_symbol(chars, nodes, node, name, k))
        },
        _ => none(),
    }
}

/// The symbol of a top-level C declaration.
pub open spec fn c_statement(chars: Seq<char>, nodes: Seq<NodeModel>, c: int) -> Seq<SymbolModel> {
    if nodes[c].kind == "function_definition"@ {
        match syntax::spec_field_child(nodes, c, "declarator"@) {
            Some(d) => match c_name(chars, nodes, d) {
                Some(name) => seq![made(chars, nodes, c, name, SymbolKind::Function)],
                None => Seq::empty(),
            },
            None => Seq::empty(),
        }
    } else if nodes[c].kind == "declaration"@ {
        match syntax::spec_field_child(nodes, c, "type"@) {
            Some(t) => specified(chars, nodes, c, t),
            None => Seq::empty(),
        }
    } else {
        specified(chars, nodes, c, c)
    }
}

fn extract_c_statement(chars: &[char], nodes: &[Node], c: usize) -> (r: Vec<Symbol>)
    requires
        sound(chars@, syntax::models(nodes@)),
        c < nodes@.len(),
    ensures
        symbols(r@) == c_statement(chars@, syntax::models(nodes@), c as int),
{
    if has_kind(nodes, c, "function_definition") {
        match syntax::field_child(nodes, c, "declarator") {
            Some(d) => match find_c_function_name(chars, nodes, d) {
                Some(name) => one(make_symbol(chars, nodes, c, name, SymbolKind::Function)),
                None => none(),
            },
            None => none(),
        }
    } else if has_kind(nodes, c, "declaration") {
        match syntax::field_child(nodes, c, "type") {
            Some(t) => extract_specified(chars, nodes, c, t),
            None => none(),
        }
    } else {
        extract_specified(chars, nodes, c, c)
    }
}

/// `c_statement` as a function of the declaration.
pub open spec fn c_statement_part(chars: Seq<char>, nodes: Seq<NodeModel>) -> spec_fn(int) -> Seq<
    SymbolModel,
> {
    |c: int| c_statement(chars, nodes, c)
}

/// The symbols of a C or C++ file.
fn extract_c_symbols(chars: &[char], nodes: &[Node], i: usize) -> (r: Vec<Symbol>)
    requires
        sound(chars@, syntax::models(nodes@)),
        i < nodes@.len(),
    ensures
        symbols(r@) == gather(
            syntax::spec_children(syntax::models(nodes@), i as int),
            c_statement_part(chars@, syntax::models(nodes@)),
        ),
{
    let list = syntax::children(nodes, i);
    let ghost whole = syntax::ints(list@);
    let ghost f = c_statement_part(chars@, syntax::models(nodes@));
    let mut out = none();
    assert(whole.take(0) =~= Seq::empty());
    for k in 0..list.len()
        invariant
            sound(chars@, syntax::models(nodes@)),
            whole == syntax::ints(list@),
            forall|k: int| 0 <= k < list@.len() ==> i < #[trigger] list@[k] < nodes@.len(),
            f == c_statement_part(chars@, syntax::models(nodes@)),
            symbols(out@) == gather(whole.take(k as int), f),
    {
        let c: usize = list[k];
        proof {
            assert(whole.take(k + 1).drop_last() =~= whole.take(k as int));
            assert(whole.take(k + 1).last() == c);
        }
        out = both(out, extract_c_statement(chars, nodes, c));
    }
    assert(whole.take(whole.len() as int) =~= whole);
    out
}

// ── Whole files ──────────────────────────────────────────────────────

/// The grammar for a file extension.
pub open spec fn spec_grammar(extension: Seq<char>) -> Option<Grammar> {
    if extension == "js"@ || extension == "jsx"@ || extension == "mjs"@ || extension == "cjs"@ {
        Some(Grammar::JavaScript)
    } else if extension == "ts"@ {
        Some(Grammar::TypeScript)
    } else if extension == "tsx"@ {
        Some(Grammar::Tsx)
    } else if extension == "py"@ || extension == "pyi"@ {
        Some(Grammar::Python)
    } else if extension == "rs"@ {
        Some(Grammar::Rust)
    } else if extension == "go"@ {
        Some(Grammar::Go)
    } else if extension == "c"@ || extension == "h"@ {
        Some(Grammar::C)
    } else if extension == "cpp"@ || extension == "cc"@ || extension == "cxx"@ || extension
        == "hpp"@ || extension == "hxx"@ {
        Some(Grammar::Cpp)
    } else {
        None
    }
}

/// Get the grammar for a file extension.
pub fn get_language(extension: &str) -> (r: Option<Grammar>)
    ensures
        r == spec_grammar(extension@),
{
    if text::same(extension, "js") || text::same(extension, "jsx") || text::same(extension, "mjs")
        || text::same(extension, "cjs") {
        Some(Grammar::JavaScript)
    } else if text::same(extension, "ts") {
        Some(Grammar::TypeScript)
    } else if text::same(extension, "tsx") {
        Some(Grammar::Tsx)
    } else if text::same(extension, "py") || text::same(extension, "pyi") {
        Some(Grammar::Python)
    } else if text::same(extension, "rs") {
        Some(Grammar::Rust)
    } else if text::same(extension, "go") {
        Some(Grammar::Go)
    } else if text::same(extension, "c") || text::same(extension, "h") {
        Some(Grammar::C)
    } else if text::same(extension, "cpp") || text::same(extension, "cc") || text::same(
        extension,
        "cxx",
    ) || text::same(extension, "hpp") || text::same(extension, "hxx") {
        Some(Grammar::Cpp)
    } else {
        None
    }
}

/// The symbols of a file, given the nodes of its tree.
pub open spec fn file_symbols(chars: Seq<char>, nodes: Seq<NodeModel>, grammar: Grammar) -> Seq<
    SymbolModel,
> {
    if nodes.len() == 0 {
        Seq::empty()
    } else {
        match grammar {
            Grammar::JavaScript => js_symbols(chars, nodes),
            Grammar::TypeScript | Grammar::Tsx => ts_symbols(chars, nodes),
            Grammar::Python => python_symbols(chars, nodes),
            Grammar::Rust => by_rules(chars, nodes, Rules::Rust, 0),
            Grammar::Go => go_symbols(chars, nodes),
            Grammar::C | Grammar::Cpp => gather(
                syntax::spec_children(nodes, 0),
                c_statement_part(chars, nodes),
            ),
        }
    }
}

/// The symbols of a file, given the nodes of its tree.
pub fn extract_from_nodes(chars: &[char], nodes: &[Node], grammar: Grammar) -> (r: Vec<Symbol>)
    requires
        sound(chars@, syntax::models(nodes@)),
    ensures
        symbols(r@) == file_symbols(chars@, syntax::models(nodes@), grammar),
{
    if nodes.len() == 0 {
        return none();
    }
    match grammar {
        Grammar::JavaScript => extract_js_symbols(chars, nodes),
        Grammar::TypeScript => extract_ts_symbols(chars, nodes),
        Grammar::Tsx => extract_ts_symbols(chars, nodes),
        Grammar::Python => extract_python_symbols(chars, nodes),
        Grammar::Rust => extract_by_rules(chars, nodes, Rules::Rust, 0),
        Grammar::Go => extract_go_symbols(chars, nodes),
        Grammar::C => extract_c_symbols(chars, nodes, 0),
        Grammar::Cpp => extract_c_symbols(chars, nodes, 0),
    }
}

/// Why no symbols could be extracted.
#[derive(Debug)]
pub enum ExtractError {
    /// No grammar is known for the extension.
    UnsupportedLanguage { extension: String },
    /// There is no syntax tree.
    Syntax(SyntaxError),
}

impl ExtractError {
    /// What the error says.
    pub open spec fn spec_message(self) -> Seq<char> {
        match self {
            ExtractError::UnsupportedLanguage { extension } => "Unsupported language: ."@
                + extension@,
            ExtractError::Syntax(SyntaxError::IncompatibleGrammar) =>
                "Incompatible language version"@,
            ExtractError::Syntax(SyntaxError::ParseFailed) => "Failed to parse source"@,
            ExtractError::Syntax(SyntaxError::TooLarge) => "Source too large to parse"@,
        }
    }

    /// What the error says.
    pub fn message(&self) -> (r: String)
        ensures
            r@ == self.spec_message(),
    {
        match self {
            ExtractError::UnsupportedLanguage { extension } => text::owned(
                "Unsupported language: .",
            ).concat(extension.as_str()),
            ExtractError::Syntax(SyntaxError::IncompatibleGrammar) => text::owned(
                "Incompatible language version",
            ),
            ExtractError::Syntax(SyntaxError::ParseFailed) => text::owned(
                "Failed to parse source",
            ),
            ExtractError::Syntax(SyntaxError::TooLarge) => text::owned(
                "Source too large to parse",
            ),
        }
    }
}

/// What the outcome of a parse gives: the symbols of the file, or nothing.
pub open spec fn symbols_found(
    source: Seq<char>,
    grammar: Grammar,
    nodes: Result<Seq<NodeModel>, SyntaxError>,
) -> Option<Seq<SymbolModel>> {
    match nodes {
        Ok(nodes) => Some(file_symbols(source, nodes, grammar)),
        Err(_) => None,
    }
}

/// Whether `r` is what extracting symbols from a text can give: the symbols of a tree that its
/// grammar gives, or nothing where there is no grammar or the text is too large.
pub open spec fn extracts(
    source: Seq<char>,
    extension: Seq<char>,
    r: Option<Seq<SymbolModel>>,
) -> bool {
    match spec_grammar(extension) {
        Some(grammar) => exists|nodes: Result<Seq<NodeModel>, SyntaxError>| #[trigger]
            syntax::gives_nodes(source, grammar, nodes) && r == symbols_found(
                source,
                grammar,
                nodes,
            ),
        None => r is None,
    }
}

/// The symbols of a successful extraction.
pub open spec fn extracted(r: Result<Vec<Symbol>, ExtractError>) -> Option<Seq<SymbolModel>> {
    match r {
        Ok(v) => Some(symbols(v@)),
        Err(_) => None,
    }
}

/// Extract symbols from source code using its syntax tree.
pub fn extract_symbols(source: &str, extension: &str) -> (r: Result<Vec<Symbol>, ExtractError>)
    ensures
        extracts(source@, extension@, extracted(r)),
        match r {
            Ok(_) => spec_grammar(extension@) is Some && width::bytes_of(source@)
                < syntax::MAX_SOURCE_BYTES,
            Err(ExtractError::UnsupportedLanguage { extension: e }) => spec_grammar(
                extension@,
            ) is None && e@ == extension@,
            Err(ExtractError::Syntax(e)) => spec_grammar(extension@) is Some && width::bytes_of(
                source@,
            ) >= syntax::MAX_SOURCE_BYTES && e == SyntaxError::TooLarge,
        },
{
    let grammar = match get_language(extension) {
        Some(grammar) => grammar,
        None => {
            return Err(ExtractError::UnsupportedLanguage { extension: text::owned(extension) });
        },
    };
    let chars = text::chars_of(source);
    let parsed = syntax::nodes_of(source, chars.as_slice(), grammar);
    assert(syntax::gives_nodes(source@, grammar, syntax::outcome(parsed)));
    match parsed {
        Ok(nodes) => Ok(extract_from_nodes(chars.as_slice(), nodes.as_slice(), grammar)),
        Err(e) => Err(ExtractError::Syntax(e)),
    }
}

// ── Inner symbols of large functions ─────────────────────────────────

/// A symbol inside a function: it has no code of its own.
pub open spec fn inner(name: Seq<char>, start: nat, end: nat, signature: Seq<char>) -> SymbolModel {
    SymbolModel {
        name,
        kind: SymbolKind::Function,
        start_line: start,
        end_line: end,
        signature: text::first_n(signature, 120),
        code: Seq::empty(),
    }
}

fn make_inner(name: String, start: usize, end: usize, signature: &[char]) -> (r: Symbol)
    ensures
        r@ == inner(name@, start as nat, end as nat, signature@),
{
    let code = String::new();
    assert(code@ =~= Seq::empty());
    Symbol {
        name,
        kind: SymbolKind::Function,
        start_line: start,
        end_line: end,
        signature: text::string_of(text::head(signature, 120)),
        code,
    }
}

/// The symbol of one declarator of declaration `node`: a function, or a call of a hook.
pub open spec fn inner_declarator(
    chars: Seq<char>,
    nodes: Seq<NodeModel>,
    base: nat,
    node: int,
    c: int,
) -> Seq<SymbolModel> {
    let line = base + nodes[node].start_row;
    let signature = spec_first_line(syntax::node_text(chars, nodes, node));
    if nodes[c].kind == "variable_declarator"@ {
        match (
            syntax::spec_field_child(nodes, c, "name"@),
            syntax::spec_field_child(nodes, c, "value"@),
        ) {
            (Some(n), Some(v)) => {
                let name = syntax::node_text(chars, nodes, n);
                let value = syntax::node_text(chars, nodes, v);
                if nodes[v].kind == "arrow_function"@ || nodes[v].kind == "function"@ {
                    seq![inner(name, line, base + nodes[node].end_row, signature)]
                } else if nodes[v].kind == "call_expression"@ && text::begins(value, "use"@) {
                    seq![
                        inner(
                            name + " = "@ + spec_before(value, '(') + "(...)"@,
                            line,
                            line,
                            signature,
                        ),
                    ]
                } else {
                    Seq::empty()
                }
            },
            _ => Seq::empty(),
        }
    } else {
        Seq::empty()
    }
}

/// Whether line numbers counted from `base` stay within a `usize`.
pub open spec fn countable(chars: Seq<char>, base: nat) -> bool {
    base + syntax::newlines(chars) <= usize::MAX
}

fn extract_inner_declarator(
    chars: &[char],
    nodes: &[Node],
    base: usize,
    node: usize,
    c: usize,
) -> (r: Vec<Symbol>)
    requires
        sound(chars@, syntax::models(nodes@)),
        countable(chars@, base as nat),
        node < nodes@.len(),
        c < nodes@.len(),
    ensures
        symbols(r@) == inner_declarator(
            chars@,
            syntax::models(nodes@),
            base as nat,
            node as int,
            c as int,
        ),
{
    assert(syntax::models(nodes@)[node as int] == nodes@[node as int]@);
    let line: usize = base + nodes[node].start_row;
    let signature = first_line(node_chars(chars, nodes, node));
    if !has_kind(nodes, c, "variable_declarator") {
        return none();
    }
    match (syntax::field_child(nodes, c, "name"), syntax::field_child(nodes, c, "value")) {
        (Some(n), Some(v)) => {
            let name = text::string_of(node_chars(chars, nodes, n));
            let value = node_chars(chars, nodes, v);
            if has_kind(nodes, v, "arrow_function") || has_kind(nodes, v, "function") {
                one(make_inner(name, line, base + nodes[node].end_row, signature))
            } else if has_kind(nodes, v, "call_expression") && text::starts_with(value, "use") {
                let hook = text::string_of(before(value, '('));
                let full = name.concat(" = ").concat(hook.as_str()).concat("(...)");
                one(make_inner(full, line, line, signature))
            } else {
                none()
            }
        },
        _ => none(),
    }
}

/// `inner_declarator` as a function of the declarator.
pub open spec fn inner_declarator_part(
    chars: Seq<char>,
    nodes: Seq<NodeModel>,
    base: nat,
    node: int,
) -> spec_fn(int) -> Seq<SymbolModel> {
    |c: int| inner_declarator(chars, nodes, base, node, c)
}

fn extract_inner_declarators(chars: &[char], nodes: &[Node], base: usize, i: usize) -> (r: Vec<
    Symbol,
>)
    requires
        sound(chars@, syntax::models(nodes@)),
        countable(chars@, base as nat),
        i < nodes@.len(),
    ensures
        symbols(r@) == gather(
            syntax::spec_children(syntax::models(nodes@), i as int),
            inner_declarator_part(chars@, syntax::models(nodes@), base as nat, i as int),
        ),
{
    let list = syntax::children(nodes, i);
    let ghost whole = syntax::ints(list@);
    let ghost f = inner_declarator_part(chars@, syntax::models(nodes@), base as nat, i as int);
    let mut out = none();
    assert(whole.take(0) =~= Seq::empty());
    for k in 0..list.len()
        invariant
            sound(chars@, syntax::models(nodes@)),
            countable(chars@, base as nat),
            i < nodes@.len(),
            whole == syntax::ints(list@),
            forall|k: int| 0 <= k < list@.len() ==> i < #[trigger] list@[k] < nodes@.len(),
            f == inner_declarator_part(chars@, syntax::models(nodes@), base as nat, i as int),
            symbols(out@) == gather(whole.take(k as int), f),
    {
        let c: usize = list[k];
        proof {
            assert(whole.take(k + 1).drop_last() =~= whole.take(k as int));
            assert(whole.take(k + 1).last() == c);
        }
        out = both(out, extract_inner_declarator(chars, nodes, base, i, c));
    }
    assert(whole.take(whole.len() as int) =~= whole);
    out
}

/// Whether every character is alphanumeric.
pub open spec fn all_alphanumeric(s: Seq<char>) -> bool {
    forall|i: int| 0 <= i < s.len() ==> text::char_is_alphanumeric(#[trigger] s[i])
}

fn is_all_alphanumeric(s: &[char]) -> (r: bool)
    ensures
        r == all_alphanumeric(s@),
{
    for i in 0..s.len()
        invariant
            forall|j: int| 0 <= j < i ==> text::char_is_alphanumeric(#[trigger] s@[j]),
    {
        if !s[i].is_alphanumeric() {
            return false;
        }
    }
    true
}

/// The symbol of an expression statement: a call of a hook, such as `useEffect(...)`.
pub open spec fn inner_expression(chars: Seq<char>, nodes: Seq<NodeModel>, base: nat, c: int) -> Seq<
    SymbolModel,
> {
    let code = text::spec_trim_start(syntax::node_text(chars, nodes, c));
    let hook = spec_before(code, '(');
    if text::begins(code, "use"@) && text::spec_find_char(code, '(') is Some && hook.len() > 3
        && all_alphanumeric(hook) {
        seq![
            inner(
                hook + "(...)"@,
                base + nodes[c].start_row,
                base + nodes[c].end_row,
                spec_first_line(code),
            ),
        ]
    } else {
        Seq::empty()
    }
}

fn extract_inner_expression(chars: &[char], nodes: &[Node], base: usize, c: usize) -> (r: Vec<
    Symbol,
>)
    requires
        sound(chars@, syntax::models(nodes@)),
        countable(chars@, base as nat),
        c < nodes@.len(),
    ensures
        symbols(r@) == inner_expression(
            chars@,
            syntax::models(nodes@),
            base as nat,
            c as int,
        ),
{
    assert(syntax::models(nodes@)[c as int] == nodes@[c as int]@);
    let code = text::trim_start(node_chars(chars, nodes, c));
    let hook = before(code, '(');
    if text::starts_with(code, "use") && text::find_char(code, '(').is_some() && hook.len() > 3
        && is_all_alphanumeric(hook) {
        let name = text::string_of(hook).concat("(...)");
        one(
            make_inner(
                name,
                base + nodes[c].start_row,
                base + nodes[c].end_row,
                first_line(code),
            ),
        )
    } else {
        none()
    }
}

/// The symbols of one statement of a function body.
pub open spec fn inner_statement(chars: Seq<char>, nodes: Seq<NodeModel>, base: nat, c: int) -> Seq<
    SymbolModel,
> {
    if nodes[c].kind == "function_declaration"@ {
        match syntax::spec_field_child(nodes, c, "name"@) {
            Some(n) => seq![
                inner(
                    syntax::node_text(chars, nodes, n),
                    base + nodes[c].start_row,
                    base + nodes[c].end_row,
                    spec_first_line(syntax::node_text(chars, nodes, c)),
                ),
            ],
            None => Seq::empty(),
        }
    } else if declares_variables(nodes[c].kind) {
        gather(
            syntax::spec_children(nodes, c),
            inner_declarator_part(chars, nodes, base, c),
        )
    } else if nodes[c].kind == "expression_statement"@ {
        inner_expression(chars, nodes, base, c)
    } else {
        Seq::empty()
    }
}

fn extract_inner_statement(chars: &[char], nodes: &[Node], base: usize, c: usize) -> (r: Vec<
    Symbol,
>)
    requires
        sound(chars@, syntax::models(nodes@)),
        countable(chars@, base as nat),
        c < nodes@.len(),
    ensures
        symbols(r@) == inner_statement(chars@, syntax::models(nodes@), base as nat, c as int),
{
    assert(syntax::models(nodes@)[c as int] == nodes@[c as int]@);
    if has_kind(nodes, c, "function_declaration") {
        match syntax::field_child(nodes, c, "name") {
            Some(n) => {
                let name = text::string_of(node_chars(chars, nodes, n));
                one(
                    make_inner(
                        name,
                        base + nodes[c].start_row,
                        base + nodes[c].end_row,
                        first_line(node_chars(chars, nodes, c)),
                    ),
                )
            },
            None => none(),
        }
    } else if has_kind(nodes, c, "lexical_declaration") || has_kind(
        nodes,
        c,
        "variable_declaration",
    ) {
        extract_inner_declarators(chars, nodes, base, c)
    } else if has_kind(nodes, c, "expression_statement") {
        extract_inner_expression(chars, nodes, base, c)
    } else {
        none()
    }
}

/// Whether the statements of a node are looked into.
pub open spec fn opens_block(kind: Seq<char>) -> bool {
    kind == "statement_block"@ || kind == "if_statement"@ || kind == "try_statement"@ || kind
        == "switch_body"@
}

/// The symbols of a list of statements and of the blocks among them, down to five levels.
pub open spec fn inner_statements(
    chars: Seq<char>,
    nodes: Seq<NodeModel>,
    base: nat,
    list: Seq<int>,
    depth: nat,
) -> Seq<SymbolModel>
    decreases 6 - depth, list.len(),
{
    if depth > 5 || list.len() == 0 {
        Seq::empty()
    } else {
        let c = list.last();
        inner_statements(chars, nodes, base, list.drop_last(), depth) + if opens_block(
            nodes[c].kind,
        ) {
            inner_statements(chars, nodes, base, syntax::spec_children(nodes, c), depth + 1)
        } else {
            inner_statement(chars, nodes, base, c)
        }
    }
}

/// Walk the tree inside a function body to find inner declarations.
fn extract_inner_from_ast(
    chars: &[char],
    nodes: &[Node],
    base: usize,
    i: usize,
    depth: usize,
) -> (r: Vec<Symbol>)
    requires
        sound(chars@, syntax::models(nodes@)),
        countable(chars@, base as nat),
        i < nodes@.len(),
        depth <= 6,
    ensures
        symbols(r@) == inner_statements(
            chars@,
            syntax::models(nodes@),
            base as nat,
            syntax::spec_children(syntax::models(nodes@), i as int),
            depth as nat,
        ),
    decreases 6 - depth,
{
    if depth > 5 {
        return none();
    }
    let list = syntax::children(nodes, i);
    let ghost all = syntax::models(nodes@);
    let ghost whole = syntax::ints(list@);
    let mut out = none();
    assert(whole.take(0) =~= Seq::empty());
    for k in 0..list.len()
        invariant
            sound(chars@, all),
            countable(chars@, base as nat),
            all == syntax::models(nodes@),
            whole == syntax::ints(list@),
            depth <= 5,
            forall|k: int| 0 <= k < list@.len() ==> i < #[trigger] list@[k] < nodes@.len(),
            symbols(out@) == inner_statements(
                chars@,
                all,
                base as nat,
                whole.take(k as int),
                depth as nat,
            ),
    {
        let c: usize = list[k];
        proof {
            assert(whole.take(k + 1).drop_last() =~= whole.take(k as int));
            assert(whole.take(k + 1).last() == c);
        }
        let found = if has_kind(nodes, c, "statement_block") || has_kind(nodes, c, "if_statement")
            || has_kind(nodes, c, "try_statement") || has_kind(nodes, c, "switch_body") {
            extract_inner_from_ast(chars, nodes, base, c, depth + 1)
        } else {
            extract_inner_statement(chars, nodes, base, c)
        };
        out = both(out, found);
    }
    assert(whole.take(whole.len() as int) =~= whole);
    out
}

/// The symbols inside a function that its tree shows.
pub open spec fn tree_symbols(chars: Seq<char>, nodes: Seq<NodeModel>, base: nat) -> Seq<
    SymbolModel,
> {
    if nodes.len() == 0 {
        Seq::empty()
    } else {
        inner_statements(chars, nodes, base, syntax::spec_children(nodes, 0), 0)
    }
}

/// The symbols inside a function, given the nodes of its tree.
pub fn inner_from_nodes(chars: &[char], nodes: &[Node], base_line: usize) -> (r: Vec<Symbol>)
    requires
        sound(chars@, syntax::models(nodes@)),
        countable(chars@, base_line as nat),
    ensures
        symbols(r@) == tree_symbols(chars@, syntax::models(nodes@), base_line as nat),
{
    if nodes.len() == 0 {
        none()
    } else {
        extract_inner_from_ast(chars, nodes, base_line, 0, 0)
    }
}

// ── Inner symbols, line by line ──────────────────────────────────────

/// The first of the known hooks that a line mentions.
pub open spec fn spec_known_hook(line: Seq<char>) -> Option<Seq<char>> {
    if text::has(line, "useState"@) {
        Some("useState"@)
    } else if text::has(line, "useEffect"@) {
        Some("useEffect"@)
    } else if text::has(line, "useMemo"@) {
        Some("useMemo"@)
    } else if text::has(line, "useCallback"@) {
        Some("useCallback"@)
    } else if text::has(line, "useRef"@) {
        Some("useRef"@)
    } else if text::has(line, "useReducer"@) {
        Some("useReducer"@)
    } else if text::has(line, "useContext"@) {
        Some("useContext"@)
    } else if text::has(line, "useLayoutEffect"@) {
        Some("useLayoutEffect"@)
    } else if text::has(line, "useImperativeHandle"@) {
        Some("useImperativeHandle"@)
    } else if text::has(line, "useDebugValue"@) {
        Some("useDebugValue"@)
    } else if text::has(line, "useTransition"@) {
        Some("useTransition"@)
    } else if text::has(line, "useDeferredValue"@) {
        Some("useDeferredValue"@)
    } else if text::has(line, "useId"@) {
        Some("useId"@)
    } else {
        None
    }
}

fn known_hook(line: &[char]) -> (r: Option<&'static str>)
    ensures
        match r {
            Some(h) => spec_known_hook(line@) == Some(h@),
            None => spec_known_hook(line@) is None,
        },
{
    if text::contains(line, "useState") {
        Some("useState")
    } else if text::contains(line, "useEffect") {
        Some("useEffect")
    } else if text::contains(line, "useMemo") {
        Some("useMemo")
    } else if text::contains(line, "useCallback") {
        Some("useCallback")
    } else if text::contains(line, "useRef") {
        Some("useRef")
    } else if text::contains(line, "useReducer") {
        Some("useReducer")
    } else if text::contains(line, "useContext") {
        Some("useContext")
    } else if text::contains(line, "useLayoutEffect") {
        Some("useLayoutEffect")
    } else if text::contains(line, "useImperativeHandle") {
        Some("useImperativeHandle")
    } else if text::contains(line, "useDebugValue") {
        Some("useDebugValue")
    } else if text::contains(line, "useTransition") {
        Some("useTransition")
    } else if text::contains(line, "useDeferredValue") {
        Some("useDeferredValue")
    } else if text::contains(line, "useId") {
        Some("useId")
    } else {
        None
    }
}

/// The variable that a declaration names before its equals sign.
pub open spec fn declared_name(left: Seq<char>) -> Seq<char> {
    text::spec_trim(
        text::spec_strip_leading(
            text::spec_strip_leading(
                text::spec_strip_leading(text::spec_trim(left), "const "@),
                "let "@,
            ),
            "var "@,
        ),
    )
}

/// The name of a call of a known hook on a line: `x = useState(...)` or `useEffect(...)`.
pub open spec fn spec_hook_call(line: Seq<char>) -> Option<Seq<char>> {
    match spec_known_hook(line) {
        Some(hook) => if text::spec_find_char(line, '(') is None {
            None
        } else {
            match text::spec_find_char(line, '=') {
                Some(i) => if declared_name(line.take(i)).len() > 0 {
                    Some(declared_name(line.take(i)) + " = "@ + hook + "(...)"@)
                } else {
                    Some(hook + "(...)"@)
                },
                None => Some(hook + "(...)"@),
            }
        },
        None => None,
    }
}

fn extract_hook_call(line: &[char]) -> (r: Option<String>)
    ensures
        syntax::text_of_option(r) == spec_hook_call(line@),
{
    let hook = match known_hook(line) {
        Some(hook) => hook,
        None => {
            return None;
        },
    };
    if text::find_char(line, '(').is_none() {
        return None;
    }
    match text::find_char(line, '=') {
        Some(i) => {
            let left = slice_subrange(line, 0, i);
            assert(left@ =~= line@.take(i as int));
            let name = text::trim(
                text::strip_leading(
                    text::strip_leading(
                        text::strip_leading(text::trim(left), "const "),
                        "let ",
                    ),
                    "var ",
                ),
            );
            if name.len() > 0 {
                Some(text::string_of(name).concat(" = ").concat(hook).concat("(...)"))
            } else {
                Some(text::owned(hook).concat("(...)"))
            }
        },
        None => Some(text::owned(hook).concat("(...)")),
    }
}

/// Whether a character can stand in a JavaScript name.
pub open spec fn name_char(c: char) -> bool {
    text::char_is_alphanumeric(c) || c == '_' || c == '$'
}

/// Whether every character can stand in a JavaScript name.
pub open spec fn all_name_chars(s: Seq<char>) -> bool {
    forall|i: int| 0 <= i < s.len() ==> name_char(#[trigger] s[i])
}

fn is_name(s: &[char]) -> (r: bool)
    ensures
        r == all_name_chars(s@),
{
    for i in 0..s.len()
        invariant
            forall|j: int| 0 <= j < i ==> name_char(#[trigger] s@[j]),
    {
        if !(s[i].is_alphanumeric() || s[i] == '_' || s[i] == '$') {
            return false;
        }
    }
    true
}

/// The name of a variable that a line assigns a function to, after `prefix`.
pub open spec fn spec_assigned_function(line: Seq<char>, prefix: Seq<char>) -> Option<Seq<char>> {
    match text::spec_strip_prefix(line, prefix) {
        Some(rest) => match text::spec_find(rest, " = "@) {
            Some(i) => {
                let name = text::spec_trim(rest.take(i));
                let value = text::spec_trim(rest.skip(i + 3));
                if (text::begins(value, "("@) || text::begins(value, "async "@) || text::begins(
                    value,
                    "function"@,
                ) || text::has(value, "=>"@)) && all_name_chars(name) {
                    Some(name)
                } else {
                    None
                }
            },
            None => None,
        },
        None => None,
    }
}

fn assigned_function(line: &[char], prefix: &str) -> (r: Option<String>)
    ensures
        syntax::text_of_option(r) == spec_assigned_function(line@, prefix@),
{
    let rest = match text::strip_prefix(line, prefix) {
        Some(rest) => rest,
        None => {
            return None;
        },
    };
    match text::find(rest, " = ") {
        Some(i) => {
            proof {
                reveal_strlit(" = ");
            }
            let n: usize = rest.len();
            let left = slice_subrange(rest, 0, i);
            let right = slice_subrange(rest, i + 3, n);
            assert(left@ =~= rest@.take(i as int));
            assert(right@ =~= rest@.skip(i + 3));
            let name = text::trim(left);
            let value = text::trim(right);
            if (text::starts_with(value, "(") || text::starts_with(value, "async ")
                || text::starts_with(value, "function") || text::contains(value, "=>"))
                && is_name(name) {
                Some(text::string_of(name))
            } else {
                None
            }
        },
        None => None,
    }
}

/// The name of a function that a line declares, after `prefix`.
pub open spec fn spec_declared_function(line: Seq<char>, prefix: Seq<char>) -> Option<Seq<char>> {
    match text::spec_strip_prefix(line, prefix) {
        Some(rest) => match text::spec_find_char(rest, '(') {
            Some(i) => {
                let name = text::spec_trim(rest.take(i));
                if name.len() > 0 && all_name_chars(name) {
                    Some(name)
                } else {
                    None
                }
            },
            None => None,
        },
        None => None,
    }
}

fn declared_function(line: &[char], prefix: &str) -> (r: Option<String>)
    ensures
        syntax::text_of_option(r) == spec_declared_function(line@, prefix@),
{
    let rest = match text::strip_prefix(line, prefix) {
        Some(rest) => rest,
        None => {
            return None;
        },
    };
    match text::find_char(rest, '(') {
        Some(i) => {
            let left = slice_subrange(rest, 0, i);
            assert(left@ =~= rest@.take(i as int));
            let name = text::trim(left);
            if name.len() > 0 && is_name(name) {
                Some(text::string_of(name))
            } else {
                None
            }
        },
        None => None,
    }
}

/// The first of two results that is there.
pub open spec fn first_some(a: Option<Seq<char>>, b: Option<Seq<char>>) -> Option<Seq<char>> {
    if a is Some {
        a
    } else {
        b
    }
}

/// The name that a line declares a function under: a variable with a function for a value, or
/// a function declaration.
pub open spec fn spec_inner_declaration(line: Seq<char>) -> Option<Seq<char>> {
    first_some(
        spec_assigned_function(line, "const "@),
        first_some(
            spec_assigned_function(line, "let "@),
            first_some(
                spec_assigned_function(line, "var "@),
                first_some(
                    spec_declared_function(line, "function "@),
                    spec_declared_function(line, "async function "@),
                ),
            ),
        ),
    )
}

fn extract_inner_declaration(line: &[char]) -> (r: Option<String>)
    ensures
        syntax::text_of_option(r) == spec_inner_declaration(line@),
{
    let found = assigned_function(line, "const ");
    if found.is_some() {
        return found;
    }
    let found = assigned_function(line, "let ");
    if found.is_some() {
        return found;
    }
    let found = assigned_function(line, "var ");
    if found.is_some() {
        return found;
    }
    let found = declared_function(line, "function ");
    if found.is_some() {
        return found;
    }
    declared_function(line, "async function ")
}

/// The symbol that a line shows by itself.
pub open spec fn line_symbol(line: Seq<char>, n: nat) -> Seq<SymbolModel> {
    let trimmed = text::spec_trim(line);
    match first_some(spec_hook_call(trimmed), spec_inner_declaration(trimmed)) {
        Some(name) => seq![inner(name, n, n, trimmed)],
        None => Seq::empty(),
    }
}

/// Whether a symbol starts on a line.
pub open spec fn starts_at(found: Seq<SymbolModel>, n: nat) -> bool {
    exists|i: int| 0 <= i < found.len() && (#[trigger] found[i]).start_line == n
}

/// The symbols of the lines on which none was found before.
pub open spec fn line_symbols(
    lines: Seq<Seq<char>>,
    base: nat,
    found: Seq<SymbolModel>,
) -> Seq<SymbolModel>
    decreases lines.len(),
{
    if lines.len() == 0 {
        Seq::empty()
    } else {
        let n = (base + lines.len() - 1) as nat;
        line_symbols(lines.drop_last(), base, found) + if starts_at(found, n) {
            Seq::empty()
        } else {
            line_symbol(lines.last(), n)
        }
    }
}

fn any_starts_at(found: &[Symbol], n: usize) -> (r: bool)
    ensures
        r == starts_at(symbols(found@), n as nat),
{
    for i in 0..found.len()
        invariant
            forall|j: int| 0 <= j < i ==> (#[trigger] symbols(found@)[j]).start_line != n,
    {
        assert(symbols(found@)[i as int] == found@[i as int]@);
        if found[i].start_line == n {
            return true;
        }
    }
    false
}

proof fn lemma_newlines_concat(a: Seq<char>, b: Seq<char>)
    ensures
        syntax::newlines(a + b) == syntax::newlines(a) + syntax::newlines(b),
    decreases b.len(),
{
    if b.len() == 0 {
        assert(a + b =~= a);
    } else {
        assert((a + b).drop_last() =~= a + b.drop_last());
        lemma_newlines_concat(a, b.drop_last());
    }
}

/// A text has at most one line more than it has line feeds.
proof fn lemma_line_count(s: Seq<char>)
    ensures
        text::spec_lines(s).len() <= syntax::newlines(s) + 1,
    decreases s.len(),
{
    text::lemma_find_char_from(s, '\n', 0);
    match text::spec_find_char(s, '\n') {
        Some(i) => {
            let first = s.take(i + 1);
            let rest = s.skip(i + 1);
            assert(s =~= first + rest);
            lemma_newlines_concat(first, rest);
            assert(first.last() == '\n');
            lemma_line_count(rest);
        },
        None => {},
    }
}

/// The first line symbol of a line.
fn make_line_symbol(line: &[char], n: usize) -> (r: Vec<Symbol>)
    ensures
        symbols(r@) == line_symbol(line@, n as nat),
{
    let trimmed = text::trim(line);
    match extract_hook_call(trimmed) {
        Some(name) => one(make_inner(name, n, n, trimmed)),
        None => match extract_inner_declaration(trimmed) {
            Some(name) => one(make_inner(name, n, n, trimmed)),
            None => none(),
        },
    }
}

fn extract_line_symbols(chars: &[char], base: usize, found: &[Symbol]) -> (r: Vec<Symbol>)
    requires
        countable(chars@, base as nat),
    ensures
        symbols(r@) == line_symbols(
            text::spec_lines(chars@),
            base as nat,
            symbols(found@),
        ),
{
    let lines = text::lines(chars);
    let ghost whole = text::slices(lines@);
    let mut out = none();
    proof {
        lemma_line_count(chars@);
        assert(whole.take(0) =~= Seq::empty());
    }
    for k in 0..lines.len()
        invariant
            whole == text::slices(lines@),
            base + whole.len() <= usize::MAX + 1,
            symbols(out@) == line_symbols(
                whole.take(k as int),
                base as nat,
                symbols(found@),
            ),
    {
        proof {
            assert(whole.take(k + 1).drop_last() =~= whole.take(k as int));
            assert(whole.take(k + 1).last() == lines@[k as int]@);
        }
        let n: usize = base + k;
        if !any_starts_at(found, n) {
            out = both(out, make_line_symbol(lines[k], n));
        } else {
            out = both(out, none());
        }
    }
    assert(whole.take(whole.len() as int) =~= whole);
    out
}

/// The lines that symbols start on.
pub open spec fn start_lines(all: Seq<SymbolModel>) -> Seq<usize> {
    all.map_values(|s: SymbolModel| s.start_line as usize)
}

/// The elements of a list in a given order.
pub open spec fn arranged(all: Seq<SymbolModel>, order: Seq<usize>) -> Seq<SymbolModel> {
    order.map_values(|k: usize| all[k as int])
}

/// The list without a symbol that starts on the line of the one before it.
pub open spec fn one_per_line(s: Seq<SymbolModel>) -> Seq<SymbolModel>
    decreases s.len(),
{
    if s.len() == 0 {
        Seq::empty()
    } else {
        let before = one_per_line(s.drop_last());
        if before.len() > 0 && before.last().start_line == s.last().start_line {
            before
        } else {
            before.push(s.last())
        }
    }
}

/// Whether `r` is `all` by line, the first of each line only.
pub open spec fn one_of_each_line(all: Seq<SymbolModel>, r: Seq<SymbolModel>) -> bool {
    exists|order: Seq<usize>| #[trigger]
        sort::sorts(start_lines(all), order) && r == one_per_line(arranged(all, order))
}

impl Symbol {
    /// A copy of the symbol.
    pub fn copy(&self) -> (r: Symbol)
        ensures
            r@ == self@,
    {
        Symbol {
            name: self.name.clone(),
            kind: self.kind,
            start_line: self.start_line,
            end_line: self.end_line,
            signature: self.signature.clone(),
            code: self.code.clone(),
        }
    }
}

/// The symbols by line, the first of each line only.
fn sort_and_dedup(all: &[Symbol]) -> (r: Vec<Symbol>)
    ensures
        one_of_each_line(symbols(all@), symbols(r@)),
{
    let mut keys: Vec<usize> = Vec::new();
    for i in 0..all.len()
        invariant
            keys@.len() == i,
            forall|k: int| 0 <= k < i ==> #[trigger] keys@[k] == all@[k].start_line,
    {
        keys.push(all[i].start_line);
    }
    assert(keys@ =~= start_lines(symbols(all@)));
    let order = sort::order(keys.as_slice());
    let ghost sorted = arranged(symbols(all@), order@);
    let mut out: Vec<Symbol> = Vec::new();
    assert(sorted.take(0) =~= Seq::empty());
    assert(symbols(out@) =~= Seq::empty());
    for i in 0..order.len()
        invariant
            order@.len() == all@.len(),
            forall|k: int| 0 <= k < order@.len() ==> #[trigger] order@[k] < all@.len(),
            sorted == arranged(symbols(all@), order@),
            symbols(out@) == one_per_line(sorted.take(i as int)),
    {
        let s = &all[order[i]];
        let ghost done = symbols(out@);
        proof {
            assert(sorted.take(i + 1).drop_last() =~= sorted.take(i as int));
            assert(sorted.take(i + 1).last() == s@);
        }
        let n: usize = out.len();
        assert(done.len() == n);
        if n > 0 && out[n - 1].start_line == s.start_line {
            assert(done.last() == out@[n - 1]@);
        } else {
            assert(n > 0 ==> done.last() == out@[n - 1]@);
            out.push(s.copy());
            assert(symbols(out@) =~= done.push(s@));
        }
    }
    assert(sorted.take(sorted.len() as int) =~= sorted);
    out
}

/// What a function's tree shows, completed by what its lines show, by line.
pub fn with_line_symbols(chars: &[char], base_line: usize, found: Vec<Symbol>) -> (r: Vec<Symbol>)
    requires
        countable(chars@, base_line as nat),
    ensures
        one_of_each_line(
            symbols(found@) + line_symbols(
                text::spec_lines(chars@),
                base_line as nat,
                symbols(found@),
            ),
            symbols(r@),
        ),
{
    let rest = extract_line_symbols(chars, base_line, found.as_slice());
    let all = both(found, rest);
    sort_and_dedup(all.as_slice())
}

/// The symbols inside a function that the outcome of a parse shows.
pub open spec fn inner_found(
    code: Seq<char>,
    nodes: Result<Seq<NodeModel>, SyntaxError>,
    base: nat,
) -> Seq<SymbolModel> {
    match nodes {
        Ok(nodes) => tree_symbols(code, nodes, base),
        Err(_) => Seq::empty(),
    }
}

/// For large functions (200+ lines), extract inner structure: hooks, named inner functions,
/// handlers and key declarations, from the syntax tree and, where that shows nothing, from
/// the lines.
pub fn extract_inner_symbols(code: &str, base_line: usize) -> (r: Vec<Symbol>)
    requires
        countable(code@, base_line as nat),
    ensures
        exists|nodes: Result<Seq<NodeModel>, SyntaxError>| #[trigger]
            syntax::gives_nodes(code@, Grammar::JavaScript, nodes) && one_of_each_line(
                inner_found(code@, nodes, base_line as nat) + line_symbols(
                    text::spec_lines(code@),
                    base_line as nat,
                    inner_found(code@, nodes, base_line as nat),
                ),
                symbols(r@),
            ),
{
    let chars = text::chars_of(code);
    let parsed = syntax::nodes_of(code, chars.as_slice(), Grammar::JavaScript);
    let ghost nodes = syntax::outcome(parsed);
    let found = match parsed {
        Ok(nodes) => inner_from_nodes(chars.as_slice(), nodes.as_slice(), base_line),
        Err(_) => none(),
    };
    assert(symbols(found@) == inner_found(code@, nodes, base_line as nat));
    with_line_symbols(chars.as_slice(), base_line, found)
}

// ── Laws ─────────────────────────────────────────────────────────────

/// Symbols are extracted from every text that has a grammar and is not too large, whatever its
/// syntax, and from no other. The extensions with a grammar are those that count as supported.
pub proof fn law_texts_with_a_grammar_have_symbols(
    source: Seq<char>,
    extension: Seq<char>,
    r: Option<Seq<SymbolModel>>,
)
    requires
        extracts(source, extension, r),
    ensures
        r is Some <==> spec_grammar(extension) is Some && width::bytes_of(source)
            < syntax::MAX_SOURCE_BYTES,
        config::ast_extension(extension) <==> spec_grammar(extension) is Some,
{
}

/// Whether a symbol's signature is the first line of its code, and its lines count from one.
pub open spec fn headed(s: SymbolModel) -> bool {
    s.signature == spec_first_line(s.code) && s.start_line >= 1 && s.end_line >= 1
}

/// Whether all symbols of a list are headed.
pub open spec fn all_headed(v: Seq<SymbolModel>) -> bool {
    forall|i: int| 0 <= i < v.len() ==> headed(#[trigger] v[i])
}

proof fn lemma_gather_headed(list: Seq<int>, f: spec_fn(int) -> Seq<SymbolModel>)
    requires
        forall|c: int| all_headed(#[trigger] f(c)),
    ensures
        all_headed(gather(list, f)),
    decreases list.len(),
{
    if list.len() > 0 {
        lemma_gather_headed(list.drop_last(), f);
        assert(all_headed(f(list.last())));
    }
}

proof fn lemma_variables_headed(chars: Seq<char>, nodes: Seq<NodeModel>, node: int)
    ensures
        all_headed(variables(chars, nodes, node)),
{
    lemma_gather_headed(syntax::spec_children(nodes, node), declared_part(chars, nodes, node));
}

proof fn lemma_exports_headed(chars: Seq<char>, nodes: Seq<NodeModel>, rules: Rules, node: int)
    ensures
        all_headed(exports(chars, nodes, rules, node)),
{
    let f = exported_part(chars, nodes, node, rules);
    assert forall|c: int| all_headed(#[trigger] f(c)) by {
        lemma_variables_headed(chars, nodes, c);
    }
    lemma_gather_headed(syntax::spec_children(nodes, node), f);
}

proof fn lemma_js_headed(chars: Seq<char>, nodes: Seq<NodeModel>)
    ensures
        all_headed(js_symbols(chars, nodes)),
{
    let f = js_statement_part(chars, nodes);
    assert forall|c: int| all_headed(#[trigger] f(c)) by {
        lemma_variables_headed(chars, nodes, c);
        lemma_exports_headed(chars, nodes, Rules::JavaScript, c);
        lemma_gather_headed(
            syntax::spec_children(nodes, c),
            module_export_part(chars, nodes, c),
        );
        lemma_gather_headed(syntax::spec_children(nodes, c), named_export_part(chars, nodes, c));
    }
    lemma_gather_headed(syntax::spec_children(nodes, 0), f);
    lemma_gather_headed(
        syntax::spec_children(nodes, 0),
        by_rule_part(chars, nodes, Rules::JavaScript),
    );
}

/// Every symbol that is extracted from a file has the first line of its code for a signature,
/// and line numbers that count from one.
pub proof fn law_signature_is_first_line_of_code(
    chars: Seq<char>,
    nodes: Seq<NodeModel>,
    grammar: Grammar,
)
    ensures
        all_headed(file_symbols(chars, nodes, grammar)),
{
    let top = syntax::spec_children(nodes, 0);
    match grammar {
        Grammar::JavaScript => {
            lemma_js_headed(chars, nodes);
        },
        Grammar::TypeScript | Grammar::Tsx => {
            lemma_js_headed(chars, nodes);
            lemma_gather_headed(top, by_rule_part(chars, nodes, Rules::TypeScriptExtra));
            let f = ts_export_part(chars, nodes);
            assert forall|c: int| all_headed(#[trigger] f(c)) by {
                lemma_exports_headed(chars, nodes, Rules::TypeScriptExtra, c);
            }
            lemma_gather_headed(top, f);
        },
        Grammar::Python => {
            lemma_gather_headed(top, by_rule_part(chars, nodes, Rules::Python));
            let f = python_statement_part(chars, nodes);
            assert forall|c: int| all_headed(#[trigger] f(c)) by {
                lemma_gather_headed(
                    syntax::spec_children(nodes, c),
                    decorated_part(chars, nodes, c),
                );
            }
            lemma_gather_headed(top, f);
        },
        Grammar::Rust => {
            lemma_gather_headed(top, by_rule_part(chars, nodes, Rules::Rust));
        },
        Grammar::Go => {
            lemma_gather_headed(top, by_rule_part(chars, nodes, Rules::Go));
            let f = go_statement_part(chars, nodes);
            assert forall|c: int| all_headed(#[trigger] f(c)) by {
                lemma_gather_headed(syntax::spec_children(nodes, c), go_type_part(chars, nodes));
                lemma_gather_headed(syntax::spec_children(nodes, c), go_value_part(chars, nodes));
            }
            lemma_gather_headed(top, f);
        },
        Grammar::C | Grammar::Cpp => {
            lemma_gather_headed(top, c_statement_part(chars, nodes));
        },
    }
}

proof fn lemma_one_per_line(s: Seq<SymbolModel>)
    requires
        forall|i: int, j: int|
            #![trigger s[i], s[j]]
            0 <= i < j < s.len() ==> s[i].start_line <= s[j].start_line,
    ensures
        forall|i: int, j: int|
            #![trigger one_per_line(s)[i], one_per_line(s)[j]]
            0 <= i < j < one_per_line(s).len() ==> one_per_line(s)[i].start_line < one_per_line(
                s,
            )[j].start_line,
        forall|i: int| 0 <= i < s.len() ==> starts_at(one_per_line(s), (#[trigger] s[i]).start_line),
        s.len() > 0 ==> one_per_line(s).len() > 0 && one_per_line(s).last().start_line
            == s.last().start_line,
    decreases s.len(),
{
    if s.len() > 0 {
        let t = s.drop_last();
        lemma_one_per_line(t);
        let before = one_per_line(t);
        let r = one_per_line(s);
        if t.len() > 0 {
            assert(t.last() == s[s.len() - 2]);
            assert(s[s.len() - 2].start_line <= s[s.len() - 1].start_line);
        }
        assert forall|i: int| 0 <= i < s.len() implies starts_at(
            r,
            (#[trigger] s[i]).start_line,
        ) by {
            if i < t.len() {
                assert(t[i] == s[i]);
                assert(starts_at(before, t[i].start_line));
                let k = choose|k: int|
                    0 <= k < before.len() && (#[trigger] before[k]).start_line == t[i].start_line;
                assert(r[k] == before[k]);
            } else {
                assert(r[r.len() - 1].start_line == s.last().start_line);
            }
        }
    }
}

/// The inner symbols of a function come line by line, with no two on the same line, and no
/// line on which something was found is lost.
pub proof fn law_inner_symbols_are_one_per_line(all: Seq<SymbolModel>, r: Seq<SymbolModel>)
    requires
        forall|i: int| 0 <= i < all.len() ==> (#[trigger] all[i]).start_line <= usize::MAX,
        one_of_each_line(all, r),
    ensures
        forall|i: int, j: int|
            #![trigger r[i], r[j]]
            0 <= i < j < r.len() ==> r[i].start_line < r[j].start_line,
        forall|i: int| 0 <= i < all.len() ==> starts_at(r, (#[trigger] all[i]).start_line),
{
    let order = choose|order: Seq<usize>| #[trigger]
        sort::sorts(start_lines(all), order) && r == one_per_line(arranged(all, order));
    let s = arranged(all, order);
    let keys = start_lines(all);
    assert forall|i: int, j: int|
        #![trigger s[i], s[j]]
        0 <= i < j < s.len() implies s[i].start_line <= s[j].start_line by {
        assert(sort::precedes(keys, order[i] as int, order[j] as int));
        assert(keys[order[i] as int] == all[order[i] as int].start_line as usize);
        assert(keys[order[j] as int] == all[order[j] as int].start_line as usize);
    }
    lemma_one_per_line(s);
    assert forall|i: int| 0 <= i < all.len() implies starts_at(
        r,
        (#[trigger] all[i]).start_line,
    ) by {
        assert(sort::listed(order, i));
        let k = choose|k: int| 0 <= k < order.len() && #[trigger] order[k] == i;
        assert(s[k] == all[i]);
        assert(starts_at(one_per_line(s), s[k].start_line));
    }
}

// ── What defines a symbol ────────────────────────────────────────────

/// Whether a symbol is the one that node `i` defines under the name that node `n` spells: it
/// has the lines and the code of node `i`, the first line of the code for a signature, and the
/// text of node `n` for a name.
pub open spec fn defines(
    s: SymbolModel,
    chars: Seq<char>,
    nodes: Seq<NodeModel>,
    i: int,
    n: int,
    kind: SymbolKind,
) -> bool {
    &&& s.name == chars.subrange(nodes[n].start as int, nodes[n].end as int)
    &&& s.kind == kind
    &&& s.start_line == nodes[i].start_row + 1
    &&& s.end_line == nodes[i].end_row + 1
    &&& s.code == chars.subrange(nodes[i].start as int, nodes[i].end as int)
    &&& s.signature == spec_first_line(s.code)
}

/// Whether a list has the symbol that node `i` defines under the name that node `n` spells.
pub open spec fn shows(
    list: Seq<SymbolModel>,
    chars: Seq<char>,
    nodes: Seq<NodeModel>,
    i: int,
    n: int,
    kind: SymbolKind,
) -> bool {
    exists|s: SymbolModel| #[trigger] list.contains(s) && defines(s, chars, nodes, i, n, kind)
}

/// The kind of a function, by the text of its node.
pub open spec fn function_kind(chars: Seq<char>, nodes: Seq<NodeModel>, i: int) -> SymbolKind {
    if text::begins(chars.subrange(nodes[i].start as int, nodes[i].end as int), "async"@) {
        SymbolKind::AsyncFunction
    } else {
        SymbolKind::Function
    }
}

/// The first line of a text ends before its first line feed, or before a carriage return and
/// that line feed.
pub proof fn law_first_line(line: Seq<char>, rest: Seq<char>)
    requires
        text::without(line, '\n'),
    ensures
        spec_first_line(line) == line,
        line.len() == 0 || line.last() != '\r' ==> spec_first_line(line + seq!['\n'] + rest) == line,
        spec_first_line(line + seq!['\r', '\n'] + rest) == line,
{
    text::lemma_find_char_from(line, '\n', 0);
    let s = line + seq!['\n'] + rest;
    text::lemma_find_char_from(s, '\n', 0);
    assert(s[line.len() as int] == '\n');
    assert forall|j: int| 0 <= j < line.len() implies s[j] != '\n' by {
        assert(s[j] == line[j]);
    }
    assert(s.take(line.len() as int) =~= line);
    let t = line + seq!['\r', '\n'] + rest;
    text::lemma_find_char_from(t, '\n', 0);
    assert(t[line.len() as int + 1] == '\n');
    assert forall|j: int| 0 <= j < line.len() + 1 implies t[j] != '\n' by {
        if j < line.len() {
            assert(t[j] == line[j]);
        } else {
            assert(t[j] == '\r');
        }
    }
    assert(t.take(line.len() as int + 1) =~= line.push('\r'));
    assert(line.push('\r').drop_last() =~= line);
}

proof fn lemma_gathered(
    list: Seq<int>,
    f: spec_fn(int) -> Seq<SymbolModel>,
    c: int,
    s: SymbolModel,
)
    requires
        list.contains(c),
        f(c).contains(s),
    ensures
        gather(list, f).contains(s),
    decreases list.len(),
{
    let k = choose|k: int| 0 <= k < list.len() && list[k] == c;
    let front = gather(list.drop_last(), f);
    let back = f(list.last());
    if k == list.len() - 1 {
        let j = choose|j: int| 0 <= j < back.len() && back[j] == s;
        assert((front + back)[front.len() + j] == s);
    } else {
        assert(list.drop_last()[k] == c);
        lemma_gathered(list.drop_last(), f, c, s);
        let j = choose|j: int| 0 <= j < front.len() && front[j] == s;
        assert((front + back)[j] == s);
    }
}

proof fn lemma_of_either(a: Seq<SymbolModel>, b: Seq<SymbolModel>, s: SymbolModel)
    requires
        a.contains(s) || b.contains(s),
    ensures
        (a + b).contains(s),
{
    if a.contains(s) {
        let j = choose|j: int| 0 <= j < a.len() && a[j] == s;
        assert((a + b)[j] == s);
    } else {
        let j = choose|j: int| 0 <= j < b.len() && b[j] == s;
        assert((a + b)[a.len() + j] == s);
    }
}

proof fn lemma_single_has(v: Seq<SymbolModel>, s: SymbolModel)
    requires
        v.len() == 1,
        v[0] == s,
    ensures
        v.contains(s),
{
}

proof fn lemma_shown(
    list: Seq<SymbolModel>,
    chars: Seq<char>,
    nodes: Seq<NodeModel>,
    i: int,
    n: int,
    kind: SymbolKind,
)
    requires
        list.contains(made(chars, nodes, i, syntax::node_text(chars, nodes, n), kind)),
    ensures
        shows(list, chars, nodes, i, n, kind),
{
    let s = made(chars, nodes, i, syntax::node_text(chars, nodes, n), kind);
    assert(defines(s, chars, nodes, i, n, kind));
}

proof fn lemma_ruled(
    chars: Seq<char>,
    nodes: Seq<NodeModel>,
    rules: Rules,
    c: int,
    n: int,
    kind: SymbolKind,
    field: Seq<char>,
)
    requires
        nodes.len() > 0,
        syntax::child_of(nodes, 0, c),
        spec_rule(rules, nodes[c].kind) == Some((kind, field)),
        syntax::holds_first(nodes, c, field, n),
    ensures
        by_rules(chars, nodes, rules, 0).contains(
            made(
                chars,
                nodes,
                c,
                syntax::node_text(chars, nodes, n),
                if kind == SymbolKind::Function {
                    function_kind(chars, nodes, c)
                } else {
                    kind
                },
            ),
        ),
{
    syntax::law_children(nodes, 0);
    syntax::law_field_children(nodes, c, field, n);
    let f = by_rule_part(chars, nodes, rules);
    let s = by_rule(chars, nodes, rules, c)[0];
    lemma_single_has(f(c), s);
    lemma_gathered(syntax::spec_children(nodes, 0), f, c, s);
}

proof fn lemma_rust_kinds_differ()
    ensures
        spec_rule(Rules::Rust, "function_item"@) == Some((SymbolKind::Function, "name"@)),
        spec_rule(Rules::Rust, "struct_item"@) == Some((SymbolKind::Struct, "name"@)),
        spec_rule(Rules::Rust, "enum_item"@) == Some((SymbolKind::Enum, "name"@)),
        spec_rule(Rules::Rust, "trait_item"@) == Some((SymbolKind::Trait, "name"@)),
        spec_rule(Rules::Rust, "impl_item"@) == Some((SymbolKind::Impl, "type"@)),
{
    reveal_strlit("function_item");
    reveal_strlit("struct_item");
    reveal_strlit("enum_item");
    reveal_strlit("trait_item");
    reveal_strlit("impl_item");
    assert("function_item"@.len() == 13 && "struct_item"@.len() == 11 && "enum_item"@.len() == 9
        && "trait_item"@.len() == 10 && "impl_item"@.len() == 9);
    assert("enum_item"@[0] == 'e' && "impl_item"@[0] == 'i');
}

/// Every top-level item of a Rust file that has a name is a symbol: functions, structures,
/// enumerations and traits under their own name, and an implementation under the name of the
/// type that it is for.
pub proof fn law_rust_items_are_symbols(chars: Seq<char>, nodes: Seq<NodeModel>, c: int, n: int)
    requires
        syntax::child_of(nodes, 0, c),
    ensures
        ({
            let found = file_symbols(chars, nodes, Grammar::Rust);
            let named = syntax::holds_first(nodes, c, "name"@, n);
            let typed = syntax::holds_first(nodes, c, "type"@, n);
            &&& nodes[c].kind == "impl_item"@ && typed ==> shows(
                found,
                chars,
                nodes,
                c,
                n,
                SymbolKind::Impl,
            )
            &&& nodes[c].kind == "function_item"@ && named ==> shows(
                found,
                chars,
                nodes,
                c,
                n,
                function_kind(chars, nodes, c),
            )
            &&& nodes[c].kind == "struct_item"@ && named ==> shows(
                found,
                chars,
                nodes,
                c,
                n,
                SymbolKind::Struct,
            )
            &&& nodes[c].kind == "enum_item"@ && named ==> shows(
                found,
                chars,
                nodes,
                c,
                n,
                SymbolKind::Enum,
            )
            &&& nodes[c].kind == "trait_item"@ && named ==> shows(
                found,
                chars,
                nodes,
                c,
                n,
                SymbolKind::Trait,
            )
        }),
{
    lemma_rust_kinds_differ();
    let found = file_symbols(chars, nodes, Grammar::Rust);
    let k = nodes[c].kind;
    if k == "impl_item"@ && syntax::holds_first(nodes, c, "type"@, n) {
        lemma_ruled(chars, nodes, Rules::Rust, c, n, SymbolKind::Impl, "type"@);
        lemma_shown(found, chars, nodes, c, n, SymbolKind::Impl);
    }
    if syntax::holds_first(nodes, c, "name"@, n) {
        if k == "function_item"@ {
            lemma_ruled(chars, nodes, Rules::Rust, c, n, SymbolKind::Function, "name"@);
            lemma_shown(found, chars, nodes, c, n, function_kind(chars, nodes, c));
        }
        if k == "struct_item"@ {
            lemma_ruled(chars, nodes, Rules::Rust, c, n, SymbolKind::Struct, "name"@);
            lemma_shown(found, chars, nodes, c, n, SymbolKind::Struct);
        }
        if k == "enum_item"@ {
            lemma_ruled(chars, nodes, Rules::Rust, c, n, SymbolKind::Enum, "name"@);
            lemma_shown(found, chars, nodes, c, n, SymbolKind::Enum);
        }
        if k == "trait_item"@ {
            lemma_ruled(chars, nodes, Rules::Rust, c, n, SymbolKind::Trait, "name"@);
            lemma_shown(found, chars, nodes, c, n, SymbolKind::Trait);
        }
    }
}

/// Whether a node holds something under a field.
pub open spec fn holds(nodes: Seq<NodeModel>, i: int, field: Seq<char>) -> bool {
    exists|k: int| #[trigger] syntax::child_of(nodes, i, k) && nodes[k].field == Some(field)
}

/// Whether a node is an item of a Rust file that defines a symbol.
pub open spec fn rust_item(nodes: Seq<NodeModel>) -> spec_fn(int) -> bool {
    |c: int|
        {
            let kind = nodes[c].kind;
            ||| kind == "impl_item"@ && holds(nodes, c, "type"@)
            ||| (kind == "function_item"@ || kind == "struct_item"@ || kind == "enum_item"@ || kind
                == "trait_item"@) && holds(nodes, c, "name"@)
        }
}

proof fn lemma_gather_counts(
    list: Seq<int>,
    f: spec_fn(int) -> Seq<SymbolModel>,
    p: spec_fn(int) -> bool,
)
    requires
        forall|c: int|
            #![trigger list.contains(c)]
            list.contains(c) ==> f(c).len() == (if p(c) {
                1nat
            } else {
                0
            }),
    ensures
        gather(list, f).len() == list.filter(p).len(),
    decreases list.len(),
{
    reveal(Seq::filter);
    if list.len() > 0 {
        let rest = list.drop_last();
        assert forall|c: int| #![trigger rest.contains(c)] rest.contains(c) implies f(c).len() == (
        if p(c) {
            1nat
        } else {
            0
        }) by {
            let k = choose|k: int| 0 <= k < rest.len() && rest[k] == c;
            assert(list[k] == c);
            assert(list.contains(c));
        }
        lemma_gather_counts(rest, f, p);
        assert(list.contains(list.last()));
    }
}

/// A Rust file has exactly one symbol for each top-level item that defines one, and no other.
pub proof fn law_rust_symbols_are_the_items(chars: Seq<char>, nodes: Seq<NodeModel>)
    requires
        nodes.len() > 0,
    ensures
        file_symbols(chars, nodes, Grammar::Rust).len() == syntax::spec_children(nodes, 0).filter(
            rust_item(nodes),
        ).len(),
{
    lemma_rust_kinds_differ();
    let list = syntax::spec_children(nodes, 0);
    let f = by_rule_part(chars, nodes, Rules::Rust);
    let p = rust_item(nodes);
    syntax::law_children(nodes, 0);
    assert forall|c: int| #![trigger list.contains(c)] list.contains(c) implies f(c).len() == (
    if p(c) {
        1nat
    } else {
        0
    }) by {
        assert(syntax::child_of(nodes, 0, c));
        syntax::law_field_children(nodes, c, "name"@, 0);
        syntax::law_field_children(nodes, c, "type"@, 0);
    }
    lemma_gather_counts(list, f, p);
}

proof fn lemma_script_kinds_differ()
    ensures
        spec_rule(Rules::JavaScript, "function_declaration"@) == Some(
            (SymbolKind::Function, "name"@),
        ),
        spec_rule(Rules::JavaScript, "class_declaration"@) == Some((SymbolKind::Class, "name"@)),
        spec_rule(Rules::TypeScriptExtra, "interface_declaration"@) == Some(
            (SymbolKind::Interface, "name"@),
        ),
        spec_rule(Rules::TypeScriptExtra, "type_alias_declaration"@) == Some(
            (SymbolKind::TypeAlias, "name"@),
        ),
        spec_rule(Rules::TypeScriptExtra, "enum_declaration"@) == Some((SymbolKind::Enum, "name"@)),
        spec_rule(Rules::Python, "function_definition"@) == Some((SymbolKind::Function, "name"@)),
        spec_rule(Rules::Python, "class_definition"@) == Some((SymbolKind::Class, "name"@)),
        spec_rule(Rules::Go, "function_declaration"@) == Some((SymbolKind::Function, "name"@)),
        spec_rule(Rules::Go, "method_declaration"@) == Some((SymbolKind::Method, "name"@)),
        !declares_variables("export_statement"@),
        !declares_variables("expression_statement"@),
        "export_statement"@ != "expression_statement"@,
{
    reveal_strlit("function_declaration");
    reveal_strlit("class_declaration");
    reveal_strlit("interface_declaration");
    reveal_strlit("type_alias_declaration");
    reveal_strlit("enum_declaration");
    reveal_strlit("function_definition");
    reveal_strlit("class_definition");
    reveal_strlit("method_declaration");
    reveal_strlit("lexical_declaration");
    reveal_strlit("variable_declaration");
    reveal_strlit("export_statement");
    reveal_strlit("expression_statement");
    assert("function_declaration"@.len() == 20 && "class_declaration"@.len() == 17);
    assert("interface_declaration"@.len() == 21 && "type_alias_declaration"@.len() == 22
        && "enum_declaration"@.len() == 16);
    assert("function_definition"@.len() == 19 && "class_definition"@.len() == 16);
    assert("method_declaration"@.len() == 18);
    assert("lexical_declaration"@.len() == 19 && "variable_declaration"@.len() == 20);
    assert("export_statement"@.len() == 16 && "expression_statement"@.len() == 20);
    assert("expression_statement"@[0] == 'e' && "variable_declaration"@[0] == 'v');
}

/// Whether a grammar is one of JavaScript's or TypeScript's.
pub open spec fn scripted(grammar: Grammar) -> bool {
    grammar == Grammar::JavaScript || grammar == Grammar::TypeScript || grammar == Grammar::Tsx
}

proof fn lemma_script_symbols(
    chars: Seq<char>,
    nodes: Seq<NodeModel>,
    grammar: Grammar,
    s: SymbolModel,
)
    requires
        nodes.len() > 0,
        scripted(grammar),
        js_symbols(chars, nodes).contains(s) || (grammar != Grammar::JavaScript && (by_rules(
            chars,
            nodes,
            Rules::TypeScriptExtra,
            0,
        ) + gather(syntax::spec_children(nodes, 0), ts_export_part(chars, nodes))).contains(s)),
    ensures
        file_symbols(chars, nodes, grammar).contains(s),
{
    if grammar != Grammar::JavaScript {
        let more = by_rules(chars, nodes, Rules::TypeScriptExtra, 0);
        let last = gather(syntax::spec_children(nodes, 0), ts_export_part(chars, nodes));
        lemma_of_either(js_symbols(chars, nodes), more + last, s);
        assert(js_symbols(chars, nodes) + (more + last) =~= ts_symbols(chars, nodes));
    }
}

/// Every top-level function and class of a JavaScript or TypeScript file that has a name is a
/// symbol, and so is every top-level interface, type and enumeration of a TypeScript file.
pub proof fn law_script_declarations_are_symbols(
    chars: Seq<char>,
    nodes: Seq<NodeModel>,
    grammar: Grammar,
    c: int,
    n: int,
)
    requires
        scripted(grammar),
        syntax::child_of(nodes, 0, c),
        syntax::holds_first(nodes, c, "name"@, n),
    ensures
        ({
            let found = file_symbols(chars, nodes, grammar);
            let kind = nodes[c].kind;
            &&& kind == "function_declaration"@ ==> shows(
                found,
                chars,
                nodes,
                c,
                n,
                function_kind(chars, nodes, c),
            )
            &&& kind == "class_declaration"@ ==> shows(found, chars, nodes, c, n, SymbolKind::Class)
            &&& grammar != Grammar::JavaScript ==> {
                &&& kind == "interface_declaration"@ ==> shows(
                    found,
                    chars,
                    nodes,
                    c,
                    n,
                    SymbolKind::Interface,
                )
                &&& kind == "type_alias_declaration"@ ==> shows(
                    found,
                    chars,
                    nodes,
                    c,
                    n,
                    SymbolKind::TypeAlias,
                )
                &&& kind == "enum_declaration"@ ==> shows(
                    found,
                    chars,
                    nodes,
                    c,
                    n,
                    SymbolKind::Enum,
                )
            }
        }),
{
    lemma_script_kinds_differ();
    let found = file_symbols(chars, nodes, grammar);
    let kind = nodes[c].kind;
    let name = syntax::node_text(chars, nodes, n);
    let top = syntax::spec_children(nodes, 0);
    if kind == "function_declaration"@ || kind == "class_declaration"@ {
        let base = if kind == "function_declaration"@ {
            SymbolKind::Function
        } else {
            SymbolKind::Class
        };
        let k = if kind == "function_declaration"@ {
            function_kind(chars, nodes, c)
        } else {
            SymbolKind::Class
        };
        lemma_ruled(chars, nodes, Rules::JavaScript, c, n, base, "name"@);
        let s = made(chars, nodes, c, name, k);
        lemma_of_either(
            by_rules(chars, nodes, Rules::JavaScript, 0),
            gather(top, js_statement_part(chars, nodes)),
            s,
        );
        lemma_script_symbols(chars, nodes, grammar, s);
        lemma_shown(found, chars, nodes, c, n, k);
    }
    if grammar != Grammar::JavaScript && (kind == "interface_declaration"@ || kind
        == "type_alias_declaration"@ || kind == "enum_declaration"@) {
        let k = (spec_rule(Rules::TypeScriptExtra, kind)->0).0;
        lemma_ruled(chars, nodes, Rules::TypeScriptExtra, c, n, k, "name"@);
        let s = made(chars, nodes, c, name, k);
        lemma_of_either(
            by_rules(chars, nodes, Rules::TypeScriptExtra, 0),
            gather(top, ts_export_part(chars, nodes)),
            s,
        );
        lemma_script_symbols(chars, nodes, grammar, s);
        lemma_shown(found, chars, nodes, c, n, k);
    }
}

/// The kind of a variable with a value of some kind: a function, a class, or a constant.
pub open spec fn variable_kind(nodes: Seq<NodeModel>, v: int) -> SymbolKind {
    if nodes[v].kind == "arrow_function"@ || nodes[v].kind == "function"@ {
        SymbolKind::Function
    } else if nodes[v].kind == "class"@ {
        SymbolKind::Class
    } else {
        SymbolKind::Constant
    }
}

proof fn lemma_declared(chars: Seq<char>, nodes: Seq<NodeModel>, c: int, d: int, n: int, v: int)
    requires
        syntax::child_of(nodes, c, d),
        nodes[d].kind == "variable_declarator"@,
        syntax::holds_first(nodes, d, "name"@, n),
        syntax::holds_first(nodes, d, "value"@, v),
    ensures
        variables(chars, nodes, c).contains(
            made(chars, nodes, c, syntax::node_text(chars, nodes, n), variable_kind(nodes, v)),
        ),
{
    syntax::law_children(nodes, c);
    syntax::law_field_children(nodes, d, "name"@, n);
    syntax::law_field_children(nodes, d, "value"@, v);
    let f = declared_part(chars, nodes, c);
    let s = made(chars, nodes, c, syntax::node_text(chars, nodes, n), variable_kind(nodes, v));
    assert(declared(chars, nodes, c, d)[0] == s);
    lemma_single_has(f(d), s);
    lemma_gathered(syntax::spec_children(nodes, c), f, d, s);
}

proof fn lemma_js_statement(
    chars: Seq<char>,
    nodes: Seq<NodeModel>,
    grammar: Grammar,
    c: int,
    s: SymbolModel,
)
    requires
        scripted(grammar),
        syntax::child_of(nodes, 0, c),
        js_statement(chars, nodes, c).contains(s),
    ensures
        file_symbols(chars, nodes, grammar).contains(s),
{
    syntax::law_children(nodes, 0);
    let top = syntax::spec_children(nodes, 0);
    lemma_gathered(top, js_statement_part(chars, nodes), c, s);
    lemma_of_either(
        by_rules(chars, nodes, Rules::JavaScript, 0),
        gather(top, js_statement_part(chars, nodes)),
        s,
    );
    lemma_script_symbols(chars, nodes, grammar, s);
}

/// Every variable of a top-level declaration that has a name and a value is a symbol, with the
/// lines of the declaration, whether or not the declaration is exported: a function or a class
/// where its value is one, else a constant.
pub proof fn law_script_variables_are_symbols(
    chars: Seq<char>,
    nodes: Seq<NodeModel>,
    grammar: Grammar,
    e: int,
    c: int,
    d: int,
    n: int,
    v: int,
)
    requires
        scripted(grammar),
        syntax::child_of(nodes, 0, c) || (syntax::child_of(nodes, 0, e) && nodes[e].kind
            == "export_statement"@ && syntax::child_of(nodes, e, c)),
        nodes[c].kind == "lexical_declaration"@ || nodes[c].kind == "variable_declaration"@,
        syntax::child_of(nodes, c, d),
        nodes[d].kind == "variable_declarator"@,
        syntax::holds_first(nodes, d, "name"@, n),
        syntax::holds_first(nodes, d, "value"@, v),
    ensures
        shows(
            file_symbols(chars, nodes, grammar),
            chars,
            nodes,
            c,
            n,
            if nodes[v].kind == "arrow_function"@ || nodes[v].kind == "function"@ {
                SymbolKind::Function
            } else if nodes[v].kind == "class"@ {
                SymbolKind::Class
            } else {
                SymbolKind::Constant
            },
        ),
{
    lemma_script_kinds_differ();
    lemma_declared(chars, nodes, c, d, n, v);
    let k = variable_kind(nodes, v);
    let s = made(chars, nodes, c, syntax::node_text(chars, nodes, n), k);
    if syntax::child_of(nodes, 0, c) {
        lemma_js_statement(chars, nodes, grammar, c, s);
    } else {
        syntax::law_children(nodes, e);
        let f = exported_part(chars, nodes, e, Rules::JavaScript);
        lemma_of_either(
            ruled(chars, nodes, e, Rules::JavaScript, c),
            variables(chars, nodes, c),
            s,
        );
        assert(f(c).contains(s));
        lemma_gathered(syntax::spec_children(nodes, e), f, c, s);
        lemma_js_statement(chars, nodes, grammar, e, s);
    }
    lemma_shown(file_symbols(chars, nodes, grammar), chars, nodes, c, n, k);
}

proof fn lemma_export(
    chars: Seq<char>,
    nodes: Seq<NodeModel>,
    rules: Rules,
    e: int,
    c: int,
    n: int,
    kind: SymbolKind,
)
    requires
        syntax::child_of(nodes, e, c),
        spec_rule(rules, nodes[c].kind) == Some((kind, "name"@)),
        syntax::holds_first(nodes, c, "name"@, n),
    ensures
        exports(chars, nodes, rules, e).contains(
            made(chars, nodes, e, syntax::node_text(chars, nodes, n), kind),
        ),
{
    syntax::law_children(nodes, e);
    syntax::law_field_children(nodes, c, "name"@, n);
    let s = made(chars, nodes, e, syntax::node_text(chars, nodes, n), kind);
    let f = exported_part(chars, nodes, e, rules);
    let a = ruled(chars, nodes, e, rules, c);
    lemma_single_has(a, s);
    let b = if declares_variables(nodes[c].kind) {
        variables(chars, nodes, c)
    } else {
        Seq::empty()
    };
    lemma_of_either(a, b, s);
    assert(f(c).contains(s));
    lemma_gathered(syntax::spec_children(nodes, e), f, c, s);
}

/// A declaration that is exported is a symbol with the lines and the code of the whole export
/// statement.
pub proof fn law_script_exports_are_symbols(
    chars: Seq<char>,
    nodes: Seq<NodeModel>,
    grammar: Grammar,
    e: int,
    c: int,
    n: int,
)
    requires
        scripted(grammar),
        syntax::child_of(nodes, 0, e),
        nodes[e].kind == "export_statement"@,
        syntax::child_of(nodes, e, c),
        syntax::holds_first(nodes, c, "name"@, n),
    ensures
        ({
            let found = file_symbols(chars, nodes, grammar);
            let kind = nodes[c].kind;
            &&& kind == "function_declaration"@ ==> shows(
                found,
                chars,
                nodes,
                e,
                n,
                SymbolKind::Function,
            )
            &&& kind == "class_declaration"@ ==> shows(found, chars, nodes, e, n, SymbolKind::Class)
            &&& grammar != Grammar::JavaScript ==> {
                &&& kind == "interface_declaration"@ ==> shows(
                    found,
                    chars,
                    nodes,
                    e,
                    n,
                    SymbolKind::Interface,
                )
                &&& kind == "type_alias_declaration"@ ==> shows(
                    found,
                    chars,
                    nodes,
                    e,
                    n,
                    SymbolKind::TypeAlias,
                )
                &&& kind == "enum_declaration"@ ==> shows(
                    found,
                    chars,
                    nodes,
                    e,
                    n,
                    SymbolKind::Enum,
                )
            }
        }),
{
    lemma_script_kinds_differ();
    let found = file_symbols(chars, nodes, grammar);
    let kind = nodes[c].kind;
    let name = syntax::node_text(chars, nodes, n);
    let top = syntax::spec_children(nodes, 0);
    if kind == "function_declaration"@ || kind == "class_declaration"@ {
        let k = (spec_rule(Rules::JavaScript, kind)->0).0;
        lemma_export(chars, nodes, Rules::JavaScript, e, c, n, k);
        lemma_js_statement(chars, nodes, grammar, e, made(chars, nodes, e, name, k));
        lemma_shown(found, chars, nodes, e, n, k);
    }
    if grammar != Grammar::JavaScript && (kind == "interface_declaration"@ || kind
        == "type_alias_declaration"@ || kind == "enum_declaration"@) {
        let k = (spec_rule(Rules::TypeScriptExtra, kind)->0).0;
        let s = made(chars, nodes, e, name, k);
        lemma_export(chars, nodes, Rules::TypeScriptExtra, e, c, n, k);
        syntax::law_children(nodes, 0);
        let f = ts_export_part(chars, nodes);
        assert(f(e).contains(s));
        lemma_gathered(top, f, e, s);
        lemma_of_either(by_rules(chars, nodes, Rules::TypeScriptExtra, 0), gather(top, f), s);
        lemma_script_symbols(chars, nodes, grammar, s);
        lemma_shown(found, chars, nodes, e, n, k);
    }
}

/// Whether a list has a symbol of kind `Export` with a name, and the lines and code of node `e`.
pub open spec fn shows_export(
    list: Seq<SymbolModel>,
    chars: Seq<char>,
    nodes: Seq<NodeModel>,
    e: int,
    name: Seq<char>,
) -> bool {
    exists|s: SymbolModel| #[trigger]
        list.contains(s) && s.name == name && s.kind == SymbolKind::Export && s.start_line
            == nodes[e].start_row + 1 && s.end_line == nodes[e].end_row + 1 && s.code
            == chars.subrange(nodes[e].start as int, nodes[e].end as int)
}

proof fn lemma_module_prefixes(code: Seq<char>)
    ensures
        text::begins(code, "exports."@) ==> !text::begins(code, "module.exports"@),
{
    reveal_strlit("exports.");
    reveal_strlit("module.exports");
    if text::begins(code, "exports."@) && text::begins(code, "module.exports"@) {
        assert(code.subrange(0, 8)[0] == 'e');
        assert(code.subrange(0, 14)[0] == 'm');
    }
}

/// What a statement assigns to `module.exports` is a symbol: named by the properties of an
/// object where it is one and has any, else by the first sixty characters of the value. What a
/// statement assigns to a property of `exports` is a symbol under the name of the property.
pub proof fn law_script_assigned_exports_are_symbols(
    chars: Seq<char>,
    nodes: Seq<NodeModel>,
    grammar: Grammar,
    e: int,
    c: int,
    v: int,
    p: int,
)
    requires
        scripted(grammar),
        syntax::child_of(nodes, 0, e),
        nodes[e].kind == "expression_statement"@,
        syntax::child_of(nodes, e, c),
        nodes[c].kind == "assignment_expression"@,
    ensures
        ({
            let found = file_symbols(chars, nodes, grammar);
            let code = chars.subrange(nodes[e].start as int, nodes[e].end as int);
            let value = chars.subrange(nodes[v].start as int, nodes[v].end as int);
            let names = property_names(chars, nodes, syntax::spec_children(nodes, v));
            &&& text::begins(code, "module.exports"@) && syntax::holds_first(nodes, c, "right"@, v)
                ==> {
                &&& nodes[v].kind == "object"@ && names.len() > 0 ==> shows_export(
                    found,
                    chars,
                    nodes,
                    e,
                    "module.exports("@ + text::spec_join(names, ", "@) + ")"@,
                )
                &&& nodes[v].kind != "object"@ ==> shows_export(
                    found,
                    chars,
                    nodes,
                    e,
                    "module.exports = "@ + (if value.len() <= 60 {
                        value
                    } else {
                        value.take(60)
                    }),
                )
            }
            &&& text::begins(code, "exports."@) && syntax::holds_first(nodes, c, "left"@, v)
                && nodes[v].kind == "member_expression"@ && syntax::holds_first(
                nodes,
                v,
                "property"@,
                p,
            ) ==> shows(found, chars, nodes, e, p, SymbolKind::Export)
        }),
{
    lemma_script_kinds_differ();
    let found = file_symbols(chars, nodes, grammar);
    let code = syntax::node_text(chars, nodes, e);
    let value = syntax::node_text(chars, nodes, v);
    lemma_module_prefixes(code);
    syntax::law_children(nodes, e);
    if text::begins(code, "module.exports"@) && syntax::holds_first(nodes, c, "right"@, v) {
        syntax::law_field_children(nodes, c, "right"@, v);
        let names = property_names(chars, nodes, syntax::spec_children(nodes, v));
        if nodes[v].kind != "object"@ || names.len() > 0 {
            let f = module_export_part(chars, nodes, e);
            let s = module_export(chars, nodes, e, c)[0];
            lemma_single_has(f(c), s);
            lemma_gathered(syntax::spec_children(nodes, e), f, c, s);
            lemma_js_statement(chars, nodes, grammar, e, s);
        }
    }
    if text::begins(code, "exports."@) && syntax::holds_first(nodes, c, "left"@, v)
        && nodes[v].kind == "member_expression"@ && syntax::holds_first(nodes, v, "property"@, p) {
        syntax::law_field_children(nodes, c, "left"@, v);
        syntax::law_field_children(nodes, v, "property"@, p);
        let f = named_export_part(chars, nodes, e);
        let s = named_export(chars, nodes, e, c)[0];
        lemma_single_has(f(c), s);
        lemma_gathered(syntax::spec_children(nodes, e), f, c, s);
        lemma_js_statement(chars, nodes, grammar, e, s);
        lemma_shown(found, chars, nodes, e, p, SymbolKind::Export);
    }
}

/// The properties of an exported object are known by their own text in short form, else by the
/// text of their key; what is no property has no name.
pub proof fn law_property_names(
    chars: Seq<char>,
    nodes: Seq<NodeModel>,
    list: Seq<int>,
    c: int,
    k: int,
)
    requires
        0 <= c < nodes.len(),
    ensures
        ({
            let before = property_names(chars, nodes, list);
            let after = property_names(chars, nodes, list.push(c));
            &&& property_names(chars, nodes, Seq::empty()) == Seq::<Seq<char>>::empty()
            &&& nodes[c].kind == "shorthand_property_identifier"@ ==> after == before.push(
                chars.subrange(nodes[c].start as int, nodes[c].end as int),
            )
            &&& nodes[c].kind == "pair"@ && syntax::holds_first(nodes, c, "key"@, k) ==> after
                == before.push(chars.subrange(nodes[k].start as int, nodes[k].end as int))
            &&& nodes[c].kind != "shorthand_property_identifier"@ && nodes[c].kind != "pair"@
                ==> after == before
        }),
{
    reveal_strlit("shorthand_property_identifier");
    reveal_strlit("pair");
    assert("shorthand_property_identifier"@.len() == 29 && "pair"@.len() == 4);
    assert(list.push(c).drop_last() =~= list);
    syntax::law_field_children(nodes, c, "key"@, k);
}

/// Every top-level function and class of a Python file is a symbol; one with decorators has the
/// lines and the code of the decorated definition.
pub proof fn law_python_definitions_are_symbols(
    chars: Seq<char>,
    nodes: Seq<NodeModel>,
    d: int,
    c: int,
    n: int,
)
    requires
        syntax::holds_first(nodes, c, "name"@, n),
    ensures
        ({
            let found = file_symbols(chars, nodes, Grammar::Python);
            let kind = nodes[c].kind;
            &&& syntax::child_of(nodes, 0, c) && kind == "function_definition"@ ==> shows(
                found,
                chars,
                nodes,
                c,
                n,
                function_kind(chars, nodes, c),
            )
            &&& syntax::child_of(nodes, 0, c) && kind == "class_definition"@ ==> shows(
                found,
                chars,
                nodes,
                c,
                n,
                SymbolKind::Class,
            )
            &&& syntax::child_of(nodes, 0, d) && nodes[d].kind == "decorated_definition"@
                && syntax::child_of(nodes, d, c) ==> {
                &&& kind == "function_definition"@ ==> shows(
                    found,
                    chars,
                    nodes,
                    d,
                    n,
                    SymbolKind::Function,
                )
                &&& kind == "class_definition"@ ==> shows(
                    found,
                    chars,
                    nodes,
                    d,
                    n,
                    SymbolKind::Class,
                )
            }
        }),
{
    lemma_script_kinds_differ();
    let found = file_symbols(chars, nodes, Grammar::Python);
    let kind = nodes[c].kind;
    let name = syntax::node_text(chars, nodes, n);
    let top = syntax::spec_children(nodes, 0);
    let ruled_ones = by_rules(chars, nodes, Rules::Python, 0);
    let others = gather(top, python_statement_part(chars, nodes));
    if kind == "function_definition"@ || kind == "class_definition"@ {
        let base = (spec_rule(Rules::Python, kind)->0).0;
        if syntax::child_of(nodes, 0, c) {
            let k = if kind == "function_definition"@ {
                function_kind(chars, nodes, c)
            } else {
                SymbolKind::Class
            };
            lemma_ruled(chars, nodes, Rules::Python, c, n, base, "name"@);
            lemma_of_either(ruled_ones, others, made(chars, nodes, c, name, k));
            lemma_shown(found, chars, nodes, c, n, k);
        }
        if syntax::child_of(nodes, 0, d) && nodes[d].kind == "decorated_definition"@
            && syntax::child_of(nodes, d, c) {
            let s = made(chars, nodes, d, name, base);
            syntax::law_children(nodes, 0);
            syntax::law_children(nodes, d);
            syntax::law_field_children(nodes, c, "name"@, n);
            let f = decorated_part(chars, nodes, d);
            lemma_single_has(f(c), s);
            lemma_gathered(syntax::spec_children(nodes, d), f, c, s);
            let g = python_statement_part(chars, nodes);
            assert(g(d).contains(s));
            lemma_gathered(top, g, d, s);
            lemma_of_either(ruled_ones, others, s);
            lemma_shown(found, chars, nodes, d, n, base);
        }
    }
}

/// Every top-level function and method of a Go file is a symbol.
pub proof fn law_go_functions_are_symbols(chars: Seq<char>, nodes: Seq<NodeModel>, c: int, n: int)
    requires
        syntax::child_of(nodes, 0, c),
        syntax::holds_first(nodes, c, "name"@, n),
    ensures
        nodes[c].kind == "function_declaration"@ ==> shows(
            file_symbols(chars, nodes, Grammar::Go),
            chars,
            nodes,
            c,
            n,
            function_kind(chars, nodes, c),
        ),
        nodes[c].kind == "method_declaration"@ ==> shows(
            file_symbols(chars, nodes, Grammar::Go),
            chars,
            nodes,
            c,
            n,
            SymbolKind::Method,
        ),
{
    lemma_script_kinds_differ();
    let found = file_symbols(chars, nodes, Grammar::Go);
    let kind = nodes[c].kind;
    if kind == "function_declaration"@ || kind == "method_declaration"@ {
        let base = (spec_rule(Rules::Go, kind)->0).0;
        let k = if kind == "function_declaration"@ {
            function_kind(chars, nodes, c)
        } else {
            SymbolKind::Method
        };
        lemma_ruled(chars, nodes, Rules::Go, c, n, base, "name"@);
        lemma_of_either(
            by_rules(chars, nodes, Rules::Go, 0),
            gather(syntax::spec_children(nodes, 0), go_statement_part(chars, nodes)),
            made(chars, nodes, c, syntax::node_text(chars, nodes, n), k),
        );
        lemma_shown(found, chars, nodes, c, n, k);
    }
}

proof fn lemma_go_statement(chars: Seq<char>, nodes: Seq<NodeModel>, g: int, s: SymbolModel)
    requires
        syntax::child_of(nodes, 0, g),
        go_statement(chars, nodes, g).contains(s),
    ensures
        file_symbols(chars, nodes, Grammar::Go).contains(s),
{
    syntax::law_children(nodes, 0);
    let f = go_statement_part(chars, nodes);
    lemma_gathered(syntax::spec_children(nodes, 0), f, g, s);
    lemma_of_either(
        by_rules(chars, nodes, Rules::Go, 0),
        gather(syntax::spec_children(nodes, 0), f),
        s,
    );
}

/// Every type, constant and variable of a top-level declaration of a Go file is a symbol with
/// its own lines: a structure or an interface where its type is one, else a type alias, and a
/// constant for constants and variables.
pub proof fn law_go_declarations_are_symbols(
    chars: Seq<char>,
    nodes: Seq<NodeModel>,
    g: int,
    c: int,
    n: int,
    t: int,
)
    requires
        syntax::child_of(nodes, 0, g),
        syntax::child_of(nodes, g, c),
        syntax::holds_first(nodes, c, "name"@, n),
    ensures
        ({
            let found = file_symbols(chars, nodes, Grammar::Go);
            &&& nodes[g].kind == "type_declaration"@ && nodes[c].kind == "type_spec"@
                && syntax::holds_first(nodes, c, "type"@, t) ==> shows(
                found,
                chars,
                nodes,
                c,
                n,
                if nodes[t].kind == "struct_type"@ {
                    SymbolKind::Struct
                } else if nodes[t].kind == "interface_type"@ {
                    SymbolKind::Interface
                } else {
                    SymbolKind::TypeAlias
                },
            )
            &&& (nodes[g].kind == "const_declaration"@ || nodes[g].kind == "var_declaration"@) && (
            nodes[c].kind == "const_spec"@ || nodes[c].kind == "var_spec"@) ==> shows(
                found,
                chars,
                nodes,
                c,
                n,
                SymbolKind::Constant,
            )
        }),
{
    let found = file_symbols(chars, nodes, Grammar::Go);
    reveal_strlit("type_declaration");
    reveal_strlit("const_declaration");
    reveal_strlit("var_declaration");
    assert("type_declaration"@.len() == 16 && "const_declaration"@.len() == 17
        && "var_declaration"@.len() == 15);
    syntax::law_children(nodes, g);
    syntax::law_field_children(nodes, c, "name"@, n);
    syntax::law_field_children(nodes, c, "type"@, t);
    if nodes[g].kind == "type_declaration"@ && nodes[c].kind == "type_spec"@
        && syntax::holds_first(nodes, c, "type"@, t) {
        let f = go_type_part(chars, nodes);
        let s = go_type(chars, nodes, c)[0];
        lemma_single_has(f(c), s);
        lemma_gathered(syntax::spec_children(nodes, g), f, c, s);
        lemma_go_statement(chars, nodes, g, s);
        lemma_shown(found, chars, nodes, c, n, go_type_kind(nodes, c));
    }
    if (nodes[g].kind == "const_declaration"@ || nodes[g].kind == "var_declaration"@) && (
    nodes[c].kind == "const_spec"@ || nodes[c].kind == "var_spec"@) {
        let f = go_value_part(chars, nodes);
        let s = go_value(chars, nodes, c)[0];
        lemma_single_has(f(c), s);
        lemma_gathered(syntax::spec_children(nodes, g), f, c, s);
        lemma_go_statement(chars, nodes, g, s);
        lemma_shown(found, chars, nodes, c, n, SymbolKind::Constant);
    }
}

/// Whether the identifier that node `i` of a C declarator leads to is node `n`: node `i` itself,
/// or what the only child of a wrapping declarator that leads anywhere leads to.
pub open spec fn leads_to(nodes: Seq<NodeModel>, i: int, n: int) -> bool
    decreases n - i,
{
    if i == n {
        0 <= i < nodes.len() && nodes[i].kind == "identifier"@
    } else {
        &&& 0 <= i < n < nodes.len()
        &&& nodes[i].kind == "function_declarator"@ || nodes[i].kind == "pointer_declarator"@
            || nodes[i].kind == "parenthesized_declarator"@
        &&& syntax::child_of(nodes, i, i + 1)
        &&& leads_to(nodes, i + 1, n)
    }
}

proof fn lemma_leads_to(chars: Seq<char>, nodes: Seq<NodeModel>, i: int, n: int)
    requires
        leads_to(nodes, i, n),
    ensures
        c_name(chars, nodes, i) == Some(syntax::node_text(chars, nodes, n)),
    decreases n - i,
{
    if i < n {
        reveal_strlit("identifier");
        reveal_strlit("function_declarator");
        reveal_strlit("pointer_declarator");
        reveal_strlit("parenthesized_declarator");
        assert("identifier"@.len() == 10 && "function_declarator"@.len() == 19
            && "pointer_declarator"@.len() == 18 && "parenthesized_declarator"@.len() == 24);
        lemma_leads_to(chars, nodes, i + 1, n);
        assert(syntax::child_of(nodes, i, i + 1));
        assert(nodes[i].depth < nodes[i + 1].depth);
        reveal_with_fuel(c_name_among, 2);
        assert(c_name_among(chars, nodes, i, i + 1) == c_name(chars, nodes, i + 1));
    }
}

proof fn lemma_c_statement(
    chars: Seq<char>,
    nodes: Seq<NodeModel>,
    grammar: Grammar,
    c: int,
    s: SymbolModel,
)
    requires
        grammar == Grammar::C || grammar == Grammar::Cpp,
        syntax::child_of(nodes, 0, c),
        c_statement(chars, nodes, c).len() == 1,
        c_statement(chars, nodes, c)[0] == s,
    ensures
        file_symbols(chars, nodes, grammar).contains(s),
{
    syntax::law_children(nodes, 0);
    let f = c_statement_part(chars, nodes);
    lemma_single_has(f(c), s);
    lemma_gathered(syntax::spec_children(nodes, 0), f, c, s);
}

/// Every top-level function of a C or C++ file is a symbol under the identifier that its
/// declarator leads to, through pointers, parameters and parentheses. Every structure, union and
/// enumeration that has a name is one too, by itself or as the type of a declaration.
pub proof fn law_c_definitions_are_symbols(
    chars: Seq<char>,
    nodes: Seq<NodeModel>,
    grammar: Grammar,
    c: int,
    t: int,
    n: int,
)
    requires
        grammar == Grammar::C || grammar == Grammar::Cpp,
        syntax::child_of(nodes, 0, c),
    ensures
        ({
            let found = file_symbols(chars, nodes, grammar);
            let named = syntax::holds_first(nodes, t, "name"@, n);
            let whole = c == t || (nodes[c].kind == "declaration"@ && syntax::holds_first(
                nodes,
                c,
                "type"@,
                t,
            ));
            &&& nodes[c].kind == "function_definition"@ && syntax::holds_first(
                nodes,
                c,
                "declarator"@,
                t,
            ) && leads_to(nodes, t, n) ==> shows(found, chars, nodes, c, n, SymbolKind::Function)
            &&& whole && named && (nodes[t].kind == "struct_specifier"@ || nodes[t].kind
                == "union_specifier"@) ==> shows(found, chars, nodes, c, n, SymbolKind::Struct)
            &&& whole && named && nodes[t].kind == "enum_specifier"@ ==> shows(
                found,
                chars,
                nodes,
                c,
                n,
                SymbolKind::Enum,
            )
        }),
{
    let found = file_symbols(chars, nodes, grammar);
    let name = syntax::node_text(chars, nodes, n);
    reveal_strlit("function_definition");
    reveal_strlit("declaration");
    reveal_strlit("struct_specifier");
    reveal_strlit("union_specifier");
    reveal_strlit("enum_specifier");
    assert("function_definition"@.len() == 19 && "declaration"@.len() == 11
        && "struct_specifier"@.len() == 16 && "union_specifier"@.len() == 15
        && "enum_specifier"@.len() == 14);
    if nodes[c].kind == "function_definition"@ && syntax::holds_first(nodes, c, "declarator"@, t)
        && leads_to(nodes, t, n) {
        syntax::law_field_children(nodes, c, "declarator"@, t);
        lemma_leads_to(chars, nodes, t, n);
        lemma_c_statement(
            chars,
            nodes,
            grammar,
            c,
            made(chars, nodes, c, name, SymbolKind::Function),
        );
        lemma_shown(found, chars, nodes, c, n, SymbolKind::Function);
    }
    if syntax::holds_first(nodes, t, "name"@, n) && (c == t || (nodes[c].kind == "declaration"@
        && syntax::holds_first(nodes, c, "type"@, t))) {
        syntax::law_field_children(nodes, t, "name"@, n);
        syntax::law_field_children(nodes, c, "type"@, t);
        if nodes[t].kind == "struct_specifier"@ || nodes[t].kind == "union_specifier"@ {
            lemma_c_statement(
                chars,
                nodes,
                grammar,
                c,
                made(chars, nodes, c, name, SymbolKind::Struct),
            );
            lemma_shown(found, chars, nodes, c, n, SymbolKind::Struct);
        }
        if nodes[t].kind == "enum_specifier"@ {
            lemma_c_statement(
                chars,
                nodes,
                grammar,
                c,
                made(chars, nodes, c, name, SymbolKind::Enum),
            );
            lemma_shown(found, chars, nodes, c, n, SymbolKind::Enum);
        }
    }
}

/// Which grammar reads the files with each extension.
pub proof fn law_grammars()
    ensures
        spec_grammar("js"@) == Some(Grammar::JavaScript) && spec_grammar("jsx"@) == Some(
            Grammar::JavaScript,
        ) && spec_grammar("mjs"@) == Some(Grammar::JavaScript) && spec_grammar("cjs"@) == Some(
            Grammar::JavaScript,
        ),
        spec_grammar("ts"@) == Some(Grammar::TypeScript) && spec_grammar("tsx"@) == Some(
            Grammar::Tsx,
        ),
        spec_grammar("py"@) == Some(Grammar::Python) && spec_grammar("pyi"@) == Some(
            Grammar::Python,
        ),
        spec_grammar("rs"@) == Some(Grammar::Rust) && spec_grammar("go"@) == Some(Grammar::Go),
        spec_grammar("c"@) == Some(Grammar::C) && spec_grammar("h"@) == Some(Grammar::C),
        spec_grammar("cpp"@) == Some(Grammar::Cpp) && spec_grammar("cc"@) == Some(Grammar::Cpp)
            && spec_grammar("cxx"@) == Some(Grammar::Cpp) && spec_grammar("hpp"@) == Some(
            Grammar::Cpp,
        ) && spec_grammar("hxx"@) == Some(Grammar::Cpp),
{
    reveal_strlit("js");
    reveal_strlit("jsx");
    reveal_strlit("ts");
    reveal_strlit("tsx");
    reveal_strlit("mjs");
    reveal_strlit("cjs");
    reveal_strlit("py");
    reveal_strlit("pyi");
    reveal_strlit("rs");
    reveal_strlit("go");
    reveal_strlit("c");
    reveal_strlit("h");
    reveal_strlit("cpp");
    reveal_strlit("cc");
    reveal_strlit("cxx");
    reveal_strlit("hpp");
    reveal_strlit("hxx");
    assert("c"@.len() == 1 && "h"@.len() == 1 && "js"@.len() == 2 && "ts"@.len() == 2 && "py"@.len()
        == 2 && "rs"@.len() == 2 && "go"@.len() == 2 && "cc"@.len() == 2);
    assert("jsx"@.len() == 3 && "tsx"@.len() == 3 && "mjs"@.len() == 3 && "cjs"@.len() == 3
        && "pyi"@.len() == 3 && "cpp"@.len() == 3 && "cxx"@.len() == 3 && "hpp"@.len() == 3
        && "hxx"@.len() == 3);
    assert("js"@[0] == 'j' && "ts"@[0] == 't' && "py"@[0] == 'p' && "rs"@[0] == 'r' && "go"@[0]
        == 'g' && "cc"@[0] == 'c' && "c"@[0] == 'c' && "h"@[0] == 'h');
    assert("jsx"@[0] == 'j' && "tsx"@[0] == 't' && "mjs"@[0] == 'm' && "cjs"@[0] == 'c'
        && "cjs"@[1] == 'j' && "pyi"@[0] == 'p' && "cpp"@[0] == 'c' && "cpp"@[1] == 'p'
        && "cxx"@[0] == 'c' && "cxx"@[1] == 'x' && "hpp"@[0] == 'h' && "hxx"@[0] == 'h');
}

/// The stored name of every kind, and its short name, which is what its stored name is
/// abbreviated to.
pub proof fn law_kinds_are_named(kind: SymbolKind)
    ensures
        spec_abbreviate_kind(spec_label(kind)) == spec_short(kind),
        spec_label(SymbolKind::Function) == "function"@ && spec_short(SymbolKind::Function)
            == "fn"@,
        spec_label(SymbolKind::AsyncFunction) == "async function"@ && spec_short(
            SymbolKind::AsyncFunction,
        ) == "async fn"@,
        spec_label(SymbolKind::Class) == "class"@ && spec_short(SymbolKind::Class) == "class"@,
        spec_label(SymbolKind::Method) == "method"@ && spec_short(SymbolKind::Method) == "method"@,
        spec_label(SymbolKind::Interface) == "interface"@ && spec_short(SymbolKind::Interface)
            == "iface"@,
        spec_label(SymbolKind::TypeAlias) == "type"@ && spec_short(SymbolKind::TypeAlias)
            == "type"@,
        spec_label(SymbolKind::Enum) == "enum"@ && spec_short(SymbolKind::Enum) == "enum"@,
        spec_label(SymbolKind::Struct) == "struct"@ && spec_short(SymbolKind::Struct) == "struct"@,
        spec_label(SymbolKind::Trait) == "trait"@ && spec_short(SymbolKind::Trait) == "trait"@,
        spec_label(SymbolKind::Impl) == "impl"@ && spec_short(SymbolKind::Impl) == "impl"@,
        spec_label(SymbolKind::Export) == "export"@ && spec_short(SymbolKind::Export) == "export"@,
        spec_label(SymbolKind::Constant) == "const"@ && spec_short(SymbolKind::Constant)
            == "const"@,
{
    reveal_strlit("function");
    reveal_strlit("async function");
    reveal_strlit("interface");
    reveal_strlit("class");
    reveal_strlit("method");
    reveal_strlit("type");
    reveal_strlit("enum");
    reveal_strlit("struct");
    reveal_strlit("trait");
    reveal_strlit("impl");
    reveal_strlit("export");
    reveal_strlit("const");
    assert("function"@.len() == 8 && "async function"@.len() == 14 && "interface"@.len() == 9);
    assert("class"@.len() == 5 && "method"@.len() == 6 && "type"@.len() == 4 && "enum"@.len() == 4
        && "struct"@.len() == 6 && "trait"@.len() == 5 && "impl"@.len() == 4 && "export"@.len() == 6
        && "const"@.len() == 5);
}

proof fn lemma_gathers_nothing(list: Seq<int>, f: spec_fn(int) -> Seq<SymbolModel>)
    requires
        forall|c: int| #![trigger list.contains(c)] list.contains(c) ==> f(c).len() == 0,
    ensures
        gather(list, f) == Seq::<SymbolModel>::empty(),
    decreases list.len(),
{
    if list.len() > 0 {
        let rest = list.drop_last();
        assert forall|c: int| #![trigger rest.contains(c)] rest.contains(c) implies f(c).len()
            == 0 by {
            let k = choose|k: int| 0 <= k < rest.len() && rest[k] == c;
            assert(list[k] == c);
            assert(list.contains(c));
        }
        lemma_gathers_nothing(rest, f);
        assert(list.contains(list.last()));
        assert(gather(list, f) =~= Seq::empty());
    }
}

/// Whether a top-level node of a kind can define symbols in the files of a grammar.
pub open spec fn may_define(grammar: Grammar, kind: Seq<char>) -> bool {
    match grammar {
        Grammar::Rust => kind == "function_item"@ || kind == "struct_item"@ || kind == "enum_item"@
            || kind == "trait_item"@ || kind == "impl_item"@,
        Grammar::Python => kind == "function_definition"@ || kind == "class_definition"@ || kind
            == "decorated_definition"@,
        Grammar::Go => kind == "function_declaration"@ || kind == "method_declaration"@ || kind
            == "type_declaration"@ || kind == "const_declaration"@ || kind == "var_declaration"@,
        Grammar::C | Grammar::Cpp => kind == "function_definition"@ || kind == "declaration"@
            || kind == "struct_specifier"@ || kind == "union_specifier"@ || kind
            == "enum_specifier"@,
        _ => kind == "function_declaration"@ || kind == "class_declaration"@ || kind
            == "lexical_declaration"@ || kind == "variable_declaration"@ || kind
            == "export_statement"@ || kind == "expression_statement"@ || (grammar
            != Grammar::JavaScript && (kind == "interface_declaration"@ || kind
            == "type_alias_declaration"@ || kind == "enum_declaration"@)),
    }
}

/// A file without a top-level node that can define a symbol has none.
pub proof fn law_other_nodes_define_nothing(
    chars: Seq<char>,
    nodes: Seq<NodeModel>,
    grammar: Grammar,
)
    requires
        forall|c: int| #[trigger]
            syntax::child_of(nodes, 0, c) ==> !may_define(grammar, nodes[c].kind),
    ensures
        file_symbols(chars, nodes, grammar) == Seq::<SymbolModel>::empty(),
{
    if nodes.len() > 0 {
        syntax::law_children(nodes, 0);
        let top = syntax::spec_children(nodes, 0);
        assert forall|c: int| #[trigger] top.contains(c) implies !may_define(
            grammar,
            nodes[c].kind,
        ) by {
            assert(syntax::child_of(nodes, 0, c));
        }
        match grammar {
            Grammar::Rust => {
                lemma_gathers_nothing(top, by_rule_part(chars, nodes, Rules::Rust));
            },
            Grammar::Python => {
                lemma_gathers_nothing(top, by_rule_part(chars, nodes, Rules::Python));
                lemma_gathers_nothing(top, python_statement_part(chars, nodes));
            },
            Grammar::Go => {
                lemma_gathers_nothing(top, by_rule_part(chars, nodes, Rules::Go));
                lemma_gathers_nothing(top, go_statement_part(chars, nodes));
            },
            Grammar::C | Grammar::Cpp => {
                lemma_gathers_nothing(top, c_statement_part(chars, nodes));
            },
            _ => {
                lemma_gathers_nothing(top, by_rule_part(chars, nodes, Rules::JavaScript));
                lemma_gathers_nothing(top, js_statement_part(chars, nodes));
                if grammar != Grammar::JavaScript {
                    lemma_gathers_nothing(top, by_rule_part(chars, nodes, Rules::TypeScriptExtra));
                    lemma_gathers_nothing(top, ts_export_part(chars, nodes));
                }
            },
        }
        assert(file_symbols(chars, nodes, grammar) =~= Seq::empty());
    }
}

// ── What is found inside a function ──────────────────────────────────

/// Whether a list has a symbol inside a function with a name, lines and a signature: a function,
/// with no code of its own and no more than the first hundred and twenty characters of the
/// signature.
pub open spec fn shows_inner(
    list: Seq<SymbolModel>,
    name: Seq<char>,
    start: nat,
    end: nat,
    signature: Seq<char>,
) -> bool {
    exists|s: SymbolModel| #[trigger]
        list.contains(s) && s.name == name && s.kind == SymbolKind::Function && s.start_line
            == start && s.end_line == end && s.code.len() == 0 && s.signature == (
        if signature.len() <= 120 {
            signature
        } else {
            signature.take(120)
        })
}

proof fn lemma_inner_has(
    chars: Seq<char>,
    nodes: Seq<NodeModel>,
    base: nat,
    list: Seq<int>,
    depth: nat,
    c: int,
    s: SymbolModel,
)
    requires
        depth <= 5,
        list.contains(c),
        (if opens_block(nodes[c].kind) {
            inner_statements(chars, nodes, base, syntax::spec_children(nodes, c), depth + 1)
        } else {
            inner_statement(chars, nodes, base, c)
        }).contains(s),
    ensures
        inner_statements(chars, nodes, base, list, depth).contains(s),
    decreases list.len(),
{
    let k = choose|k: int| 0 <= k < list.len() && list[k] == c;
    let rest = list.drop_last();
    let e = list.last();
    let front = inner_statements(chars, nodes, base, rest, depth);
    let back = if opens_block(nodes[e].kind) {
        inner_statements(chars, nodes, base, syntax::spec_children(nodes, e), depth + 1)
    } else {
        inner_statement(chars, nodes, base, e)
    };
    if k < list.len() - 1 {
        assert(rest[k] == c);
        lemma_inner_has(chars, nodes, base, rest, depth, c, s);
    }
    lemma_of_either(front, back, s);
}

/// What is found in a block of a function, however it is opened, is found in the function, down
/// to five levels.
pub proof fn law_blocks_are_looked_into(
    chars: Seq<char>,
    nodes: Seq<NodeModel>,
    base: nat,
    list: Seq<int>,
    depth: nat,
    c: int,
    s: SymbolModel,
)
    requires
        depth <= 4,
        list.contains(c),
        nodes[c].kind == "statement_block"@ || nodes[c].kind == "if_statement"@ || nodes[c].kind
            == "try_statement"@ || nodes[c].kind == "switch_body"@,
        inner_statements(chars, nodes, base, syntax::spec_children(nodes, c), depth + 1).contains(s),
    ensures
        inner_statements(chars, nodes, base, list, depth).contains(s),
{
    lemma_inner_has(chars, nodes, base, list, depth, c, s);
}

proof fn lemma_block_kinds_differ()
    ensures
        !opens_block("function_declaration"@),
        !opens_block("lexical_declaration"@),
        !opens_block("variable_declaration"@),
        !opens_block("expression_statement"@),
        "lexical_declaration"@ != "function_declaration"@,
        "variable_declaration"@ != "function_declaration"@,
        "expression_statement"@ != "function_declaration"@,
        !declares_variables("expression_statement"@),
        "arrow_function"@ != "call_expression"@,
        "function"@ != "call_expression"@,
{
    reveal_strlit("function_declaration");
    reveal_strlit("lexical_declaration");
    reveal_strlit("variable_declaration");
    reveal_strlit("expression_statement");
    reveal_strlit("statement_block");
    reveal_strlit("if_statement");
    reveal_strlit("try_statement");
    reveal_strlit("switch_body");
    reveal_strlit("arrow_function");
    reveal_strlit("function");
    reveal_strlit("call_expression");
    assert("function_declaration"@.len() == 20 && "lexical_declaration"@.len() == 19
        && "variable_declaration"@.len() == 20 && "expression_statement"@.len() == 20);
    assert("statement_block"@.len() == 15 && "if_statement"@.len() == 12 && "try_statement"@.len()
        == 13 && "switch_body"@.len() == 11);
    assert("function_declaration"@[0] == 'f' && "variable_declaration"@[0] == 'v'
        && "expression_statement"@[0] == 'e');
    assert("arrow_function"@.len() == 14 && "function"@.len() == 8 && "call_expression"@.len()
        == 15);
}

/// Every function that a function declares is found, with its lines counted from the line on
/// which the function starts.
pub proof fn law_inner_functions_are_symbols(
    chars: Seq<char>,
    nodes: Seq<NodeModel>,
    base: nat,
    list: Seq<int>,
    depth: nat,
    c: int,
    n: int,
)
    requires
        depth <= 5,
        list.contains(c),
        0 <= c < nodes.len(),
        nodes[c].kind == "function_declaration"@,
        syntax::holds_first(nodes, c, "name"@, n),
    ensures
        shows_inner(
            inner_statements(chars, nodes, base, list, depth),
            chars.subrange(nodes[n].start as int, nodes[n].end as int),
            base + nodes[c].start_row,
            base + nodes[c].end_row,
            spec_first_line(chars.subrange(nodes[c].start as int, nodes[c].end as int)),
        ),
{
    lemma_block_kinds_differ();
    syntax::law_field_children(nodes, c, "name"@, n);
    let v = inner_statement(chars, nodes, base, c);
    lemma_single_has(v, v[0]);
    lemma_inner_has(chars, nodes, base, list, depth, c, v[0]);
}

/// Every variable of a function that holds a function is found under its name, and every one
/// that holds what a call of a hook returns under its name and that of the hook.
pub proof fn law_inner_variables_are_symbols(
    chars: Seq<char>,
    nodes: Seq<NodeModel>,
    base: nat,
    list: Seq<int>,
    depth: nat,
    c: int,
    d: int,
    n: int,
    v: int,
    hook: Seq<char>,
    rest: Seq<char>,
)
    requires
        depth <= 5,
        list.contains(c),
        nodes[c].kind == "lexical_declaration"@ || nodes[c].kind == "variable_declaration"@,
        syntax::child_of(nodes, c, d),
        nodes[d].kind == "variable_declarator"@,
        syntax::holds_first(nodes, d, "name"@, n),
        syntax::holds_first(nodes, d, "value"@, v),
    ensures
        ({
            let found = inner_statements(chars, nodes, base, list, depth);
            let name = chars.subrange(nodes[n].start as int, nodes[n].end as int);
            let line = spec_first_line(
                chars.subrange(nodes[c].start as int, nodes[c].end as int),
            );
            &&& nodes[v].kind == "arrow_function"@ || nodes[v].kind == "function"@ ==> shows_inner(
                found,
                name,
                base + nodes[c].start_row,
                base + nodes[c].end_row,
                line,
            )
            &&& nodes[v].kind == "call_expression"@ && text::begins(hook, "use"@) && text::without(
                hook,
                '(',
            ) && chars.subrange(nodes[v].start as int, nodes[v].end as int) == hook + seq!['(']
                + rest ==> shows_inner(
                found,
                name + " = "@ + hook + "(...)"@,
                base + nodes[c].start_row,
                base + nodes[c].start_row,
                line,
            )
        }),
{
    lemma_block_kinds_differ();
    syntax::law_children(nodes, c);
    syntax::law_field_children(nodes, d, "name"@, n);
    syntax::law_field_children(nodes, d, "value"@, v);
    let f = inner_declarator_part(chars, nodes, base, c);
    let value = syntax::node_text(chars, nodes, v);
    let name = syntax::node_text(chars, nodes, n);
    let function = nodes[v].kind == "arrow_function"@ || nodes[v].kind == "function"@;
    let call = nodes[v].kind == "call_expression"@ && text::begins(hook, "use"@) && text::without(
        hook,
        '(',
    ) && value == hook + seq!['('] + rest;
    if call {
        lemma_before(hook, '(', rest);
        reveal_strlit("use");
        assert(value.subrange(0, 3) =~= hook.subrange(0, 3));
    }
    if function || call {
        let w = inner_declarator(chars, nodes, base, c, d);
        assert(w.len() == 1);
        lemma_single_has(f(d), w[0]);
        lemma_gathered(syntax::spec_children(nodes, c), f, d, w[0]);
        lemma_inner_has(chars, nodes, base, list, depth, c, w[0]);
        let found = inner_statements(chars, nodes, base, list, depth);
        if function {
            assert(w[0].name == name);
        } else {
            assert(w[0].name == name + " = "@ + hook + "(...)"@);
        }
    }
}

proof fn lemma_before(a: Seq<char>, c: char, b: Seq<char>)
    requires
        text::without(a, c),
    ensures
        spec_before(a + seq![c] + b, c) == a,
        text::spec_find_char(a + seq![c] + b, c) == Some(a.len() as int),
{
    let s = a + seq![c] + b;
    text::lemma_find_char_from(s, c, 0);
    assert(s[a.len() as int] == c);
    assert forall|j: int| 0 <= j < a.len() implies s[j] != c by {
        assert(s[j] == a[j]);
    }
    assert(s.take(a.len() as int) =~= a);
}

/// Every statement of a function that calls a hook is found under the name of the hook.
pub proof fn law_inner_hooks_are_symbols(
    chars: Seq<char>,
    nodes: Seq<NodeModel>,
    base: nat,
    list: Seq<int>,
    depth: nat,
    c: int,
    hook: Seq<char>,
    rest: Seq<char>,
)
    requires
        depth <= 5,
        list.contains(c),
        nodes[c].kind == "expression_statement"@,
        text::begins(hook, "use"@),
        hook.len() > 3,
        text::without(hook, '('),
        forall|i: int| 0 <= i < hook.len() ==> text::char_is_alphanumeric(#[trigger] hook[i]),
        text::spec_trim_start(
            chars.subrange(nodes[c].start as int, nodes[c].end as int),
        ) == hook + seq!['('] + rest,
    ensures
        shows_inner(
            inner_statements(chars, nodes, base, list, depth),
            hook + "(...)"@,
            base + nodes[c].start_row,
            base + nodes[c].end_row,
            spec_first_line(hook + seq!['('] + rest),
        ),
{
    lemma_block_kinds_differ();
    reveal_strlit("use");
    let code = hook + seq!['('] + rest;
    lemma_before(hook, '(', rest);
    assert(code.subrange(0, 3) =~= hook.subrange(0, 3));
    let w = inner_expression(chars, nodes, base, c);
    assert(w.len() == 1);
    lemma_single_has(w, w[0]);
    lemma_inner_has(chars, nodes, base, list, depth, c, w[0]);
}

/// A line calls a known hook exactly where it mentions one of these.
pub proof fn law_known_hooks(line: Seq<char>)
    ensures
        spec_known_hook(line) is Some <==> text::has(line, "useState"@) || text::has(
            line,
            "useEffect"@,
        ) || text::has(line, "useMemo"@) || text::has(line, "useCallback"@) || text::has(
            line,
            "useRef"@,
        ) || text::has(line, "useReducer"@) || text::has(line, "useContext"@) || text::has(
            line,
            "useLayoutEffect"@,
        ) || text::has(line, "useImperativeHandle"@) || text::has(line, "useDebugValue"@)
            || text::has(line, "useTransition"@) || text::has(line, "useDeferredValue"@)
            || text::has(line, "useId"@),
        spec_known_hook(line) matches Some(hook) ==> text::has(line, hook),
{
}

proof fn lemma_found_after(name: Seq<char>, rest: Seq<char>)
    requires
        text::without(name, ' '),
    ensures
        text::spec_find(name + " = "@ + rest, " = "@) == Some(name.len() as int),
{
    reveal_strlit(" = ");
    let s = name + " = "@ + rest;
    let n = name.len() as int;
    text::lemma_find_from(s, " = "@, 0);
    assert(s.subrange(n, n + 3) =~= " = "@);
    assert(text::occurs_at(s, " = "@, n));
    match text::spec_find(s, " = "@) {
        Some(i) => {
            if i < n {
                assert(s.subrange(i, i + 3)[0] == " = "@[0]);
                assert(s[i] == name[i]);
            }
        },
        None => {},
    }
}

/// Whether every character of a name can stand in one of JavaScript's.
pub open spec fn script_name(s: Seq<char>) -> bool {
    s.len() > 0 && forall|i: int|
        0 <= i < s.len() ==> (text::char_is_alphanumeric(#[trigger] s[i]) || s[i] == '_' || s[i]
            == '$')
}

proof fn lemma_prefixes(rest: Seq<char>)
    ensures
        text::spec_strip_prefix("const "@ + rest, "const "@) == Some(rest),
        text::spec_strip_prefix("let "@ + rest, "let "@) == Some(rest),
        text::spec_strip_prefix("let "@ + rest, "const "@) is None,
        text::spec_strip_prefix("var "@ + rest, "var "@) == Some(rest),
        text::spec_strip_prefix("var "@ + rest, "const "@) is None,
        text::spec_strip_prefix("var "@ + rest, "let "@) is None,
        text::spec_strip_prefix("function "@ + rest, "function "@) == Some(rest),
        text::spec_strip_prefix("function "@ + rest, "const "@) is None,
        text::spec_strip_prefix("function "@ + rest, "let "@) is None,
        text::spec_strip_prefix("function "@ + rest, "var "@) is None,
        text::spec_strip_prefix("async function "@ + rest, "async function "@) == Some(rest),
        text::spec_strip_prefix("async function "@ + rest, "const "@) is None,
        text::spec_strip_prefix("async function "@ + rest, "let "@) is None,
        text::spec_strip_prefix("async function "@ + rest, "var "@) is None,
        text::spec_strip_prefix("async function "@ + rest, "function "@) is None,
{
    reveal_strlit("const ");
    reveal_strlit("let ");
    reveal_strlit("var ");
    reveal_strlit("function ");
    reveal_strlit("async function ");
    lemma_prefix_of("const "@, rest);
    lemma_prefix_of("let "@, rest);
    lemma_prefix_of("var "@, rest);
    lemma_prefix_of("function "@, rest);
    lemma_prefix_of("async function "@, rest);
    lemma_other_prefix("let "@ + rest, "const "@);
    lemma_other_prefix("var "@ + rest, "const "@);
    lemma_other_prefix("var "@ + rest, "let "@);
    lemma_other_prefix("function "@ + rest, "const "@);
    lemma_other_prefix("function "@ + rest, "let "@);
    lemma_other_prefix("function "@ + rest, "var "@);
    lemma_other_prefix("async function "@ + rest, "const "@);
    lemma_other_prefix("async function "@ + rest, "let "@);
    lemma_other_prefix("async function "@ + rest, "var "@);
    lemma_other_prefix("async function "@ + rest, "function "@);
}

proof fn lemma_prefix_of(p: Seq<char>, rest: Seq<char>)
    ensures
        text::spec_strip_prefix(p + rest, p) == Some(rest),
{
    assert((p + rest).subrange(0, p.len() as int) =~= p);
    assert((p + rest).skip(p.len() as int) =~= rest);
}

proof fn lemma_other_prefix(s: Seq<char>, p: Seq<char>)
    requires
        s.len() > 0,
        p.len() > 0,
        s[0] != p[0],
    ensures
        text::spec_strip_prefix(s, p) is None,
{
    if text::begins(s, p) {
        assert(s.subrange(0, p.len() as int)[0] == p[0]);
    }
}

/// A line that assigns a function to a variable declares a function under the name of the
/// variable: the value is in parentheses, or starts with `async` or `function`, or has an arrow.
pub proof fn law_assigned_functions_are_declared(name: Seq<char>, value: Seq<char>)
    requires
        script_name(name),
        text::without(name, ' '),
        text::spec_trim(name) == name,
        text::spec_trim(value) == value,
        text::begins(value, "("@) || text::begins(value, "async "@) || text::begins(
            value,
            "function"@,
        ) || text::has(value, "=>"@),
    ensures
        spec_inner_declaration("const "@ + (name + " = "@ + value)) == Some(name),
        spec_inner_declaration("let "@ + (name + " = "@ + value)) == Some(name),
        spec_inner_declaration("var "@ + (name + " = "@ + value)) == Some(name),
{
    let rest = name + " = "@ + value;
    reveal_strlit(" = ");
    lemma_prefixes(rest);
    lemma_found_after(name, value);
    assert(rest.take(name.len() as int) =~= name);
    assert(rest.skip(name.len() as int + 3) =~= value);
}

/// A line that declares a function, plain or async, is found under the name before the
/// parameters.
pub proof fn law_declared_functions_are_declared(name: Seq<char>, tail: Seq<char>)
    requires
        script_name(name),
        text::without(name, '('),
        text::spec_trim(name) == name,
    ensures
        spec_inner_declaration("function "@ + (name + seq!['('] + tail)) == Some(name),
        spec_inner_declaration("async function "@ + (name + seq!['('] + tail)) == Some(name),
{
    let rest = name + seq!['('] + tail;
    lemma_prefixes(rest);
    lemma_before(name, '(', tail);
    assert(rest.take(name.len() as int) =~= name);
}

proof fn lemma_line_symbols_have(
    lines: Seq<Seq<char>>,
    base: nat,
    found: Seq<SymbolModel>,
    i: int,
    s: SymbolModel,
)
    requires
        0 <= i < lines.len(),
        !starts_at(found, (base + i) as nat),
        line_symbol(lines[i], (base + i) as nat).contains(s),
    ensures
        line_symbols(lines, base, found).contains(s),
    decreases lines.len(),
{
    let rest = lines.drop_last();
    let n = (base + lines.len() - 1) as nat;
    let front = line_symbols(rest, base, found);
    let back = if starts_at(found, n) {
        Seq::empty()
    } else {
        line_symbol(lines.last(), n)
    };
    if i < lines.len() - 1 {
        assert(rest[i] == lines[i]);
        lemma_line_symbols_have(rest, base, found, i, s);
    }
    lemma_of_either(front, back, s);
}

/// A line that calls a known hook or declares a function is found by itself where the tree
/// showed nothing on it.
pub proof fn law_lines_complete_the_tree(
    lines: Seq<Seq<char>>,
    base: nat,
    found: Seq<SymbolModel>,
    i: int,
    name: Seq<char>,
)
    requires
        0 <= i < lines.len(),
        forall|k: int| 0 <= k < found.len() ==> (#[trigger] found[k]).start_line != base + i,
        spec_hook_call(text::spec_trim(lines[i])) == Some(name) || (spec_hook_call(
            text::spec_trim(lines[i]),
        ) is None && spec_inner_declaration(text::spec_trim(lines[i])) == Some(name)),
    ensures
        shows_inner(
            line_symbols(lines, base, found),
            name,
            (base + i) as nat,
            (base + i) as nat,
            text::spec_trim(lines[i]),
        ),
{
    let v = line_symbol(lines[i], (base + i) as nat);
    lemma_single_has(v, v[0]);
    lemma_line_symbols_have(lines, base, found, i, v[0]);
}

/// A call of a known hook is named by the hook, behind the variable that takes what it returns.
pub proof fn law_hook_calls_are_named(
    prefix: Seq<char>,
    name: Seq<char>,
    rest: Seq<char>,
    hook: Seq<char>,
)
    requires
        prefix == "const "@ || prefix == "let "@ || prefix == "var "@,
        name.len() > 0,
        text::solid(name),
        text::without(name, '='),
        text::without(name, ' '),
        spec_known_hook(prefix + name + seq![' ', '='] + rest) == Some(hook),
        text::spec_find_char(prefix + name + seq![' ', '='] + rest, '(') is Some,
    ensures
        spec_hook_call(prefix + name + seq![' ', '='] + rest) == Some(
            name + " = "@ + hook + "(...)"@,
        ),
{
    reveal_strlit("const ");
    reveal_strlit("let ");
    reveal_strlit("var ");
    let left = prefix + name + seq![' '];
    let line = prefix + name + seq![' ', '='] + rest;
    assert(line =~= left + seq!['='] + rest);
    assert forall|j: int| 0 <= j < left.len() implies #[trigger] left[j] != '=' by {
        if j >= prefix.len() && j < prefix.len() + name.len() {
            assert(left[j] == name[j - prefix.len()]);
        }
    }
    lemma_before(left, '=', rest);
    assert(line.take(left.len() as int) =~= left);
    let core = prefix + name;
    assert(left =~= Seq::<char>::empty() + core + seq![' ']);
    assert(!text::char_is_whitespace(name.last()));
    text::law_trim(Seq::empty(), core, seq![' ']);
    text::law_trim(Seq::empty(), name, Seq::empty());
    assert(Seq::<char>::empty() + name + Seq::<char>::empty() =~= name);
    lemma_strip_declared(prefix, name);
}

proof fn lemma_no_prefix(name: Seq<char>, p: Seq<char>)
    requires
        text::without(name, ' '),
        p.contains(' '),
    ensures
        text::spec_strip_leading(name, p) == name,
{
    if text::begins(name, p) {
        let k = choose|k: int| 0 <= k < p.len() && p[k] == ' ';
        assert(name.subrange(0, p.len() as int)[k] == ' ');
    }
}

proof fn lemma_strip_declared(prefix: Seq<char>, name: Seq<char>)
    requires
        prefix == "const "@ || prefix == "let "@ || prefix == "var "@,
        name.len() > 0,
        text::without(name, ' '),
    ensures
        text::spec_strip_leading(
            text::spec_strip_leading(
                text::spec_strip_leading(prefix + name, "const "@),
                "let "@,
            ),
            "var "@,
        ) == name,
{
    reveal_strlit("const ");
    reveal_strlit("let ");
    reveal_strlit("var ");
    assert("const "@[5] == ' ' && "let "@[3] == ' ' && "var "@[3] == ' ');
    let s = prefix + name;
    lemma_no_prefix(name, "const "@);
    lemma_no_prefix(name, "let "@);
    lemma_no_prefix(name, "var "@);
    assert(s.subrange(0, prefix.len() as int) =~= prefix);
    assert(s.skip(prefix.len() as int) =~= name);
    if prefix == "let "@ {
        lemma_other_prefix(s, "const "@);
    } else if prefix == "var "@ {
        lemma_other_prefix(s, "const "@);
        lemma_other_prefix(s, "let "@);
    }
}

/// Whether a node is of one of two kinds and has a name.
pub open spec fn named_kind(nodes: Seq<NodeModel>, a: Seq<char>, b: Seq<char>) -> spec_fn(int) -> bool {
    |c: int| (nodes[c].kind == a || nodes[c].kind == b) && holds(nodes, c, "name"@)
}

proof fn lemma_ruled_once(
    chars: Seq<char>,
    nodes: Seq<NodeModel>,
    rules: Rules,
    a: Seq<char>,
    b: Seq<char>,
)
    requires
        nodes.len() > 0,
        forall|kind: Seq<char>| #[trigger]
            spec_rule(rules, kind) matches Some(r) ==> r.1 == "name"@ && (kind == a || kind == b),
        spec_rule(rules, a) is Some,
        spec_rule(rules, b) is Some,
    ensures
        by_rules(chars, nodes, rules, 0).len() == syntax::spec_children(nodes, 0).filter(
            named_kind(nodes, a, b),
        ).len(),
{
    let list = syntax::spec_children(nodes, 0);
    let f = by_rule_part(chars, nodes, rules);
    let p = named_kind(nodes, a, b);
    syntax::law_children(nodes, 0);
    assert forall|c: int| #![trigger list.contains(c)] list.contains(c) implies f(c).len() == (
    if p(c) {
        1nat
    } else {
        0
    }) by {
        assert(syntax::child_of(nodes, 0, c));
        syntax::law_field_children(nodes, c, "name"@, 0);
        assert(spec_rule(rules, nodes[c].kind) is Some ==> nodes[c].kind == a || nodes[c].kind
            == b);
    }
    lemma_gather_counts(list, f, p);
}

/// A file of plain definitions has exactly one symbol for each that has a name, and no other: in
/// JavaScript one without variables, exports and statements, in Python one without decorators, in
/// Go one without types, constants and variables.
pub proof fn law_plain_definitions_are_symbols_once(chars: Seq<char>, nodes: Seq<NodeModel>)
    requires
        nodes.len() > 0,
    ensures
        ({
            let top = syntax::spec_children(nodes, 0);
            &&& (forall|c: int| #[trigger]
                syntax::child_of(nodes, 0, c) ==> nodes[c].kind != "lexical_declaration"@
                    && nodes[c].kind != "variable_declaration"@ && nodes[c].kind
                    != "export_statement"@ && nodes[c].kind != "expression_statement"@)
                ==> file_symbols(chars, nodes, Grammar::JavaScript).len() == top.filter(
                named_kind(nodes, "function_declaration"@, "class_declaration"@),
            ).len()
            &&& (forall|c: int| #[trigger]
                syntax::child_of(nodes, 0, c) ==> nodes[c].kind != "decorated_definition"@)
                ==> file_symbols(chars, nodes, Grammar::Python).len() == top.filter(
                named_kind(nodes, "function_definition"@, "class_definition"@),
            ).len()
            &&& (forall|c: int| #[trigger]
                syntax::child_of(nodes, 0, c) ==> nodes[c].kind != "type_declaration"@
                    && nodes[c].kind != "const_declaration"@ && nodes[c].kind != "var_declaration"@)
                ==> file_symbols(chars, nodes, Grammar::Go).len() == top.filter(
                named_kind(nodes, "function_declaration"@, "method_declaration"@),
            ).len()
        }),
{
    lemma_script_kinds_differ();
    syntax::law_children(nodes, 0);
    let top = syntax::spec_children(nodes, 0);
    lemma_ruled_once(
        chars,
        nodes,
        Rules::JavaScript,
        "function_declaration"@,
        "class_declaration"@,
    );
    lemma_ruled_once(chars, nodes, Rules::Python, "function_definition"@, "class_definition"@);
    lemma_ruled_once(chars, nodes, Rules::Go, "function_declaration"@, "method_declaration"@);
    assert forall|c: int| #[trigger] top.contains(c) implies syntax::child_of(nodes, 0, c) by {}
    if forall|c: int| #[trigger]
        syntax::child_of(nodes, 0, c) ==> nodes[c].kind != "lexical_declaration"@ && nodes[c].kind
            != "variable_declaration"@ && nodes[c].kind != "export_statement"@ && nodes[c].kind
            != "expression_statement"@ {
        lemma_gathers_nothing(top, js_statement_part(chars, nodes));
    }
    if forall|c: int| #[trigger]
        syntax::child_of(nodes, 0, c) ==> nodes[c].kind != "decorated_definition"@ {
        lemma_gathers_nothing(top, python_statement_part(chars, nodes));
    }
    if forall|c: int| #[trigger]
        syntax::child_of(nodes, 0, c) ==> nodes[c].kind != "type_declaration"@ && nodes[c].kind
            != "const_declaration"@ && nodes[c].kind != "var_declaration"@ {
        lemma_gathers_nothing(top, go_statement_part(chars, nodes));
    }
}

/// Whether a node declares a variable with a name and a value.
pub open spec fn valued_variable(nodes: Seq<NodeModel>) -> spec_fn(int) -> bool {
    |d: int|
        nodes[d].kind == "variable_declarator"@ && holds(nodes, d, "name"@) && holds(
            nodes,
            d,
            "value"@,
        )
}

/// A declaration of variables gives exactly one symbol for each that has a name and a value.
pub proof fn law_variables_are_symbols_once(chars: Seq<char>, nodes: Seq<NodeModel>, c: int)
    requires
        0 <= c < nodes.len(),
    ensures
        variables(chars, nodes, c).len() == syntax::spec_children(nodes, c).filter(
            valued_variable(nodes),
        ).len(),
{
    let list = syntax::spec_children(nodes, c);
    let f = declared_part(chars, nodes, c);
    let p = valued_variable(nodes);
    syntax::law_children(nodes, c);
    assert forall|d: int| #![trigger list.contains(d)] list.contains(d) implies f(d).len() == (
    if p(d) {
        1nat
    } else {
        0
    }) by {
        assert(syntax::child_of(nodes, c, d));
        syntax::law_field_children(nodes, d, "name"@, 0);
        syntax::law_field_children(nodes, d, "value"@, 0);
    }
    lemma_gather_counts(list, f, p);
}

/// A C or C++ file has at most one symbol for each top-level node.
pub proof fn law_c_nodes_give_one_symbol(
    chars: Seq<char>,
    nodes: Seq<NodeModel>,
    grammar: Grammar,
)
    requires
        grammar == Grammar::C || grammar == Grammar::Cpp,
        nodes.len() > 0,
    ensures
        file_symbols(chars, nodes, grammar).len() <= syntax::spec_children(nodes, 0).len(),
{
    lemma_gather_bounded(syntax::spec_children(nodes, 0), c_statement_part(chars, nodes));
}

proof fn lemma_gather_bounded(list: Seq<int>, f: spec_fn(int) -> Seq<SymbolModel>)
    requires
        forall|c: int| (#[trigger] f(c)).len() <= 1,
    ensures
        gather(list, f).len() <= list.len(),
    decreases list.len(),
{
    if list.len() > 0 {
        lemma_gather_bounded(list.drop_last(), f);
        assert(f(list.last()).len() <= 1);
    }
}

/// What lies more than five blocks deep in a function is not looked for.
pub proof fn law_deep_blocks_are_left_out(
    chars: Seq<char>,
    nodes: Seq<NodeModel>,
    base: nat,
    list: Seq<int>,
    depth: nat,
)
    requires
        depth >= 6,
    ensures
        inner_statements(chars, nodes, base, list, depth) == Seq::<SymbolModel>::empty(),
{
}

/// The children of the root are the statements of a function: what they show is what its tree shows.
pub proof fn law_tree_shows_its_statements(chars: Seq<char>, nodes: Seq<NodeModel>, base: nat)
    ensures
        nodes.len() == 0 ==> tree_symbols(chars, nodes, base) == Seq::<SymbolModel>::empty(),
        nodes.len() > 0 ==> tree_symbols(chars, nodes, base) == inner_statements(
            chars,
            nodes,
            base,
            syntax::spec_children(nodes, 0),
            0,
        ),
{
}

} // verus!
