//! Source files to symbols and imports: the language of a file, and what
//! each language's syntax tree declares at its top level.
use vstd::prelude::*;
use std::path::Path;
use vstd::string::StringSliceAdditionalSpecFns;
use vstd::utf8::{is_char_boundary, valid_utf8};
use crate::pattern::{
    after_last, after_last_str, before_first, before_first_str, last_word, last_word_str, prefix_within,
    prefix_within_str, split_char, split_char_str, strip_prefix, strip_prefix_str, trim_end_matches,
    trim_end_matches_str, trim_end_set, trim_end_str, trim_set, trim_set_str, trim_start_matches,
    trim_start_matches_str, trim_start_set, trim_start_str, first_line_str,
};
use crate::syntax::{grammar_for, grammar_named, parse_nodes, tree_nodes, Grammar, SyntaxNode, SyntaxTree, TreeView};
use crate::text::{contains_seq, ends_with, first_line, push_str, starts_with, str_contains, str_ends_with, str_eq, str_starts_with, to_owned, trim, trim_end, trim_start, trim_str};

verus! {

/// What a symbol is.
#[derive(Debug, Clone, Copy, PartialEq, Eq, Structural)]
pub enum SymbolKind {
    Function,
    Class,
    Method,
    Type,
    Const,
    Interface,
    Module,
}

/// The lowercase name of a kind.
pub open spec fn kind_name(k: SymbolKind) -> Seq<char> {
    match k {
        SymbolKind::Function => "function"@,
        SymbolKind::Class => "class"@,
        SymbolKind::Method => "method"@,
        SymbolKind::Type => "type"@,
        SymbolKind::Const => "const"@,
        SymbolKind::Interface => "interface"@,
        SymbolKind::Module => "module"@,
    }
}

impl SymbolKind {
    /// The kind a lowercase name stands for.
    pub fn from_str_opt(s: &str) -> (r: Option<SymbolKind>)
        ensures
            r matches Some(k) ==> kind_name(k) == s@,
            r is None ==> forall|k: SymbolKind| kind_name(k) != s@,
    {
        if str_eq(s, "function") {
            Some(SymbolKind::Function)
        } else if str_eq(s, "class") {
            Some(SymbolKind::Class)
        } else if str_eq(s, "method") {
            Some(SymbolKind::Method)
        } else if str_eq(s, "type") {
            Some(SymbolKind::Type)
        } else if str_eq(s, "const") {
            Some(SymbolKind::Const)
        } else if str_eq(s, "interface") {
            Some(SymbolKind::Interface)
        } else if str_eq(s, "module") {
            Some(SymbolKind::Module)
        } else {
            None
        }
    }

    /// The lowercase name of the kind.
    pub fn as_str(&self) -> (r: &'static str)
        ensures
            r@ == kind_name(*self),
    {
        match self {
            SymbolKind::Function => "function",
            SymbolKind::Class => "class",
            SymbolKind::Method => "method",
            SymbolKind::Type => "type",
            SymbolKind::Const => "const",
            SymbolKind::Interface => "interface",
            SymbolKind::Module => "module",
        }
    }
}

/// Who may use a symbol.
#[derive(Debug, Clone, Copy, PartialEq, Eq, Structural)]
pub enum Visibility {
    Public,
    Private,
    Internal,
}

pub open spec fn visibility_name(v: Visibility) -> Seq<char> {
    match v {
        Visibility::Public => "public"@,
        Visibility::Private => "private"@,
        Visibility::Internal => "internal"@,
    }
}

impl Visibility {
    /// The lowercase name of the visibility.
    pub fn as_str(&self) -> (r: &'static str)
        ensures
            r@ == visibility_name(*self),
    {
        match self {
            Visibility::Public => "public",
            Visibility::Private => "private",
            Visibility::Internal => "internal",
        }
    }
}

/// A declaration found in a source file; classes, traits and the like hold
/// their members as children.
#[derive(Debug)]
pub struct Symbol {
    pub name: String,
    pub kind: SymbolKind,
    pub visibility: Visibility,
    pub signature: String,
    pub docstring: Option<String>,
    pub byte_start: usize,
    pub byte_end: usize,
    pub children: Vec<Symbol>,
}

/// An import statement of a source file.
#[derive(Debug, Clone)]
pub struct Import {
    pub raw_text: String,
    pub source_module: Option<String>,
    pub imported_names: Vec<String>,
}

/// What parsing a source file found.
#[derive(Debug)]
pub struct ParsedFile {
    pub path: String,
    pub language: String,
    pub hash: u64,
    pub symbols: Vec<Symbol>,
    pub imports: Vec<Import>,
}

/// A symbol without its children, as plain values.
pub struct SymbolHead {
    pub name: Seq<char>,
    pub kind: SymbolKind,
    pub visibility: Visibility,
    pub signature: Seq<char>,
    pub docstring: Option<Seq<char>>,
    pub byte_start: usize,
    pub byte_end: usize,
}

/// A symbol and its children, as plain values.
pub struct SymbolShape {
    pub head: SymbolHead,
    pub children: Seq<SymbolHead>,
}

pub open spec fn opt_view(o: Option<String>) -> Option<Seq<char>> {
    match o {
        Some(s) => Some(s@),
        None => None,
    }
}

pub open spec fn head_of(s: Symbol) -> SymbolHead {
    SymbolHead {
        name: s.name@,
        kind: s.kind,
        visibility: s.visibility,
        signature: s.signature@,
        docstring: opt_view(s.docstring),
        byte_start: s.byte_start,
        byte_end: s.byte_end,
    }
}

/// `v` holds symbols of the given shapes, in order, with no grandchildren.
pub open spec fn has_shapes(v: Seq<Symbol>, shapes: Seq<SymbolShape>) -> bool {
    &&& v.len() == shapes.len()
    &&& forall|k: int| 0 <= k < v.len() ==> #[trigger] head_of(v[k]) == shapes[k].head
    &&& forall|k: int| 0 <= k < v.len() ==> (#[trigger] v[k]).children@.len() == shapes[k].children.len()
    &&& forall|k: int, c: int| 0 <= k < v.len() && 0 <= c < v[k].children@.len() ==>
        head_of(#[trigger] v[k].children@[c]) == shapes[k].children[c] && v[k].children@[c].children@.len() == 0
}

/// `v` holds childless symbols with the given heads, in order.
pub open spec fn has_heads(v: Seq<Symbol>, heads: Seq<SymbolHead>) -> bool {
    &&& v.len() == heads.len()
    &&& forall|k: int| 0 <= k < v.len() ==> #[trigger] head_of(v[k]) == heads[k] && v[k].children@.len() == 0
}

pub open spec fn opt_seq<A>(o: Option<A>) -> Seq<A> {
    match o {
        Some(a) => seq![a],
        None => seq![],
    }
}

/// A childless symbol spanning node `i`.
pub open spec fn head_at(
    t: TreeView,
    i: int,
    name: Seq<char>,
    kind: SymbolKind,
    vis: Visibility,
    sig: Seq<char>,
    doc: Option<Seq<char>>,
) -> SymbolHead {
    SymbolHead {
        name,
        kind,
        visibility: vis,
        signature: sig,
        docstring: doc,
        byte_start: t.nodes[i].start,
        byte_end: t.nodes[i].end,
    }
}

pub open spec fn leaf(h: SymbolHead) -> SymbolShape {
    SymbolShape { head: h, children: seq![] }
}

/// A declaration's signature: its text up to its body, without trailing
/// whitespace and opening braces; without a body, its first line.
pub open spec fn signature_up_to_body(t: TreeView, i: int) -> Seq<char> {
    match t.field_child(i, "body"@) {
        Some(b) => trim_end(
            trim_end_matches(
                trim_end(prefix_within(t.text(i), t.nodes[b].start - t.nodes[i].start)),
                "{"@,
            ),
        ),
        None => first_line(t.text(i)),
    }
}

/// The text of the node in field `f` of node `i`.
pub open spec fn field_text(t: TreeView, i: int, f: Seq<char>) -> Option<Seq<char>> {
    match t.field_child(i, f) {
        Some(c) => Some(t.text(c)),
        None => None,
    }
}

// ─── Shared exec helpers ─────────────────────────────────────────────

fn leaf_symbol(
    tree: &SyntaxTree,
    i: usize,
    name: String,
    kind: SymbolKind,
    vis: Visibility,
    sig: String,
    doc: Option<String>,
) -> (s: Symbol)
    requires
        i < tree@.nodes.len(),
    ensures
        head_of(s) == head_at(tree@, i as int, name@, kind, vis, sig@, opt_view(doc)),
        s.children@.len() == 0,
{
    let node = tree.node(i);
    Symbol {
        name,
        kind,
        visibility: vis,
        signature: sig,
        docstring: doc,
        byte_start: node.start,
        byte_end: node.end,
        children: Vec::new(),
    }
}

fn signature_of(tree: &SyntaxTree, i: usize) -> (r: String)
    requires
        i < tree@.nodes.len(),
    ensures
        r@ == signature_up_to_body(tree@, i as int),
{
    let body = tree.field_child(i, "body");
    match body {
        Some(b) => {
            proof {
                assert(tree@.field_child(i as int, "body"@) is Some);
                let c = tree@.field_child(i as int, "body"@)->0;
                assert(c == b as int);
            }
            let ns = tree.node(i).start;
            let nb = tree.node(b).start;
            let n = if nb >= ns { nb - ns } else { 0 };
            let head = prefix_within_str(tree.text(i), n);
            proof {
                if nb < ns {
                    let s = tree@.text(i as int);
                    if s.len() > 0 {
                        assert(prefix_within(s, nb - ns) =~= seq![]);
                        assert(prefix_within(s, 0) =~= seq![]);
                    }
                }
            }
            let t1 = trim_end_str(head.as_str());
            let t2 = trim_end_matches_str(t1.as_str(), "{");
            trim_end_str(t2.as_str())
        },
        None => first_line_str(tree.text(i)),
    }
}

fn field_text_of(tree: &SyntaxTree, i: usize, f: &str) -> (r: Option<String>)
    requires
        i < tree@.nodes.len(),
    ensures
        opt_view(r) == field_text(tree@, i as int, f@),
{
    let fc = tree.field_child(i, f);
    match fc {
        Some(c) => {
            proof {
                assert(tree@.field_child(i as int, f@) is Some);
                let k = tree@.field_child(i as int, f@)->0;
                assert(k == c as int);
            }
            Some(to_owned(tree.text(c)))
        },
        None => None,
    }
}

/// Appends symbols of known shapes.
fn append_shaped(out: &mut Vec<Symbol>, more: Vec<Symbol>, Ghost(a): Ghost<Seq<SymbolShape>>, Ghost(b): Ghost<Seq<SymbolShape>>)
    requires
        has_shapes(old(out)@, a),
        has_shapes(more@, b),
    ensures
        has_shapes(final(out)@, a + b),
{
    let mut more = more;
    let ghost o0 = out@;
    let ghost m0 = more@;
    out.append(&mut more);
    proof {
        let ab = a + b;
        assert forall|q: int| 0 <= q < out@.len() implies #[trigger] head_of(out@[q]) == ab[q].head by {
            if q >= o0.len() {
                assert(out@[q] == m0[q - o0.len()]);
            }
        }
        assert forall|q: int| 0 <= q < out@.len() implies (#[trigger] out@[q]).children@.len() == ab[q].children.len() by {
            if q >= o0.len() {
                assert(out@[q] == m0[q - o0.len()]);
            }
        }
        assert forall|q: int, c: int| 0 <= q < out@.len() && 0 <= c < out@[q].children@.len() implies
            head_of(#[trigger] out@[q].children@[c]) == ab[q].children[c] && out@[q].children@[c].children@.len() == 0 by {
            if q >= o0.len() {
                assert(out@[q] == m0[q - o0.len()]);
            }
        }
    }
}

/// Appends one symbol of a known shape.
fn push_shaped(out: &mut Vec<Symbol>, s: Symbol, Ghost(a): Ghost<Seq<SymbolShape>>, Ghost(b): Ghost<SymbolShape>)
    requires
        has_shapes(old(out)@, a),
        has_shapes(seq![s], seq![b]),
    ensures
        has_shapes(final(out)@, a.push(b)),
{
    let mut one: Vec<Symbol> = Vec::new();
    one.push(s);
    proof {
        assert(one@ =~= seq![s]);
        assert(a + seq![b] =~= a.push(b));
    }
    let ghost bs = seq![b];
    append_shaped(out, one, Ghost(a), Ghost(bs));
}

} // verus!

verus! {

// ─── Python ──────────────────────────────────────────────────────────

/// Names with a leading underscore are private.
pub open spec fn py_visibility(name: Seq<char>) -> Visibility {
    if starts_with(name, "__"@) && !ends_with(name, "__"@) {
        Visibility::Private
    } else if starts_with(name, "_"@) {
        Visibility::Private
    } else {
        Visibility::Public
    }
}

/// A Python name is private exactly when it starts with an underscore:
/// `_x`, `__x` and `__x__` alike; every other name is public.
pub proof fn lemma_py_visibility_underscore(name: Seq<char>)
    ensures
        py_visibility(name) == (if name.len() > 0 && name[0] == '_' {
            Visibility::Private
        } else {
            Visibility::Public
        }),
{
    reveal_strlit("_");
    reveal_strlit("__");
    if name.len() > 0 && name[0] == '_' {
        assert(name.subrange(0, 1) =~= "_"@);
        assert(starts_with(name, "_"@));
    } else {
        assert(!starts_with(name, "_"@)) by {
            if starts_with(name, "_"@) {
                assert(name.subrange(0, 1)[0] == name[0]);
            }
        }
        assert(!starts_with(name, "__"@)) by {
            if starts_with(name, "__"@) {
                assert(name.subrange(0, 2)[0] == name[0]);
            }
        }
    }
}

/// The first line of a string literal's text, its quotes taken off.
pub open spec fn docstring_text(s: Seq<char>) -> Seq<char> {
    let a = trim_start_matches(trim_start_matches(s, "\"\"\""@), "'''"@);
    let b = trim_end_matches(trim_end_matches(a, "\"\"\""@), "'''"@);
    let c = trim_start_matches(trim_start_matches(b, "\""@), "'"@);
    let d = trim_end_matches(trim_end_matches(c, "\""@), "'"@);
    first_line(trim(d))
}

/// The docstring of a definition: the first line of a string that opens its body.
pub open spec fn py_docstring(t: TreeView, i: int) -> Option<Seq<char>> {
    match t.field_child(i, "body"@) {
        None => None,
        Some(b) => match t.first_child(b) {
            None => None,
            Some(f) => if t.kind(f) == "expression_statement"@ {
                match t.first_child(f) {
                    None => None,
                    Some(e) => if t.kind(e) == "string"@ || t.kind(e) == "concatenated_string"@ {
                        Some(docstring_text(t.text(e)))
                    } else {
                        None
                    },
                }
            } else {
                None
            },
        },
    }
}

/// A named function definition at node `i`, as a symbol of kind `kind`.
pub open spec fn py_def(t: TreeView, i: int, kind: SymbolKind) -> Option<SymbolHead> {
    match field_text(t, i, "name"@) {
        Some(name) => Some(
            head_at(t, i, name, kind, py_visibility(name), signature_up_to_body(t, i), py_docstring(t, i)),
        ),
        None => None,
    }
}

/// The method a class body member declares, if any.
pub open spec fn py_member(t: TreeView, k: int) -> Seq<SymbolHead> {
    if t.kind(k) == "function_definition"@ {
        opt_seq(py_def(t, k, SymbolKind::Method))
    } else if t.kind(k) == "decorated_definition"@ {
        match t.field_child(k, "definition"@) {
            Some(d) => if t.kind(d) == "function_definition"@ {
                opt_seq(py_def(t, d, SymbolKind::Method))
            } else {
                seq![]
            },
            None => seq![],
        }
    } else {
        seq![]
    }
}

/// The methods declared by the members `ks[from..]` of a class body.
pub open spec fn py_members(t: TreeView, ks: Seq<usize>, from: int) -> Seq<SymbolHead>
    decreases ks.len() - from,
{
    if from < 0 || from >= ks.len() {
        seq![]
    } else {
        py_member(t, ks[from] as int) + py_members(t, ks, from + 1)
    }
}

/// All of `s` is uppercase ASCII letters and underscores, and there is some of it.
pub open spec fn is_constant_name(s: Seq<char>) -> bool {
    s.len() > 0 && forall|k: int| 0 <= k < s.len() ==> ('A' <= #[trigger] s[k] <= 'Z' || s[k] == '_')
}

/// A module-level constant: an expression statement assigning to an
/// UPPER_CASE identifier.
pub open spec fn py_constant(t: TreeView, i: int) -> Seq<SymbolShape> {
    match t.first_child(i) {
        Some(a) => if t.kind(a) == "assignment"@ {
            match t.field_child(a, "left"@) {
                Some(l) => if t.kind(l) == "identifier"@ && is_constant_name(t.text(l)) {
                    seq![leaf(head_at(t, i, t.text(l), SymbolKind::Const, Visibility::Public, trim(t.text(i)), None))]
                } else {
                    seq![]
                },
                None => seq![],
            }
        } else {
            seq![]
        },
        None => seq![],
    }
}

/// The symbols a top-level Python statement declares.
pub open spec fn py_node(t: TreeView, i: int) -> Seq<SymbolShape>
    decreases t.nodes.len() - i,
{
    if i < 0 || i >= t.nodes.len() {
        seq![]
    } else if t.kind(i) == "function_definition"@ {
        match py_def(t, i, SymbolKind::Function) {
            Some(h) => seq![leaf(h)],
            None => seq![],
        }
    } else if t.kind(i) == "class_definition"@ {
        match field_text(t, i, "name"@) {
            Some(name) => seq![
                SymbolShape {
                    head: head_at(t, i, name, SymbolKind::Class, py_visibility(name), signature_up_to_body(t, i), py_docstring(t, i)),
                    children: match t.field_child(i, "body"@) {
                        Some(b) => py_members(t, t.kids[b], 0),
                        None => seq![],
                    },
                }
            ],
            None => seq![],
        }
    } else if t.kind(i) == "decorated_definition"@ {
        match t.field_child(i, "definition"@) {
            Some(d) => if i < d < t.nodes.len() {
                py_node(t, d)
            } else {
                seq![]
            },
            None => seq![],
        }
    } else if t.kind(i) == "expression_statement"@ {
        py_constant(t, i)
    } else {
        seq![]
    }
}

fn py_visibility_of(name: &str) -> (r: Visibility)
    ensures
        r == py_visibility(name@),
{
    if str_starts_with(name, "__") && !str_ends_with(name, "__") {
        Visibility::Private
    } else if str_starts_with(name, "_") {
        Visibility::Private
    } else {
        Visibility::Public
    }
}

fn docstring_of(s: &str) -> (r: String)
    ensures
        r@ == docstring_text(s@),
{
    let a1 = trim_start_matches_str(s, "\"\"\"");
    let a = trim_start_matches_str(a1.as_str(), "'''");
    let b1 = trim_end_matches_str(a.as_str(), "\"\"\"");
    let b = trim_end_matches_str(b1.as_str(), "'''");
    let c1 = trim_start_matches_str(b.as_str(), "\"");
    let c = trim_start_matches_str(c1.as_str(), "'");
    let d1 = trim_end_matches_str(c.as_str(), "\"");
    let d = trim_end_matches_str(d1.as_str(), "'");
    let e = trim_str(d.as_str());
    first_line_str(e.as_str())
}

fn py_docstring_of(tree: &SyntaxTree, i: usize) -> (r: Option<String>)
    requires
        i < tree@.nodes.len(),
    ensures
        opt_view(r) == py_docstring(tree@, i as int),
{
    let body = tree.field_child(i, "body");
    let b = match body {
        Some(b) => b,
        None => return None,
    };
    let first = tree.first_child(b);
    let f = match first {
        Some(f) => f,
        None => return None,
    };
    if !str_eq(tree.kind(f), "expression_statement") {
        return None;
    }
    let expr = tree.first_child(f);
    let e = match expr {
        Some(e) => e,
        None => return None,
    };
    if str_eq(tree.kind(e), "string") || str_eq(tree.kind(e), "concatenated_string") {
        Some(docstring_of(tree.text(e)))
    } else {
        None
    }
}

fn py_def_of(tree: &SyntaxTree, i: usize, kind: SymbolKind) -> (r: Option<Symbol>)
    requires
        i < tree@.nodes.len(),
    ensures
        match py_def(tree@, i as int, kind) {
            Some(h) => r matches Some(s) && head_of(s) == h && s.children@.len() == 0,
            None => r is None,
        },
{
    let name = match field_text_of(tree, i, "name") {
        Some(n) => n,
        None => return None,
    };
    let vis = py_visibility_of(name.as_str());
    let sig = signature_of(tree, i);
    let doc = py_docstring_of(tree, i);
    Some(leaf_symbol(tree, i, name, kind, vis, sig, doc))
}

fn push_opt(out: &mut Vec<Symbol>, s: Option<Symbol>, Ghost(heads): Ghost<Seq<SymbolHead>>, Ghost(h): Ghost<Option<SymbolHead>>)
    requires
        has_heads(old(out)@, heads),
        match h {
            Some(x) => s matches Some(y) && head_of(y) == x && y.children@.len() == 0,
            None => s is None,
        },
    ensures
        has_heads(final(out)@, heads + opt_seq(h)),
{
    match s {
        Some(y) => {
            out.push(y);
            proof {
                assert(heads + opt_seq(h) =~= heads.push(h->0));
            }
        },
        None => {
            proof {
                assert(heads + opt_seq(h) =~= heads);
            }
        },
    }
}

fn py_members_of(tree: &SyntaxTree, b: usize) -> (r: Vec<Symbol>)
    requires
        b < tree@.nodes.len(),
    ensures
        has_heads(r@, py_members(tree@, tree@.kids[b as int], 0)),
{
    let ks = tree.children(b);
    let ghost t = tree@;
    let mut out: Vec<Symbol> = Vec::new();
    let mut q: usize = 0;
    proof {
        assert(py_members(t, ks@, 0) =~= seq![] + py_members(t, ks@, 0));
        assert(has_heads(out@, seq![]));
    }
    while q < ks.len()
        invariant
            t == tree@,
            t.wf(),
            ks@ == t.kids[b as int],
            forall|x: int| 0 <= x < ks@.len() ==> b < #[trigger] ks@[x] < t.nodes.len(),
            q <= ks@.len(),
            exists|done: Seq<SymbolHead>| has_heads(out@, done) && py_members(t, ks@, 0) == done + py_members(t, ks@, q as int),
        decreases ks@.len() - q,
    {
        let ghost done = choose|done: Seq<SymbolHead>| has_heads(out@, done) && py_members(t, ks@, 0) == done + py_members(t, ks@, q as int);
        let k = ks[q];
        let ghost here = py_member(t, k as int);
        if str_eq(tree.kind(k), "function_definition") {
            let d = py_def_of(tree, k, SymbolKind::Method);
            push_opt(&mut out, d, Ghost(done), Ghost(py_def(t, k as int, SymbolKind::Method)));
        } else if str_eq(tree.kind(k), "decorated_definition") {
            let dc = tree.field_child(k, "definition");
            match dc {
                Some(d) => {
                    proof {
                        let c = t.field_child(k as int, "definition"@)->0;
                        assert(c == d as int);
                    }
                    if str_eq(tree.kind(d), "function_definition") {
                        let m = py_def_of(tree, d, SymbolKind::Method);
                        push_opt(&mut out, m, Ghost(done), Ghost(py_def(t, d as int, SymbolKind::Method)));
                    } else {
                        proof {
                            assert(done + here =~= done);
                        }
                    }
                },
                None => {
                    proof {
                        assert(done + here =~= done);
                    }
                },
            }
        } else {
            proof {
                assert(done + here =~= done);
            }
        }
        proof {
            assert(py_members(t, ks@, q as int) == here + py_members(t, ks@, q + 1));
            assert(done + (here + py_members(t, ks@, q + 1)) =~= (done + here) + py_members(t, ks@, q + 1));
        }
        q = q + 1;
    }
    proof {
        let done = choose|done: Seq<SymbolHead>| has_heads(out@, done) && py_members(t, ks@, 0) == done + py_members(t, ks@, q as int);
        assert(done + seq![] =~= done);
    }
    out
}

fn is_constant_name_of(s: &str) -> (r: bool)
    ensures
        r == is_constant_name(s@),
{
    let cs = crate::text::chars_of(s);
    if cs.len() == 0 {
        return false;
    }
    let mut k: usize = 0;
    while k < cs.len()
        invariant
            k <= cs@.len(),
            cs@ == s@,
            forall|j: int| 0 <= j < k ==> ('A' <= #[trigger] cs@[j] <= 'Z' || cs@[j] == '_'),
        decreases cs@.len() - k,
    {
        let c = cs[k];
        if !(('A' <= c && c <= 'Z') || c == '_') {
            return false;
        }
        k = k + 1;
    }
    true
}

fn py_constant_of(tree: &SyntaxTree, i: usize) -> (r: Vec<Symbol>)
    requires
        i < tree@.nodes.len(),
    ensures
        has_shapes(r@, py_constant(tree@, i as int)),
{
    let mut out: Vec<Symbol> = Vec::new();
    let fa = tree.first_child(i);
    let a = match fa {
        Some(a) => a,
        None => return out,
    };
    if !str_eq(tree.kind(a), "assignment") {
        return out;
    }
    let fl = tree.field_child(a, "left");
    let l = match fl {
        Some(l) => l,
        None => return out,
    };
    proof {
        let c = tree@.field_child(a as int, "left"@)->0;
        assert(c == l as int);
    }
    if str_eq(tree.kind(l), "identifier") && is_constant_name_of(tree.text(l)) {
        let sig = trim_str(tree.text(i));
        let s = leaf_symbol(tree, i, to_owned(tree.text(l)), SymbolKind::Const, Visibility::Public, sig, None);
        out.push(s);
    }
    out
}

fn py_node_of(tree: &SyntaxTree, i: usize) -> (r: Vec<Symbol>)
    requires
        i < tree@.nodes.len(),
    ensures
        has_shapes(r@, py_node(tree@, i as int)),
    decreases tree@.nodes.len() - i,
{
    let mut out: Vec<Symbol> = Vec::new();
    let ghost t = tree@;
    if str_eq(tree.kind(i), "function_definition") {
        match py_def_of(tree, i, SymbolKind::Function) {
            Some(s) => out.push(s),
            None => {},
        }
    } else if str_eq(tree.kind(i), "class_definition") {
        let name = match field_text_of(tree, i, "name") {
            Some(n) => n,
            None => return out,
        };
        let vis = py_visibility_of(name.as_str());
        let sig = signature_of(tree, i);
        let doc = py_docstring_of(tree, i);
        let mut s = leaf_symbol(tree, i, name, SymbolKind::Class, vis, sig, doc);
        let body = tree.field_child(i, "body");
        match body {
            Some(b) => {
                proof {
                    let c = t.field_child(i as int, "body"@)->0;
                    assert(c == b as int);
                }
                s.children = py_members_of(tree, b);
            },
            None => {},
        }
        out.push(s);
    } else if str_eq(tree.kind(i), "decorated_definition") {
        let dc = tree.field_child(i, "definition");
        match dc {
            Some(d) => {
                proof {
                    let c = t.field_child(i as int, "definition"@)->0;
                    assert(c == d as int);
                }
                return py_node_of(tree, d);
            },
            None => {},
        }
    } else if str_eq(tree.kind(i), "expression_statement") {
        return py_constant_of(tree, i);
    }
    out
}

} // verus!

verus! {

// ─── Rewriting symbols ───────────────────────────────────────────────

pub open spec fn with_visibility(s: SymbolShape, v: Visibility) -> SymbolShape {
    SymbolShape {
        head: SymbolHead {
            name: s.head.name,
            kind: s.head.kind,
            visibility: v,
            signature: s.head.signature,
            docstring: s.head.docstring,
            byte_start: s.head.byte_start,
            byte_end: s.head.byte_end,
        },
        children: s.children,
    }
}

pub open spec fn with_kind(h: SymbolHead, k: SymbolKind) -> SymbolHead {
    SymbolHead {
        name: h.name,
        kind: k,
        visibility: h.visibility,
        signature: h.signature,
        docstring: h.docstring,
        byte_start: h.byte_start,
        byte_end: h.byte_end,
    }
}

/// The symbols, each made public.
pub open spec fn all_public(v: Seq<SymbolShape>) -> Seq<SymbolShape> {
    v.map_values(|s: SymbolShape| with_visibility(s, Visibility::Public))
}

/// The heads of childless symbols, each made a method.
pub open spec fn as_methods(v: Seq<SymbolShape>) -> Seq<SymbolHead> {
    v.map_values(|s: SymbolShape| with_kind(s.head, SymbolKind::Method))
}

/// Gives every symbol of `v`, in order, visibility `vis` (and kind `kind`,
/// where one is given).
fn restamp(v: Vec<Symbol>, vis: Option<Visibility>, kind: Option<SymbolKind>, Ghost(shapes): Ghost<Seq<SymbolShape>>) -> (r: Vec<Symbol>)
    requires
        has_shapes(v@, shapes),
    ensures
        r@.len() == v@.len(),
        forall|k: int| 0 <= k < r@.len() ==> (#[trigger] r@[k]).children@ == v@[k].children@,
        forall|k: int| 0 <= k < r@.len() ==> (#[trigger] head_of(r@[k])) == {
            let h = match vis {
                Some(x) => with_visibility(shapes[k], x).head,
                None => shapes[k].head,
            };
            match kind {
                Some(x) => with_kind(h, x),
                None => h,
            }
        },
{
    let mut v = v;
    let ghost v0 = v@;
    let mut r: Vec<Symbol> = Vec::new();
    while v.len() > 0
        invariant
            r@.len() + v@.len() == v0.len(),
            v@ == v0.subrange(r@.len() as int, v0.len() as int),
            has_shapes(v0, shapes),
            forall|k: int| 0 <= k < r@.len() ==> (#[trigger] r@[k]).children@ == v0[k].children@,
            forall|k: int| 0 <= k < r@.len() ==> (#[trigger] head_of(r@[k])) == {
                let h = match vis {
                    Some(x) => with_visibility(shapes[k], x).head,
                    None => shapes[k].head,
                };
                match kind {
                    Some(x) => with_kind(h, x),
                    None => h,
                }
            },
        decreases v@.len(),
    {
        let ghost k = r@.len() as int;
        let mut s = v.remove(0);
        proof {
            assert(s == v0[k]);
            assert(head_of(v0[k]) == shapes[k].head);
        }
        match vis {
            Some(x) => {
                s.visibility = x;
            },
            None => {},
        }
        match kind {
            Some(x) => {
                s.kind = x;
            },
            None => {},
        }
        r.push(s);
        proof {
            assert(v@ =~= v0.subrange(r@.len() as int, v0.len() as int));
        }
    }
    r
}

// ─── TypeScript / JavaScript ────────────────────────────────────────

/// The member a class body member declares: a method, or a field as a constant.
pub open spec fn ts_member(t: TreeView, k: int) -> Seq<SymbolHead> {
    let method = if t.kind(k) == "method_definition"@ {
        match field_text(t, k, "name"@) {
            Some(n) => seq![head_at(t, k, n, SymbolKind::Method, Visibility::Public, signature_up_to_body(t, k), None)],
            None => seq![],
        }
    } else {
        seq![]
    };
    let field = if t.kind(k) == "public_field_definition"@ || t.kind(k) == "field_definition"@ {
        match field_text(t, k, "name"@) {
            Some(n) => seq![head_at(t, k, n, SymbolKind::Const, Visibility::Public, trim(t.text(k)), None)],
            None => seq![],
        }
    } else {
        seq![]
    };
    method + field
}

pub open spec fn ts_members(t: TreeView, ks: Seq<usize>, from: int) -> Seq<SymbolHead>
    decreases ks.len() - from,
{
    if from < 0 || from >= ks.len() {
        seq![]
    } else {
        ts_member(t, ks[from] as int) + ts_members(t, ks, from + 1)
    }
}

/// A variable a declaration `i` declares through its declarator `k`: a
/// constant where the declaration starts with `const`.
pub open spec fn ts_declarator(t: TreeView, i: int, k: int) -> Seq<SymbolShape> {
    if t.kind(k) == "variable_declarator"@ {
        match field_text(t, k, "name"@) {
            Some(n) => seq![
                leaf(
                    head_at(
                        t,
                        i,
                        n,
                        if starts_with(trim_start(t.text(i)), "const"@) {
                            SymbolKind::Const
                        } else {
                            SymbolKind::Function
                        },
                        Visibility::Internal,
                        first_line(t.text(i)),
                        None,
                    ),
                )
            ],
            None => seq![],
        }
    } else {
        seq![]
    }
}

pub open spec fn ts_declarators(t: TreeView, i: int, ks: Seq<usize>, from: int) -> Seq<SymbolShape>
    decreases ks.len() - from,
{
    if from < 0 || from >= ks.len() {
        seq![]
    } else {
        ts_declarator(t, i, ks[from] as int) + ts_declarators(t, i, ks, from + 1)
    }
}

/// The symbols a top-level TypeScript (or, without `is_ts`, JavaScript)
/// statement declares; what an export declares is public.
pub open spec fn ts_node(t: TreeView, i: int, is_ts: bool) -> Seq<SymbolShape>
    decreases t.nodes.len() - i, 1int, 0int,
{
    if i < 0 || i >= t.nodes.len() {
        seq![]
    } else if t.kind(i) == "function_declaration"@ {
        match field_text(t, i, "name"@) {
            Some(n) => seq![leaf(head_at(t, i, n, SymbolKind::Function, Visibility::Internal, signature_up_to_body(t, i), None))],
            None => seq![],
        }
    } else if t.kind(i) == "class_declaration"@ {
        match field_text(t, i, "name"@) {
            Some(n) => seq![
                SymbolShape {
                    head: head_at(t, i, n, SymbolKind::Class, Visibility::Internal, signature_up_to_body(t, i), None),
                    children: match t.field_child(i, "body"@) {
                        Some(b) => ts_members(t, t.kids[b], 0),
                        None => seq![],
                    },
                }
            ],
            None => seq![],
        }
    } else if t.kind(i) == "interface_declaration"@ && is_ts {
        match field_text(t, i, "name"@) {
            Some(n) => seq![leaf(head_at(t, i, n, SymbolKind::Interface, Visibility::Internal, signature_up_to_body(t, i), None))],
            None => seq![],
        }
    } else if t.kind(i) == "type_alias_declaration"@ && is_ts {
        match field_text(t, i, "name"@) {
            Some(n) => seq![leaf(head_at(t, i, n, SymbolKind::Type, Visibility::Internal, first_line(t.text(i)), None))],
            None => seq![],
        }
    } else if t.kind(i) == "export_statement"@ {
        ts_exported(t, i, t.kids[i], 0, is_ts)
    } else if t.kind(i) == "lexical_declaration"@ || t.kind(i) == "variable_declaration"@ {
        ts_declarators(t, i, t.kids[i], 0)
    } else {
        seq![]
    }
}

/// What the children `ks[from..]` of an export statement `i` declare, made public.
pub open spec fn ts_exported(t: TreeView, i: int, ks: Seq<usize>, from: int, is_ts: bool) -> Seq<SymbolShape>
    decreases t.nodes.len() - i, 0int, ks.len() - from,
{
    if from < 0 || from >= ks.len() || i < 0 {
        seq![]
    } else if i < ks[from] < t.nodes.len() {
        all_public(ts_node(t, ks[from] as int, is_ts)) + ts_exported(t, i, ks, from + 1, is_ts)
    } else {
        ts_exported(t, i, ks, from + 1, is_ts)
    }
}

} // verus!

verus! {

fn named_head(tree: &SyntaxTree, k: usize, kind: SymbolKind, vis: Visibility, sig: String) -> (r: Option<Symbol>)
    requires
        k < tree@.nodes.len(),
    ensures
        match field_text(tree@, k as int, "name"@) {
            Some(n) => r matches Some(s) && head_of(s) == head_at(tree@, k as int, n, kind, vis, sig@, None) && s.children@.len() == 0,
            None => r is None,
        },
{
    match field_text_of(tree, k, "name") {
        Some(n) => Some(leaf_symbol(tree, k, n, kind, vis, sig, None)),
        None => None,
    }
}

fn push_heads(out: &mut Vec<Symbol>, s: Option<Symbol>, Ghost(heads): Ghost<Seq<SymbolHead>>, Ghost(more): Ghost<Seq<SymbolHead>>)
    requires
        has_heads(old(out)@, heads),
        more.len() <= 1,
        more.len() == 1 ==> (s matches Some(y) && head_of(y) == more[0] && y.children@.len() == 0),
        more.len() == 0 ==> s is None,
    ensures
        has_heads(final(out)@, heads + more),
{
    match s {
        Some(y) => {
            out.push(y);
            proof {
                assert(heads + more =~= heads.push(more[0]));
            }
        },
        None => {
            proof {
                assert(heads + more =~= heads);
            }
        },
    }
}

fn ts_members_of(tree: &SyntaxTree, b: usize) -> (r: Vec<Symbol>)
    requires
        b < tree@.nodes.len(),
    ensures
        has_heads(r@, ts_members(tree@, tree@.kids[b as int], 0)),
{
    let ks = tree.children(b);
    let ghost t = tree@;
    let mut out: Vec<Symbol> = Vec::new();
    let mut q: usize = 0;
    proof {
        assert(ts_members(t, ks@, 0) =~= seq![] + ts_members(t, ks@, 0));
        assert(has_heads(out@, seq![]));
    }
    while q < ks.len()
        invariant
            t == tree@,
            t.wf(),
            ks@ == t.kids[b as int],
            forall|x: int| 0 <= x < ks@.len() ==> b < #[trigger] ks@[x] < t.nodes.len(),
            q <= ks@.len(),
            exists|done: Seq<SymbolHead>| has_heads(out@, done) && ts_members(t, ks@, 0) == done + ts_members(t, ks@, q as int),
        decreases ks@.len() - q,
    {
        let ghost done = choose|done: Seq<SymbolHead>| has_heads(out@, done) && ts_members(t, ks@, 0) == done + ts_members(t, ks@, q as int);
        let k = ks[q];
        let kind = tree.kind(k);
        let ghost method_part = if t.kind(k as int) == "method_definition"@ {
            match field_text(t, k as int, "name"@) {
                Some(n) => seq![head_at(t, k as int, n, SymbolKind::Method, Visibility::Public, signature_up_to_body(t, k as int), None)],
                None => seq![],
            }
        } else {
            seq![]
        };
        let m = if str_eq(kind, "method_definition") {
            let sig = signature_of(tree, k);
            named_head(tree, k, SymbolKind::Method, Visibility::Public, sig)
        } else {
            None
        };
        push_heads(&mut out, m, Ghost(done), Ghost(method_part));
        let ghost field_part = ts_member(t, k as int).subrange(method_part.len() as int, ts_member(t, k as int).len() as int);
        proof {
            assert(ts_member(t, k as int) =~= method_part + field_part);
        }
        let f = if str_eq(kind, "public_field_definition") || str_eq(kind, "field_definition") {
            let sig = trim_str(tree.text(k));
            named_head(tree, k, SymbolKind::Const, Visibility::Public, sig)
        } else {
            None
        };
        push_heads(&mut out, f, Ghost(done + method_part), Ghost(field_part));
        proof {
            assert(ts_members(t, ks@, q as int) == ts_member(t, k as int) + ts_members(t, ks@, q + 1));
            assert(done + (ts_member(t, k as int) + ts_members(t, ks@, q + 1)) =~= (done + method_part + field_part) + ts_members(t, ks@, q + 1));
        }
        q = q + 1;
    }
    proof {
        let done = choose|done: Seq<SymbolHead>| has_heads(out@, done) && ts_members(t, ks@, 0) == done + ts_members(t, ks@, q as int);
        assert(done + seq![] =~= done);
    }
    out
}

fn ts_declarators_of(tree: &SyntaxTree, i: usize) -> (r: Vec<Symbol>)
    requires
        i < tree@.nodes.len(),
    ensures
        has_shapes(r@, ts_declarators(tree@, i as int, tree@.kids[i as int], 0)),
{
    let ks = tree.children(i);
    let ghost t = tree@;
    let mut out: Vec<Symbol> = Vec::new();
    let mut q: usize = 0;
    let is_const = {
        let ts = trim_start_str(tree.text(i));
        str_starts_with(ts.as_str(), "const")
    };
    proof {
        assert(ts_declarators(t, i as int, ks@, 0) =~= seq![] + ts_declarators(t, i as int, ks@, 0));
        assert(has_shapes(out@, seq![]));
    }
    while q < ks.len()
        invariant
            t == tree@,
            t.wf(),
            i < t.nodes.len(),
            ks@ == t.kids[i as int],
            forall|x: int| 0 <= x < ks@.len() ==> i < #[trigger] ks@[x] < t.nodes.len(),
            q <= ks@.len(),
            is_const == starts_with(trim_start(t.text(i as int)), "const"@),
            exists|done: Seq<SymbolShape>| has_shapes(out@, done) && ts_declarators(t, i as int, ks@, 0) == done + ts_declarators(t, i as int, ks@, q as int),
        decreases ks@.len() - q,
    {
        let ghost done = choose|done: Seq<SymbolShape>| has_shapes(out@, done) && ts_declarators(t, i as int, ks@, 0) == done + ts_declarators(t, i as int, ks@, q as int);
        let k = ks[q];
        let ghost here = ts_declarator(t, i as int, k as int);
        if str_eq(tree.kind(k), "variable_declarator") {
            match field_text_of(tree, k, "name") {
                Some(n) => {
                    let sig = first_line_str(tree.text(i));
                    let kind = if is_const { SymbolKind::Const } else { SymbolKind::Function };
                    let s = leaf_symbol(tree, i, n, kind, Visibility::Internal, sig, None);
                    push_shaped(&mut out, s, Ghost(done), Ghost(here[0]));
                    proof {
                        assert(done.push(here[0]) =~= done + here);
                    }
                },
                None => {
                    proof {
                        assert(done + here =~= done);
                    }
                },
            }
        } else {
            proof {
                assert(done + here =~= done);
            }
        }
        proof {
            assert(ts_declarators(t, i as int, ks@, q as int) == here + ts_declarators(t, i as int, ks@, q + 1));
            assert(done + (here + ts_declarators(t, i as int, ks@, q + 1)) =~= (done + here) + ts_declarators(t, i as int, ks@, q + 1));
        }
        q = q + 1;
    }
    proof {
        let done = choose|done: Seq<SymbolShape>| has_shapes(out@, done) && ts_declarators(t, i as int, ks@, 0) == done + ts_declarators(t, i as int, ks@, q as int);
        assert(done + seq![] =~= done);
    }
    out
}

/// Makes every symbol of `v` public.
fn make_public(v: Vec<Symbol>, Ghost(shapes): Ghost<Seq<SymbolShape>>) -> (r: Vec<Symbol>)
    requires
        has_shapes(v@, shapes),
    ensures
        has_shapes(r@, all_public(shapes)),
{
    let ghost v0 = v@;
    let r = restamp(v, Some(Visibility::Public), None, Ghost(shapes));
    proof {
        let ap = all_public(shapes);
        assert forall|k: int| 0 <= k < r@.len() implies #[trigger] head_of(r@[k]) == ap[k].head by {}
        assert forall|k: int| 0 <= k < r@.len() implies (#[trigger] r@[k]).children@.len() == ap[k].children.len() by {
            assert(r@[k].children@ == v0[k].children@);
        }
        assert forall|k: int, c: int| 0 <= k < r@.len() && 0 <= c < r@[k].children@.len() implies
            head_of(#[trigger] r@[k].children@[c]) == ap[k].children[c] && r@[k].children@[c].children@.len() == 0 by {
            assert(r@[k].children@ == v0[k].children@);
            assert(v0[k].children@[c] == r@[k].children@[c]);
        }
    }
    r
}

fn ts_node_of(tree: &SyntaxTree, i: usize, is_ts: bool) -> (r: Vec<Symbol>)
    requires
        i < tree@.nodes.len(),
    ensures
        has_shapes(r@, ts_node(tree@, i as int, is_ts)),
    decreases tree@.nodes.len() - i, 1int, 0int,
{
    let ghost t = tree@;
    let mut out: Vec<Symbol> = Vec::new();
    let kind = tree.kind(i);
    if str_eq(kind, "function_declaration") {
        let sig = signature_of(tree, i);
        match named_head(tree, i, SymbolKind::Function, Visibility::Internal, sig) {
            Some(s) => out.push(s),
            None => {},
        }
    } else if str_eq(kind, "class_declaration") {
        let sig = signature_of(tree, i);
        let mut s = match named_head(tree, i, SymbolKind::Class, Visibility::Internal, sig) {
            Some(s) => s,
            None => return out,
        };
        let body = tree.field_child(i, "body");
        match body {
            Some(b) => {
                proof {
                    let c = t.field_child(i as int, "body"@)->0;
                    assert(c == b as int);
                }
                s.children = ts_members_of(tree, b);
            },
            None => {},
        }
        out.push(s);
    } else if str_eq(kind, "interface_declaration") && is_ts {
        let sig = signature_of(tree, i);
        match named_head(tree, i, SymbolKind::Interface, Visibility::Internal, sig) {
            Some(s) => out.push(s),
            None => {},
        }
    } else if str_eq(kind, "type_alias_declaration") && is_ts {
        let sig = first_line_str(tree.text(i));
        match named_head(tree, i, SymbolKind::Type, Visibility::Internal, sig) {
            Some(s) => out.push(s),
            None => {},
        }
    } else if str_eq(kind, "export_statement") {
        return ts_exported_of(tree, i, is_ts);
    } else if str_eq(kind, "lexical_declaration") || str_eq(kind, "variable_declaration") {
        return ts_declarators_of(tree, i);
    }
    out
}

fn ts_exported_of(tree: &SyntaxTree, i: usize, is_ts: bool) -> (r: Vec<Symbol>)
    requires
        i < tree@.nodes.len(),
    ensures
        has_shapes(r@, ts_exported(tree@, i as int, tree@.kids[i as int], 0, is_ts)),
    decreases tree@.nodes.len() - i, 0int, 0int,
{
    let ks = tree.children(i);
    let ghost t = tree@;
    let mut out: Vec<Symbol> = Vec::new();
    let mut q: usize = 0;
    proof {
        assert(ts_exported(t, i as int, ks@, 0, is_ts) =~= seq![] + ts_exported(t, i as int, ks@, 0, is_ts));
        assert(has_shapes(out@, seq![]));
    }
    while q < ks.len()
        invariant
            t == tree@,
            t.wf(),
            i < t.nodes.len(),
            ks@ == t.kids[i as int],
            forall|x: int| 0 <= x < ks@.len() ==> i < #[trigger] ks@[x] < t.nodes.len(),
            q <= ks@.len(),
            exists|done: Seq<SymbolShape>| has_shapes(out@, done) && ts_exported(t, i as int, ks@, 0, is_ts) == done + ts_exported(t, i as int, ks@, q as int, is_ts),
        decreases ks@.len() - q,
    {
        let ghost done = choose|done: Seq<SymbolShape>| has_shapes(out@, done) && ts_exported(t, i as int, ks@, 0, is_ts) == done + ts_exported(t, i as int, ks@, q as int, is_ts);
        let k = ks[q];
        let inner = ts_node_of(tree, k, is_ts);
        let ghost here = ts_node(t, k as int, is_ts);
        let public = make_public(inner, Ghost(here));
        append_shaped(&mut out, public, Ghost(done), Ghost(all_public(here)));
        proof {
            assert(ts_exported(t, i as int, ks@, q as int, is_ts) == all_public(here) + ts_exported(t, i as int, ks@, q + 1, is_ts));
            assert(done + (all_public(here) + ts_exported(t, i as int, ks@, q + 1, is_ts)) =~= (done + all_public(here)) + ts_exported(t, i as int, ks@, q + 1, is_ts));
        }
        q = q + 1;
    }
    proof {
        let done = choose|done: Seq<SymbolShape>| has_shapes(out@, done) && ts_exported(t, i as int, ks@, 0, is_ts) == done + ts_exported(t, i as int, ks@, q as int, is_ts);
        assert(done + seq![] =~= done);
    }
    out
}

} // verus!

verus! {

// ─── Rust ────────────────────────────────────────────────────────────

/// A `pub` visibility modifier (`pub`, `pub(crate)`, `pub(super)`, ...).
pub open spec fn rust_pub_modifier(t: TreeView, k: int) -> bool {
    t.kind(k) == "visibility_modifier"@ && starts_with(t.text(k), "pub"@)
}

/// An item is public when it carries a `pub` visibility modifier of its
/// own; what its fields or body hold does not count.
pub open spec fn rust_visibility(t: TreeView, i: int) -> Visibility {
    if exists|q: int| 0 <= q < t.kids[i].len() && #[trigger] rust_pub_modifier(t, t.kids[i][q] as int) {
        Visibility::Public
    } else {
        Visibility::Private
    }
}

/// A named item at node `i` as a childless symbol.
pub open spec fn named_leaf(t: TreeView, i: int, kind: SymbolKind, vis: Visibility, sig: Seq<char>) -> Seq<SymbolShape> {
    match field_text(t, i, "name"@) {
        Some(n) => seq![leaf(head_at(t, i, n, kind, vis, sig, None))],
        None => seq![],
    }
}

/// The default methods a trait body member declares.
pub open spec fn rust_trait_member(t: TreeView, k: int) -> Seq<SymbolHead> {
    if t.kind(k) == "function_item"@ {
        match field_text(t, k, "name"@) {
            Some(n) => seq![head_at(t, k, n, SymbolKind::Method, Visibility::Public, signature_up_to_body(t, k), None)],
            None => seq![],
        }
    } else {
        seq![]
    }
}

pub open spec fn rust_trait_members(t: TreeView, ks: Seq<usize>, from: int) -> Seq<SymbolHead>
    decreases ks.len() - from,
{
    if from < 0 || from >= ks.len() {
        seq![]
    } else {
        rust_trait_member(t, ks[from] as int) + rust_trait_members(t, ks, from + 1)
    }
}

/// The method an impl body member declares, named `Type::method`.
pub open spec fn rust_impl_member(t: TreeView, owner: Seq<char>, k: int) -> Seq<SymbolShape> {
    if t.kind(k) == "function_item"@ {
        match field_text(t, k, "name"@) {
            Some(n) => seq![
                leaf(head_at(t, k, owner + "::"@ + n, SymbolKind::Method, rust_visibility(t, k), signature_up_to_body(t, k), None))
            ],
            None => seq![],
        }
    } else {
        seq![]
    }
}

pub open spec fn rust_impl_members(t: TreeView, owner: Seq<char>, ks: Seq<usize>, from: int) -> Seq<SymbolShape>
    decreases ks.len() - from,
{
    if from < 0 || from >= ks.len() {
        seq![]
    } else {
        rust_impl_member(t, owner, ks[from] as int) + rust_impl_members(t, owner, ks, from + 1)
    }
}

/// The symbols a top-level Rust item declares.
pub open spec fn rust_node(t: TreeView, i: int) -> Seq<SymbolShape> {
    if i < 0 || i >= t.nodes.len() {
        seq![]
    } else {
        let k = t.kind(i);
        let vis = rust_visibility(t, i);
        if k == "function_item"@ {
            named_leaf(t, i, SymbolKind::Function, vis, signature_up_to_body(t, i))
        } else if k == "struct_item"@ || k == "enum_item"@ {
            named_leaf(t, i, SymbolKind::Type, vis, first_line(t.text(i)))
        } else if k == "trait_item"@ {
            match field_text(t, i, "name"@) {
                Some(n) => seq![
                    SymbolShape {
                        head: head_at(t, i, n, SymbolKind::Interface, vis, signature_up_to_body(t, i), None),
                        children: match t.field_child(i, "body"@) {
                            Some(b) => rust_trait_members(t, t.kids[b], 0),
                            None => seq![],
                        },
                    }
                ],
                None => seq![],
            }
        } else if k == "impl_item"@ {
            let owner = match field_text(t, i, "type"@) {
                Some(x) => x,
                None => seq![],
            };
            match t.field_child(i, "body"@) {
                Some(b) => rust_impl_members(t, owner, t.kids[b], 0),
                None => seq![],
            }
        } else if k == "const_item"@ || k == "static_item"@ {
            named_leaf(t, i, SymbolKind::Const, vis, first_line(t.text(i)))
        } else if k == "type_item"@ {
            named_leaf(t, i, SymbolKind::Type, vis, trim(t.text(i)))
        } else {
            seq![]
        }
    }
}

fn rust_visibility_of(tree: &SyntaxTree, i: usize) -> (r: Visibility)
    requires
        i < tree@.nodes.len(),
    ensures
        r == rust_visibility(tree@, i as int),
{
    let ks = tree.children(i);
    let mut q: usize = 0;
    while q < ks.len()
        invariant
            i < tree@.nodes.len(),
            q <= ks@.len(),
            ks@ == tree@.kids[i as int],
            forall|p: int| 0 <= p < ks@.len() ==> i < #[trigger] ks@[p] < tree@.nodes.len(),
            forall|p: int| 0 <= p < q ==> !rust_pub_modifier(tree@, #[trigger] ks@[p] as int),
        decreases ks@.len() - q,
    {
        let k = ks[q];
        if str_eq(tree.kind(k), "visibility_modifier") && str_starts_with(tree.text(k), "pub") {
            proof {
                assert(rust_pub_modifier(tree@, tree@.kids[i as int][q as int] as int));
            }
            return Visibility::Public;
        }
        q = q + 1;
    }
    Visibility::Private
}

fn named_leaf_of(tree: &SyntaxTree, i: usize, kind: SymbolKind, vis: Visibility, sig: String) -> (r: Vec<Symbol>)
    requires
        i < tree@.nodes.len(),
    ensures
        has_shapes(r@, named_leaf(tree@, i as int, kind, vis, sig@)),
{
    let mut out: Vec<Symbol> = Vec::new();
    match named_head(tree, i, kind, vis, sig) {
        Some(s) => out.push(s),
        None => {},
    }
    out
}

fn rust_trait_members_of(tree: &SyntaxTree, b: usize) -> (r: Vec<Symbol>)
    requires
        b < tree@.nodes.len(),
    ensures
        has_heads(r@, rust_trait_members(tree@, tree@.kids[b as int], 0)),
{
    let ks = tree.children(b);
    let ghost t = tree@;
    let mut out: Vec<Symbol> = Vec::new();
    let mut q: usize = 0;
    proof {
        assert(rust_trait_members(t, ks@, 0) =~= seq![] + rust_trait_members(t, ks@, 0));
        assert(has_heads(out@, seq![]));
    }
    while q < ks.len()
        invariant
            t == tree@,
            t.wf(),
            ks@ == t.kids[b as int],
            forall|x: int| 0 <= x < ks@.len() ==> b < #[trigger] ks@[x] < t.nodes.len(),
            q <= ks@.len(),
            exists|done: Seq<SymbolHead>| has_heads(out@, done) && rust_trait_members(t, ks@, 0) == done + rust_trait_members(t, ks@, q as int),
        decreases ks@.len() - q,
    {
        let ghost done = choose|done: Seq<SymbolHead>| has_heads(out@, done) && rust_trait_members(t, ks@, 0) == done + rust_trait_members(t, ks@, q as int);
        let k = ks[q];
        let ghost here = rust_trait_member(t, k as int);
        let m = if str_eq(tree.kind(k), "function_item") {
            let sig = signature_of(tree, k);
            named_head(tree, k, SymbolKind::Method, Visibility::Public, sig)
        } else {
            None
        };
        push_heads(&mut out, m, Ghost(done), Ghost(here));
        proof {
            assert(rust_trait_members(t, ks@, q as int) == here + rust_trait_members(t, ks@, q + 1));
            assert(done + (here + rust_trait_members(t, ks@, q + 1)) =~= (done + here) + rust_trait_members(t, ks@, q + 1));
        }
        q = q + 1;
    }
    proof {
        let done = choose|done: Seq<SymbolHead>| has_heads(out@, done) && rust_trait_members(t, ks@, 0) == done + rust_trait_members(t, ks@, q as int);
        assert(done + seq![] =~= done);
    }
    out
}

fn rust_impl_members_of(tree: &SyntaxTree, owner: &str, b: usize) -> (r: Vec<Symbol>)
    requires
        b < tree@.nodes.len(),
    ensures
        has_shapes(r@, rust_impl_members(tree@, owner@, tree@.kids[b as int], 0)),
{
    let ks = tree.children(b);
    let ghost t = tree@;
    let mut out: Vec<Symbol> = Vec::new();
    let mut q: usize = 0;
    proof {
        assert(rust_impl_members(t, owner@, ks@, 0) =~= seq![] + rust_impl_members(t, owner@, ks@, 0));
        assert(has_shapes(out@, seq![]));
    }
    while q < ks.len()
        invariant
            t == tree@,
            t.wf(),
            ks@ == t.kids[b as int],
            forall|x: int| 0 <= x < ks@.len() ==> b < #[trigger] ks@[x] < t.nodes.len(),
            q <= ks@.len(),
            exists|done: Seq<SymbolShape>| has_shapes(out@, done) && rust_impl_members(t, owner@, ks@, 0) == done + rust_impl_members(t, owner@, ks@, q as int),
        decreases ks@.len() - q,
    {
        let ghost done = choose|done: Seq<SymbolShape>| has_shapes(out@, done) && rust_impl_members(t, owner@, ks@, 0) == done + rust_impl_members(t, owner@, ks@, q as int);
        let k = ks[q];
        let ghost here = rust_impl_member(t, owner@, k as int);
        let mut added = false;
        if str_eq(tree.kind(k), "function_item") {
            match field_text_of(tree, k, "name") {
                Some(n) => {
                    let mut full = to_owned(owner);
                    push_str(&mut full, "::");
                    push_str(&mut full, n.as_str());
                    let vis = rust_visibility_of(tree, k);
                    let sig = signature_of(tree, k);
                    let s = leaf_symbol(tree, k, full, SymbolKind::Method, vis, sig, None);
                    proof {
                        assert(s.name@ == owner@ + "::"@ + n@);
                    }
                    push_shaped(&mut out, s, Ghost(done), Ghost(here[0]));
                    proof {
                        assert(done.push(here[0]) =~= done + here);
                    }
                    added = true;
                },
                None => {},
            }
        }
        if !added {
            proof {
                assert(done + here =~= done);
            }
        }
        proof {
            assert(rust_impl_members(t, owner@, ks@, q as int) == here + rust_impl_members(t, owner@, ks@, q + 1));
            assert(done + (here + rust_impl_members(t, owner@, ks@, q + 1)) =~= (done + here) + rust_impl_members(t, owner@, ks@, q + 1));
        }
        q = q + 1;
    }
    proof {
        let done = choose|done: Seq<SymbolShape>| has_shapes(out@, done) && rust_impl_members(t, owner@, ks@, 0) == done + rust_impl_members(t, owner@, ks@, q as int);
        assert(done + seq![] =~= done);
    }
    out
}

fn rust_node_of(tree: &SyntaxTree, i: usize) -> (r: Vec<Symbol>)
    requires
        i < tree@.nodes.len(),
    ensures
        has_shapes(r@, rust_node(tree@, i as int)),
{
    let ghost t = tree@;
    let kind = tree.kind(i);
    let vis = rust_visibility_of(tree, i);
    if str_eq(kind, "function_item") {
        let sig = signature_of(tree, i);
        named_leaf_of(tree, i, SymbolKind::Function, vis, sig)
    } else if str_eq(kind, "struct_item") || str_eq(kind, "enum_item") {
        let sig = first_line_str(tree.text(i));
        named_leaf_of(tree, i, SymbolKind::Type, vis, sig)
    } else if str_eq(kind, "trait_item") {
        let mut out: Vec<Symbol> = Vec::new();
        let sig = signature_of(tree, i);
        let mut s = match named_head(tree, i, SymbolKind::Interface, vis, sig) {
            Some(s) => s,
            None => return out,
        };
        let body = tree.field_child(i, "body");
        match body {
            Some(b) => {
                proof {
                    let c = t.field_child(i as int, "body"@)->0;
                    assert(c == b as int);
                }
                s.children = rust_trait_members_of(tree, b);
            },
            None => {},
        }
        out.push(s);
        out
    } else if str_eq(kind, "impl_item") {
        let owner = match field_text_of(tree, i, "type") {
            Some(x) => x,
            None => String::new(),
        };
        let body = tree.field_child(i, "body");
        match body {
            Some(b) => {
                proof {
                    let c = t.field_child(i as int, "body"@)->0;
                    assert(c == b as int);
                }
                rust_impl_members_of(tree, owner.as_str(), b)
            },
            None => Vec::new(),
        }
    } else if str_eq(kind, "const_item") || str_eq(kind, "static_item") {
        let sig = first_line_str(tree.text(i));
        named_leaf_of(tree, i, SymbolKind::Const, vis, sig)
    } else if str_eq(kind, "type_item") {
        let sig = trim_str(tree.text(i));
        named_leaf_of(tree, i, SymbolKind::Type, vis, sig)
    } else {
        Vec::new()
    }
}

} // verus!

verus! {

// ─── Go ──────────────────────────────────────────────────────────────

/// Exported names start with an uppercase ASCII letter.
pub open spec fn go_visibility(name: Seq<char>) -> Visibility {
    if name.len() > 0 && 'A' <= name[0] <= 'Z' {
        Visibility::Public
    } else {
        Visibility::Private
    }
}

/// The type a method receiver such as `(r *Router)` names: `Router`.
pub open spec fn go_receiver_type(recv: Seq<char>) -> Seq<char> {
    let word = match last_word(trim_set(recv, seq!['(', ')'])) {
        Some(w) => w,
        None => seq![],
    };
    trim_start_matches(word, "*"@)
}

pub open spec fn go_type_spec(t: TreeView, k: int) -> Seq<SymbolShape> {
    if t.kind(k) == "type_spec"@ {
        match field_text(t, k, "name"@) {
            Some(n) => seq![
                leaf(
                    head_at(
                        t,
                        k,
                        n,
                        if contains_seq(t.text(k), "interface"@) {
                            SymbolKind::Interface
                        } else {
                            SymbolKind::Type
                        },
                        go_visibility(n),
                        first_line(t.text(k)),
                        None,
                    ),
                )
            ],
            None => seq![],
        }
    } else {
        seq![]
    }
}

pub open spec fn go_type_specs(t: TreeView, ks: Seq<usize>, from: int) -> Seq<SymbolShape>
    decreases ks.len() - from,
{
    if from < 0 || from >= ks.len() {
        seq![]
    } else {
        go_type_spec(t, ks[from] as int) + go_type_specs(t, ks, from + 1)
    }
}

/// The symbols a top-level Go declaration declares; a method is named
/// `Receiver.method`.
pub open spec fn go_node(t: TreeView, i: int) -> Seq<SymbolShape> {
    if i < 0 || i >= t.nodes.len() {
        seq![]
    } else if t.kind(i) == "function_declaration"@ {
        match field_text(t, i, "name"@) {
            Some(n) => seq![leaf(head_at(t, i, n, SymbolKind::Function, go_visibility(n), signature_up_to_body(t, i), None))],
            None => seq![],
        }
    } else if t.kind(i) == "method_declaration"@ {
        match field_text(t, i, "name"@) {
            Some(n) => {
                let recv = match field_text(t, i, "receiver"@) {
                    Some(r) => r,
                    None => seq![],
                };
                let full = if recv.len() > 0 {
                    go_receiver_type(recv) + "."@ + n
                } else {
                    n
                };
                seq![leaf(head_at(t, i, full, SymbolKind::Method, go_visibility(n), signature_up_to_body(t, i), None))]
            },
            None => seq![],
        }
    } else if t.kind(i) == "type_declaration"@ {
        go_type_specs(t, t.kids[i], 0)
    } else {
        seq![]
    }
}

fn go_visibility_of(name: &str) -> (r: Visibility)
    ensures
        r == go_visibility(name@),
{
    let cs = crate::text::chars_of(name);
    if cs.len() > 0 && 'A' <= cs[0] && cs[0] <= 'Z' {
        Visibility::Public
    } else {
        Visibility::Private
    }
}

fn go_receiver_type_of(recv: &str) -> (r: String)
    ensures
        r@ == go_receiver_type(recv@),
{
    let parens = ['(', ')'];
    let inner = trim_set_str(recv, &parens);
    proof {
        assert(parens@ =~= seq!['(', ')']);
    }
    let word = match last_word_str(inner.as_str()) {
        Some(w) => w,
        None => String::new(),
    };
    trim_start_matches_str(word.as_str(), "*")
}

fn go_type_specs_of(tree: &SyntaxTree, i: usize) -> (r: Vec<Symbol>)
    requires
        i < tree@.nodes.len(),
    ensures
        has_shapes(r@, go_type_specs(tree@, tree@.kids[i as int], 0)),
{
    let ks = tree.children(i);
    let ghost t = tree@;
    let mut out: Vec<Symbol> = Vec::new();
    let mut q: usize = 0;
    proof {
        assert(go_type_specs(t, ks@, 0) =~= seq![] + go_type_specs(t, ks@, 0));
        assert(has_shapes(out@, seq![]));
    }
    while q < ks.len()
        invariant
            t == tree@,
            t.wf(),
            ks@ == t.kids[i as int],
            forall|x: int| 0 <= x < ks@.len() ==> i < #[trigger] ks@[x] < t.nodes.len(),
            q <= ks@.len(),
            exists|done: Seq<SymbolShape>| has_shapes(out@, done) && go_type_specs(t, ks@, 0) == done + go_type_specs(t, ks@, q as int),
        decreases ks@.len() - q,
    {
        let ghost done = choose|done: Seq<SymbolShape>| has_shapes(out@, done) && go_type_specs(t, ks@, 0) == done + go_type_specs(t, ks@, q as int);
        let k = ks[q];
        let ghost here = go_type_spec(t, k as int);
        let mut added = false;
        if str_eq(tree.kind(k), "type_spec") {
            match field_text_of(tree, k, "name") {
                Some(n) => {
                    let vis = go_visibility_of(n.as_str());
                    let sig = first_line_str(tree.text(k));
                    let kind = if str_contains(tree.text(k), "interface") { SymbolKind::Interface } else { SymbolKind::Type };
                    let s = leaf_symbol(tree, k, n, kind, vis, sig, None);
                    push_shaped(&mut out, s, Ghost(done), Ghost(here[0]));
                    proof {
                        assert(done.push(here[0]) =~= done + here);
                    }
                    added = true;
                },
                None => {},
            }
        }
        if !added {
            proof {
                assert(done + here =~= done);
            }
        }
        proof {
            assert(go_type_specs(t, ks@, q as int) == here + go_type_specs(t, ks@, q + 1));
            assert(done + (here + go_type_specs(t, ks@, q + 1)) =~= (done + here) + go_type_specs(t, ks@, q + 1));
        }
        q = q + 1;
    }
    proof {
        let done = choose|done: Seq<SymbolShape>| has_shapes(out@, done) && go_type_specs(t, ks@, 0) == done + go_type_specs(t, ks@, q as int);
        assert(done + seq![] =~= done);
    }
    out
}

fn go_node_of(tree: &SyntaxTree, i: usize) -> (r: Vec<Symbol>)
    requires
        i < tree@.nodes.len(),
    ensures
        has_shapes(r@, go_node(tree@, i as int)),
{
    let mut out: Vec<Symbol> = Vec::new();
    let kind = tree.kind(i);
    if str_eq(kind, "function_declaration") {
        match field_text_of(tree, i, "name") {
            Some(n) => {
                let vis = go_visibility_of(n.as_str());
                let sig = signature_of(tree, i);
                out.push(leaf_symbol(tree, i, n, SymbolKind::Function, vis, sig, None));
            },
            None => {},
        }
        out
    } else if str_eq(kind, "method_declaration") {
        match field_text_of(tree, i, "name") {
            Some(n) => {
                let vis = go_visibility_of(n.as_str());
                let sig = signature_of(tree, i);
                let recv = match field_text_of(tree, i, "receiver") {
                    Some(r) => r,
                    None => String::new(),
                };
                let full = if !recv.as_str().is_empty() {
                    let mut f = go_receiver_type_of(recv.as_str());
                    push_str(&mut f, ".");
                    push_str(&mut f, n.as_str());
                    f
                } else {
                    n
                };
                out.push(leaf_symbol(tree, i, full, SymbolKind::Method, vis, sig, None));
            },
            None => {},
        }
        out
    } else if str_eq(kind, "type_declaration") {
        go_type_specs_of(tree, i)
    } else {
        out
    }
}

// ─── Java ────────────────────────────────────────────────────────────

/// Visibility from the modifiers in a declaration's text (package-private
/// and protected are internal).
pub open spec fn java_visibility(text: Seq<char>) -> Visibility {
    if contains_seq(text, "public "@) {
        Visibility::Public
    } else if contains_seq(text, "private "@) {
        Visibility::Private
    } else {
        Visibility::Internal
    }
}

/// The constants a `static final` field declaration `f` declares through
/// its declarators `ks[from..]`.
pub open spec fn java_constants(t: TreeView, f: int, ks: Seq<usize>, from: int) -> Seq<SymbolHead>
    decreases ks.len() - from,
{
    if from < 0 || from >= ks.len() {
        seq![]
    } else {
        let k = ks[from] as int;
        let here = if t.kind(k) == "variable_declarator"@ {
            match field_text(t, k, "name"@) {
                Some(n) => seq![head_at(t, f, n, SymbolKind::Const, java_visibility(t.text(f)), trim(t.text(f)), None)],
                None => seq![],
            }
        } else {
            seq![]
        };
        here + java_constants(t, f, ks, from + 1)
    }
}

/// The methods, constructors and `static final` constants a class body member declares.
pub open spec fn java_member(t: TreeView, k: int) -> Seq<SymbolHead> {
    let method = if t.kind(k) == "method_declaration"@ || t.kind(k) == "constructor_declaration"@ {
        match field_text(t, k, "name"@) {
            Some(n) => seq![head_at(t, k, n, SymbolKind::Method, java_visibility(t.text(k)), signature_up_to_body(t, k), None)],
            None => seq![],
        }
    } else {
        seq![]
    };
    let constants = if t.kind(k) == "field_declaration"@ && contains_seq(t.text(k), "static"@) && contains_seq(t.text(k), "final"@) {
        java_constants(t, k, t.kids[k], 0)
    } else {
        seq![]
    };
    method + constants
}

pub open spec fn java_members(t: TreeView, ks: Seq<usize>, from: int) -> Seq<SymbolHead>
    decreases ks.len() - from,
{
    if from < 0 || from >= ks.len() {
        seq![]
    } else {
        java_member(t, ks[from] as int) + java_members(t, ks, from + 1)
    }
}

/// The symbols a top-level Java declaration declares.
pub open spec fn java_node(t: TreeView, i: int) -> Seq<SymbolShape> {
    if i < 0 || i >= t.nodes.len() {
        seq![]
    } else if t.kind(i) == "class_declaration"@ {
        match field_text(t, i, "name"@) {
            Some(n) => seq![
                SymbolShape {
                    head: head_at(t, i, n, SymbolKind::Class, java_visibility(t.text(i)), signature_up_to_body(t, i), None),
                    children: match t.field_child(i, "body"@) {
                        Some(b) => java_members(t, t.kids[b], 0),
                        None => seq![],
                    },
                }
            ],
            None => seq![],
        }
    } else if t.kind(i) == "interface_declaration"@ {
        named_leaf(t, i, SymbolKind::Interface, java_visibility(t.text(i)), signature_up_to_body(t, i))
    } else {
        seq![]
    }
}

fn java_visibility_of(text: &str) -> (r: Visibility)
    ensures
        r == java_visibility(text@),
{
    if str_contains(text, "public ") {
        Visibility::Public
    } else if str_contains(text, "private ") {
        Visibility::Private
    } else if str_contains(text, "protected ") {
        Visibility::Internal
    } else {
        Visibility::Internal
    }
}

fn java_constants_of(tree: &SyntaxTree, f: usize, out: &mut Vec<Symbol>, Ghost(done): Ghost<Seq<SymbolHead>>)
    requires
        f < tree@.nodes.len(),
        has_heads(old(out)@, done),
    ensures
        has_heads(final(out)@, done + java_constants(tree@, f as int, tree@.kids[f as int], 0)),
{
    let ks = tree.children(f);
    let ghost t = tree@;
    let mut q: usize = 0;
    let vis = java_visibility_of(tree.text(f));
    proof {
        assert(done + java_constants(t, f as int, ks@, 0) =~= done + java_constants(t, f as int, ks@, 0));
    }
    while q < ks.len()
        invariant
            t == tree@,
            t.wf(),
            f < t.nodes.len(),
            ks@ == t.kids[f as int],
            forall|x: int| 0 <= x < ks@.len() ==> f < #[trigger] ks@[x] < t.nodes.len(),
            q <= ks@.len(),
            vis == java_visibility(t.text(f as int)),
            exists|cur: Seq<SymbolHead>| has_heads(out@, cur) && done + java_constants(t, f as int, ks@, 0) == cur + java_constants(t, f as int, ks@, q as int),
        decreases ks@.len() - q,
    {
        let ghost cur = choose|cur: Seq<SymbolHead>| has_heads(out@, cur) && done + java_constants(t, f as int, ks@, 0) == cur + java_constants(t, f as int, ks@, q as int);
        let k = ks[q];
        let ghost here = java_constants(t, f as int, ks@, q as int).subrange(0, java_constants(t, f as int, ks@, q as int).len() - java_constants(t, f as int, ks@, q + 1).len());
        proof {
            assert(java_constants(t, f as int, ks@, q as int) =~= here + java_constants(t, f as int, ks@, q + 1));
        }
        let m = if str_eq(tree.kind(k), "variable_declarator") {
            match field_text_of(tree, k, "name") {
                Some(n) => {
                    let sig = trim_str(tree.text(f));
                    Some(leaf_symbol(tree, f, n, SymbolKind::Const, vis, sig, None))
                },
                None => None,
            }
        } else {
            None
        };
        push_heads(out, m, Ghost(cur), Ghost(here));
        proof {
            assert(cur + (here + java_constants(t, f as int, ks@, q + 1)) =~= (cur + here) + java_constants(t, f as int, ks@, q + 1));
        }
        q = q + 1;
    }
    proof {
        let cur = choose|cur: Seq<SymbolHead>| has_heads(out@, cur) && done + java_constants(t, f as int, ks@, 0) == cur + java_constants(t, f as int, ks@, q as int);
        assert(cur + seq![] =~= cur);
    }
}

fn java_members_of(tree: &SyntaxTree, b: usize) -> (r: Vec<Symbol>)
    requires
        b < tree@.nodes.len(),
    ensures
        has_heads(r@, java_members(tree@, tree@.kids[b as int], 0)),
{
    let ks = tree.children(b);
    let ghost t = tree@;
    let mut out: Vec<Symbol> = Vec::new();
    let mut q: usize = 0;
    proof {
        assert(java_members(t, ks@, 0) =~= seq![] + java_members(t, ks@, 0));
        assert(has_heads(out@, seq![]));
    }
    while q < ks.len()
        invariant
            t == tree@,
            t.wf(),
            ks@ == t.kids[b as int],
            forall|x: int| 0 <= x < ks@.len() ==> b < #[trigger] ks@[x] < t.nodes.len(),
            q <= ks@.len(),
            exists|done: Seq<SymbolHead>| has_heads(out@, done) && java_members(t, ks@, 0) == done + java_members(t, ks@, q as int),
        decreases ks@.len() - q,
    {
        let ghost done = choose|done: Seq<SymbolHead>| has_heads(out@, done) && java_members(t, ks@, 0) == done + java_members(t, ks@, q as int);
        let k = ks[q];
        let kind = tree.kind(k);
        let ghost method_part = if t.kind(k as int) == "method_declaration"@ || t.kind(k as int) == "constructor_declaration"@ {
            match field_text(t, k as int, "name"@) {
                Some(n) => seq![head_at(t, k as int, n, SymbolKind::Method, java_visibility(t.text(k as int)), signature_up_to_body(t, k as int), None)],
                None => seq![],
            }
        } else {
            seq![]
        };
        let m = if str_eq(kind, "method_declaration") || str_eq(kind, "constructor_declaration") {
            let vis = java_visibility_of(tree.text(k));
            let sig = signature_of(tree, k);
            named_head(tree, k, SymbolKind::Method, vis, sig)
        } else {
            None
        };
        push_heads(&mut out, m, Ghost(done), Ghost(method_part));
        let ghost const_part = java_member(t, k as int).subrange(method_part.len() as int, java_member(t, k as int).len() as int);
        proof {
            assert(java_member(t, k as int) =~= method_part + const_part);
        }
        if str_eq(kind, "field_declaration") && str_contains(tree.text(k), "static") && str_contains(tree.text(k), "final") {
            java_constants_of(tree, k, &mut out, Ghost(done + method_part));
        } else {
            proof {
                assert((done + method_part) + const_part =~= done + method_part);
            }
        }
        proof {
            assert(java_members(t, ks@, q as int) == java_member(t, k as int) + java_members(t, ks@, q + 1));
            assert(done + (java_member(t, k as int) + java_members(t, ks@, q + 1)) =~= (done + method_part + const_part) + java_members(t, ks@, q + 1));
        }
        q = q + 1;
    }
    proof {
        let done = choose|done: Seq<SymbolHead>| has_heads(out@, done) && java_members(t, ks@, 0) == done + java_members(t, ks@, q as int);
        assert(done + seq![] =~= done);
    }
    out
}

fn java_node_of(tree: &SyntaxTree, i: usize) -> (r: Vec<Symbol>)
    requires
        i < tree@.nodes.len(),
    ensures
        has_shapes(r@, java_node(tree@, i as int)),
{
    let ghost t = tree@;
    let kind = tree.kind(i);
    if str_eq(kind, "class_declaration") {
        let mut out: Vec<Symbol> = Vec::new();
        let vis = java_visibility_of(tree.text(i));
        let sig = signature_of(tree, i);
        let mut s = match named_head(tree, i, SymbolKind::Class, vis, sig) {
            Some(s) => s,
            None => return out,
        };
        let body = tree.field_child(i, "body");
        match body {
            Some(b) => {
                proof {
                    let c = t.field_child(i as int, "body"@)->0;
                    assert(c == b as int);
                }
                s.children = java_members_of(tree, b);
            },
            None => {},
        }
        out.push(s);
        out
    } else if str_eq(kind, "interface_declaration") {
        let vis = java_visibility_of(tree.text(i));
        let sig = signature_of(tree, i);
        named_leaf_of(tree, i, SymbolKind::Interface, vis, sig)
    } else {
        Vec::new()
    }
}

} // verus!

verus! {

// ─── C ───────────────────────────────────────────────────────────────

/// The name a C declarator declares: an identifier, what a function or
/// pointer declarator wraps, or else the first name among its named children.
pub open spec fn declarator_name(t: TreeView, i: int) -> Seq<char>
    decreases t.nodes.len() - i, 1int, 0int,
{
    if i < 0 || i >= t.nodes.len() {
        seq![]
    } else if t.kind(i) == "identifier"@ {
        t.text(i)
    } else if t.kind(i) == "function_declarator"@ || t.kind(i) == "pointer_declarator"@ {
        match t.field_child(i, "declarator"@) {
            Some(d) => if i < d < t.nodes.len() {
                declarator_name(t, d)
            } else {
                seq![]
            },
            None => seq![],
        }
    } else {
        first_declarator_name(t, i, t.kids[i], 0)
    }
}

/// The first non-empty name among the named children `ks[from..]` of `i`.
pub open spec fn first_declarator_name(t: TreeView, i: int, ks: Seq<usize>, from: int) -> Seq<char>
    decreases t.nodes.len() - i, 0int, ks.len() - from,
{
    if from < 0 || from >= ks.len() || i < 0 {
        seq![]
    } else if i < ks[from] < t.nodes.len() && t.nodes[ks[from] as int].named
        && declarator_name(t, ks[from] as int).len() > 0 {
        declarator_name(t, ks[from] as int)
    } else {
        first_declarator_name(t, i, ks, from + 1)
    }
}

/// The name a declaration declares: that of its first declarator.
pub open spec fn declaration_name(t: TreeView, ks: Seq<usize>, from: int) -> Seq<char>
    decreases ks.len() - from,
{
    if from < 0 || from >= ks.len() {
        seq![]
    } else if t.kind(ks[from] as int) == "init_declarator"@ || t.kind(ks[from] as int) == "declarator"@ {
        declarator_name(t, ks[from] as int)
    } else {
        declaration_name(t, ks, from + 1)
    }
}

/// The symbols a top-level C definition or declaration declares.
pub open spec fn c_node(t: TreeView, i: int) -> Seq<SymbolShape> {
    if i < 0 || i >= t.nodes.len() {
        seq![]
    } else if t.kind(i) == "function_definition"@ {
        match t.field_child(i, "declarator"@) {
            Some(d) => {
                let n = declarator_name(t, d);
                if n.len() > 0 {
                    seq![leaf(head_at(t, i, n, SymbolKind::Function, Visibility::Public, signature_up_to_body(t, i), None))]
                } else {
                    seq![]
                }
            },
            None => seq![],
        }
    } else if t.kind(i) == "declaration"@ {
        if contains_seq(t.text(i), "const "@) || starts_with(t.text(i), "#define"@) {
            let n = declaration_name(t, t.kids[i], 0);
            if n.len() > 0 {
                seq![leaf(head_at(t, i, n, SymbolKind::Const, Visibility::Public, trim(t.text(i)), None))]
            } else {
                seq![]
            }
        } else {
            seq![]
        }
    } else if t.kind(i) == "struct_specifier"@ || t.kind(i) == "enum_specifier"@ {
        named_leaf(t, i, SymbolKind::Type, Visibility::Public, first_line(t.text(i)))
    } else if t.kind(i) == "type_definition"@ {
        let text = trim(t.text(i));
        match last_word(trim_end_matches(text, ";"@)) {
            Some(n) => seq![leaf(head_at(t, i, n, SymbolKind::Type, Visibility::Public, text, None))],
            None => seq![],
        }
    } else {
        seq![]
    }
}

fn declarator_name_of(tree: &SyntaxTree, i: usize) -> (r: String)
    requires
        i < tree@.nodes.len(),
    ensures
        r@ == declarator_name(tree@, i as int),
    decreases tree@.nodes.len() - i, 1int, 0int,
{
    let ghost t = tree@;
    let kind = tree.kind(i);
    if str_eq(kind, "identifier") {
        to_owned(tree.text(i))
    } else if str_eq(kind, "function_declarator") || str_eq(kind, "pointer_declarator") {
        let dc = tree.field_child(i, "declarator");
        match dc {
            Some(d) => {
                proof {
                    let c = t.field_child(i as int, "declarator"@)->0;
                    assert(c == d as int);
                }
                declarator_name_of(tree, d)
            },
            None => String::new(),
        }
    } else {
        first_declarator_name_of(tree, i)
    }
}

fn first_declarator_name_of(tree: &SyntaxTree, i: usize) -> (r: String)
    requires
        i < tree@.nodes.len(),
    ensures
        r@ == first_declarator_name(tree@, i as int, tree@.kids[i as int], 0),
    decreases tree@.nodes.len() - i, 0int, 0int,
{
    let ks = tree.children(i);
    let ghost t = tree@;
    let mut q: usize = 0;
    while q < ks.len()
        invariant
            t == tree@,
            t.wf(),
            i < t.nodes.len(),
            ks@ == t.kids[i as int],
            forall|x: int| 0 <= x < ks@.len() ==> i < #[trigger] ks@[x] < t.nodes.len(),
            q <= ks@.len(),
            first_declarator_name(t, i as int, ks@, 0) == first_declarator_name(t, i as int, ks@, q as int),
        decreases ks@.len() - q,
    {
        let k = ks[q];
        if tree.node(k).named {
            let n = declarator_name_of(tree, k);
            if !n.as_str().is_empty() {
                return n;
            }
        }
        q = q + 1;
    }
    String::new()
}

fn declaration_name_of(tree: &SyntaxTree, i: usize) -> (r: String)
    requires
        i < tree@.nodes.len(),
    ensures
        r@ == declaration_name(tree@, tree@.kids[i as int], 0),
{
    let ks = tree.children(i);
    let ghost t = tree@;
    let mut q: usize = 0;
    while q < ks.len()
        invariant
            t == tree@,
            t.wf(),
            ks@ == t.kids[i as int],
            forall|x: int| 0 <= x < ks@.len() ==> i < #[trigger] ks@[x] < t.nodes.len(),
            q <= ks@.len(),
            declaration_name(t, ks@, 0) == declaration_name(t, ks@, q as int),
        decreases ks@.len() - q,
    {
        let k = ks[q];
        if str_eq(tree.kind(k), "init_declarator") || str_eq(tree.kind(k), "declarator") {
            return declarator_name_of(tree, k);
        }
        q = q + 1;
    }
    String::new()
}

fn c_node_of(tree: &SyntaxTree, i: usize) -> (r: Vec<Symbol>)
    requires
        i < tree@.nodes.len(),
    ensures
        has_shapes(r@, c_node(tree@, i as int)),
{
    let ghost t = tree@;
    let mut out: Vec<Symbol> = Vec::new();
    let kind = tree.kind(i);
    if str_eq(kind, "function_definition") {
        let dc = tree.field_child(i, "declarator");
        match dc {
            Some(d) => {
                proof {
                    let c = t.field_child(i as int, "declarator"@)->0;
                    assert(c == d as int);
                }
                let n = declarator_name_of(tree, d);
                if !n.as_str().is_empty() {
                    let sig = signature_of(tree, i);
                    out.push(leaf_symbol(tree, i, n, SymbolKind::Function, Visibility::Public, sig, None));
                }
            },
            None => {},
        }
        out
    } else if str_eq(kind, "declaration") {
        let text = tree.text(i);
        if str_contains(text, "const ") || str_starts_with(text, "#define") {
            let n = declaration_name_of(tree, i);
            if !n.as_str().is_empty() {
                let sig = trim_str(text);
                out.push(leaf_symbol(tree, i, n, SymbolKind::Const, Visibility::Public, sig, None));
            }
        }
        out
    } else if str_eq(kind, "struct_specifier") || str_eq(kind, "enum_specifier") {
        let sig = first_line_str(tree.text(i));
        named_leaf_of(tree, i, SymbolKind::Type, Visibility::Public, sig)
    } else if str_eq(kind, "type_definition") {
        let text = trim_str(tree.text(i));
        let body = trim_end_matches_str(text.as_str(), ";");
        match last_word_str(body.as_str()) {
            Some(n) => {
                out.push(leaf_symbol(tree, i, n, SymbolKind::Type, Visibility::Public, text, None));
            },
            None => {},
        }
        out
    } else {
        out
    }
}

// ─── C++ ─────────────────────────────────────────────────────────────

/// The methods a class body declares: its function definitions and
/// declarations read as C, made methods.
pub open spec fn cpp_members(t: TreeView, ks: Seq<usize>, from: int) -> Seq<SymbolHead>
    decreases ks.len() - from,
{
    if from < 0 || from >= ks.len() {
        seq![]
    } else {
        let k = ks[from] as int;
        let here = if t.kind(k) == "function_definition"@ || t.kind(k) == "declaration"@ {
            as_methods(c_node(t, k))
        } else {
            seq![]
        };
        here + cpp_members(t, ks, from + 1)
    }
}

/// The symbols a top-level C++ item declares; a namespace gives a module
/// and then what its body declares.
pub open spec fn cpp_node(t: TreeView, i: int) -> Seq<SymbolShape>
    decreases t.nodes.len() - i, 1int, 0int,
{
    if i < 0 || i >= t.nodes.len() {
        seq![]
    } else if t.kind(i) == "function_definition"@ {
        c_node(t, i)
    } else if t.kind(i) == "class_specifier"@ {
        match field_text(t, i, "name"@) {
            Some(n) => seq![
                SymbolShape {
                    head: head_at(t, i, n, SymbolKind::Class, Visibility::Public, "class "@ + n, None),
                    children: match t.field_child(i, "body"@) {
                        Some(b) => cpp_members(t, t.kids[b], 0),
                        None => seq![],
                    },
                }
            ],
            None => seq![],
        }
    } else if t.kind(i) == "namespace_definition"@ {
        let module = match field_text(t, i, "name"@) {
            Some(n) => seq![leaf(head_at(t, i, n, SymbolKind::Module, Visibility::Public, "namespace "@ + n, None))],
            None => seq![],
        };
        let inner = match t.field_child(i, "body"@) {
            Some(b) => if i < b < t.nodes.len() {
                cpp_nodes(t, b, t.kids[b], 0)
            } else {
                seq![]
            },
            None => seq![],
        };
        module + inner
    } else if t.kind(i) == "struct_specifier"@ || t.kind(i) == "enum_specifier"@ || t.kind(i) == "declaration"@
        || t.kind(i) == "type_definition"@ {
        c_node(t, i)
    } else {
        seq![]
    }
}

/// What the children `ks[from..]` of node `p` declare, as C++ items.
pub open spec fn cpp_nodes(t: TreeView, p: int, ks: Seq<usize>, from: int) -> Seq<SymbolShape>
    decreases t.nodes.len() - p, 0int, ks.len() - from,
{
    if from < 0 || from >= ks.len() || p < 0 {
        seq![]
    } else if p < ks[from] < t.nodes.len() {
        cpp_node(t, ks[from] as int) + cpp_nodes(t, p, ks, from + 1)
    } else {
        cpp_nodes(t, p, ks, from + 1)
    }
}

fn cpp_members_of(tree: &SyntaxTree, b: usize) -> (r: Vec<Symbol>)
    requires
        b < tree@.nodes.len(),
    ensures
        has_heads(r@, cpp_members(tree@, tree@.kids[b as int], 0)),
{
    let ks = tree.children(b);
    let ghost t = tree@;
    let mut out: Vec<Symbol> = Vec::new();
    let mut q: usize = 0;
    proof {
        assert(cpp_members(t, ks@, 0) =~= seq![] + cpp_members(t, ks@, 0));
        assert(has_heads(out@, seq![]));
    }
    while q < ks.len()
        invariant
            t == tree@,
            t.wf(),
            ks@ == t.kids[b as int],
            forall|x: int| 0 <= x < ks@.len() ==> b < #[trigger] ks@[x] < t.nodes.len(),
            q <= ks@.len(),
            exists|done: Seq<SymbolHead>| has_heads(out@, done) && cpp_members(t, ks@, 0) == done + cpp_members(t, ks@, q as int),
        decreases ks@.len() - q,
    {
        let ghost done = choose|done: Seq<SymbolHead>| has_heads(out@, done) && cpp_members(t, ks@, 0) == done + cpp_members(t, ks@, q as int);
        let k = ks[q];
        let ghost here = if t.kind(k as int) == "function_definition"@ || t.kind(k as int) == "declaration"@ {
            as_methods(c_node(t, k as int))
        } else {
            seq![]
        };
        if str_eq(tree.kind(k), "function_definition") || str_eq(tree.kind(k), "declaration") {
            let inner = c_node_of(tree, k);
            let ghost shapes = c_node(t, k as int);
            let ghost inner0 = inner@;
            let methods = restamp(inner, None, Some(SymbolKind::Method), Ghost(shapes));
            proof {
                assert(has_heads(methods@, here)) by {
                    assert forall|x: int| 0 <= x < methods@.len() implies #[trigger] head_of(methods@[x]) == here[x] && methods@[x].children@.len() == 0 by {
                        assert(methods@[x].children@ == inner0[x].children@);
                        assert(inner0[x].children@.len() == shapes[x].children.len());
                    }
                }
            }
            let mut methods = methods;
            let ghost o0 = out@;
            let ghost m0 = methods@;
            out.append(&mut methods);
            proof {
                assert forall|x: int| 0 <= x < out@.len() implies #[trigger] head_of(out@[x]) == (done + here)[x] && out@[x].children@.len() == 0 by {
                    if x >= o0.len() {
                        assert(out@[x] == m0[x - o0.len()]);
                    } else {
                        assert(out@[x] == o0[x]);
                    }
                }
                assert(has_heads(out@, done + here));
            }
        } else {
            proof {
                assert(done + here =~= done);
            }
        }
        proof {
            assert(cpp_members(t, ks@, q as int) == here + cpp_members(t, ks@, q + 1));
            assert(done + (here + cpp_members(t, ks@, q + 1)) =~= (done + here) + cpp_members(t, ks@, q + 1));
        }
        q = q + 1;
    }
    proof {
        let done = choose|done: Seq<SymbolHead>| has_heads(out@, done) && cpp_members(t, ks@, 0) == done + cpp_members(t, ks@, q as int);
        assert(done + seq![] =~= done);
    }
    out
}

} // verus!

verus! {

fn cpp_node_of(tree: &SyntaxTree, i: usize) -> (r: Vec<Symbol>)
    requires
        i < tree@.nodes.len(),
    ensures
        has_shapes(r@, cpp_node(tree@, i as int)),
    decreases tree@.nodes.len() - i, 1int, 0int,
{
    let ghost t = tree@;
    let kind = tree.kind(i);
    if str_eq(kind, "function_definition") {
        c_node_of(tree, i)
    } else if str_eq(kind, "class_specifier") {
        let mut out: Vec<Symbol> = Vec::new();
        let name = match field_text_of(tree, i, "name") {
            Some(n) => n,
            None => return out,
        };
        let mut sig = to_owned("class ");
        push_str(&mut sig, name.as_str());
        let mut s = leaf_symbol(tree, i, name, SymbolKind::Class, Visibility::Public, sig, None);
        let body = tree.field_child(i, "body");
        match body {
            Some(b) => {
                proof {
                    let c = t.field_child(i as int, "body"@)->0;
                    assert(c == b as int);
                }
                s.children = cpp_members_of(tree, b);
            },
            None => {},
        }
        out.push(s);
        out
    } else if str_eq(kind, "namespace_definition") {
        let mut out: Vec<Symbol> = Vec::new();
        let ghost module = match field_text(t, i as int, "name"@) {
            Some(n) => seq![leaf(head_at(t, i as int, n, SymbolKind::Module, Visibility::Public, "namespace "@ + n, None))],
            None => seq![],
        };
        match field_text_of(tree, i, "name") {
            Some(n) => {
                let mut sig = to_owned("namespace ");
                push_str(&mut sig, n.as_str());
                out.push(leaf_symbol(tree, i, n, SymbolKind::Module, Visibility::Public, sig, None));
            },
            None => {},
        }
        proof {
            assert(has_shapes(out@, module));
        }
        let body = tree.field_child(i, "body");
        match body {
            Some(b) => {
                proof {
                    let c = t.field_child(i as int, "body"@)->0;
                    assert(c == b as int);
                }
                let inner = cpp_nodes_of(tree, b);
                append_shaped(&mut out, inner, Ghost(module), Ghost(cpp_nodes(t, b as int, t.kids[b as int], 0)));
            },
            None => {
                proof {
                    assert(module + seq![] =~= module);
                }
            },
        }
        out
    } else if str_eq(kind, "struct_specifier") || str_eq(kind, "enum_specifier") || str_eq(kind, "declaration")
        || str_eq(kind, "type_definition") {
        c_node_of(tree, i)
    } else {
        Vec::new()
    }
}

fn cpp_nodes_of(tree: &SyntaxTree, p: usize) -> (r: Vec<Symbol>)
    requires
        p < tree@.nodes.len(),
    ensures
        has_shapes(r@, cpp_nodes(tree@, p as int, tree@.kids[p as int], 0)),
    decreases tree@.nodes.len() - p, 0int, 0int,
{
    let ks = tree.children(p);
    let ghost t = tree@;
    let mut out: Vec<Symbol> = Vec::new();
    let mut q: usize = 0;
    proof {
        assert(cpp_nodes(t, p as int, ks@, 0) =~= seq![] + cpp_nodes(t, p as int, ks@, 0));
        assert(has_shapes(out@, seq![]));
    }
    while q < ks.len()
        invariant
            t == tree@,
            t.wf(),
            p < t.nodes.len(),
            ks@ == t.kids[p as int],
            forall|x: int| 0 <= x < ks@.len() ==> p < #[trigger] ks@[x] < t.nodes.len(),
            q <= ks@.len(),
            exists|done: Seq<SymbolShape>| has_shapes(out@, done) && cpp_nodes(t, p as int, ks@, 0) == done + cpp_nodes(t, p as int, ks@, q as int),
        decreases ks@.len() - q,
    {
        let ghost done = choose|done: Seq<SymbolShape>| has_shapes(out@, done) && cpp_nodes(t, p as int, ks@, 0) == done + cpp_nodes(t, p as int, ks@, q as int);
        let k = ks[q];
        let inner = cpp_node_of(tree, k);
        let ghost here = cpp_node(t, k as int);
        append_shaped(&mut out, inner, Ghost(done), Ghost(here));
        proof {
            assert(cpp_nodes(t, p as int, ks@, q as int) == here + cpp_nodes(t, p as int, ks@, q + 1));
            assert(done + (here + cpp_nodes(t, p as int, ks@, q + 1)) =~= (done + here) + cpp_nodes(t, p as int, ks@, q + 1));
        }
        q = q + 1;
    }
    proof {
        let done = choose|done: Seq<SymbolShape>| has_shapes(out@, done) && cpp_nodes(t, p as int, ks@, 0) == done + cpp_nodes(t, p as int, ks@, q as int);
        assert(done + seq![] =~= done);
    }
    out
}

// ─── Ruby ────────────────────────────────────────────────────────────

pub open spec fn ruby_member(t: TreeView, k: int) -> Seq<SymbolHead> {
    if t.kind(k) == "method"@ {
        match field_text(t, k, "name"@) {
            Some(n) => seq![head_at(t, k, n, SymbolKind::Method, Visibility::Public, first_line(t.text(k)), None)],
            None => seq![],
        }
    } else {
        seq![]
    }
}

pub open spec fn ruby_members(t: TreeView, ks: Seq<usize>, from: int) -> Seq<SymbolHead>
    decreases ks.len() - from,
{
    if from < 0 || from >= ks.len() {
        seq![]
    } else {
        ruby_member(t, ks[from] as int) + ruby_members(t, ks, from + 1)
    }
}

/// The symbols a top-level Ruby definition declares; everything is public.
pub open spec fn ruby_node(t: TreeView, i: int) -> Seq<SymbolShape> {
    if i < 0 || i >= t.nodes.len() {
        seq![]
    } else if t.kind(i) == "method"@ {
        named_leaf(t, i, SymbolKind::Function, Visibility::Public, first_line(t.text(i)))
    } else if t.kind(i) == "singleton_method"@ {
        match field_text(t, i, "name"@) {
            Some(n) => seq![leaf(head_at(t, i, "self."@ + n, SymbolKind::Method, Visibility::Public, first_line(t.text(i)), None))],
            None => seq![],
        }
    } else if t.kind(i) == "class"@ {
        match field_text(t, i, "name"@) {
            Some(n) => seq![
                SymbolShape {
                    head: head_at(t, i, n, SymbolKind::Class, Visibility::Public, first_line(t.text(i)), None),
                    children: match t.field_child(i, "body"@) {
                        Some(b) => ruby_members(t, t.kids[b], 0),
                        None => seq![],
                    },
                }
            ],
            None => seq![],
        }
    } else if t.kind(i) == "module"@ {
        named_leaf(t, i, SymbolKind::Module, Visibility::Public, first_line(t.text(i)))
    } else {
        seq![]
    }
}

fn ruby_members_of(tree: &SyntaxTree, b: usize) -> (r: Vec<Symbol>)
    requires
        b < tree@.nodes.len(),
    ensures
        has_heads(r@, ruby_members(tree@, tree@.kids[b as int], 0)),
{
    let ks = tree.children(b);
    let ghost t = tree@;
    let mut out: Vec<Symbol> = Vec::new();
    let mut q: usize = 0;
    proof {
        assert(ruby_members(t, ks@, 0) =~= seq![] + ruby_members(t, ks@, 0));
        assert(has_heads(out@, seq![]));
    }
    while q < ks.len()
        invariant
            t == tree@,
            t.wf(),
            ks@ == t.kids[b as int],
            forall|x: int| 0 <= x < ks@.len() ==> b < #[trigger] ks@[x] < t.nodes.len(),
            q <= ks@.len(),
            exists|done: Seq<SymbolHead>| has_heads(out@, done) && ruby_members(t, ks@, 0) == done + ruby_members(t, ks@, q as int),
        decreases ks@.len() - q,
    {
        let ghost done = choose|done: Seq<SymbolHead>| has_heads(out@, done) && ruby_members(t, ks@, 0) == done + ruby_members(t, ks@, q as int);
        let k = ks[q];
        let ghost here = ruby_member(t, k as int);
        let m = if str_eq(tree.kind(k), "method") {
            let sig = first_line_str(tree.text(k));
            named_head(tree, k, SymbolKind::Method, Visibility::Public, sig)
        } else {
            None
        };
        push_heads(&mut out, m, Ghost(done), Ghost(here));
        proof {
            assert(ruby_members(t, ks@, q as int) == here + ruby_members(t, ks@, q + 1));
            assert(done + (here + ruby_members(t, ks@, q + 1)) =~= (done + here) + ruby_members(t, ks@, q + 1));
        }
        q = q + 1;
    }
    proof {
        let done = choose|done: Seq<SymbolHead>| has_heads(out@, done) && ruby_members(t, ks@, 0) == done + ruby_members(t, ks@, q as int);
        assert(done + seq![] =~= done);
    }
    out
}

fn ruby_node_of(tree: &SyntaxTree, i: usize) -> (r: Vec<Symbol>)
    requires
        i < tree@.nodes.len(),
    ensures
        has_shapes(r@, ruby_node(tree@, i as int)),
{
    let ghost t = tree@;
    let kind = tree.kind(i);
    if str_eq(kind, "method") {
        let sig = first_line_str(tree.text(i));
        named_leaf_of(tree, i, SymbolKind::Function, Visibility::Public, sig)
    } else if str_eq(kind, "singleton_method") {
        let mut out: Vec<Symbol> = Vec::new();
        match field_text_of(tree, i, "name") {
            Some(n) => {
                let mut full = to_owned("self.");
                push_str(&mut full, n.as_str());
                let sig = first_line_str(tree.text(i));
                out.push(leaf_symbol(tree, i, full, SymbolKind::Method, Visibility::Public, sig, None));
            },
            None => {},
        }
        out
    } else if str_eq(kind, "class") {
        let mut out: Vec<Symbol> = Vec::new();
        let sig = first_line_str(tree.text(i));
        let mut s = match named_head(tree, i, SymbolKind::Class, Visibility::Public, sig) {
            Some(s) => s,
            None => return out,
        };
        let body = tree.field_child(i, "body");
        match body {
            Some(b) => {
                proof {
                    let c = t.field_child(i as int, "body"@)->0;
                    assert(c == b as int);
                }
                s.children = ruby_members_of(tree, b);
            },
            None => {},
        }
        out.push(s);
        out
    } else if str_eq(kind, "module") {
        let sig = first_line_str(tree.text(i));
        named_leaf_of(tree, i, SymbolKind::Module, Visibility::Public, sig)
    } else {
        Vec::new()
    }
}

// ─── Every language ──────────────────────────────────────────────────

/// The symbols a top-level node declares in the language called `lang`.
pub open spec fn node_symbols(t: TreeView, i: int, lang: Seq<char>) -> Seq<SymbolShape> {
    if lang == "python"@ {
        py_node(t, i)
    } else if lang == "typescript"@ || lang == "tsx"@ {
        ts_node(t, i, true)
    } else if lang == "javascript"@ {
        ts_node(t, i, false)
    } else if lang == "rust"@ {
        rust_node(t, i)
    } else if lang == "go"@ {
        go_node(t, i)
    } else if lang == "java"@ {
        java_node(t, i)
    } else if lang == "c"@ {
        c_node(t, i)
    } else if lang == "cpp"@ {
        cpp_node(t, i)
    } else if lang == "ruby"@ {
        ruby_node(t, i)
    } else {
        seq![]
    }
}

/// The symbols the nodes `ks[from..]` declare.
pub open spec fn nodes_symbols(t: TreeView, ks: Seq<usize>, from: int, lang: Seq<char>) -> Seq<SymbolShape>
    decreases ks.len() - from,
{
    if from < 0 || from >= ks.len() {
        seq![]
    } else {
        node_symbols(t, ks[from] as int, lang) + nodes_symbols(t, ks, from + 1, lang)
    }
}

/// The symbols a file declares at its top level: those of the root's children.
pub open spec fn file_symbols(t: TreeView, lang: Seq<char>) -> Seq<SymbolShape> {
    if t.nodes.len() == 0 {
        seq![]
    } else {
        nodes_symbols(t, t.kids[0], 0, lang)
    }
}

fn node_symbols_of(tree: &SyntaxTree, i: usize, lang: &str) -> (r: Vec<Symbol>)
    requires
        i < tree@.nodes.len(),
    ensures
        has_shapes(r@, node_symbols(tree@, i as int, lang@)),
{
    if str_eq(lang, "python") {
        py_node_of(tree, i)
    } else if str_eq(lang, "typescript") || str_eq(lang, "tsx") {
        ts_node_of(tree, i, true)
    } else if str_eq(lang, "javascript") {
        ts_node_of(tree, i, false)
    } else if str_eq(lang, "rust") {
        rust_node_of(tree, i)
    } else if str_eq(lang, "go") {
        go_node_of(tree, i)
    } else if str_eq(lang, "java") {
        java_node_of(tree, i)
    } else if str_eq(lang, "c") {
        c_node_of(tree, i)
    } else if str_eq(lang, "cpp") {
        cpp_node_of(tree, i)
    } else if str_eq(lang, "ruby") {
        ruby_node_of(tree, i)
    } else {
        Vec::new()
    }
}

/// The symbols a parsed file declares at its top level, in order.
pub fn extract_symbols(tree: &SyntaxTree, lang: &str) -> (r: Vec<Symbol>)
    ensures
        has_shapes(r@, file_symbols(tree@, lang@)),
{
    let mut out: Vec<Symbol> = Vec::new();
    if tree.len() == 0 {
        return out;
    }
    let ks = tree.children(0);
    let ghost t = tree@;
    let mut q: usize = 0;
    proof {
        assert(nodes_symbols(t, ks@, 0, lang@) =~= seq![] + nodes_symbols(t, ks@, 0, lang@));
        assert(has_shapes(out@, seq![]));
    }
    while q < ks.len()
        invariant
            t == tree@,
            t.wf(),
            t.nodes.len() > 0,
            ks@ == t.kids[0],
            forall|x: int| 0 <= x < ks@.len() ==> 0 < #[trigger] ks@[x] < t.nodes.len(),
            q <= ks@.len(),
            exists|done: Seq<SymbolShape>| has_shapes(out@, done) && nodes_symbols(t, ks@, 0, lang@) == done + nodes_symbols(t, ks@, q as int, lang@),
        decreases ks@.len() - q,
    {
        let ghost done = choose|done: Seq<SymbolShape>| has_shapes(out@, done) && nodes_symbols(t, ks@, 0, lang@) == done + nodes_symbols(t, ks@, q as int, lang@);
        let k = ks[q];
        let inner = node_symbols_of(tree, k, lang);
        let ghost here = node_symbols(t, k as int, lang@);
        append_shaped(&mut out, inner, Ghost(done), Ghost(here));
        proof {
            assert(nodes_symbols(t, ks@, q as int, lang@) == here + nodes_symbols(t, ks@, q + 1, lang@));
            assert(done + (here + nodes_symbols(t, ks@, q + 1, lang@)) =~= (done + here) + nodes_symbols(t, ks@, q + 1, lang@));
        }
        q = q + 1;
    }
    proof {
        let done = choose|done: Seq<SymbolShape>| has_shapes(out@, done) && nodes_symbols(t, ks@, 0, lang@) == done + nodes_symbols(t, ks@, q as int, lang@);
        assert(done + seq![] =~= done);
    }
    out
}

} // verus!

verus! {

// ─── Imports ─────────────────────────────────────────────────────────

/// An import as plain values.
pub struct ImportView {
    pub raw_text: Seq<char>,
    pub source_module: Option<Seq<char>>,
    pub imported_names: Seq<Seq<char>>,
}

pub open spec fn import_view(i: Import) -> ImportView {
    ImportView {
        raw_text: i.raw_text@,
        source_module: opt_view(i.source_module),
        imported_names: crate::text::views(i.imported_names@),
    }
}

pub open spec fn has_imports(v: Seq<Import>, views: Seq<ImportView>) -> bool {
    &&& v.len() == views.len()
    &&& forall|k: int| 0 <= k < v.len() ==> #[trigger] import_view(v[k]) == views[k]
}

pub open spec fn first_of(names: Seq<Seq<char>>) -> Option<Seq<char>> {
    if names.len() > 0 {
        Some(names[0])
    } else {
        None
    }
}

/// The name an import list entry brings in: the entry without its `as` alias.
pub open spec fn unaliased(s: Seq<char>) -> Seq<char> {
    trim(before_first(trim(s), " as "@))
}

/// The non-empty unaliased entries of `pieces[from..]`.
pub open spec fn entry_names(pieces: Seq<Seq<char>>, from: int) -> Seq<Seq<char>>
    decreases pieces.len() - from,
{
    if from < 0 || from >= pieces.len() {
        seq![]
    } else {
        let n = unaliased(pieces[from]);
        (if n.len() > 0 {
            seq![n]
        } else {
            seq![]
        }) + entry_names(pieces, from + 1)
    }
}

/// The modules a Python `import a, b as c` statement names.
pub open spec fn py_import_names(text: Seq<char>) -> Seq<Seq<char>> {
    let rest = match strip_prefix(text, "import "@) {
        Some(r) => r,
        None => seq![],
    };
    entry_names(split_char(rest, ','), 0)
}

/// The names the children `ks[from..]` of a `from .. import ..` statement bring in.
pub open spec fn py_from_names(t: TreeView, ks: Seq<usize>, from: int) -> Seq<Seq<char>>
    decreases ks.len() - from,
{
    if from < 0 || from >= ks.len() {
        seq![]
    } else {
        let k = ks[from] as int;
        let here = if t.kind(k) == "dotted_name"@ || t.kind(k) == "aliased_import"@ {
            let n = trim(before_first(t.text(k), " as "@));
            if n.len() > 0 {
                seq![n]
            } else {
                seq![]
            }
        } else {
            seq![]
        };
        here + py_from_names(t, ks, from + 1)
    }
}

/// The names the children `ks[from..]` of a TypeScript/JavaScript import bring in.
pub open spec fn ts_import_names(t: TreeView, ks: Seq<usize>, from: int) -> Seq<Seq<char>>
    decreases ks.len() - from,
{
    if from < 0 || from >= ks.len() {
        seq![]
    } else {
        let k = ks[from] as int;
        let here = if t.kind(k) == "import_specifier"@ || t.kind(k) == "identifier"@ {
            let n = match field_text(t, k, "name"@) {
                Some(x) => x,
                None => t.text(k),
            };
            if n.len() > 0 && n != "import"@ && n != "from"@ {
                seq![n]
            } else {
                seq![]
            }
        } else {
            seq![]
        };
        here + ts_import_names(t, ks, from + 1)
    }
}

/// The packages the children `ks[from..]` of a Go import declaration name.
pub open spec fn go_import_names(t: TreeView, ks: Seq<usize>, from: int) -> Seq<Seq<char>>
    decreases ks.len() - from,
{
    if from < 0 || from >= ks.len() {
        seq![]
    } else {
        let k = ks[from] as int;
        let here = if t.kind(k) == "import_spec"@ || t.kind(k) == "interpreted_string_literal"@ {
            let n = trim_set(t.text(k), seq!['"']);
            if n.len() > 0 {
                seq![n]
            } else {
                seq![]
            }
        } else {
            seq![]
        };
        here + go_import_names(t, ks, from + 1)
    }
}

/// The path of a `use`/`import` statement: the text after `keyword`,
/// without the final semicolons and surrounding whitespace.
pub open spec fn statement_path(text: Seq<char>, keyword: Seq<char>) -> Seq<char> {
    let rest = match strip_prefix(text, keyword) {
        Some(r) => r,
        None => seq![],
    };
    trim(trim_end_matches(rest, ";"@))
}

/// The import a top-level node is, in the language called `lang`.
pub open spec fn node_import(t: TreeView, i: int, lang: Seq<char>) -> Option<ImportView> {
    let k = t.kind(i);
    let text = t.text(i);
    if lang == "python"@ && k == "import_statement"@ {
        let names = py_import_names(text);
        Some(ImportView { raw_text: text, source_module: first_of(names), imported_names: names })
    } else if lang == "python"@ && k == "import_from_statement"@ {
        Some(ImportView { raw_text: text, source_module: field_text(t, i, "module_name"@), imported_names: py_from_names(t, t.kids[i], 0) })
    } else if (lang == "typescript"@ || lang == "tsx"@ || lang == "javascript"@) && k == "import_statement"@ {
        let source = match field_text(t, i, "source"@) {
            Some(s) => Some(trim_set(s, seq!['\'', '"'])),
            None => None,
        };
        Some(ImportView { raw_text: text, source_module: source, imported_names: ts_import_names(t, t.kids[i], 0) })
    } else if lang == "rust"@ && k == "use_declaration"@ {
        let path = statement_path(text, "use "@);
        Some(ImportView { raw_text: text, source_module: Some(path), imported_names: seq![path] })
    } else if lang == "go"@ && k == "import_declaration"@ {
        let names = go_import_names(t, t.kids[i], 0);
        Some(ImportView { raw_text: text, source_module: first_of(names), imported_names: names })
    } else if lang == "java"@ && k == "import_declaration"@ {
        let path = statement_path(text, "import "@);
        Some(ImportView { raw_text: text, source_module: Some(path), imported_names: seq![after_last(path, '.')] })
    } else if (lang == "c"@ || lang == "cpp"@) && k == "preproc_include"@ {
        let path = match field_text(t, i, "path"@) {
            Some(p) => Some(trim_set(p, seq!['"', '<', '>'])),
            None => None,
        };
        Some(ImportView { raw_text: text, source_module: path, imported_names: opt_seq(path) })
    } else if lang == "ruby"@ && k == "call"@ && starts_with(text, "require"@) {
        let arg = match t.field_child(i, "arguments"@) {
            Some(a) => match t.first_child(a) {
                Some(f) => Some(trim_set(t.text(f), seq!['\'', '"', '(', ')'])),
                None => None,
            },
            None => None,
        };
        Some(ImportView { raw_text: text, source_module: arg, imported_names: opt_seq(arg) })
    } else {
        None
    }
}

/// The imports among the nodes `ks[from..]`.
pub open spec fn nodes_imports(t: TreeView, ks: Seq<usize>, from: int, lang: Seq<char>) -> Seq<ImportView>
    decreases ks.len() - from,
{
    if from < 0 || from >= ks.len() {
        seq![]
    } else {
        opt_seq(node_import(t, ks[from] as int, lang)) + nodes_imports(t, ks, from + 1, lang)
    }
}

/// The imports a file makes at its top level, in order.
pub open spec fn file_imports(t: TreeView, lang: Seq<char>) -> Seq<ImportView> {
    if t.nodes.len() == 0 {
        seq![]
    } else {
        nodes_imports(t, t.kids[0], 0, lang)
    }
}

fn push_name(names: &mut Vec<String>, n: String, Ghost(done): Ghost<Seq<Seq<char>>>)
    requires
        crate::text::views(old(names)@) == done,
    ensures
        crate::text::views(final(names)@) == done + (if n@.len() > 0 {
            seq![n@]
        } else {
            seq![]
        }),
{
    if !n.as_str().is_empty() {
        let ghost before = names@;
        names.push(n);
        proof {
            assert(crate::text::views(names@) =~= crate::text::views(before).push(n@));
            assert(done + seq![n@] =~= done.push(n@));
        }
    } else {
        proof {
            assert(done + seq![] =~= done);
        }
    }
}

fn py_import_names_of(text: &str) -> (r: Vec<String>)
    ensures
        crate::text::views(r@) == py_import_names(text@),
{
    let rest = match strip_prefix_str(text, "import ") {
        Some(r) => r,
        None => String::new(),
    };
    let pieces = split_char_str(rest.as_str(), ',');
    let ghost ps = split_char(rest@, ',');
    let mut names: Vec<String> = Vec::new();
    let mut q: usize = 0;
    proof {
        assert(crate::text::views(names@) =~= seq![]);
        assert(entry_names(ps, 0) =~= seq![] + entry_names(ps, 0));
    }
    while q < pieces.len()
        invariant
            pieces@.len() == ps.len(),
            forall|x: int| 0 <= x < pieces@.len() ==> #[trigger] pieces@[x]@ == ps[x],
            q <= pieces@.len(),
            entry_names(ps, 0) == crate::text::views(names@) + entry_names(ps, q as int),
        decreases pieces@.len() - q,
    {
        let t1 = trim_str(pieces[q].as_str());
        let t2 = before_first_str(t1.as_str(), " as ");
        let n = trim_str(t2.as_str());
        let ghost done = crate::text::views(names@);
        push_name(&mut names, n, Ghost(done));
        proof {
            let here = if unaliased(ps[q as int]).len() > 0 { seq![unaliased(ps[q as int])] } else { seq![] };
            assert(entry_names(ps, q as int) == here + entry_names(ps, q + 1));
            assert(done + (here + entry_names(ps, q + 1)) =~= (done + here) + entry_names(ps, q + 1));
        }
        q = q + 1;
    }
    proof {
        assert(crate::text::views(names@) + seq![] =~= crate::text::views(names@));
    }
    names
}

/// The names the children of node `i` bring in, for the statement kind
/// `which`: 0 a Python `from` import, 1 a TypeScript/JavaScript import,
/// 2 a Go import declaration.
fn child_import_names(tree: &SyntaxTree, i: usize, which: u8) -> (r: Vec<String>)
    requires
        i < tree@.nodes.len(),
        which < 3,
    ensures
        which == 0 ==> crate::text::views(r@) == py_from_names(tree@, tree@.kids[i as int], 0),
        which == 1 ==> crate::text::views(r@) == ts_import_names(tree@, tree@.kids[i as int], 0),
        which == 2 ==> crate::text::views(r@) == go_import_names(tree@, tree@.kids[i as int], 0),
{
    let ks = tree.children(i);
    let ghost t = tree@;
    let ghost target = if which == 0 {
        py_from_names(t, ks@, 0)
    } else if which == 1 {
        ts_import_names(t, ks@, 0)
    } else {
        go_import_names(t, ks@, 0)
    };
    let mut names: Vec<String> = Vec::new();
    let mut q: usize = 0;
    proof {
        assert(crate::text::views(names@) =~= seq![]);
        assert(py_from_names(t, ks@, 0) =~= seq![] + py_from_names(t, ks@, 0));
        assert(ts_import_names(t, ks@, 0) =~= seq![] + ts_import_names(t, ks@, 0));
        assert(go_import_names(t, ks@, 0) =~= seq![] + go_import_names(t, ks@, 0));
    }
    while q < ks.len()
        invariant
            t == tree@,
            t.wf(),
            ks@ == t.kids[i as int],
            forall|x: int| 0 <= x < ks@.len() ==> i < #[trigger] ks@[x] < t.nodes.len(),
            q <= ks@.len(),
            which < 3,
            which == 0 ==> py_from_names(t, ks@, 0) == crate::text::views(names@) + py_from_names(t, ks@, q as int),
            which == 1 ==> ts_import_names(t, ks@, 0) == crate::text::views(names@) + ts_import_names(t, ks@, q as int),
            which == 2 ==> go_import_names(t, ks@, 0) == crate::text::views(names@) + go_import_names(t, ks@, q as int),
        decreases ks@.len() - q,
    {
        let k = ks[q];
        let kind = tree.kind(k);
        let ghost done = crate::text::views(names@);
        if which == 0 {
            if str_eq(kind, "dotted_name") || str_eq(kind, "aliased_import") {
                let b = before_first_str(tree.text(k), " as ");
                let n = trim_str(b.as_str());
                push_name(&mut names, n, Ghost(done));
            } else {
                proof {
                    assert(done + seq![] =~= done);
                }
            }
            proof {
                let here = py_from_names(t, ks@, q as int).subrange(0, py_from_names(t, ks@, q as int).len() - py_from_names(t, ks@, q + 1).len());
                assert(py_from_names(t, ks@, q as int) =~= here + py_from_names(t, ks@, q + 1));
                assert(crate::text::views(names@) == done + here);
                assert(done + (here + py_from_names(t, ks@, q + 1)) =~= (done + here) + py_from_names(t, ks@, q + 1));
            }
        } else if which == 1 {
            if str_eq(kind, "import_specifier") || str_eq(kind, "identifier") {
                let n = match field_text_of(tree, k, "name") {
                    Some(x) => x,
                    None => to_owned(tree.text(k)),
                };
                if !n.as_str().is_empty() && !str_eq(n.as_str(), "import") && !str_eq(n.as_str(), "from") {
                    push_name(&mut names, n, Ghost(done));
                } else {
                    proof {
                        assert(done + seq![] =~= done);
                    }
                }
            } else {
                proof {
                    assert(done + seq![] =~= done);
                }
            }
            proof {
                let here = ts_import_names(t, ks@, q as int).subrange(0, ts_import_names(t, ks@, q as int).len() - ts_import_names(t, ks@, q + 1).len());
                assert(ts_import_names(t, ks@, q as int) =~= here + ts_import_names(t, ks@, q + 1));
                assert(crate::text::views(names@) == done + here);
                assert(done + (here + ts_import_names(t, ks@, q + 1)) =~= (done + here) + ts_import_names(t, ks@, q + 1));
            }
        } else {
            if str_eq(kind, "import_spec") || str_eq(kind, "interpreted_string_literal") {
                let quote = ['"'];
                let n = trim_set_str(tree.text(k), &quote);
                proof {
                    assert(quote@ =~= seq!['"']);
                }
                push_name(&mut names, n, Ghost(done));
            } else {
                proof {
                    assert(done + seq![] =~= done);
                }
            }
            proof {
                let here = go_import_names(t, ks@, q as int).subrange(0, go_import_names(t, ks@, q as int).len() - go_import_names(t, ks@, q + 1).len());
                assert(go_import_names(t, ks@, q as int) =~= here + go_import_names(t, ks@, q + 1));
                assert(crate::text::views(names@) == done + here);
                assert(done + (here + go_import_names(t, ks@, q + 1)) =~= (done + here) + go_import_names(t, ks@, q + 1));
            }
        }
        q = q + 1;
    }
    proof {
        assert(crate::text::views(names@) + seq![] =~= crate::text::views(names@));
    }
    names
}

} // verus!

verus! {

fn statement_path_of(text: &str, keyword: &str) -> (r: String)
    ensures
        r@ == statement_path(text@, keyword@),
{
    let rest = match strip_prefix_str(text, keyword) {
        Some(r) => r,
        None => String::new(),
    };
    let t = trim_end_matches_str(rest.as_str(), ";");
    trim_str(t.as_str())
}

fn opt_vec(o: Option<String>) -> (r: Vec<String>)
    ensures
        crate::text::views(r@) == opt_seq(opt_view(o)),
{
    let mut v: Vec<String> = Vec::new();
    match o {
        Some(s) => {
            v.push(s);
            proof {
                assert(crate::text::views(v@) =~= opt_seq(opt_view(o)));
            }
        },
        None => {
            proof {
                assert(crate::text::views(v@) =~= opt_seq(opt_view(o)));
            }
        },
    }
    v
}

fn copy_opt(o: &Option<String>) -> (r: Option<String>)
    ensures
        opt_view(r) == opt_view(*o),
{
    match o {
        Some(s) => Some(s.clone()),
        None => None,
    }
}

fn first_name(names: &Vec<String>) -> (r: Option<String>)
    ensures
        opt_view(r) == first_of(crate::text::views(names@)),
{
    if names.len() > 0 {
        Some(names[0].clone())
    } else {
        None
    }
}

fn import_of(raw_text: String, source_module: Option<String>, imported_names: Vec<String>) -> (r: Import)
    ensures
        import_view(r) == (ImportView {
            raw_text: raw_text@,
            source_module: opt_view(source_module),
            imported_names: crate::text::views(imported_names@),
        }),
{
    Import { raw_text, source_module, imported_names }
}

fn node_import_of(tree: &SyntaxTree, i: usize, lang: &str) -> (r: Option<Import>)
    requires
        i < tree@.nodes.len(),
    ensures
        match node_import(tree@, i as int, lang@) {
            Some(v) => r matches Some(x) && import_view(x) == v,
            None => r is None,
        },
{
    let ghost t = tree@;
    let kind = tree.kind(i);
    let text = tree.text(i);
    let is_py = str_eq(lang, "python");
    let is_script = str_eq(lang, "typescript") || str_eq(lang, "tsx") || str_eq(lang, "javascript");
    if is_py && str_eq(kind, "import_statement") {
        let names = py_import_names_of(text);
        let module = first_name(&names);
        Some(import_of(to_owned(text), module, names))
    } else if is_py && str_eq(kind, "import_from_statement") {
        let module = field_text_of(tree, i, "module_name");
        let names = child_import_names(tree, i, 0);
        Some(import_of(to_owned(text), module, names))
    } else if is_script && str_eq(kind, "import_statement") {
        let quotes = ['\'', '"'];
        proof {
            assert(quotes@ =~= seq!['\'', '"']);
        }
        let source = match field_text_of(tree, i, "source") {
            Some(s) => Some(trim_set_str(s.as_str(), &quotes)),
            None => None,
        };
        let names = child_import_names(tree, i, 1);
        Some(import_of(to_owned(text), source, names))
    } else if str_eq(lang, "rust") && str_eq(kind, "use_declaration") {
        let path = statement_path_of(text, "use ");
        let mut names: Vec<String> = Vec::new();
        names.push(path.clone());
        proof {
            assert(crate::text::views(names@) =~= seq![path@]);
        }
        Some(import_of(to_owned(text), Some(path), names))
    } else if str_eq(lang, "go") && str_eq(kind, "import_declaration") {
        let names = child_import_names(tree, i, 2);
        let module = first_name(&names);
        Some(import_of(to_owned(text), module, names))
    } else if str_eq(lang, "java") && str_eq(kind, "import_declaration") {
        let path = statement_path_of(text, "import ");
        let name = after_last_str(path.as_str(), '.');
        let mut names: Vec<String> = Vec::new();
        names.push(name);
        proof {
            assert(crate::text::views(names@) =~= seq![after_last(path@, '.')]);
        }
        Some(import_of(to_owned(text), Some(path), names))
    } else if (str_eq(lang, "c") || str_eq(lang, "cpp")) && str_eq(kind, "preproc_include") {
        let brackets = ['"', '<', '>'];
        proof {
            assert(brackets@ =~= seq!['"', '<', '>']);
        }
        let path = match field_text_of(tree, i, "path") {
            Some(p) => Some(trim_set_str(p.as_str(), &brackets)),
            None => None,
        };
        let names = opt_vec(copy_opt(&path));
        Some(import_of(to_owned(text), path, names))
    } else if str_eq(lang, "ruby") && str_eq(kind, "call") && str_starts_with(text, "require") {
        let marks = ['\'', '"', '(', ')'];
        proof {
            assert(marks@ =~= seq!['\'', '"', '(', ')']);
        }
        let args = tree.field_child(i, "arguments");
        let arg = match args {
            Some(a) => {
                proof {
                    let c = t.field_child(i as int, "arguments"@)->0;
                    assert(c == a as int);
                }
                let fc = tree.first_child(a);
                match fc {
                    Some(f) => {
                        proof {
                            let c = t.first_child(a as int)->0;
                            assert(c == f as int);
                        }
                        Some(trim_set_str(tree.text(f), &marks))
                    },
                    None => None,
                }
            },
            None => None,
        };
        let names = opt_vec(copy_opt(&arg));
        Some(import_of(to_owned(text), arg, names))
    } else {
        None
    }
}

/// The imports a parsed file makes at its top level, in order.
pub fn extract_imports(tree: &SyntaxTree, lang: &str) -> (r: Vec<Import>)
    ensures
        has_imports(r@, file_imports(tree@, lang@)),
{
    let mut out: Vec<Import> = Vec::new();
    if tree.len() == 0 {
        return out;
    }
    let ks = tree.children(0);
    let ghost t = tree@;
    let mut q: usize = 0;
    proof {
        assert(nodes_imports(t, ks@, 0, lang@) =~= seq![] + nodes_imports(t, ks@, 0, lang@));
        assert(has_imports(out@, seq![]));
    }
    while q < ks.len()
        invariant
            t == tree@,
            t.wf(),
            t.nodes.len() > 0,
            ks@ == t.kids[0],
            forall|x: int| 0 <= x < ks@.len() ==> 0 < #[trigger] ks@[x] < t.nodes.len(),
            q <= ks@.len(),
            exists|done: Seq<ImportView>| has_imports(out@, done) && nodes_imports(t, ks@, 0, lang@) == done + nodes_imports(t, ks@, q as int, lang@),
        decreases ks@.len() - q,
    {
        let ghost done = choose|done: Seq<ImportView>| has_imports(out@, done) && nodes_imports(t, ks@, 0, lang@) == done + nodes_imports(t, ks@, q as int, lang@);
        let k = ks[q];
        let ghost here = opt_seq(node_import(t, k as int, lang@));
        let ghost o0 = out@;
        match node_import_of(tree, k, lang) {
            Some(imp) => {
                out.push(imp);
                proof {
                    assert(done + here =~= done.push(node_import(t, k as int, lang@)->0));
                    assert forall|x: int| 0 <= x < out@.len() implies #[trigger] import_view(out@[x]) == (done + here)[x] by {
                        if x < o0.len() {
                            assert(out@[x] == o0[x]);
                        }
                    }
                }
            },
            None => {
                proof {
                    assert(done + here =~= done);
                }
            },
        }
        proof {
            assert(has_imports(out@, done + here));
            assert(nodes_imports(t, ks@, q as int, lang@) == here + nodes_imports(t, ks@, q + 1, lang@));
            assert(done + (here + nodes_imports(t, ks@, q + 1, lang@)) =~= (done + here) + nodes_imports(t, ks@, q + 1, lang@));
        }
        q = q + 1;
    }
    proof {
        let done = choose|done: Seq<ImportView>| has_imports(out@, done) && nodes_imports(t, ks@, 0, lang@) == done + nodes_imports(t, ks@, q as int, lang@);
        assert(done + seq![] =~= done);
    }
    out
}

} // verus!

verus! {

// ─── Files ───────────────────────────────────────────────────────────

/// The extension of a path as text (`Path::extension`, then `OsStr::to_str`);
/// `None` where there is none or it is not UTF-8.
pub uninterp spec fn spec_extension(path: &Path) -> Option<Seq<char>>;

/// The text of a path (`Path::to_string_lossy`).
pub uninterp spec fn spec_path_text(path: &Path) -> Seq<char>;

/// The XXH3 64-bit hash of the UTF-8 bytes of a text (`xxh3_64`).
pub uninterp spec fn spec_xxh3(text: Seq<char>) -> u64;

/// `Path::extension` and `OsStr::to_str`; the result is named.
#[verifier::external_body]
fn path_extension(path: &Path) -> (r: Option<String>)
    ensures
        opt_view(r) == spec_extension(path),
{
    Some(path.extension()?.to_str()?.to_string())
}

/// `Path::to_string_lossy`; the result is named.
#[verifier::external_body]
pub(crate) fn path_text(path: &Path) -> (r: String)
    ensures
        r@ == spec_path_text(path),
{
    path.to_string_lossy().into_owned()
}

/// `xxhash_rust::xxh3::xxh3_64` of the text's bytes; the result is named.
#[verifier::external_body]
fn source_hash(source: &str) -> (r: u64)
    ensures
        r == spec_xxh3(source@),
{
    xxhash_rust::xxh3::xxh3_64(source.as_bytes())
}

/// The hash the index keeps of a file's content, to tell when it changed.
pub fn content_hash(source: &str) -> (r: u64)
    ensures
        r == spec_xxh3(source@),
{
    source_hash(source)
}

/// The language a file extension stands for.
pub open spec fn extension_language(ext: Seq<char>) -> Option<Seq<char>> {
    if ext == "py"@ {
        Some("python"@)
    } else if ext == "ts"@ {
        Some("typescript"@)
    } else if ext == "tsx"@ {
        Some("tsx"@)
    } else if ext == "js"@ || ext == "jsx"@ || ext == "mjs"@ || ext == "cjs"@ {
        Some("javascript"@)
    } else if ext == "rs"@ {
        Some("rust"@)
    } else if ext == "go"@ {
        Some("go"@)
    } else if ext == "java"@ {
        Some("java"@)
    } else if ext == "c"@ || ext == "h"@ {
        Some("c"@)
    } else if ext == "cpp"@ || ext == "cc"@ || ext == "cxx"@ || ext == "hpp"@ || ext == "hh"@ || ext == "hxx"@ {
        Some("cpp"@)
    } else if ext == "rb"@ {
        Some("ruby"@)
    } else if ext == "swift"@ {
        Some("swift"@)
    } else {
        None
    }
}

/// The extensions each language is detected by: `py` Python; `ts`
/// TypeScript; `tsx` TSX; `js`, `jsx`, `mjs`, `cjs` JavaScript; `rs` Rust;
/// `go` Go; `java` Java; `c`, `h` C; `cpp`, `cc`, `cxx`, `hpp`, `hh`, `hxx`
/// C++; `rb` Ruby; `swift` Swift. No other extension has a language.
pub proof fn lemma_extension_table(ext: Seq<char>)
    ensures
        extension_language(ext) == Some("python"@) <==> ext == "py"@,
        extension_language(ext) == Some("typescript"@) <==> ext == "ts"@,
        extension_language(ext) == Some("tsx"@) <==> ext == "tsx"@,
        extension_language(ext) == Some("javascript"@) <==> (ext == "js"@ || ext == "jsx"@ || ext == "mjs"@ || ext == "cjs"@),
        extension_language(ext) == Some("rust"@) <==> ext == "rs"@,
        extension_language(ext) == Some("go"@) <==> ext == "go"@,
        extension_language(ext) == Some("java"@) <==> ext == "java"@,
        extension_language(ext) == Some("c"@) <==> (ext == "c"@ || ext == "h"@),
        extension_language(ext) == Some("cpp"@) <==> (ext == "cpp"@ || ext == "cc"@ || ext == "cxx"@ || ext == "hpp"@
            || ext == "hh"@ || ext == "hxx"@),
        extension_language(ext) == Some("ruby"@) <==> ext == "rb"@,
        extension_language(ext) == Some("swift"@) <==> ext == "swift"@,
        extension_language(ext) is None <==> !(ext == "py"@ || ext == "ts"@ || ext == "tsx"@ || ext == "js"@ || ext == "jsx"@
            || ext == "mjs"@ || ext == "cjs"@ || ext == "rs"@ || ext == "go"@ || ext == "java"@ || ext == "c"@ || ext == "h"@
            || ext == "cpp"@ || ext == "cc"@ || ext == "cxx"@ || ext == "hpp"@ || ext == "hh"@ || ext == "hxx"@ || ext == "rb"@
            || ext == "swift"@),
{
    reveal_strlit("python");
    reveal_strlit("typescript");
    reveal_strlit("tsx");
    reveal_strlit("javascript");
    reveal_strlit("rust");
    reveal_strlit("go");
    reveal_strlit("java");
    reveal_strlit("c");
    reveal_strlit("cpp");
    reveal_strlit("ruby");
    reveal_strlit("swift");
    reveal_strlit("py");
    reveal_strlit("ts");
    reveal_strlit("js");
    reveal_strlit("jsx");
    reveal_strlit("mjs");
    reveal_strlit("cjs");
    reveal_strlit("rs");
    reveal_strlit("h");
    reveal_strlit("cc");
    reveal_strlit("cxx");
    reveal_strlit("hpp");
    reveal_strlit("hh");
    reveal_strlit("hxx");
    reveal_strlit("rb");
    assert("python"@.len() == 6 && "python"@[0] == 'p');
    assert("typescript"@.len() == 10 && "typescript"@[0] == 't');
    assert("tsx"@.len() == 3 && "tsx"@[0] == 't');
    assert("javascript"@.len() == 10 && "javascript"@[0] == 'j');
    assert("rust"@.len() == 4 && "rust"@[0] == 'r');
    assert("go"@.len() == 2 && "go"@[0] == 'g');
    assert("java"@.len() == 4 && "java"@[0] == 'j');
    assert("c"@.len() == 1 && "c"@[0] == 'c');
    assert("cpp"@.len() == 3 && "cpp"@[0] == 'c');
    assert("ruby"@.len() == 4 && "ruby"@[0] == 'r');
    assert("swift"@.len() == 5 && "swift"@[0] == 's');
    assert("py"@.len() == 2 && "py"@[0] == 'p');
    assert("ts"@.len() == 2 && "ts"@[0] == 't');
    assert("js"@.len() == 2 && "js"@[0] == 'j');
    assert("jsx"@.len() == 3 && "jsx"@[0] == 'j');
    assert("mjs"@.len() == 3 && "mjs"@[0] == 'm');
    assert("cjs"@.len() == 3 && "cjs"@[0] == 'c');
    assert("rs"@.len() == 2 && "rs"@[0] == 'r');
    assert("h"@.len() == 1 && "h"@[0] == 'h');
    assert("cc"@.len() == 2 && "cc"@[0] == 'c');
    assert("cxx"@.len() == 3 && "cxx"@[0] == 'c');
    assert("hpp"@.len() == 3 && "hpp"@[0] == 'h');
    assert("hh"@.len() == 2 && "hh"@[0] == 'h');
    assert("hxx"@.len() == 3 && "hxx"@[0] == 'h');
    assert("rb"@.len() == 2 && "rb"@[0] == 'r');
    assert("rust"@[2] != "ruby"@[2]);
    assert("cjs"@[1] != "cpp"@[1]);
    assert("cjs"@[1] != "cxx"@[1]);
    assert("rs"@[1] != "rb"@[1]);
    assert("cpp"@[1] != "cxx"@[1]);
    assert("hpp"@[1] != "hxx"@[1]);
}

/// The language of a file, by its extension.
pub open spec fn file_language(path: &Path) -> Option<Seq<char>> {
    match spec_extension(path) {
        Some(e) => extension_language(e),
        None => None,
    }
}

fn owned_some(s: &str) -> (r: Option<String>)
    ensures
        opt_view(r) == Some(s@),
{
    Some(to_owned(s))
}

/// The language a file extension stands for.
pub fn language_for_extension(ext: &str) -> (r: Option<String>)
    ensures
        opt_view(r) == extension_language(ext@),
{
    if str_eq(ext, "py") {
        owned_some("python")
    } else if str_eq(ext, "ts") {
        owned_some("typescript")
    } else if str_eq(ext, "tsx") {
        owned_some("tsx")
    } else if str_eq(ext, "js") || str_eq(ext, "jsx") || str_eq(ext, "mjs") || str_eq(ext, "cjs") {
        owned_some("javascript")
    } else if str_eq(ext, "rs") {
        owned_some("rust")
    } else if str_eq(ext, "go") {
        owned_some("go")
    } else if str_eq(ext, "java") {
        owned_some("java")
    } else if str_eq(ext, "c") || str_eq(ext, "h") {
        owned_some("c")
    } else if str_eq(ext, "cpp") || str_eq(ext, "cc") || str_eq(ext, "cxx") || str_eq(ext, "hpp") || str_eq(ext, "hh")
        || str_eq(ext, "hxx") {
        owned_some("cpp")
    } else if str_eq(ext, "rb") {
        owned_some("ruby")
    } else if str_eq(ext, "swift") {
        owned_some("swift")
    } else {
        None
    }
}

/// The language of a file, by its extension.
pub fn detect_language(path: &Path) -> (r: Option<String>)
    ensures
        opt_view(r) == file_language(path),
{
    match path_extension(path) {
        Some(ext) => language_for_extension(ext.as_str()),
        None => None,
    }
}

/// `s` with each backslash made a forward slash.
pub open spec fn forward_slashes(s: Seq<char>) -> Seq<char> {
    s.map_values(|c: char| if c == '\\' { '/' } else { c })
}

pub(crate) fn forward_slashes_of(s: &str) -> (r: String)
    ensures
        r@ == forward_slashes(s@),
{
    let cs = crate::text::chars_of(s);
    let mut r = String::new();
    let mut i: usize = 0;
    while i < cs.len()
        invariant
            i <= cs@.len(),
            cs@ == s@,
            r@ == forward_slashes(s@).take(i as int),
        decreases cs@.len() - i,
    {
        let c = if cs[i] == '\\' { '/' } else { cs[i] };
        crate::text::push_char(&mut r, c);
        i = i + 1;
        proof {
            assert(r@ =~= forward_slashes(s@).take(i as int));
        }
    }
    proof {
        assert(forward_slashes(s@).take(i as int) =~= forward_slashes(s@));
    }
    r
}

/// Why a file could not be parsed.
#[derive(Debug, Clone)]
pub enum ParseError {
    /// No language is known for the file's extension.
    UnsupportedFile(String),
    /// Swift is recognised but has no grammar yet.
    SwiftNotSupported,
    /// The language has no grammar.
    NoGrammar(String),
}

impl ParseError {
    /// The error as a sentence.
    pub fn message(&self) -> (r: String)
        ensures
            r@ == match self {
                ParseError::UnsupportedFile(p) => "Unsupported file type: "@ + p@,
                ParseError::SwiftNotSupported => "Swift parsing not yet supported"@,
                ParseError::NoGrammar(l) => "No grammar for language: "@ + l@,
            },
    {
        match self {
            ParseError::UnsupportedFile(p) => {
                let mut m = to_owned("Unsupported file type: ");
                push_str(&mut m, p.as_str());
                m
            },
            ParseError::SwiftNotSupported => to_owned("Swift parsing not yet supported"),
            ParseError::NoGrammar(l) => {
                let mut m = to_owned("No grammar for language: ");
                push_str(&mut m, l.as_str());
                m
            },
        }
    }
}

/// What a parsed file holds, given its path text, language, hash and tree.
pub fn parsed_file(path: &str, language: String, hash: u64, tree: &SyntaxTree) -> (pf: ParsedFile)
    ensures
        pf.path@ == forward_slashes(path@),
        pf.language@ == language@,
        pf.hash == hash,
        has_shapes(pf.symbols@, file_symbols(tree@, language@)),
        has_imports(pf.imports@, file_imports(tree@, language@)),
{
    let symbols = extract_symbols(tree, language.as_str());
    let imports = extract_imports(tree, language.as_str());
    ParsedFile { path: forward_slashes_of(path), language, hash, symbols, imports }
}

/// Parse a source file: its language by extension, then the symbols and
/// imports its syntax tree declares at the top level.
pub fn parse_file(path: &Path, source: &str) -> (r: Result<ParsedFile, ParseError>)
    ensures
        match file_language(path) {
            None => r matches Err(ParseError::UnsupportedFile(p)) && p@ == spec_path_text(path),
            Some(lang) => if lang == "swift"@ {
                r matches Err(ParseError::SwiftNotSupported)
            } else {
                match grammar_named(lang) {
                    None => r matches Err(ParseError::NoGrammar(l)) && l@ == lang,
                    Some(g) => {
                        r matches Ok(pf) && {
                            &&& pf.path@ == forward_slashes(spec_path_text(path))
                            &&& pf.language@ == lang
                            &&& pf.hash == spec_xxh3(source@)
                            &&& exists|t: TreeView|
                                t.nodes == tree_nodes(g, source@) && t.is_preorder_tree()
                                    && has_shapes(pf.symbols@, file_symbols(t, lang))
                                    && has_imports(pf.imports@, file_imports(t, lang))
                        }
                    },
                }
            },
        },
{
    let lang = match detect_language(path) {
        Some(l) => l,
        None => return Err(ParseError::UnsupportedFile(path_text(path))),
    };
    if str_eq(lang.as_str(), "swift") {
        return Err(ParseError::SwiftNotSupported);
    }
    let g = match grammar_for(lang.as_str()) {
        Some(g) => g,
        None => return Err(ParseError::NoGrammar(lang)),
    };
    let nodes = parse_nodes(g, source);
    let tree = SyntaxTree::from_preorder(nodes);
    let hash = source_hash(source);
    let text = path_text(path);
    let pf = parsed_file(text.as_str(), lang, hash, &tree);
    proof {
        let t = tree@;
        assert(t.nodes == tree_nodes(g, source@));
    }
    Ok(pf)
}

/// The symbols of `v` at all depths, in preorder: each symbol followed by
/// its own descendants.
pub open spec fn flattened(v: Seq<Symbol>) -> Seq<Symbol>
    decreases v,
{
    if v.len() == 0 {
        seq![]
    } else {
        proof {
            assert(decreases_to!(v => v[v.len() - 1]));
            assert(decreases_to!(v[v.len() - 1] => v[v.len() - 1].children));
            assert(decreases_to!(v[v.len() - 1].children => v[v.len() - 1].children@));
        }
        flattened(v.drop_last()) + seq![v[v.len() - 1]] + flattened(v[v.len() - 1].children@)
    }
}

/// Appends the symbols of `symbols` at all depths, in preorder.
fn flatten_into<'a>(symbols: &'a [Symbol], out: &mut Vec<&'a Symbol>)
    ensures
        final(out)@.map_values(|s: &Symbol| *s) == old(out)@.map_values(|s: &Symbol| *s) + flattened(symbols@),
    decreases symbols@,
{
    let ghost o0 = out@.map_values(|s: &Symbol| *s);
    let mut i: usize = 0;
    proof {
        assert(symbols@.take(0) =~= Seq::<Symbol>::empty());
        assert(o0 + flattened(Seq::<Symbol>::empty()) =~= o0);
    }
    while i < symbols.len()
        invariant
            i <= symbols@.len(),
            out@.map_values(|s: &Symbol| *s) == o0 + flattened(symbols@.take(i as int)),
        decreases symbols@.len() - i,
    {
        let sym = &symbols[i];
        let ghost before = out@;
        out.push(sym);
        proof {
            assert(out@.map_values(|s: &Symbol| *s) =~= before.map_values(|s: &Symbol| *s).push(*sym));
            assert(decreases_to!(symbols@ => symbols@[i as int]));
            assert(decreases_to!(symbols@[i as int] => symbols@[i as int].children));
            assert(decreases_to!(symbols@[i as int].children => symbols@[i as int].children@));
        }
        flatten_into(sym.children.as_slice(), out);
        proof {
            let t1 = symbols@.take(i + 1);
            assert(t1.drop_last() =~= symbols@.take(i as int));
            assert(t1[t1.len() - 1] == *sym);
            assert(out@.map_values(|s: &Symbol| *s) =~= o0 + flattened(symbols@.take(i + 1)));
        }
        i = i + 1;
    }
    proof {
        assert(symbols@.take(i as int) =~= symbols@);
    }
}

/// Flatten all symbols (including children, at all depths) into a linear
/// list, each symbol followed by its descendants.
pub fn flatten_symbols(symbols: &[Symbol]) -> (r: Vec<&Symbol>)
    ensures
        r@.map_values(|s: &Symbol| *s) == flattened(symbols@),
{
    let mut r: Vec<&Symbol> = Vec::new();
    flatten_into(symbols, &mut r);
    proof {
        assert(Seq::<&Symbol>::empty().map_values(|s: &Symbol| *s) + flattened(symbols@) =~= flattened(symbols@));
    }
    r
}

} // verus!

verus! {

/// The byte range of a symbol, cut to a text of `len` bytes.
pub open spec fn clamped(sym: Symbol, len: nat) -> (int, int) {
    (
        if sym.byte_start <= len { sym.byte_start as int } else { len as int },
        if sym.byte_end <= len { sym.byte_end as int } else { len as int },
    )
}

/// Get the full source text of a symbol from the original source: its
/// byte range, cut to the source's length.
pub fn symbol_source<'a>(sym: &Symbol, source: &'a str) -> (r: &'a str)
    requires
        source.spec_bytes().len() <= usize::MAX,
        clamped(*sym, source.spec_bytes().len()).0 <= clamped(*sym, source.spec_bytes().len()).1,
        is_char_boundary(source.spec_bytes(), clamped(*sym, source.spec_bytes().len()).0),
        is_char_boundary(source.spec_bytes(), clamped(*sym, source.spec_bytes().len()).1),
    ensures
        r.spec_bytes() == source.spec_bytes().subrange(
            clamped(*sym, source.spec_bytes().len()).0,
            clamped(*sym, source.spec_bytes().len()).1,
        ),
{
    let len = source.len();
    let start = if sym.byte_start <= len { sym.byte_start } else { len };
    let end = if sym.byte_end <= len { sym.byte_end } else { len };
    let (head, _) = source.split_at(end);
    let ghost bytes = source.spec_bytes();
    proof {
        broadcast use vstd::utf8::encode_utf8_valid_utf8;
        broadcast use vstd::utf8::valid_utf8_split;
        broadcast use vstd::utf8::is_char_boundary_start_end_of_seq;
        assert(valid_utf8(bytes));
        let hb = bytes.subrange(0, end as int);
        assert(valid_utf8(hb));
        if start == end {
            assert(hb.len() == end);
        } else if start > 0 {
            vstd::utf8::is_char_boundary_iff_not_is_continuation_byte(bytes, start as int);
            vstd::utf8::is_char_boundary_iff_not_is_continuation_byte(hb, start as int);
            assert(hb[start as int] == bytes[start as int]);
        }
        assert(head.spec_bytes() =~= hb);
        assert(is_char_boundary(head.spec_bytes(), start as int));
    }
    let (_, mid) = head.split_at(start);
    proof {
        assert(mid.spec_bytes() =~= bytes.subrange(start as int, end as int));
    }
    mid
}

} // verus!
