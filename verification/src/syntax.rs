//! Syntax trees as symbol and import extraction reads them: the nodes of a
//! parse in preorder, with each node's children found again from the
//! nodes' depths, and the grammars a file can be parsed with.
use vstd::prelude::*;
use std::collections::HashMap;
use tree_sitter::{Language, Parser, Tree};
use crate::text::{str_eq, to_owned};

verus! {

broadcast use vstd::std_specs::hash::group_hash_axioms;

#[verifier::external_type_specification]
#[verifier::external_body]
pub struct ExLanguage(Language);

#[verifier::external_type_specification]
#[verifier::external_body]
pub struct ExTree(Tree);

#[verifier::external_type_specification]
#[verifier::external_body]
pub struct ExParser(Parser);

/// The grammars a source file can be parsed with.
#[derive(Clone, Copy, Debug, PartialEq, Eq, Structural)]
pub enum Grammar {
    Python,
    JavaScript,
    TypeScript,
    Tsx,
    Rust,
    Go,
    Java,
    C,
    Cpp,
    Ruby,
}

/// The grammar that parses the language called `name`, if there is one.
pub open spec fn grammar_named(name: Seq<char>) -> Option<Grammar> {
    if name == "python"@ {
        Some(Grammar::Python)
    } else if name == "javascript"@ {
        Some(Grammar::JavaScript)
    } else if name == "typescript"@ {
        Some(Grammar::TypeScript)
    } else if name == "tsx"@ {
        Some(Grammar::Tsx)
    } else if name == "rust"@ {
        Some(Grammar::Rust)
    } else if name == "go"@ {
        Some(Grammar::Go)
    } else if name == "java"@ {
        Some(Grammar::Java)
    } else if name == "c"@ {
        Some(Grammar::C)
    } else if name == "cpp"@ {
        Some(Grammar::Cpp)
    } else if name == "ruby"@ {
        Some(Grammar::Ruby)
    } else {
        None
    }
}

/// The grammar for a language name.
pub fn grammar_for(name: &str) -> (r: Option<Grammar>)
    ensures
        r == grammar_named(name@),
{
    if str_eq(name, "python") {
        Some(Grammar::Python)
    } else if str_eq(name, "javascript") {
        Some(Grammar::JavaScript)
    } else if str_eq(name, "typescript") {
        Some(Grammar::TypeScript)
    } else if str_eq(name, "tsx") {
        Some(Grammar::Tsx)
    } else if str_eq(name, "rust") {
        Some(Grammar::Rust)
    } else if str_eq(name, "go") {
        Some(Grammar::Go)
    } else if str_eq(name, "java") {
        Some(Grammar::Java)
    } else if str_eq(name, "c") {
        Some(Grammar::C)
    } else if str_eq(name, "cpp") {
        Some(Grammar::Cpp)
    } else if str_eq(name, "ruby") {
        Some(Grammar::Ruby)
    } else {
        None
    }
}

/// The number of nodes (`Node::descendant_count` of the root) of the tree
/// of a source text parsed with a grammar.
pub uninterp spec fn spec_node_count(g: Grammar, source: Seq<char>) -> usize;

/// The node at a preorder position (what `TreeCursor::goto_descendant`
/// reaches from the root) of the tree of a source text parsed with a
/// grammar, read as a `SyntaxNode`.
pub uninterp spec fn spec_node_at(g: Grammar, source: Seq<char>, index: usize) -> SyntaxNode;

/// The tree-sitter language of a grammar, kept with the grammar it came
/// from. Only `language_of` makes one.
struct GrammarLanguage {
    language: Language,
    grammar: Grammar,
}

/// The `LANGUAGE` function of the grammar crate for `g`, converted to a
/// `Language` (`From<LanguageFn>`); it is kept with `g`.
#[verifier::external_body]
fn language_of(g: Grammar) -> (r: GrammarLanguage)
    ensures
        r.grammar == g,
{
    let language: Language = match g {
        Grammar::Python => tree_sitter_python::LANGUAGE.into(),
        Grammar::JavaScript => tree_sitter_javascript::LANGUAGE.into(),
        Grammar::TypeScript => tree_sitter_typescript::LANGUAGE_TYPESCRIPT.into(),
        Grammar::Tsx => tree_sitter_typescript::LANGUAGE_TSX.into(),
        Grammar::Rust => tree_sitter_rust::LANGUAGE.into(),
        Grammar::Go => tree_sitter_go::LANGUAGE.into(),
        Grammar::Java => tree_sitter_java::LANGUAGE.into(),
        Grammar::C => tree_sitter_c::LANGUAGE.into(),
        Grammar::Cpp => tree_sitter_cpp::LANGUAGE.into(),
        Grammar::Ruby => tree_sitter_ruby::LANGUAGE.into(),
    };
    GrammarLanguage { language, grammar: g }
}

/// A parser set to the language of a grammar. Only `set_parser` makes one.
struct GrammarParser {
    parser: Parser,
    grammar: Grammar,
}

/// A tree parsed with a grammar, kept with the text it was parsed from.
struct ParsedTree {
    tree: Tree,
    grammar: Grammar,
    source: String,
}

/// `Parser::set_language` on a new parser. It refuses a language only when
/// the language's ABI version lies outside
/// `MIN_COMPATIBLE_LANGUAGE_VERSION..=LANGUAGE_VERSION` (13 to 14 in the
/// tree-sitter version used); every grammar crate used generates version
/// 14, so the language is always taken.
#[verifier::external_body]
fn set_parser(l: &GrammarLanguage) -> (r: Result<GrammarParser, String>)
    ensures
        r is Ok,
        r matches Ok(p) ==> p.grammar == l.grammar,
{
    let mut parser = Parser::new();
    match parser.set_language(&l.language) {
        Ok(()) => Ok(GrammarParser { parser, grammar: l.grammar }),
        Err(e) => Err(e.to_string()),
    }
}

/// `Parser::parse` of a source text; the tree is kept with its grammar and
/// a copy of the text. `parse` gives no tree only where no language is
/// set, a timeout expired or a cancellation flag was flipped; the parser
/// has its language from `set_parser` and neither of the others is set,
/// so a tree always comes.
#[verifier::external_body]
fn parse_text(p: &mut GrammarParser, source: &str) -> (r: Option<ParsedTree>)
    ensures
        final(p).grammar == old(p).grammar,
        r is Some,
        r matches Some(t) ==> t.grammar == old(p).grammar && t.source@ == source@,
{
    let tree = p.parser.parse(source, None)?;
    Some(ParsedTree { tree, grammar: p.grammar, source: source.to_string() })
}

/// `Node::descendant_count` of the root: the number of nodes of the tree.
#[verifier::external_body]
fn node_count(t: &ParsedTree) -> (r: usize)
    ensures
        r == spec_node_count(t.grammar, t.source@),
{
    t.tree.root_node().descendant_count()
}

/// The node at a preorder position (`TreeCursor::goto_descendant` from the
/// root), read as a `SyntaxNode`: its kind, the field it sits in, its depth,
/// byte range, whether it is named, and the text of its range in the parsed
/// source (empty where the range is not one of whole characters).
#[verifier::external_body]
fn node_at(t: &ParsedTree, index: usize) -> (r: SyntaxNode)
    ensures
        r == spec_node_at(t.grammar, t.source@, index),
{
    let mut cursor = t.tree.walk();
    cursor.goto_descendant(index);
    let node = cursor.node();
    SyntaxNode {
        kind: node.kind().to_string(),
        field: cursor.field_name().map(String::from),
        depth: cursor.depth() as usize,
        start: node.start_byte(),
        end: node.end_byte(),
        named: node.is_named(),
        text: t.source.get(node.start_byte()..node.end_byte()).unwrap_or("").to_string(),
    }
}

/// One node of a syntax tree as extraction reads it.
#[derive(Clone, Debug)]
pub struct SyntaxNode {
    pub kind: String,
    /// The field of its parent that the node fills, if any.
    pub field: Option<String>,
    /// How many steps below the root the node sits.
    pub depth: usize,
    pub start: usize,
    pub end: usize,
    pub named: bool,
    pub text: String,
}

/// The tree-sitter language for a language name, where it has a grammar.
pub fn get_language(name: &str) -> (r: Option<Language>)
    ensures
        r is Some <==> grammar_named(name@) is Some,
{
    match grammar_for(name) {
        Some(g) => {
            let l = language_of(g);
            Some(l.language)
        },
        None => None,
    }
}

/// The nodes of the tree of a source text parsed with a grammar, in preorder.
pub open spec fn tree_nodes(g: Grammar, source: Seq<char>) -> Seq<SyntaxNode> {
    Seq::new(spec_node_count(g, source) as nat, |i: int| spec_node_at(g, source, i as usize))
}

/// The nodes of a source text parsed with a grammar, in preorder.
pub fn parse_nodes(g: Grammar, source: &str) -> (r: Vec<SyntaxNode>)
    ensures
        r@ == tree_nodes(g, source@),
{
    let language = language_of(g);
    let mut parser = match set_parser(&language) {
        Ok(p) => p,
        Err(_) => return Vec::new(),
    };
    let tree = match parse_text(&mut parser, source) {
        Some(t) => t,
        None => return Vec::new(),
    };
    let n = node_count(&tree);
    let mut nodes: Vec<SyntaxNode> = Vec::new();
    let mut i: usize = 0;
    while i < n
        invariant
            i <= n,
            tree.grammar == g,
            tree.source@ == source@,
            n == spec_node_count(g, source@),
            nodes@.len() == i,
            forall|k: int| 0 <= k < i ==> #[trigger] nodes@[k] == spec_node_at(g, source@, k as usize),
        decreases n - i,
    {
        nodes.push(node_at(&tree, i));
        i = i + 1;
    }
    proof {
        assert(nodes@ =~= tree_nodes(g, source@));
    }
    nodes
}

/// The last position before `j` whose node sits at depth `d`.
pub open spec fn last_at_depth(nodes: Seq<SyntaxNode>, j: int, d: usize) -> Option<int>
    decreases j,
{
    if j <= 0 {
        None
    } else if nodes[j - 1].depth == d {
        Some(j - 1)
    } else {
        last_at_depth(nodes, j - 1, d)
    }
}

/// The parent of the node at `j` in a preorder listing: the nearest node
/// before it one level up.
pub open spec fn parent_of(nodes: Seq<SyntaxNode>, j: int) -> Option<int> {
    if nodes[j].depth == 0 {
        None
    } else {
        last_at_depth(nodes, j, (nodes[j].depth - 1) as usize)
    }
}

proof fn lemma_last_at_depth(nodes: Seq<SyntaxNode>, j: int, d: usize)
    ensures
        last_at_depth(nodes, j, d) matches Some(i) ==> 0 <= i < j && nodes[i].depth == d,
    decreases j,
{
    if j > 0 {
        lemma_last_at_depth(nodes, j - 1, d);
    }
}

/// A syntax tree: what the extraction reads of it.
pub struct TreeView {
    pub nodes: Seq<SyntaxNode>,
    /// The children of each node, in order.
    pub kids: Seq<Seq<usize>>,
}

/// A syntax tree: its nodes in preorder and each node's children.
pub struct SyntaxTree {
    nodes: Vec<SyntaxNode>,
    kids: Vec<Vec<usize>>,
}

impl View for SyntaxTree {
    type V = TreeView;

    closed spec fn view(&self) -> TreeView {
        TreeView { nodes: self.nodes@, kids: self.kids@.map_values(|k: Vec<usize>| k@) }
    }
}

impl TreeView {
    /// Children come after their parent and are nodes of the tree.
    pub open spec fn wf(self) -> bool {
        &&& self.nodes.len() <= usize::MAX
        &&& self.kids.len() == self.nodes.len()
        &&& forall|i: int, q: int|
            0 <= i < self.kids.len() && 0 <= q < self.kids[i].len() ==> i < #[trigger] self.kids[i][q] < self.nodes.len()
    }

    /// Each node's children are, in order, the nodes whose parent it is.
    pub open spec fn is_preorder_tree(self) -> bool {
        &&& self.wf()
        &&& forall|i: int, x: int|
            0 <= i < self.nodes.len() && 0 <= x < self.nodes.len() ==> (#[trigger] self.kids[i].contains(x as usize)
                <==> #[trigger] parent_of(self.nodes, x) == Some(i))
        &&& forall|i: int, a: int, b: int|
            0 <= i < self.nodes.len() && 0 <= a < b < self.kids[i].len() ==> #[trigger] self.kids[i][a] < #[trigger] self.kids[i][b]
    }

    pub open spec fn kind(self, i: int) -> Seq<char> {
        self.nodes[i].kind@
    }

    pub open spec fn text(self, i: int) -> Seq<char> {
        self.nodes[i].text@
    }

    /// The node fills the field `f` of its parent.
    pub open spec fn in_field(self, k: int, f: Seq<char>) -> bool {
        &&& 0 <= k < self.nodes.len()
        &&& self.nodes[k].field matches Some(x) && x@ == f
    }

    /// The first among `ks[from..]` that fills field `f`.
    pub open spec fn first_in_field(self, ks: Seq<usize>, f: Seq<char>, from: int) -> Option<int>
        decreases ks.len() - from,
    {
        if from < 0 || from >= ks.len() {
            None
        } else if self.in_field(ks[from] as int, f) {
            Some(ks[from] as int)
        } else {
            self.first_in_field(ks, f, from + 1)
        }
    }

    /// The child of node `i` in field `f` (tree-sitter's `child_by_field_name`).
    pub open spec fn field_child(self, i: int, f: Seq<char>) -> Option<int> {
        self.first_in_field(self.kids[i], f, 0)
    }

    /// The first child of node `i`.
    pub open spec fn first_child(self, i: int) -> Option<int> {
        if self.kids[i].len() > 0 {
            Some(self.kids[i][0] as int)
        } else {
            None
        }
    }
}

impl SyntaxTree {
    #[verifier::type_invariant]
    closed spec fn inv(self) -> bool {
        self@.wf()
    }

    /// Rebuilds the tree from its nodes in preorder: each node's parent is
    /// the nearest node before it one level up.
    pub fn from_preorder(nodes: Vec<SyntaxNode>) -> (t: SyntaxTree)
        ensures
            t@.nodes == nodes@,
            t@.is_preorder_tree(),
    {
        let n = nodes.len();
        let ghost ns = nodes@;
        let mut kids: Vec<Vec<usize>> = Vec::new();
        let mut k: usize = 0;
        while k < n
            invariant
                k <= n,
                n == ns.len(),
                kids@.len() == k,
                forall|i: int| 0 <= i < k ==> (#[trigger] kids@[i])@.len() == 0,
            decreases n - k,
        {
            kids.push(Vec::new());
            k = k + 1;
        }
        let mut last: HashMap<usize, usize> = HashMap::new();
        let mut j: usize = 0;
        while j < n
            invariant
                j <= n,
                n == ns.len(),
                ns == nodes@,
                kids@.len() == n,
                forall|d: usize| #[trigger] last@.contains_key(d) <==> last_at_depth(ns, j as int, d) is Some,
                forall|d: usize| #[trigger] last@.contains_key(d) ==> last_at_depth(ns, j as int, d) == Some(last@[d] as int),
                forall|i: int, q: int| 0 <= i < n && 0 <= q < kids@[i]@.len() ==>
                    (#[trigger] kids@[i]@[q]) < j && parent_of(ns, kids@[i]@[q] as int) == Some(i),
                forall|i: int, x: int| 0 <= i < n && 0 <= x < j && #[trigger] parent_of(ns, x) == Some(i) ==> #[trigger] kids@[i]@.contains(x as usize),
                forall|i: int, a: int, b: int| 0 <= i < n && 0 <= a < b < kids@[i]@.len() ==> #[trigger] kids@[i]@[a] < #[trigger] kids@[i]@[b],
            decreases n - j,
        {
            let d = nodes[j].depth;
            let ghost kids0 = kids@;
            proof {
                lemma_last_at_depth(ns, j as int, (d - 1) as usize);
            }
            if d > 0 {
                match last.get(&(d - 1)) {
                    Some(p) => {
                        let p = *p;
                        proof {
                            lemma_last_at_depth(ns, j as int, (d - 1) as usize);
                        }
                        let mut l: Vec<usize> = Vec::new();
                        kids.set_and_swap(p, &mut l);
                        let ghost before = l@;
                        l.push(j);
                        proof {
                            crate::text::lemma_push_contains(before, j);
                        }
                        kids.set(p, l);
                        proof {
                            assert(parent_of(ns, j as int) == Some(p as int));
                            assert forall|i: int, x: int| 0 <= i < n && 0 <= x < j + 1 && #[trigger] parent_of(ns, x) == Some(i)
                                implies #[trigger] kids@[i]@.contains(x as usize) by {
                                if i != p {
                                    assert(kids@[i] == kids0[i]);
                                } else if x < j {
                                    assert(kids0[i]@.contains(x as usize));
                                }
                            }
                            assert forall|i: int, q: int| 0 <= i < n && 0 <= q < kids@[i]@.len() implies
                                (#[trigger] kids@[i]@[q]) < j + 1 && parent_of(ns, kids@[i]@[q] as int) == Some(i) by {
                                if i != p {
                                    assert(kids@[i] == kids0[i]);
                                } else if q < before.len() {
                                    assert(kids@[i]@[q] == kids0[i]@[q]);
                                }
                            }
                            assert forall|i: int, a: int, b: int| 0 <= i < n && 0 <= a < b < kids@[i]@.len() implies
                                #[trigger] kids@[i]@[a] < #[trigger] kids@[i]@[b] by {
                                if i != p {
                                    assert(kids@[i] == kids0[i]);
                                } else {
                                    assert(kids@[i]@[a] == kids0[i]@[a]);
                                    if b < before.len() {
                                        assert(kids@[i]@[b] == kids0[i]@[b]);
                                    }
                                }
                            }
                        }
                    },
                    None => {},
                }
            }
            last.insert(d, j);
            proof {
                assert forall|d2: usize| #[trigger] last@.contains_key(d2) <==> last_at_depth(ns, j + 1, d2) is Some by {}
                assert forall|i: int, x: int| 0 <= i < n && 0 <= x < j + 1 && #[trigger] parent_of(ns, x) == Some(i)
                    implies #[trigger] kids@[i]@.contains(x as usize) by {
                    if x == j && d > 0 {
                        lemma_last_at_depth(ns, j as int, (d - 1) as usize);
                    }
                }
            }
            j = j + 1;
        }
        proof {
            let tv = TreeView { nodes: nodes@, kids: kids@.map_values(|k: Vec<usize>| k@) };
            assert forall|i: int, q: int| 0 <= i < tv.kids.len() && 0 <= q < tv.kids[i].len() implies
                i < #[trigger] tv.kids[i][q] < tv.nodes.len() by {
                let x = kids@[i]@[q] as int;
                assert(tv.kids[i][q] == x);
                lemma_last_at_depth(ns, x, (ns[x].depth - 1) as usize);
            }
            assert(tv.nodes.len() == n);
            assert(tv.wf());
        }
        let t = SyntaxTree { nodes, kids };
        proof {
            assert forall|i: int, x: int| 0 <= i < ns.len() && 0 <= x < ns.len() implies (#[trigger] t@.kids[i].contains(x as usize)
                <==> #[trigger] parent_of(ns, x) == Some(i)) by {
                if t@.kids[i].contains(x as usize) {
                    let q = choose|q: int| 0 <= q < t@.kids[i].len() && t@.kids[i][q] == x as usize;
                    assert(kids@[i]@[q] == x as usize);
                }
            }
        }
        t
    }

    pub fn len(&self) -> (n: usize)
        ensures
            n == self@.nodes.len(),
            self@.wf(),
    {
        proof {
            use_type_invariant(self);
        }
        self.nodes.len()
    }

    pub fn node(&self, i: usize) -> (r: &SyntaxNode)
        requires
            i < self@.nodes.len(),
        ensures
            *r == self@.nodes[i as int],
    {
        &self.nodes[i]
    }

    pub fn kind(&self, i: usize) -> (r: &str)
        requires
            i < self@.nodes.len(),
        ensures
            r@ == self@.kind(i as int),
    {
        self.nodes[i].kind.as_str()
    }

    pub fn text(&self, i: usize) -> (r: &str)
        requires
            i < self@.nodes.len(),
        ensures
            r@ == self@.text(i as int),
    {
        self.nodes[i].text.as_str()
    }

    /// The children of node `i`, in order.
    pub fn children(&self, i: usize) -> (r: &Vec<usize>)
        requires
            i < self@.nodes.len(),
        ensures
            self@.wf(),
            r@ == self@.kids[i as int],
            forall|q: int| 0 <= q < r@.len() ==> i < #[trigger] r@[q] < self@.nodes.len(),
    {
        proof {
            use_type_invariant(self);
        }
        let r = &self.kids[i];
        proof {
            assert forall|q: int| 0 <= q < r@.len() implies i < #[trigger] r@[q] < self@.nodes.len() by {
                assert(self@.kids[i as int][q] == r@[q]);
            }
        }
        r
    }

    /// The child of node `i` in field `f`.
    pub fn field_child(&self, i: usize, f: &str) -> (r: Option<usize>)
        requires
            i < self@.nodes.len(),
        ensures
            self@.wf(),
            match self@.field_child(i as int, f@) {
                Some(c) => r == Some(c as usize) && i < c < self@.nodes.len(),
                None => r is None,
            },
    {
        proof {
            use_type_invariant(self);
        }
        let ks = &self.kids[i];
        let ghost t = self@;
        let mut q: usize = 0;
        while q < ks.len()
            invariant
                t == self@,
                t.wf(),
                i < t.nodes.len(),
                ks@ == t.kids[i as int],
                q <= ks@.len(),
                t.first_in_field(ks@, f@, 0) == t.first_in_field(ks@, f@, q as int),
            decreases ks@.len() - q,
        {
            let k = ks[q];
            let hit = match &self.nodes[k].field {
                Some(x) => str_eq(x.as_str(), f),
                None => false,
            };
            if hit {
                return Some(k);
            }
            q = q + 1;
        }
        None
    }

    /// The first child of node `i`.
    pub fn first_child(&self, i: usize) -> (r: Option<usize>)
        requires
            i < self@.nodes.len(),
        ensures
            self@.wf(),
            match self@.first_child(i as int) {
                Some(c) => r == Some(c as usize) && i < c < self@.nodes.len(),
                None => r is None,
            },
    {
        proof {
            use_type_invariant(self);
        }
        if self.kids[i].len() > 0 {
            Some(self.kids[i][0])
        } else {
            None
        }
    }
}

} // verus!
