//! Records of the symbol index and the pure parts of its bookkeeping:
//! scoped names, module/path matching and reference resolution.
use vstd::prelude::*;
use crate::parser::{opt_view, Import};
use crate::pattern::{replace_all, replace_all_str, replace_char, replace_char_str, trim_end_matches, trim_end_matches_str, trim_set, trim_set_str};
use crate::text::{contains_seq, ends_with, push_str, str_contains, str_ends_with, str_eq, to_owned, trim, trim_str, views};

verus! {

/// A symbol as the index holds it.
#[derive(Clone, Debug)]
pub struct SymbolRecord {
    pub id: i64,
    pub file_path: String,
    pub name: String,
    pub qualified_name: String,
    pub kind: String,
    pub visibility: String,
    pub signature: String,
    pub docstring: Option<String>,
    pub byte_start: usize,
    pub byte_end: usize,
    pub parent_id: Option<i64>,
}

/// An indexed file.
#[derive(Clone, Debug)]
pub struct FileRecord {
    pub id: i64,
    pub path: String,
    pub language: String,
    pub hash: String,
}

/// An import statement of an indexed file.
#[derive(Clone, Debug)]
pub struct ImportRecord {
    pub file_path: String,
    pub raw_text: String,
    pub source_module: Option<String>,
}

/// A use of a name inside an indexed file.
#[derive(Clone, Debug)]
pub struct ReferenceRecord {
    pub file_path: String,
    pub symbol_name: String,
    pub byte_start: usize,
    pub byte_end: usize,
    pub context: String,
}

/// A resolved dependency: `source_symbol_id` uses `target_symbol_id`.
#[derive(Clone, Debug)]
pub struct EdgeRecord {
    pub source_symbol_id: i64,
    pub target_symbol_id: i64,
    pub context: String,
}

/// Counts over the whole index.
#[derive(Clone, Debug)]
pub struct IndexStats {
    pub file_count: usize,
    pub symbol_count: usize,
    pub import_count: usize,
    pub reference_count: usize,
    pub edge_count: usize,
    pub languages: Vec<String>,
}


// ─── Scoped names ────────────────────────────────────────────────────

/// A symbol's scoped name: inside a parent with a scoped name it is
/// `parent::name`, else `file::name`.
pub open spec fn scoped_name(file_path: Seq<char>, parent: Option<Seq<char>>, name: Seq<char>) -> Seq<char> {
    match parent {
        Some(p) => if p.len() > 0 {
            p + "::"@ + name
        } else {
            file_path + "::"@ + name
        },
        None => file_path + "::"@ + name,
    }
}

fn joined3(a: &str, b: &str, c: &str) -> (r: String)
    ensures
        r@ == a@ + b@ + c@,
{
    let mut r = to_owned(a);
    push_str(&mut r, b);
    push_str(&mut r, c);
    r
}

/// The scoped name of a symbol declared in `file_path` under a parent with
/// the scoped name `parent`, if any.
pub fn build_qualified_name(file_path: &str, parent: Option<&str>, name: &str) -> (r: String)
    ensures
        r@ == scoped_name(file_path@, match parent { Some(p) => Some(p@), None => None }, name@),
{
    match parent {
        Some(p) => if !p.is_empty() {
            joined3(p, "::", name)
        } else {
            joined3(file_path, "::", name)
        },
        None => joined3(file_path, "::", name),
    }
}

/// A stored symbol as the scoped-name backfill reads it.
#[derive(Clone, Debug)]
pub struct ScopedSymbol {
    pub id: i64,
    pub file_path: String,
    pub name: String,
    pub parent_id: Option<i64>,
    pub qualified_name: Option<String>,
}

/// The position of the last row with id `id` among `rows[..to]`, if any.
pub open spec fn row_of(rows: Seq<ScopedSymbol>, id: i64, to: int) -> Option<int>
    decreases to,
{
    if to <= 0 {
        None
    } else if rows[to - 1].id == id {
        Some(to - 1)
    } else {
        row_of(rows, id, to - 1)
    }
}

/// The parent chain from `id` ends within `k` steps: it reaches a row
/// without a parent, or a parent that no row has.
pub open spec fn chain_ends(rows: Seq<ScopedSymbol>, id: i64, k: nat) -> bool
    decreases k,
{
    match row_of(rows, id, rows.len() as int) {
        None => true,
        Some(r) => match rows[r].parent_id {
            None => true,
            Some(p) => if row_of(rows, p, rows.len() as int) is None {
                true
            } else if k == 0 {
                false
            } else {
                chain_ends(rows, p, (k - 1) as nat)
            },
        },
    }
}

/// The scoped name of the row with id `id` (the last such row): its
/// parent's scoped name and its own name, or its file and name where it has
/// no parent among the rows; `k` bounds the steps up the parent chain.
pub open spec fn backfilled_name(rows: Seq<ScopedSymbol>, id: i64, k: nat) -> Seq<char>
    decreases k,
{
    match row_of(rows, id, rows.len() as int) {
        None => seq![],
        Some(r) => match rows[r].parent_id {
            Some(p) => if row_of(rows, p, rows.len() as int) is Some && k > 0 {
                backfilled_name(rows, p, (k - 1) as nat) + "::"@ + rows[r].name@
            } else {
                rows[r].file_path@ + "::"@ + rows[r].name@
            },
            None => rows[r].file_path@ + "::"@ + rows[r].name@,
        },
    }
}

/// Every row has a non-empty scoped name already.
pub open spec fn all_named(rows: Seq<ScopedSymbol>) -> bool {
    forall|i: int| 0 <= i < rows.len() ==> (#[trigger] rows[i].qualified_name matches Some(q) && q@.len() > 0)
}

/// Whether some row still lacks a scoped name.
pub fn needs_backfill(rows: &[ScopedSymbol]) -> (r: bool)
    ensures
        r == !all_named(rows@),
{
    let mut i: usize = 0;
    while i < rows.len()
        invariant
            i <= rows@.len(),
            forall|j: int| 0 <= j < i ==> (#[trigger] rows@[j].qualified_name matches Some(q) && q@.len() > 0),
        decreases rows@.len() - i,
    {
        let named = match &rows[i].qualified_name {
            Some(q) => !q.as_str().is_empty(),
            None => false,
        };
        if !named {
            return true;
        }
        i = i + 1;
    }
    false
}

/// The position of the last row with id `id`.
fn find_row(rows: &[ScopedSymbol], id: i64) -> (r: Option<usize>)
    ensures
        match row_of(rows@, id, rows@.len() as int) {
            Some(k) => r == Some(k as usize) && 0 <= k < rows@.len(),
            None => r is None,
        },
{
    let mut k: usize = rows.len();
    while k > 0
        invariant
            k <= rows@.len(),
            row_of(rows@, id, rows@.len() as int) == row_of(rows@, id, k as int),
        decreases k,
    {
        if rows[k - 1].id == id {
            return Some(k - 1);
        }
        k = k - 1;
    }
    None
}

proof fn lemma_row_of(rows: Seq<ScopedSymbol>, id: i64, to: int)
    requires
        0 <= to <= rows.len(),
    ensures
        row_of(rows, id, to) matches Some(r) ==> 0 <= r < to && rows[r].id == id,
    decreases to,
{
    if to > 0 {
        lemma_row_of(rows, id, to - 1);
    }
}

fn backfilled_name_of(rows: &[ScopedSymbol], id: i64, k: usize) -> (r: String)
    ensures
        r@ == backfilled_name(rows@, id, k as nat),
    decreases k,
{
    proof {
        lemma_row_of(rows@, id, rows@.len() as int);
    }
    let at = match find_row(rows, id) {
        Some(x) => x,
        None => return String::new(),
    };
    let row = &rows[at];
    match row.parent_id {
        Some(p) => {
            let has_parent = find_row(rows, p).is_some();
            if has_parent && k > 0 {
                let parent = backfilled_name_of(rows, p, k - 1);
                joined3(parent.as_str(), "::", row.name.as_str())
            } else {
                joined3(row.file_path.as_str(), "::", row.name.as_str())
            }
        },
        None => joined3(row.file_path.as_str(), "::", row.name.as_str()),
    }
}

fn chain_ends_from(rows: &[ScopedSymbol], id: i64, k: usize) -> (r: bool)
    ensures
        r == chain_ends(rows@, id, k as nat),
    decreases k,
{
    proof {
        lemma_row_of(rows@, id, rows@.len() as int);
    }
    let at = match find_row(rows, id) {
        Some(x) => x,
        None => return true,
    };
    match rows[at].parent_id {
        None => true,
        Some(p) => if find_row(rows, p).is_none() {
            true
        } else if k == 0 {
            false
        } else {
            chain_ends_from(rows, p, k - 1)
        },
    }
}

/// Whether every row's parent chain ends, so that its scoped name can be
/// built: no row is its own ancestor.
pub fn parent_chains_end(rows: &[ScopedSymbol]) -> (r: bool)
    ensures
        r == (forall|i: int| 0 <= i < rows@.len() ==> chain_ends(rows@, #[trigger] rows@[i].id, rows@.len() as nat)),
{
    let n = rows.len();
    let mut i: usize = 0;
    while i < n
        invariant
            i <= n == rows@.len(),
            forall|j: int| 0 <= j < i ==> chain_ends(rows@, #[trigger] rows@[j].id, n as nat),
        decreases n - i,
    {
        if !chain_ends_from(rows, rows[i].id, n) {
            return false;
        }
        i = i + 1;
    }
    true
}

/// The scoped names of all rows, in order: each row's parent chain is
/// followed up to a row without a parent among the rows.
pub fn backfill_qualified_names(rows: &[ScopedSymbol]) -> (r: Vec<String>)
    requires
        forall|i: int| 0 <= i < rows@.len() ==> chain_ends(rows@, #[trigger] rows@[i].id, rows@.len() as nat),
    ensures
        r@.len() == rows@.len(),
        forall|i: int| 0 <= i < rows@.len() ==> #[trigger] r@[i]@ == backfilled_name(rows@, rows@[i].id, rows@.len() as nat),
{
    let mut r: Vec<String> = Vec::new();
    let n = rows.len();
    let mut i: usize = 0;
    while i < n
        invariant
            i <= n == rows@.len(),
            r@.len() == i,
            forall|j: int| 0 <= j < i ==> #[trigger] r@[j]@ == backfilled_name(rows@, rows@[j].id, n as nat),
        decreases n - i,
    {
        r.push(backfilled_name_of(rows, rows[i].id, n));
        i = i + 1;
    }
    r
}

// ─── Resolving references ────────────────────────────────────────────

/// A symbol just stored for a file, as reference resolution reads it.
#[derive(Clone, Debug)]
pub struct InsertedSymbol {
    pub id: i64,
    pub name: String,
    pub byte_start: usize,
    pub byte_end: usize,
}

/// A stored symbol that a reference might point at.
#[derive(Clone, Debug)]
pub struct CandidateSymbol {
    pub id: i64,
    pub file_path: String,
    pub parent_id: Option<i64>,
}

pub open spec fn span(s: InsertedSymbol) -> int {
    s.byte_end - s.byte_start
}

pub open spec fn contains_offset(s: InsertedSymbol, offset: usize) -> bool {
    s.byte_start <= offset < s.byte_end
}

/// The innermost symbol holding `offset`: of those holding it, the first
/// with the smallest span.
pub open spec fn innermost(symbols: Seq<InsertedSymbol>, offset: usize) -> Option<i64> {
    if exists|k: int| 0 <= k < symbols.len() && contains_offset(symbols[k], offset) {
        let k = choose|k: int| {
            &&& 0 <= k < symbols.len()
            &&& contains_offset(symbols[k], offset)
            &&& forall|j: int| 0 <= j < symbols.len() && contains_offset(symbols[j], offset) ==> span(symbols[k]) <= span(symbols[j])
            &&& forall|j: int| 0 <= j < k && contains_offset(symbols[j], offset) ==> span(symbols[k]) < span(symbols[j])
        };
        Some(symbols[k].id)
    } else {
        None
    }
}

/// The symbol of `symbols` that most closely contains a byte offset.
pub fn containing_symbol_id(offset: usize, symbols: &[InsertedSymbol]) -> (r: Option<i64>)
    ensures
        r == innermost(symbols@, offset),
{
    let mut best: Option<usize> = None;
    let mut i: usize = 0;
    while i < symbols.len()
        invariant
            i <= symbols@.len(),
            match best {
                Some(b) => {
                    &&& b < i
                    &&& contains_offset(symbols@[b as int], offset)
                    &&& forall|j: int| 0 <= j < i && contains_offset(symbols@[j], offset) ==> span(symbols@[b as int]) <= span(symbols@[j])
                    &&& forall|j: int| 0 <= j < b && contains_offset(symbols@[j], offset) ==> span(symbols@[b as int]) < span(symbols@[j])
                },
                None => forall|j: int| 0 <= j < i ==> !contains_offset(symbols@[j], offset),
            },
        decreases symbols@.len() - i,
    {
        let s = &symbols[i];
        if s.byte_start <= offset && offset < s.byte_end {
            match best {
                Some(b) => {
                    let bs = &symbols[b];
                    if (s.byte_end - s.byte_start) < (bs.byte_end - bs.byte_start) {
                        best = Some(i);
                    }
                },
                None => {
                    best = Some(i);
                },
            }
        }
        i = i + 1;
    }
    match best {
        Some(b) => {
            proof {
                let ss = symbols@;
                let bb = b as int;
                assert(exists|k: int| 0 <= k < ss.len() && contains_offset(ss[k], offset));
                let k = choose|k: int| {
                    &&& 0 <= k < ss.len()
                    &&& contains_offset(ss[k], offset)
                    &&& forall|j: int| 0 <= j < ss.len() && contains_offset(ss[j], offset) ==> span(ss[k]) <= span(ss[j])
                    &&& forall|j: int| 0 <= j < k && contains_offset(ss[j], offset) ==> span(ss[k]) < span(ss[j])
                };
                if k < bb {
                    assert(span(ss[bb]) < span(ss[k]));
                } else if k > bb {
                    assert(span(ss[k]) < span(ss[bb]));
                }
            }
            Some(symbols[b].id)
        },
        None => None,
    }
}

/// The reference is to what an import brings in: one of its names is the
/// reference or ends in `.reference`, or its module is the reference or
/// ends in `.reference` or `::reference`.
pub open spec fn import_relevant(names: Seq<Seq<char>>, module: Option<Seq<char>>, reference: Seq<char>) -> bool {
    ||| exists|k: int| #![trigger names[k]] 0 <= k < names.len() && (names[k] == reference || ends_with(names[k], "."@ + reference))
    ||| match module {
        Some(m) => m == reference || ends_with(m, "."@ + reference) || ends_with(m, "::"@ + reference),
        None => false,
    }
}

/// Whether an import concerns a referenced name.
pub fn import_relevant_for_reference(import: &Import, reference_name: &str) -> (r: bool)
    ensures
        r == import_relevant(views(import.imported_names@), opt_view(import.source_module), reference_name@),
{
    let mut dotted = to_owned(".");
    push_str(&mut dotted, reference_name);
    let mut scoped = to_owned("::");
    push_str(&mut scoped, reference_name);
    let names = &import.imported_names;
    let mut k: usize = 0;
    while k < names.len()
        invariant
            k <= names@.len(),
            names@ == import.imported_names@,
            dotted@ == "."@ + reference_name@,
            forall|j: int| 0 <= j < k ==> !(names@[j]@ == reference_name@ || ends_with(names@[j]@, "."@ + reference_name@)),
        decreases names@.len() - k,
    {
        if str_eq(names[k].as_str(), reference_name) || str_ends_with(names[k].as_str(), dotted.as_str()) {
            proof {
                let vs = views(names@);
                assert(vs[k as int] == names@[k as int]@);
                assert(0 <= k < vs.len() && (vs[k as int] == reference_name@ || ends_with(vs[k as int], "."@ + reference_name@)));
            }
            return true;
        }
        k = k + 1;
    }
    proof {
        assert forall|j: int| 0 <= j < views(names@).len() implies !(views(names@)[j] == reference_name@ || ends_with(views(names@)[j], "."@ + reference_name@)) by {
            assert(views(names@)[j] == names@[j]@);
        }
    }
    match &import.source_module {
        Some(m) => str_eq(m.as_str(), reference_name) || str_ends_with(m.as_str(), dotted.as_str())
            || str_ends_with(m.as_str(), scoped.as_str()),
        None => false,
    }
}


/// A module path as a file path: dots and `::` made slashes, outer dots
/// and slashes taken off.
pub open spec fn normalized_module(module: Seq<char>) -> Seq<char> {
    trim_set(replace_char(replace_all(trim_set(trim(module), seq!['.']), "::"@, "/"@), '.', '/'), seq!['/'])
}

/// The source-file extensions a module path leaves out.
pub open spec fn source_suffixes() -> Seq<Seq<char>> {
    seq![
        ".py"@, ".ts"@, ".tsx"@, ".js"@, ".jsx"@, ".mjs"@, ".cjs"@, ".rs"@, ".go"@, ".java"@, ".c"@, ".cpp"@,
        ".cc"@, ".cxx"@, ".h"@, ".hpp"@, ".hh"@, ".hxx"@, ".rb"@,
    ]
}

/// `s` without the first suffix of `suffixes[from..]` that it ends with.
pub open spec fn without_first_suffix(s: Seq<char>, suffixes: Seq<Seq<char>>, from: int) -> Seq<char>
    decreases suffixes.len() - from,
{
    if from < 0 || from >= suffixes.len() {
        s
    } else if ends_with(s, suffixes[from]) {
        s.subrange(0, s.len() - suffixes[from].len())
    } else {
        without_first_suffix(s, suffixes, from + 1)
    }
}

/// A file path as a module path: forward slashes, no source extension, and
/// a package's `/__init__` taken off.
pub open spec fn normalized_file(path: Seq<char>) -> Seq<char> {
    trim_end_matches(without_first_suffix(replace_char(path, '\\', '/'), source_suffixes(), 0), "/__init__"@)
}

/// `normalized_module(module)` as a new string.
pub fn normalize_module_path(module: &str) -> (r: String)
    ensures
        r@ == normalized_module(module@),
{
    let dot = ['.'];
    let slash = ['/'];
    proof {
        assert(dot@ =~= seq!['.']);
        assert(slash@ =~= seq!['/']);
    }
    let a = trim_str(module);
    let b = trim_set_str(a.as_str(), &dot);
    let c = replace_all_str(b.as_str(), "::", "/");
    let d = replace_char_str(c.as_str(), '.', '/');
    trim_set_str(d.as_str(), &slash)
}

/// `normalized_file(path)` as a new string.
pub fn normalize_file_path(path: &str) -> (r: String)
    ensures
        r@ == normalized_file(path@),
{
    let normalized = replace_char_str(path, '\\', '/');
    let suffixes = [
        ".py", ".ts", ".tsx", ".js", ".jsx", ".mjs", ".cjs", ".rs", ".go", ".java", ".c", ".cpp", ".cc", ".cxx", ".h",
        ".hpp", ".hh", ".hxx", ".rb",
    ];
    let ghost sv = source_suffixes();
    proof {
        assert forall|k: int| 0 <= k < suffixes@.len() implies #[trigger] suffixes@[k]@ == sv[k] by {}
        assert(suffixes@.len() == sv.len());
    }
    let mut stem = normalized.clone();
    let mut k: usize = 0;
    while k < suffixes.len()
        invariant
            k <= suffixes@.len() == sv.len(),
            sv == source_suffixes(),
            forall|q: int| 0 <= q < suffixes@.len() ==> #[trigger] suffixes@[q]@ == sv[q],
            stem@ == normalized@,
            normalized@ == replace_char(path@, '\\', '/'),
            without_first_suffix(normalized@, sv, 0) == without_first_suffix(normalized@, sv, k as int),
        decreases suffixes@.len() - k,
    {
        if str_ends_with(normalized.as_str(), suffixes[k]) {
            let cs = crate::text::chars_of(normalized.as_str());
            let cut = cs.len() - crate::text::chars_of(suffixes[k]).len();
            stem = crate::text::string_of(cs.as_slice(), 0, cut);
            proof {
                assert(ends_with(normalized@, sv[k as int]));
                assert(stem@ == normalized@.subrange(0, normalized@.len() - sv[k as int].len()));
                assert(without_first_suffix(normalized@, sv, k as int) == normalized@.subrange(0, normalized@.len() - sv[k as int].len()));
            }
            return trim_end_matches_str(stem.as_str(), "/__init__");
        }
        k = k + 1;
    }
    trim_end_matches_str(stem.as_str(), "/__init__")
}

/// A module path names the file at `file_path`: the normalized file path
/// ends with or holds the normalized module, or ends with `module/reference`.
pub open spec fn module_matches(module: Seq<char>, file_path: Seq<char>, reference: Seq<char>) -> bool {
    let m = normalized_module(module);
    let f = normalized_file(file_path);
    m.len() > 0 && (ends_with(f, m) || contains_seq(f, m) || ends_with(f, m + "/"@ + reference))
}

/// Whether an import's module path names a file.
pub fn module_matches_file_path(module: &str, file_path: &str, reference_name: &str) -> (r: bool)
    ensures
        r == module_matches(module@, file_path@, reference_name@),
{
    let m = normalize_module_path(module);
    if m.as_str().is_empty() {
        return false;
    }
    let f = normalize_file_path(file_path);
    let nested = joined3(m.as_str(), "/", reference_name);
    str_ends_with(f.as_str(), m.as_str()) || str_contains(f.as_str(), m.as_str()) || str_ends_with(f.as_str(), nested.as_str())
}

/// The best of several candidates: the first at top level, else the first.
#[verifier::opaque]
pub open spec fn best_candidate(candidates: Seq<CandidateSymbol>) -> Option<int> {
    if exists|k: int| 0 <= k < candidates.len() && candidates[k].parent_id is None {
        Some(choose|k: int| 0 <= k < candidates.len() && candidates[k].parent_id is None && forall|j: int|
            0 <= j < k ==> candidates[j].parent_id is Some)
    } else if candidates.len() > 0 {
        Some(0)
    } else {
        None
    }
}

/// The position of the best candidate.
pub fn pick_best_candidate(candidates: &[CandidateSymbol]) -> (r: Option<usize>)
    ensures
        match best_candidate(candidates@) {
            Some(k) => r == Some(k as usize) && 0 <= k < candidates@.len(),
            None => r is None,
        },
{
    proof {
        reveal(best_candidate);
    }
    let mut k: usize = 0;
    while k < candidates.len()
        invariant
            k <= candidates@.len(),
            forall|j: int| 0 <= j < k ==> candidates@[j].parent_id is Some,
        decreases candidates@.len() - k,
    {
        if candidates[k].parent_id.is_none() {
            proof {
                reveal(best_candidate);
                let c = candidates@;
                assert(0 <= k < c.len() && c[k as int].parent_id is None);
                let w = choose|w: int| 0 <= w < c.len() && c[w].parent_id is None && forall|j: int| 0 <= j < w ==> c[j].parent_id is Some;
                if w < k {
                    assert(c[w].parent_id is Some);
                }
                if w > k {
                    assert(c[k as int].parent_id is Some);
                }
            }
            return Some(k);
        }
        k = k + 1;
    }
    if candidates.len() > 0 {
        Some(0)
    } else {
        None
    }
}

/// The local symbol a reference from symbol `source` names: `source`
/// itself where it has that name, else the first innermost symbol of the name.
/// The first innermost local symbol named `name`: of those, the first with the smallest span.
#[verifier::opaque]
pub open spec fn innermost_named(local: Seq<InsertedSymbol>, name: Seq<char>) -> Option<i64> {
    if exists|k: int| 0 <= k < local.len() && local[k].name@ == name {
        let k = choose|k: int| {
            &&& 0 <= k < local.len()
            &&& local[k].name@ == name
            &&& forall|j: int| 0 <= j < local.len() && local[j].name@ == name ==> span(local[k]) <= span(local[j])
            &&& forall|j: int| 0 <= j < k && local[j].name@ == name ==> span(local[k]) < span(local[j])
        };
        Some(local[k].id)
    } else {
        None
    }
}

/// The local symbol a reference from symbol `source` names: `source`
/// itself where it has that name, else the first innermost symbol of the name.
pub open spec fn local_target(local: Seq<InsertedSymbol>, source: i64, name: Seq<char>) -> Option<i64> {
    if exists|k: int| 0 <= k < local.len() && local[k].name@ == name && local[k].id == source {
        Some(source)
    } else {
        innermost_named(local, name)
    }
}

/// The first candidate, outside the referring file, whose file `module` names.
#[verifier::opaque]
pub open spec fn module_target(module: Seq<char>, candidates: Seq<CandidateSymbol>, file_path: Seq<char>, name: Seq<char>) -> Option<i64> {
    if exists|c: int| 0 <= c < candidates.len() && module_matches(module, candidates[c].file_path@, name)
        && candidates[c].file_path@ != file_path {
        let c = choose|c: int| {
            &&& 0 <= c < candidates.len()
            &&& module_matches(module, candidates[c].file_path@, name)
            &&& candidates[c].file_path@ != file_path
            &&& forall|j: int| 0 <= j < c ==> !(module_matches(module, candidates[j].file_path@, name) && candidates[j].file_path@ != file_path)
        };
        Some(candidates[c].id)
    } else {
        None
    }
}

/// The candidate one import points at, if it concerns the name.
pub open spec fn import_points_at(imp: Import, candidates: Seq<CandidateSymbol>, file_path: Seq<char>, name: Seq<char>) -> Option<i64> {
    if import_relevant(views(imp.imported_names@), opt_view(imp.source_module), name) {
        match imp.source_module {
            Some(m) => module_target(m@, candidates, file_path, name),
            None => None,
        }
    } else {
        None
    }
}

/// The candidate the first import of `imports[from..]` that points at one points at.
pub open spec fn import_target(
    imports: Seq<Import>,
    from: int,
    candidates: Seq<CandidateSymbol>,
    file_path: Seq<char>,
    name: Seq<char>,
) -> Option<i64>
    decreases imports.len() - from,
{
    if from < 0 || from >= imports.len() {
        None
    } else {
        match import_points_at(imports[from], candidates, file_path, name) {
            Some(id) => Some(id),
            None => import_target(imports, from + 1, candidates, file_path, name),
        }
    }
}

/// What a reference resolves to: a local symbol of its name, else (where
/// stored symbols have the name) the one an import names, else the best
/// of them.
pub open spec fn reference_target(
    file_path: Seq<char>,
    source: i64,
    local: Seq<InsertedSymbol>,
    imports: Seq<Import>,
    name: Seq<char>,
    candidates: Seq<CandidateSymbol>,
) -> Option<i64> {
    match local_target(local, source, name) {
        Some(id) => Some(id),
        None => if candidates.len() == 0 {
            None
        } else {
            match import_target(imports, 0, candidates, file_path, name) {
                Some(id) => Some(id),
                None => match best_candidate(candidates) {
                    Some(k) => Some(candidates[k].id),
                    None => None,
                },
            }
        },
    }
}

fn innermost_named_of(local: &[InsertedSymbol], name: &str) -> (r: Option<i64>)
    ensures
        r == innermost_named(local@, name@),
{
    let mut best: Option<usize> = None;
    let mut i: usize = 0;
    while i < local.len()
        invariant
            i <= local@.len(),
            match best {
                Some(b) => {
                    &&& b < i
                    &&& local@[b as int].name@ == name@
                    &&& forall|j: int| 0 <= j < i && local@[j].name@ == name@ ==> span(local@[b as int]) <= span(local@[j])
                    &&& forall|j: int| 0 <= j < b && local@[j].name@ == name@ ==> span(local@[b as int]) < span(local@[j])
                },
                None => forall|j: int| 0 <= j < i ==> local@[j].name@ != name@,
            },
        decreases local@.len() - i,
    {
        let s = &local[i];
        if str_eq(s.name.as_str(), name) {
            match best {
                Some(b) => {
                    let bs = &local[b];
                    if (s.byte_end as i128 - s.byte_start as i128) < (bs.byte_end as i128 - bs.byte_start as i128) {
                        best = Some(i);
                    }
                },
                None => {
                    best = Some(i);
                },
            }
        }
        i = i + 1;
    }
    proof {
        reveal(innermost_named);
    }
    match best {
        Some(b) => {
            proof {
                let ss = local@;
                let bb = b as int;
                let k = choose|k: int| {
                    &&& 0 <= k < ss.len()
                    &&& ss[k].name@ == name@
                    &&& forall|j: int| 0 <= j < ss.len() && ss[j].name@ == name@ ==> span(ss[k]) <= span(ss[j])
                    &&& forall|j: int| 0 <= j < k && ss[j].name@ == name@ ==> span(ss[k]) < span(ss[j])
                };
                if k < bb {
                    assert(span(ss[bb]) < span(ss[k]));
                } else if k > bb {
                    assert(span(ss[k]) < span(ss[bb]));
                }
            }
            Some(local[b].id)
        },
        None => None,
    }
}

fn local_target_of(local: &[InsertedSymbol], source: i64, name: &str) -> (r: Option<i64>)
    ensures
        r == local_target(local@, source, name@),
{
    let mut i: usize = 0;
    while i < local.len()
        invariant
            i <= local@.len(),
            forall|j: int| 0 <= j < i ==> !(local@[j].name@ == name@ && local@[j].id == source),
        decreases local@.len() - i,
    {
        if local[i].id == source && str_eq(local[i].name.as_str(), name) {
            proof {
                assert(0 <= i < local@.len() && local@[i as int].name@ == name@ && local@[i as int].id == source);
            }
            return Some(source);
        }
        i = i + 1;
    }
    innermost_named_of(local, name)
}

fn module_candidate(module: &str, candidates: &[CandidateSymbol], file_path: &str, name: &str) -> (r: Option<i64>)
    ensures
        r == module_target(module@, candidates@, file_path@, name@),
{
    proof {
        reveal(module_target);
    }
    let mut c: usize = 0;
    while c < candidates.len()
        invariant
            c <= candidates@.len(),
            forall|j: int| 0 <= j < c ==> !(module_matches(module@, candidates@[j].file_path@, name@) && candidates@[j].file_path@ != file_path@),
        decreases candidates@.len() - c,
    {
        let cand = &candidates[c];
        if module_matches_file_path(module, cand.file_path.as_str(), name) && !str_eq(cand.file_path.as_str(), file_path) {
            proof {
                reveal(module_target);
                let cs = candidates@;
                assert(0 <= c < cs.len() && module_matches(module@, cs[c as int].file_path@, name@) && cs[c as int].file_path@ != file_path@);
                let w = choose|w: int| {
                    &&& 0 <= w < cs.len()
                    &&& module_matches(module@, cs[w].file_path@, name@)
                    &&& cs[w].file_path@ != file_path@
                    &&& forall|j: int| 0 <= j < w ==> !(module_matches(module@, cs[j].file_path@, name@) && cs[j].file_path@ != file_path@)
                };
                if w < c {
                    assert(!(module_matches(module@, cs[w].file_path@, name@) && cs[w].file_path@ != file_path@));
                }
                if w > c {
                    assert(!(module_matches(module@, cs[c as int].file_path@, name@) && cs[c as int].file_path@ != file_path@));
                }
            }
            return Some(cand.id);
        }
        c = c + 1;
    }
    None
}

fn import_candidate(imp: &Import, candidates: &[CandidateSymbol], file_path: &str, name: &str) -> (r: Option<i64>)
    ensures
        r == import_points_at(*imp, candidates@, file_path@, name@),
{
    if import_relevant_for_reference(imp, name) {
        match &imp.source_module {
            Some(m) => module_candidate(m.as_str(), candidates, file_path, name),
            None => None,
        }
    } else {
        None
    }
}

fn import_target_of(imports: &[Import], candidates: &[CandidateSymbol], file_path: &str, name: &str) -> (r: Option<i64>)
    ensures
        r == import_target(imports@, 0, candidates@, file_path@, name@),
{
    let mut q: usize = 0;
    while q < imports.len()
        invariant
            q <= imports@.len(),
            import_target(imports@, 0, candidates@, file_path@, name@) == import_target(imports@, q as int, candidates@, file_path@, name@),
        decreases imports@.len() - q,
    {
        match import_candidate(&imports[q], candidates, file_path, name) {
            Some(id) => return Some(id),
            None => {},
        }
        q = q + 1;
    }
    None
}

/// Resolve a reference from symbol `source` in `file_path` to the symbol it
/// names, given the file's own symbols and imports and the stored symbols
/// of that name.
pub fn resolve_reference_target(
    file_path: &str,
    source: i64,
    local: &[InsertedSymbol],
    imports: &[Import],
    name: &str,
    candidates: &[CandidateSymbol],
) -> (r: Option<i64>)
    ensures
        r == reference_target(file_path@, source, local@, imports@, name@, candidates@),
{
    match local_target_of(local, source, name) {
        Some(id) => return Some(id),
        None => {},
    }
    if candidates.len() == 0 {
        return None;
    }
    match import_target_of(imports, candidates, file_path, name) {
        Some(id) => return Some(id),
        None => {},
    }
    match pick_best_candidate(candidates) {
        Some(k) => Some(candidates[k].id),
        None => None,
    }
}

} // verus!
