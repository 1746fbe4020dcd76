//! Overviews of the indexed symbols: the directory tree, the per-file
//! summary, the full signature map, and the command-line symbol map. Each
//! grows file by file (or symbol by symbol) while it fits in a byte budget,
//! and ends with a marker where the next part no longer fits.
use vstd::prelude::*;
use crate::compressor::{file_order, file_set};
use crate::mcp::push_all;
use crate::store::{IndexStats, SymbolRecord};
use crate::text::{
    byte_len, concat, decimal, insert_sorted, lemma_concat_push, lemma_sorted_strict_unique, push_str, sorted_strict, str_eq,
    to_owned, usize_to_string, views,
};

verus! {

/// The distinct texts of `items`, in lexicographic order.
pub open spec fn sorted_set_of(items: Seq<Seq<char>>) -> Seq<Seq<char>> {
    choose|fs: Seq<Seq<char>>| sorted_strict(fs) && fs.to_set() == items.to_set()
}

proof fn lemma_sorted_set_of(fs: Seq<Seq<char>>, items: Seq<Seq<char>>)
    requires
        sorted_strict(fs),
        fs.to_set() == items.to_set(),
    ensures
        sorted_set_of(items) == fs,
{
    let c = sorted_set_of(items);
    assert(sorted_strict(c) && c.to_set() == items.to_set());
    lemma_sorted_strict_unique(fs, c);
}

/// The file of each symbol.
pub open spec fn paths_of(symbols: Seq<SymbolRecord>) -> Seq<Seq<char>> {
    symbols.map_values(|s: SymbolRecord| s.file_path@)
}

/// Where a block no longer fits: `trailer` is added if the text then
/// still fits in `max` bytes, else the text stays as it is.
pub open spec fn cut_short(out: Seq<char>, max: usize, trailer: Seq<char>) -> Seq<char> {
    if byte_len(out + trailer) <= max {
        out + trailer
    } else {
        out
    }
}

/// Text grown block by block while it fits in `max` bytes: at the first
/// block that would take it past `max`, the remaining blocks are left out
/// and the text is cut short with `trailer`.
pub open spec fn bounded(out: Seq<char>, blocks: Seq<Seq<char>>, max: usize, trailer: Seq<char>) -> Seq<char>
    decreases blocks.len(),
{
    if blocks.len() == 0 {
        out
    } else {
        let o = out + blocks[0];
        if byte_len(o) <= max {
            bounded(o, blocks.drop_first(), max, trailer)
        } else {
            cut_short(out, max, trailer)
        }
    }
}

/// `bounded` from a heading; where the heading alone passes `max` bytes,
/// only the trailer is left, or nothing if that does not fit either.
pub open spec fn within(start: Seq<char>, blocks: Seq<Seq<char>>, max: usize, trailer: Seq<char>) -> Seq<char> {
    if byte_len(start) <= max {
        bounded(start, blocks, max, trailer)
    } else {
        cut_short(seq![], max, trailer)
    }
}

proof fn lemma_bounded_step(out: Seq<char>, blocks: Seq<Seq<char>>, k: int, max: usize, trailer: Seq<char>)
    requires
        0 <= k < blocks.len(),
    ensures
        bounded(out, blocks.skip(k), max, trailer) == (if byte_len(out + blocks[k]) <= max {
            bounded(out + blocks[k], blocks.skip(k + 1), max, trailer)
        } else {
            cut_short(out, max, trailer)
        }),
{
    assert(blocks.skip(k).drop_first() =~= blocks.skip(k + 1));
    assert(blocks.skip(k)[0] == blocks[k]);
}

/// A text grown by `bounded` from one that fits in `max` bytes fits too.
pub proof fn lemma_bounded_fits(out: Seq<char>, blocks: Seq<Seq<char>>, max: usize, trailer: Seq<char>)
    requires
        byte_len(out) <= max,
    ensures
        byte_len(bounded(out, blocks, max, trailer)) <= max,
    decreases blocks.len(),
{
    if blocks.len() > 0 {
        let o = out + blocks[0];
        if byte_len(o) <= max {
            lemma_bounded_fits(o, blocks.drop_first(), max, trailer);
        }
    }
}

/// The text that `within` gives never passes `max` bytes.
pub proof fn lemma_within_fits(start: Seq<char>, blocks: Seq<Seq<char>>, max: usize, trailer: Seq<char>)
    ensures
        byte_len(within(start, blocks, max, trailer)) <= max,
{
    if byte_len(start) <= max {
        lemma_bounded_fits(start, blocks, max, trailer);
    } else {
        assert(vstd::utf8::encode_utf8(seq![]) =~= Seq::<u8>::empty());
        assert(Seq::<char>::empty() + trailer =~= trailer);
    }
}

/// Appends `block` if the text then still fits in `max` bytes; otherwise
/// cuts the text short with `trailer` and tells so.
fn push_block(out: &mut String, block: &str, max: usize, trailer: &str) -> (stop: bool)
    ensures
        stop == (byte_len(old(out)@ + block@) > max),
        final(out)@ == (if stop { cut_short(old(out)@, max, trailer@) } else { old(out)@ + block@ }),
{
    let mut grown = out.clone();
    push_str(&mut grown, block);
    if grown.as_str().len() <= max {
        *out = grown;
        false
    } else {
        let mut marked = out.clone();
        push_str(&mut marked, trailer);
        if marked.as_str().len() <= max {
            *out = marked;
        }
        true
    }
}

/// Starts a text from `start` where it fits in `max` bytes; where it does
/// not, the text is `trailer` if that fits, else empty. Tells whether the
/// start was kept.
fn start_within(start: String, max: usize, trailer: &str) -> (r: (String, bool))
    ensures
        r.1 == (byte_len(start@) <= max),
        r.1 ==> r.0@ == start@,
        !r.1 ==> r.0@ == cut_short(seq![], max, trailer@),
{
    if start.as_str().len() <= max {
        (start, true)
    } else {
        let mut out = String::new();
        let ghost empty = out@;
        push_str(&mut out, trailer);
        proof {
            assert(empty + trailer@ =~= trailer@);
        }
        if out.as_str().len() <= max {
            (out, false)
        } else {
            (String::new(), false)
        }
    }
}

/// The sorted distinct texts of a list, as a list of strings.
pub(crate) fn sorted_distinct(items: &Vec<String>) -> (r: Vec<String>)
    ensures
        views(r@) == sorted_set_of(views(items@)),
        sorted_strict(views(r@)),
        views(r@).to_set() == views(items@).to_set(),
{
    let mut v: Vec<String> = Vec::new();
    let mut i: usize = 0;
    proof {
        assert(views(v@).to_set() =~= views(items@.take(0)).to_set());
    }
    while i < items.len()
        invariant
            i <= items@.len(),
            sorted_strict(views(v@)),
            views(v@).to_set() == views(items@.take(i as int)).to_set(),
        decreases items@.len() - i,
    {
        insert_sorted(&mut v, items[i].as_str());
        proof {
            assert(views(items@.take(i + 1)) =~= views(items@.take(i as int)).push(items@[i as int]@));
            views(items@.take(i as int)).lemma_push_to_set_commute(items@[i as int]@);
        }
        i = i + 1;
    }
    proof {
        assert(items@.take(i as int) =~= items@);
        lemma_sorted_set_of(views(v@), views(items@));
    }
    v
}

/// The files of the symbols in path order, each once.
fn sorted_files(symbols: &[SymbolRecord]) -> (r: Vec<String>)
    ensures
        views(r@) == file_order(symbols@),
{
    let mut paths: Vec<String> = Vec::new();
    let mut i: usize = 0;
    while i < symbols.len()
        invariant
            i <= symbols@.len(),
            views(paths@) == paths_of(symbols@.take(i as int)),
        decreases symbols@.len() - i,
    {
        paths.push(to_owned(symbols[i].file_path.as_str()));
        proof {
            assert(paths_of(symbols@.take(i + 1)) =~= paths_of(symbols@.take(i as int)).push(symbols@[i as int].file_path@));
            assert(views(paths@) =~= paths_of(symbols@.take(i + 1)));
        }
        i = i + 1;
    }
    proof {
        assert(symbols@.take(i as int) =~= symbols@);
    }
    let r = sorted_distinct(&paths);
    proof {
        let c = file_order(symbols@);
        assert(sorted_strict(views(r@)) && views(r@).to_set() == file_set(symbols@));
        assert(sorted_strict(c) && c.to_set() == file_set(symbols@));
        lemma_sorted_strict_unique(views(r@), c);
    }
    r
}

// ─── Directory tree ──────────────────────────────────────────────────

/// The text of the parent of a path, as `Path::parent` and
/// `to_string_lossy` give it (`None` for a path with no parent).
pub uninterp spec fn spec_parent_text(path: Seq<char>) -> Option<Seq<char>>;

/// `Path::parent` of a path given as text, converted back to text. The
/// result is named by `spec_parent_text`: the component rules of
/// `std::path` are long.
#[verifier::external_body]
fn parent_text(path: &str) -> (r: Option<String>)
    ensures
        r matches Some(p) ==> spec_parent_text(path@) == Some(p@),
        r is None ==> spec_parent_text(path@) is None,
{
    match std::path::Path::new(path).parent() {
        Some(p) => Some(p.to_string_lossy().to_string()),
        None => None,
    }
}

/// The directory a file is listed under: its parent, or `.` where it has none.
pub open spec fn dir_of(path: Seq<char>) -> Seq<char> {
    match spec_parent_text(path) {
        Some(p) => p,
        None => "."@,
    }
}

fn dir_text(path: &str) -> (r: String)
    ensures
        r@ == dir_of(path@),
{
    match parent_text(path) {
        Some(p) => p,
        None => to_owned("."),
    }
}

/// The directory of each file.
pub open spec fn dirs_of(files: Seq<Seq<char>>) -> Seq<Seq<char>> {
    files.map_values(|f: Seq<char>| dir_of(f))
}

/// The directories of the files, in order, each once.
pub open spec fn dir_order(files: Seq<Seq<char>>) -> Seq<Seq<char>> {
    sorted_set_of(dirs_of(files))
}

pub open spec fn is_text(d: Seq<char>) -> spec_fn(Seq<char>) -> bool {
    |x: Seq<char>| x == d
}

pub open spec fn in_dir(d: Seq<char>) -> spec_fn(Seq<char>) -> bool {
    |f: Seq<char>| dir_of(f) == d
}

pub open spec fn top_in_dir(d: Seq<char>) -> spec_fn(SymbolRecord) -> bool {
    |s: SymbolRecord| s.parent_id is None && dir_of(s.file_path@) == d
}

/// How many of the files lie directly in `d`.
pub open spec fn files_in_dir(files: Seq<Seq<char>>, d: Seq<char>) -> nat {
    files.filter(in_dir(d)).len()
}

/// How many top-level symbols lie in files directly in `d`.
pub open spec fn top_level_in_dir(symbols: Seq<SymbolRecord>, d: Seq<char>) -> nat {
    symbols.filter(top_in_dir(d)).len()
}

/// The tree line of one directory.
pub open spec fn dir_line(symbols: Seq<SymbolRecord>, files: Seq<Seq<char>>, d: Seq<char>) -> Seq<char> {
    d + "/  ("@ + decimal(files_in_dir(files, d)) + " files, "@ + decimal(top_level_in_dir(symbols, d)) + " symbols)\n"@
}

/// The tree lines of the files' directories, in directory order.
pub open spec fn dir_lines(symbols: Seq<SymbolRecord>, files: Seq<Seq<char>>) -> Seq<Seq<char>> {
    dir_order(files).map_values(|d: Seq<char>| dir_line(symbols, files, d))
}

/// The first line of every overview.
pub open spec fn overview_header(stats: IndexStats) -> Seq<char> {
    "Codebase: "@ + decimal(stats.file_count as nat) + " files, "@ + decimal(stats.symbol_count as nat) + " symbols, "@
        + decimal(stats.import_count as nat) + " imports\n"@
}

/// The directory-tree overview.
pub open spec fn tree_overview(stats: IndexStats, symbols: Seq<SymbolRecord>, max: usize) -> Seq<char> {
    within(overview_header(stats) + "\n"@, dir_lines(symbols, file_order(symbols)), max, "... (truncated)\n"@)
}

fn header_text(stats: &IndexStats) -> (r: String)
    ensures
        r@ == overview_header(*stats),
{
    let a = usize_to_string(stats.file_count);
    let b = usize_to_string(stats.symbol_count);
    let c = usize_to_string(stats.import_count);
    let mut out = String::new();
    push_all(&mut out, &["Codebase: ", a.as_str(), " files, ", b.as_str(), " symbols, ", c.as_str(), " imports\n"]);
    proof {
        reveal_with_fuel(concat, 8);
        assert(out@ =~= overview_header(*stats));
    }
    out
}

/// How many entries of `dirs` equal `d`.
fn count_equal(dirs: &Vec<String>, d: &str) -> (n: usize)
    ensures
        n == views(dirs@).filter(is_text(d@)).len(),
{
    let mut n: usize = 0;
    let mut i: usize = 0;
    while i < dirs.len()
        invariant
            i <= dirs@.len(),
            n == views(dirs@.take(i as int)).filter(is_text(d@)).len(),
            n <= i,
        decreases dirs@.len() - i,
    {
        proof {
            assert(views(dirs@.take(i + 1)) =~= views(dirs@.take(i as int)).push(dirs@[i as int]@));
            views(dirs@.take(i as int)).lemma_filter_push(dirs@[i as int]@, is_text(d@));
        }
        let eq = str_eq(dirs[i].as_str(), d);
        proof {
            let e = dirs@[i as int]@;
            assert(views(dirs@.take(i as int)).push(e).filter(is_text(d@)).len() == views(dirs@.take(i as int)).filter(is_text(d@)).len() + (if eq { 1int } else { 0int }));
        }
        if eq {
            n = n + 1;
        }
        i = i + 1;
    }
    proof {
        assert(dirs@.take(i as int) =~= dirs@);
    }
    n
}

/// How many top-level symbols lie in a file whose directory is `d`, given
/// the directory of each symbol's file.
fn count_top_in_dir(symbols: &[SymbolRecord], sym_dirs: &Vec<String>, d: &str) -> (n: usize)
    requires
        sym_dirs@.len() == symbols@.len(),
        forall|k: int| 0 <= k < symbols@.len() ==> #[trigger] sym_dirs@[k]@ == dir_of(symbols@[k].file_path@),
    ensures
        n == top_level_in_dir(symbols@, d@),
{
    let mut n: usize = 0;
    let mut i: usize = 0;
    while i < symbols.len()
        invariant
            i <= symbols@.len(),
            sym_dirs@.len() == symbols@.len(),
            forall|k: int| 0 <= k < symbols@.len() ==> #[trigger] sym_dirs@[k]@ == dir_of(symbols@[k].file_path@),
            n == symbols@.take(i as int).filter(top_in_dir(d@)).len(),
            n <= i,
        decreases symbols@.len() - i,
    {
        proof {
            assert(symbols@.take(i + 1) =~= symbols@.take(i as int).push(symbols@[i as int]));
            symbols@.take(i as int).lemma_filter_push(symbols@[i as int], top_in_dir(d@));
            assert(sym_dirs@[i as int]@ == dir_of(symbols@[i as int].file_path@));
        }
        if symbols[i].parent_id.is_none() && str_eq(sym_dirs[i].as_str(), d) {
            n = n + 1;
        }
        i = i + 1;
    }
    proof {
        assert(symbols@.take(i as int) =~= symbols@);
    }
    n
}

fn tree_text(stats: &IndexStats, symbols: &[SymbolRecord], max_chars: usize) -> (r: String)
    ensures
        r@ == tree_overview(*stats, symbols@, max_chars),
{
    let files = sorted_files(symbols);
    let ghost fs = views(files@);
    // The directory of each file, and of each symbol's file.
    let mut file_dirs: Vec<String> = Vec::new();
    let mut i: usize = 0;
    while i < files.len()
        invariant
            i <= files@.len(),
            views(file_dirs@) == dirs_of(views(files@.take(i as int))),
        decreases files@.len() - i,
    {
        file_dirs.push(dir_text(files[i].as_str()));
        proof {
            assert(views(files@.take(i + 1)) =~= views(files@.take(i as int)).push(files@[i as int]@));
            assert(dirs_of(views(files@.take(i + 1))) =~= dirs_of(views(files@.take(i as int))).push(dir_of(files@[i as int]@)));
            assert(views(file_dirs@) =~= dirs_of(views(files@.take(i + 1))));
        }
        i = i + 1;
    }
    proof {
        assert(files@.take(i as int) =~= files@);
    }
    let mut sym_dirs: Vec<String> = Vec::new();
    let mut j: usize = 0;
    while j < symbols.len()
        invariant
            j <= symbols@.len(),
            sym_dirs@.len() == j,
            forall|k: int| 0 <= k < j ==> #[trigger] sym_dirs@[k]@ == dir_of(symbols@[k].file_path@),
        decreases symbols@.len() - j,
    {
        sym_dirs.push(dir_text(symbols[j].file_path.as_str()));
        j = j + 1;
    }
    let dirs = sorted_distinct(&file_dirs);
    let ghost blocks = dir_lines(symbols@, fs);
    let mut head = header_text(stats);
    push_str(&mut head, "\n");
    let ghost start = head@;
    let (mut out, kept) = start_within(head, max_chars, "... (truncated)\n");
    if !kept {
        return out;
    }
    let mut k: usize = 0;
    proof {
        assert(blocks.skip(0) =~= blocks);
    }
    while k < dirs.len()
        invariant
            k <= dirs@.len(),
            views(dirs@) == dir_order(fs),
            blocks.len() == dirs@.len(),
            blocks == dir_lines(symbols@, fs),
            fs == file_order(symbols@),
            start == overview_header(*stats) + "\n"@,
            byte_len(start) <= max_chars,
            views(file_dirs@) == dirs_of(fs),
            sym_dirs@.len() == symbols@.len(),
            forall|m: int| 0 <= m < symbols@.len() ==> #[trigger] sym_dirs@[m]@ == dir_of(symbols@[m].file_path@),
            bounded(start, blocks, max_chars, "... (truncated)\n"@) == bounded(out@, blocks.skip(k as int), max_chars, "... (truncated)\n"@),
        decreases dirs@.len() - k,
    {
        let d = dirs[k].as_str();
        let nf = count_equal(&file_dirs, d);
        let ns = count_top_in_dir(symbols, &sym_dirs, d);
        let a = usize_to_string(nf);
        let b = usize_to_string(ns);
        let mut line = String::new();
        push_all(&mut line, &[d, "/  (", a.as_str(), " files, ", b.as_str(), " symbols)\n"]);
        proof {
            reveal_with_fuel(concat, 7);
            lemma_filter_map_len(fs, d@);
            assert(line@ =~= blocks[k as int]);
        }
        let ghost before = out@;
        proof {
            lemma_bounded_step(before, blocks, k as int, max_chars, "... (truncated)\n"@);
        }
        if push_block(&mut out, line.as_str(), max_chars, "... (truncated)\n") {
            return out;
        }
        k = k + 1;
    }
    proof {
        assert(blocks.skip(k as int) =~= Seq::<Seq<char>>::empty());
    }
    out
}

/// Filtering the directories of the files by `d` keeps as many as filtering
/// the files by their directory.
proof fn lemma_filter_map_len(fs: Seq<Seq<char>>, d: Seq<char>)
    ensures
        dirs_of(fs).filter(is_text(d)).len() == fs.filter(in_dir(d)).len(),
    decreases fs.len(),
{
    if fs.len() > 0 {
        lemma_filter_map_len(fs.drop_last(), d);
        assert(fs =~= fs.drop_last().push(fs.last()));
        assert(dirs_of(fs) =~= dirs_of(fs.drop_last()).push(dir_of(fs.last())));
        dirs_of(fs.drop_last()).lemma_filter_push(dir_of(fs.last()), is_text(d));
        fs.drop_last().lemma_filter_push(fs.last(), in_dir(d));
    } else {
        assert(dirs_of(fs) =~= Seq::<Seq<char>>::empty());
        reveal(Seq::filter);
    }
}


// ─── Summary and full overviews ──────────────────────────────────────

/// The visibility mark of the summaries: `+` public, `-` private, `~` else.
pub open spec fn vis_mark(v: Seq<char>) -> Seq<char> {
    if v == "public"@ {
        "+"@
    } else if v == "private"@ {
        "-"@
    } else {
        "~"@
    }
}

/// The short word the summaries show for a kind of symbol.
pub open spec fn kind_mark(k: Seq<char>) -> Seq<char> {
    if k == "function"@ {
        "fn"@
    } else if k == "class"@ {
        "class"@
    } else if k == "method"@ {
        "  fn"@
    } else if k == "type"@ {
        "type"@
    } else if k == "const"@ {
        "const"@
    } else if k == "interface"@ {
        "iface"@
    } else if k == "module"@ {
        "mod"@
    } else {
        ""@
    }
}

/// One of the symbol kinds the overview marks.
pub open spec fn known_kind(k: Seq<char>) -> bool {
    k == "function"@ || k == "class"@ || k == "method"@ || k == "type"@ || k == "const"@ || k == "interface"@
        || k == "module"@
}

/// Each known kind gets a mark of its own, and no other kind gets one:
/// two different known kinds never share a mark, only `function` is
/// marked `fn`, a class, a type and a constant are marked by their own
/// kind's word, a method by an indented `fn`, an interface by `iface`, a
/// module by `mod`, and an unknown kind by nothing.
pub proof fn lemma_kind_marks(k1: Seq<char>, k2: Seq<char>)
    ensures
        known_kind(k1) && known_kind(k2) && k1 != k2 ==> kind_mark(k1) != kind_mark(k2),
        kind_mark(k1) == "fn"@ <==> k1 == "function"@,
        kind_mark("class"@) == "class"@,
        kind_mark("type"@) == "type"@,
        kind_mark("const"@) == "const"@,
        kind_mark("function"@) == "fn"@,
        kind_mark("method"@) == "  fn"@,
        kind_mark("interface"@) == "iface"@,
        kind_mark("module"@) == "mod"@,
        known_kind(k1) <==> kind_mark(k1).len() > 0,
{
    reveal_strlit("function");
    reveal_strlit("class");
    reveal_strlit("method");
    reveal_strlit("type");
    reveal_strlit("const");
    reveal_strlit("interface");
    reveal_strlit("module");
    reveal_strlit("fn");
    reveal_strlit("  fn");
    reveal_strlit("iface");
    reveal_strlit("mod");
    reveal_strlit("");
    assert("function"@.len() == 8 && "function"@[0] == 'f');
    assert("class"@.len() == 5 && "class"@[0] == 'c');
    assert("method"@.len() == 6 && "method"@[0] == 'm');
    assert("type"@.len() == 4 && "type"@[0] == 't');
    assert("const"@.len() == 5 && "const"@[0] == 'c' && "const"@[1] == 'o');
    assert("interface"@.len() == 9 && "interface"@[0] == 'i');
    assert("module"@.len() == 6 && "module"@[0] == 'm' && "module"@[1] == 'o');
    assert("fn"@.len() == 2 && "fn"@[0] == 'f');
    assert("  fn"@.len() == 4 && "  fn"@[0] == ' ');
    assert("iface"@.len() == 5 && "iface"@[0] == 'i');
    assert("mod"@.len() == 3 && "mod"@[0] == 'm');
    assert("class"@[1] == 'l');
    assert("method"@[1] == 'e');
}

fn vis_mark_text(v: &str) -> (r: &'static str)
    ensures
        r@ == vis_mark(v@),
{
    if str_eq(v, "public") {
        "+"
    } else if str_eq(v, "private") {
        "-"
    } else {
        "~"
    }
}

fn kind_mark_text(k: &str) -> (r: &'static str)
    ensures
        r@ == kind_mark(k@),
{
    if str_eq(k, "function") {
        "fn"
    } else if str_eq(k, "class") {
        "class"
    } else if str_eq(k, "method") {
        "  fn"
    } else if str_eq(k, "type") {
        "type"
    } else if str_eq(k, "const") {
        "const"
    } else if str_eq(k, "interface") {
        "iface"
    } else if str_eq(k, "module") {
        "mod"
    } else {
        ""
    }
}

/// A top-level symbol of file `f`.
pub open spec fn top_in_file(f: Seq<char>) -> spec_fn(SymbolRecord) -> bool {
    |s: SymbolRecord| s.file_path@ == f && s.parent_id is None
}

/// A symbol of file `f` whose parent is the symbol `id`.
pub open spec fn child_in_file(f: Seq<char>, id: i64) -> spec_fn(SymbolRecord) -> bool {
    |s: SymbolRecord| s.file_path@ == f && s.parent_id == Some(id)
}

/// The summary line of a member.
pub open spec fn member_line(c: SymbolRecord) -> Seq<char> {
    "    "@ + vis_mark(c.visibility@) + " fn "@ + c.name@ + "\n"@
}

/// The summary lines of members, in order.
pub open spec fn member_lines(cs: Seq<SymbolRecord>) -> Seq<char>
    decreases cs.len(),
{
    if cs.len() == 0 {
        seq![]
    } else {
        member_lines(cs.drop_last()) + member_line(cs.last())
    }
}

/// The full line of a member: its signature.
pub open spec fn signature_line(c: SymbolRecord) -> Seq<char> {
    "    "@ + c.signature@ + "\n"@
}

/// The full lines of members, in order.
pub open spec fn signature_lines(cs: Seq<SymbolRecord>) -> Seq<char>
    decreases cs.len(),
{
    if cs.len() == 0 {
        seq![]
    } else {
        signature_lines(cs.drop_last()) + signature_line(cs.last())
    }
}

/// The summary of a top-level symbol: its mark line and, for a class, its
/// members.
pub open spec fn summary_entry(symbols: Seq<SymbolRecord>, s: SymbolRecord) -> Seq<char> {
    "  "@ + vis_mark(s.visibility@) + " "@ + kind_mark(s.kind@) + " "@ + s.name@ + "\n"@ + (if s.kind@ == "class"@ {
        member_lines(symbols.filter(child_in_file(s.file_path@, s.id)))
    } else {
        seq![]
    })
}

/// The full entry of a top-level symbol: its signature and its members'.
pub open spec fn full_entry(symbols: Seq<SymbolRecord>, s: SymbolRecord) -> Seq<char> {
    "  "@ + s.signature@ + "\n"@ + signature_lines(symbols.filter(child_in_file(s.file_path@, s.id)))
}

/// The entries of the top-level symbols `tops`, in order, summary or full.
pub open spec fn entries(symbols: Seq<SymbolRecord>, tops: Seq<SymbolRecord>, full: bool) -> Seq<char>
    decreases tops.len(),
{
    if tops.len() == 0 {
        seq![]
    } else {
        entries(symbols, tops.drop_last(), full) + (if full {
            full_entry(symbols, tops.last())
        } else {
            summary_entry(symbols, tops.last())
        })
    }
}

/// The block of one file in the summary or the full overview.
pub open spec fn file_block(symbols: Seq<SymbolRecord>, f: Seq<char>, full: bool) -> Seq<char> {
    "\n"@ + f + ":\n"@ + entries(symbols, symbols.filter(top_in_file(f)), full)
}

/// The blocks of the files, in file order.
pub open spec fn file_blocks(symbols: Seq<SymbolRecord>, files: Seq<Seq<char>>, full: bool) -> Seq<Seq<char>> {
    files.map_values(|f: Seq<char>| file_block(symbols, f, full))
}

/// The summary (`full` false) or the full overview.
pub open spec fn file_overview(stats: IndexStats, symbols: Seq<SymbolRecord>, max: usize, full: bool) -> Seq<char> {
    within(overview_header(stats), file_blocks(symbols, file_order(symbols), full), max, "\n... (truncated)\n"@)
}

/// What `map_overview` answers for a level of detail: `tree`, `summary`,
/// or anything else for the full signatures.
pub open spec fn map_overview(stats: IndexStats, symbols: Seq<SymbolRecord>, max: usize, detail: Seq<char>) -> Seq<char> {
    if symbols.len() == 0 {
        "No symbols indexed. Run `forgeindex reindex` first."@
    } else if detail == "tree"@ {
        tree_overview(stats, symbols, max)
    } else if detail == "summary"@ {
        file_overview(stats, symbols, max, false)
    } else {
        file_overview(stats, symbols, max, true)
    }
}

/// The member lines (summary or full) of the symbols of file `f` under `id`.
fn member_lines_text(symbols: &[SymbolRecord], f: &str, id: i64, full: bool) -> (r: String)
    ensures
        full ==> r@ == signature_lines(symbols@.filter(child_in_file(f@, id))),
        !full ==> r@ == member_lines(symbols@.filter(child_in_file(f@, id))),
{
    let mut out = String::new();
    let mut i: usize = 0;
    while i < symbols.len()
        invariant
            i <= symbols@.len(),
            full ==> out@ == signature_lines(symbols@.take(i as int).filter(child_in_file(f@, id))),
            !full ==> out@ == member_lines(symbols@.take(i as int).filter(child_in_file(f@, id))),
        decreases symbols@.len() - i,
    {
        let c = &symbols[i];
        let ghost before = symbols@.take(i as int).filter(child_in_file(f@, id));
        proof {
            assert(symbols@.take(i + 1) =~= symbols@.take(i as int).push(*c));
            symbols@.take(i as int).lemma_filter_push(*c, child_in_file(f@, id));
            assert(before.push(*c).drop_last() =~= before);
        }
        let under = match c.parent_id {
            Some(p) => p == id,
            None => false,
        };
        if under && str_eq(c.file_path.as_str(), f) {
            if full {
                push_all(&mut out, &["    ", c.signature.as_str(), "\n"]);
            } else {
                push_all(&mut out, &["    ", vis_mark_text(c.visibility.as_str()), " fn ", c.name.as_str(), "\n"]);
            }
            proof {
                reveal_with_fuel(concat, 6);
                if full {
                    assert(out@ =~= signature_lines(before) + signature_line(*c));
                } else {
                    assert(out@ =~= member_lines(before) + member_line(*c));
                }
            }
        }
        i = i + 1;
    }
    proof {
        assert(symbols@.take(i as int) =~= symbols@);
    }
    out
}

/// The summary or full entry of a top-level symbol.
fn entry_text(symbols: &[SymbolRecord], s: &SymbolRecord, full: bool) -> (r: String)
    ensures
        full ==> r@ == full_entry(symbols@, *s),
        !full ==> r@ == summary_entry(symbols@, *s),
{
    let mut out = String::new();
    if full {
        push_all(&mut out, &["  ", s.signature.as_str(), "\n"]);
        let m = member_lines_text(symbols, s.file_path.as_str(), s.id, true);
        push_str(&mut out, m.as_str());
        proof {
            reveal_with_fuel(concat, 4);
            assert(out@ =~= full_entry(symbols@, *s));
        }
    } else {
        push_all(&mut out, &["  ", vis_mark_text(s.visibility.as_str()), " ", kind_mark_text(s.kind.as_str()), " ", s.name.as_str(), "\n"]);
        let ghost head = out@;
        if str_eq(s.kind.as_str(), "class") {
            let m = member_lines_text(symbols, s.file_path.as_str(), s.id, false);
            push_str(&mut out, m.as_str());
        }
        proof {
            reveal_with_fuel(concat, 8);
            assert(head =~= "  "@ + vis_mark(s.visibility@) + " "@ + kind_mark(s.kind@) + " "@ + s.name@ + "\n"@);
            assert(out@ =~= summary_entry(symbols@, *s));
        }
    }
    out
}

/// The block of file `f`, summary or full.
fn file_block_text(symbols: &[SymbolRecord], f: &str, full: bool) -> (r: String)
    ensures
        r@ == file_block(symbols@, f@, full),
{
    let mut out = String::new();
    push_all(&mut out, &["\n", f, ":\n"]);
    let ghost head = out@;
    proof {
        reveal_with_fuel(concat, 4);
    }
    let mut i: usize = 0;
    while i < symbols.len()
        invariant
            i <= symbols@.len(),
            head == "\n"@ + f@ + ":\n"@,
            out@ == head + entries(symbols@, symbols@.take(i as int).filter(top_in_file(f@)), full),
        decreases symbols@.len() - i,
    {
        let s = &symbols[i];
        let ghost before = symbols@.take(i as int).filter(top_in_file(f@));
        proof {
            assert(symbols@.take(i + 1) =~= symbols@.take(i as int).push(*s));
            symbols@.take(i as int).lemma_filter_push(*s, top_in_file(f@));
            assert(before.push(*s).drop_last() =~= before);
        }
        if s.parent_id.is_none() && str_eq(s.file_path.as_str(), f) {
            let e = entry_text(symbols, s, full);
            push_str(&mut out, e.as_str());
            proof {
                assert(out@ =~= head + entries(symbols@, before.push(*s), full));
            }
        }
        i = i + 1;
    }
    proof {
        assert(symbols@.take(i as int) =~= symbols@);
    }
    out
}

/// The summary (`full` false) or full overview.
fn file_overview_text(stats: &IndexStats, symbols: &[SymbolRecord], max_chars: usize, full: bool) -> (r: String)
    ensures
        r@ == file_overview(*stats, symbols@, max_chars, full),
{
    let files = sorted_files(symbols);
    let ghost fs = views(files@);
    let ghost blocks = file_blocks(symbols@, fs, full);
    let head = header_text(stats);
    let ghost start = head@;
    let (mut out, kept) = start_within(head, max_chars, "\n... (truncated)\n");
    if !kept {
        return out;
    }
    let mut k: usize = 0;
    proof {
        assert(blocks.skip(0) =~= blocks);
    }
    while k < files.len()
        invariant
            k <= files@.len(),
            fs == views(files@),
            fs == file_order(symbols@),
            blocks == file_blocks(symbols@, fs, full),
            start == overview_header(*stats),
            byte_len(start) <= max_chars,
            bounded(start, blocks, max_chars, "\n... (truncated)\n"@) == bounded(out@, blocks.skip(k as int), max_chars, "\n... (truncated)\n"@),
        decreases files@.len() - k,
    {
        let block = file_block_text(symbols, files[k].as_str(), full);
        let ghost before = out@;
        proof {
            assert(block@ == blocks[k as int]);
            lemma_bounded_step(before, blocks, k as int, max_chars, "\n... (truncated)\n"@);
        }
        if push_block(&mut out, block.as_str(), max_chars, "\n... (truncated)\n") {
            return out;
        }
        k = k + 1;
    }
    proof {
        assert(blocks.skip(k as int) =~= Seq::<Seq<char>>::empty());
    }
    out
}

/// What `map_overview` answers: a directory tree (`detail` `tree`), file
/// paths with their symbols' names (`summary`), or with their signatures
/// (anything else), as far as the text fits in `max_chars` bytes; where a
/// file or directory no longer fits, a marker ends the text if it fits too.
pub fn map_overview_answer(stats: &IndexStats, symbols: &[SymbolRecord], max_chars: usize, detail: &str) -> (r: String)
    ensures
        r@ == map_overview(*stats, symbols@, max_chars, detail@),
        symbols@.len() > 0 ==> byte_len(r@) <= max_chars,
{
    proof {
        let st = *stats;
        let ss = symbols@;
        lemma_within_fits(overview_header(st) + "\n"@, dir_lines(ss, file_order(ss)), max_chars, "... (truncated)\n"@);
        lemma_within_fits(overview_header(st), file_blocks(ss, file_order(ss), false), max_chars, "\n... (truncated)\n"@);
        lemma_within_fits(overview_header(st), file_blocks(ss, file_order(ss), true), max_chars, "\n... (truncated)\n"@);
    }
    if symbols.len() == 0 {
        to_owned("No symbols indexed. Run `forgeindex reindex` first.")
    } else if str_eq(detail, "tree") {
        tree_text(stats, symbols, max_chars)
    } else if str_eq(detail, "summary") {
        file_overview_text(stats, symbols, max_chars, false)
    } else {
        file_overview_text(stats, symbols, max_chars, true)
    }
}

// ─── The command-line symbol map ─────────────────────────────────────

/// A top-level symbol.
pub open spec fn is_top() -> spec_fn(SymbolRecord) -> bool {
    |s: SymbolRecord| s.parent_id is None
}

/// A symbol, in any file, whose parent is the symbol `id`.
pub open spec fn child_of(id: i64) -> spec_fn(SymbolRecord) -> bool {
    |c: SymbolRecord| c.parent_id == Some(id)
}

/// The part of the symbol map for the top-level symbol `s`: a file heading
/// where its file is not `prev` (the file of the top-level symbol before
/// it), its mark line, and its members' lines.
pub open spec fn map_block(symbols: Seq<SymbolRecord>, prev: Seq<char>, s: SymbolRecord) -> Seq<char> {
    (if s.file_path@ != prev {
        "\n"@ + s.file_path@ + ":\n"@
    } else {
        seq![]
    }) + "  "@ + vis_mark(s.visibility@) + " "@ + kind_mark(s.kind@) + " "@ + s.name@ + "\n"@ + member_lines(
        symbols.filter(child_of(s.id)),
    )
}

/// The file before the `k`-th top-level symbol, the empty text at first.
pub open spec fn prev_file(tops: Seq<SymbolRecord>, k: int) -> Seq<char> {
    if k == 0 {
        ""@
    } else {
        tops[k - 1].file_path@
    }
}

/// The parts of the symbol map, one per top-level symbol.
pub open spec fn map_blocks(symbols: Seq<SymbolRecord>) -> Seq<Seq<char>> {
    let tops = symbols.filter(is_top());
    Seq::new(tops.len(), |k: int| map_block(symbols, prev_file(tops, k), tops[k]))
}

/// The symbol map of the `map` command.
pub open spec fn symbol_map_of(symbols: Seq<SymbolRecord>, max: usize) -> Seq<char> {
    bounded(""@, map_blocks(symbols), max, "\n... (truncated)\n"@)
}

fn children_lines_text(symbols: &[SymbolRecord], id: i64) -> (r: String)
    ensures
        r@ == member_lines(symbols@.filter(child_of(id))),
{
    let mut out = String::new();
    let mut i: usize = 0;
    while i < symbols.len()
        invariant
            i <= symbols@.len(),
            out@ == member_lines(symbols@.take(i as int).filter(child_of(id))),
        decreases symbols@.len() - i,
    {
        let c = &symbols[i];
        let ghost before = symbols@.take(i as int).filter(child_of(id));
        proof {
            assert(symbols@.take(i + 1) =~= symbols@.take(i as int).push(*c));
            symbols@.take(i as int).lemma_filter_push(*c, child_of(id));
            assert(before.push(*c).drop_last() =~= before);
        }
        let under = match c.parent_id {
            Some(p) => p == id,
            None => false,
        };
        if under {
            push_all(&mut out, &["    ", vis_mark_text(c.visibility.as_str()), " fn ", c.name.as_str(), "\n"]);
            proof {
                reveal_with_fuel(concat, 6);
                assert(out@ =~= member_lines(before) + member_line(*c));
            }
        }
        i = i + 1;
    }
    proof {
        assert(symbols@.take(i as int) =~= symbols@);
    }
    out
}

/// The symbol map the `map` command prints: each top-level symbol with its
/// visibility and kind marks under a heading for its file, then its members,
/// as far as the text fits in `max_chars` bytes; where a symbol no longer
/// fits, a marker ends the text if it fits too. Empty where there is no
/// top-level symbol.
pub fn symbol_map(symbols: &[SymbolRecord], max_chars: usize) -> (r: String)
    ensures
        r@ == symbol_map_of(symbols@, max_chars),
        byte_len(r@) <= max_chars,
{
    proof {
        reveal_strlit("");
        assert(vstd::utf8::encode_utf8(""@) =~= Seq::<u8>::empty());
        lemma_bounded_fits(""@, map_blocks(symbols@), max_chars, "\n... (truncated)\n"@);
    }
    let ghost tops = symbols@.filter(is_top());
    let ghost blocks = map_blocks(symbols@);
    let mut out = String::new();
    let mut current = String::new();
    let mut k: usize = 0;
    let mut i: usize = 0;
    proof {
        reveal_strlit("");
        assert(out@ =~= ""@);
        assert(blocks.skip(0) =~= blocks);
        assert(symbols@.take(0).filter(is_top()) =~= tops.take(0)) by {
            reveal(Seq::filter);
        }
    }
    while i < symbols.len()
        invariant
            i <= symbols@.len(),
            tops == symbols@.filter(is_top()),
            blocks == map_blocks(symbols@),
            k <= tops.len(),
            symbols@.take(i as int).filter(is_top()) == tops.take(k as int),
            current@ == prev_file(tops, k as int),
            bounded(""@, blocks, max_chars, "\n... (truncated)\n"@) == bounded(out@, blocks.skip(k as int), max_chars, "\n... (truncated)\n"@),
            byte_len(bounded(""@, blocks, max_chars, "\n... (truncated)\n"@)) <= max_chars,
        decreases symbols@.len() - i,
    {
        let s = &symbols[i];
        proof {
            assert(symbols@.take(i + 1) =~= symbols@.take(i as int).push(*s));
            symbols@.take(i as int).lemma_filter_push(*s, is_top());
        }
        if s.parent_id.is_none() {
            proof {
                assert(symbols@ =~= symbols@.take(i + 1) + symbols@.skip(i + 1));
                Seq::filter_distributes_over_add(symbols@.take(i + 1), symbols@.skip(i + 1), is_top());
                assert(tops =~= tops.take(k as int).push(*s) + symbols@.skip(i + 1).filter(is_top()));
                assert(tops[k as int] == *s);
                assert(tops.take(k + 1) =~= tops.take(k as int).push(*s));
            }
            let mut block = String::new();
            if !str_eq(s.file_path.as_str(), current.as_str()) {
                push_all(&mut block, &["\n", s.file_path.as_str(), ":\n"]);
                current = to_owned(s.file_path.as_str());
            }
            let ghost head = block@;
            push_all(&mut block, &["  ", vis_mark_text(s.visibility.as_str()), " ", kind_mark_text(s.kind.as_str()), " ", s.name.as_str(), "\n"]);
            let m = children_lines_text(symbols, s.id);
            push_str(&mut block, m.as_str());
            proof {
                reveal_with_fuel(concat, 8);
                assert(block@ =~= map_block(symbols@, prev_file(tops, k as int), tops[k as int]));
                assert(blocks[k as int] == map_block(symbols@, prev_file(tops, k as int), tops[k as int]));
                lemma_bounded_step(out@, blocks, k as int, max_chars, "\n... (truncated)\n"@);
            }
            if push_block(&mut out, block.as_str(), max_chars, "\n... (truncated)\n") {
                return out;
            }
            k = k + 1;
        }
        i = i + 1;
    }
    proof {
        assert(symbols@.take(i as int) =~= symbols@);
        assert(tops.take(k as int).len() == k);
        assert(blocks.skip(k as int) =~= Seq::<Seq<char>>::empty());
    }
    out
}

} // verus!
