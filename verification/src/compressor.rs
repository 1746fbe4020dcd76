//! Token compression: skeleton views, budgeted selection and repository packing.
use vstd::prelude::*;
use std::collections::BTreeMap;
use crate::store::SymbolRecord;
use crate::text::{byte_len, join_lines, to_owned, insert_sorted, lemma_sorted_strict_unique, lex_lt, lemma_lex_total, lemma_lex_transitive, lemma_lex_irreflexive, sorted_strict, lines, push_str, split_lines, starts_with, str_eq, str_starts_with, trim, trim_str, chars_of, is_alphanumeric, is_uppercase, lowercase, push_char, spec_is_alphanumeric, spec_is_uppercase, spec_lowercase, views, all_ascii, ascii_alphanumeric, ascii_uppercase, ascii_lower};

verus! {

/// Tokens estimated for a text of `n` bytes: four bytes a token, rounded up.
pub open spec fn token_estimate(n: nat) -> nat {
    (n + 3) / 4
}

/// Tokens estimated for a text.
pub open spec fn text_tokens(s: Seq<char>) -> nat {
    token_estimate(byte_len(s))
}

/// Estimate token count: about four bytes per token for code.
pub fn estimate_tokens(text: &str) -> (r: usize)
    ensures
        r == text_tokens(text@),
{
    let n = text.len();
    if n % 4 == 0 {
        n / 4
    } else {
        n / 4 + 1
    }
}

// ─── Tokenizing ─────────────────────────────────────────────────────

/// Scanning state after reading `s`: the finished raw terms and the term
/// being read. A term ends at a character that is not alphanumeric, and an
/// uppercase letter starts a new term (camelCase).
pub open spec fn scan_terms(s: Seq<char>) -> (Seq<Seq<char>>, Seq<char>)
    decreases s.len(),
{
    if s.len() == 0 {
        (seq![], seq![])
    } else {
        let prev = scan_terms(s.drop_last());
        let c = s.last();
        if spec_is_alphanumeric(c) {
            if spec_is_uppercase(c) && prev.1.len() > 0 {
                (prev.0.push(prev.1), seq![c])
            } else {
                (prev.0, prev.1.push(c))
            }
        } else if prev.1.len() > 0 {
            (prev.0.push(prev.1), seq![])
        } else {
            prev
        }
    }
}

/// All raw terms of `s`, in order.
pub open spec fn raw_terms(s: Seq<char>) -> Seq<Seq<char>> {
    let st = scan_terms(s);
    if st.1.len() > 0 {
        st.0.push(st.1)
    } else {
        st.0
    }
}

/// Lowercased terms, each kept when it is at least two bytes long.
pub open spec fn long_lowercase(ts: Seq<Seq<char>>) -> Seq<Seq<char>>
    decreases ts.len(),
{
    if ts.len() == 0 {
        seq![]
    } else {
        let rest = long_lowercase(ts.drop_last());
        let t = spec_lowercase(ts.last());
        if byte_len(t) >= 2 {
            rest.push(t)
        } else {
            rest
        }
    }
}

/// The search terms of a text.
pub open spec fn terms(s: Seq<char>) -> Seq<Seq<char>> {
    long_lowercase(raw_terms(s))
}

/// `scan_terms` for an ASCII text, with the ASCII letters and digits and
/// the ASCII uppercase letters.
pub open spec fn ascii_scan_terms(s: Seq<char>) -> (Seq<Seq<char>>, Seq<char>)
    decreases s.len(),
{
    if s.len() == 0 {
        (seq![], seq![])
    } else {
        let prev = ascii_scan_terms(s.drop_last());
        let c = s.last();
        if ascii_alphanumeric(c) {
            if ascii_uppercase(c) && prev.1.len() > 0 {
                (prev.0.push(prev.1), seq![c])
            } else {
                (prev.0, prev.1.push(c))
            }
        } else if prev.1.len() > 0 {
            (prev.0.push(prev.1), seq![])
        } else {
            prev
        }
    }
}

/// `long_lowercase` with the ASCII lowercase.
pub open spec fn ascii_long_lowercase(ts: Seq<Seq<char>>) -> Seq<Seq<char>>
    decreases ts.len(),
{
    if ts.len() == 0 {
        seq![]
    } else {
        let rest = ascii_long_lowercase(ts.drop_last());
        let t = ts.last().map_values(|c: char| ascii_lower(c));
        if byte_len(t) >= 2 {
            rest.push(t)
        } else {
            rest
        }
    }
}

/// The search terms of an ASCII text: split at characters that are not
/// ASCII letters or digits and before uppercase letters, lowercased, terms
/// under two bytes dropped.
pub open spec fn ascii_terms(s: Seq<char>) -> Seq<Seq<char>> {
    let st = ascii_scan_terms(s);
    ascii_long_lowercase(if st.1.len() > 0 { st.0.push(st.1) } else { st.0 })
}

proof fn lemma_long_lowercase_push(ts: Seq<Seq<char>>, t: Seq<char>)
    ensures
        long_lowercase(ts.push(t)) == (if byte_len(spec_lowercase(t)) >= 2 {
            long_lowercase(ts).push(spec_lowercase(t))
        } else {
            long_lowercase(ts)
        }),
{
    assert(ts.push(t).drop_last() =~= ts);
}

/// Split a text into lowercase search terms: at non-alphanumeric
/// characters and before uppercase letters, dropping terms under two bytes.
pub fn tokenize(text: &str) -> (r: Vec<String>)
    ensures
        views(r@) == terms(text@),
        all_ascii(text@) ==> views(r@) == ascii_terms(text@),
{
    let cs = chars_of(text);
    let mut raw: Vec<String> = Vec::new();
    let mut current = String::new();
    let mut i: usize = 0;
    while i < cs.len()
        invariant
            cs@ == text@,
            i <= cs@.len(),
            views(raw@) == scan_terms(cs@.take(i as int)).0,
            current@ == scan_terms(cs@.take(i as int)).1,
            all_ascii(text@) ==> scan_terms(cs@.take(i as int)) == ascii_scan_terms(cs@.take(i as int)),
            all_ascii(text@) ==> forall|k: int| 0 <= k < raw@.len() ==> all_ascii(#[trigger] raw@[k]@),
            all_ascii(text@) ==> all_ascii(current@),
        decreases cs@.len() - i,
    {
        let c = cs[i];
        proof {
            assert(cs@.take(i + 1).drop_last() =~= cs@.take(i as int));
            assert(cs@.take(i + 1).last() == c);
        }
        let ghost old_raw = views(raw@);
        let ghost old_cur = current@;
        proof {
            if all_ascii(text@) {
                assert((c as u32) < 128);
            }
        }
        let alnum = is_alphanumeric(c);
        if alnum {
            let upper = is_uppercase(c);
            if upper && !current.as_str().is_empty() {
                raw.push(current);
                current = String::new();
                proof {
                    assert(views(raw@) =~= old_raw.push(old_cur));
                }
            }
            push_char(&mut current, c);
        } else {
            if !current.as_str().is_empty() {
                raw.push(current);
                current = String::new();
                proof {
                    assert(views(raw@) =~= old_raw.push(old_cur));
                }
            }
        }
        i = i + 1;
        proof {
            assert(views(raw@) =~= scan_terms(cs@.take(i as int)).0);
            assert(current@ =~= scan_terms(cs@.take(i as int)).1);
            if all_ascii(text@) {
                assert(scan_terms(cs@.take(i as int)) =~= ascii_scan_terms(cs@.take(i as int)));
                assert forall|k: int| 0 <= k < raw@.len() implies all_ascii(#[trigger] raw@[k]@) by {
                    if k < old_raw.len() {
                        assert(raw@[k]@ == old_raw[k]);
                    }
                }
            }
        }
    }
    let ghost old_raw = views(raw@);
    let ghost old_cur = current@;
    if !current.as_str().is_empty() {
        raw.push(current);
        proof {
            assert(views(raw@) =~= old_raw.push(old_cur));
        }
    }
    proof {
        assert(cs@.take(cs@.len() as int) =~= text@);
        assert(views(raw@) =~= raw_terms(text@));
        if all_ascii(text@) {
            assert forall|k: int| 0 <= k < raw@.len() implies all_ascii(#[trigger] raw@[k]@) by {
                if k < old_raw.len() {
                    assert(raw@[k]@ == old_raw[k]);
                }
            }
        }
    }
    let ghost asc = ascii_scan_terms(text@);
    let ghost ascii_raw = if asc.1.len() > 0 { asc.0.push(asc.1) } else { asc.0 };
    let mut out: Vec<String> = Vec::new();
    let mut j: usize = 0;
    while j < raw.len()
        invariant
            j <= raw@.len(),
            views(raw@) == raw_terms(text@),
            views(out@) == long_lowercase(views(raw@).take(j as int)),
            all_ascii(text@) ==> views(raw@) == ascii_raw,
            all_ascii(text@) ==> forall|k: int| 0 <= k < raw@.len() ==> all_ascii(#[trigger] raw@[k]@),
            all_ascii(text@) ==> views(out@) == ascii_long_lowercase(views(raw@).take(j as int)),
        decreases raw@.len() - j,
    {
        let t = lowercase(raw[j].as_str());
        proof {
            assert(views(raw@).take(j + 1) =~= views(raw@).take(j as int).push(raw@[j as int]@));
            lemma_long_lowercase_push(views(raw@).take(j as int), raw@[j as int]@);
        }
        let ghost old_out = views(out@);
        if t.as_str().len() >= 2 {
            out.push(t);
            proof {
                assert(views(out@) =~= old_out.push(spec_lowercase(raw@[j as int]@)));
            }
        }
        j = j + 1;
        proof {
            assert(views(out@) =~= long_lowercase(views(raw@).take(j as int)));
            if all_ascii(text@) {
                let rt = raw@[j - 1]@;
                assert(all_ascii(rt));
                assert(views(raw@).take(j as int).drop_last() =~= views(raw@).take(j - 1));
                assert(spec_lowercase(rt) =~= rt.map_values(|c: char| ascii_lower(c)));
                assert(views(out@) =~= ascii_long_lowercase(views(raw@).take(j as int)));
            }
        }
    }
    proof {
        assert(views(raw@).take(raw@.len() as int) =~= views(raw@));
    }
    out
}

// ─── Skeleton ───────────────────────────────────────────────────────

/// A line that imports something, in one of the supported languages.
pub open spec fn is_import_line(line: Seq<char>) -> bool {
    let t = trim(line);
    ||| starts_with(t, "import "@)
    ||| starts_with(t, "from "@)
    ||| starts_with(t, "use "@)
    ||| starts_with(t, "#include"@)
    ||| starts_with(t, "require"@)
    ||| starts_with(t, "package "@)
}

/// The import lines among `ls`, in order.
pub open spec fn import_lines(ls: Seq<Seq<char>>) -> Seq<Seq<char>>
    decreases ls.len(),
{
    if ls.len() == 0 {
        seq![]
    } else if is_import_line(ls.last()) {
        import_lines(ls.drop_last()).push(ls.last())
    } else {
        import_lines(ls.drop_last())
    }
}

/// Each line followed by a line feed.
pub open spec fn line_block(ls: Seq<Seq<char>>) -> Seq<char>
    decreases ls.len(),
{
    if ls.len() == 0 {
        seq![]
    } else {
        line_block(ls.drop_last()) + ls.last() + seq!['\n']
    }
}

/// The aggregated imports at the head of a skeleton.
pub open spec fn import_section(source: Seq<char>, aggregate: bool) -> Seq<char> {
    let il = import_lines(lines(source));
    if !aggregate || il.len() == 0 {
        seq![]
    } else {
        line_block(il) + seq!['\n']
    }
}

proof fn lemma_import_lines_filter(ls: Seq<Seq<char>>, f: spec_fn(Seq<char>) -> bool)
    requires
        forall|l: Seq<char>| #[trigger] f(l) == is_import_line(l),
    ensures
        import_lines(ls) == ls.filter(f),
    decreases ls.len(),
{
    if ls.len() > 0 {
        lemma_import_lines_filter(ls.drop_last(), f);
        ls.drop_last().lemma_filter_push(ls.last(), f);
        assert(ls.drop_last().push(ls.last()) =~= ls);
    } else {
        assert(ls.filter(f) =~= Seq::<Seq<char>>::empty()) by {
            reveal(Seq::filter);
        }
    }
}

/// With imports aggregated, a skeleton opens with every line of the source
/// whose trimmed text starts with `import `, `from `, `use `, `#include`,
/// `require` or `package `, in order, one a line, then a blank line (where
/// there is any such line); the symbols' skeletons follow. Without, it is
/// the symbols' skeletons alone.
pub proof fn lemma_skeleton_imports(source: Seq<char>, syms: Seq<SymbolRecord>)
    ensures
        ({
            let il = lines(source).filter(|l: Seq<char>| {
                let t = trim(l);
                starts_with(t, "import "@) || starts_with(t, "from "@) || starts_with(t, "use "@)
                    || starts_with(t, "#include"@) || starts_with(t, "require"@) || starts_with(t, "package "@)
            });
            skeleton_text(source, syms, true) == (if il.len() == 0 {
                Seq::<char>::empty()
            } else {
                line_block(il) + seq!['\n']
            }) + top_level_blocks(syms, syms)
        }),
        skeleton_text(source, syms, false) == Seq::<char>::empty() + top_level_blocks(syms, syms),
{
    let f = |l: Seq<char>| {
        let t = trim(l);
        starts_with(t, "import "@) || starts_with(t, "from "@) || starts_with(t, "use "@)
            || starts_with(t, "#include"@) || starts_with(t, "require"@) || starts_with(t, "package "@)
    };
    lemma_import_lines_filter(lines(source), f);
}

/// The symbols of `syms` whose parent is `id`, in order.
pub open spec fn children_of(syms: Seq<SymbolRecord>, id: i64) -> Seq<SymbolRecord>
    decreases syms.len(),
{
    if syms.len() == 0 {
        seq![]
    } else if syms.last().parent_id == Some(id) {
        children_of(syms.drop_last(), id).push(syms.last())
    } else {
        children_of(syms.drop_last(), id)
    }
}

/// Indented signatures of child symbols, one a line.
pub open spec fn child_signatures(kids: Seq<SymbolRecord>) -> Seq<char>
    decreases kids.len(),
{
    if kids.len() == 0 {
        seq![]
    } else {
        child_signatures(kids.drop_last()) + "  "@ + kids.last().signature@ + seq!['\n']
    }
}

/// The collapsed-body marker after a symbol's signature.
pub open spec fn body_marker(kind: Seq<char>, has_children: bool) -> Seq<char> {
    if kind == "function"@ || kind == "method"@ || (kind == "class"@ && !has_children) {
        "  ...\n"@
    } else {
        seq![]
    }
}

/// The skeleton of one top-level symbol.
pub open spec fn symbol_block(sym: SymbolRecord, syms: Seq<SymbolRecord>) -> Seq<char> {
    let kids = children_of(syms, sym.id);
    sym.signature@ + seq!['\n'] + child_signatures(kids) + body_marker(sym.kind@, kids.len() > 0)
        + seq!['\n']
}

/// Skeletons of the top-level symbols among `prefix`, children taken from `all`.
pub open spec fn top_level_blocks(prefix: Seq<SymbolRecord>, all: Seq<SymbolRecord>) -> Seq<char>
    decreases prefix.len(),
{
    if prefix.len() == 0 {
        seq![]
    } else if prefix.last().parent_id is None {
        top_level_blocks(prefix.drop_last(), all) + symbol_block(prefix.last(), all)
    } else {
        top_level_blocks(prefix.drop_last(), all)
    }
}

/// A skeleton view of a file: optional import summary, then each top-level
/// symbol's signature with its children's signatures and a body marker.
pub open spec fn skeleton_text(source: Seq<char>, syms: Seq<SymbolRecord>, aggregate: bool) -> Seq<
    char,
> {
    import_section(source, aggregate) + top_level_blocks(syms, syms)
}

fn import_summary(source: &str, aggregate_imports: bool) -> (r: String)
    ensures
        r@ == import_section(source@, aggregate_imports),
{
    let mut out = String::new();
    if !aggregate_imports {
        return out;
    }
    let cs = chars_of(source);
    let ls = split_lines(cs.as_slice());
    let ghost all = lines(source@);
    let mut count: usize = 0;
    let mut i: usize = 0;
    while i < ls.len()
        invariant
            cs@ == source@,
            all == lines(source@),
            ls@.len() == all.len(),
            forall|k: int| 0 <= k < ls@.len() ==> #[trigger] ls@[k]@ == all[k],
            i <= ls@.len(),
            out@ == line_block(import_lines(all.take(i as int))),
            count == import_lines(all.take(i as int)).len(),
            count <= i,
        decreases ls@.len() - i,
    {
        let line = &ls[i];
        let t = trim_str(line.as_str());
        let ts = t.as_str();
        let is_import = str_starts_with(ts, "import ") || str_starts_with(ts, "from ")
            || str_starts_with(ts, "use ") || str_starts_with(ts, "#include")
            || str_starts_with(ts, "require") || str_starts_with(ts, "package ");
        proof {
            assert(all.take(i + 1).drop_last() =~= all.take(i as int));
            assert(all.take(i + 1).last() == line@);
        }
        let ghost il = import_lines(all.take(i as int));
        if is_import {
            push_str(&mut out, line.as_str());
            push_char(&mut out, '\n');
            count = count + 1;
            proof {
                assert(il.push(line@).drop_last() =~= il);
                assert(out@ =~= line_block(il.push(line@)));
            }
        }
        i = i + 1;
    }
    proof {
        assert(all.take(ls@.len() as int) =~= all);
    }
    if count > 0 {
        push_char(&mut out, '\n');
    }
    out
}

fn kind_is(kind: &String, k: &str) -> (r: bool)
    ensures
        r == (kind@ == k@),
{
    str_eq(kind.as_str(), k)
}

fn parent_is(sym: &SymbolRecord, id: i64) -> (r: bool)
    ensures
        r == (sym.parent_id == Some(id)),
{
    match sym.parent_id {
        Some(p) => p == id,
        None => false,
    }
}

/// Generate a skeleton view of a file: signatures only, bodies collapsed.
pub fn skeleton(source: &str, symbols: &[SymbolRecord], aggregate_imports: bool) -> (r: String)
    ensures
        r@ == skeleton_text(source@, symbols@, aggregate_imports),
{
    let mut output = import_summary(source, aggregate_imports);
    let ghost head = output@;
    let mut i: usize = 0;
    while i < symbols.len()
        invariant
            i <= symbols@.len(),
            output@ == head + top_level_blocks(symbols@.take(i as int), symbols@),
        decreases symbols@.len() - i,
    {
        let sym = &symbols[i];
        proof {
            assert(symbols@.take(i + 1).drop_last() =~= symbols@.take(i as int));
        }
        if sym.parent_id.is_none() {
            let ghost before = output@;
            push_str(&mut output, sym.signature.as_str());
            push_char(&mut output, '\n');
            let mut n_kids: usize = 0;
            let mut j: usize = 0;
            while j < symbols.len()
                invariant
                    i < symbols@.len(),
                    sym == symbols@[i as int],
                    j <= symbols@.len(),
                    n_kids == children_of(symbols@.take(j as int), sym.id).len(),
                    n_kids <= j,
                    output@ == before + sym.signature@ + seq!['\n'] + child_signatures(
                        children_of(symbols@.take(j as int), sym.id),
                    ),
                decreases symbols@.len() - j,
            {
                proof {
                    assert(symbols@.take(j + 1).drop_last() =~= symbols@.take(j as int));
                }
                let ghost kids = children_of(symbols@.take(j as int), sym.id);
                if parent_is(&symbols[j], sym.id) {
                    push_str(&mut output, "  ");
                    push_str(&mut output, symbols[j].signature.as_str());
                    push_char(&mut output, '\n');
                    n_kids = n_kids + 1;
                    proof {
                        assert(kids.push(symbols@[j as int]).drop_last() =~= kids);
                        assert(output@ =~= before + sym.signature@ + seq!['\n'] + child_signatures(
                            kids.push(symbols@[j as int])));
                    }
                }
                j = j + 1;
            }
            proof {
                assert(symbols@.take(symbols@.len() as int) =~= symbols@);
            }
            if kind_is(&sym.kind, "function") || kind_is(&sym.kind, "method") || (kind_is(
                &sym.kind,
                "class",
            ) && n_kids == 0) {
                push_str(&mut output, "  ...\n");
            }
            push_char(&mut output, '\n');
            proof {
                assert(output@ =~= before + symbol_block(*sym, symbols@));
            }
        }
        i = i + 1;
    }
    proof {
        assert(symbols@.take(symbols@.len() as int) =~= symbols@);
    }
    output
}

// ─── Budgeted selection ─────────────────────────────────────────────

/// Greedy selection over a ranking: each entry is a symbol index and
/// whether its relevance score is positive. Entries without a positive
/// score are passed over; a symbol is taken when its signature's estimated
/// tokens fit in what is left of the budget; the walk stops once nothing is
/// left. The state is (taken indices, tokens left, stopped).
pub open spec fn knapsack_state(symbols: Seq<SymbolRecord>, ranked: Seq<(usize, bool)>, budget: nat) -> (
    Seq<int>,
    nat,
    bool,
)
    decreases ranked.len(),
{
    if ranked.len() == 0 {
        (seq![], budget, false)
    } else {
        let prev = knapsack_state(symbols, ranked.drop_last(), budget);
        let entry = ranked.last();
        if prev.2 || !entry.1 {
            prev
        } else {
            let cost = text_tokens(symbols[entry.0 as int].signature@);
            if cost <= prev.1 {
                (prev.0.push(entry.0 as int), (prev.1 - cost) as nat, prev.1 - cost == 0)
            } else {
                (prev.0, prev.1, prev.1 == 0)
            }
        }
    }
}

/// Estimated tokens of the signatures of the chosen symbols.
pub open spec fn selection_cost(symbols: Seq<SymbolRecord>, chosen: Seq<int>) -> nat
    decreases chosen.len(),
{
    if chosen.len() == 0 {
        0
    } else {
        selection_cost(symbols, chosen.drop_last()) + text_tokens(
            symbols[chosen.last()].signature@,
        )
    }
}

/// Every ranked entry with a positive score names a symbol.
pub open spec fn ranking_in_bounds(symbols: Seq<SymbolRecord>, ranked: Seq<(usize, bool)>) -> bool {
    forall|k: int| 0 <= k < ranked.len() && (#[trigger] ranked[k]).1 ==> ranked[k].0 < symbols.len()
}

proof fn lemma_knapsack_accounting(symbols: Seq<SymbolRecord>, ranked: Seq<(usize, bool)>, budget: nat)
    requires
        ranking_in_bounds(symbols, ranked),
    ensures
        selection_cost(symbols, knapsack_state(symbols, ranked, budget).0) + knapsack_state(
            symbols,
            ranked,
            budget,
        ).1 == budget,
        forall|k: int|
            0 <= k < knapsack_state(symbols, ranked, budget).0.len() ==> 0 <= #[trigger] knapsack_state(
                symbols,
                ranked,
                budget,
            ).0[k] < symbols.len(),
    decreases ranked.len(),
{
    if ranked.len() > 0 {
        assert(ranking_in_bounds(symbols, ranked.drop_last())) by {
            assert forall|k: int| 0 <= k < ranked.drop_last().len() && (#[trigger] ranked.drop_last()[k]).1
                implies ranked.drop_last()[k].0 < symbols.len() by {
                assert(ranked[k] == ranked.drop_last()[k]);
            }
        }
        lemma_knapsack_accounting(symbols, ranked.drop_last(), budget);
        let prev = knapsack_state(symbols, ranked.drop_last(), budget);
        let entry = ranked.last();
        if !prev.2 && entry.1 {
            assert(ranked[ranked.len() - 1] == entry);
            let idx = entry.0 as int;
            assert(prev.0.push(idx).drop_last() =~= prev.0);
        }
    }
}

/// Greedy knapsack: select symbols within the token budget, in ranking order.
pub fn greedy_knapsack<'a>(
    symbols: &'a [SymbolRecord],
    ranked: &[(usize, bool)],
    token_budget: usize,
) -> (r: Vec<&'a SymbolRecord>)
    requires
        ranking_in_bounds(symbols@, ranked@),
    ensures
        r@ == knapsack_state(symbols@, ranked@, token_budget as nat).0.map_values(
            |i: int| &symbols@[i],
        ),
        selection_cost(symbols@, knapsack_state(symbols@, ranked@, token_budget as nat).0)
            <= token_budget,
{
    let mut selected: Vec<&'a SymbolRecord> = Vec::new();
    let mut remaining = token_budget;
    let ghost mut chosen: Seq<int> = seq![];
    let mut i: usize = 0;
    while i < ranked.len()
        invariant
            i <= ranked@.len(),
            ranking_in_bounds(symbols@, ranked@),
            knapsack_state(symbols@, ranked@.take(i as int), token_budget as nat) == (
                chosen,
                remaining as nat,
                false,
            ),
            selected@ == chosen.map_values(|k: int| &symbols@[k]),
        decreases ranked@.len() - i,
    {
        let (idx, positive) = ranked[i];
        proof {
            assert(ranked@.take(i + 1).drop_last() =~= ranked@.take(i as int));
            assert(ranked@.take(i + 1).last() == ranked@[i as int]);
        }
        if !positive {
            i = i + 1;
            continue;
        }
        let sym = &symbols[idx];
        let cost = estimate_tokens(sym.signature.as_str());
        if cost <= remaining {
            remaining = remaining - cost;
            selected.push(sym);
            proof {
                chosen = chosen.push(idx as int);
                assert(selected@ =~= chosen.map_values(|k: int| &symbols@[k]));
            }
        }
        i = i + 1;
        if remaining == 0 {
            proof {
                assert forall|n: int| i <= n <= ranked@.len() implies knapsack_state(
                    symbols@,
                    ranked@.take(n),
                    token_budget as nat,
                ) == (chosen, 0nat, true) by {
                    lemma_knapsack_stopped(symbols@, ranked@, token_budget as nat, i as int, n);
                }
                assert(ranked@.take(ranked@.len() as int) =~= ranked@);
                lemma_knapsack_accounting(symbols@, ranked@, token_budget as nat);
            }
            return selected;
        }
    }
    proof {
        assert(ranked@.take(ranked@.len() as int) =~= ranked@);
        lemma_knapsack_accounting(symbols@, ranked@, token_budget as nat);
    }
    selected
}

proof fn lemma_knapsack_stopped(
    symbols: Seq<SymbolRecord>,
    ranked: Seq<(usize, bool)>,
    budget: nat,
    i: int,
    n: int,
)
    requires
        0 <= i <= n <= ranked.len(),
        knapsack_state(symbols, ranked.take(i), budget).2,
    ensures
        knapsack_state(symbols, ranked.take(n), budget) == knapsack_state(
            symbols,
            ranked.take(i),
            budget,
        ),
    decreases n - i,
{
    if n > i {
        lemma_knapsack_stopped(symbols, ranked, budget, i, n - 1);
        assert(ranked.take(n).drop_last() =~= ranked.take(n - 1));
    }
}

// ─── Grouping by file ───────────────────────────────────────────────

/// The records behind a list of references.
pub open spec fn derefs(v: Seq<&SymbolRecord>) -> Seq<SymbolRecord> {
    v.map_values(|r: &SymbolRecord| *r)
}

/// The file paths that occur among `syms`.
pub open spec fn file_set(syms: Seq<SymbolRecord>) -> Set<Seq<char>> {
    syms.map_values(|s: SymbolRecord| s.file_path@).to_set()
}

/// The files of `syms`, each once, in ascending order (as a `BTreeMap` keyed
/// by path walks them).
pub open spec fn file_order(syms: Seq<SymbolRecord>) -> Seq<Seq<char>> {
    choose|files: Seq<Seq<char>>| sorted_strict(files) && files.to_set() == file_set(syms)
}

/// Signatures of the symbols of file `f`, one a line, in order.
pub open spec fn signature_lines(syms: Seq<SymbolRecord>, f: Seq<char>) -> Seq<char>
    decreases syms.len(),
{
    if syms.len() == 0 {
        seq![]
    } else if syms.last().file_path@ == f {
        signature_lines(syms.drop_last(), f) + syms.last().signature@ + seq!['\n']
    } else {
        signature_lines(syms.drop_last(), f)
    }
}

/// The signatures of the symbols of file `f`, in order.
pub open spec fn signature_list(syms: Seq<SymbolRecord>, f: Seq<char>) -> Seq<Seq<char>>
    decreases syms.len(),
{
    if syms.len() == 0 {
        seq![]
    } else if syms.last().file_path@ == f {
        signature_list(syms.drop_last(), f).push(syms.last().signature@)
    } else {
        signature_list(syms.drop_last(), f)
    }
}


/// One section per file: a `// path` header, its signatures, a blank line.
pub open spec fn context_sections(files: Seq<Seq<char>>, syms: Seq<SymbolRecord>) -> Seq<char>
    decreases files.len(),
{
    if files.len() == 0 {
        seq![]
    } else {
        context_sections(files.drop_last(), syms) + "// "@ + files.last() + seq!['\n']
            + signature_lines(syms, files.last()) + seq!['\n']
    }
}

/// The compressed text of the chosen symbols: their signatures grouped by
/// file, files in path order.
pub open spec fn context_of(symbols: Seq<SymbolRecord>, chosen: Seq<int>) -> Seq<char> {
    let sel = chosen.map_values(|i: int| symbols[i]);
    context_sections(file_order(sel), sel)
}

/// Greedy selection over a ranking (symbol index, whether its relevance
/// score is positive), best first: an entry with a positive score is taken
/// when the compressed text of what is taken so far and that symbol still
/// fits in `budget` estimated tokens; otherwise it is passed over.
pub open spec fn fitted_choice(symbols: Seq<SymbolRecord>, ranked: Seq<(usize, bool)>, budget: nat) -> Seq<int>
    decreases ranked.len(),
{
    if ranked.len() == 0 {
        seq![]
    } else {
        let prev = fitted_choice(symbols, ranked.drop_last(), budget);
        let e = ranked.last();
        if e.1 && text_tokens(context_of(symbols, prev.push(e.0 as int))) <= budget {
            prev.push(e.0 as int)
        } else {
            prev
        }
    }
}

/// The compressed context for a ranking within a budget.
pub open spec fn compressed_context(symbols: Seq<SymbolRecord>, ranked: Seq<(usize, bool)>, budget: nat) -> Seq<char> {
    context_of(symbols, fitted_choice(symbols, ranked, budget))
}

proof fn lemma_nothing_chosen(symbols: Seq<SymbolRecord>)
    ensures
        context_of(symbols, seq![]) == Seq::<char>::empty(),
        text_tokens(Seq::<char>::empty()) == 0,
{
    let sel = Seq::<int>::empty().map_values(|i: int| symbols[i]);
    assert(sel =~= Seq::<SymbolRecord>::empty());
    assert(sel.map_values(|s: SymbolRecord| s.file_path@).to_set() =~= Set::<Seq<char>>::empty());
    let none: Seq<Seq<char>> = seq![];
    assert(none.to_set() =~= Set::<Seq<char>>::empty());
    lemma_sorted_strict_unique(none, file_order(sel));
    assert(vstd::utf8::encode_utf8(Seq::<char>::empty()) =~= Seq::<u8>::empty());
}

/// The compressed context never takes more estimated tokens than its budget.
pub proof fn lemma_compressed_context_fits(symbols: Seq<SymbolRecord>, ranked: Seq<(usize, bool)>, budget: nat)
    ensures
        text_tokens(compressed_context(symbols, ranked, budget)) <= budget,
    decreases ranked.len(),
{
    if ranked.len() == 0 {
        lemma_nothing_chosen(symbols);
    } else {
        lemma_compressed_context_fits(symbols, ranked.drop_last(), budget);
    }
}

/// The indices of the positively ranked entries, in ranking order.
pub open spec fn positive_choice(ranked: Seq<(usize, bool)>) -> Seq<int>
    decreases ranked.len(),
{
    if ranked.len() == 0 {
        seq![]
    } else {
        let prev = positive_choice(ranked.drop_last());
        if ranked.last().1 {
            prev.push(ranked.last().0 as int)
        } else {
            prev
        }
    }
}

/// The bytes of a text, uncapped.
spec fn raw_len(s: Seq<char>) -> nat {
    vstd::utf8::encode_utf8(s).len()
}

proof fn lemma_encode_concat(a: Seq<char>, b: Seq<char>)
    ensures
        raw_len(a + b) == raw_len(a) + raw_len(b),
    decreases a.len(),
{
    if a.len() == 0 {
        assert(a + b =~= b);
    } else {
        lemma_encode_concat(a.drop_first(), b);
        assert((a + b).drop_first() =~= a.drop_first() + b);
        assert((a + b)[0] == a[0]);
    }
}

proof fn lemma_sections_append(a: Seq<Seq<char>>, b: Seq<Seq<char>>, syms: Seq<SymbolRecord>)
    ensures
        context_sections(a + b, syms) == context_sections(a, syms) + context_sections(b, syms),
    decreases b.len(),
{
    if b.len() == 0 {
        assert(a + b =~= a);
        assert(context_sections(a, syms) + Seq::<char>::empty() =~= context_sections(a, syms));
    } else {
        lemma_sections_append(a, b.drop_last(), syms);
        assert((a + b).drop_last() =~= a + b.drop_last());
        assert((a + b).last() == b.last());
        assert(context_sections(a + b, syms) =~= context_sections(a, syms) + context_sections(b, syms));
    }
}

/// Adding a symbol never shortens the section of any file list.
proof fn lemma_sections_grow(files: Seq<Seq<char>>, syms: Seq<SymbolRecord>, s: SymbolRecord)
    ensures
        raw_len(context_sections(files, syms)) <= raw_len(context_sections(files, syms.push(s))),
    decreases files.len(),
{
    if files.len() > 0 {
        lemma_sections_grow(files.drop_last(), syms, s);
        let f = files.last();
        let head = "// "@ + f + seq!['\n'];
        let old_lines = signature_lines(syms, f);
        let new_lines = signature_lines(syms.push(s), f);
        assert(syms.push(s).drop_last() =~= syms);
        assert(syms.push(s).last() == s);
        let before = context_sections(files.drop_last(), syms);
        let after = context_sections(files.drop_last(), syms.push(s));
        assert(context_sections(files, syms) =~= before + (head + (old_lines + seq!['\n'])));
        assert(context_sections(files, syms.push(s)) =~= after + (head + (new_lines + seq!['\n'])));
        lemma_encode_concat(before, head + (old_lines + seq!['\n']));
        lemma_encode_concat(after, head + (new_lines + seq!['\n']));
        lemma_encode_concat(head, old_lines + seq!['\n']);
        lemma_encode_concat(head, new_lines + seq!['\n']);
        lemma_encode_concat(old_lines, seq!['\n']);
        lemma_encode_concat(new_lines, seq!['\n']);
        if s.file_path@ == f {
            assert(new_lines == old_lines + s.signature@ + seq!['\n']);
            lemma_encode_concat(old_lines, s.signature@ + seq!['\n']);
            assert(new_lines =~= old_lines + (s.signature@ + seq!['\n']));
        } else {
            assert(new_lines == old_lines);
        }
    }
}

/// `x` put in its place in a strictly sorted list, unless it is there.
spec fn sorted_insert(v: Seq<Seq<char>>, x: Seq<char>) -> Seq<Seq<char>>
    decreases v.len(),
{
    if v.len() == 0 {
        seq![x]
    } else if v[0] == x {
        v
    } else if lex_lt(x, v[0]) {
        seq![x] + v
    } else {
        seq![v[0]] + sorted_insert(v.drop_first(), x)
    }
}

proof fn lemma_sorted_insert(v: Seq<Seq<char>>, x: Seq<char>)
    requires
        sorted_strict(v),
    ensures
        sorted_strict(sorted_insert(v, x)),
        sorted_insert(v, x).to_set() == v.to_set().insert(x),
    decreases v.len(),
{
    let w = sorted_insert(v, x);
    if v.len() == 0 {
        assert(w.to_set() =~= v.to_set().insert(x)) by {
            assert(w[0] == x);
        }
    } else if v[0] == x {
        assert(v.to_set().contains(v[0]));
        assert(w.to_set() =~= v.to_set().insert(x));
    } else if lex_lt(x, v[0]) {
        assert forall|i: int, j: int| 0 <= i < j < w.len() implies lex_lt(w[i], w[j]) by {
            if i == 0 && j > 1 {
                lemma_lex_transitive(x, v[0], v[j - 1]);
            }
        }
        assert forall|y: Seq<char>| w.to_set().contains(y) <==> v.to_set().insert(x).contains(y) by {
            if w.to_set().contains(y) {
                let k = choose|k: int| 0 <= k < w.len() && w[k] == y;
                if k > 0 {
                    assert(v[k - 1] == y);
                }
            }
            if v.to_set().contains(y) {
                let k = choose|k: int| 0 <= k < v.len() && v[k] == y;
                assert(w[k + 1] == y);
            }
            if y == x {
                assert(w[0] == y);
            }
        }
        assert(w.to_set() =~= v.to_set().insert(x));
    } else {
        let t = v.drop_first();
        assert(sorted_strict(t)) by {
            assert forall|i: int, j: int| 0 <= i < j < t.len() implies lex_lt(t[i], t[j]) by {
                assert(t[i] == v[i + 1] && t[j] == v[j + 1]);
            }
        }
        lemma_sorted_insert(t, x);
        let r = sorted_insert(t, x);
        lemma_lex_total(x, v[0]);
        assert(w == seq![v[0]] + r);
        assert forall|i: int, j: int| 0 <= i < j < w.len() implies lex_lt(w[i], w[j]) by {
            if i == 0 {
                assert(w[j] == r[j - 1]);
                assert(r.to_set().contains(r[j - 1]));
                if r[j - 1] != x {
                    assert(t.to_set().contains(r[j - 1]));
                    let k = choose|k: int| 0 <= k < t.len() && t[k] == r[j - 1];
                    assert(v[k + 1] == r[j - 1]);
                }
            } else {
                assert(w[i] == r[i - 1] && w[j] == r[j - 1]);
            }
        }
        assert forall|y: Seq<char>| w.to_set().contains(y) <==> v.to_set().insert(x).contains(y) by {
            if w.to_set().contains(y) {
                let k = choose|k: int| 0 <= k < w.len() && w[k] == y;
                if k > 0 {
                    assert(r[k - 1] == y);
                    assert(r.to_set().contains(y));
                    if y != x {
                        let m = choose|m: int| 0 <= m < t.len() && t[m] == y;
                        assert(v[m + 1] == y);
                    }
                } else {
                    assert(v[0] == y);
                }
            }
            if v.to_set().contains(y) {
                let k = choose|k: int| 0 <= k < v.len() && v[k] == y;
                if k == 0 {
                    assert(w[0] == y);
                } else {
                    assert(t[k - 1] == y);
                    assert(t.to_set().contains(y));
                    assert(r.to_set().contains(y));
                    let m = choose|m: int| 0 <= m < r.len() && r[m] == y;
                    assert(w[m + 1] == y);
                }
            }
            if y == x {
                assert(r.to_set().contains(x));
                let m = choose|m: int| 0 <= m < r.len() && r[m] == x;
                assert(w[m + 1] == x);
            }
        }
        assert(w.to_set() =~= v.to_set().insert(x));
    }
}

proof fn lemma_file_set_push(syms: Seq<SymbolRecord>, s: SymbolRecord)
    ensures
        file_set(syms.push(s)) == file_set(syms).insert(s.file_path@),
{
    let p = |r: SymbolRecord| r.file_path@;
    assert(syms.push(s).map_values(p) =~= syms.map_values(p).push(s.file_path@));
    syms.map_values(p).lemma_push_to_set_commute(s.file_path@);
}

/// `file_order` is a strictly sorted list of the files of the symbols.
proof fn lemma_file_order(syms: Seq<SymbolRecord>)
    ensures
        sorted_strict(file_order(syms)),
        file_order(syms).to_set() == file_set(syms),
    decreases syms.len(),
{
    if syms.len() == 0 {
        let none: Seq<Seq<char>> = seq![];
        assert(syms.map_values(|r: SymbolRecord| r.file_path@) =~= none);
        assert(sorted_strict(none) && none.to_set() == file_set(syms));
    } else {
        let front = syms.drop_last();
        lemma_file_order(front);
        lemma_sorted_insert(file_order(front), syms.last().file_path@);
        assert(front.push(syms.last()) =~= syms);
        lemma_file_set_push(front, syms.last());
        let w = sorted_insert(file_order(front), syms.last().file_path@);
        assert(sorted_strict(w) && w.to_set() == file_set(syms));
    }
}

proof fn lemma_sorted_remove(v: Seq<Seq<char>>, k: int)
    requires
        sorted_strict(v),
        0 <= k < v.len(),
    ensures
        sorted_strict(v.remove(k)),
        v.remove(k).to_set() == v.to_set().remove(v[k]),
{
    let w = v.remove(k);
    assert forall|i: int, j: int| 0 <= i < j < w.len() implies lex_lt(w[i], w[j]) by {
        let a = if i < k { i } else { i + 1 };
        let b = if j < k { j } else { j + 1 };
        assert(w[i] == v[a] && w[j] == v[b]);
    }
    assert forall|y: Seq<char>| w.to_set().contains(y) <==> v.to_set().remove(v[k]).contains(y) by {
        if w.to_set().contains(y) {
            let m = choose|m: int| 0 <= m < w.len() && w[m] == y;
            let a = if m < k { m } else { m + 1 };
            assert(v[a] == y);
            if a < k {
                assert(lex_lt(v[a], v[k]));
                lemma_lex_irreflexive(y);
            } else {
                assert(lex_lt(v[k], v[a]));
                lemma_lex_irreflexive(y);
            }
        }
        if v.to_set().remove(v[k]).contains(y) {
            let m = choose|m: int| 0 <= m < v.len() && v[m] == y;
            if m < k {
                assert(w[m] == y);
            } else {
                assert(m != k);
                assert(w[m - 1] == y);
            }
        }
    }
    assert(w.to_set() =~= v.to_set().remove(v[k]));
}

/// Choosing one more symbol never shortens the compressed context.
proof fn lemma_context_grows(symbols: Seq<SymbolRecord>, c: Seq<int>, x: int)
    ensures
        raw_len(context_of(symbols, c)) <= raw_len(context_of(symbols, c.push(x))),
{
    let sel = c.map_values(|i: int| symbols[i]);
    let s = symbols[x];
    let sel2 = c.push(x).map_values(|i: int| symbols[i]);
    assert(sel2 =~= sel.push(s));
    lemma_file_order(sel);
    lemma_file_order(sel2);
    lemma_file_set_push(sel, s);
    let fs = file_order(sel);
    let fs2 = file_order(sel2);
    let f = s.file_path@;
    if file_set(sel).contains(f) {
        assert(file_set(sel2) =~= file_set(sel));
        lemma_sorted_strict_unique(fs, fs2);
        lemma_sections_grow(fs, sel, s);
    } else {
        assert(fs2.to_set().contains(f));
        let k = choose|k: int| 0 <= k < fs2.len() && fs2[k] == f;
        lemma_sorted_remove(fs2, k);
        let rest = fs2.remove(k);
        assert(rest.to_set() =~= file_set(sel));
        lemma_sorted_strict_unique(rest, fs);
        let front = fs2.take(k);
        let back = fs2.skip(k + 1);
        assert(rest =~= front + back);
        assert(fs2 =~= front + (seq![f] + back));
        lemma_sections_append(front, seq![f] + back, sel2);
        lemma_sections_append(seq![f], back, sel2);
        lemma_sections_append(front, back, sel2);
        lemma_encode_concat(context_sections(front, sel2), context_sections(seq![f] + back, sel2));
        lemma_encode_concat(context_sections(seq![f], sel2), context_sections(back, sel2));
        lemma_encode_concat(context_sections(front, sel2), context_sections(back, sel2));
        lemma_sections_grow(rest, sel, s);
    }
}

/// Where the compressed context of every positively ranked symbol fits the
/// budget (its length in bytes within `usize`), `compress_context` takes
/// every positively ranked symbol: none that is relevant is left out.
pub proof fn lemma_everything_fits_is_all_taken(symbols: Seq<SymbolRecord>, ranked: Seq<(usize, bool)>, budget: nat)
    requires
        vstd::utf8::encode_utf8(context_of(symbols, positive_choice(ranked))).len() <= usize::MAX,
        text_tokens(context_of(symbols, positive_choice(ranked))) <= budget,
    ensures
        fitted_choice(symbols, ranked, budget) == positive_choice(ranked),
    decreases ranked.len(),
{
    if ranked.len() > 0 {
        let front = ranked.drop_last();
        let e = ranked.last();
        let p = positive_choice(front);
        if e.1 {
            lemma_context_grows(symbols, p, e.0 as int);
        }
        lemma_everything_fits_is_all_taken(symbols, front, budget);
    }
}

/// The distinct file paths of `recs`, ascending.
fn sorted_file_paths(recs: &Vec<&SymbolRecord>) -> (r: Vec<String>)
    ensures
        sorted_strict(views(r@)),
        views(r@).to_set() == file_set(derefs(recs@)),
        views(r@) == file_order(derefs(recs@)),
{
    let mut files: Vec<String> = Vec::new();
    let ghost ds = derefs(recs@);
    let mut i: usize = 0;
    while i < recs.len()
        invariant
            ds == derefs(recs@),
            i <= recs@.len(),
            sorted_strict(views(files@)),
            views(files@).to_set() == file_set(ds.take(i as int)),
        decreases recs@.len() - i,
    {
        insert_sorted(&mut files, recs[i].file_path.as_str());
        proof {
            let p = |s: SymbolRecord| s.file_path@;
            assert(ds.take(i + 1).map_values(p) =~= ds.take(i as int).map_values(p).push(
                recs@[i as int].file_path@,
            ));
            let q = ds.take(i as int).map_values(p);
            Seq::lemma_to_set_insert_commutes(q, recs@[i as int].file_path@);
            assert(q + seq![recs@[i as int].file_path@] =~= q.push(recs@[i as int].file_path@));
        }
        i = i + 1;
    }
    proof {
        assert(ds.take(recs@.len() as int) =~= ds);
        let fs = views(files@);
        assert(sorted_strict(fs) && fs.to_set() == file_set(ds));
        let w = file_order(ds);
        lemma_sorted_strict_unique(fs, w);
    }
    files
}

/// Appends the signatures of file `f` among `recs`, one a line.
fn push_signature_lines(out: &mut String, recs: &Vec<&SymbolRecord>, f: &str)
    ensures
        final(out)@ == old(out)@ + signature_lines(derefs(recs@), f@),
{
    let ghost start = out@;
    let ghost ds = derefs(recs@);
    let mut i: usize = 0;
    while i < recs.len()
        invariant
            ds == derefs(recs@),
            i <= recs@.len(),
            out@ == start + signature_lines(ds.take(i as int), f@),
        decreases recs@.len() - i,
    {
        proof {
            assert(ds.take(i + 1).drop_last() =~= ds.take(i as int));
        }
        if str_eq(recs[i].file_path.as_str(), f) {
            push_str(out, recs[i].signature.as_str());
            push_char(out, '\n');
        }
        i = i + 1;
        proof {
            assert(out@ =~= start + signature_lines(ds.take(i as int), f@));
        }
    }
    proof {
        assert(ds.take(recs@.len() as int) =~= ds);
    }
}

/// The signatures of `recs` grouped under `// path` headers, files in path
/// order, each file's signatures in the order of `recs`.
fn render_context(recs: &Vec<&SymbolRecord>) -> (r: String)
    ensures
        r@ == context_sections(file_order(derefs(recs@)), derefs(recs@)),
{
    let ghost sel = derefs(recs@);
    let files = sorted_file_paths(recs);
    let ghost fs = views(files@);
    let mut output = String::new();
    let mut i: usize = 0;
    while i < files.len()
        invariant
            fs == views(files@),
            fs == file_order(sel),
            derefs(recs@) == sel,
            i <= files@.len(),
            output@ == context_sections(fs.take(i as int), sel),
        decreases files@.len() - i,
    {
        proof {
            assert(fs.take(i + 1).drop_last() =~= fs.take(i as int));
        }
        push_str(&mut output, "// ");
        push_str(&mut output, files[i].as_str());
        push_char(&mut output, '\n');
        push_signature_lines(&mut output, recs, files[i].as_str());
        push_char(&mut output, '\n');
        i = i + 1;
        proof {
            assert(output@ =~= context_sections(fs.take(i as int), sel));
        }
    }
    proof {
        assert(fs.take(files@.len() as int) =~= fs);
    }
    output
}

/// Compress context: symbols taken greedily in ranking order, each when
/// the compressed text with it still fits in `token_budget` estimated
/// tokens (headers and line feeds counted), rendered as their signatures
/// grouped under `// path` headers in path order. `ranked` holds symbol
/// indices, best first, each with whether its relevance score is positive.
pub fn compress_context(symbols: &[SymbolRecord], ranked: &[(usize, bool)], token_budget: usize) -> (r:
    String)
    requires
        ranking_in_bounds(symbols@, ranked@),
    ensures
        r@ == compressed_context(symbols@, ranked@, token_budget as nat),
        text_tokens(r@) <= token_budget,
{
    let mut chosen: Vec<&SymbolRecord> = Vec::new();
    let ghost mut picked: Seq<int> = seq![];
    let mut output = render_context(&chosen);
    proof {
        assert(derefs(chosen@) =~= picked.map_values(|k: int| symbols@[k]));
    }
    let mut i: usize = 0;
    while i < ranked.len()
        invariant
            i <= ranked@.len(),
            ranking_in_bounds(symbols@, ranked@),
            picked == fitted_choice(symbols@, ranked@.take(i as int), token_budget as nat),
            derefs(chosen@) == picked.map_values(|k: int| symbols@[k]),
            output@ == context_of(symbols@, picked),
        decreases ranked@.len() - i,
    {
        let (idx, positive) = ranked[i];
        proof {
            assert(ranked@.take(i + 1).drop_last() =~= ranked@.take(i as int));
            assert(ranked@.take(i + 1).last() == ranked@[i as int]);
        }
        if positive {
            proof {
                assert(ranked@[i as int].1);
            }
            let ghost before = chosen@;
            let rec = &symbols[idx];
            chosen.push(rec);
            let text = render_context(&chosen);
            proof {
                assert(*rec == symbols@[idx as int]);
                assert(chosen@ == before.push(rec));
                assert(derefs(chosen@) =~= derefs(before).push(*rec));
                assert(picked.push(idx as int).map_values(|k: int| symbols@[k]) =~= picked.map_values(|k: int| symbols@[k]).push(symbols@[idx as int]));
            }
            if estimate_tokens(text.as_str()) <= token_budget {
                output = text;
                proof {
                    picked = picked.push(idx as int);
                }
            } else {
                chosen.pop();
                proof {
                    assert(derefs(chosen@) =~= picked.map_values(|k: int| symbols@[k]));
                }
            }
        }
        i = i + 1;
    }
    proof {
        assert(ranked@.take(ranked@.len() as int) =~= ranked@);
        lemma_compressed_context_fits(symbols@, ranked@, token_budget as nat);
    }
    output
}

// ─── Packing ────────────────────────────────────────────────────────

/// The symbols of `syms` that have no parent, in order.
pub open spec fn top_level(syms: Seq<SymbolRecord>) -> Seq<SymbolRecord>
    decreases syms.len(),
{
    if syms.len() == 0 {
        seq![]
    } else if syms.last().parent_id is None {
        top_level(syms.drop_last()).push(syms.last())
    } else {
        top_level(syms.drop_last())
    }
}

/// The XML block of one file.
pub open spec fn xml_file_block(f: Seq<char>, syms: Seq<SymbolRecord>) -> Seq<char> {
    "<file path=\""@ + f + "\">\n"@ + signature_lines(syms, f) + "</file>\n"@
}

/// An XML artifact around `body`: `<repo>`, the body, `</repo>`.
pub open spec fn xml_wrap(body: Seq<char>) -> Seq<char> {
    "<repo>\n"@ + body + "</repo>\n"@
}

/// File blocks added to `body` in order while the whole artifact, closing
/// tag included, stays within `budget` estimated tokens; the first block
/// that does not fit ends the walk.
pub open spec fn xml_fill(body: Seq<char>, files: Seq<Seq<char>>, syms: Seq<SymbolRecord>, budget: nat) -> Seq<char>
    decreases files.len(),
{
    if files.len() == 0 {
        body
    } else {
        let grown = body + xml_file_block(files[0], syms);
        if text_tokens(xml_wrap(grown)) <= budget {
            xml_fill(grown, files.drop_first(), syms, budget)
        } else {
            body
        }
    }
}

/// The XML artifact: the file blocks that fit between `<repo>` and
/// `</repo>`; empty where even the bare tags are over the budget.
pub open spec fn packed_xml(files: Seq<Seq<char>>, syms: Seq<SymbolRecord>, budget: nat) -> Seq<char> {
    if text_tokens(xml_wrap(seq![])) <= budget {
        xml_wrap(xml_fill(seq![], files, syms, budget))
    } else {
        seq![]
    }
}

/// The (path, signatures) entries that fit a JSON pack: each file costs the
/// tokens of its signatures joined by line feeds plus twenty, and the walk
/// starts at `used`.
pub open spec fn json_entries(files: Seq<Seq<char>>, syms: Seq<SymbolRecord>, budget: nat, used: nat) -> Seq<
    (Seq<char>, Seq<char>),
>
    decreases files.len(),
{
    if files.len() == 0 {
        seq![]
    } else {
        let content = join_lines(signature_list(syms, files[0]));
        let cost = text_tokens(content) + 20;
        if used + cost > budget {
            seq![]
        } else {
            seq![(files[0], content)] + json_entries(files.drop_first(), syms, budget, used + cost)
        }
    }
}

/// What `serde_json::to_string_pretty` writes for `{"files": [{"path": p,
/// "symbols": s}, ...]}` built from `entries`.
pub uninterp spec fn spec_files_json(entries: Seq<(Seq<char>, Seq<char>)>) -> Seq<char>;

/// The packed repository in the given format.
pub open spec fn packed_repo(syms: Seq<SymbolRecord>, budget: nat, format: Seq<char>) -> Seq<char> {
    let top = top_level(syms);
    let files = file_order(top);
    if format == "json"@ {
        spec_files_json(json_entries(files, top, budget, 20))
    } else {
        packed_xml(files, top, budget)
    }
}

/// The tokens JSON entries spend: each its signatures' tokens and twenty.
pub open spec fn json_spent(entries: Seq<(Seq<char>, Seq<char>)>) -> nat
    decreases entries.len(),
{
    if entries.len() == 0 {
        0
    } else {
        text_tokens(entries[0].1) + 20 + json_spent(entries.drop_first())
    }
}

proof fn lemma_xml_fill_fits(body: Seq<char>, files: Seq<Seq<char>>, syms: Seq<SymbolRecord>, budget: nat)
    requires
        text_tokens(xml_wrap(body)) <= budget,
    ensures
        text_tokens(xml_wrap(xml_fill(body, files, syms, budget))) <= budget,
    decreases files.len(),
{
    if files.len() > 0 {
        let grown = body + xml_file_block(files[0], syms);
        if text_tokens(xml_wrap(grown)) <= budget {
            lemma_xml_fill_fits(grown, files.drop_first(), syms, budget);
        }
    }
}

proof fn lemma_json_list(files: Seq<Seq<char>>, syms: Seq<SymbolRecord>, budget: nat, used: nat)
    ensures
        used <= budget ==> used + json_spent(json_entries(files, syms, budget, used)) <= budget,
    decreases files.len(),
{
    if files.len() > 0 {
        let content = join_lines(signature_list(syms, files[0]));
        let cost = text_tokens(content) + 20;
        if used + cost <= budget {
            lemma_json_list(files.drop_first(), syms, budget, used + cost);
            let rest = json_entries(files.drop_first(), syms, budget, used + cost);
            assert((seq![(files[0], content)] + rest).drop_first() =~= rest);
        }
    }
}

/// A packed repository fits its token budget: in XML, the whole artifact,
/// tags included, takes at most the budget in estimated tokens; in JSON,
/// where the text is serde_json's, the twenty tokens of the frame and each
/// entry's signatures with twenty more take at most the budget.
pub proof fn lemma_pack_within_budget(syms: Seq<SymbolRecord>, budget: nat)
    ensures
        text_tokens(packed_repo(syms, budget, "xml"@)) <= budget,
        20 <= budget ==> 20 + json_spent(json_entries(file_order(top_level(syms)), top_level(syms), budget, 20)) <= budget,
{
    let top = top_level(syms);
    let files = file_order(top);
    lemma_json_list(files, top, budget, 20);
    reveal_strlit("xml");
    reveal_strlit("json");
    assert("xml"@ != "json"@) by {
        assert("xml"@[0] != "json"@[0]);
    }
    assert(packed_repo(syms, budget, "xml"@) == packed_xml(files, top, budget));
    if text_tokens(xml_wrap(seq![])) <= budget {
        lemma_xml_fill_fits(seq![], files, top, budget);
    } else {
        assert(vstd::utf8::encode_utf8(Seq::<char>::empty()) =~= Seq::<u8>::empty());
    }
}

/// `serde_json::to_string_pretty` of `{"files": [{"path": .., "symbols": ..},
/// ..]}`, the entries converted to maps; the text it writes is named.
#[verifier::external_body]
fn files_json(entries: &Vec<(String, String)>) -> (r: String)
    ensures
        r@ == spec_files_json(entries@.map_values(|e: (String, String)| (e.0@, e.1@))),
{
    let files: Vec<BTreeMap<&str, &str>> =
        entries.iter().map(|(p, s)| BTreeMap::from([("path", p.as_str()), ("symbols", s.as_str())])).collect();
    serde_json::to_string_pretty(&BTreeMap::from([("files", files)])).unwrap_or_default()
}

/// The signatures of file `f` among `recs`, joined by line feeds.
fn joined_signatures(recs: &Vec<&SymbolRecord>, f: &str) -> (r: String)
    ensures
        r@ == join_lines(signature_list(derefs(recs@), f@)),
{
    let ghost ds = derefs(recs@);
    let mut out = String::new();
    let mut count: usize = 0;
    let mut i: usize = 0;
    while i < recs.len()
        invariant
            ds == derefs(recs@),
            i <= recs@.len(),
            count == signature_list(ds.take(i as int), f@).len(),
            count <= i,
            out@ == join_lines(signature_list(ds.take(i as int), f@)),
        decreases recs@.len() - i,
    {
        proof {
            assert(ds.take(i + 1).drop_last() =~= ds.take(i as int));
        }
        let ghost sl = signature_list(ds.take(i as int), f@);
        if str_eq(recs[i].file_path.as_str(), f) {
            if count > 0 {
                push_char(&mut out, '\n');
            }
            push_str(&mut out, recs[i].signature.as_str());
            count = count + 1;
            proof {
                let sl2 = sl.push(recs@[i as int].signature@);
                assert(sl2.drop_last() =~= sl);
                if sl.len() == 0 {
                    assert(out@ =~= join_lines(sl2));
                } else {
                    assert(out@ =~= join_lines(sl2));
                }
            }
        }
        i = i + 1;
    }
    proof {
        assert(ds.take(recs@.len() as int) =~= ds);
    }
    out
}

fn xml_block(recs: &Vec<&SymbolRecord>, f: &str) -> (r: String)
    ensures
        r@ == xml_file_block(f@, derefs(recs@)),
{
    let mut b = String::new();
    push_str(&mut b, "<file path=\"");
    push_str(&mut b, f);
    push_str(&mut b, "\">\n");
    push_signature_lines(&mut b, recs, f);
    push_str(&mut b, "</file>\n");
    proof {
        assert(b@ =~= xml_file_block(f@, derefs(recs@)));
    }
    b
}

/// `<repo>`, `body`, `</repo>`.
fn wrap_xml(body: &str) -> (r: String)
    ensures
        r@ == xml_wrap(body@),
{
    let mut out = String::new();
    push_str(&mut out, "<repo>\n");
    push_str(&mut out, body);
    push_str(&mut out, "</repo>\n");
    proof {
        assert(out@ =~= xml_wrap(body@));
    }
    out
}

fn pack_xml(files: &Vec<String>, recs: &Vec<&SymbolRecord>, token_budget: usize) -> (r: String)
    ensures
        r@ == packed_xml(views(files@), derefs(recs@), token_budget as nat),
{
    let ghost fs = views(files@);
    let ghost ds = derefs(recs@);
    let mut body = String::new();
    let bare = wrap_xml(body.as_str());
    if estimate_tokens(bare.as_str()) > token_budget {
        return String::new();
    }
    proof {
        assert(fs.subrange(0, fs.len() as int) =~= fs);
        assert(body@ =~= Seq::<char>::empty());
    }
    let mut i: usize = 0;
    while i < files.len()
        invariant_except_break
            fs == views(files@),
            ds == derefs(recs@),
            i <= files@.len(),
            xml_fill(body@, fs.subrange(i as int, fs.len() as int), ds, token_budget as nat)
                == xml_fill(seq![], fs, ds, token_budget as nat),
        ensures
            body@ == xml_fill(seq![], fs, ds, token_budget as nat),
        decreases files@.len() - i,
    {
        let rest = Ghost(fs.subrange(i as int, fs.len() as int));
        proof {
            assert(rest@[0] == fs[i as int]);
            assert(rest@.drop_first() =~= fs.subrange(i + 1, fs.len() as int));
        }
        let block = xml_block(recs, files[i].as_str());
        let mut grown = body.clone();
        push_str(&mut grown, block.as_str());
        let doc = wrap_xml(grown.as_str());
        if estimate_tokens(doc.as_str()) > token_budget {
            break;
        }
        body = grown;
        i = i + 1;
    }
    wrap_xml(body.as_str())
}

proof fn lemma_json_step(files: Seq<Seq<char>>, syms: Seq<SymbolRecord>, budget: nat, used: nat, i: int)
    requires
        0 <= i < files.len(),
    ensures
        ({
            let rest = files.subrange(i, files.len() as int);
            let content = join_lines(signature_list(syms, files[i]));
            let cost = text_tokens(content) + 20;
            &&& used + cost > budget ==> json_entries(rest, syms, budget, used) == Seq::<(Seq<char>, Seq<char>)>::empty()
            &&& used + cost <= budget ==> json_entries(rest, syms, budget, used) == seq![(files[i], content)] + json_entries(
                files.subrange(i + 1, files.len() as int),
                syms,
                budget,
                used + cost,
            )
        }),
{
    let rest = files.subrange(i, files.len() as int);
    assert(rest[0] == files[i]);
    assert(rest.drop_first() =~= files.subrange(i + 1, files.len() as int));
}

fn pack_json(files: &Vec<String>, recs: &Vec<&SymbolRecord>, token_budget: usize) -> (r: String)
    ensures
        r@ == spec_files_json(json_entries(views(files@), derefs(recs@), token_budget as nat, 20)),
{
    let ghost fs = views(files@);
    let ghost ds = derefs(recs@);
    let mut entries: Vec<(String, String)> = Vec::new();
    let mut used: usize = 20;
    proof {
        assert(fs.subrange(0, fs.len() as int) =~= fs);
    }
    let mut i: usize = 0;
    while i < files.len()
        invariant_except_break
            fs == views(files@),
            ds == derefs(recs@),
            i <= files@.len(),
            entries@.map_values(|e: (String, String)| (e.0@, e.1@)) + json_entries(fs.subrange(i as int, fs.len() as int), ds, token_budget as nat, used as nat)
                == json_entries(fs, ds, token_budget as nat, 20),
        ensures
            entries@.map_values(|e: (String, String)| (e.0@, e.1@)) == json_entries(fs, ds, token_budget as nat, 20),
        decreases files@.len() - i,
    {
        let content = joined_signatures(recs, files[i].as_str());
        let tokens = estimate_tokens(content.as_str());
        proof {
            lemma_json_step(fs, ds, token_budget as nat, used as nat, i as int);
        }
        if used > token_budget || tokens > token_budget - used || 20 > token_budget - used - tokens {
            proof {
                let ev = entries@.map_values(|e: (String, String)| (e.0@, e.1@));
                assert(ev + Seq::<(Seq<char>, Seq<char>)>::empty() =~= ev);
            }
            break;
        }
        let ghost old_entries = entries@.map_values(|e: (String, String)| (e.0@, e.1@));
        entries.push((to_owned(files[i].as_str()), content));
        used = used + tokens + 20;
        i = i + 1;
        proof {
            let ev = entries@.map_values(|e: (String, String)| (e.0@, e.1@));
            assert(ev =~= old_entries + seq![(fs[i - 1], join_lines(signature_list(ds, fs[i - 1])))]);
            assert(ev + json_entries(fs.subrange(i as int, fs.len() as int), ds, token_budget as nat, used as nat)
                =~= json_entries(fs, ds, token_budget as nat, 20));
        }
    }
    files_json(&entries)
}

/// Pack the repository's top-level signatures into one artifact within a
/// token budget: JSON when `format` is `json`, XML otherwise. The XML
/// artifact, tags included, never takes more estimated tokens than the
/// budget.
pub fn pack_repo(symbols: &[SymbolRecord], token_budget: usize, format: &str) -> (r: String)
    ensures
        r@ == packed_repo(symbols@, token_budget as nat, format@),
        format@ != "json"@ ==> text_tokens(r@) <= token_budget,
{
    proof {
        let top = top_level(symbols@);
        if text_tokens(xml_wrap(seq![])) <= token_budget {
            lemma_xml_fill_fits(seq![], file_order(top), top, token_budget as nat);
        } else {
            assert(vstd::utf8::encode_utf8(Seq::<char>::empty()) =~= Seq::<u8>::empty());
        }
    }
    let mut top: Vec<&SymbolRecord> = Vec::new();
    let mut i: usize = 0;
    while i < symbols.len()
        invariant
            i <= symbols@.len(),
            derefs(top@) == top_level(symbols@.take(i as int)),
        decreases symbols@.len() - i,
    {
        proof {
            assert(symbols@.take(i + 1).drop_last() =~= symbols@.take(i as int));
        }
        let ghost old_top = derefs(top@);
        if symbols[i].parent_id.is_none() {
            top.push(&symbols[i]);
            proof {
                assert(derefs(top@) =~= old_top.push(symbols@[i as int]));
            }
        }
        i = i + 1;
    }
    proof {
        assert(symbols@.take(symbols@.len() as int) =~= symbols@);
    }
    let files = sorted_file_paths(&top);
    if str_eq(format, "json") {
        pack_json(&files, &top, token_budget)
    } else {
        pack_xml(&files, &top, token_budget)
    }
}

} // verus!
