//! The SQL of the index's two text searches: symbols by name, signature,
//! docstring or path, ranked by where the words match; and import
//! statements by text or module. A query is split into words; words of at
//! most two bytes match only whole names or path components.
use vstd::prelude::*;
use crate::mcp::{join_strings, joined, push_all};
use crate::text::{byte_len, concat, decimal, is_whitespace, is_ws, push_char, to_owned, usize_to_string, views};

verus! {

/// A statement with its positional parameters (`?1`, `?2`, ...).
#[derive(Clone, Debug)]
pub struct SqlQuery {
    pub sql: String,
    pub params: Vec<String>,
}

// ─── Words ───────────────────────────────────────────────────────────

/// The words finished so far and the word being read, after reading `s`.
pub open spec fn scan_words(s: Seq<char>) -> (Seq<Seq<char>>, Seq<char>)
    decreases s.len(),
{
    if s.len() == 0 {
        (seq![], seq![])
    } else {
        let (ws, cur) = scan_words(s.drop_last());
        if is_ws(s.last()) {
            if cur.len() > 0 {
                (ws.push(cur), seq![])
            } else {
                (ws, seq![])
            }
        } else {
            (ws, cur.push(s.last()))
        }
    }
}

/// The whitespace-separated words of `s`, as `str::split_whitespace` gives them.
pub open spec fn words(s: Seq<char>) -> Seq<Seq<char>> {
    let (ws, cur) = scan_words(s);
    if cur.len() > 0 {
        ws.push(cur)
    } else {
        ws
    }
}

proof fn lemma_scan_words_len(s: Seq<char>)
    ensures
        scan_words(s).0.len() + scan_words(s).1.len() <= s.len(),
    decreases s.len(),
{
    if s.len() > 0 {
        lemma_scan_words_len(s.drop_last());
    }
}

/// A text has no more words than characters.
pub proof fn lemma_words_len(s: Seq<char>)
    ensures
        words(s).len() <= s.len(),
{
    lemma_scan_words_len(s);
}

/// The whitespace-separated words of `s`.
pub fn split_words(s: &str) -> (r: Vec<String>)
    ensures
        views(r@) == words(s@),
{
    let cs = crate::text::chars_of(s);
    let mut ws: Vec<String> = Vec::new();
    let mut cur = String::new();
    let mut i: usize = 0;
    while i < cs.len()
        invariant
            cs@ == s@,
            i <= cs@.len(),
            views(ws@) == scan_words(cs@.take(i as int)).0,
            cur@ == scan_words(cs@.take(i as int)).1,
        decreases cs@.len() - i,
    {
        let c = cs[i];
        proof {
            assert(cs@.take(i + 1).drop_last() =~= cs@.take(i as int));
            assert(cs@.take(i + 1).last() == c);
        }
        let ghost old_ws = views(ws@);
        let ghost old_cur = cur@;
        if is_whitespace(c) {
            if !cur.as_str().is_empty() {
                ws.push(cur);
                proof {
                    assert(views(ws@) =~= old_ws.push(old_cur));
                }
            }
            cur = String::new();
        } else {
            push_char(&mut cur, c);
        }
        i = i + 1;
        proof {
            assert(views(ws@) =~= scan_words(cs@.take(i as int)).0);
            assert(cur@ =~= scan_words(cs@.take(i as int)).1);
        }
    }
    proof {
        assert(cs@.take(i as int) =~= s@);
    }
    let ghost old_ws = views(ws@);
    let ghost old_cur = cur@;
    if !cur.as_str().is_empty() {
        ws.push(cur);
        proof {
            assert(views(ws@) =~= old_ws.push(old_cur));
        }
    }
    ws
}

/// A word longer than two bytes, which may match inside a text.
pub open spec fn is_long(w: Seq<char>) -> bool {
    byte_len(w) > 2
}

pub open spec fn long_word() -> spec_fn(Seq<char>) -> bool {
    |w: Seq<char>| is_long(w)
}

/// `?n`, a positional parameter.
pub open spec fn param_ref(n: nat) -> Seq<char> {
    "?"@ + decimal(n)
}

/// `%w%`: `w` anywhere in a `LIKE` match.
pub open spec fn anywhere(w: Seq<char>) -> Seq<char> {
    "%"@ + w + "%"@
}

// ─── Symbol search ───────────────────────────────────────────────────

/// The condition a short word puts on a symbol, with its parameters at
/// `p`, `p + 1`, `p + 2`: the whole name, a name prefix, or a path component.
pub open spec fn short_symbol_where(p: nat) -> Seq<char> {
    "(LOWER(s.name) = LOWER("@ + param_ref(p) + ") OR LOWER(s.qualified_name) = LOWER("@ + param_ref(p)
        + ") OR LOWER(s.name) LIKE LOWER("@ + param_ref(p + 1) + ") OR LOWER(s.qualified_name) LIKE LOWER("@
        + param_ref(p + 1) + ") OR f.path LIKE "@ + param_ref(p + 2) + ")"@
}

/// The condition a long word puts on a symbol, with its parameter at `p`.
pub open spec fn long_symbol_where(p: nat) -> Seq<char> {
    "(s.name LIKE "@ + param_ref(p) + " OR s.qualified_name LIKE "@ + param_ref(p) + " OR s.signature LIKE "@
        + param_ref(p) + " OR COALESCE(s.docstring,'') LIKE "@ + param_ref(p) + " OR f.path LIKE "@ + param_ref(p)
        + ")"@
}

/// The conditions and parameters of the words `ws`: the short form for
/// each word where `short`, else the long form.
pub open spec fn symbol_where(ws: Seq<Seq<char>>, short: bool) -> (Seq<Seq<char>>, Seq<Seq<char>>)
    decreases ws.len(),
{
    if ws.len() == 0 {
        (seq![], seq![])
    } else {
        let (parts, params) = symbol_where(ws.drop_last(), short);
        let w = ws.last();
        let p = params.len() + 1;
        if short {
            (parts.push(short_symbol_where(p)), params + seq![w, w + "%"@, "%/"@ + w + "%"@])
        } else {
            (parts.push(long_symbol_where(p)), params.push(anywhere(w)))
        }
    }
}

/// The rank a word adds to a symbol, by where it matches.
pub open spec fn rank_term(p: nat) -> Seq<char> {
    "CASE WHEN s.qualified_name LIKE "@ + param_ref(p) + " THEN -12 WHEN s.name LIKE "@ + param_ref(p)
        + " THEN -10 WHEN f.path LIKE "@ + param_ref(p) + " THEN -5 WHEN s.signature LIKE "@ + param_ref(p)
        + " THEN -3 WHEN COALESCE(s.docstring,'') LIKE "@ + param_ref(p) + " THEN -1 ELSE 0 END"@
}

/// The rank terms of the words `ws` after `params`, and the parameters
/// with theirs added.
pub open spec fn rank_terms(ws: Seq<Seq<char>>, params: Seq<Seq<char>>) -> (Seq<Seq<char>>, Seq<Seq<char>>)
    decreases ws.len(),
{
    if ws.len() == 0 {
        (seq![], params)
    } else {
        let (parts, ps) = rank_terms(ws.drop_last(), params);
        (parts.push(rank_term(ps.len() + 1)), ps.push(anywhere(ws.last())))
    }
}

/// The top rank of an exact name match.
pub open spec fn exact_rank(p: nat) -> Seq<char> {
    "CASE WHEN s.name = "@ + param_ref(p) + " OR s.qualified_name = "@ + param_ref(p) + " THEN -100 ELSE 0 END"@
}

/// The rank that sinks variables and constants.
pub open spec fn kind_penalty() -> Seq<char> {
    "CASE WHEN s.kind = 'variable' THEN 5 WHEN s.kind = 'const' THEN 3 ELSE 0 END"@
}

/// The symbol search for `query`, at most `max` rows; `None` where the
/// query has no words. Where every word is short, each must match a whole
/// name, a name prefix or a path component; else each long word may match
/// anywhere in the name, signature, docstring or path, and short ones are
/// left out. Rows are ordered by exact name match, then by how each word
/// matches, variables and constants last.
pub open spec fn symbol_search(query: Seq<char>, max: usize) -> Option<(Seq<char>, Seq<Seq<char>>)> {
    let ws = words(query);
    if ws.len() == 0 {
        None
    } else {
        let long = ws.filter(long_word());
        let short = long.len() == 0;
        let search = if short { ws } else { long };
        let (where_parts, where_params) = symbol_where(search, short);
        let exact = where_params.push(query);
        let (ranks, params) = rank_terms(search, exact);
        let rank_parts = seq![exact_rank(exact.len())] + ranks + seq![kind_penalty()];
        let sql = "SELECT s.id, f.path, s.name, COALESCE(s.qualified_name, ''), s.kind, s.visibility, s.signature, s.docstring, s.byte_start, s.byte_end, s.parent_symbol_id FROM symbols s JOIN files f ON s.file_id = f.id WHERE "@
            + joined(where_parts, " OR "@) + " ORDER BY "@ + joined(rank_parts, " + "@) + " LIMIT "@ + param_ref(
            params.len() + 1,
        );
        Some((sql, params.push(decimal(max as nat))))
    }
}

/// The view of a built query.
pub open spec fn query_view(q: Option<SqlQuery>) -> Option<(Seq<char>, Seq<Seq<char>>)> {
    match q {
        Some(q) => Some((q.sql@, views(q.params@))),
        None => None,
    }
}

fn param_text(p: usize) -> (r: String)
    ensures
        r@ == param_ref(p as nat),
{
    let n = usize_to_string(p);
    let mut r = to_owned("?");
    crate::text::push_str(&mut r, n.as_str());
    r
}

/// The words of `ws` longer than two bytes.
fn long_words(ws: &Vec<String>) -> (r: Vec<String>)
    ensures
        views(r@) == views(ws@).filter(long_word()),
{
    let mut out: Vec<String> = Vec::new();
    let mut i: usize = 0;
    while i < ws.len()
        invariant
            i <= ws@.len(),
            views(out@) == views(ws@.take(i as int)).filter(long_word()),
        decreases ws@.len() - i,
    {
        let ghost before = views(out@);
        proof {
            assert(views(ws@.take(i + 1)) =~= views(ws@.take(i as int)).push(ws@[i as int]@));
            views(ws@.take(i as int)).lemma_filter_push(ws@[i as int]@, long_word());
        }
        if ws[i].as_str().len() > 2 {
            out.push(to_owned(ws[i].as_str()));
            proof {
                assert(views(out@) =~= before.push(ws@[i as int]@));
            }
        }
        i = i + 1;
    }
    proof {
        assert(ws@.take(i as int) =~= ws@);
    }
    out
}

/// Appends the conditions and parameters of the words `ws`.
fn push_symbol_where(ws: &Vec<String>, short: bool, parts: &mut Vec<String>, params: &mut Vec<String>)
    requires
        old(parts)@.len() == 0,
        old(params)@.len() == 0,
        3 * ws@.len() + 3 <= usize::MAX,
    ensures
        (views(final(parts)@), views(final(params)@)) == symbol_where(views(ws@), short),
        final(params)@.len() <= 3 * ws@.len(),
{
    let mut i: usize = 0;
    proof {
        assert(views(parts@) =~= seq![]);
        assert(views(params@) =~= seq![]);
        assert(views(ws@.take(0)) =~= seq![]);
    }
    while i < ws.len()
        invariant
            i <= ws@.len(),
            3 * ws@.len() + 3 <= usize::MAX,
            (views(parts@), views(params@)) == symbol_where(views(ws@.take(i as int)), short),
            params@.len() <= 3 * i,
        decreases ws@.len() - i,
    {
        let w = ws[i].as_str();
        let p = params.len() + 1;
        let ghost old_parts = views(parts@);
        let ghost old_params = views(params@);
        proof {
            assert(views(ws@.take(i + 1)).drop_last() =~= views(ws@.take(i as int)));
            assert(views(ws@.take(i + 1)).last() == w@);
        }
        if short {
            let a = param_text(p);
            let b = param_text(p + 1);
            let c = param_text(p + 2);
            let mut part = String::new();
            push_all(&mut part, &["(LOWER(s.name) = LOWER(", a.as_str(), ") OR LOWER(s.qualified_name) = LOWER(", a.as_str(),
                ") OR LOWER(s.name) LIKE LOWER(", b.as_str(), ") OR LOWER(s.qualified_name) LIKE LOWER(", b.as_str(),
                ") OR f.path LIKE ", c.as_str(), ")"]);
            parts.push(part);
            params.push(to_owned(w));
            let mut prefix = to_owned(w);
            crate::text::push_str(&mut prefix, "%");
            params.push(prefix);
            let mut component = String::new();
            push_all(&mut component, &["%/", w, "%"]);
            params.push(component);
            proof {
                reveal_with_fuel(concat, 12);
                assert(views(parts@) =~= old_parts.push(short_symbol_where(p as nat)));
                assert(views(params@) =~= old_params + seq![w@, w@ + "%"@, "%/"@ + w@ + "%"@]);
            }
        } else {
            let a = param_text(p);
            let mut part = String::new();
            push_all(&mut part, &["(s.name LIKE ", a.as_str(), " OR s.qualified_name LIKE ", a.as_str(), " OR s.signature LIKE ",
                a.as_str(), " OR COALESCE(s.docstring,'') LIKE ", a.as_str(), " OR f.path LIKE ", a.as_str(), ")"]);
            parts.push(part);
            let mut any = String::new();
            push_all(&mut any, &["%", w, "%"]);
            params.push(any);
            proof {
                reveal_with_fuel(concat, 12);
                assert(views(parts@) =~= old_parts.push(long_symbol_where(p as nat)));
                assert(views(params@) =~= old_params.push(anywhere(w@)));
            }
        }
        i = i + 1;
    }
    proof {
        assert(ws@.take(i as int) =~= ws@);
    }
}

/// Appends the rank terms of the words `ws` and their parameters.
fn push_rank_terms(ws: &Vec<String>, parts: &mut Vec<String>, params: &mut Vec<String>)
    requires
        old(parts)@.len() == 0,
        old(params)@.len() + ws@.len() + 2 <= usize::MAX,
    ensures
        (views(final(parts)@), views(final(params)@)) == rank_terms(views(ws@), views(old(params)@)),
        final(params)@.len() == old(params)@.len() + ws@.len(),
{
    let ghost p0 = views(params@);
    let ghost n0 = params@.len();
    let mut i: usize = 0;
    proof {
        assert(views(parts@) =~= seq![]);
        assert(views(ws@.take(0)) =~= seq![]);
    }
    while i < ws.len()
        invariant
            i <= ws@.len(),
            n0 + ws@.len() + 2 <= usize::MAX,
            params@.len() == n0 + i,
            (views(parts@), views(params@)) == rank_terms(views(ws@.take(i as int)), p0),
        decreases ws@.len() - i,
    {
        let w = ws[i].as_str();
        let p = params.len() + 1;
        let ghost old_parts = views(parts@);
        let ghost old_params = views(params@);
        proof {
            assert(views(ws@.take(i + 1)).drop_last() =~= views(ws@.take(i as int)));
            assert(views(ws@.take(i + 1)).last() == w@);
        }
        let a = param_text(p);
        let mut part = String::new();
        push_all(&mut part, &["CASE WHEN s.qualified_name LIKE ", a.as_str(), " THEN -12 WHEN s.name LIKE ", a.as_str(),
            " THEN -10 WHEN f.path LIKE ", a.as_str(), " THEN -5 WHEN s.signature LIKE ", a.as_str(),
            " THEN -3 WHEN COALESCE(s.docstring,'') LIKE ", a.as_str(), " THEN -1 ELSE 0 END"]);
        parts.push(part);
        let mut any = String::new();
        push_all(&mut any, &["%", w, "%"]);
        params.push(any);
        proof {
            reveal_with_fuel(concat, 12);
            assert(views(parts@) =~= old_parts.push(rank_term(p as nat)));
            assert(views(params@) =~= old_params.push(anywhere(w@)));
        }
        i = i + 1;
    }
    proof {
        assert(ws@.take(i as int) =~= ws@);
    }
}

/// The SQL and parameters of the symbol search for `query`, at most
/// `max_results` rows; `None` where the query has no words.
pub fn symbol_search_query(query: &str, max_results: usize) -> (r: Option<SqlQuery>)
    requires
        query@.len() <= usize::MAX / 8,
    ensures
        query_view(r) == symbol_search(query@, max_results),
{
    let ws = split_words(query);
    proof {
        lemma_words_len(query@);
    }
    if ws.len() == 0 {
        return None;
    }
    let long = long_words(&ws);
    let short = long.len() == 0;
    let ghost all = views(ws@);
    let ghost longs = views(long@);
    let search = if short { ws } else { long };
    proof {
        all.lemma_filter_len(long_word());
    }
    let ghost sv = views(search@);
    assert(sv == (if longs.len() == 0 { all } else { longs }));
    let mut where_parts: Vec<String> = Vec::new();
    let mut params: Vec<String> = Vec::new();
    push_symbol_where(&search, short, &mut where_parts, &mut params);
    let ghost wparams = views(params@);
    params.push(to_owned(query));
    proof {
        assert(views(params@) =~= wparams.push(query@));
    }
    let e = param_text(params.len());
    let mut exact = String::new();
    push_all(&mut exact, &["CASE WHEN s.name = ", e.as_str(), " OR s.qualified_name = ", e.as_str(), " THEN -100 ELSE 0 END"]);
    let ghost exact_params = views(params@);
    let ghost first = exact@;
    proof {
        reveal_with_fuel(concat, 6);
        assert(first =~= exact_rank(exact_params.len()));
    }
    let mut ranks: Vec<String> = Vec::new();
    push_rank_terms(&search, &mut ranks, &mut params);
    let mut rank_parts: Vec<String> = Vec::new();
    rank_parts.push(exact);
    let mut k: usize = 0;
    proof {
        assert(views(rank_parts@) =~= seq![first] + views(ranks@.take(0)));
    }
    while k < ranks.len()
        invariant
            k <= ranks@.len(),
            first == exact_rank(exact_params.len()),
            views(rank_parts@) == seq![first] + views(ranks@.take(k as int)),
        decreases ranks@.len() - k,
    {
        let ghost before = views(rank_parts@);
        rank_parts.push(to_owned(ranks[k].as_str()));
        proof {
            assert(views(ranks@.take(k + 1)) =~= views(ranks@.take(k as int)).push(ranks@[k as int]@));
            assert(views(rank_parts@) =~= before.push(ranks@[k as int]@));
            assert(views(rank_parts@) =~= seq![first] + views(ranks@.take(k + 1)));
        }
        k = k + 1;
    }
    rank_parts.push(to_owned("CASE WHEN s.kind = 'variable' THEN 5 WHEN s.kind = 'const' THEN 3 ELSE 0 END"));
    let wh = join_strings(&where_parts, " OR ");
    let rk = join_strings(&rank_parts, " + ");
    let lim = param_text(params.len() + 1);
    let mut sql = String::new();
    push_all(&mut sql, &["SELECT s.id, f.path, s.name, COALESCE(s.qualified_name, ''), s.kind, s.visibility, s.signature, s.docstring, s.byte_start, s.byte_end, s.parent_symbol_id FROM symbols s JOIN files f ON s.file_id = f.id WHERE ",
        wh.as_str(), " ORDER BY ", rk.as_str(), " LIMIT ", lim.as_str()]);
    params.push(usize_to_string(max_results));
    proof {
        reveal_with_fuel(concat, 8);
        assert(ranks@.take(ranks@.len() as int) =~= ranks@);
        let q = symbol_search(query@, max_results);
        assert(all == words(query@));
        assert(longs == all.filter(long_word()));
        assert(symbol_where(sv, short) == (views(where_parts@), wparams));
        assert(exact_params == wparams.push(query@));
        assert(views(rank_parts@) =~= seq![exact_rank(exact_params.len())] + views(ranks@) + seq![kind_penalty()]);
        assert(q == Some((sql@, views(params@))));
    }
    Some(SqlQuery { sql, params })
}

// ─── Import search ───────────────────────────────────────────────────

/// The condition and parameters of one word of an import search, its
/// parameters from `p` on: a short word is a whole module name, a module
/// prefix or a last module component; a long one may occur anywhere in the
/// statement or the module.
pub open spec fn import_where(ws: Seq<Seq<char>>) -> (Seq<Seq<char>>, Seq<Seq<char>>)
    decreases ws.len(),
{
    if ws.len() == 0 {
        (seq![], seq![])
    } else {
        let (parts, params) = import_where(ws.drop_last());
        let w = ws.last();
        let p = params.len() + 1;
        if !is_long(w) {
            (
                parts.push(
                    "(COALESCE(i.source_module,'') = "@ + param_ref(p) + " OR COALESCE(i.source_module,'') LIKE "@
                        + param_ref(p + 1) + " OR COALESCE(i.source_module,'') LIKE "@ + param_ref(p + 2) + ")"@,
                ),
                params + seq![w, w + "/%"@, "%/"@ + w],
            )
        } else {
            (
                parts.push("(i.raw_text LIKE "@ + param_ref(p) + " OR COALESCE(i.source_module,'') LIKE "@ + param_ref(p) + ")"@),
                params.push(anywhere(w)),
            )
        }
    }
}

/// The import search for `query`, at most `max` rows in file order; `None`
/// where the query has no words.
pub open spec fn import_search(query: Seq<char>, max: usize) -> Option<(Seq<char>, Seq<Seq<char>>)> {
    let ws = words(query);
    if ws.len() == 0 {
        None
    } else {
        let (parts, params) = import_where(ws);
        let sql = "SELECT f.path, i.raw_text, i.source_module FROM imports i JOIN files f ON i.file_id = f.id WHERE "@
            + joined(parts, " OR "@) + " ORDER BY f.path LIMIT "@ + param_ref(params.len() + 1);
        Some((sql, params.push(decimal(max as nat))))
    }
}

/// The SQL and parameters of the import search for `query`, at most
/// `max_results` rows; `None` where the query has no words.
pub fn import_search_query(query: &str, max_results: usize) -> (r: Option<SqlQuery>)
    requires
        query@.len() <= usize::MAX / 8,
    ensures
        query_view(r) == import_search(query@, max_results),
{
    let ws = split_words(query);
    proof {
        lemma_words_len(query@);
    }
    if ws.len() == 0 {
        return None;
    }
    let mut parts: Vec<String> = Vec::new();
    let mut params: Vec<String> = Vec::new();
    let mut i: usize = 0;
    proof {
        assert(views(parts@) =~= seq![]);
        assert(views(params@) =~= seq![]);
        assert(views(ws@.take(0)) =~= seq![]);
    }
    while i < ws.len()
        invariant
            i <= ws@.len(),
            ws@.len() <= usize::MAX / 8,
            (views(parts@), views(params@)) == import_where(views(ws@.take(i as int))),
            params@.len() <= 3 * i,
        decreases ws@.len() - i,
    {
        let w = ws[i].as_str();
        let p = params.len() + 1;
        let ghost old_parts = views(parts@);
        let ghost old_params = views(params@);
        proof {
            assert(views(ws@.take(i + 1)).drop_last() =~= views(ws@.take(i as int)));
            assert(views(ws@.take(i + 1)).last() == w@);
        }
        if w.len() <= 2 {
            let a = param_text(p);
            let b = param_text(p + 1);
            let c = param_text(p + 2);
            let mut part = String::new();
            push_all(&mut part, &["(COALESCE(i.source_module,'') = ", a.as_str(), " OR COALESCE(i.source_module,'') LIKE ",
                b.as_str(), " OR COALESCE(i.source_module,'') LIKE ", c.as_str(), ")"]);
            parts.push(part);
            params.push(to_owned(w));
            let mut prefix = to_owned(w);
            crate::text::push_str(&mut prefix, "/%");
            params.push(prefix);
            let mut last = to_owned("%/");
            crate::text::push_str(&mut last, w);
            params.push(last);
            proof {
                reveal_with_fuel(concat, 8);
                assert(views(params@) =~= old_params + seq![w@, w@ + "/%"@, "%/"@ + w@]);
            }
        } else {
            let a = param_text(p);
            let mut part = String::new();
            push_all(&mut part, &["(i.raw_text LIKE ", a.as_str(), " OR COALESCE(i.source_module,'') LIKE ", a.as_str(), ")"]);
            parts.push(part);
            let mut any = String::new();
            push_all(&mut any, &["%", w, "%"]);
            params.push(any);
            proof {
                reveal_with_fuel(concat, 8);
                assert(views(params@) =~= old_params.push(anywhere(w@)));
            }
        }
        proof {
            assert(views(parts@) =~= import_where(views(ws@.take(i + 1))).0);
        }
        i = i + 1;
    }
    proof {
        assert(ws@.take(i as int) =~= ws@);
    }
    let wh = join_strings(&parts, " OR ");
    let lim = param_text(params.len() + 1);
    let mut sql = String::new();
    push_all(&mut sql, &["SELECT f.path, i.raw_text, i.source_module FROM imports i JOIN files f ON i.file_id = f.id WHERE ",
        wh.as_str(), " ORDER BY f.path LIMIT ", lim.as_str()]);
    params.push(usize_to_string(max_results));
    proof {
        reveal_with_fuel(concat, 5);
    }
    Some(SqlQuery { sql, params })
}

// ─── Lookup by name ──────────────────────────────────────────────────

/// The symbol lookup by exact (scoped) name, `?1`, and, where one is given,
/// of the kind `?2`.
pub open spec fn find_symbol_sql(with_kind: bool) -> Seq<char> {
    if with_kind {
        "SELECT s.id, f.path, s.name, COALESCE(s.qualified_name, ''), s.kind, s.visibility, s.signature, s.docstring, s.byte_start, s.byte_end, s.parent_symbol_id FROM symbols s JOIN files f ON s.file_id = f.id WHERE (s.qualified_name = ?1 OR s.name = ?1) AND s.kind = ?2"@
    } else {
        "SELECT s.id, f.path, s.name, COALESCE(s.qualified_name, ''), s.kind, s.visibility, s.signature, s.docstring, s.byte_start, s.byte_end, s.parent_symbol_id FROM symbols s JOIN files f ON s.file_id = f.id WHERE s.qualified_name = ?1 OR s.name = ?1"@
    }
}

/// The statement and parameters of a symbol lookup by `name`, of `kind`
/// where given; both are bound as parameters.
pub fn find_symbol_query(name: &str, kind: Option<&str>) -> (r: SqlQuery)
    ensures
        r.sql@ == find_symbol_sql(kind is Some),
        views(r.params@) == match kind {
            Some(k) => seq![name@, k@],
            None => seq![name@],
        },
{
    let mut params: Vec<String> = Vec::new();
    params.push(to_owned(name));
    match kind {
        Some(k) => {
            params.push(to_owned(k));
            proof {
                assert(views(params@) =~= seq![name@, k@]);
            }
            SqlQuery {
                sql: to_owned("SELECT s.id, f.path, s.name, COALESCE(s.qualified_name, ''), s.kind, s.visibility, s.signature, s.docstring, s.byte_start, s.byte_end, s.parent_symbol_id FROM symbols s JOIN files f ON s.file_id = f.id WHERE (s.qualified_name = ?1 OR s.name = ?1) AND s.kind = ?2"),
                params,
            }
        },
        None => {
            proof {
                assert(views(params@) =~= seq![name@]);
            }
            SqlQuery {
                sql: to_owned("SELECT s.id, f.path, s.name, COALESCE(s.qualified_name, ''), s.kind, s.visibility, s.signature, s.docstring, s.byte_start, s.byte_end, s.parent_symbol_id FROM symbols s JOIN files f ON s.file_id = f.id WHERE s.qualified_name = ?1 OR s.name = ?1"),
                params,
            }
        },
    }
}

} // verus!
