//! Keeping the index fresh: the git hook that re-indexes after git
//! operations, its installation and removal, and the debouncing of file
//! change events.
use vstd::prelude::*;
use crate::pattern::{strip_prefix, strip_prefix_str};
use crate::text::{lemma_join_of_lines, lemma_lines_of_join, lemma_lines_occurrence, lemma_lines_split, lemma_lines_one, strip_cr, join_lines, push_char, contains_seq, occurs_at, first_line, lines, push_str, split_lines, starts_with, str_contains, str_eq, str_starts_with, to_owned, trim, trim_str, views, chars_of};

verus! {

/// The line that marks the hook's block in a hook script.
pub open spec fn hook_marker() -> Seq<char> {
    "# ForgeIndex auto-reindex hook"@
}

/// The hook script.
pub open spec fn hook_script() -> Seq<char> {
    "#!/bin/sh\n# ForgeIndex auto-reindex hook\n# Automatically re-indexes the codebase after git operations\nif command -v forgeindex > /dev/null 2>&1; then\n    forgeindex reindex > /dev/null 2>&1 &\nfi\n"@
}

/// The hook script, as text.
pub fn hook_script_text() -> (r: String)
    ensures
        r@ == hook_script(),
{
    to_owned("#!/bin/sh\n# ForgeIndex auto-reindex hook\n# Automatically re-indexes the codebase after git operations\nif command -v forgeindex > /dev/null 2>&1; then\n    forgeindex reindex > /dev/null 2>&1 &\nfi\n")
}

/// What a hook file holds once the hook is installed: the script where
/// there was no file, the old content, a blank line and the script where
/// the file lacked the hook, and `None` (leave it) where it has the hook.
pub open spec fn installed(existing: Option<Seq<char>>) -> Option<Seq<char>> {
    match existing {
        None => Some(hook_script()),
        Some(c) => if contains_seq(c, hook_marker()) {
            None
        } else {
            Some(c + "\n\n"@ + hook_script())
        },
    }
}

/// The content to write to a hook file to install the hook, if any.
pub fn install_hook_content(existing: Option<&str>) -> (r: Option<String>)
    ensures
        match installed(match existing { Some(c) => Some(c@), None => None }) {
            Some(t) => r matches Some(x) && x@ == t,
            None => r is None,
        },
{
    match existing {
        None => Some(hook_script_text()),
        Some(c) => {
            if str_contains(c, "# ForgeIndex auto-reindex hook") {
                None
            } else {
                let mut content = to_owned(c);
                push_str(&mut content, "\n\n");
                let script = hook_script_text();
                push_str(&mut content, script.as_str());
                Some(content)
            }
        },
    }
}

/// A line that belongs to the hook's block: a comment, an `if`, a `fi`,
/// one that mentions the tool, or a blank one.
pub open spec fn hook_line(line: Seq<char>) -> bool {
    starts_with(line, "#"@) || starts_with(line, "if "@) || starts_with(line, "fi"@) || contains_seq(line, "forgeindex"@)
        || trim(line).len() == 0
}

/// The shebang the installer writes at the head of the hook block.
pub open spec fn hook_shebang() -> Seq<char> {
    "#!/bin/sh"@
}

/// `kept` without a last line that is the hook block's shebang.
pub open spec fn drop_shebang(kept: Seq<Seq<char>>) -> Seq<Seq<char>> {
    if kept.len() > 0 && kept.last() == hook_shebang() {
        kept.drop_last()
    } else {
        kept
    }
}

/// `kept` without its trailing blank lines.
pub open spec fn drop_blank_tail(kept: Seq<Seq<char>>) -> Seq<Seq<char>>
    decreases kept.len(),
{
    if kept.len() > 0 && trim(kept.last()).len() == 0 {
        drop_blank_tail(kept.drop_last())
    } else {
        kept
    }
}

/// The lines kept after reading `ls`, and whether a hook block is being
/// skipped. The marker line and the block lines after it go; so do the
/// block's shebang just before the marker and the blank lines the
/// installer put before that.
pub open spec fn strip_hook(ls: Seq<Seq<char>>) -> (Seq<Seq<char>>, bool)
    decreases ls.len(),
{
    if ls.len() == 0 {
        (seq![], false)
    } else {
        let (kept, skipping) = strip_hook(ls.drop_last());
        let line = ls.last();
        if contains_seq(line, hook_marker()) {
            (drop_blank_tail(drop_shebang(kept)), true)
        } else if skipping && hook_line(line) {
            (kept, true)
        } else {
            (kept.push(line), false)
        }
    }
}

/// Installing the hook twice changes nothing the second time: once
/// installed, the file holds the hook.
pub proof fn lemma_install_idempotent(existing: Option<Seq<char>>)
    ensures
        installed(existing) matches Some(t) ==> installed(Some(t)) is None,
{
    reveal_strlit("# ForgeIndex auto-reindex hook");
    reveal_strlit("#!/bin/sh\n# ForgeIndex auto-reindex hook\n# Automatically re-indexes the codebase after git operations\nif command -v forgeindex > /dev/null 2>&1; then\n    forgeindex reindex > /dev/null 2>&1 &\nfi\n");
    reveal_strlit("\n\n");
    let m = hook_marker();
    let sc = hook_script();
    assert(sc.subrange(10, 10 + m.len() as int) =~= m);
    assert(occurs_at(sc, m, 10));
    match existing {
        None => {},
        Some(c) => {
            if !contains_seq(c, m) {
                let t = c + "\n\n"@ + sc;
                let k: int = c.len() as int + 12;
                assert(t.subrange(k, k + m.len()) =~= sc.subrange(10, 10 + m.len() as int));
                assert(occurs_at(t, m, k));
            }
        },
    }
}

/// No occurrence of `p` (which holds no line feed) crosses a line feed.
proof fn lemma_no_occurrence_across_newline(a: Seq<char>, b: Seq<char>, p: Seq<char>)
    requires
        !contains_seq(a, p),
        !contains_seq(b, p),
        p.len() > 0,
        forall|k: int| 0 <= k < p.len() ==> p[k] != '\n',
    ensures
        !contains_seq(a + seq!['\n'] + b, p),
{
    let s = a + seq!['\n'] + b;
    if contains_seq(s, p) {
        let i = choose|i: int| occurs_at(s, p, i);
        if i + p.len() <= a.len() {
            assert(s.subrange(i, i + p.len()) =~= a.subrange(i, i + p.len()));
            assert(occurs_at(a, p, i));
        } else if i >= a.len() + 1 {
            let j = i - a.len() - 1;
            assert(s.subrange(i, i + p.len()) =~= b.subrange(j, j + p.len()));
            assert(occurs_at(b, p, j));
        } else {
            let k = a.len() - i;
            assert(s.subrange(i, i + p.len())[k] == s[a.len() as int]);
            assert(s[a.len() as int] == '\n');
        }
    }
}

proof fn lemma_drop_blank_tail_prefix(k: Seq<Seq<char>>)
    ensures
        drop_blank_tail(k).len() <= k.len(),
        drop_blank_tail(k) == k.take(drop_blank_tail(k).len() as int),
    decreases k.len(),
{
    if k.len() > 0 && trim(k.last()).len() == 0 {
        lemma_drop_blank_tail_prefix(k.drop_last());
        assert(k.drop_last().take(drop_blank_tail(k).len() as int) =~= k.take(drop_blank_tail(k).len() as int));
    } else {
        assert(k.take(k.len() as int) =~= k);
    }
}

proof fn lemma_strip_hook_lacks_marker(ls: Seq<Seq<char>>)
    ensures
        forall|k: int| 0 <= k < strip_hook(ls).0.len() ==> !contains_seq(#[trigger] strip_hook(ls).0[k], hook_marker()),
    decreases ls.len(),
{
    if ls.len() > 0 {
        lemma_strip_hook_lacks_marker(ls.drop_last());
        let kept = strip_hook(ls.drop_last()).0;
        let line = ls.last();
        if contains_seq(line, hook_marker()) {
            let d = drop_shebang(kept);
            lemma_drop_blank_tail_prefix(d);
            let r = drop_blank_tail(d);
            assert forall|k: int| 0 <= k < r.len() implies !contains_seq(#[trigger] r[k], hook_marker()) by {
                assert(r[k] == d[k]);
                assert(d[k] == kept[k]);
            }
        } else if !(strip_hook(ls.drop_last()).1 && hook_line(line)) {
            let r = kept.push(line);
            assert forall|k: int| 0 <= k < r.len() implies !contains_seq(#[trigger] r[k], hook_marker()) by {
                if k < kept.len() {
                    assert(r[k] == kept[k]);
                }
            }
        }
    }
}

proof fn lemma_join_lacks(ls: Seq<Seq<char>>, p: Seq<char>)
    requires
        forall|k: int| 0 <= k < ls.len() ==> !contains_seq(#[trigger] ls[k], p),
        p.len() > 0,
        forall|k: int| 0 <= k < p.len() ==> p[k] != '\n',
    ensures
        !contains_seq(join_lines(ls), p),
    decreases ls.len(),
{
    if ls.len() == 0 {
        assert(!contains_seq(Seq::<char>::empty(), p));
    } else if ls.len() == 1 {
        assert(ls[0] == ls[0]);
    } else {
        let init = ls.drop_last();
        assert forall|k: int| 0 <= k < init.len() implies !contains_seq(#[trigger] init[k], p) by {
            assert(init[k] == ls[k]);
        }
        lemma_join_lacks(init, p);
        assert(ls.last() == ls[ls.len() - 1]);
        lemma_no_occurrence_across_newline(join_lines(init), ls.last(), p);
    }
}

/// Removing the hook leaves a file without it: installing again appends
/// the hook to what remains.
pub proof fn lemma_uninstall_removes_hook(content: Seq<char>)
    ensures
        removal(content) matches Removal::Rewrite(rest) ==> installed(Some(rest)) == Some(rest + "\n\n"@ + hook_script()),
{
    reveal_strlit("# ForgeIndex auto-reindex hook");
    let m = hook_marker();
    assert forall|k: int| 0 <= k < m.len() implies m[k] != '\n' by {}
    let kept = strip_hook(lines(content)).0;
    lemma_strip_hook_lacks_marker(lines(content));
    lemma_join_lacks(kept, m);
}

/// The lines of the hook script.
spec fn hook_lines() -> Seq<Seq<char>> {
    seq![
        "#!/bin/sh"@,
        "# ForgeIndex auto-reindex hook"@,
        "# Automatically re-indexes the codebase after git operations"@,
        "if command -v forgeindex > /dev/null 2>&1; then"@,
        "    forgeindex reindex > /dev/null 2>&1 &"@,
        "fi"@,
    ]
}

/// No position of `s` holds `c`, so nothing starting with `c` occurs in it.
proof fn lemma_no_start_char(s: Seq<char>, p: Seq<char>)
    requires
        p.len() > 0,
        forall|k: int| 0 <= k < s.len() ==> s[k] != p[0],
    ensures
        !contains_seq(s, p),
{
    if contains_seq(s, p) {
        let i = choose|i: int| occurs_at(s, p, i);
        assert(s.subrange(i, i + p.len())[0] == s[i]);
    }
}

proof fn lemma_hook_lines()
    ensures
        lines(hook_script()) == hook_lines(),
        hook_lines()[0] == hook_shebang(),
        !contains_seq(hook_lines()[0], hook_marker()),
        contains_seq(hook_lines()[1], hook_marker()),
        forall|k: int| 2 <= k < 6 ==> hook_line(#[trigger] hook_lines()[k]) && !contains_seq(hook_lines()[k], hook_marker()),
{
    reveal_strlit("#!/bin/sh\n# ForgeIndex auto-reindex hook\n# Automatically re-indexes the codebase after git operations\nif command -v forgeindex > /dev/null 2>&1; then\n    forgeindex reindex > /dev/null 2>&1 &\nfi\n");
    reveal_strlit("#!/bin/sh");
    reveal_strlit("# ForgeIndex auto-reindex hook");
    reveal_strlit("# Automatically re-indexes the codebase after git operations");
    reveal_strlit("if command -v forgeindex > /dev/null 2>&1; then");
    reveal_strlit("    forgeindex reindex > /dev/null 2>&1 &");
    reveal_strlit("fi");
    reveal_strlit("#");
    reveal_strlit("if ");
    reveal_strlit("forgeindex");
    let hl = hook_lines();
    let m = hook_marker();
    let nl = seq!['\n'];
    assert(join_lines(hl.take(1)) == hl[0]);
    assert(hl.take(2).drop_last() =~= hl.take(1));
    assert(join_lines(hl.take(2)) == hl[0] + nl + hl[1]);
    assert(hl.take(3).drop_last() =~= hl.take(2));
    assert(join_lines(hl.take(3)) == hl[0] + nl + hl[1] + nl + hl[2]);
    assert(hl.take(4).drop_last() =~= hl.take(3));
    assert(join_lines(hl.take(4)) == hl[0] + nl + hl[1] + nl + hl[2] + nl + hl[3]);
    assert(hl.take(5).drop_last() =~= hl.take(4));
    assert(join_lines(hl.take(5)) == hl[0] + nl + hl[1] + nl + hl[2] + nl + hl[3] + nl + hl[4]);
    assert(hl.take(6).drop_last() =~= hl.take(5));
    assert(hl.take(6) =~= hl);
    assert(join_lines(hl) == hl[0] + nl + hl[1] + nl + hl[2] + nl + hl[3] + nl + hl[4] + nl + hl[5]);
    assert(hook_script() =~= hl[0] + nl + hl[1] + nl + hl[2] + nl + hl[3] + nl + hl[4] + nl + hl[5] + nl);
    assert forall|k: int, j: int| 0 <= k < hl.len() && 0 <= j < hl[k].len() implies hl[k][j] != '\n' && hl[k][j] != '\r' by {
        if k == 0 {} else if k == 1 {} else if k == 2 {} else if k == 3 {} else if k == 4 {} else {}
    }
    lemma_lines_of_join(hl);
    assert(!contains_seq(hl[0], m)) by {
        if contains_seq(hl[0], m) {
            let i = choose|i: int| occurs_at(hl[0], m, i);
        }
    }
    assert(hl[1] == m);
    assert(hl[1].subrange(0, m.len() as int) =~= m);
    assert(occurs_at(hl[1], m, 0));
    assert(hl[2].subrange(0, 1) =~= "#"@);
    assert(starts_with(hl[2], "#"@));
    assert(hl[3].subrange(0, 3) =~= "if "@);
    assert(starts_with(hl[3], "if "@));
    assert(hl[4].subrange(4, 14) =~= "forgeindex"@);
    assert(occurs_at(hl[4], "forgeindex"@, 4));
    assert(hl[5].subrange(0, 2) =~= "fi"@);
    assert(starts_with(hl[5], "fi"@));
    assert(!contains_seq(hl[2], m)) by {
        if contains_seq(hl[2], m) {
            let i = choose|i: int| occurs_at(hl[2], m, i);
            assert(hl[2].subrange(i, i + m.len())[0] == hl[2][i]);
            if i > 0 {
                assert(hl[2][i] != '#');
            } else {
                assert(hl[2].subrange(i, i + m.len())[2] == hl[2][2]);
            }
        }
    }
    lemma_no_start_char(hl[3], m);
    lemma_no_start_char(hl[4], m);
    assert(!contains_seq(hl[5], m)) by {
        if contains_seq(hl[5], m) {
            let i = choose|i: int| occurs_at(hl[5], m, i);
        }
    }
}

/// One line of the walk that `strip_hook` makes.
spec fn strip_step(st: (Seq<Seq<char>>, bool), line: Seq<char>) -> (Seq<Seq<char>>, bool) {
    if contains_seq(line, hook_marker()) {
        (drop_blank_tail(drop_shebang(st.0)), true)
    } else if st.1 && hook_line(line) {
        (st.0, true)
    } else {
        (st.0.push(line), false)
    }
}

proof fn lemma_strip_push(ls: Seq<Seq<char>>, line: Seq<char>)
    ensures
        strip_hook(ls.push(line)) == strip_step(strip_hook(ls), line),
{
    assert(ls.push(line).drop_last() =~= ls);
}

/// Lines none of which holds the marker are all kept.
proof fn lemma_strip_without_marker(ls: Seq<Seq<char>>)
    requires
        forall|k: int| 0 <= k < ls.len() ==> !contains_seq(#[trigger] ls[k], hook_marker()),
    ensures
        strip_hook(ls) == (ls, false),
    decreases ls.len(),
{
    if ls.len() > 0 {
        let init = ls.drop_last();
        assert forall|k: int| 0 <= k < init.len() implies !contains_seq(#[trigger] init[k], hook_marker()) by {
            assert(init[k] == ls[k]);
        }
        lemma_strip_without_marker(init);
        lemma_strip_push(init, ls.last());
        assert(init.push(ls.last()) =~= ls);
    }
}

/// After lines that are all kept, the hook script's lines take the
/// blank lines before it and its shebang back out, and skip the rest.
proof fn lemma_strip_hook_tail(pre: Seq<Seq<char>>)
    requires
        strip_hook(pre) == (pre, false),
    ensures
        strip_hook(pre + hook_lines()) == (drop_blank_tail(pre), true),
{
    lemma_hook_lines();
    let hl = hook_lines();
    let p1 = pre.push(hl[0]);
    let p2 = p1.push(hl[1]);
    let p3 = p2.push(hl[2]);
    let p4 = p3.push(hl[3]);
    let p5 = p4.push(hl[4]);
    assert(pre + hl =~= p5.push(hl[5]));
    lemma_strip_push(pre, hl[0]);
    lemma_strip_push(p1, hl[1]);
    assert(p1.drop_last() =~= pre);
    assert(drop_shebang(p1) == pre);
    lemma_strip_push(p2, hl[2]);
    lemma_strip_push(p3, hl[3]);
    lemma_strip_push(p4, hl[4]);
    lemma_strip_push(p5, hl[5]);
    assert(hook_line(hl[2]) && hook_line(hl[3]) && hook_line(hl[4]) && hook_line(hl[5]));
    assert(!contains_seq(hl[2], hook_marker()) && !contains_seq(hl[3], hook_marker()));
    assert(!contains_seq(hl[4], hook_marker()) && !contains_seq(hl[5], hook_marker()));
}

proof fn lemma_drop_blank_tail_blank(k: Seq<Seq<char>>)
    ensures
        forall|i: int| drop_blank_tail(k).len() <= i < k.len() ==> trim(#[trigger] k[i]).len() == 0,
    decreases k.len(),
{
    if k.len() > 0 && trim(k.last()).len() == 0 {
        lemma_drop_blank_tail_blank(k.drop_last());
        assert forall|i: int| drop_blank_tail(k).len() <= i < k.len() implies trim(#[trigger] k[i]).len() == 0 by {
            if i < k.len() - 1 {
                assert(k[i] == k.drop_last()[i]);
            }
        }
    }
}

/// What removing the hook does once `rest` is what remains: delete the
/// file where the rest is blank or only the shebang, else write it back.
pub open spec fn removal_of_rest(rest: Seq<char>) -> Removal {
    if trim(rest).len() == 0 || trim(rest) == "#!/bin/sh"@ {
        Removal::Delete
    } else {
        Removal::Rewrite(rest)
    }
}

/// Removing the hook after installing it gives back what was there. Where
/// there was no hook file, the file is deleted. Where there was one (with
/// no carriage return and without the hook), what is written back is its
/// lines joined again, less the blank lines that ended it, and joining all
/// of its lines gives the old text; where even that is blank, or only the
/// shebang, the file is deleted.
pub proof fn lemma_uninstall_undoes_install(existing: Option<Seq<char>>)
    requires
        existing matches Some(c) ==> !contains_seq(c, hook_marker()) && forall|j: int| 0 <= j < c.len() ==> c[j] != '\r',
    ensures
        match existing {
            None => installed(None) == Some(hook_script()) && removal(hook_script()) == Removal::Delete,
            Some(c) => {
                let ls = lines(c + seq!['\n']);
                let kept = drop_blank_tail(ls);
                &&& installed(Some(c)) == Some(c + "\n\n"@ + hook_script())
                &&& join_lines(ls) == c
                &&& kept == ls.take(kept.len() as int)
                &&& forall|i: int| kept.len() <= i < ls.len() ==> trim(#[trigger] ls[i]).len() == 0
                &&& removal(c + "\n\n"@ + hook_script()) == removal_of_rest(join_lines(kept))
            },
        },
{
    reveal_strlit("# ForgeIndex auto-reindex hook");
    reveal_strlit("#!/bin/sh\n# ForgeIndex auto-reindex hook\n# Automatically re-indexes the codebase after git operations\nif command -v forgeindex > /dev/null 2>&1; then\n    forgeindex reindex > /dev/null 2>&1 &\nfi\n");
    reveal_strlit("\n\n");
    reveal_strlit("#!/bin/sh");
    lemma_hook_lines();
    let hl = hook_lines();
    let m = hook_marker();
    let sc = hook_script();
    assert(sc.subrange(10, 10 + m.len() as int) =~= m);
    assert(occurs_at(sc, m, 10));
    match existing {
        None => {
            let e: Seq<Seq<char>> = seq![];
            assert(e + hl =~= hl);
            lemma_strip_without_marker(e);
            lemma_strip_hook_tail(e);
            assert(drop_blank_tail(e) == e);
            assert(join_lines(e) == Seq::<char>::empty());
            assert(trim(Seq::<char>::empty()) =~= Seq::<char>::empty());
        },
        Some(c) => {
            lemma_undo_with_content(c);
        },
    }
}

proof fn lemma_lines_lack_marker(c: Seq<char>)
    requires
        !contains_seq(c, hook_marker()),
    ensures
        forall|k: int| 0 <= k < lines(c + seq!['\n']).len() ==> !contains_seq(#[trigger] lines(c + seq!['\n'])[k], hook_marker()),
{
    reveal_strlit("# ForgeIndex auto-reindex hook");
    let m = hook_marker();
    let nl = seq!['\n'];
    let ls = lines(c + nl);
    assert forall|k: int| 0 <= k < ls.len() implies !contains_seq(#[trigger] ls[k], m) by {
        if contains_seq(ls[k], m) {
            lemma_lines_occurrence(c + nl, m, k);
            let q = choose|q: int| occurs_at(c + nl, m, q);
            if q + m.len() > c.len() {
                assert((c + nl).subrange(q, q + m.len())[c.len() - q] == '\n');
                assert(m[c.len() - q] == '\n');
            }
            assert((c + nl).subrange(q, q + m.len()) =~= c.subrange(q, q + m.len()));
            assert(occurs_at(c, m, q));
        }
    }
}

/// The lines of a hook file once the hook is installed after `c`.
proof fn lemma_installed_lines(c: Seq<char>)
    ensures
        lines(c + "\n\n"@ + hook_script()) == lines(c + seq!['\n']).push(seq![]) + hook_lines(),
{
    reveal_strlit("\n\n");
    lemma_hook_lines();
    let nl = seq!['\n'];
    let sc = hook_script();
    let blank: Seq<char> = seq![];
    assert(c + "\n\n"@ + sc =~= (c + nl) + nl + sc);
    lemma_lines_split(c + nl, sc);
    lemma_lines_split(c, nl);
    lemma_lines_one(blank);
    assert(blank + nl =~= nl);
    assert(strip_cr(blank) == blank);
    assert(c + nl + nl =~= c + nl + nl);
    assert(lines(c + nl + nl) =~= lines(c + nl).push(blank));
}

/// The installed text holds the hook's marker.
proof fn lemma_installed_has_marker(c: Seq<char>)
    ensures
        contains_seq(c + "\n\n"@ + hook_script(), hook_marker()),
{
    reveal_strlit("# ForgeIndex auto-reindex hook");
    reveal_strlit("#!/bin/sh\n# ForgeIndex auto-reindex hook\n# Automatically re-indexes the codebase after git operations\nif command -v forgeindex > /dev/null 2>&1; then\n    forgeindex reindex > /dev/null 2>&1 &\nfi\n");
    reveal_strlit("\n\n");
    let m = hook_marker();
    let sc = hook_script();
    let full = c + "\n\n"@ + sc;
    assert(sc.subrange(10, 10 + m.len() as int) =~= m);
    let at: int = c.len() as int + 12;
    assert(full.subrange(at, at + m.len()) =~= sc.subrange(10, 10 + m.len() as int));
    assert(occurs_at(full, m, at));
}

proof fn lemma_undo_with_content(c: Seq<char>)
    requires
        !contains_seq(c, hook_marker()),
        forall|j: int| 0 <= j < c.len() ==> c[j] != '\r',
    ensures
        ({
            let ls = lines(c + seq!['\n']);
            let kept = drop_blank_tail(ls);
            &&& join_lines(ls) == c
            &&& kept == ls.take(kept.len() as int)
            &&& forall|i: int| kept.len() <= i < ls.len() ==> trim(#[trigger] ls[i]).len() == 0
            &&& removal(c + "\n\n"@ + hook_script()) == removal_of_rest(join_lines(kept))
        }),
{
    let ls = lines(c + seq!['\n']);
    let blank: Seq<char> = seq![];
    lemma_installed_lines(c);
    lemma_installed_has_marker(c);
    lemma_lines_lack_marker(c);
    lemma_strip_without_marker(ls);
    assert(!contains_seq(blank, hook_marker())) by {
        reveal_strlit("# ForgeIndex auto-reindex hook");
        if contains_seq(blank, hook_marker()) {
            let i = choose|i: int| occurs_at(blank, hook_marker(), i);
        }
    }
    let l0 = ls.push(blank);
    lemma_strip_push(ls, blank);
    lemma_strip_hook_tail(l0);
    assert(trim(blank) =~= blank);
    assert(l0.drop_last() =~= ls);
    assert(drop_blank_tail(l0) == drop_blank_tail(ls));
    lemma_join_of_lines(c);
    lemma_drop_blank_tail_prefix(ls);
    lemma_drop_blank_tail_blank(ls);
}

/// What becomes of a hook file when the hook is removed.
pub enum Removal {
    /// The file does not hold the hook: leave it.
    Untouched,
    /// Only the hook was in it: delete the file.
    Delete,
    /// Write the rest back.
    Rewrite(Seq<char>),
}

/// What removing the hook does to a hook file's content.
pub open spec fn removal(content: Seq<char>) -> Removal {
    if !contains_seq(content, hook_marker()) {
        Removal::Untouched
    } else {
        removal_of_rest(join_lines(strip_hook(lines(content)).0))
    }
}

/// What becomes of a hook file when the hook is removed.
#[derive(Debug, Clone)]
pub enum HookRemoval {
    Untouched,
    Delete,
    Rewrite(String),
}

pub open spec fn removal_view(r: HookRemoval) -> Removal {
    match r {
        HookRemoval::Untouched => Removal::Untouched,
        HookRemoval::Delete => Removal::Delete,
        HookRemoval::Rewrite(s) => Removal::Rewrite(s@),
    }
}

fn is_hook_line(line: &str) -> (r: bool)
    ensures
        r == hook_line(line@),
{
    let t = trim_str(line);
    str_starts_with(line, "#") || str_starts_with(line, "if ") || str_starts_with(line, "fi") || str_contains(line, "forgeindex")
        || t.as_str().is_empty()
}

/// The lines joined by line feeds.
fn join_all_lines(ls: &Vec<String>) -> (r: String)
    ensures
        r@ == join_lines(views(ls@)),
{
    let mut out = String::new();
    let mut i: usize = 0;
    while i < ls.len()
        invariant
            i <= ls@.len(),
            out@ == join_lines(views(ls@.take(i as int))),
        decreases ls@.len() - i,
    {
        let ghost before = views(ls@.take(i as int));
        if i > 0 {
            push_char(&mut out, '\n');
        }
        push_str(&mut out, ls[i].as_str());
        proof {
            let now = views(ls@.take(i + 1));
            assert(now.drop_last() =~= before);
            assert(now.last() == ls@[i as int]@);
            if i == 0 {
                assert(out@ =~= now[0]);
            } else {
                assert(out@ =~= join_lines(before) + seq!['\n'] + now.last());
            }
        }
        i = i + 1;
    }
    proof {
        assert(ls@.take(i as int) =~= ls@);
    }
    out
}

/// Take the hook's block out of a hook file's content.
pub fn uninstall_hook_content(content: &str) -> (r: HookRemoval)
    ensures
        removal_view(r) == removal(content@),
{
    if !str_contains(content, "# ForgeIndex auto-reindex hook") {
        return HookRemoval::Untouched;
    }
    let cs = chars_of(content);
    let ls = split_lines(cs.as_slice());
    let ghost lv = lines(content@);
    proof {
        assert(views(ls@) =~= lv);
    }
    let mut kept: Vec<String> = Vec::new();
    let mut skip = false;
    let mut i: usize = 0;
    proof {
        assert(lv.take(0) =~= Seq::<Seq<char>>::empty());
        assert(views(kept@) =~= Seq::<Seq<char>>::empty());
    }
    while i < ls.len()
        invariant
            i <= ls@.len(),
            views(ls@) == lv,
            (views(kept@), skip) == strip_hook(lv.take(i as int)),
        decreases ls@.len() - i,
    {
        let line = ls[i].as_str();
        proof {
            assert(lv.take(i + 1).drop_last() =~= lv.take(i as int));
            assert(lv.take(i + 1).last() == line@);
        }
        let ghost k0 = views(kept@);
        if str_contains(line, "# ForgeIndex auto-reindex hook") {
            if kept.len() > 0 && str_eq(kept[kept.len() - 1].as_str(), "#!/bin/sh") {
                kept.pop();
                proof {
                    assert(views(kept@) =~= k0.drop_last());
                }
            }
            let ghost k1 = views(kept@);
            assert(k1 == drop_shebang(k0));
            while kept.len() > 0 && trim_str(kept[kept.len() - 1].as_str()).as_str().is_empty()
                invariant
                    drop_blank_tail(views(kept@)) == drop_blank_tail(k1),
                decreases kept@.len(),
            {
                let ghost k2 = views(kept@);
                kept.pop();
                proof {
                    assert(views(kept@) =~= k2.drop_last());
                }
            }
            skip = true;
        } else if skip && is_hook_line(line) {
        } else {
            kept.push(to_owned(line));
            proof {
                assert(views(kept@) =~= k0.push(line@));
            }
            skip = false;
        }
        i = i + 1;
    }
    proof {
        assert(lv.take(i as int) =~= lv);
    }
    let out = join_all_lines(&kept);
    let t = trim_str(out.as_str());
    if t.as_str().is_empty() || str_eq(t.as_str(), "#!/bin/sh") {
        HookRemoval::Delete
    } else {
        HookRemoval::Rewrite(out)
    }
}

/// Where a `.git` file points: its text after `gitdir: `, trimmed.
pub open spec fn gitdir_target(content: Seq<char>) -> Seq<char> {
    trim(
        match strip_prefix(content, "gitdir: "@) {
            Some(r) => r,
            None => content,
        },
    )
}

/// The directory a `.git` file (of a worktree or submodule) points at.
pub fn gitdir_of(content: &str) -> (r: String)
    ensures
        r@ == gitdir_target(content@),
{
    match strip_prefix_str(content, "gitdir: ") {
        Some(rest) => trim_str(rest.as_str()),
        None => trim_str(content),
    }
}

/// Changes waiting for their debounce interval to pass: each path with
/// the time (in milliseconds) it last changed.
pub struct Debouncer {
    pending: Vec<(String, u64)>,
}

impl View for Debouncer {
    type V = Seq<(Seq<char>, u64)>;

    closed spec fn view(&self) -> Seq<(Seq<char>, u64)> {
        self.pending@.map_values(|e: (String, u64)| (e.0@, e.1))
    }
}

/// No path waits twice.
pub open spec fn distinct_paths(p: Seq<(Seq<char>, u64)>) -> bool {
    forall|i: int, j: int| 0 <= i < j < p.len() ==> p[i].0 != p[j].0
}

/// The waiting changes after `path` changes at `now`: its entry is
/// replaced where it had one, and added at the end where it had none.
pub open spec fn noted(p: Seq<(Seq<char>, u64)>, path: Seq<char>, now: u64) -> Seq<(Seq<char>, u64)> {
    if exists|i: int| 0 <= i < p.len() && p[i].0 == path {
        let i = choose|i: int| 0 <= i < p.len() && p[i].0 == path;
        p.update(i, (path, now))
    } else {
        p.push((path, now))
    }
}

pub open spec fn is_ready(e: (Seq<char>, u64), now: u64, debounce: u64) -> bool {
    now >= e.1 && now - e.1 >= debounce
}

pub open spec fn ready_pred(now: u64, debounce: u64) -> spec_fn((Seq<char>, u64)) -> bool {
    |e: (Seq<char>, u64)| is_ready(e, now, debounce)
}

pub open spec fn waiting_pred(now: u64, debounce: u64) -> spec_fn((Seq<char>, u64)) -> bool {
    |e: (Seq<char>, u64)| !is_ready(e, now, debounce)
}

impl Debouncer {
    #[verifier::type_invariant]
    closed spec fn inv(self) -> bool {
        distinct_paths(self@)
    }

    /// No change waits.
    pub fn new() -> (d: Debouncer)
        ensures
            d@.len() == 0,
    {
        let d = Debouncer { pending: Vec::new() };
        proof {
            assert(d@ =~= Seq::<(Seq<char>, u64)>::empty());
        }
        d
    }

    /// A change to `path` at `now`.
    pub fn note(&mut self, path: &str, now: u64)
        ensures
            final(self)@ == noted(old(self)@, path@, now),
            distinct_paths(final(self)@),
    {
        proof {
            use_type_invariant(&*self);
        }
        let ghost p0 = self@;
        let mut pending = Vec::new();
        std::mem::swap(&mut pending, &mut self.pending);
        let mut found = false;
        let mut i: usize = 0;
        while i < pending.len()
            invariant_except_break
                pending@.map_values(|e: (String, u64)| (e.0@, e.1)) == p0,
                !found,
            invariant
                i <= pending@.len(),
                distinct_paths(p0),
                forall|j: int| 0 <= j < i ==> p0[j].0 != path@,
            ensures
                pending@.map_values(|e: (String, u64)| (e.0@, e.1)) == (if found {
                    let w = choose|w: int| 0 <= w < p0.len() && p0[w].0 == path@;
                    p0.update(w, (path@, now))
                } else {
                    p0
                }),
                found == exists|w: int| 0 <= w < p0.len() && p0[w].0 == path@,
            decreases pending@.len() - i,
        {
            if str_eq(pending[i].0.as_str(), path) {
                proof {
                    assert(p0[i as int].0 == path@);
                    let w = choose|w: int| 0 <= w < p0.len() && p0[w].0 == path@;
                    if w != i {
                        assert(p0[w].0 != p0[i as int].0);
                    }
                }
                pending.set(i, (to_owned(path), now));
                found = true;
                proof {
                    let w = choose|w: int| 0 <= w < p0.len() && p0[w].0 == path@;
                    assert(w == i);
                    assert(pending@.map_values(|e: (String, u64)| (e.0@, e.1)) =~= p0.update(i as int, (path@, now)));
                }
                break;
            }
            i = i + 1;
        }
        if !found {
            let ghost before = pending@;
            pending.push((to_owned(path), now));
            proof {
                assert(pending@.map_values(|e: (String, u64)| (e.0@, e.1)) =~= p0.push((path@, now)));
            }
        }
        proof {
            let np = pending@.map_values(|e: (String, u64)| (e.0@, e.1));
            assert(np == noted(p0, path@, now));
            assert forall|a: int, b: int| 0 <= a < b < np.len() implies np[a].0 != np[b].0 by {
                if found {
                    let w = choose|w: int| 0 <= w < p0.len() && p0[w].0 == path@;
                    if a != w && b != w {
                        assert(np[a] == p0[a] && np[b] == p0[b]);
                    } else if a == w {
                        assert(np[b] == p0[b]);
                    } else {
                        assert(np[a] == p0[a]);
                    }
                } else if b == p0.len() {
                    assert(np[a] == p0[a]);
                    assert(p0[a].0 != path@);
                } else {
                    assert(np[a] == p0[a] && np[b] == p0[b]);
                }
            }
        }
        self.pending = pending;
    }

    /// The paths whose last change is at least `debounce` milliseconds
    /// before `now`, in the order they wait; they stop waiting.
    pub fn take_ready(&mut self, now: u64, debounce: u64) -> (r: Vec<String>)
        ensures
            views(r@) == old(self)@.filter(ready_pred(now, debounce)).map_values(|e: (Seq<char>, u64)| e.0),
            final(self)@ == old(self)@.filter(waiting_pred(now, debounce)),
    {
        proof {
            use_type_invariant(&*self);
        }
        let ghost p0 = self@;
        let mut pending = Vec::new();
        std::mem::swap(&mut pending, &mut self.pending);
        proof {
            assert(p0.take(0) =~= Seq::<(Seq<char>, u64)>::empty());
            reveal(Seq::filter);
        }
        let mut ready: Vec<String> = Vec::new();
        let mut waiting: Vec<(String, u64)> = Vec::new();
        let mut i: usize = 0;
        let ghost rdy = ready_pred(now, debounce);
        let ghost not_rdy = waiting_pred(now, debounce);
        while i < pending.len()
            invariant
                i <= pending@.len(),
                rdy == ready_pred(now, debounce),
                not_rdy == waiting_pred(now, debounce),
                pending@.map_values(|e: (String, u64)| (e.0@, e.1)) == p0,
                views(ready@) == p0.take(i as int).filter(rdy).map_values(|e: (Seq<char>, u64)| e.0),
                waiting@.map_values(|e: (String, u64)| (e.0@, e.1)) == p0.take(i as int).filter(not_rdy),
            decreases pending@.len() - i,
        {
            let path = &pending[i].0;
            let at = pending[i].1;
            let ghost e = p0[i as int];
            proof {
                assert(e == (path@, at));
                assert(p0.take(i + 1) =~= p0.take(i as int).push(e));
                p0.take(i as int).lemma_filter_push(e, rdy);
                p0.take(i as int).lemma_filter_push(e, not_rdy);
            }
            let ghost r0 = ready@;
            let ghost w0 = waiting@;
            if now >= at && now - at >= debounce {
                ready.push(path.clone());
                proof {
                    assert(rdy(e));
                    assert(p0.take(i + 1).filter(rdy) == p0.take(i as int).filter(rdy).push(e));
                    assert(p0.take(i + 1).filter(not_rdy) == p0.take(i as int).filter(not_rdy));
                    assert(views(ready@) =~= views(r0).push(path@));
                    assert(p0.take(i as int).filter(rdy).push(e).map_values(|x: (Seq<char>, u64)| x.0)
                        =~= p0.take(i as int).filter(rdy).map_values(|x: (Seq<char>, u64)| x.0).push(e.0));
                }
            } else {
                waiting.push((path.clone(), at));
                proof {
                    assert(!rdy(e));
                    assert(not_rdy(e));
                    assert(p0.take(i + 1).filter(rdy) == p0.take(i as int).filter(rdy));
                    assert(p0.take(i + 1).filter(not_rdy) == p0.take(i as int).filter(not_rdy).push(e));
                    assert(waiting@.map_values(|x: (String, u64)| (x.0@, x.1)) =~= w0.map_values(|x: (String, u64)| (x.0@, x.1)).push(e));
                }
            }
            i = i + 1;
        }
        proof {
            assert(p0.take(i as int) =~= p0);
            let w = p0.filter(not_rdy);
            lemma_filter_distinct(p0, not_rdy);
        }
        self.pending = waiting;
        ready
    }
}


proof fn lemma_filter_distinct(p: Seq<(Seq<char>, u64)>, pred: spec_fn((Seq<char>, u64)) -> bool)
    requires
        distinct_paths(p),
    ensures
        distinct_paths(p.filter(pred)),
    decreases p.len(),
{
    reveal(Seq::filter);
    if p.len() > 0 {
        let d = p.drop_last();
        assert(distinct_paths(d)) by {
            assert forall|a: int, b: int| 0 <= a < b < d.len() implies d[a].0 != d[b].0 by {
                assert(d[a] == p[a] && d[b] == p[b]);
            }
        }
        lemma_filter_distinct(d, pred);
        let sub = d.filter(pred);
        if pred(p.last()) {
            assert forall|k: int| 0 <= k < sub.len() implies sub[k].0 != p.last().0 by {
                assert(sub.contains(sub[k]));
                d.lemma_filter_contains_rev(pred, sub[k]);
                let j = choose|j: int| 0 <= j < d.len() && d[j] == sub[k];
                assert(p[j] == d[j]);
            }
            let f = sub.push(p.last());
            assert(p.filter(pred) == f);
            assert forall|a: int, b: int| 0 <= a < b < f.len() implies f[a].0 != f[b].0 by {
                if b == sub.len() {
                    assert(f[a] == sub[a]);
                }
            }
        }
    }
}

} // verus!
