//! Pattern operations on text as `str`'s methods define them: stripping
//! and trimming affixes, splitting, and the words and lines of a text.
use vstd::prelude::*;
use crate::text::{chars_of, ends_with, find_char, find_char_from, first_line, is_whitespace, is_ws, lemma_find_char_bounds, lines, matches_at, occurs_at, split_lines, starts_with, string_of, trim_bounds, trim_end, trim_start};

verus! {

/// `s` with every leading copy of `p` removed (`str::trim_start_matches`).
pub open spec fn trim_start_matches(s: Seq<char>, p: Seq<char>) -> Seq<char>
    decreases s.len(),
{
    if p.len() > 0 && starts_with(s, p) {
        trim_start_matches(s.subrange(p.len() as int, s.len() as int), p)
    } else {
        s
    }
}

/// `s` with every trailing copy of `p` removed (`str::trim_end_matches`).
pub open spec fn trim_end_matches(s: Seq<char>, p: Seq<char>) -> Seq<char>
    decreases s.len(),
{
    if p.len() > 0 && ends_with(s, p) {
        trim_end_matches(s.subrange(0, s.len() - p.len()), p)
    } else {
        s
    }
}

/// `s` with its leading characters from `set` removed.
pub open spec fn trim_start_set(s: Seq<char>, set: Seq<char>) -> Seq<char>
    decreases s.len(),
{
    if s.len() > 0 && set.contains(s[0]) {
        trim_start_set(s.drop_first(), set)
    } else {
        s
    }
}

/// `s` with its trailing characters from `set` removed.
pub open spec fn trim_end_set(s: Seq<char>, set: Seq<char>) -> Seq<char>
    decreases s.len(),
{
    if s.len() > 0 && set.contains(s.last()) {
        trim_end_set(s.drop_last(), set)
    } else {
        s
    }
}

/// `s` with the characters from `set` removed at both ends (`str::trim_matches`).
pub open spec fn trim_set(s: Seq<char>, set: Seq<char>) -> Seq<char> {
    trim_end_set(trim_start_set(s, set), set)
}

/// What follows the prefix `p` of `s` (`str::strip_prefix`).
pub open spec fn strip_prefix(s: Seq<char>, p: Seq<char>) -> Option<Seq<char>> {
    if starts_with(s, p) {
        Some(s.subrange(p.len() as int, s.len() as int))
    } else {
        None
    }
}

/// Position of the first occurrence of `p` in `s` at or after `from`, or
/// `s.len()` where there is none.
pub open spec fn find_seq_from(s: Seq<char>, p: Seq<char>, from: int) -> int
    decreases s.len() - from,
{
    if from < 0 || from + p.len() > s.len() {
        s.len() as int
    } else if occurs_at(s, p, from) {
        from
    } else if from >= s.len() {
        s.len() as int
    } else {
        find_seq_from(s, p, from + 1)
    }
}

/// The first piece of `s` split at `p` (`s.split(p).next()`).
pub open spec fn before_first(s: Seq<char>, p: Seq<char>) -> Seq<char> {
    s.subrange(0, find_seq_from(s, p, 0))
}

/// The pieces of `s` between the copies of `c` (`str::split` with a char).
pub open spec fn split_char(s: Seq<char>, c: char) -> Seq<Seq<char>>
    decreases s.len(),
{
    let i = find_char_from(s, c, 0);
    if i >= s.len() {
        seq![s]
    } else {
        proof {
            lemma_find_char_bounds(s, c, 0);
        }
        seq![s.subrange(0, i)] + split_char(s.subrange(i + 1, s.len() as int), c)
    }
}

/// Position of the last `c` in `s[..to]`, or -1.
pub open spec fn rfind_char(s: Seq<char>, c: char, to: int) -> int
    decreases to,
{
    if to <= 0 {
        -1
    } else if s[to - 1] == c {
        to - 1
    } else {
        rfind_char(s, c, to - 1)
    }
}

/// The last piece of `s` split at `c` (`s.split(c).last()`).
pub open spec fn after_last(s: Seq<char>, c: char) -> Seq<char> {
    s.subrange(rfind_char(s, c, s.len() as int) + 1, s.len() as int)
}

/// Position of the last whitespace character in `s[..to]`, or -1.
pub open spec fn rfind_ws(s: Seq<char>, to: int) -> int
    decreases to,
{
    if to <= 0 {
        -1
    } else if is_ws(s[to - 1]) {
        to - 1
    } else {
        rfind_ws(s, to - 1)
    }
}

/// The last whitespace-separated word of `s` (`s.split_whitespace().last()`).
pub open spec fn last_word(s: Seq<char>) -> Option<Seq<char>> {
    let t = trim_end(s);
    if t.len() == 0 {
        None
    } else {
        Some(t.subrange(rfind_ws(t, t.len() as int) + 1, t.len() as int))
    }
}

/// The bytes a character takes in UTF-8.
pub open spec fn char_width(c: char) -> nat {
    let u = c as u32;
    if u < 0x80 {
        1
    } else if u < 0x800 {
        2
    } else if u < 0x10000 {
        3
    } else {
        4
    }
}

/// The longest prefix of `s` that takes at most `n` bytes in UTF-8.
pub open spec fn prefix_within(s: Seq<char>, n: int) -> Seq<char>
    decreases s.len(),
{
    if s.len() == 0 || char_width(s[0]) > n {
        seq![]
    } else {
        seq![s[0]] + prefix_within(s.drop_first(), n - char_width(s[0]))
    }
}

proof fn lemma_trim_start_matches_at(s: Seq<char>, p: Seq<char>, i: int)
    requires
        0 <= i <= s.len(),
        p.len() > 0,
        occurs_at(s, p, i),
    ensures
        starts_with(s.subrange(i, s.len() as int), p),
        s.subrange(i, s.len() as int).subrange(p.len() as int, s.len() - i) == s.subrange(i + p.len(), s.len() as int),
{
    assert(s.subrange(i, s.len() as int).subrange(0, p.len() as int) =~= s.subrange(i, i + p.len()));
    assert(s.subrange(i, s.len() as int).subrange(p.len() as int, s.len() - i) =~= s.subrange(i + p.len(), s.len() as int));
}

/// `trim_start_matches(s, p)` as a new string.
pub fn trim_start_matches_str(s: &str, p: &str) -> (r: String)
    ensures
        r@ == trim_start_matches(s@, p@),
{
    let cs = chars_of(s);
    let pc = chars_of(p);
    let n = cs.len();
    let m = pc.len();
    let mut lo: usize = 0;
    proof {
        assert(cs@.subrange(0, n as int) =~= cs@);
    }
    while m > 0 && matches_at(cs.as_slice(), pc.as_slice(), lo)
        invariant
            lo <= n == cs@.len(),
            m == pc@.len(),
            cs@ == s@,
            pc@ == p@,
            trim_start_matches(s@, p@) == trim_start_matches(cs@.subrange(lo as int, n as int), p@),
        decreases n - lo,
    {
        proof {
            lemma_trim_start_matches_at(cs@, pc@, lo as int);
        }
        lo = lo + m;
    }
    proof {
        let t = cs@.subrange(lo as int, n as int);
        if m > 0 && starts_with(t, pc@) {
            assert(t.subrange(0, m as int) =~= cs@.subrange(lo as int, lo + m));
        }
    }
    string_of(cs.as_slice(), lo, n)
}

/// `trim_end_matches(s, p)` as a new string.
pub fn trim_end_matches_str(s: &str, p: &str) -> (r: String)
    ensures
        r@ == trim_end_matches(s@, p@),
{
    let cs = chars_of(s);
    let pc = chars_of(p);
    let m = pc.len();
    let mut hi: usize = cs.len();
    proof {
        assert(cs@.subrange(0, hi as int) =~= cs@);
    }
    while m > 0 && m <= hi && matches_at(cs.as_slice(), pc.as_slice(), hi - m)
        invariant
            hi <= cs@.len(),
            m == pc@.len(),
            cs@ == s@,
            pc@ == p@,
            trim_end_matches(s@, p@) == trim_end_matches(cs@.subrange(0, hi as int), p@),
        decreases hi,
    {
        proof {
            let t = cs@.subrange(0, hi as int);
            assert(t.subrange(t.len() - m, t.len() as int) =~= cs@.subrange(hi - m, hi as int));
            assert(t.subrange(0, t.len() - m) =~= cs@.subrange(0, hi - m));
        }
        hi = hi - m;
    }
    proof {
        let t = cs@.subrange(0, hi as int);
        if m > 0 && ends_with(t, pc@) {
            assert(t.subrange(t.len() - m, t.len() as int) =~= cs@.subrange(hi - m, hi as int));
        }
    }
    string_of(cs.as_slice(), 0, hi)
}

fn in_set(set: &[char], c: char) -> (r: bool)
    ensures
        r == set@.contains(c),
{
    let mut i: usize = 0;
    while i < set.len()
        invariant
            i <= set@.len(),
            forall|j: int| 0 <= j < i ==> set@[j] != c,
        decreases set@.len() - i,
    {
        if set[i] == c {
            return true;
        }
        i = i + 1;
    }
    false
}

/// `trim_set(s, set)` as a new string.
pub fn trim_set_str(s: &str, set: &[char]) -> (r: String)
    ensures
        r@ == trim_set(s@, set@),
{
    let cs = chars_of(s);
    let n = cs.len();
    let mut lo: usize = 0;
    proof {
        assert(cs@.subrange(0, n as int) =~= cs@);
    }
    while lo < n && in_set(set, cs[lo])
        invariant
            lo <= n == cs@.len(),
            cs@ == s@,
            trim_start_set(s@, set@) == trim_start_set(cs@.subrange(lo as int, n as int), set@),
        decreases n - lo,
    {
        proof {
            assert(cs@.subrange(lo as int, n as int).drop_first() =~= cs@.subrange(lo + 1, n as int));
        }
        lo = lo + 1;
    }
    let mut hi: usize = n;
    proof {
        let t = cs@.subrange(lo as int, n as int);
        if t.len() > 0 {
            assert(t[0] == cs@[lo as int]);
        }
        assert(trim_start_set(s@, set@) == t);
        assert(t.subrange(0, (hi - lo) as int) =~= t);
    }
    while hi > lo && in_set(set, cs[hi - 1])
        invariant
            lo <= hi <= n == cs@.len(),
            cs@ == s@,
            trim_start_set(s@, set@) == cs@.subrange(lo as int, n as int),
            trim_set(s@, set@) == trim_end_set(cs@.subrange(lo as int, hi as int), set@),
        decreases hi,
    {
        proof {
            assert(cs@.subrange(lo as int, hi as int).drop_last() =~= cs@.subrange(lo as int, hi - 1));
        }
        hi = hi - 1;
    }
    proof {
        let t = cs@.subrange(lo as int, hi as int);
        if t.len() > 0 {
            assert(t.last() == cs@[hi - 1]);
        }
    }
    string_of(cs.as_slice(), lo, hi)
}

/// `strip_prefix(s, p)` as a new string.
pub fn strip_prefix_str(s: &str, p: &str) -> (r: Option<String>)
    ensures
        match strip_prefix(s@, p@) {
            Some(t) => r matches Some(x) && x@ == t,
            None => r is None,
        },
{
    let cs = chars_of(s);
    let pc = chars_of(p);
    if matches_at(cs.as_slice(), pc.as_slice(), 0) {
        proof {
            assert(cs@.subrange(0, pc@.len() as int) == pc@);
        }
        Some(string_of(cs.as_slice(), pc.len(), cs.len()))
    } else {
        None
    }
}

/// Position of the first occurrence of `p` at or after `from`.
fn find_seq(cs: &[char], p: &[char], from: usize) -> (r: usize)
    requires
        from <= cs@.len(),
    ensures
        r == find_seq_from(cs@, p@, from as int),
        r <= cs@.len(),
{
    let mut i = from;
    loop
        invariant
            from <= i <= cs@.len(),
            find_seq_from(cs@, p@, from as int) == find_seq_from(cs@, p@, i as int),
        decreases cs@.len() - i,
    {
        if p.len() > cs.len() - i {
            return cs.len();
        }
        if matches_at(cs, p, i) {
            return i;
        }
        if i >= cs.len() {
            return cs.len();
        }
        i = i + 1;
    }
}

/// `before_first(s, p)` as a new string.
pub fn before_first_str(s: &str, p: &str) -> (r: String)
    ensures
        r@ == before_first(s@, p@),
{
    let cs = chars_of(s);
    let pc = chars_of(p);
    let k = find_seq(cs.as_slice(), pc.as_slice(), 0);
    string_of(cs.as_slice(), 0, k)
}

/// `split_char(s, c)` as new strings.
pub fn split_char_str(s: &str, c: char) -> (r: Vec<String>)
    ensures
        r@.len() == split_char(s@, c).len(),
        forall|i: int| 0 <= i < r@.len() ==> #[trigger] r@[i]@ == split_char(s@, c)[i],
{
    let cs = chars_of(s);
    let n = cs.len();
    let mut r: Vec<String> = Vec::new();
    let mut start: usize = 0;
    proof {
        assert(cs@.subrange(0, n as int) =~= cs@);
    }
    loop
        invariant
            start <= n == cs@.len(),
            cs@ == s@,
            r@.len() + split_char(cs@.subrange(start as int, n as int), c).len() == split_char(s@, c).len(),
            forall|i: int| 0 <= i < r@.len() ==> #[trigger] r@[i]@ == split_char(s@, c)[i],
            forall|i: int|
                0 <= i < split_char(cs@.subrange(start as int, n as int), c).len() ==> split_char(s@, c)[r@.len() + i]
                    == #[trigger] split_char(cs@.subrange(start as int, n as int), c)[i],
        decreases n - start,
    {
        let ghost rest = cs@.subrange(start as int, n as int);
        let e = find_char(cs.as_slice(), c, start);
        proof {
            lemma_find_char_bounds(cs@, c, start as int);
            lemma_find_shift_char(cs@, c, start as int, start as int);
        }
        let piece = string_of(cs.as_slice(), start, e);
        if e >= n {
            proof {
                assert(rest =~= cs@.subrange(start as int, e as int));
                assert(split_char(rest, c)[0] == piece@);
            }
            r.push(piece);
            return r;
        }
        proof {
            let i = e - start;
            assert(rest.subrange(0, i) =~= cs@.subrange(start as int, e as int));
            assert(rest.subrange(i + 1, rest.len() as int) =~= cs@.subrange(e + 1, n as int));
            assert(split_char(rest, c)[0] == piece@);
        }
        r.push(piece);
        start = e + 1;
        proof {
            let rest2 = cs@.subrange(start as int, n as int);
            assert forall|i: int| 0 <= i < split_char(rest2, c).len() implies split_char(s@, c)[r@.len() + i]
                == #[trigger] split_char(rest2, c)[i] by {
                assert(split_char(rest, c)[i + 1] == split_char(rest2, c)[i]);
            }
        }
    }
}

proof fn lemma_find_shift_char(s: Seq<char>, c: char, k: int, from: int)
    requires
        0 <= k <= from,
        k <= s.len(),
    ensures
        find_char_from(s, c, from) - k == find_char_from(s.subrange(k, s.len() as int), c, from - k),
    decreases s.len() - from,
{
    if from < s.len() && s[from] != c {
        lemma_find_shift_char(s, c, k, from + 1);
    }
}

proof fn lemma_rfind_char(s: Seq<char>, c: char, to: int)
    requires
        0 <= to <= s.len(),
    ensures
        -1 <= rfind_char(s, c, to) < to,
    decreases to,
{
    if to > 0 {
        lemma_rfind_char(s, c, to - 1);
    }
}

/// `after_last(s, c)` as a new string.
pub fn after_last_str(s: &str, c: char) -> (r: String)
    ensures
        r@ == after_last(s@, c),
{
    let cs = chars_of(s);
    let n = cs.len();
    let mut k: usize = n;
    while k > 0 && cs[k - 1] != c
        invariant
            k <= n == cs@.len(),
            rfind_char(cs@, c, n as int) == rfind_char(cs@, c, k as int),
        decreases k,
    {
        k = k - 1;
    }
    string_of(cs.as_slice(), k, n)
}

/// `last_word(s)` as a new string.
pub fn last_word_str(s: &str) -> (r: Option<String>)
    ensures
        match last_word(s@) {
            Some(w) => r matches Some(x) && x@ == w,
            None => r is None,
        },
{
    let cs = chars_of(s);
    let mut hi: usize = cs.len();
    proof {
        assert(cs@.subrange(0, hi as int) =~= cs@);
    }
    while hi > 0 && is_whitespace(cs[hi - 1])
        invariant
            hi <= cs@.len(),
            cs@ == s@,
            trim_end(s@) == trim_end(cs@.subrange(0, hi as int)),
        decreases hi,
    {
        proof {
            assert(cs@.subrange(0, hi as int).drop_last() =~= cs@.subrange(0, hi - 1));
        }
        hi = hi - 1;
    }
    let ghost t = cs@.subrange(0, hi as int);
    proof {
        if t.len() > 0 {
            assert(t.last() == cs@[hi - 1]);
        }
        assert(trim_end(s@) == t);
    }
    if hi == 0 {
        return None;
    }
    let mut k: usize = hi;
    while k > 0 && !is_whitespace(cs[k - 1])
        invariant
            k <= hi <= cs@.len(),
            t == cs@.subrange(0, hi as int),
            rfind_ws(t, hi as int) == rfind_ws(t, k as int),
        decreases k,
    {
        k = k - 1;
    }
    proof {
        assert(t.subrange(k as int, hi as int) =~= cs@.subrange(k as int, hi as int));
    }
    Some(string_of(cs.as_slice(), k, hi))
}

/// Bytes of `c` in UTF-8.
fn width_of(c: char) -> (r: usize)
    ensures
        r == char_width(c),
{
    let u = c as u32;
    if u < 0x80 {
        1
    } else if u < 0x800 {
        2
    } else if u < 0x10000 {
        3
    } else {
        4
    }
}

/// `prefix_within(s, n)` as a new string.
pub fn prefix_within_str(s: &str, n: usize) -> (r: String)
    ensures
        r@ == prefix_within(s@, n as int),
{
    let cs = chars_of(s);
    let mut i: usize = 0;
    let mut left: usize = n;
    proof {
        assert(cs@.subrange(0, cs@.len() as int) =~= cs@);
        assert(cs@.subrange(0, 0) + prefix_within(cs@, n as int) =~= prefix_within(cs@, n as int));
    }
    while i < cs.len() && width_of(cs[i]) <= left
        invariant
            i <= cs@.len(),
            cs@ == s@,
            left <= n,
            prefix_within(s@, n as int) == cs@.subrange(0, i as int) + prefix_within(cs@.subrange(i as int, cs@.len() as int), left as int),
        decreases cs@.len() - i,
    {
        let w = width_of(cs[i]);
        proof {
            let rest = cs@.subrange(i as int, cs@.len() as int);
            assert(rest[0] == cs@[i as int]);
            assert(rest.drop_first() =~= cs@.subrange(i + 1, cs@.len() as int));
            assert(cs@.subrange(0, i + 1) =~= cs@.subrange(0, i as int) + seq![cs@[i as int]]);
            assert(cs@.subrange(0, i as int) + (seq![cs@[i as int]] + prefix_within(rest.drop_first(), left - w))
                =~= cs@.subrange(0, i + 1) + prefix_within(rest.drop_first(), left - w));
        }
        left = left - w;
        i = i + 1;
    }
    proof {
        let rest = cs@.subrange(i as int, cs@.len() as int);
        if rest.len() > 0 {
            assert(rest[0] == cs@[i as int]);
        }
        assert(prefix_within(rest, left as int) =~= seq![]);
        assert(cs@.subrange(0, i as int) + seq![] =~= cs@.subrange(0, i as int));
    }
    string_of(cs.as_slice(), 0, i)
}


/// `trim_start(s)` as a new string.
pub fn trim_start_str(s: &str) -> (r: String)
    ensures
        r@ == trim_start(s@),
{
    let cs = chars_of(s);
    let (lo, _hi) = trim_bounds(cs.as_slice());
    string_of(cs.as_slice(), lo, cs.len())
}

/// `trim_end(s)` as a new string.
pub fn trim_end_str(s: &str) -> (r: String)
    ensures
        r@ == trim_end(s@),
{
    let cs = chars_of(s);
    let mut hi: usize = cs.len();
    proof {
        assert(cs@.subrange(0, hi as int) =~= cs@);
    }
    while hi > 0 && is_whitespace(cs[hi - 1])
        invariant
            hi <= cs@.len(),
            cs@ == s@,
            trim_end(s@) == trim_end(cs@.subrange(0, hi as int)),
        decreases hi,
    {
        proof {
            assert(cs@.subrange(0, hi as int).drop_last() =~= cs@.subrange(0, hi - 1));
        }
        hi = hi - 1;
    }
    proof {
        let t = cs@.subrange(0, hi as int);
        if t.len() > 0 {
            assert(t.last() == cs@[hi - 1]);
        }
    }
    string_of(cs.as_slice(), 0, hi)
}

/// `first_line(s)` as a new string.
pub fn first_line_str(s: &str) -> (r: String)
    ensures
        r@ == first_line(s@),
{
    let cs = chars_of(s);
    let ls = split_lines(cs.as_slice());
    if ls.len() > 0 {
        let l = &ls[0];
        l.clone()
    } else {
        String::new()
    }
}


/// `s` with each non-overlapping occurrence of `p`, from the left, replaced
/// by `r` (`str::replace`, for a non-empty `p`).
pub open spec fn replace_all(s: Seq<char>, p: Seq<char>, r: Seq<char>) -> Seq<char>
    decreases s.len(),
{
    if s.len() == 0 || p.len() == 0 {
        s
    } else if starts_with(s, p) {
        r + replace_all(s.subrange(p.len() as int, s.len() as int), p, r)
    } else {
        seq![s[0]] + replace_all(s.drop_first(), p, r)
    }
}

/// `replace_all(s, p, r)` as a new string.
pub fn replace_all_str(s: &str, p: &str, r: &str) -> (out: String)
    ensures
        out@ == replace_all(s@, p@, r@),
{
    let cs = chars_of(s);
    let pc = chars_of(p);
    let n = cs.len();
    let m = pc.len();
    let mut out = String::new();
    if m == 0 {
        return string_of(cs.as_slice(), 0, n);
    }
    let mut i: usize = 0;
    proof {
        assert(cs@.subrange(0, n as int) =~= cs@);
        assert(out@ + replace_all(cs@.subrange(0, n as int), pc@, r@) =~= replace_all(s@, p@, r@));
    }
    while i < n
        invariant
            i <= n == cs@.len(),
            m == pc@.len(),
            m > 0,
            cs@ == s@,
            pc@ == p@,
            out@ + replace_all(cs@.subrange(i as int, n as int), pc@, r@) == replace_all(s@, p@, r@),
        decreases n - i,
    {
        let ghost rest = cs@.subrange(i as int, n as int);
        if matches_at(cs.as_slice(), pc.as_slice(), i) {
            proof {
                assert(rest.subrange(0, m as int) =~= cs@.subrange(i as int, i + m));
                assert(rest.subrange(m as int, rest.len() as int) =~= cs@.subrange(i + m, n as int));
                assert(out@ + r@ + replace_all(cs@.subrange(i + m, n as int), pc@, r@) =~= out@ + (r@ + replace_all(rest.subrange(m as int, rest.len() as int), pc@, r@)));
            }
            crate::text::push_str(&mut out, r);
            i = i + m;
        } else {
            proof {
                if m <= rest.len() {
                    assert(rest.subrange(0, m as int) =~= cs@.subrange(i as int, i + m));
                }
                assert(rest.drop_first() =~= cs@.subrange(i + 1, n as int));
                assert(rest[0] == cs@[i as int]);
                assert(out@.push(cs@[i as int]) + replace_all(cs@.subrange(i + 1, n as int), pc@, r@) =~= out@ + (seq![rest[0]] + replace_all(rest.drop_first(), pc@, r@)));
            }
            crate::text::push_char(&mut out, cs[i]);
            i = i + 1;
        }
    }
    proof {
        assert(cs@.subrange(i as int, n as int) =~= Seq::<char>::empty());
        assert(out@ + seq![] =~= out@);
    }
    out
}

/// `s` with each `a` made `b`.
pub open spec fn replace_char(s: Seq<char>, a: char, b: char) -> Seq<char> {
    s.map_values(|c: char| if c == a { b } else { c })
}

/// `replace_char(s, a, b)` as a new string.
pub fn replace_char_str(s: &str, a: char, b: char) -> (r: String)
    ensures
        r@ == replace_char(s@, a, b),
{
    let cs = chars_of(s);
    let mut r = String::new();
    let mut i: usize = 0;
    while i < cs.len()
        invariant
            i <= cs@.len(),
            cs@ == s@,
            r@ == replace_char(s@, a, b).take(i as int),
        decreases cs@.len() - i,
    {
        let c = if cs[i] == a { b } else { cs[i] };
        crate::text::push_char(&mut r, c);
        i = i + 1;
        proof {
            assert(r@ =~= replace_char(s@, a, b).take(i as int));
        }
    }
    proof {
        assert(replace_char(s@, a, b).take(i as int) =~= replace_char(s@, a, b));
    }
    r
}

} // verus!
