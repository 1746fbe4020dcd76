//! Character-level text utilities with their mathematical meaning.
use vstd::prelude::*;
use vstd::string::StringSliceAdditionalSpecFns;

verus! {

/// Unicode `White_Space` property (PropList.txt), the set used by `str::trim`.
pub open spec fn is_ws(c: char) -> bool {
    let u = c as u32;
    ||| 0x09 <= u <= 0x0d
    ||| u == 0x20
    ||| u == 0x85
    ||| u == 0xa0
    ||| u == 0x1680
    ||| 0x2000 <= u <= 0x200a
    ||| u == 0x2028
    ||| u == 0x2029
    ||| u == 0x202f
    ||| u == 0x205f
    ||| u == 0x3000
}

/// `s` with leading whitespace removed.
pub open spec fn trim_start(s: Seq<char>) -> Seq<char>
    decreases s.len(),
{
    if s.len() > 0 && is_ws(s[0]) {
        trim_start(s.drop_first())
    } else {
        s
    }
}

/// `s` with trailing whitespace removed.
pub open spec fn trim_end(s: Seq<char>) -> Seq<char>
    decreases s.len(),
{
    if s.len() > 0 && is_ws(s.last()) {
        trim_end(s.drop_last())
    } else {
        s
    }
}

/// `s` with leading and trailing whitespace removed.
pub open spec fn trim(s: Seq<char>) -> Seq<char> {
    trim_end(trim_start(s))
}

pub open spec fn starts_with(s: Seq<char>, p: Seq<char>) -> bool {
    p.len() <= s.len() && s.subrange(0, p.len() as int) == p
}

pub open spec fn ends_with(s: Seq<char>, p: Seq<char>) -> bool {
    p.len() <= s.len() && s.subrange(s.len() - p.len(), s.len() as int) == p
}

/// `p` occurs in `s` at position `i`.
pub open spec fn occurs_at(s: Seq<char>, p: Seq<char>, i: int) -> bool {
    0 <= i && i + p.len() <= s.len() && s.subrange(i, i + p.len()) == p
}

pub open spec fn contains_seq(s: Seq<char>, p: Seq<char>) -> bool {
    exists|i: int| occurs_at(s, p, i)
}

/// Drop one trailing carriage return, as `str::lines` does after a line feed.
pub open spec fn strip_cr(line: Seq<char>) -> Seq<char> {
    if line.len() > 0 && line.last() == '\r' {
        line.drop_last()
    } else {
        line
    }
}

/// Index of the first `c` in `s` at or after `from`, or `s.len()`.
pub open spec fn find_char_from(s: Seq<char>, c: char, from: int) -> int
    decreases s.len() - from,
{
    if from >= s.len() {
        s.len() as int
    } else if s[from] == c {
        from
    } else {
        find_char_from(s, c, from + 1)
    }
}

/// The lines of `s` as `str::lines` yields them: split at `\n`, a `\r`
/// right before the `\n` dropped, and no empty line after a final `\n`.
pub open spec fn lines(s: Seq<char>) -> Seq<Seq<char>>
    decreases s.len(),
{
    if s.len() == 0 {
        seq![]
    } else {
        let i = find_char_from(s, '\n', 0);
        if i >= s.len() {
            seq![s]
        } else {
            proof {
                lemma_find_char_bounds(s, '\n', 0);
            }
            seq![strip_cr(s.subrange(0, i))] + lines(s.subrange(i + 1, s.len() as int))
        }
    }
}

/// The first line of `s`, or the empty text when `s` has none.
pub open spec fn first_line(s: Seq<char>) -> Seq<char> {
    let ls = lines(s);
    if ls.len() > 0 {
        ls[0]
    } else {
        seq![]
    }
}

pub proof fn lemma_find_char_bounds(s: Seq<char>, c: char, from: int)
    requires
        0 <= from,
    ensures
        from <= find_char_from(s, c, from) || find_char_from(s, c, from) == s.len(),
        find_char_from(s, c, from) <= s.len(),
        find_char_from(s, c, from) < s.len() ==> s[find_char_from(s, c, from)] == c,
        forall|j: int| from <= j < find_char_from(s, c, from) ==> s[j] != c,
    decreases s.len() - from,
{
    if from < s.len() && s[from] != c {
        lemma_find_char_bounds(s, c, from + 1);
    }
}

/// `find_char_from` stops at the first `c` from `from` on.
pub proof fn lemma_find_first(s: Seq<char>, c: char, from: int, i: int)
    requires
        0 <= from <= i < s.len(),
        s[i] == c,
        forall|j: int| from <= j < i ==> s[j] != c,
    ensures
        find_char_from(s, c, from) == i,
    decreases i - from,
{
    if from < i {
        lemma_find_first(s, c, from + 1, i);
    }
}

/// A text with no line feed, ended by one, is one line.
pub proof fn lemma_lines_one(a: Seq<char>)
    requires
        forall|j: int| 0 <= j < a.len() ==> a[j] != '\n',
    ensures
        lines(a + seq!['\n']) == seq![strip_cr(a)],
{
    let t = a + seq!['\n'];
    lemma_find_first(t, '\n', 0, a.len() as int);
    assert(t.subrange(0, a.len() as int) =~= a);
    assert(t.subrange(a.len() as int + 1, t.len() as int) =~= Seq::<char>::empty());
    assert(lines(Seq::<char>::empty()) == Seq::<Seq<char>>::empty());
    assert(lines(t) =~= seq![strip_cr(a)]);
}

/// The lines of a text split at a line feed: those of the part up to and
/// including it, then those of the rest.
pub proof fn lemma_lines_split(a: Seq<char>, b: Seq<char>)
    ensures
        lines(a + seq!['\n'] + b) == lines(a + seq!['\n']) + lines(b),
    decreases a.len(),
{
    let nl = seq!['\n'];
    let s = a + nl + b;
    let t = a + nl;
    lemma_find_char_bounds(a, '\n', 0);
    let j = find_char_from(a, '\n', 0);
    if j < a.len() {
        lemma_find_first(s, '\n', 0, j);
        lemma_find_first(t, '\n', 0, j);
        let a2 = a.subrange(j + 1, a.len() as int);
        lemma_lines_split(a2, b);
        assert(s.subrange(0, j) =~= a.subrange(0, j));
        assert(t.subrange(0, j) =~= a.subrange(0, j));
        assert(s.subrange(j + 1, s.len() as int) =~= a2 + nl + b);
        assert(t.subrange(j + 1, t.len() as int) =~= a2 + nl);
        let x = strip_cr(a.subrange(0, j));
        assert(lines(s) == seq![x] + lines(a2 + nl + b));
        assert(lines(t) == seq![x] + lines(a2 + nl));
        assert(seq![x] + (lines(a2 + nl) + lines(b)) =~= (seq![x] + lines(a2 + nl)) + lines(b));
    } else {
        lemma_find_first(s, '\n', 0, a.len() as int);
        lemma_lines_one(a);
        assert(s.subrange(0, a.len() as int) =~= a);
        assert(s.subrange(a.len() as int + 1, s.len() as int) =~= b);
    }
}

/// Joining lines and ending them with a line feed, then reading the lines
/// back, gives the lines (none holding a line feed or a carriage return).
pub proof fn lemma_lines_of_join(ls: Seq<Seq<char>>)
    requires
        ls.len() > 0,
        forall|k: int, j: int| 0 <= k < ls.len() && 0 <= j < ls[k].len() ==> ls[k][j] != '\n' && ls[k][j] != '\r',
    ensures
        lines(join_lines(ls) + seq!['\n']) == ls,
    decreases ls.len(),
{
    let nl = seq!['\n'];
    if ls.len() == 1 {
        lemma_lines_one(ls[0]);
        assert(lines(join_lines(ls) + nl) =~= ls);
    } else {
        let init = ls.drop_last();
        lemma_lines_of_join(init);
        lemma_lines_split(join_lines(init), ls.last() + nl);
        assert(join_lines(ls) + nl =~= join_lines(init) + nl + (ls.last() + nl));
        lemma_lines_one(ls.last());
        assert(ls =~= init + seq![ls.last()]);
    }
}

/// `join_lines` of a line before others.
pub proof fn lemma_join_front(x: Seq<char>, r: Seq<Seq<char>>)
    requires
        r.len() > 0,
    ensures
        join_lines(seq![x] + r) == x + seq!['\n'] + join_lines(r),
    decreases r.len(),
{
    let nl = seq!['\n'];
    if r.len() == 1 {
        assert((seq![x] + r).drop_last() =~= seq![x]);
        assert((seq![x] + r).last() == r[0]);
        assert(join_lines(seq![x]) == x);
        assert(join_lines(seq![x] + r) =~= x + nl + join_lines(r));
    } else {
        lemma_join_front(x, r.drop_last());
        assert((seq![x] + r).drop_last() =~= seq![x] + r.drop_last());
        assert((seq![x] + r).last() == r.last());
        assert(join_lines(seq![x] + r) =~= x + nl + join_lines(r));
    }
}

/// Reading the lines of a text ended by a line feed and joining them again
/// gives the text back, where it holds no carriage return.
pub proof fn lemma_join_of_lines(a: Seq<char>)
    requires
        forall|j: int| 0 <= j < a.len() ==> a[j] != '\r',
    ensures
        join_lines(lines(a + seq!['\n'])) == a,
    decreases a.len(),
{
    let nl = seq!['\n'];
    let t = a + nl;
    lemma_find_char_bounds(a, '\n', 0);
    let j = find_char_from(a, '\n', 0);
    if j < a.len() {
        let a1 = a.subrange(0, j);
        let a2 = a.subrange(j + 1, a.len() as int);
        assert(a =~= a1 + nl + a2);
        lemma_lines_split(a1, a2 + nl);
        assert(a1 + nl + (a2 + nl) =~= t);
        lemma_lines_one(a1);
        lemma_join_of_lines(a2);
        lemma_lines_split(a2, Seq::<char>::empty());
        assert(a2 + nl + Seq::<char>::empty() =~= a2 + nl);
        assert(lines(a2 + nl).len() > 0);
        assert(strip_cr(a1) == a1);
        lemma_join_front(a1, lines(a2 + nl));
    } else {
        lemma_lines_one(a);
        assert(strip_cr(a) == a);
    }
}

/// A line of a text that holds `p` makes the text hold `p`.
pub proof fn lemma_lines_occurrence(s: Seq<char>, p: Seq<char>, k: int)
    requires
        0 <= k < lines(s).len(),
        contains_seq(lines(s)[k], p),
    ensures
        contains_seq(s, p),
    decreases s.len(),
{
    let i = find_char_from(s, '\n', 0);
    lemma_find_char_bounds(s, '\n', 0);
    if k == 0 {
        let line = lines(s)[0];
        let q = choose|q: int| occurs_at(line, p, q);
        let end = if i >= s.len() { s.len() as int } else { i };
        if i < s.len() {
            assert(line == strip_cr(s.subrange(0, i)));
        }
        assert(line.len() <= end);
        assert forall|z: int| 0 <= z < line.len() implies line[z] == s[z] by {
            if i < s.len() {
                assert(line[z] == s.subrange(0, i)[z]);
            }
        }
        assert(s.subrange(q, q + p.len()) =~= line.subrange(q, q + p.len()));
        assert(occurs_at(s, p, q));
    } else {
        let rest = s.subrange(i + 1, s.len() as int);
        assert(lines(s)[k] == lines(rest)[k - 1]);
        lemma_lines_occurrence(rest, p, k - 1);
        let q = choose|q: int| occurs_at(rest, p, q);
        assert(s.subrange(q + i + 1, q + i + 1 + p.len()) =~= rest.subrange(q, q + p.len()));
        assert(occurs_at(s, p, q + i + 1));
    }
}

/// Lexicographic order on character sequences by code point, the order of
/// `str`'s `Ord` (UTF-8 preserves code point order).
pub open spec fn lex_lt(a: Seq<char>, b: Seq<char>) -> bool
    decreases a.len(),
{
    if a.len() == 0 {
        b.len() > 0
    } else if b.len() == 0 {
        false
    } else if a[0] != b[0] {
        (a[0] as u32) < (b[0] as u32)
    } else {
        lex_lt(a.drop_first(), b.drop_first())
    }
}

pub proof fn lemma_lex_irreflexive(a: Seq<char>)
    ensures
        !lex_lt(a, a),
    decreases a.len(),
{
    if a.len() > 0 {
        lemma_lex_irreflexive(a.drop_first());
    }
}

pub proof fn lemma_lex_total(a: Seq<char>, b: Seq<char>)
    ensures
        a == b || lex_lt(a, b) || lex_lt(b, a),
    decreases a.len(),
{
    if a.len() > 0 && b.len() > 0 && a[0] == b[0] {
        lemma_lex_total(a.drop_first(), b.drop_first());
        if a.drop_first() == b.drop_first() {
            assert(a =~= seq![a[0]] + a.drop_first());
            assert(b =~= seq![b[0]] + b.drop_first());
        }
    } else if a.len() > 0 && b.len() > 0 {
        vstd::utf8::char_u32_cast(a[0], a[0] as u32);
        vstd::utf8::char_u32_cast(b[0], b[0] as u32);
        assert((a[0] as u32) != (b[0] as u32));
    } else if a.len() == 0 && b.len() == 0 {
        assert(a =~= b);
    }
}

pub proof fn lemma_lex_asymmetric(a: Seq<char>, b: Seq<char>)
    ensures
        !(lex_lt(a, b) && lex_lt(b, a)),
    decreases a.len(),
{
    if a.len() > 0 && b.len() > 0 && a[0] == b[0] {
        lemma_lex_asymmetric(a.drop_first(), b.drop_first());
    }
}

pub proof fn lemma_lex_transitive(a: Seq<char>, b: Seq<char>, c: Seq<char>)
    requires
        lex_lt(a, b),
        lex_lt(b, c),
    ensures
        lex_lt(a, c),
    decreases a.len(),
{
    if a.len() > 0 && b.len() > 0 && c.len() > 0 {
        if a[0] == b[0] && b[0] == c[0] {
            lemma_lex_transitive(a.drop_first(), b.drop_first(), c.drop_first());
        }
    }
}

/// The length in bytes that `str::len` reports for a text.
pub open spec fn byte_len(s: Seq<char>) -> nat {
    (vstd::utf8::encode_utf8(s).len() as usize) as nat
}

/// Texts joined by line feeds.
pub open spec fn join_lines(ls: Seq<Seq<char>>) -> Seq<char>
    decreases ls.len(),
{
    if ls.len() == 0 {
        seq![]
    } else if ls.len() == 1 {
        ls[0]
    } else {
        join_lines(ls.drop_last()) + seq!['\n'] + ls.last()
    }
}

/// Concatenation of a sequence of texts.
pub open spec fn concat(parts: Seq<Seq<char>>) -> Seq<char>
    decreases parts.len(),
{
    if parts.len() == 0 {
        seq![]
    } else {
        concat(parts.drop_last()) + parts.last()
    }
}

pub proof fn lemma_concat_push(parts: Seq<Seq<char>>, p: Seq<char>)
    ensures
        concat(parts.push(p)) == concat(parts) + p,
{
    assert(parts.push(p).drop_last() =~= parts);
}

/// Decimal digits of `n`, as `Display` writes an unsigned integer.
pub open spec fn decimal(n: nat) -> Seq<char>
    decreases n,
{
    if n < 10 {
        seq![digit_char(n)]
    } else {
        decimal(n / 10) + seq![digit_char(n % 10)]
    }
}

pub open spec fn digit_char(d: nat) -> char {
    if d == 0 { '0' }
    else if d == 1 { '1' }
    else if d == 2 { '2' }
    else if d == 3 { '3' }
    else if d == 4 { '4' }
    else if d == 5 { '5' }
    else if d == 6 { '6' }
    else if d == 7 { '7' }
    else if d == 8 { '8' }
    else { '9' }
}

/// Whether `char::is_alphanumeric` holds of `c` (Unicode `Alphabetic` or `Numeric`).
pub uninterp spec fn spec_is_alphanumeric(c: char) -> bool;

/// Whether `char::is_uppercase` holds of `c` (Unicode `Uppercase`).
pub uninterp spec fn spec_is_uppercase(c: char) -> bool;

/// What `str::to_lowercase` gives for `s`.
pub uninterp spec fn spec_lowercase(s: Seq<char>) -> Seq<char>;

/// An ASCII letter or digit.
pub open spec fn ascii_alphanumeric(c: char) -> bool {
    ('a' <= c && c <= 'z') || ('A' <= c && c <= 'Z') || ('0' <= c && c <= '9')
}

/// An ASCII uppercase letter.
pub open spec fn ascii_uppercase(c: char) -> bool {
    'A' <= c && c <= 'Z'
}

/// The ASCII lowercase of a character: uppercase ASCII letters map to
/// their lowercase, every other character to itself.
pub open spec fn ascii_lower(c: char) -> char {
    if ascii_uppercase(c) {
        ((c as u32) + 32) as char
    } else {
        c
    }
}

/// Every character of `s` is ASCII.
pub open spec fn all_ascii(s: Seq<char>) -> bool {
    forall|k: int| 0 <= k < s.len() ==> (s[k] as u32) < 128
}

/// `char::is_alphanumeric`; its result is named, as the Unicode tables it
/// reads are long. For an ASCII character it holds of the letters and
/// digits only.
#[verifier::external_body]
pub(crate) fn is_alphanumeric(c: char) -> (r: bool)
    ensures
        r == spec_is_alphanumeric(c),
        (c as u32) < 128 ==> r == ascii_alphanumeric(c),
{
    c.is_alphanumeric()
}

/// `char::is_uppercase`; its result is named. For an ASCII character it
/// holds of `A` to `Z` only.
#[verifier::external_body]
pub(crate) fn is_uppercase(c: char) -> (r: bool)
    ensures
        r == spec_is_uppercase(c),
        (c as u32) < 128 ==> r == ascii_uppercase(c),
{
    c.is_uppercase()
}

/// `str::to_lowercase`; its result is named, as the Unicode case mapping
/// is long. An ASCII text is lowercased character by character, `A` to
/// `Z` becoming `a` to `z`.
#[verifier::external_body]
pub(crate) fn lowercase(s: &str) -> (r: String)
    ensures
        r@ == spec_lowercase(s@),
        all_ascii(s@) ==> r@ == s@.map_values(|c: char| ascii_lower(c)),
{
    s.to_lowercase()
}

/// Appends one character; `String::push`.
#[verifier::external_body]
pub(crate) fn push_char(s: &mut String, c: char)
    ensures
        final(s)@ == old(s)@.push(c),
{
    s.push(c);
}

/// Appends a text.
pub(crate) fn push_str(s: &mut String, t: &str)
    ensures
        final(s)@ == old(s)@ + t@,
{
    s.append(t);
}

/// A new owned copy of `s`.
pub fn to_owned(s: &str) -> (r: String)
    ensures
        r@ == s@,
{
    s.to_owned()
}

/// The characters of `s`, in order.
pub fn chars_of(s: &str) -> (v: Vec<char>)
    ensures
        v@ == s@,
{
    let mut v: Vec<char> = Vec::new();
    for c in it: s.chars()
        invariant
            v@ == it.seq().take(it.index() as int),
    {
        v.push(c);
    }
    proof {
        assert(v@ =~= s@);
    }
    v
}

/// A string holding `cs[lo..hi]`.
pub fn string_of(cs: &[char], lo: usize, hi: usize) -> (r: String)
    requires
        lo <= hi <= cs@.len(),
    ensures
        r@ == cs@.subrange(lo as int, hi as int),
{
    let mut r = String::new();
    let mut i = lo;
    while i < hi
        invariant
            lo <= i <= hi <= cs@.len(),
            r@ == cs@.subrange(lo as int, i as int),
        decreases hi - i,
    {
        push_char(&mut r, cs[i]);
        i = i + 1;
        proof {
            assert(r@ =~= cs@.subrange(lo as int, i as int));
        }
    }
    r
}

pub fn is_whitespace(c: char) -> (r: bool)
    ensures
        r == is_ws(c),
{
    let u = c as u32;
    (0x09 <= u && u <= 0x0d) || u == 0x20 || u == 0x85 || u == 0xa0 || u == 0x1680 || (0x2000
        <= u && u <= 0x200a) || u == 0x2028 || u == 0x2029 || u == 0x202f || u == 0x205f || u
        == 0x3000
}

proof fn lemma_trim_start_range(s: Seq<char>, k: int)
    requires
        0 <= k <= s.len(),
        forall|j: int| 0 <= j < k ==> is_ws(s[j]),
    ensures
        trim_start(s) == trim_start(s.subrange(k, s.len() as int)),
    decreases k,
{
    if k > 0 {
        assert(s.drop_first() =~= s.subrange(1, s.len() as int));
        lemma_trim_start_range(s.drop_first(), k - 1);
        assert(s.drop_first().subrange(k - 1, s.drop_first().len() as int) =~= s.subrange(
            k,
            s.len() as int,
        ));
    } else {
        assert(s.subrange(0, s.len() as int) =~= s);
    }
}

proof fn lemma_trim_end_range(s: Seq<char>, k: int)
    requires
        0 <= k <= s.len(),
        forall|j: int| k <= j < s.len() ==> is_ws(s[j]),
    ensures
        trim_end(s) == trim_end(s.subrange(0, k)),
    decreases s.len() - k,
{
    if k < s.len() {
        assert(s.drop_last() =~= s.subrange(0, s.len() - 1));
        lemma_trim_end_range(s.drop_last(), k);
        assert(s.drop_last().subrange(0, k) =~= s.subrange(0, k));
    } else {
        assert(s.subrange(0, s.len() as int) =~= s);
    }
}

/// Bounds `(lo, hi)` such that `cs[lo..hi]` is `trim(cs)`.
pub fn trim_bounds(cs: &[char]) -> (r: (usize, usize))
    ensures
        r.0 <= r.1 <= cs@.len(),
        cs@.subrange(r.0 as int, r.1 as int) == trim(cs@),
        cs@.subrange(r.0 as int, cs@.len() as int) == trim_start(cs@),
{
    let n = cs.len();
    let mut lo: usize = 0;
    while lo < n && is_whitespace(cs[lo])
        invariant
            lo <= n == cs@.len(),
            forall|j: int| 0 <= j < lo ==> is_ws(cs@[j]),
        decreases n - lo,
    {
        lo = lo + 1;
    }
    proof {
        lemma_trim_start_range(cs@, lo as int);
        let t = cs@.subrange(lo as int, n as int);
        if t.len() > 0 {
            assert(!is_ws(t[0]));
        }
        assert(trim_start(t) == t);
    }
    let mut hi: usize = n;
    while hi > lo && is_whitespace(cs[hi - 1])
        invariant
            lo <= hi <= n == cs@.len(),
            forall|j: int| hi <= j < n ==> is_ws(cs@[j]),
        decreases hi,
    {
        hi = hi - 1;
    }
    proof {
        let t = cs@.subrange(lo as int, n as int);
        assert(trim_start(cs@) == t);
        lemma_trim_end_range(t, (hi - lo) as int);
        assert(t.subrange(0, (hi - lo) as int) =~= cs@.subrange(lo as int, hi as int));
        let u = cs@.subrange(lo as int, hi as int);
        if u.len() > 0 {
            assert(u.last() == cs@[hi - 1]);
        }
        assert(trim_end(u) == u);
    }
    (lo, hi)
}

/// `p` occurs in `s` at `i`.
pub fn matches_at(s: &[char], p: &[char], i: usize) -> (r: bool)
    ensures
        r == occurs_at(s@, p@, i as int),
{
    if i > s.len() || p.len() > s.len() - i {
        return false;
    }
    let mut j: usize = 0;
    while j < p.len()
        invariant
            i + p@.len() <= s@.len(),
            j <= p@.len(),
            p@.len() == p.len(),
            s@.len() == s.len(),
            forall|k: int| 0 <= k < j ==> s@[i + k] == p@[k],
        decreases p@.len() - j,
    {
        if s[i + j] != p[j] {
            proof {
                assert(s@.subrange(i as int, i + p@.len())[j as int] != p@[j as int]);
            }
            return false;
        }
        j = j + 1;
    }
    proof {
        assert(s@.subrange(i as int, i + p@.len()) =~= p@);
    }
    true
}

pub fn has_prefix(s: &[char], p: &[char]) -> (r: bool)
    ensures
        r == starts_with(s@, p@),
{
    matches_at(s, p, 0)
}

pub fn has_suffix(s: &[char], p: &[char]) -> (r: bool)
    ensures
        r == ends_with(s@, p@),
{
    if p.len() > s.len() {
        return false;
    }
    matches_at(s, p, s.len() - p.len())
}

pub fn has_infix(s: &[char], p: &[char]) -> (r: bool)
    ensures
        r == contains_seq(s@, p@),
{
    if p.len() > s.len() {
        proof {
            assert forall|i: int| !occurs_at(s@, p@, i) by {}
        }
        return false;
    }
    let last = s.len() - p.len();
    let mut i: usize = 0;
    loop
        invariant
            p@.len() <= s@.len(),
            last == s@.len() - p@.len(),
            i <= last,
            forall|k: int| 0 <= k < i ==> !occurs_at(s@, p@, k),
        ensures
            forall|k: int| 0 <= k <= last ==> !occurs_at(s@, p@, k),
        decreases last - i,
    {
        if matches_at(s, p, i) {
            return true;
        }
        if i == last {
            break;
        }
        i = i + 1;
    }
    proof {
        assert forall|k: int| !occurs_at(s@, p@, k) by {
            if 0 <= k && k + p@.len() <= s@.len() {
                assert(k <= last);
            }
        }
    }
    false
}

/// `p` is a prefix of `s`, both given as text.
pub fn str_starts_with(s: &str, p: &str) -> (r: bool)
    ensures
        r == starts_with(s@, p@),
{
    let sc = chars_of(s);
    let pc = chars_of(p);
    has_prefix(sc.as_slice(), pc.as_slice())
}

pub fn str_ends_with(s: &str, p: &str) -> (r: bool)
    ensures
        r == ends_with(s@, p@),
{
    let sc = chars_of(s);
    let pc = chars_of(p);
    has_suffix(sc.as_slice(), pc.as_slice())
}

pub fn str_contains(s: &str, p: &str) -> (r: bool)
    ensures
        r == contains_seq(s@, p@),
{
    let sc = chars_of(s);
    let pc = chars_of(p);
    has_infix(sc.as_slice(), pc.as_slice())
}

pub fn str_eq(a: &str, b: &str) -> (r: bool)
    ensures
        r == (a@ == b@),
{
    let ac = chars_of(a);
    let bc = chars_of(b);
    if ac.len() != bc.len() {
        return false;
    }
    let mut i: usize = 0;
    while i < ac.len()
        invariant
            ac@.len() == bc@.len(),
            ac@ == a@,
            bc@ == b@,
            i <= ac@.len(),
            forall|k: int| 0 <= k < i ==> ac@[k] == bc@[k],
        decreases ac@.len() - i,
    {
        if ac[i] != bc[i] {
            proof {
                assert(a@[i as int] != b@[i as int]);
            }
            return false;
        }
        i = i + 1;
    }
    proof {
        assert(ac@ =~= bc@);
    }
    true
}

/// `trim(s)` as a new string.
pub fn trim_str(s: &str) -> (r: String)
    ensures
        r@ == trim(s@),
{
    let cs = chars_of(s);
    let (lo, hi) = trim_bounds(cs.as_slice());
    string_of(cs.as_slice(), lo, hi)
}

/// Position of the first `c` at or after `from`.
pub fn find_char(cs: &[char], c: char, from: usize) -> (r: usize)
    requires
        from <= cs@.len(),
    ensures
        r == find_char_from(cs@, c, from as int),
{
    let mut i = from;
    while i < cs.len() && cs[i] != c
        invariant
            from <= i <= cs@.len(),
            find_char_from(cs@, c, from as int) == find_char_from(cs@, c, i as int),
        decreases cs@.len() - i,
    {
        i = i + 1;
    }
    i
}

proof fn lemma_find_shift(s: Seq<char>, c: char, k: int, from: int)
    requires
        0 <= k <= from,
        k <= s.len(),
    ensures
        find_char_from(s, c, from) - k == find_char_from(s.subrange(k, s.len() as int), c, from - k),
    decreases s.len() - from,
{
    if from < s.len() && s[from] != c {
        lemma_find_shift(s, c, k, from + 1);
    }
}

/// The lines of `cs`, as in `lines`.
pub fn split_lines(cs: &[char]) -> (r: Vec<String>)
    ensures
        r@.len() == lines(cs@).len(),
        forall|i: int| 0 <= i < r@.len() ==> #[trigger] r@[i]@ == lines(cs@)[i],
{
    let mut r: Vec<String> = Vec::new();
    let mut start: usize = 0;
    let n = cs.len();
    proof {
        assert(cs@.subrange(0, n as int) =~= cs@);
    }
    while start < n
        invariant
            start <= n == cs@.len(),
            r@.len() + lines(cs@.subrange(start as int, n as int)).len() == lines(cs@).len(),
            forall|i: int| 0 <= i < r@.len() ==> #[trigger] r@[i]@ == lines(cs@)[i],
            forall|i: int|
                0 <= i < lines(cs@.subrange(start as int, n as int)).len() ==> lines(cs@)[r@.len()
                    + i] == #[trigger] lines(cs@.subrange(start as int, n as int))[i],
        decreases n - start,
    {
        let ghost rest = cs@.subrange(start as int, n as int);
        let e = find_char(cs, '\n', start);
        proof {
            lemma_find_shift(cs@, '\n', start as int, start as int);
            lemma_find_char_bounds(cs@, '\n', start as int);
        }
        let mut hi = e;
        if e < n && e > start && cs[e - 1] == '\r' {
            hi = e - 1;
        }
        let line = string_of(cs, start, hi);
        proof {
            let i = e - start;
            if e < n {
                assert(rest.subrange(0, i) =~= cs@.subrange(start as int, e as int));
                assert(strip_cr(rest.subrange(0, i)) =~= cs@.subrange(start as int, hi as int));
                assert(rest.subrange(i + 1, rest.len() as int) =~= cs@.subrange(
                    e + 1,
                    n as int,
                ));
            } else {
                assert(rest =~= cs@.subrange(start as int, hi as int));
            }
            assert(lines(rest)[0] == line@);
        }
        r.push(line);
        if e < n {
            start = e + 1;
        } else {
            start = n;
        }
        proof {
            let rest2 = cs@.subrange(start as int, n as int);
            if e >= n {
                assert(lines(rest2) =~= seq![]);
            }
            assert forall|i: int| 0 <= i < lines(rest2).len() implies lines(cs@)[r@.len() + i]
                == #[trigger] lines(rest2)[i] by {
                assert(lines(rest)[i + 1] == lines(rest2)[i]);
            }
        }
    }
    proof {
        assert(cs@.subrange(start as int, n as int) =~= Seq::<char>::empty());
    }
    r
}

/// The decimal text of `n`.
pub fn usize_to_string(n: usize) -> (r: String)
    ensures
        r@ == decimal(n as nat),
{
    u64_to_string(n as u64)
}

/// The decimal text of `n`.
pub fn u64_to_string(n: u64) -> (r: String)
    ensures
        r@ == decimal(n as nat),
    decreases n,
{
    let d = n % 10;
    let c = if d == 0 { '0' }
        else if d == 1 { '1' }
        else if d == 2 { '2' }
        else if d == 3 { '3' }
        else if d == 4 { '4' }
        else if d == 5 { '5' }
        else if d == 6 { '6' }
        else if d == 7 { '7' }
        else if d == 8 { '8' }
        else { '9' };
    if n < 10 {
        let mut r = String::new();
        push_char(&mut r, c);
        proof {
            assert(r@ =~= decimal(n as nat));
        }
        r
    } else {
        let mut r = u64_to_string(n / 10);
        push_char(&mut r, c);
        r
    }
}

/// `a` comes before `b` in lexicographic code point order.
pub fn lex_less(a: &[char], b: &[char]) -> (r: bool)
    ensures
        r == lex_lt(a@, b@),
{
    let mut i: usize = 0;
    proof {
        assert(a@.subrange(0, a@.len() as int) =~= a@);
        assert(b@.subrange(0, b@.len() as int) =~= b@);
    }
    while i < a.len() && i < b.len() && a[i] == b[i]
        invariant
            i <= a@.len(),
            i <= b@.len(),
            lex_lt(a@, b@) == lex_lt(a@.subrange(i as int, a@.len() as int), b@.subrange(
                i as int,
                b@.len() as int,
            )),
        decreases a@.len() - i,
    {
        proof {
            let sa = a@.subrange(i as int, a@.len() as int);
            let sb = b@.subrange(i as int, b@.len() as int);
            assert(sa.drop_first() =~= a@.subrange(i + 1, a@.len() as int));
            assert(sb.drop_first() =~= b@.subrange(i + 1, b@.len() as int));
        }
        i = i + 1;
    }
    if i == a.len() {
        i < b.len()
    } else if i == b.len() {
        false
    } else {
        (a[i] as u32) < (b[i] as u32)
    }
}

pub fn str_lex_less(a: &str, b: &str) -> (r: bool)
    ensures
        r == lex_lt(a@, b@),
{
    let ac = chars_of(a);
    let bc = chars_of(b);
    lex_less(ac.as_slice(), bc.as_slice())
}

/// What a sequence holds after a push.
pub proof fn lemma_push_contains<T>(s: Seq<T>, v: T)
    ensures
        forall|x: T| #[trigger] s.push(v).contains(x) <==> (s.contains(x) || x == v),
{
    assert forall|x: T| #[trigger] s.push(v).contains(x) <==> (s.contains(x) || x == v) by {
        if s.push(v).contains(x) {
            let w = choose|w: int| 0 <= w < s.push(v).len() && s.push(v)[w] == x;
            if w < s.len() {
                assert(s[w] == x);
            }
        }
        if s.contains(x) {
            let w = choose|w: int| 0 <= w < s.len() && s[w] == x;
            assert(s.push(v)[w] == x);
        }
        if x == v {
            assert(s.push(v)[s.len() as int] == x);
        }
    }
}

/// What a prefix holds when it grows by one.
pub proof fn lemma_take_grow_contains<T>(s: Seq<T>, j: int)
    requires
        0 <= j < s.len(),
    ensures
        forall|x: T| #[trigger] s.take(j + 1).contains(x) <==> (s.take(j).contains(x) || x == s[j]),
{
    assert(s.take(j + 1) =~= s.take(j).push(s[j]));
    lemma_push_contains(s.take(j), s[j]);
}

/// The texts held by a list of strings.
pub open spec fn views(v: Seq<String>) -> Seq<Seq<char>> {
    v.map_values(|s: String| s@)
}

/// Strictly increasing in `lex_lt`: sorted, and no text twice.
pub open spec fn sorted_strict(s: Seq<Seq<char>>) -> bool {
    forall|i: int, j: int| 0 <= i < j < s.len() ==> lex_lt(s[i], s[j])
}

/// Two strictly sorted lists with the same elements are the same list.
pub proof fn lemma_sorted_strict_unique(a: Seq<Seq<char>>, b: Seq<Seq<char>>)
    requires
        sorted_strict(a),
        sorted_strict(b),
        a.to_set() == b.to_set(),
    ensures
        a == b,
    decreases a.len(),
{
    if a.len() == 0 {
        if b.len() > 0 {
            assert(b.to_set().contains(b[0]));
        }
        assert(a =~= b);
    } else if b.len() == 0 {
        assert(a.to_set().contains(a[0]));
    } else {
        // The first elements are both the least element.
        assert(b.to_set().contains(a[0]));
        assert(a.to_set().contains(b[0]));
        let ia = choose|k: int| 0 <= k < a.len() && a[k] == b[0];
        let ib = choose|k: int| 0 <= k < b.len() && b[k] == a[0];
        if ia > 0 {
            assert(lex_lt(a[0], a[ia]));
            if ib > 0 {
                assert(lex_lt(b[0], b[ib]));
                lemma_lex_asymmetric(a[0], b[0]);
            } else {
                lemma_lex_irreflexive(a[0]);
            }
        } else {
            assert(a[0] == b[0]);
        }
        assert(a[0] == b[0]);
        let a1 = a.drop_first();
        let b1 = b.drop_first();
        assert forall|x: Seq<char>| a1.to_set().contains(x) implies b1.to_set().contains(x) by {
            let k = choose|k: int| 0 <= k < a1.len() && a1[k] == x;
            assert(lex_lt(a[0], a[k + 1]));
            assert(b.to_set().contains(x));
            let m = choose|m: int| 0 <= m < b.len() && b[m] == x;
            if m == 0 {
                lemma_lex_irreflexive(x);
            }
            assert(b1[m - 1] == x);
        }
        assert forall|x: Seq<char>| b1.to_set().contains(x) implies a1.to_set().contains(x) by {
            let k = choose|k: int| 0 <= k < b1.len() && b1[k] == x;
            assert(lex_lt(b[0], b[k + 1]));
            assert(a.to_set().contains(x));
            let m = choose|m: int| 0 <= m < a.len() && a[m] == x;
            if m == 0 {
                lemma_lex_irreflexive(x);
            }
            assert(a1[m - 1] == x);
        }
        assert(a1.to_set() =~= b1.to_set());
        lemma_sorted_strict_unique(a1, b1);
        assert(a =~= seq![a[0]] + a1);
        assert(b =~= seq![b[0]] + b1);
    }
}

/// Adds `s` to a strictly sorted list of strings, unless it is there.
pub fn insert_sorted(v: &mut Vec<String>, s: &str)
    requires
        sorted_strict(views(old(v)@)),
    ensures
        sorted_strict(views(final(v)@)),
        views(final(v)@).to_set() == views(old(v)@).to_set().insert(s@),
{
    let ghost old_v = views(v@);
    let sc = chars_of(s);
    let mut i: usize = 0;
    while i < v.len()
        invariant
            views(v@) == old_v,
            sorted_strict(old_v),
            sc@ == s@,
            i <= v@.len(),
            forall|k: int| 0 <= k < i ==> lex_lt(old_v[k], s@),
        ensures
            views(v@) == old_v,
            i <= v@.len(),
            forall|k: int| 0 <= k < i ==> lex_lt(old_v[k], s@),
            i < v@.len() ==> !lex_lt(old_v[i as int], s@),
        decreases v@.len() - i,
    {
        let vc = chars_of(v[i].as_str());
        if !lex_less(vc.as_slice(), sc.as_slice()) {
            break;
        }
        i = i + 1;
    }
    if i < v.len() {
        let vc = chars_of(v[i].as_str());
        if str_eq(v[i].as_str(), s) {
            proof {
                assert(old_v[i as int] == s@);
                assert(old_v.to_set().insert(s@) =~= old_v.to_set());
            }
            return;
        }
        proof {
            lemma_lex_total(old_v[i as int], s@);
        }
    }
    v.insert(i, to_owned(s));
    proof {
        let nv = views(v@);
        assert(nv =~= old_v.insert(i as int, s@));
        assert forall|a: int, b: int| 0 <= a < b < nv.len() implies lex_lt(nv[a], nv[b]) by {
            if b < i {
            } else if b == i {
            } else if a < i {
                assert(lex_lt(old_v[a], s@));
                assert(lex_lt(s@, old_v[i as int]));
                if b - 1 > i {
                    lemma_lex_transitive(s@, old_v[i as int], old_v[b - 1]);
                }
                lemma_lex_transitive(old_v[a], s@, old_v[b - 1]);
            } else if a == i {
                if b - 1 > i {
                    lemma_lex_transitive(s@, old_v[i as int], old_v[b - 1]);
                }
            } else {
            }
        }
        assert forall|x: Seq<char>| nv.to_set().contains(x) <==> old_v.to_set().insert(s@).contains(x) by {
            if nv.to_set().contains(x) {
                let k = choose|k: int| 0 <= k < nv.len() && nv[k] == x;
                if k < i { assert(old_v[k] == x); }
                else if k > i { assert(old_v[k - 1] == x); }
            }
            if old_v.to_set().contains(x) {
                let k = choose|k: int| 0 <= k < old_v.len() && old_v[k] == x;
                if k < i { assert(nv[k] == x); }
                else { assert(nv[k + 1] == x); }
            }
            if x == s@ { assert(nv[i as int] == x); }
        }
        assert(nv.to_set() =~= old_v.to_set().insert(s@));
    }
}

/// The part of `s` from byte `lo` to byte `hi`, both on character boundaries.
pub fn byte_slice<'a>(s: &'a str, lo: usize, hi: usize) -> (r: &'a str)
    requires
        lo <= hi <= s.spec_bytes().len(),
        vstd::utf8::is_char_boundary(s.spec_bytes(), lo as int),
        vstd::utf8::is_char_boundary(s.spec_bytes(), hi as int),
    ensures
        r.spec_bytes() == s.spec_bytes().subrange(lo as int, hi as int),
        r@ == vstd::utf8::decode_utf8(s.spec_bytes().subrange(lo as int, hi as int)),
{
    let (head, _) = s.split_at(hi);
    let ghost bytes = s.spec_bytes();
    proof {
        broadcast use vstd::utf8::encode_utf8_valid_utf8;
        broadcast use vstd::utf8::valid_utf8_split;
        broadcast use vstd::utf8::is_char_boundary_start_end_of_seq;
        let hb = bytes.subrange(0, hi as int);
        assert(vstd::utf8::valid_utf8(hb));
        if lo == hi {
            assert(hb.len() == hi);
        } else if lo > 0 {
            vstd::utf8::is_char_boundary_iff_not_is_continuation_byte(bytes, lo as int);
            vstd::utf8::is_char_boundary_iff_not_is_continuation_byte(hb, lo as int);
            assert(hb[lo as int] == bytes[lo as int]);
        }
        assert(head.spec_bytes() =~= hb);
        assert(vstd::utf8::is_char_boundary(head.spec_bytes(), lo as int));
    }
    let (_, mid) = head.split_at(lo);
    proof {
        assert(mid.spec_bytes() =~= bytes.subrange(lo as int, hi as int));
        vstd::utf8::encode_utf8_decode_utf8(mid@);
    }
    mid
}

} // verus!
