use vstd::prelude::*;
use crate::sorting::strict_total;

verus! {

// ---------------------------------------------------------------------------
// Conversions between `str`/`String` and character vectors
// ---------------------------------------------------------------------------

/// `String::push` appends one character.
pub assume_specification[ String::push ](s: &mut String, ch: char)
    ensures
        final(s)@ == old(s)@.push(ch),
;

/// The characters of a string slice, in order.
pub fn chars_of(s: &str) -> (v: Vec<char>)
    ensures
        v@ == s@,
{
    let mut v: Vec<char> = Vec::new();
    for c in it: s.chars()
        invariant
            v@ == it.seq().take(it.index()),
    {
        v.push(c);
    }
    v
}

/// A `String` holding the given characters.
pub fn string_of(v: &[char]) -> (s: String)
    ensures
        s@ == v@,
{
    let mut s = String::new();
    let mut i: usize = 0;
    while i < v.len()
        invariant
            i <= v.len(),
            s@ == v@.take(i as int),
        decreases v.len() - i,
    {
        s.push(v[i]);
        i = i + 1;
        assert(v@.take(i as int) =~= v@.take(i - 1).push(v@[i - 1]));
    }
    assert(v@.take(v.len() as int) =~= v@);
    s
}


// ---------------------------------------------------------------------------
// Whitespace and trimming
// ---------------------------------------------------------------------------

/// Unicode `White_Space`, the property behind `char::is_whitespace` and `str::trim`.
pub open spec fn is_ws(c: char) -> bool {
    ||| ('\u{9}' <= c && c <= '\u{d}')
    ||| c == ' '
    ||| c == '\u{85}'
    ||| c == '\u{a0}'
    ||| c == '\u{1680}'
    ||| ('\u{2000}' <= c && c <= '\u{200a}')
    ||| c == '\u{2028}'
    ||| c == '\u{2029}'
    ||| c == '\u{202f}'
    ||| c == '\u{205f}'
    ||| c == '\u{3000}'
}

pub fn is_ws_char(c: char) -> (r: bool)
    ensures
        r == is_ws(c),
{
    ('\u{9}' <= c && c <= '\u{d}') || c == ' ' || c == '\u{85}' || c == '\u{a0}' || c
        == '\u{1680}' || ('\u{2000}' <= c && c <= '\u{200a}') || c == '\u{2028}' || c
        == '\u{2029}' || c == '\u{202f}' || c == '\u{205f}' || c == '\u{3000}'
}

/// The text without its leading whitespace.
pub open spec fn trim_start(s: Seq<char>) -> Seq<char>
    decreases s.len(),
{
    if s.len() > 0 && is_ws(s[0]) {
        trim_start(s.drop_first())
    } else {
        s
    }
}

/// The text without its trailing whitespace.
pub open spec fn trim_end(s: Seq<char>) -> Seq<char>
    decreases s.len(),
{
    if s.len() > 0 && is_ws(s.last()) {
        trim_end(s.drop_last())
    } else {
        s
    }
}

/// `str::trim`: the text without leading and trailing whitespace.
pub open spec fn trim(s: Seq<char>) -> Seq<char> {
    trim_end(trim_start(s))
}

pub proof fn lemma_trim_start_at(s: Seq<char>, lo: int)
    requires
        0 <= lo <= s.len(),
        forall|i: int| 0 <= i < lo ==> is_ws(#[trigger] s[i]),
        lo == s.len() || !is_ws(s[lo]),
    ensures
        trim_start(s) == s.skip(lo),
    decreases lo,
{
    if lo > 0 {
        assert(is_ws(s[0]));
        let t = s.drop_first();
        assert forall|i: int| 0 <= i < lo - 1 implies is_ws(#[trigger] t[i]) by {
            assert(t[i] == s[i + 1]);
        }
        lemma_trim_start_at(t, lo - 1);
        assert(t.skip(lo - 1) =~= s.skip(lo));
    } else {
        assert(s.skip(0) =~= s);
    }
}

pub proof fn lemma_trim_end_at(s: Seq<char>, hi: int)
    requires
        0 <= hi <= s.len(),
        forall|i: int| hi <= i < s.len() ==> is_ws(#[trigger] s[i]),
        hi == 0 || !is_ws(s[hi - 1]),
    ensures
        trim_end(s) == s.take(hi),
    decreases s.len() - hi,
{
    if hi < s.len() {
        assert(is_ws(s.last()));
        let t = s.drop_last();
        assert forall|i: int| hi <= i < t.len() implies is_ws(#[trigger] t[i]) by {
            assert(t[i] == s[i]);
        }
        lemma_trim_end_at(t, hi);
        assert(t.take(hi) =~= s.take(hi));
    } else {
        assert(s.take(hi) =~= s);
    }
}

pub proof fn lemma_trim_start_offset(s: Seq<char>) -> (lo: int)
    ensures
        0 <= lo <= s.len(),
        trim_start(s) == s.skip(lo),
    decreases s.len(),
{
    if s.len() > 0 && is_ws(s[0]) {
        let k = lemma_trim_start_offset(s.drop_first());
        assert(s.drop_first().skip(k) =~= s.skip(k + 1));
        k + 1
    } else {
        assert(s.skip(0) =~= s);
        0
    }
}

pub proof fn lemma_trim_end_offset(s: Seq<char>) -> (hi: int)
    ensures
        0 <= hi <= s.len(),
        trim_end(s) == s.take(hi),
    decreases s.len(),
{
    if s.len() > 0 && is_ws(s.last()) {
        let k = lemma_trim_end_offset(s.drop_last());
        assert(s.drop_last().take(k) =~= s.take(k));
        k
    } else {
        assert(s.take(s.len() as int) =~= s);
        s.len() as int
    }
}

/// The trimmed text is a stretch of the text.
pub proof fn lemma_trim_offsets(s: Seq<char>) -> (r: (int, int))
    ensures
        0 <= r.0 <= r.1 <= s.len(),
        trim(s) == s.subrange(r.0, r.1),
{
    let lo = lemma_trim_start_offset(s);
    let hi = lemma_trim_end_offset(s.skip(lo));
    assert(s.skip(lo).take(hi) =~= s.subrange(lo, lo + hi));
    (lo, lo + hi)
}

/// Bounds `(lo, hi)` such that `s[lo..hi]` is `s` trimmed.
pub fn trim_bounds(s: &[char]) -> (r: (usize, usize))
    ensures
        r.0 <= r.1 <= s@.len(),
        trim(s@) == s@.subrange(r.0 as int, r.1 as int),
{
    let n = s.len();
    let mut lo: usize = 0;
    while lo < n && is_ws_char(s[lo])
        invariant
            n == s@.len(),
            lo <= n,
            forall|i: int| 0 <= i < lo ==> is_ws(#[trigger] s@[i]),
        decreases n - lo,
    {
        lo = lo + 1;
    }
    proof {
        lemma_trim_start_at(s@, lo as int);
    }
    let mut hi: usize = n;
    while hi > lo && is_ws_char(s[hi - 1])
        invariant
            n == s@.len(),
            lo <= hi <= n,
            forall|i: int| hi <= i < n ==> is_ws(#[trigger] s@[i]),
        decreases hi,
    {
        hi = hi - 1;
    }
    proof {
        let t = s@.skip(lo as int);
        let k = hi - lo;
        assert forall|i: int| k <= i < t.len() implies is_ws(#[trigger] t[i]) by {
            assert(t[i] == s@[i + lo]);
        }
        if k == 0 && lo < n {
            assert(!is_ws(s@[lo as int]));
        }
        lemma_trim_end_at(t, k as int);
        assert(t.take(k as int) =~= s@.subrange(lo as int, hi as int));
    }
    (lo, hi)
}


/// The texts held by a sequence of character vectors.
pub open spec fn char_vecs(v: Seq<Vec<char>>) -> Seq<Seq<char>> {
    v.map_values(|x: Vec<char>| x@)
}

/// The texts held by a sequence of strings.
pub open spec fn strs(v: Seq<String>) -> Seq<Seq<char>> {
    v.map_values(|x: String| x@)
}

// ---------------------------------------------------------------------------
// Lines
// ---------------------------------------------------------------------------

/// A line ending `\r\n` loses its `\r` as well.
pub open spec fn strip_cr(l: Seq<char>) -> Seq<char> {
    if l.len() > 0 && l.last() == '\r' {
        l.drop_last()
    } else {
        l
    }
}

/// The lines of `s`, given that the current (unfinished) line so far is `cur`.
pub open spec fn lines_from(s: Seq<char>, cur: Seq<char>) -> Seq<Seq<char>>
    decreases s.len(),
{
    if s.len() == 0 {
        if cur.len() == 0 {
            seq![]
        } else {
            seq![cur]
        }
    } else if s[0] == '\n' {
        seq![strip_cr(cur)] + lines_from(s.drop_first(), seq![])
    } else {
        lines_from(s.drop_first(), cur.push(s[0]))
    }
}

/// `str::lines`: split at `\n` (dropping a `\r` right before it); a final
/// line ending adds no empty line.
pub open spec fn lines(s: Seq<char>) -> Seq<Seq<char>> {
    lines_from(s, seq![])
}

/// Up to the first newline, the current line grows; the newline ends it.
pub proof fn lemma_lines_from_line(u: Seq<char>, v: Seq<char>, cur: Seq<char>)
    requires
        !u.contains('\n'),
    ensures
        lines_from(u + seq!['\n'] + v, cur) == seq![strip_cr(cur + u)] + lines_from(v, seq![]),
    decreases u.len(),
{
    let s = u + seq!['\n'] + v;
    if u.len() == 0 {
        assert(s[0] == '\n');
        assert(s.drop_first() =~= v);
        assert(cur + u =~= cur);
    } else {
        assert(s[0] == u[0]);
        assert(u[0] != '\n') by {
            assert(u.contains(u[0]));
        }
        let t = u.drop_first();
        assert(!t.contains('\n')) by {
            if t.contains('\n') {
                let k = choose|k: int| 0 <= k < t.len() && t[k] == '\n';
                assert(u[k + 1] == '\n');
            }
        }
        assert(s.drop_first() =~= t + seq!['\n'] + v);
        lemma_lines_from_line(t, v, cur.push(u[0]));
        assert(cur.push(u[0]) + t =~= cur + u);
    }
}

/// A text that ends with a newline splits into lines on its own.
pub proof fn lemma_lines_from_append(x: Seq<char>, y: Seq<char>, cur: Seq<char>)
    requires
        x.len() > 0,
        x.last() == '\n',
    ensures
        lines_from(x + y, cur) == lines_from(x, cur) + lines_from(y, seq![]),
    decreases x.len(),
{
    let s = x + y;
    assert(s[0] == x[0]);
    assert(s.drop_first() =~= x.drop_first() + y);
    if x[0] == '\n' {
        if x.len() == 1 {
            assert(x.drop_first() =~= Seq::<char>::empty());
            assert(lines_from(x.drop_first(), seq![]) =~= Seq::<Seq<char>>::empty());
            assert(x.drop_first() + y =~= y);
        } else {
            lemma_lines_from_append(x.drop_first(), y, seq![]);
        }
    } else {
        lemma_lines_from_append(x.drop_first(), y, cur.push(x[0]));
    }
}

/// A line that stands between two newlines is one of the lines of the text.
pub proof fn lemma_line_between_newlines(a: Seq<char>, b: Seq<char>, c: Seq<char>)
    requires
        !b.contains('\n'),
        b.len() == 0 || b.last() != '\r',
    ensures
        lines(a + seq!['\n'] + b + seq!['\n'] + c).contains(b),
{
    let x = a + seq!['\n'];
    let y = b + seq!['\n'] + c;
    assert(a + seq!['\n'] + b + seq!['\n'] + c =~= x + y);
    lemma_lines_from_append(x, y, seq![]);
    lemma_lines_from_line(b, c, seq![]);
    assert(seq![] + b =~= b);
    let ls = lines_from(x, seq![]) + lines_from(y, seq![]);
    assert(ls[lines_from(x, seq![]).len() as int] == b);
}

/// Joining a line in front of other lines puts a newline between.
pub proof fn lemma_join_lines_cons(a: Seq<char>, rest: Seq<Seq<char>>)
    requires
        rest.len() > 0,
    ensures
        join_lines(seq![a] + rest) == a + seq!['\n'] + join_lines(rest),
    decreases rest.len(),
{
    let all = seq![a] + rest;
    if rest.len() == 1 {
        assert(all.drop_last() =~= seq![a]);
        assert(all.last() == rest[0]);
        assert(join_lines(seq![a]) == a);
        assert(join_lines(rest) == rest[0]);
        assert(join_lines(all) == join_lines(all.drop_last()) + seq!['\n'] + all.last());
    } else {
        lemma_join_lines_cons(a, rest.drop_last());
        assert(all.drop_last() =~= seq![a] + rest.drop_last());
        assert(all.last() == rest.last());
        assert(join_lines(all) == join_lines(all.drop_last()) + seq!['\n'] + all.last());
        assert(join_lines(rest) == join_lines(rest.drop_last()) + seq!['\n'] + rest.last());
        assert(join_lines(all) =~= a + seq!['\n'] + join_lines(rest));
    }
}

/// Without carriage returns, the lines of a text ended by a newline join
/// back into the text.
pub proof fn lemma_join_lines_of(x: Seq<char>, cur: Seq<char>)
    requires
        !x.contains('\r'),
        !cur.contains('\r'),
    ensures
        lines_from(x + seq!['\n'], cur).len() > 0,
        join_lines(lines_from(x + seq!['\n'], cur)) == cur + x,
    decreases x.len(),
{
    let s = x + seq!['\n'];
    assert(cur.len() == 0 || cur.last() != '\r') by {
        if cur.len() > 0 {
            assert(cur.contains(cur.last()));
        }
    }
    if x.len() == 0 {
        assert(s =~= seq!['\n']);
        assert(s.drop_first() =~= Seq::<char>::empty());
        assert(s[0] == '\n');
        assert(strip_cr(cur) == cur);
        assert(lines_from(Seq::<char>::empty(), seq![]) =~= Seq::<Seq<char>>::empty());
        assert(lines_from(s, cur) == seq![strip_cr(cur)] + lines_from(s.drop_first(), seq![]));
        assert(lines_from(s, cur) =~= seq![cur]);
        assert(cur + x =~= cur);
    } else {
        assert(s[0] == x[0]);
        let t = x.drop_first();
        assert(s.drop_first() =~= t + seq!['\n']);
        assert(!t.contains('\r')) by {
            if t.contains('\r') {
                let k = choose|k: int| 0 <= k < t.len() && t[k] == '\r';
                assert(x[k + 1] == '\r');
            }
        }
        if x[0] == '\n' {
            lemma_join_lines_of(t, seq![]);
            let rest = lines_from(t + seq!['\n'], seq![]);
            lemma_join_lines_cons(cur, rest);
            assert(seq![] + t =~= t);
            assert(cur + seq!['\n'] + t =~= cur + x);
        } else {
            assert(x[0] != '\r') by {
                assert(x.contains(x[0]));
            }
            let c2 = cur.push(x[0]);
            assert(!c2.contains('\r')) by {
                if c2.contains('\r') {
                    let k = choose|k: int| 0 <= k < c2.len() && c2[k] == '\r';
                    if k < cur.len() {
                        assert(cur[k] == '\r');
                    }
                }
            }
            lemma_join_lines_of(t, c2);
            assert(c2 + t =~= cur + x);
        }
    }
}

/// Leading whitespace of a text with one more whitespace character at its end.
pub proof fn lemma_trim_start_push_ws(d: Seq<char>, c: char)
    requires
        is_ws(c),
    ensures
        trim_start(d.push(c)) == if trim_start(d).len() == 0 {
            seq![]
        } else {
            trim_start(d).push(c)
        },
    decreases d.len(),
{
    let s = d.push(c);
    if d.len() == 0 {
        assert(s.drop_first() =~= Seq::<char>::empty());
        assert(trim_start(Seq::<char>::empty()) == Seq::<char>::empty());
        assert(trim_start(s) == trim_start(s.drop_first()));
    } else {
        assert(s[0] == d[0]);
        if is_ws(d[0]) {
            assert(s.drop_first() =~= d.drop_first().push(c));
            lemma_trim_start_push_ws(d.drop_first(), c);
            assert(trim_start(s) == trim_start(s.drop_first()));
            assert(trim_start(d) == trim_start(d.drop_first()));
        } else {
            assert(trim_start(s) == s);
            assert(trim_start(d) == d);
        }
    }
}

/// Trailing whitespace trims away.
pub proof fn lemma_trim_push_ws(x: Seq<char>, c: char)
    requires
        is_ws(c),
    ensures
        trim(x.push(c)) == trim(x),
{
    lemma_trim_start_push_ws(x, c);
    let ts = trim_start(x);
    if ts.len() > 0 {
        assert(ts.push(c).drop_last() =~= ts);
    } else {
        assert(trim_end(ts) == ts);
    }
}

proof fn lemma_trim_start_push_visible(x: Seq<char>, c: char)
    requires
        !is_ws(c),
    ensures
        trim_start(x.push(c)) == trim_start(x).push(c),
    decreases x.len(),
{
    let s = x.push(c);
    if x.len() == 0 {
        assert(trim_start(s) == s);
        assert(trim_start(x) == x);
    } else {
        assert(s[0] == x[0]);
        if is_ws(x[0]) {
            assert(s.drop_first() =~= x.drop_first().push(c));
            lemma_trim_start_push_visible(x.drop_first(), c);
            assert(trim_start(s) == trim_start(s.drop_first()));
            assert(trim_start(x) == trim_start(x.drop_first()));
        } else {
            assert(trim_start(s) == s);
            assert(trim_start(x) == x);
        }
    }
}

/// A visible character at the end stays, and ends the trimmed text.
pub proof fn lemma_trim_push_visible(x: Seq<char>, c: char)
    requires
        !is_ws(c),
    ensures
        trim(x.push(c)) == trim_start(x).push(c),
{
    lemma_trim_start_push_visible(x, c);
    let y = trim_start(x).push(c);
    assert(y.last() == c);
    assert(trim_end(y) == y);
}

/// Newlines around a text trim away.
pub proof fn lemma_trim_between_newlines(d: Seq<char>)
    ensures
        trim(seq!['\n'] + d + seq!['\n']) == trim(d),
{
    let s = seq!['\n'] + d + seq!['\n'];
    assert(s.drop_first() =~= d.push('\n'));
    assert(trim_start(s) == trim_start(d.push('\n')));
    lemma_trim_start_push_ws(d, '\n');
    let ts = trim_start(d);
    if ts.len() > 0 {
        assert(ts.push('\n').drop_last() =~= ts);
    }
}

/// The lines of a text, as character vectors.
pub fn split_lines(s: &[char]) -> (r: Vec<Vec<char>>)
    ensures
        char_vecs(r@) == lines(s@),
{
    let n = s.len();
    let mut out: Vec<Vec<char>> = Vec::new();
    let mut cur: Vec<char> = Vec::new();
    let mut i: usize = 0;
    assert(s@.skip(0) =~= s@);
    while i < n
        invariant
            n == s@.len(),
            i <= n,
            char_vecs(out@) + lines_from(s@.skip(i as int), cur@) == lines(s@),
        decreases n - i,
    {
        let c = s[i];
        let ghost rest = s@.skip(i as int);
        assert(rest.drop_first() =~= s@.skip(i + 1));
        if c == '\n' {
            let ghost old_out = char_vecs(out@);
            let mut line = cur;
            if line.len() > 0 && line[line.len() - 1] == '\r' {
                line.pop();
            }
            assert(line@ == strip_cr(cur@));
            out.push(line);
            assert(char_vecs(out@) =~= old_out.push(strip_cr(cur@)));
            assert(old_out + (seq![strip_cr(cur@)] + lines_from(s@.skip(i + 1), seq![]))
                =~= old_out.push(strip_cr(cur@)) + lines_from(s@.skip(i + 1), seq![]));
            cur = Vec::new();
        } else {
            cur.push(c);
        }
        i = i + 1;
    }
    if cur.len() > 0 {
        let ghost old_out = char_vecs(out@);
        let ghost last = cur@;
        out.push(cur);
        assert(char_vecs(out@) =~= old_out.push(last));
        assert(old_out + seq![last] =~= old_out.push(last));
    } else {
        assert(char_vecs(out@) + seq![] =~= char_vecs(out@));
    }
    out
}


// ---------------------------------------------------------------------------
// Prefixes, occurrences, joining
// ---------------------------------------------------------------------------

/// `str::starts_with`.
pub fn starts_with(s: &[char], p: &[char]) -> (r: bool)
    ensures
        r == p@.is_prefix_of(s@),
{
    if p.len() > s.len() {
        return false;
    }
    let mut i: usize = 0;
    while i < p.len()
        invariant
            p@.len() <= s@.len(),
            i <= p@.len(),
            forall|j: int| 0 <= j < i ==> s@[j] == p@[j],
        decreases p.len() - i,
    {
        if s[i] != p[i] {
            assert(s@.subrange(0, p@.len() as int)[i as int] != p@[i as int]);
            return false;
        }
        i = i + 1;
    }
    assert(p@ =~= s@.subrange(0, p@.len() as int));
    true
}

/// `p` occurs in `s` starting at position `i`.
pub open spec fn occurs_at(s: Seq<char>, p: Seq<char>, i: int) -> bool {
    0 <= i && i + p.len() <= s.len() && s.subrange(i, i + p.len()) == p
}

/// `str::contains` with a string pattern.
pub open spec fn contains(s: Seq<char>, p: Seq<char>) -> bool {
    exists|i: int| #[trigger] occurs_at(s, p, i)
}

/// `str::contains`.
pub fn contains_at_any(s: &[char], p: &[char]) -> (r: bool)
    ensures
        r == contains(s@, p@),
{
    if p.len() > s.len() {
        assert forall|i: int| !#[trigger] occurs_at(s@, p@, i) by {}
        return false;
    }
    let last = s.len() - p.len();
    let mut i: usize = 0;
    loop
        invariant
            last + p@.len() == s@.len(),
            i <= last,
            forall|j: int| 0 <= j < i ==> !#[trigger] occurs_at(s@, p@, j),
        decreases last - i,
    {
        let tail = &s[i..s.len()];
        assert(s@.subrange(i as int, i + p@.len()) =~= tail@.subrange(0, p@.len() as int));
        if starts_with(tail, p) {
            assert(occurs_at(s@, p@, i as int));
            return true;
        }
        if i == last {
            assert forall|j: int| !#[trigger] occurs_at(s@, p@, j) by {
                if 0 <= j < i {
                }
            }
            return false;
        }
        i = i + 1;
    }
}

/// `str::trim_start_matches` with a string pattern: strip `p` from the front
/// as many times as it occurs there.
pub open spec fn strip_prefixes(s: Seq<char>, p: Seq<char>) -> Seq<char>
    decreases s.len(),
{
    if p.len() > 0 && p.is_prefix_of(s) {
        strip_prefixes(s.skip(p.len() as int), p)
    } else {
        s
    }
}

/// What `strip_prefixes` leaves is a suffix of the text.
pub proof fn lemma_strip_prefixes_suffix(s: Seq<char>, p: Seq<char>) -> (k: int)
    ensures
        0 <= k <= s.len(),
        strip_prefixes(s, p) == s.skip(k),
    decreases s.len(),
{
    if p.len() > 0 && p.is_prefix_of(s) {
        let t = s.skip(p.len() as int);
        let j = lemma_strip_prefixes_suffix(t, p);
        assert(t.skip(j) =~= s.skip(p.len() + j));
        p.len() + j
    } else {
        assert(s.skip(0) =~= s);
        0
    }
}

/// What occurs in a suffix of a text occurs in the text.
pub proof fn lemma_contains_skip(s: Seq<char>, k: int, p: Seq<char>)
    requires
        0 <= k <= s.len(),
        contains(s.skip(k), p),
    ensures
        contains(s, p),
{
    assert(s =~= s.take(k) + s.skip(k) + seq![]);
    lemma_contains_extend(s.take(k), s.skip(k), seq![], p);
}

/// The position where `strip_prefixes` leaves `s`.
pub fn strip_prefixes_at(s: &[char], p: &[char]) -> (r: usize)
    ensures
        r <= s@.len(),
        strip_prefixes(s@, p@) == s@.skip(r as int),
{
    let mut i: usize = 0;
    assert(s@.skip(0) =~= s@);
    if p.len() == 0 {
        return 0;
    }
    while i <= s.len()
        invariant
            p@.len() > 0,
            i <= s@.len(),
            strip_prefixes(s@, p@) == strip_prefixes(s@.skip(i as int), p@),
        decreases s.len() - i,
    {
        let tail = &s[i..s.len()];
        assert(tail@ =~= s@.skip(i as int));
        if starts_with(tail, p) {
            assert(s@.skip(i as int).skip(p@.len() as int) =~= s@.skip(i + p@.len()));
            i = i + p.len();
        } else {
            return i;
        }
    }
    i
}

/// `[&str]::join("\n")`.
pub open spec fn join_lines(ls: Seq<Seq<char>>) -> Seq<char>
    decreases ls.len(),
{
    if ls.len() == 0 {
        seq![]
    } else if ls.len() == 1 {
        ls[0]
    } else {
        join_lines(ls.drop_last()) + seq!['\n'] + ls.last()
    }
}

/// What occurs in a text occurs in any text that extends it on either side.
pub proof fn lemma_contains_extend(a: Seq<char>, b: Seq<char>, c: Seq<char>, p: Seq<char>)
    requires
        contains(b, p),
    ensures
        contains(a + b + c, p),
{
    let k = choose|k: int| #[trigger] occurs_at(b, p, k);
    let t = a + b + c;
    assert(t.subrange(a.len() + k, a.len() + k + p.len()) =~= b.subrange(k, k + p.len()));
    assert(occurs_at(t, p, a.len() + k));
}

/// What occurs in one line occurs in the lines joined.
pub proof fn lemma_join_lines_contains(ls: Seq<Seq<char>>, i: int, p: Seq<char>)
    requires
        0 <= i < ls.len(),
        contains(ls[i], p),
    ensures
        contains(join_lines(ls), p),
    decreases ls.len(),
{
    if ls.len() > 1 {
        let pre = join_lines(ls.drop_last());
        if i == ls.len() - 1 {
            lemma_contains_extend(pre + seq!['\n'], ls.last(), seq![], p);
            assert(pre + seq!['\n'] + ls.last() + seq![] =~= join_lines(ls));
        } else {
            lemma_join_lines_contains(ls.drop_last(), i, p);
            lemma_contains_extend(seq![], pre, seq!['\n'] + ls.last(), p);
            assert(seq![] + pre + (seq!['\n'] + ls.last()) =~= join_lines(ls));
        }
    }
}

/// Joins `ls[lo..hi]` with newlines.
pub fn join_line_range(ls: &Vec<Vec<char>>, lo: usize, hi: usize) -> (r: Vec<char>)
    requires
        lo <= hi <= ls@.len(),
    ensures
        r@ == join_lines(char_vecs(ls@).subrange(lo as int, hi as int)),
{
    let mut out: Vec<char> = Vec::new();
    let mut i: usize = lo;
    assert(char_vecs(ls@).subrange(lo as int, lo as int) =~= Seq::<Seq<char>>::empty());
    while i < hi
        invariant
            lo <= i <= hi <= ls@.len(),
            out@ == join_lines(char_vecs(ls@).subrange(lo as int, i as int)),
        decreases hi - i,
    {
        let ghost prev = char_vecs(ls@).subrange(lo as int, i as int);
        let ghost next = char_vecs(ls@).subrange(lo as int, i + 1);
        assert(next.drop_last() =~= prev);
        if i > lo {
            out.push('\n');
        }
        let line = &ls[i];
        let mut j: usize = 0;
        let ghost base = out@;
        while j < line.len()
            invariant
                j <= line@.len(),
                out@ == base + line@.take(j as int),
            decreases line.len() - j,
        {
            out.push(line[j]);
            j = j + 1;
            assert(line@.take(j as int) =~= line@.take(j - 1).push(line@[j - 1]));
            assert(out@ =~= base + line@.take(j as int));
        }
        assert(line@.take(line@.len() as int) =~= line@);
        if i == lo {
            assert(base =~= Seq::<char>::empty());
            assert(out@ =~= next[0]);
        }
        i = i + 1;
    }
    out
}

// ---------------------------------------------------------------------------
// Decimal numerals
// ---------------------------------------------------------------------------

pub open spec fn is_digit(c: char) -> bool {
    '0' <= c && c <= '9'
}

/// The decimal digit for `d < 10`.
pub open spec fn digit_char(d: nat) -> char {
    if d == 0 {
        '0'
    } else if d == 1 {
        '1'
    } else if d == 2 {
        '2'
    } else if d == 3 {
        '3'
    } else if d == 4 {
        '4'
    } else if d == 5 {
        '5'
    } else if d == 6 {
        '6'
    } else if d == 7 {
        '7'
    } else if d == 8 {
        '8'
    } else {
        '9'
    }
}

/// The value of a decimal digit.
pub open spec fn digit_value(c: char) -> nat {
    (c as int - '0' as int) as nat
}

/// The decimal numeral of `n`, without leading zeros (what `to_string` gives).
pub open spec fn decimal(n: nat) -> Seq<char>
    decreases n,
{
    if n < 10 {
        seq![digit_char(n)]
    } else {
        decimal(n / 10).push(digit_char(n % 10))
    }
}

/// The value of a string of decimal digits.
pub open spec fn numeral_value(s: Seq<char>) -> nat
    decreases s.len(),
{
    if s.len() == 0 {
        0
    } else {
        numeral_value(s.drop_last()) * 10 + digit_value(s.last())
    }
}

pub open spec fn all_digits(s: Seq<char>) -> bool {
    forall|i: int| 0 <= i < s.len() ==> is_digit(#[trigger] s[i])
}

/// `str::parse::<u32>`: an optional `+`, then one or more decimal digits whose
/// value fits in a `u32`.
pub open spec fn parse_u32(s: Seq<char>) -> Option<u32> {
    let d = if s.len() > 0 && s[0] == '+' {
        s.drop_first()
    } else {
        s
    };
    if d.len() > 0 && all_digits(d) && numeral_value(d) <= u32::MAX {
        Some(numeral_value(d) as u32)
    } else {
        None
    }
}

fn digit_of(d: u64) -> (c: char)
    requires
        d < 10,
    ensures
        c == digit_char(d as nat),
{
    if d == 0 {
        '0'
    } else if d == 1 {
        '1'
    } else if d == 2 {
        '2'
    } else if d == 3 {
        '3'
    } else if d == 4 {
        '4'
    } else if d == 5 {
        '5'
    } else if d == 6 {
        '6'
    } else if d == 7 {
        '7'
    } else if d == 8 {
        '8'
    } else {
        '9'
    }
}

/// Appends the decimal numeral of `n`.
pub fn push_decimal(out: &mut String, n: u64)
    ensures
        final(out)@ == old(out)@ + decimal(n as nat),
    decreases n,
{
    if n >= 10 {
        push_decimal(out, n / 10);
    }
    out.push(digit_of(n % 10));
    proof {
        if n < 10 {
            assert(old(out)@.push(digit_char(n as nat)) =~= old(out)@ + seq![digit_char(n as nat)]);
        } else {
            assert((old(out)@ + decimal((n / 10) as nat)).push(digit_char((n % 10) as nat))
                =~= old(out)@ + decimal((n / 10) as nat).push(digit_char((n % 10) as nat)));
        }
    }
}

/// The value of `s[0..j]` never exceeds that of `s`, for a string of digits.
pub proof fn lemma_numeral_prefix(s: Seq<char>, j: int)
    requires
        0 <= j <= s.len(),
    ensures
        numeral_value(s.take(j)) <= numeral_value(s),
    decreases s.len() - j,
{
    if j < s.len() {
        lemma_numeral_prefix(s.drop_last(), j);
        assert(s.drop_last().take(j) =~= s.take(j));
    } else {
        assert(s.take(j) =~= s);
    }
}

proof fn lemma_digit_char(d: nat)
    requires
        d < 10,
    ensures
        is_digit(digit_char(d)),
        digit_value(digit_char(d)) == d,
{
}

proof fn lemma_decimal_digits(n: nat)
    ensures
        decimal(n).len() > 0,
        all_digits(decimal(n)),
        numeral_value(decimal(n)) == n,
    decreases n,
{
    let d = decimal(n);
    if n < 10 {
        lemma_digit_char(n);
        assert(d.drop_last() =~= Seq::<char>::empty());
        assert(numeral_value(d) == numeral_value(d.drop_last()) * 10 + digit_value(d.last()));
        assert(numeral_value(Seq::<char>::empty()) == 0);
    } else {
        lemma_decimal_digits(n / 10);
        lemma_digit_char(n % 10);
        let s = decimal(n / 10);
        assert(d.drop_last() =~= s);
        assert(d.last() == digit_char(n % 10));
        assert(numeral_value(d) == numeral_value(s) * 10 + digit_value(d.last()));
        assert(n == (n / 10) * 10 + n % 10) by (nonlinear_arith);
        assert forall|i: int| 0 <= i < d.len() implies is_digit(#[trigger] d[i]) by {
            if i < s.len() {
                assert(d[i] == s[i]);
            }
        }
    }
}

/// A number's decimal numeral reads back as the number: what `to_string`
/// gives, `parse` takes back.
pub proof fn law_decimal_parses_back(n: u32)
    ensures
        parse_u32(decimal(n as nat)) == Some(n),
{
    lemma_decimal_digits(n as nat);
    assert(is_digit(decimal(n as nat)[0]));
}

/// `str::parse::<u32>` on a character slice.
pub fn parse_u32_chars(s: &[char]) -> (r: Option<u32>)
    ensures
        r == parse_u32(s@),
{
    let mut start: usize = 0;
    if s.len() > 0 && s[0] == '+' {
        start = 1;
    }
    let ghost d = if s@.len() > 0 && s@[0] == '+' {
        s@.drop_first()
    } else {
        s@
    };
    assert(d =~= s@.skip(start as int));
    if start == s.len() {
        return None;
    }
    let mut val: u64 = 0;
    let mut i: usize = start;
    assert(d.take(0) =~= Seq::<char>::empty());
    while i < s.len()
        invariant
            start <= i <= s@.len(),
            d == s@.skip(start as int),
            d == (if s@.len() > 0 && s@[0] == '+' {
                s@.drop_first()
            } else {
                s@
            }),
            all_digits(d.take(i - start)),
            val == numeral_value(d.take(i - start)),
            val <= u32::MAX,
        decreases s.len() - i,
    {
        let c = s[i];
        if !('0' <= c && c <= '9') {
            assert(!is_digit(d[i - start]));
            assert(!all_digits(d));
            return None;
        }
        let dv: u64 = (c as u64) - ('0' as u64);
        let ghost k = i - start;
        assert(d.take(k + 1).drop_last() =~= d.take(k));
        assert(numeral_value(d.take(k + 1)) == numeral_value(d.take(k)) * 10 + digit_value(c));
        val = val * 10 + dv;
        i = i + 1;
        assert(val == numeral_value(d.take(k + 1)));
        if val > 0xffff_ffff {
            proof {
                lemma_numeral_prefix(d, k + 1);
            }
            assert(numeral_value(d) > u32::MAX);
            return None;
        }
    }
    assert(d.take(d.len() as int) =~= d);
    Some(val as u32)
}

// ---------------------------------------------------------------------------
// Lexicographic order of texts (the order of `String`)
// ---------------------------------------------------------------------------

/// `a < b` in the lexicographic order of code points, which is `String`'s order.
pub open spec fn text_lt(a: Seq<char>, b: Seq<char>) -> bool
    decreases a.len(),
{
    if b.len() == 0 {
        false
    } else if a.len() == 0 {
        true
    } else if a[0] != b[0] {
        a[0] < b[0]
    } else {
        text_lt(a.drop_first(), b.drop_first())
    }
}

pub proof fn lemma_text_lt_irreflexive(a: Seq<char>)
    ensures
        !text_lt(a, a),
    decreases a.len(),
{
    if a.len() > 0 {
        lemma_text_lt_irreflexive(a.drop_first());
    }
}

pub proof fn lemma_text_lt_transitive(a: Seq<char>, b: Seq<char>, c: Seq<char>)
    requires
        text_lt(a, b),
        text_lt(b, c),
    ensures
        text_lt(a, c),
    decreases a.len(),
{
    if a.len() > 0 && b.len() > 0 && c.len() > 0 && a[0] == b[0] && b[0] == c[0] {
        lemma_text_lt_transitive(a.drop_first(), b.drop_first(), c.drop_first());
    }
}

pub proof fn lemma_text_lt_total(a: Seq<char>, b: Seq<char>)
    requires
        a != b,
    ensures
        text_lt(a, b) || text_lt(b, a),
    decreases a.len(),
{
    if a.len() > 0 && b.len() > 0 && a[0] == b[0] {
        if a.drop_first() == b.drop_first() {
            assert(a =~= seq![a[0]] + a.drop_first());
            assert(b =~= seq![b[0]] + b.drop_first());
        }
        lemma_text_lt_total(a.drop_first(), b.drop_first());
    } else if a.len() == 0 && b.len() == 0 {
        assert(a =~= b);
    }
}

/// `a < b` for texts.
pub fn text_less(a: &[char], b: &[char]) -> (r: bool)
    ensures
        r == text_lt(a@, b@),
{
    let mut i: usize = 0;
    assert(a@.skip(0) =~= a@);
    assert(b@.skip(0) =~= b@);
    while i < a.len() && i < b.len() && a[i] == b[i]
        invariant
            i <= a@.len(),
            i <= b@.len(),
            text_lt(a@, b@) == text_lt(a@.skip(i as int), b@.skip(i as int)),
        decreases a.len() - i,
    {
        assert(a@.skip(i as int).drop_first() =~= a@.skip(i + 1));
        assert(b@.skip(i as int).drop_first() =~= b@.skip(i + 1));
        i = i + 1;
    }
    let ghost sa = a@.skip(i as int);
    let ghost sb = b@.skip(i as int);
    if i < b.len() {
        if i == a.len() {
            true
        } else {
            assert(sa[0] == a@[i as int] && sb[0] == b@[i as int]);
            a[i] < b[i]
        }
    } else {
        false
    }
}

/// Equality of texts.
pub fn text_eq(a: &[char], b: &[char]) -> (r: bool)
    ensures
        r == (a@ == b@),
{
    if a.len() != b.len() {
        return false;
    }
    let mut i: usize = 0;
    while i < a.len()
        invariant
            a@.len() == b@.len(),
            i <= a@.len(),
            forall|j: int| 0 <= j < i ==> a@[j] == b@[j],
        decreases a.len() - i,
    {
        if a[i] != b[i] {
            return false;
        }
        i = i + 1;
    }
    assert(a@ =~= b@);
    true
}


/// The text order, as a relation.
pub open spec fn text_order() -> spec_fn(Seq<char>, Seq<char>) -> bool {
    |a: Seq<char>, b: Seq<char>| text_lt(a, b)
}

pub proof fn lemma_text_order_strict_total()
    ensures
        strict_total(text_order()),
{
    assert forall|a: Seq<char>| !#[trigger] text_order()(a, a) by {
        lemma_text_lt_irreflexive(a);
    }
    assert forall|a: Seq<char>, b: Seq<char>, c: Seq<char>|
        #[trigger] text_order()(a, b) && #[trigger] text_order()(b, c) implies text_order()(a, c) by {
        lemma_text_lt_transitive(a, b, c);
    }
    assert forall|a: Seq<char>, b: Seq<char>|
        #![trigger text_order()(a, b)]
        #![trigger text_order()(b, a)]
        a != b implies text_order()(a, b) || text_order()(b, a) by {
        lemma_text_lt_total(a, b);
    }
}

/// An owned copy of a string slice.
pub fn owned(s: &str) -> (r: String)
    ensures
        r@ == s@,
{
    s.to_owned()
}

/// Strings holding the given character vectors.
pub fn strings_of(v: &Vec<Vec<char>>) -> (r: Vec<String>)
    ensures
        strs(r@) == char_vecs(v@),
{
    let mut r: Vec<String> = Vec::new();
    let mut i: usize = 0;
    while i < v.len()
        invariant
            i <= v@.len(),
            strs(r@) == char_vecs(v@).take(i as int),
        decreases v.len() - i,
    {
        let ghost before = r@;
        r.push(string_of(v[i].as_slice()));
        assert(strs(r@) =~= strs(before).push(v@[i as int]@));
        i = i + 1;
        assert(char_vecs(v@).take(i as int) =~= char_vecs(v@).take(i - 1).push(v@[i - 1]@));
    }
    assert(char_vecs(v@).take(v@.len() as int) =~= char_vecs(v@));
    r
}


// ---------------------------------------------------------------------------
// Case mapping (Unicode tables of std)
// ---------------------------------------------------------------------------

/// What `str::to_lowercase` gives for a text: the lowercase mapping of the
/// Unicode tables of std.
pub uninterp spec fn lowercase(s: Seq<char>) -> Seq<char>;

/// What `char::to_uppercase` yields for a character: its uppercase mapping,
/// one or more characters.
pub uninterp spec fn uppercase(c: char) -> Seq<char>;

/// `str::to_lowercase`. Trusted: the result is `lowercase` of the argument, a
/// function of the text alone; nothing is claimed of what the mapping is.
#[verifier::external_body]
pub(crate) fn to_lowercase(s: &str) -> (r: String)
    ensures
        r@ == lowercase(s@),
{
    s.to_lowercase()
}

/// `char::to_uppercase`, collected into a string. Trusted: the result is
/// `uppercase` of the character; nothing is claimed of what the mapping is.
#[verifier::external_body]
pub(crate) fn to_uppercase(c: char) -> (r: String)
    ensures
        r@ == uppercase(c),
{
    c.to_uppercase().collect()
}


/// Appends characters to a vector.
pub fn extend_chars(v: &mut Vec<char>, s: &[char])
    ensures
        final(v)@ == old(v)@ + s@,
{
    let mut i: usize = 0;
    while i < s.len()
        invariant
            i <= s@.len(),
            v@ == old(v)@ + s@.take(i as int),
        decreases s.len() - i,
    {
        v.push(s[i]);
        i = i + 1;
        assert(v@ =~= old(v)@ + s@.take(i as int));
    }
    assert(s@.take(s@.len() as int) =~= s@);
}

} // verus!
