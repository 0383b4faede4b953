use vstd::prelude::*;
use crate::sorting::{
    distinct_sorted, key_class, lemma_distinct_sorted, lemma_sorted_insert,
    lemma_strictly_sorted_unique, lemma_sorted_tail_above, lemma_stable_insert, same_classes,
    sorted_by_key, stable_sort_of, strictly_sorted,
};
use crate::text::{
    lemma_text_lt_total, lemma_text_order_strict_total, owned, strings_of, strs, text_eq,
    text_less, text_lt, text_order, occurs_at,
    char_vecs, chars_of, contains, contains_at_any, join_line_range, join_lines, lines,
    split_lines, starts_with, string_of, strip_prefixes, strip_prefixes_at, trim, trim_bounds,
};

verus! {

broadcast use vstd::seq_lib::group_seq_properties;

// ---------------------------------------------------------------------------
// Headings
// ---------------------------------------------------------------------------

/// `"# "`
pub open spec fn h1() -> Seq<char> {
    seq!['#', ' ']
}

/// `"## "`
pub open spec fn h2() -> Seq<char> {
    seq!['#', '#', ' ']
}

/// `"### "`
pub open spec fn h3() -> Seq<char> {
    seq!['#', '#', '#', ' ']
}

/// A `# Title` line: trimmed, it starts with `"# "` but not with `"## "`.
pub open spec fn is_title_line(l: Seq<char>) -> bool {
    h1().is_prefix_of(trim(l)) && !h2().is_prefix_of(trim(l))
}

/// The title a title line gives: trimmed, with every leading `"# "` removed.
pub open spec fn title_of_line(l: Seq<char>) -> Seq<char> {
    strip_prefixes(trim(l), h1())
}

/// The title given by the first title line.
pub open spec fn first_title(ls: Seq<Seq<char>>) -> Option<Seq<char>>
    decreases ls.len(),
{
    if ls.len() == 0 {
        None
    } else if is_title_line(ls[0]) {
        Some(title_of_line(ls[0]))
    } else {
        first_title(ls.drop_first())
    }
}

/// The title of a node: that of its first `# ` line, if any.
pub open spec fn title_of(content: Seq<char>) -> Option<Seq<char>> {
    first_title(lines(content))
}

/// A section heading: trimmed, it starts with `"## "` but not with `"### "`.
pub open spec fn is_heading(l: Seq<char>) -> bool {
    h2().is_prefix_of(trim(l)) && !h3().is_prefix_of(trim(l))
}

/// A section heading whose text (after the leading `"## "`s) mentions `name`,
/// as `## [Ontology](./ontology.md)` or `## Ontology` mention `Ontology`.
pub open spec fn heading_names(l: Seq<char>, name: Seq<char>) -> bool {
    is_heading(l) && contains(strip_prefixes(trim(l), h2()), name)
}

pub open spec fn names_heading(name: Seq<char>) -> spec_fn(Seq<char>) -> bool {
    |l: Seq<char>| heading_names(l, name)
}

pub open spec fn other_heading(name: Seq<char>) -> spec_fn(Seq<char>) -> bool {
    |l: Seq<char>| is_heading(l) && !heading_names(l, name)
}

/// The first index at or after `i` whose line satisfies `p`, or the length.
pub open spec fn first_index_from(ls: Seq<Seq<char>>, p: spec_fn(Seq<char>) -> bool, i: int) -> int
    decreases ls.len() - i,
{
    if i >= ls.len() {
        ls.len() as int
    } else if p(ls[i]) {
        i
    } else {
        first_index_from(ls, p, i + 1)
    }
}

/// The last index below `i` whose line satisfies `p`, or -1.
pub open spec fn last_index_below(ls: Seq<Seq<char>>, p: spec_fn(Seq<char>) -> bool, i: int) -> int
    decreases i,
{
    if i <= 0 {
        -1
    } else if p(ls[i - 1]) {
        i - 1
    } else {
        last_index_below(ls, p, i - 1)
    }
}

/// Where the lines of a section lie, if some heading names it: from the line
/// after the last heading that names it up to the next other heading (or the
/// end).
pub open spec fn section_bounds(ls: Seq<Seq<char>>, name: Seq<char>) -> Option<(int, int)> {
    let first = first_index_from(ls, names_heading(name), 0);
    let start = last_index_below(ls, names_heading(name), ls.len() as int) + 1;
    if first == ls.len() {
        None
    } else {
        Some((start, first_index_from(ls, other_heading(name), start)))
    }
}

/// The text of a section: its lines joined and trimmed, unless that is empty.
pub open spec fn section_of(content: Seq<char>, name: Seq<char>) -> Option<Seq<char>> {
    let ls = lines(content);
    match section_bounds(ls, name) {
        Some((s, e)) => {
            let t = trim(join_lines(ls.subrange(s, e)));
            if t.len() == 0 {
                None
            } else {
                Some(t)
            }
        },
        None => None,
    }
}

pub proof fn lemma_first_index_from_bounds(ls: Seq<Seq<char>>, p: spec_fn(Seq<char>) -> bool, i: int)
    requires
        0 <= i,
    ensures
        i <= first_index_from(ls, p, i) <= ls.len() || (i > ls.len() && first_index_from(ls, p, i) == ls.len()),
        first_index_from(ls, p, i) < ls.len() ==> p(ls[first_index_from(ls, p, i)]),
        forall|j: int| i <= j < first_index_from(ls, p, i) ==> !p(#[trigger] ls[j]),
    decreases ls.len() - i,
{
    if i < ls.len() && !p(ls[i]) {
        lemma_first_index_from_bounds(ls, p, i + 1);
    }
}

/// The first index from `i` whose line satisfies `p` is `m`, when `ls[m]`
/// does and no line between does.
pub proof fn lemma_first_index_at(ls: Seq<Seq<char>>, p: spec_fn(Seq<char>) -> bool, i: int, m: int)
    requires
        0 <= i <= m < ls.len(),
        p(ls[m]),
        forall|j: int| i <= j < m ==> !p(#[trigger] ls[j]),
    ensures
        first_index_from(ls, p, i) == m,
    decreases m - i,
{
    if i < m {
        lemma_first_index_at(ls, p, i + 1, m);
    }
}

/// The last index below `i` whose line satisfies `p` is `m`, when `ls[m]`
/// does and no line between does.
pub proof fn lemma_last_index_at(ls: Seq<Seq<char>>, p: spec_fn(Seq<char>) -> bool, i: int, m: int)
    requires
        0 <= m < i <= ls.len(),
        p(ls[m]),
        forall|j: int| m < j < i ==> !p(#[trigger] ls[j]),
    ensures
        last_index_below(ls, p, i) == m,
    decreases i - m,
{
    if i - 1 > m {
        lemma_last_index_at(ls, p, i - 1, m);
    }
}

pub proof fn lemma_last_index_below_bounds(ls: Seq<Seq<char>>, p: spec_fn(Seq<char>) -> bool, i: int)
    requires
        0 <= i <= ls.len(),
    ensures
        -1 <= last_index_below(ls, p, i) < i,
        last_index_below(ls, p, i) >= 0 ==> p(ls[last_index_below(ls, p, i)]),
        forall|j: int| last_index_below(ls, p, i) < j < i ==> !p(#[trigger] ls[j]),
    decreases i,
{
    if i > 0 && !p(ls[i - 1]) {
        lemma_last_index_below_bounds(ls, p, i - 1);
    }
}

// ---------------------------------------------------------------------------
// Line tests
// ---------------------------------------------------------------------------

fn trimmed(l: &[char]) -> (t: &[char])
    ensures
        t@ == trim(l@),
{
    let (lo, hi) = trim_bounds(l);
    &l[lo..hi]
}

/// Whether a line is a `# Title` line.
pub fn title_line(l: &[char]) -> (r: bool)
    ensures
        r == is_title_line(l@),
{
    let t = trimmed(l);
    starts_with(t, &['#', ' ']) && !starts_with(t, &['#', '#', ' '])
}

/// Whether a line is a `## ` section heading.
pub fn heading_line(l: &[char]) -> (r: bool)
    ensures
        r == is_heading(l@),
{
    let t = trimmed(l);
    starts_with(t, &['#', '#', ' ']) && !starts_with(t, &['#', '#', '#', ' '])
}

/// Whether a line is a section heading that names `name`.
pub fn heading_names_line(l: &[char], name: &[char]) -> (r: bool)
    ensures
        r == heading_names(l@, name@),
{
    if !heading_line(l) {
        return false;
    }
    let t = trimmed(l);
    let k = strip_prefixes_at(t, &['#', '#', ' ']);
    contains_at_any(&t[k..t.len()], name)
}

/// The title carried by a title line.
fn line_title(l: &[char]) -> (r: String)
    ensures
        r@ == title_of_line(l@),
{
    let t = trimmed(l);
    let k = strip_prefixes_at(t, &['#', ' ']);
    string_of(&t[k..t.len()])
}

// ---------------------------------------------------------------------------
// Titles and sections
// ---------------------------------------------------------------------------

/// The title of the first `# Title` line among `ls`.
pub fn title_in_lines(ls: &Vec<Vec<char>>) -> (r: Option<String>)
    ensures
        opt_str(r) == first_title(char_vecs(ls@)),
{
    let ghost all = char_vecs(ls@);
    let mut i: usize = 0;
    assert(all.skip(0) =~= all);
    while i < ls.len()
        invariant
            all == char_vecs(ls@),
            i <= ls@.len(),
            first_title(all) == first_title(all.skip(i as int)),
        decreases ls.len() - i,
    {
        assert(all.skip(i as int).drop_first() =~= all.skip(i + 1));
        assert(all.skip(i as int)[0] == ls@[i as int]@);
        if title_line(ls[i].as_slice()) {
            return Some(line_title(ls[i].as_slice()));
        }
        i = i + 1;
    }
    None
}

/// The view of an optional string.
pub open spec fn opt_str(o: Option<String>) -> Option<Seq<char>> {
    match o {
        Some(s) => Some(s@),
        None => None,
    }
}

/// Extract the title from the first `# Title` line.
pub fn extract_title(content: &str) -> (r: Option<String>)
    ensures
        opt_str(r) == title_of(content@),
{
    let cs = chars_of(content);
    let ls = split_lines(cs.as_slice());
    title_in_lines(&ls)
}

/// The bounds of section `name` among `ls`.
fn find_section_bounds(ls: &Vec<Vec<char>>, name: &[char]) -> (r: Option<(usize, usize)>)
    ensures
        r.is_some() == section_bounds(char_vecs(ls@), name@).is_some(),
        r matches Some((s, e)) ==> section_bounds(char_vecs(ls@), name@) == Some((s as int, e as int))
            && s <= e <= ls@.len(),
{
    let ghost all = char_vecs(ls@);
    let ghost m = names_heading(name@);
    let ghost o = other_heading(name@);
    let n = ls.len();
    // first heading naming the section
    let mut first: usize = 0;
    while first < n && !heading_names_line(ls[first].as_slice(), name)
        invariant
            n == ls@.len(),
            all == char_vecs(ls@),
            m == names_heading(name@),
            first <= n,
            first_index_from(all, m, 0) == first_index_from(all, m, first as int),
        decreases n - first,
    {
        assert(all[first as int] == ls@[first as int]@);
        first = first + 1;
    }
    if first == n {
        return None;
    }
    assert(all[first as int] == ls@[first as int]@);
    // last heading naming the section
    let mut last: usize = n;
    loop
        invariant
            n == ls@.len(),
            all == char_vecs(ls@),
            m == names_heading(name@),
            first < last <= n,
            m(all[first as int]),
            last_index_below(all, m, n as int) == last_index_below(all, m, last as int),
        ensures
            first < last <= n,
            last_index_below(all, m, n as int) == last - 1,
        decreases last,
    {
        assert(all[last - 1] == ls@[last - 1]@);
        if heading_names_line(ls[last - 1].as_slice(), name) {
            break;
        }
        last = last - 1;
    }
    // the next other heading
    let mut end: usize = last;
    while end < n && !(heading_line(ls[end].as_slice()) && !heading_names_line(
        ls[end].as_slice(),
        name,
    ))
        invariant
            n == ls@.len(),
            all == char_vecs(ls@),
            o == other_heading(name@),
            last <= end <= n,
            first_index_from(all, o, last as int) == first_index_from(all, o, end as int),
        decreases n - end,
    {
        assert(all[end as int] == ls@[end as int]@);
        end = end + 1;
    }
    if end < n {
        assert(all[end as int] == ls@[end as int]@);
    }
    assert(first_index_from(all, m, 0) == first as int);
    assert(last_index_below(all, m, n as int) == last - 1);
    assert(first_index_from(all, o, last as int) == end as int);
    assert(section_bounds(all, name@) == Some((last as int, end as int)));
    Some((last, end))
}

/// Extract the text of section `name` (up to the next other `## ` heading).
pub fn section_in_lines(ls: &Vec<Vec<char>>, name: &[char]) -> (r: Option<String>)
    ensures
        opt_str(r) == (match section_bounds(char_vecs(ls@), name@) {
            Some((s, e)) => {
                let t = trim(join_lines(char_vecs(ls@).subrange(s, e)));
                if t.len() == 0 {
                    None
                } else {
                    Some(t)
                }
            },
            None => None,
        }),
{
    match find_section_bounds(ls, name) {
        None => None,
        Some((s, e)) => {
            let joined = join_line_range(ls, s, e);
            let t = trimmed(joined.as_slice());
            if t.len() == 0 {
                None
            } else {
                Some(string_of(t))
            }
        },
    }
}

/// Extract the content under a `## [Section]` or `## Section` heading, up to
/// the next `## ` heading.
pub fn extract_section(content: &str, section_name: &str) -> (r: Option<String>)
    ensures
        opt_str(r) == section_of(content@, section_name@),
{
    let cs = chars_of(content);
    let ls = split_lines(cs.as_slice());
    let name = chars_of(section_name);
    section_in_lines(&ls, name.as_slice())
}

// ---------------------------------------------------------------------------
// Nodes
// ---------------------------------------------------------------------------

/// A parsed ontology node from a markdown file.
pub struct Node {
    pub title: String,
    pub ontology: Option<String>,
    pub axiology: Option<String>,
    pub ethics: Option<String>,
    pub epistemology: Option<String>,
    /// Raw full content
    pub raw: String,
}

impl Node {
    /// Parse a markdown file into a Node.
    pub fn parse(content: &str) -> (r: Result<Node, String>)
        ensures
            match title_of(content@) {
                None => r matches Err(e) && e@ == "No title (# heading) found"@,
                Some(t) => r matches Ok(n) && {
                    &&& n.title@ == t
                    &&& opt_str(n.ontology) == section_of(content@, "Ontology"@)
                    &&& opt_str(n.axiology) == section_of(content@, "Axiology"@)
                    &&& opt_str(n.ethics) == section_of(content@, "Ethics"@)
                    &&& opt_str(n.epistemology) == section_of(content@, "Epistemology"@)
                    &&& n.raw@ == content@
                },
            },
    {
        let cs = chars_of(content);
        let ls = split_lines(cs.as_slice());
        let title = match title_in_lines(&ls) {
            Some(t) => t,
            None => {
                return Err(owned("No title (# heading) found"));
            },
        };
        let n_ont = chars_of("Ontology");
        let n_axi = chars_of("Axiology");
        let n_eth = chars_of("Ethics");
        let n_epi = chars_of("Epistemology");
        let ontology = section_in_lines(&ls, n_ont.as_slice());
        let axiology = section_in_lines(&ls, n_axi.as_slice());
        let ethics = section_in_lines(&ls, n_eth.as_slice());
        let epistemology = section_in_lines(&ls, n_epi.as_slice());
        Ok(Node { title, ontology, axiology, ethics, epistemology, raw: owned(content) })
    }
}

// ---------------------------------------------------------------------------
// Links
// ---------------------------------------------------------------------------

/// A character that may stand in a term's file name: `[a-z0-9_-]`.
pub open spec fn is_name_char(c: char) -> bool {
    ('a' <= c && c <= 'z') || ('0' <= c && c <= '9') || c == '_' || c == '-'
}

/// The first index at or after `i` holding `ch`, or the length.
pub open spec fn first_char_from(s: Seq<char>, ch: char, i: int) -> int
    decreases s.len() - i,
{
    if i >= s.len() {
        s.len() as int
    } else if s[i] == ch {
        i
    } else {
        first_char_from(s, ch, i + 1)
    }
}

/// The end of the run of name characters starting at `i`.
pub open spec fn name_run_end(s: Seq<char>, i: int) -> int
    decreases s.len() - i,
{
    if i >= s.len() {
        s.len() as int
    } else if is_name_char(s[i]) {
        name_run_end(s, i + 1)
    } else {
        i
    }
}

/// `"](./"`
pub open spec fn link_middle() -> Seq<char> {
    seq![']', '(', '.', '/']
}

/// `".md)"`
pub open spec fn link_end() -> Seq<char> {
    seq!['.', 'm', 'd', ')']
}

/// A link `[text](./term.md)` that starts at `i`: the text is one or more
/// characters other than `]`, the term one or more name characters. Gives
/// where the link ends and the term.
pub open spec fn link_at(s: Seq<char>, i: int) -> Option<(int, Seq<char>)> {
    if 0 <= i < s.len() && s[i] == '[' {
        let c = first_char_from(s, ']', i + 1);
        let k = c + 4;
        if c > i + 1 && occurs_at(s, link_middle(), c) {
            let e = name_run_end(s, k);
            if e > k && occurs_at(s, link_end(), e) {
                Some((e + 4, s.subrange(k, e)))
            } else {
                None
            }
        } else {
            None
        }
    } else {
        None
    }
}

pub proof fn lemma_first_char_from_bounds(s: Seq<char>, ch: char, i: int)
    requires
        0 <= i <= s.len(),
    ensures
        i <= first_char_from(s, ch, i) <= s.len(),
        first_char_from(s, ch, i) < s.len() ==> s[first_char_from(s, ch, i)] == ch,
        forall|j: int| i <= j < first_char_from(s, ch, i) ==> #[trigger] s[j] != ch,
    decreases s.len() - i,
{
    if i < s.len() && s[i] != ch {
        lemma_first_char_from_bounds(s, ch, i + 1);
    }
}

pub proof fn lemma_name_run_end_bounds(s: Seq<char>, i: int)
    requires
        0 <= i <= s.len(),
    ensures
        i <= name_run_end(s, i) <= s.len(),
        name_run_end(s, i) < s.len() ==> !is_name_char(s[name_run_end(s, i)]),
        forall|j: int| i <= j < name_run_end(s, i) ==> is_name_char(#[trigger] s[j]),
    decreases s.len() - i,
{
    if i < s.len() && is_name_char(s[i]) {
        lemma_name_run_end_bounds(s, i + 1);
    }
}

pub proof fn lemma_link_at_end(s: Seq<char>, i: int)
    ensures
        link_at(s, i) matches Some((e, t)) ==> i < e <= s.len() && t.len() > 0,
{
    if 0 <= i < s.len() && s[i] == '[' {
        lemma_first_char_from_bounds(s, ']', i + 1);
        let c = first_char_from(s, ']', i + 1);
        if c > i + 1 && occurs_at(s, link_middle(), c) {
            lemma_name_run_end_bounds(s, c + 4);
        }
    }
}

/// The terms of the links found scanning from `i`: at each position, a link
/// that starts there is taken and the scan goes on after it.
pub open spec fn links_from(s: Seq<char>, i: int) -> Seq<Seq<char>>
    decreases s.len() - i,
{
    if i < 0 || i >= s.len() {
        seq![]
    } else {
        match link_at(s, i) {
            Some((e, t)) => {
                proof {
                    lemma_link_at_end(s, i);
                }
                seq![t] + links_from(s, e)
            },
            None => links_from(s, i + 1),
        }
    }
}

/// The terms linked as `[text](./term.md)` in `s`, in order.
pub open spec fn links(s: Seq<char>) -> Seq<Seq<char>> {
    links_from(s, 0)
}

proof fn lemma_links_from_names(s: Seq<char>, i: int)
    ensures
        forall|l: Seq<char>| #[trigger] links_from(s, i).contains(l) ==> l.len() > 0 && forall|j: int|
            0 <= j < l.len() ==> is_name_char(#[trigger] l[j]),
    decreases s.len() - i,
{
    if 0 <= i < s.len() {
        match link_at(s, i) {
            Some((e, t)) => {
                lemma_link_at_end(s, i);
                lemma_links_from_names(s, e);
                let c = first_char_from(s, ']', i + 1);
                let k = c + 4;
                lemma_first_char_from_bounds(s, ']', i + 1);
                lemma_name_run_end_bounds(s, k);
                let rest = links_from(s, e);
                assert forall|l: Seq<char>| #[trigger] links_from(s, i).contains(l) implies l.len() > 0
                    && forall|j: int| 0 <= j < l.len() ==> is_name_char(#[trigger] l[j]) by {
                    let m = choose|m: int| 0 <= m < links_from(s, i).len() && links_from(s, i)[m] == l;
                    if m > 0 {
                        assert(rest[m - 1] == l);
                        assert(rest.contains(l));
                    } else {
                        assert(l == t);
                        assert forall|j: int| 0 <= j < l.len() implies is_name_char(#[trigger] l[j]) by {
                            assert(l[j] == s[k + j]);
                        }
                    }
                }
            },
            None => {
                lemma_links_from_names(s, i + 1);
                assert(links_from(s, i) == links_from(s, i + 1));
            },
        }
    }
}

/// Every linked term is a file name: one or more of `a-z`, `0-9`, `_`, `-`.
pub proof fn law_link_terms_are_names(s: Seq<char>)
    ensures
        forall|l: Seq<char>| #[trigger] links(s).contains(l) ==> l.len() > 0 && forall|j: int|
            0 <= j < l.len() ==> is_name_char(#[trigger] l[j]),
{
    lemma_links_from_names(s, 0);
}

/// No `[` between `i` and `j`: scanning from `i` finds what scanning from `j` finds.
pub proof fn lemma_links_skip(s: Seq<char>, i: int, j: int)
    requires
        0 <= i <= j <= s.len(),
        forall|k: int| i <= k < j ==> #[trigger] s[k] != '[',
    ensures
        links_from(s, i) == links_from(s, j),
    decreases j - i,
{
    if i < j {
        assert(link_at(s, i).is_none());
        lemma_links_skip(s, i + 1, j);
    }
}

proof fn lemma_first_char_at(s: Seq<char>, ch: char, i: int, m: int)
    requires
        0 <= i <= m < s.len(),
        s[m] == ch,
        forall|j: int| i <= j < m ==> #[trigger] s[j] != ch,
    ensures
        first_char_from(s, ch, i) == m,
    decreases m - i,
{
    if i < m {
        lemma_first_char_at(s, ch, i + 1, m);
    }
}

proof fn lemma_name_run_at(s: Seq<char>, k: int, m: int)
    requires
        0 <= k <= m < s.len(),
        !is_name_char(s[m]),
        forall|j: int| k <= j < m ==> is_name_char(#[trigger] s[j]),
    ensures
        name_run_end(s, k) == m,
    decreases m - k,
{
    if k < m {
        lemma_name_run_at(s, k + 1, m);
    }
}

/// The link of a heading `## [Name](./term.md)` that stands at `p`: scanning
/// from its `[` finds `term` and goes on after the heading.
pub proof fn lemma_heading_link(s: Seq<char>, p: int, name: Seq<char>, term: Seq<char>)
    requires
        0 <= p,
        p + ("## ["@ + name + "](./"@ + term + ".md)"@).len() <= s.len(),
        s.subrange(p, p + ("## ["@ + name + "](./"@ + term + ".md)"@).len()) == "## ["@ + name + "](./"@
            + term + ".md)"@,
        name.len() > 0,
        !name.contains(']'),
        term.len() > 0,
        forall|j: int| 0 <= j < term.len() ==> is_name_char(#[trigger] term[j]),
    ensures
        links_from(s, p + 3) == seq![term] + links_from(
            s,
            p + ("## ["@ + name + "](./"@ + term + ".md)"@).len(),
        ),
{
    reveal_strlit("## [");
    reveal_strlit("](./");
    reveal_strlit(".md)");
    let w = "## ["@ + name + "](./"@ + term + ".md)"@;
    let n = name.len() as int;
    let m = term.len() as int;
    assert(w.len() == 4 + n + 4 + m + 4);
    assert forall|j: int| 0 <= j < w.len() implies s[p + j] == #[trigger] w[j] by {
        assert(s.subrange(p, p + w.len())[j] == s[p + j]);
    }
    let i = p + 3;
    let c = p + 4 + n;
    let k = c + 4;
    let e = k + m;
    assert(s[i] == w[3]);
    assert(s[c] == w[4 + n]);
    assert forall|j: int| i + 1 <= j < c implies #[trigger] s[j] != ']' by {
        assert(s[j] == w[j - p]);
        assert(w[j - p] == name[j - p - 4]);
        if s[j] == ']' {
            assert(name.contains(name[j - p - 4]));
        }
    }
    lemma_first_char_at(s, ']', i + 1, c);
    assert(s.subrange(c, c + 4) =~= link_middle()) by {
        assert forall|j: int| 0 <= j < 4 implies s.subrange(c, c + 4)[j] == link_middle()[j] by {
            assert(s[c + j] == w[4 + n + j]);
        }
    }
    assert forall|j: int| k <= j < e implies is_name_char(#[trigger] s[j]) by {
        assert(s[j] == w[j - p]);
        assert(w[j - p] == term[j - k]);
    }
    assert(s[e] == w[e - p]);
    lemma_name_run_at(s, k, e);
    assert(s.subrange(e, e + 4) =~= link_end()) by {
        assert forall|j: int| 0 <= j < 4 implies s.subrange(e, e + 4)[j] == link_end()[j] by {
            assert(s[e + j] == w[e - p + j]);
        }
    }
    assert(s.subrange(k, e) =~= term) by {
        assert forall|j: int| 0 <= j < m implies s.subrange(k, e)[j] == term[j] by {
            assert(s[k + j] == w[k - p + j]);
        }
    }
    assert(link_at(s, i) == Some((e + 4, term)));
}

/// The link starting at `i`, if any.
fn link_at_pos(s: &[char], i: usize) -> (r: Option<(usize, Vec<char>)>)
    requires
        i < s@.len(),
    ensures
        match link_at(s@, i as int) {
            Some((e, t)) => r matches Some((e2, t2)) && e2 == e && t2@ == t,
            None => r.is_none(),
        },
{
    if s[i] != '[' {
        return None;
    }
    let n = s.len();
    proof {
        lemma_first_char_from_bounds(s@, ']', i + 1);
    }
    let mut c: usize = i + 1;
    while c < n && s[c] != ']'
        invariant
            n == s@.len(),
            i < c <= n,
            first_char_from(s@, ']', i + 1) == first_char_from(s@, ']', c as int),
        decreases n - c,
    {
        c = c + 1;
    }
    if !(c > i + 1 && c < n && n - c >= 4 && s[c] == ']' && s[c + 1] == '(' && s[c + 2] == '.' && s[c + 3]
        == '/') {
        assert(!(c > i + 1 && occurs_at(s@, link_middle(), c as int))) by {
            if c > i + 1 && occurs_at(s@, link_middle(), c as int) {
                assert(s@.subrange(c as int, c + 4)[0] == s@[c as int]);
                assert(s@.subrange(c as int, c + 4)[1] == s@[c + 1]);
                assert(s@.subrange(c as int, c + 4)[2] == s@[c + 2]);
                assert(s@.subrange(c as int, c + 4)[3] == s@[c + 3]);
            }
        }
        return None;
    }
    assert(s@.subrange(c as int, c + 4) =~= link_middle());
    let k = c + 4;
    proof {
        lemma_name_run_end_bounds(s@, k as int);
    }
    let mut e: usize = k;
    while e < n && (('a' <= s[e] && s[e] <= 'z') || ('0' <= s[e] && s[e] <= '9') || s[e] == '_'
        || s[e] == '-')
        invariant
            n == s@.len(),
            k <= e <= n,
            name_run_end(s@, k as int) == name_run_end(s@, e as int),
        decreases n - e,
    {
        e = e + 1;
    }
    if !(e > k && n - e >= 4 && s[e] == '.' && s[e + 1] == 'm' && s[e + 2] == 'd' && s[e + 3]
        == ')') {
        assert(!(e > k && occurs_at(s@, link_end(), e as int))) by {
            if e > k && occurs_at(s@, link_end(), e as int) {
                assert(s@.subrange(e as int, e + 4)[0] == s@[e as int]);
                assert(s@.subrange(e as int, e + 4)[1] == s@[e + 1]);
                assert(s@.subrange(e as int, e + 4)[2] == s@[e + 2]);
                assert(s@.subrange(e as int, e + 4)[3] == s@[e + 3]);
            }
        }
        return None;
    }
    assert(s@.subrange(e as int, e + 4) =~= link_end());
    let mut t: Vec<char> = Vec::new();
    let mut j: usize = k;
    while j < e
        invariant
            k <= j <= e <= n,
            n == s@.len(),
            t@ == s@.subrange(k as int, j as int),
        decreases e - j,
    {
        t.push(s[j]);
        j = j + 1;
        assert(t@ =~= s@.subrange(k as int, j as int));
    }
    Some((e + 4, t))
}

/// The terms of all `[term](./term.md)` links, as character vectors.
fn link_terms(s: &[char]) -> (r: Vec<Vec<char>>)
    ensures
        char_vecs(r@) == links(s@),
{
    let n = s.len();
    let mut out: Vec<Vec<char>> = Vec::new();
    let mut i: usize = 0;
    while i < n
        invariant
            n == s@.len(),
            i <= n,
            char_vecs(out@) + links_from(s@, i as int) == links(s@),
        decreases n - i,
    {
        match link_at_pos(s, i) {
            Some((e, t)) => {
                proof {
                    lemma_link_at_end(s@, i as int);
                }
                let ghost before = char_vecs(out@);
                let ghost tv = t@;
                out.push(t);
                assert(char_vecs(out@) =~= before.push(tv));
                assert(before + (seq![tv] + links_from(s@, e as int)) =~= before.push(tv)
                    + links_from(s@, e as int));
                i = e;
            },
            None => {
                i = i + 1;
            },
        }
    }
    assert(char_vecs(out@) + Seq::<Seq<char>>::empty() =~= char_vecs(out@));
    out
}

/// Extract all `[term](./term.md)` links from content.
pub fn extract_links(content: &str) -> (r: Vec<String>)
    ensures
        strs(r@) == links(content@),
{
    let cs = chars_of(content);
    let ts = link_terms(cs.as_slice());
    strings_of(&ts)
}

/// The distinct terms in `v`, in increasing order.
pub(crate) fn sorted_distinct(v: &Vec<Vec<char>>) -> (r: Vec<Vec<char>>)
    ensures
        char_vecs(r@) == distinct_sorted(char_vecs(v@), text_order()),
        strictly_sorted(char_vecs(r@), text_order()),
        forall|x: Seq<char>| #[trigger] char_vecs(r@).contains(x) <==> char_vecs(v@).contains(x),
{
    proof {
        lemma_text_order_strict_total();
    }
    let mut res: Vec<Vec<char>> = Vec::new();
    let mut i: usize = 0;
    while i < v.len()
        invariant
            i <= v@.len(),
            crate::sorting::strict_total(text_order()),
            strictly_sorted(char_vecs(res@), text_order()),
            forall|x: Seq<char>| #[trigger] char_vecs(res@).contains(x) <==> char_vecs(v@).take(
                i as int,
            ).contains(x),
        decreases v.len() - i,
    {
        let x = &v[i];
        let ghost xs = x@;
        let ghost prev = char_vecs(v@).take(i as int);
        assert(char_vecs(v@).take(i + 1) =~= prev.push(xs));
        let mut p: usize = 0;
        while p < res.len() && text_less(res[p].as_slice(), x.as_slice())
            invariant
                p <= res@.len(),
                xs == x@,
                forall|j: int| 0 <= j < p ==> text_lt(#[trigger] char_vecs(res@)[j], xs),
            decreases res.len() - p,
        {
            assert(char_vecs(res@)[p as int] == res@[p as int]@);
            p = p + 1;
        }
        if p < res.len() && text_eq(res[p].as_slice(), x.as_slice()) {
            assert(char_vecs(res@)[p as int] == xs);
        } else {
            let ghost before = char_vecs(res@);
            if p < res.len() {
                proof {
                    assert(!text_lt(before[p as int], xs));
                    lemma_text_lt_total(before[p as int], xs);
                }
            }
            proof {
                lemma_sorted_insert(before, text_order(), xs, p as int);
            }
            res.insert(p, x.clone());
            assert(char_vecs(res@) =~= before.insert(p as int, xs));
        }
        i = i + 1;
    }
    assert(char_vecs(v@).take(v@.len() as int) =~= char_vecs(v@));
    proof {
        lemma_distinct_sorted(char_vecs(v@), text_order());
        lemma_strictly_sorted_unique(
            char_vecs(res@),
            distinct_sorted(char_vecs(v@), text_order()),
            text_order(),
        );
    }
    res
}

/// Extract unique links from a file: the linked terms, each once, in
/// increasing order.
pub fn extract_unique_links(content: &str) -> (r: Vec<String>)
    ensures
        strs(r@) == distinct_sorted(links(content@), text_order()),
        strictly_sorted(strs(r@), text_order()),
        forall|x: Seq<char>| #[trigger] strs(r@).contains(x) <==> links(content@).contains(x),
{
    let cs = chars_of(content);
    let ts = link_terms(cs.as_slice());
    let u = sorted_distinct(&ts);
    strings_of(&u)
}

// ---------------------------------------------------------------------------
// Terms from file names
// ---------------------------------------------------------------------------

/// The last index below `i` holding `ch`, or -1.
pub open spec fn last_char_below(s: Seq<char>, ch: char, i: int) -> int
    decreases i,
{
    if i <= 0 {
        -1
    } else if s[i - 1] == ch {
        i - 1
    } else {
        last_char_below(s, ch, i - 1)
    }
}

pub proof fn lemma_last_char_below(s: Seq<char>, ch: char, i: int)
    requires
        0 <= i <= s.len(),
    ensures
        -1 <= last_char_below(s, ch, i) < i,
        last_char_below(s, ch, i) >= 0 ==> s[last_char_below(s, ch, i)] == ch,
        forall|j: int| last_char_below(s, ch, i) < j < i ==> #[trigger] s[j] != ch,
    decreases i,
{
    if i > 0 && s[i - 1] != ch {
        lemma_last_char_below(s, ch, i - 1);
    }
}

/// The term a file named `name` holds: its stem, if its extension is `md`
/// (extension and stem as `Path` splits a file name: at the last `.`, unless
/// that is the first character).
pub open spec fn md_stem(name: Seq<char>) -> Option<Seq<char>> {
    let k = last_char_below(name, '.', name.len() as int);
    if k > 0 && name.skip(k + 1) == seq!['m', 'd'] {
        Some(name.take(k))
    } else {
        None
    }
}

/// The stems of the `.md` files among `names`, in order.
pub open spec fn md_stems(names: Seq<Seq<char>>) -> Seq<Seq<char>>
    decreases names.len(),
{
    if names.len() == 0 {
        seq![]
    } else {
        md_stems(names.drop_last()) + match md_stem(names.last()) {
            Some(t) => seq![t],
            None => seq![],
        }
    }
}

/// The identity, as a key.
pub open spec fn text_key() -> spec_fn(Seq<char>) -> Seq<char> {
    |x: Seq<char>| x
}

pub(crate) fn md_stem_of(name: &[char]) -> (r: Option<Vec<char>>)
    ensures
        match md_stem(name@) {
            Some(t) => r matches Some(v) && v@ == t,
            None => r.is_none(),
        },
{
    let n = name.len();
    let mut k: usize = n;
    while k > 0 && name[k - 1] != '.'
        invariant
            k <= n == name@.len(),
            last_char_below(name@, '.', n as int) == last_char_below(name@, '.', k as int),
        decreases k,
    {
        k = k - 1;
    }
    // the last dot, if any, is at k - 1
    if k <= 1 {
        return None;
    }
    let dot = k - 1;
    let is_md = n - dot == 3 && name[dot + 1] == 'm' && name[dot + 2] == 'd';
    if n - dot == 3 {
        assert(is_md == (name@.skip(dot + 1) == seq!['m', 'd'])) by {
            if name@.skip(dot + 1) == seq!['m', 'd'] {
                assert(name@.skip(dot + 1)[0] == name@[dot + 1]);
                assert(name@.skip(dot + 1)[1] == name@[dot + 2]);
            }
            if is_md {
                assert(name@.skip(dot + 1) =~= seq!['m', 'd']);
            }
        }
    } else {
        assert(name@.skip(dot + 1).len() != 2);
    }
    if !is_md {
        return None;
    }
    let mut t: Vec<char> = Vec::new();
    let mut j: usize = 0;
    while j < dot
        invariant
            j <= dot < n == name@.len(),
            t@ == name@.take(j as int),
        decreases dot - j,
    {
        t.push(name[j]);
        j = j + 1;
        assert(t@ =~= name@.take(j as int));
    }
    Some(t)
}

/// List the terms held by the `.md` files among these file names: their stems,
/// sorted.
pub fn list_terms(file_names: &Vec<String>) -> (r: Vec<String>)
    ensures
        stable_sort_of(strs(r@), md_stems(strs(file_names@)), text_key(), text_order()),
{
    proof {
        lemma_text_order_strict_total();
    }
    let ghost names = strs(file_names@);
    let mut res: Vec<Vec<char>> = Vec::new();
    let mut i: usize = 0;
    assert(names.take(0) =~= Seq::<Seq<char>>::empty());
    assert(stable_sort_of(char_vecs(res@), md_stems(names.take(0)), text_key(), text_order())) by {
        assert(char_vecs(res@) =~= Seq::<Seq<char>>::empty());
        assert(md_stems(names.take(0)) =~= Seq::<Seq<char>>::empty());
    }
    while i < file_names.len()
        invariant
            i <= file_names@.len(),
            names == strs(file_names@),
            crate::sorting::strict_total(text_order()),
            stable_sort_of(char_vecs(res@), md_stems(names.take(i as int)), text_key(), text_order()),
        decreases file_names.len() - i,
    {
        let name = chars_of(file_names[i].as_str());
        let ghost prev = names.take(i as int);
        assert(names.take(i + 1).drop_last() =~= prev);
        assert(names.take(i + 1).last() == name@);
        match md_stem_of(name.as_slice()) {
            None => {
                assert(md_stems(names.take(i + 1)) =~= md_stems(prev));
            },
            Some(x) => {
                let ghost xs = x@;
                assert(md_stems(names.take(i + 1)) =~= md_stems(prev).push(xs));
                let mut p: usize = 0;
                while p < res.len() && !text_less(x.as_slice(), res[p].as_slice())
                    invariant
                        p <= res@.len(),
                        xs == x@,
                        forall|j: int| 0 <= j < p ==> !text_lt(xs, #[trigger] char_vecs(res@)[j]),
                    decreases res.len() - p,
                {
                    assert(char_vecs(res@)[p as int] == res@[p as int]@);
                    p = p + 1;
                }
                let ghost before = char_vecs(res@);
                proof {
                    if p < res.len() {
                        lemma_sorted_tail_above(before, text_key(), text_order(), xs, p as int);
                    }
                    lemma_stable_insert(before, md_stems(prev), text_key(), text_order(), xs, p as int);
                }
                res.insert(p, x);
                assert(char_vecs(res@) =~= before.insert(p as int, xs));
            },
        }
        i = i + 1;
    }
    assert(names.take(file_names@.len() as int) =~= names);
    strings_of(&res)
}


/// The term a file name holds: its stem, when its extension is `md`.
pub fn md_term(name: &str) -> (r: Option<String>)
    ensures
        opt_str(r) == md_stem(name@),
{
    let cs = chars_of(name);
    match md_stem_of(cs.as_slice()) {
        Some(t) => Some(string_of(t.as_slice())),
        None => None,
    }
}

/// Whether a file name has the extension `md`.
pub fn is_markdown_file(name: &str) -> (r: bool)
    ensures
        r == md_stem(name@).is_some(),
{
    let cs = chars_of(name);
    md_stem_of(cs.as_slice()).is_some()
}

} // verus!
