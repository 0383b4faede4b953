use vstd::prelude::*;
use crate::config::{numbered_rings, Config, Ring};
use crate::markdown::{extract_section, extract_title, section_of, title_of};
use crate::sorting::{
    lemma_sorted_tail_above, lemma_stable_insert, lemma_stable_sort_elements, stable_sort_of, strict_total,
};
use crate::text::{
    chars_of, contains, contains_at_any, lemma_text_lt_irreflexive, lemma_text_lt_total,
    lemma_text_lt_transitive, lines, lowercase, owned, parse_u32_chars, split_lines, string_of,
    strs, text_eq, text_less, text_lt, to_lowercase, trim, trim_bounds,
};

verus! {

broadcast use vstd::seq_lib::group_seq_properties;

/// Weight of a term name equal to the query.
pub const WEIGHT_NAME_EXACT: u32 = 100;

/// Weight of a term name containing, or contained in, the query.
pub const WEIGHT_NAME_SUBSTRING: u32 = 60;

/// Weight of a definition containing the query.
pub const WEIGHT_DEFINITION: u32 = 30;

/// Weight of a node text containing the query.
pub const WEIGHT_BODY: u32 = 10;

/// A single search result with relevance score.
pub struct SearchResult {
    pub term: String,
    pub ring: Option<u32>,
    pub score: u32,
    pub definition: String,
}

/// A search result as plain values: (term, ring, score, definition).
pub open spec fn result_view(r: SearchResult) -> (Seq<char>, Option<u32>, u32, Seq<char>) {
    (r.term@, r.ring, r.score, r.definition@)
}

pub open spec fn result_views(v: Seq<SearchResult>) -> Seq<(Seq<char>, Option<u32>, u32, Seq<char>)> {
    v.map_values(|r: SearchResult| result_view(r))
}

// ---------------------------------------------------------------------------
// Definitions
// ---------------------------------------------------------------------------

/// The first line that is not blank, trimmed.
pub open spec fn first_nonblank(ls: Seq<Seq<char>>) -> Option<Seq<char>>
    decreases ls.len(),
{
    if ls.len() == 0 {
        None
    } else if trim(ls[0]).len() > 0 {
        Some(trim(ls[0]))
    } else {
        first_nonblank(ls.drop_first())
    }
}

/// The one-line definition of a node: the first non-blank line of its
/// ontology section; failing that its title; failing that `(no definition)`.
pub open spec fn definition_of(content: Seq<char>) -> Seq<char> {
    let from_section = match section_of(content, "Ontology"@) {
        Some(o) => first_nonblank(lines(o)),
        None => None,
    };
    match from_section {
        Some(d) => d,
        None => match title_of(content) {
            Some(t) => t,
            None => "(no definition)"@,
        },
    }
}

fn first_nonblank_line(text: &str) -> (r: Option<String>)
    ensures
        match first_nonblank(lines(text@)) {
            Some(d) => r matches Some(s) && s@ == d,
            None => r.is_none(),
        },
{
    let cs = chars_of(text);
    let ls = split_lines(cs.as_slice());
    let ghost all = lines(text@);
    let mut i: usize = 0;
    assert(all.skip(0) =~= all);
    while i < ls.len()
        invariant
            i <= ls@.len(),
            all == crate::text::char_vecs(ls@),
            all == lines(text@),
            first_nonblank(all) == first_nonblank(all.skip(i as int)),
        decreases ls.len() - i,
    {
        assert(all.skip(i as int).drop_first() =~= all.skip(i + 1));
        assert(all.skip(i as int)[0] == ls@[i as int]@);
        let l = ls[i].as_slice();
        let (lo, hi) = trim_bounds(l);
        if hi > lo {
            assert(trim(l@).len() > 0);
            assert(first_nonblank(all.skip(i as int)) == Some(trim(l@)));
            assert(all == lines(text@));
            return Some(string_of(&l[lo..hi]));
        }
        i = i + 1;
    }
    None
}

/// Extract the one-line definition: the first non-empty line after
/// `## [Ontology]` or `## Ontology`.
pub fn extract_definition(content: &str) -> (r: String)
    ensures
        r@ == definition_of(content@),
{
    if let Some(o) = extract_section(content, "Ontology") {
        if let Some(d) = first_nonblank_line(o.as_str()) {
            return d;
        }
    }
    match extract_title(content) {
        Some(t) => t,
        None => owned("(no definition)"),
    }
}

// ---------------------------------------------------------------------------
// Scores
// ---------------------------------------------------------------------------

/// The text with every `-` replaced by a space.
pub open spec fn dashes_to_spaces(s: Seq<char>) -> Seq<char> {
    s.map_values(|c: char| if c == '-' { ' ' } else { c })
}

/// How relevant a term is to a (lower-case) query: 100 when the lower-case
/// name is the query (hyphens read as spaces), else 60 when one contains the
/// other; plus 30 when the lower-case definition contains it; plus 10 when
/// the lower-case text contains it.
pub open spec fn score_of(term: Seq<char>, content: Seq<char>, query_lower: Seq<char>) -> u32 {
    let tl = lowercase(term);
    let name: u32 = if tl == query_lower || dashes_to_spaces(tl) == query_lower {
        WEIGHT_NAME_EXACT
    } else if contains(tl, query_lower) || contains(query_lower, tl) {
        WEIGHT_NAME_SUBSTRING
    } else {
        0
    };
    let def: u32 = if contains(lowercase(definition_of(content)), query_lower) {
        WEIGHT_DEFINITION
    } else {
        0
    };
    let body: u32 = if contains(lowercase(content), query_lower) {
        WEIGHT_BODY
    } else {
        0
    };
    (name + def + body) as u32
}

/// A score is made of three parts: 100 for the name when the lower-case name
/// is the query (hyphens read as spaces), else 60 when the name contains the
/// query or the query contains the name, else 0; 30 when the lower-case
/// definition contains the query, else 0; 10 when the lower-case text
/// contains it, else 0.
pub proof fn law_score_parts(term: Seq<char>, content: Seq<char>, query_lower: Seq<char>)
    ensures
        ({
            let tl = lowercase(term);
            let exact = tl == query_lower || dashes_to_spaces(tl) == query_lower;
            let partial = contains(tl, query_lower) || contains(query_lower, tl);
            let in_def = contains(lowercase(definition_of(content)), query_lower);
            let in_body = contains(lowercase(content), query_lower);
            &&& exact ==> score_of(term, content, query_lower) >= 100
            &&& !exact && partial ==> score_of(term, content, query_lower) >= 60
            &&& !exact && !partial ==> score_of(term, content, query_lower) <= 40
            &&& score_of(term, content, query_lower) == (if exact {
                100int
            } else if partial {
                60int
            } else {
                0int
            }) + (if in_def {
                30int
            } else {
                0int
            }) + (if in_body {
                10int
            } else {
                0int
            })
        }),
{
    let tl = lowercase(term);
    let exact = tl == query_lower || dashes_to_spaces(tl) == query_lower;
    let partial = contains(tl, query_lower) || contains(query_lower, tl);
    let n: int = if exact {
        100
    } else if partial {
        60
    } else {
        0
    };
    let d: int = if contains(lowercase(definition_of(content)), query_lower) {
        30
    } else {
        0
    };
    let b: int = if contains(lowercase(content), query_lower) {
        10
    } else {
        0
    };
    assert(score_of(term, content, query_lower) == n + d + b);
}

fn dashes_replaced(s: &[char]) -> (r: Vec<char>)
    ensures
        r@ == dashes_to_spaces(s@),
{
    let mut r: Vec<char> = Vec::new();
    let mut i: usize = 0;
    while i < s.len()
        invariant
            i <= s@.len(),
            r@ == dashes_to_spaces(s@.take(i as int)),
        decreases s.len() - i,
    {
        if s[i] == '-' {
            r.push(' ');
        } else {
            r.push(s[i]);
        }
        i = i + 1;
        assert(r@ =~= dashes_to_spaces(s@.take(i as int)));
    }
    assert(s@.take(s@.len() as int) =~= s@);
    r
}

/// Whether the lower-case form of `text` contains `q`.
fn lower_contains(text: &str, q: &[char]) -> (r: bool)
    ensures
        r == contains(lowercase(text@), q@),
{
    let low = to_lowercase(text);
    let lc = chars_of(low.as_str());
    contains_at_any(lc.as_slice(), q)
}

/// Compute a relevance score for a term against a query.
pub fn compute_score(term_name: &str, content: &str, query_lower: &str) -> (r: u32)
    ensures
        r == score_of(term_name@, content@, query_lower@),
{
    let q = chars_of(query_lower);
    let tl = to_lowercase(term_name);
    let tc = chars_of(tl.as_str());
    let spaced = dashes_replaced(tc.as_slice());
    let mut score: u32 = 0;
    if text_eq(tc.as_slice(), q.as_slice()) || text_eq(spaced.as_slice(), q.as_slice()) {
        score = score + WEIGHT_NAME_EXACT;
    } else if contains_at_any(tc.as_slice(), q.as_slice()) || contains_at_any(
        q.as_slice(),
        tc.as_slice(),
    ) {
        score = score + WEIGHT_NAME_SUBSTRING;
    }
    let definition = extract_definition(content);
    if lower_contains(definition.as_str(), q.as_slice()) {
        score = score + WEIGHT_DEFINITION;
    }
    if lower_contains(content, q.as_slice()) {
        score = score + WEIGHT_BODY;
    }
    score
}

// ---------------------------------------------------------------------------
// Ring levels of terms
// ---------------------------------------------------------------------------

/// Which ring lists which term: (term, level) pairs.
pub struct RingMap {
    pub pairs: Vec<(String, u32)>,
}

pub open spec fn pair_views(v: Seq<(String, u32)>) -> Seq<(Seq<char>, u32)> {
    v.map_values(|p: (String, u32)| (p.0@, p.1))
}

/// The (term, level) pairs of numbered rings, ring after ring.
pub open spec fn ring_pairs(ns: Seq<(u32, Ring)>) -> Seq<(Seq<char>, u32)>
    decreases ns.len(),
{
    if ns.len() == 0 {
        seq![]
    } else {
        ring_pairs(ns.drop_last()) + strs(ns.last().1.terms@).map_values(
            |t: Seq<char>| (t, ns.last().0),
        )
    }
}

/// The highest level paired with `term`, if any.
pub open spec fn highest_level(ps: Seq<(Seq<char>, u32)>, term: Seq<char>) -> Option<u32>
    decreases ps.len(),
{
    if ps.len() == 0 {
        None
    } else {
        let rest = highest_level(ps.drop_last(), term);
        if ps.last().0 == term {
            match rest {
                Some(l) => if l > ps.last().1 {
                    Some(l)
                } else {
                    Some(ps.last().1)
                },
                None => Some(ps.last().1),
            }
        } else {
            rest
        }
    }
}

/// The ring level found for a term is the highest level that it is paired
/// with; a term paired with none has no level.
pub proof fn law_ring_level_is_highest(ps: Seq<(Seq<char>, u32)>, term: Seq<char>)
    ensures
        highest_level(ps, term) is None <==> forall|i: int| 0 <= i < ps.len() ==> #[trigger] ps[i].0 != term,
        highest_level(ps, term) matches Some(n) ==> {
            &&& ps.contains((term, n))
            &&& forall|i: int| 0 <= i < ps.len() && #[trigger] ps[i].0 == term ==> ps[i].1 <= n
        },
    decreases ps.len(),
{
    if ps.len() > 0 {
        let pre = ps.drop_last();
        law_ring_level_is_highest(pre, term);
        assert forall|i: int| 0 <= i < pre.len() implies #[trigger] pre[i] == ps[i] by {}
        let last = ps.len() - 1;
        assert(ps[last] == ps.last());
        let hp = highest_level(pre, term);
        if let Some(l) = hp {
            let k = choose|k: int| 0 <= k < pre.len() && pre[k] == (term, l);
            assert(ps[k] == (term, l));
        }
        if let Some(n) = highest_level(ps, term) {
            assert forall|i: int| 0 <= i < ps.len() && #[trigger] ps[i].0 == term implies ps[i].1 <= n by {
                if i < last {
                    assert(pre[i].0 == term);
                }
            }
            if ps.last().0 == term && (hp is None || ps.last().1 >= hp->0) {
                assert(ps.contains(ps[last]));
            }
        }
        if ps.last().0 == term {
            assert(ps[last].0 == term);
        } else {
            assert forall|i: int| 0 <= i < ps.len() && hp is None implies #[trigger] ps[i].0 != term by {
                if i < last {
                    assert(pre[i].0 != term);
                }
            }
        }
    }
}

/// Build the term → ring level map of a config: a term listed by several
/// rings maps to the highest of them, the one that comes last in
/// `rings_sorted` order.
pub fn load_ring_map(config: &Config) -> (r: RingMap)
    ensures
        pair_views(r.pairs@) == ring_pairs(numbered_rings(config.rings@)),
{
    let mut pairs: Vec<(String, u32)> = Vec::new();
    let mut i: usize = 0;
    assert(config.rings@.take(0) =~= Seq::<(String, Ring)>::empty());
    while i < config.rings.len()
        invariant
            i <= config.rings@.len(),
            pair_views(pairs@) == ring_pairs(numbered_rings(config.rings@.take(i as int))),
        decreases config.rings.len() - i,
    {
        let ghost prev = config.rings@.take(i as int);
        assert(config.rings@.take(i + 1).drop_last() =~= prev);
        assert(config.rings@.take(i + 1).last() == config.rings@[i as int]);
        let key = chars_of(config.rings[i].0.as_str());
        match parse_u32_chars(key.as_slice()) {
            None => {
                assert(numbered_rings(config.rings@.take(i + 1)) =~= numbered_rings(prev));
            },
            Some(n) => {
                let ring = &config.rings[i].1;
                let ghost x = (n, *ring);
                assert(numbered_rings(config.rings@.take(i + 1)) =~= numbered_rings(prev).push(x));
                assert(numbered_rings(prev).push(x).drop_last() =~= numbered_rings(prev));
                let ghost base = pair_views(pairs@);
                let ghost ts = strs(ring.terms@);
                let mut k: usize = 0;
                while k < ring.terms.len()
                    invariant
                        k <= ring.terms@.len(),
                        ts == strs(ring.terms@),
                        pair_views(pairs@) == base + ts.take(k as int).map_values(
                            |t: Seq<char>| (t, n),
                        ),
                    decreases ring.terms.len() - k,
                {
                    let ghost before = pair_views(pairs@);
                    pairs.push((ring.terms[k].clone(), n));
                    assert(pair_views(pairs@) =~= before.push((ts[k as int], n)));
                    k = k + 1;
                    assert(ts.take(k as int).map_values(|t: Seq<char>| (t, n)) =~= ts.take(
                        k - 1,
                    ).map_values(|t: Seq<char>| (t, n)).push((ts[k - 1], n)));
                }
                assert(ts.take(ring.terms@.len() as int) =~= ts);
            },
        }
        i = i + 1;
    }
    assert(config.rings@.take(config.rings@.len() as int) =~= config.rings@);
    RingMap { pairs }
}

impl RingMap {
    /// The ring level of a term: the highest level it is paired with.
    pub fn get(&self, term: &str) -> (r: Option<u32>)
        ensures
            r == highest_level(pair_views(self.pairs@), term@),
    {
        let t = owned(term);
        let ghost ps = pair_views(self.pairs@);
        let mut best: Option<u32> = None;
        let mut i: usize = 0;
        assert(ps.take(0) =~= Seq::<(Seq<char>, u32)>::empty());
        while i < self.pairs.len()
            invariant
                i <= self.pairs@.len(),
                ps == pair_views(self.pairs@),
                t@ == term@,
                best == highest_level(ps.take(i as int), term@),
            decreases self.pairs.len() - i,
        {
            assert(ps.take(i + 1).drop_last() =~= ps.take(i as int));
            assert(ps.take(i + 1).last() == (self.pairs@[i as int].0@, self.pairs@[i as int].1));
            if self.pairs[i].0 == t {
                let l = self.pairs[i].1;
                best = match best {
                    Some(b) => if b > l {
                        Some(b)
                    } else {
                        Some(l)
                    },
                    None => Some(l),
                };
            }
            i = i + 1;
        }
        assert(ps.take(self.pairs@.len() as int) =~= ps);
        best
    }
}


// ---------------------------------------------------------------------------
// Search
// ---------------------------------------------------------------------------

/// (term, content) pairs as plain values.
pub open spec fn file_views(v: Seq<(String, String)>) -> Seq<(Seq<char>, Seq<char>)> {
    v.map_values(|p: (String, String)| (p.0@, p.1@))
}

pub open spec fn map_view(m: Option<&RingMap>) -> Option<Seq<(Seq<char>, u32)>> {
    match m {
        Some(rm) => Some(pair_views(rm.pairs@)),
        None => None,
    }
}

/// The ring of a term, when a map of rings is at hand.
pub open spec fn ring_lookup(m: Option<Seq<(Seq<char>, u32)>>, term: Seq<char>) -> Option<u32> {
    match m {
        Some(ps) => highest_level(ps, term),
        None => None,
    }
}

/// The results for the terms of non-zero score, in file order.
pub open spec fn candidates(
    files: Seq<(Seq<char>, Seq<char>)>,
    m: Option<Seq<(Seq<char>, u32)>>,
    query_lower: Seq<char>,
) -> Seq<(Seq<char>, Option<u32>, u32, Seq<char>)>
    decreases files.len(),
{
    if files.len() == 0 {
        seq![]
    } else {
        let t = files.last().0;
        let c = files.last().1;
        let s = score_of(t, c, query_lower);
        candidates(files.drop_last(), m, query_lower) + if s > 0 {
            seq![(t, ring_lookup(m, t), s, definition_of(c))]
        } else {
            seq![]
        }
    }
}

/// Results are ordered by score, highest first, then by term.
pub open spec fn result_key() -> spec_fn((Seq<char>, Option<u32>, u32, Seq<char>)) -> (u32, Seq<char>) {
    |v: (Seq<char>, Option<u32>, u32, Seq<char>)| (v.2, v.0)
}

pub open spec fn result_order() -> spec_fn((u32, Seq<char>), (u32, Seq<char>)) -> bool {
    |a: (u32, Seq<char>), b: (u32, Seq<char>)| a.0 > b.0 || (a.0 == b.0 && text_lt(a.1, b.1))
}

pub proof fn lemma_result_order_strict_total()
    ensures
        strict_total(result_order()),
{
    let lt = result_order();
    assert forall|a: (u32, Seq<char>)| !#[trigger] lt(a, a) by {
        lemma_text_lt_irreflexive(a.1);
    }
    assert forall|a: (u32, Seq<char>), b: (u32, Seq<char>), c: (u32, Seq<char>)|
        #[trigger] lt(a, b) && #[trigger] lt(b, c) implies lt(a, c) by {
        if a.0 == b.0 && b.0 == c.0 {
            lemma_text_lt_transitive(a.1, b.1, c.1);
        }
    }
    assert forall|a: (u32, Seq<char>), b: (u32, Seq<char>)|
        #![trigger lt(a, b)]
        #![trigger lt(b, a)]
        a != b implies lt(a, b) || lt(b, a) by {
        if a.0 == b.0 {
            lemma_text_lt_total(a.1, b.1);
        }
    }
}

proof fn lemma_candidates_member(
    files: Seq<(Seq<char>, Seq<char>)>,
    m: Option<Seq<(Seq<char>, u32)>>,
    q: Seq<char>,
    x: (Seq<char>, Option<u32>, u32, Seq<char>),
)
    requires
        candidates(files, m, q).contains(x),
    ensures
        x.2 > 0,
        exists|k: int|
            0 <= k < files.len() && #[trigger] files[k].0 == x.0 && x.2 == score_of(files[k].0, files[k].1, q),
    decreases files.len(),
{
    let pre = candidates(files.drop_last(), m, q);
    let all = candidates(files, m, q);
    let j = choose|j: int| 0 <= j < all.len() && all[j] == x;
    if j < pre.len() {
        assert(pre[j] == x);
        lemma_candidates_member(files.drop_last(), m, q, x);
        let k = choose|k: int|
            0 <= k < files.drop_last().len() && #[trigger] files.drop_last()[k].0 == x.0 && x.2 == score_of(
                files.drop_last()[k].0,
                files.drop_last()[k].1,
                q,
            );
        assert(files[k] == files.drop_last()[k]);
    } else {
        assert(files[files.len() - 1] == files.last());
    }
}

/// Every file whose score is above zero gives a candidate result, with its
/// term, ring, score and definition, and there are exactly as many
/// candidates as such files.
pub proof fn law_every_match_is_a_candidate(
    files: Seq<(Seq<char>, Seq<char>)>,
    m: Option<Seq<(Seq<char>, u32)>>,
    q: Seq<char>,
)
    ensures
        forall|k: int|
            0 <= k < files.len() && score_of(files[k].0, files[k].1, q) > 0 ==> #[trigger] candidates(
                files,
                m,
                q,
            ).contains(
                (
                    files[k].0,
                    ring_lookup(m, files[k].0),
                    score_of(files[k].0, files[k].1, q),
                    definition_of(files[k].1),
                ),
            ),
        candidates(files, m, q).len() == files.filter(|f: (Seq<char>, Seq<char>)| score_of(f.0, f.1, q) > 0).len(),
    decreases files.len(),
{
    let p = |f: (Seq<char>, Seq<char>)| score_of(f.0, f.1, q) > 0;
    if files.len() == 0 {
        assert(files.filter(p) =~= Seq::<(Seq<char>, Seq<char>)>::empty()) by {
            reveal(Seq::filter);
        }
    } else {
        let d = files.drop_last();
        law_every_match_is_a_candidate(d, m, q);
        assert(files =~= d.push(files.last()));
        d.lemma_filter_push(files.last(), p);
        let pre = candidates(d, m, q);
        let all = candidates(files, m, q);
        assert forall|k: int|
            0 <= k < files.len() && score_of(files[k].0, files[k].1, q) > 0 implies #[trigger] candidates(
                files,
                m,
                q,
            ).contains(
                (
                    files[k].0,
                    ring_lookup(m, files[k].0),
                    score_of(files[k].0, files[k].1, q),
                    definition_of(files[k].1),
                ),
            ) by {
            if k < files.len() - 1 {
                assert(files[k] == d[k]);
                let x = (d[k].0, ring_lookup(m, d[k].0), score_of(d[k].0, d[k].1, q), definition_of(d[k].1));
                assert(pre.contains(x));
                let j = choose|j: int| 0 <= j < pre.len() && pre[j] == x;
                assert(all[j] == pre[j]);
            } else {
                assert(files[k] == files.last());
                assert(all[pre.len() as int] == (
                    files[k].0,
                    ring_lookup(m, files[k].0),
                    score_of(files[k].0, files[k].1, q),
                    definition_of(files[k].1),
                ));
            }
        }
    }
}

/// Every file whose score is above zero is among the sorted results, before
/// the results are cut to the limit.
pub proof fn law_every_match_is_ranked(
    files: Seq<(Seq<char>, Seq<char>)>,
    m: Option<Seq<(Seq<char>, u32)>>,
    q: Seq<char>,
    sorted: Seq<(Seq<char>, Option<u32>, u32, Seq<char>)>,
    k: int,
)
    requires
        stable_sort_of(sorted, candidates(files, m, q), result_key(), result_order()),
        0 <= k < files.len(),
        score_of(files[k].0, files[k].1, q) > 0,
    ensures
        sorted.contains(
            (
                files[k].0,
                ring_lookup(m, files[k].0),
                score_of(files[k].0, files[k].1, q),
                definition_of(files[k].1),
            ),
        ),
{
    law_every_match_is_a_candidate(files, m, q);
    lemma_stable_sort_elements(sorted, candidates(files, m, q), result_key(), result_order());
}

/// Search results name only terms that match the query (their score, that
/// of their file, is above zero), and no result comes after one of lower score.
pub proof fn law_search_results_ranked(
    files: Seq<(Seq<char>, Seq<char>)>,
    m: Option<Seq<(Seq<char>, u32)>>,
    q: Seq<char>,
    sorted: Seq<(Seq<char>, Option<u32>, u32, Seq<char>)>,
)
    requires
        stable_sort_of(sorted, candidates(files, m, q), result_key(), result_order()),
    ensures
        forall|i: int|
            0 <= i < sorted.len() ==> #[trigger] sorted[i].2 > 0 && exists|k: int|
                0 <= k < files.len() && #[trigger] files[k].0 == sorted[i].0 && sorted[i].2 == score_of(
                    files[k].0,
                    files[k].1,
                    q,
                ),
        forall|i: int, j: int| 0 <= i < j < sorted.len() ==> #[trigger] sorted[i].2 >= #[trigger] sorted[j].2,
{
    lemma_stable_sort_elements(sorted, candidates(files, m, q), result_key(), result_order());
    assert forall|i: int| 0 <= i < sorted.len() implies #[trigger] sorted[i].2 > 0 && exists|k: int|
        0 <= k < files.len() && #[trigger] files[k].0 == sorted[i].0 && sorted[i].2 == score_of(
            files[k].0,
            files[k].1,
            q,
        ) by {
        assert(sorted.contains(sorted[i]));
        lemma_candidates_member(files, m, q, sorted[i]);
    }
    assert forall|i: int, j: int| 0 <= i < j < sorted.len() implies #[trigger] sorted[i].2
        >= #[trigger] sorted[j].2 by {
        assert(!result_order()(result_key()(sorted[j]), result_key()(sorted[i])));
    }
}


/// Search term files (term, content) for a query and return the results
/// ordered by relevance (highest score first, then by term), at most `limit`.
///
/// Targets, by weight: the term name, the definition (first line under
/// `## [Ontology]`), the full text.
pub fn search(files: &Vec<(String, String)>, ring_map: Option<&RingMap>, query: &str, limit: usize) -> (r:
    Vec<SearchResult>)
    ensures
        exists|sorted: Seq<(Seq<char>, Option<u32>, u32, Seq<char>)>|
            {
                &&& stable_sort_of(
                    sorted,
                    candidates(file_views(files@), map_view(ring_map), lowercase(query@)),
                    result_key(),
                    result_order(),
                )
                &&& result_views(r@) == sorted.take(
                    if limit < sorted.len() {
                        limit as int
                    } else {
                        sorted.len() as int
                    },
                )
            },
        r@.len() == if limit < candidates(file_views(files@), map_view(ring_map), lowercase(query@)).len() {
            limit as int
        } else {
            candidates(file_views(files@), map_view(ring_map), lowercase(query@)).len() as int
        },
{
    proof {
        lemma_result_order_strict_total();
    }
    let ql = to_lowercase(query);
    let ghost q = lowercase(query@);
    let ghost fs = file_views(files@);
    let ghost mv = map_view(ring_map);
    let mut res: Vec<SearchResult> = Vec::new();
    let mut i: usize = 0;
    assert(fs.take(0) =~= Seq::<(Seq<char>, Seq<char>)>::empty());
    assert(stable_sort_of(result_views(res@), candidates(fs.take(0), mv, q), result_key(), result_order()))
        by {
        assert(result_views(res@) =~= Seq::<(Seq<char>, Option<u32>, u32, Seq<char>)>::empty());
    }
    while i < files.len()
        invariant
            i <= files@.len(),
            fs == file_views(files@),
            mv == map_view(ring_map),
            q == lowercase(query@),
            ql@ == q,
            strict_total(result_order()),
            stable_sort_of(result_views(res@), candidates(fs.take(i as int), mv, q), result_key(), result_order()),
            res@.len() == candidates(fs.take(i as int), mv, q).len(),
        decreases files.len() - i,
    {
        let ghost prev = fs.take(i as int);
        assert(fs.take(i + 1).drop_last() =~= prev);
        assert(fs.take(i + 1).last() == fs[i as int]);
        assert(fs[i as int] == (files@[i as int].0@, files@[i as int].1@));
        let term = &files[i].0;
        let content = &files[i].1;
        let score = compute_score(term.as_str(), content.as_str(), ql.as_str());
        if score == 0 {
            assert(candidates(fs.take(i + 1), mv, q) =~= candidates(prev, mv, q));
        } else {
            let definition = extract_definition(content.as_str());
            let ring = match ring_map {
                Some(m) => m.get(term.as_str()),
                None => None,
            };
            let item = SearchResult { term: term.clone(), ring, score, definition };
            let ghost x = result_view(item);
            assert(candidates(fs.take(i + 1), mv, q) =~= candidates(prev, mv, q).push(x));
            let mut p: usize = 0;
            while p < res.len() && !(score > res[p].score || (score == res[p].score && text_less(
                chars_of(item.term.as_str()).as_slice(),
                chars_of(res[p].term.as_str()).as_slice(),
            )))
                invariant
                    p <= res@.len(),
                    x == result_view(item),
                    item.score == score,
                    forall|j: int|
                        0 <= j < p ==> !result_order()(
                            result_key()(x),
                            result_key()(#[trigger] result_views(res@)[j]),
                        ),
                decreases res.len() - p,
            {
                assert(result_views(res@)[p as int] == result_view(res@[p as int]));
                p = p + 1;
            }
            let ghost before = result_views(res@);
            proof {
                if p < res.len() {
                    assert(before[p as int] == result_view(res@[p as int]));
                    lemma_sorted_tail_above(before, result_key(), result_order(), result_key()(x), p as int);
                }
                lemma_stable_insert(before, candidates(prev, mv, q), result_key(), result_order(), x, p as int);
            }
            res.insert(p, item);
            assert(result_views(res@) =~= before.insert(p as int, x));
        }
        i = i + 1;
    }
    assert(fs.take(files@.len() as int) =~= fs);
    let ghost sorted = result_views(res@);
    let ghost n = if limit < sorted.len() {
        limit as int
    } else {
        sorted.len() as int
    };
    res.truncate(limit);
    assert(result_views(res@) =~= sorted.take(n));
    res
}

} // verus!
