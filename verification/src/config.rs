use vstd::prelude::*;
use crate::sorting::{
    key_class, lemma_filter_at_most_one, lemma_filter_two, lemma_sorted_tail_above, lemma_stable_insert,
    lemma_stable_sort_elements, stable_sort_of, strict_total,
};
use crate::text::{
    chars_of, decimal, law_decimal_parses_back, lemma_text_lt_irreflexive, parse_u32, parse_u32_chars,
    push_decimal, strs, text_lt,
};

verus! {

broadcast use vstd::seq_lib::group_seq_properties;

/// The `[meta]` table of `exkernel.toml`.
pub struct Meta {
    pub name: String,
    pub description: String,
}

/// A scoping ring: a `[rings.N]` table of `exkernel.toml`.
pub struct Ring {
    pub name: String,
    pub description: String,
    pub terms: Vec<String>,
}

/// The contents of `exkernel.toml`. The tables `rings` and `sources` are kept
/// as (key, value) pairs in increasing order of key, as a `BTreeMap` walks them
/// (`Config::wf`).
pub struct Config {
    pub meta: Meta,
    pub rings: Vec<(String, Ring)>,
    pub sources: Vec<(String, String)>,
}

/// The keys of the rings table.
pub open spec fn ring_keys(rings: Seq<(String, Ring)>) -> Seq<Seq<char>> {
    rings.map_values(|p: (String, Ring)| p.0@)
}

/// Keys strictly increasing in text order, as a `BTreeMap` walks them: each
/// key at most once.
pub open spec fn keys_increasing(keys: Seq<Seq<char>>) -> bool {
    forall|i: int, j: int| 0 <= i < j < keys.len() ==> text_lt(#[trigger] keys[i], #[trigger] keys[j])
}

/// The keys of the sources table.
pub open spec fn source_keys(sources: Seq<(String, String)>) -> Seq<Seq<char>> {
    sources.map_values(|p: (String, String)| p.0@)
}

/// Every key that reads as a number is that number's decimal numeral
/// (no sign, no leading zero).
pub open spec fn numeric_keys_canonical(rings: Seq<(String, Ring)>) -> bool {
    forall|i: int|
        0 <= i < rings.len() ==> (#[trigger] parse_u32(rings[i].0@) matches Some(n) ==> rings[i].0@
            == decimal(n as nat))
}

/// The first index at or after `i` holding key `k`, or the length.
pub open spec fn key_index_from(keys: Seq<Seq<char>>, k: Seq<char>, i: int) -> int
    decreases keys.len() - i,
{
    if i >= keys.len() {
        keys.len() as int
    } else if keys[i] == k {
        i
    } else {
        key_index_from(keys, k, i + 1)
    }
}

/// The rings whose key reads as a number, with that number, in table order.
pub open spec fn numbered_rings(rings: Seq<(String, Ring)>) -> Seq<(u32, Ring)>
    decreases rings.len(),
{
    if rings.len() == 0 {
        seq![]
    } else {
        numbered_rings(rings.drop_last()) + match parse_u32(rings.last().0@) {
            Some(n) => seq![(n, rings.last().1)],
            None => seq![],
        }
    }
}

pub open spec fn level_key() -> spec_fn((u32, Ring)) -> u32 {
    |p: (u32, Ring)| p.0
}

pub open spec fn level_order() -> spec_fn(u32, u32) -> bool {
    |a: u32, b: u32| a < b
}

/// The pairs of a sorted ring list, seen through their references.
pub open spec fn deref_rings(v: Seq<(u32, &Ring)>) -> Seq<(u32, Ring)> {
    v.map_values(|p: (u32, &Ring)| (p.0, *p.1))
}

pub proof fn lemma_level_order_strict_total()
    ensures
        strict_total(level_order()),
{
}

proof fn lemma_key_index_from(keys: Seq<Seq<char>>, k: Seq<char>, i: int)
    requires
        0 <= i,
    ensures
        key_index_from(keys, k, i) < keys.len() ==> i <= key_index_from(keys, k, i) && keys[key_index_from(
            keys,
            k,
            i,
        )] == k,
    decreases keys.len() - i,
{
    if i < keys.len() && keys[i] != k {
        lemma_key_index_from(keys, k, i + 1);
    }
}

proof fn lemma_numbered_rings_contains(rings: Seq<(String, Ring)>, i: int, n: u32)
    requires
        0 <= i < rings.len(),
        parse_u32(rings[i].0@) == Some(n),
    ensures
        numbered_rings(rings).contains((n, rings[i].1)),
    decreases rings.len(),
{
    let pre = numbered_rings(rings.drop_last());
    let all = numbered_rings(rings);
    if i == rings.len() - 1 {
        assert(all[pre.len() as int] == (n, rings[i].1));
    } else {
        lemma_numbered_rings_contains(rings.drop_last(), i, n);
        let j = choose|j: int| 0 <= j < pre.len() && pre[j] == (n, rings[i].1);
        assert(all[j] == pre[j]);
    }
}

/// The ring that `get_ring` finds for a level is listed by `rings_sorted`
/// under that level.
pub proof fn law_get_ring_is_listed(rings: Seq<(String, Ring)>, level: u32, sorted: Seq<(u32, Ring)>)
    requires
        stable_sort_of(sorted, numbered_rings(rings), level_key(), level_order()),
        key_index_from(ring_keys(rings), decimal(level as nat), 0) < rings.len(),
    ensures
        sorted.contains((level, rings[key_index_from(ring_keys(rings), decimal(level as nat), 0)].1)),
{
    let keys = ring_keys(rings);
    let i = key_index_from(keys, decimal(level as nat), 0);
    lemma_key_index_from(keys, decimal(level as nat), 0);
    assert(keys[i] == rings[i].0@);
    law_decimal_parses_back(level);
    lemma_numbered_rings_contains(rings, i, level);
    lemma_stable_sort_elements(sorted, numbered_rings(rings), level_key(), level_order());
}

proof fn lemma_key_index_first(keys: Seq<Seq<char>>, k: Seq<char>, s: int, i: int)
    requires
        0 <= s <= i < keys.len(),
        keys[i] == k,
    ensures
        s <= key_index_from(keys, k, s) <= i,
        keys[key_index_from(keys, k, s)] == k,
    decreases i - s,
{
    if keys[s] != k {
        lemma_key_index_first(keys, k, s + 1, i);
    }
}

proof fn lemma_numbered_rings_member(rings: Seq<(String, Ring)>, x: (u32, Ring))
    requires
        numbered_rings(rings).contains(x),
    ensures
        exists|i: int| 0 <= i < rings.len() && #[trigger] parse_u32(rings[i].0@) == Some(x.0) && rings[i].1 == x.1,
    decreases rings.len(),
{
    let d = rings.drop_last();
    let pre = numbered_rings(d);
    let all = numbered_rings(rings);
    let m = choose|m: int| 0 <= m < all.len() && all[m] == x;
    if m < pre.len() {
        assert(pre[m] == x);
        lemma_numbered_rings_member(d, x);
        let i = choose|i: int| 0 <= i < d.len() && #[trigger] parse_u32(d[i].0@) == Some(x.0) && d[i].1 == x.1;
        assert(rings[i] == d[i]);
    } else {
        let i = rings.len() - 1;
        assert(rings[i] == rings.last());
        assert(parse_u32(rings[i].0@) == Some(x.0));
    }
}

/// With distinct, canonical keys, no two numbered rings share a level.
proof fn lemma_numbered_levels_distinct(rings: Seq<(String, Ring)>)
    requires
        forall|a: int, b: int| 0 <= a < b < rings.len() ==> #[trigger] rings[a].0@ != #[trigger] rings[b].0@,
        numeric_keys_canonical(rings),
    ensures
        forall|a: int, b: int|
            0 <= a < b < numbered_rings(rings).len() ==> #[trigger] numbered_rings(rings)[a].0
                != #[trigger] numbered_rings(rings)[b].0,
    decreases rings.len(),
{
    if rings.len() > 0 {
        let d = rings.drop_last();
        let last = rings.len() - 1;
        assert forall|a: int, b: int| 0 <= a < b < d.len() implies #[trigger] d[a].0@ != #[trigger] d[b].0@ by {
            assert(d[a] == rings[a] && d[b] == rings[b]);
        }
        assert forall|i: int| 0 <= i < d.len() implies (#[trigger] parse_u32(d[i].0@) matches Some(n)
            ==> d[i].0@ == decimal(n as nat)) by {
            assert(d[i] == rings[i]);
            assert(parse_u32(rings[i].0@) matches Some(n) ==> rings[i].0@ == decimal(n as nat));
        }
        lemma_numbered_levels_distinct(d);
        let pre = numbered_rings(d);
        let all = numbered_rings(rings);
        assert(rings[last] == rings.last());
        assert forall|a: int, b: int| 0 <= a < b < all.len() implies #[trigger] all[a].0 != #[trigger] all[b].0 by {
            if b < pre.len() {
                assert(all[a] == pre[a] && all[b] == pre[b]);
            } else {
                assert(all[a] == pre[a]);
                assert(pre.contains(pre[a]));
                lemma_numbered_rings_member(d, pre[a]);
                let i = choose|i: int| 0 <= i < d.len() && #[trigger] parse_u32(d[i].0@) == Some(pre[a].0) && d[i].1 == pre[a].1;
                assert(d[i] == rings[i]);
                let n = all[b].0;
                assert(parse_u32(rings[last].0@) == Some(n));
                assert(parse_u32(rings[i].0@) matches Some(m) ==> rings[i].0@ == decimal(m as nat));
                assert(parse_u32(rings[last].0@) matches Some(m) ==> rings[last].0@ == decimal(m as nat));
                assert(rings[i].0@ != rings[last].0@);
            }
        }
    }
}

/// With the tables of a well-formed config and canonical numeric keys,
/// `rings_sorted` lists each level at most once, in increasing order, and
/// lists a ring under a level exactly when `get_ring` finds it for that level.
pub proof fn law_rings_sorted_agrees_with_get_ring(config: Config, sorted: Seq<(u32, Ring)>)
    requires
        config.wf(),
        numeric_keys_canonical(config.rings@),
        stable_sort_of(sorted, numbered_rings(config.rings@), level_key(), level_order()),
    ensures
        forall|i: int, j: int| 0 <= i < j < sorted.len() ==> #[trigger] sorted[i].0 < #[trigger] sorted[j].0,
        forall|n: u32, r: Ring|
            #[trigger] sorted.contains((n, r)) <==> {
                let i = key_index_from(ring_keys(config.rings@), decimal(n as nat), 0);
                i < config.rings@.len() && config.rings@[i].1 == r
            },
{
    let rings = config.rings@;
    let keys = ring_keys(rings);
    let numbered = numbered_rings(rings);
    assert forall|a: int, b: int| 0 <= a < b < rings.len() implies #[trigger] rings[a].0@ != #[trigger] rings[b].0@ by {
        assert(keys[a] == rings[a].0@ && keys[b] == rings[b].0@);
        assert(text_lt(keys[a], keys[b]));
        lemma_text_lt_irreflexive(keys[a]);
    }
    lemma_numbered_levels_distinct(rings);
    lemma_stable_sort_elements(sorted, numbered, level_key(), level_order());
    assert forall|i: int, j: int| 0 <= i < j < sorted.len() implies #[trigger] sorted[i].0 < #[trigger] sorted[j].0 by {
        assert(!level_order()(level_key()(sorted[j]), level_key()(sorted[i])));
        if sorted[i].0 == sorted[j].0 {
            let c = key_class(level_key(), sorted[i].0);
            lemma_filter_two(sorted, c, i, j);
            assert(sorted.filter(c) == numbered.filter(c));
            lemma_filter_at_most_one(numbered, c);
        }
    }
    assert forall|n: u32, r: Ring|
        #[trigger] sorted.contains((n, r)) <==> {
            let i = key_index_from(keys, decimal(n as nat), 0);
            i < rings.len() && rings[i].1 == r
        } by {
        let k = decimal(n as nat);
        let idx = key_index_from(keys, k, 0);
        lemma_key_index_from(keys, k, 0);
        if sorted.contains((n, r)) {
            lemma_numbered_rings_member(rings, (n, r));
            let i = choose|i: int| 0 <= i < rings.len() && #[trigger] parse_u32(rings[i].0@) == Some(n) && rings[i].1 == r;
            assert(parse_u32(rings[i].0@) matches Some(m) ==> rings[i].0@ == decimal(m as nat));
            assert(keys[i] == k);
            lemma_key_index_first(keys, k, 0, i);
            assert(keys[idx] == rings[idx].0@);
            if idx != i {
                assert(rings[idx].0@ != rings[i].0@);
            }
        }
        if idx < rings.len() && rings[idx].1 == r {
            assert(keys[idx] == rings[idx].0@);
            law_decimal_parses_back(n);
            lemma_numbered_rings_contains(rings, idx, n);
        }
    }
}

/// A key that reads as a number.
pub open spec fn numeric_key() -> spec_fn((String, Ring)) -> bool {
    |p: (String, Ring)| parse_u32(p.0@) is Some
}

/// There is one numbered ring for each key that reads as a number.
pub proof fn law_numbered_rings_count(rings: Seq<(String, Ring)>)
    ensures
        numbered_rings(rings).len() == rings.filter(numeric_key()).len(),
    decreases rings.len(),
{
    if rings.len() > 0 {
        let d = rings.drop_last();
        law_numbered_rings_count(d);
        assert(rings =~= d.push(rings.last()));
        d.lemma_filter_push(rings.last(), numeric_key());
    } else {
        assert(rings.filter(numeric_key()) =~= Seq::<(String, Ring)>::empty()) by {
            reveal(Seq::filter);
        }
    }
}

impl Config {
    /// The tables of `exkernel.toml` were maps: each holds each key once,
    /// in increasing order.
    pub open spec fn wf(&self) -> bool {
        &&& keys_increasing(ring_keys(self.rings@))
        &&& keys_increasing(source_keys(self.sources@))
    }

    /// Get a ring by its numeric level: the ring whose key is the level's
    /// decimal numeral.
    pub fn get_ring(&self, level: u32) -> (r: Option<&Ring>)
        ensures
            ({
                let i = key_index_from(ring_keys(self.rings@), decimal(level as nat), 0);
                if i < self.rings@.len() {
                    r == Some(&self.rings@[i].1)
                } else {
                    r.is_none()
                }
            }),
    {
        let mut key = String::new();
        push_decimal(&mut key, level as u64);
        let ghost keys = ring_keys(self.rings@);
        let ghost k = decimal(level as nat);
        assert(key@ =~= k);
        let mut i: usize = 0;
        while i < self.rings.len()
            invariant
                i <= self.rings@.len(),
                keys == ring_keys(self.rings@),
                k == key@,
                k == decimal(level as nat),
                key_index_from(keys, k, 0) == key_index_from(keys, k, i as int),
            decreases self.rings.len() - i,
        {
            assert(keys[i as int] == self.rings@[i as int].0@);
            if self.rings[i].0 == key {
                assert(keys[i as int] == k);
                assert(key_index_from(keys, k, i as int) == i as int);
                return Some(&self.rings[i].1);
            }
            i = i + 1;
        }
        None
    }

    /// The rings whose key reads as a number, with that number, sorted by it
    /// (stably: rings of equal number keep their table order).
    pub fn rings_sorted(&self) -> (r: Vec<(u32, &Ring)>)
        ensures
            stable_sort_of(deref_rings(r@), numbered_rings(self.rings@), level_key(), level_order()),
            r@.len() == numbered_rings(self.rings@).len(),
    {
        proof {
            lemma_level_order_strict_total();
        }
        let mut res: Vec<(u32, &Ring)> = Vec::new();
        let mut i: usize = 0;
        assert(self.rings@.take(0) =~= Seq::<(String, Ring)>::empty());
        assert(stable_sort_of(
            deref_rings(res@),
            numbered_rings(self.rings@.take(0)),
            level_key(),
            level_order(),
        )) by {
            assert(deref_rings(res@) =~= Seq::<(u32, Ring)>::empty());
        }
        while i < self.rings.len()
            invariant
                i <= self.rings@.len(),
                strict_total(level_order()),
                stable_sort_of(
                    deref_rings(res@),
                    numbered_rings(self.rings@.take(i as int)),
                    level_key(),
                    level_order(),
                ),
                res@.len() == numbered_rings(self.rings@.take(i as int)).len(),
            decreases self.rings.len() - i,
        {
            let ghost prev = self.rings@.take(i as int);
            assert(self.rings@.take(i + 1).drop_last() =~= prev);
            assert(self.rings@.take(i + 1).last() == self.rings@[i as int]);
            let key = chars_of(self.rings[i].0.as_str());
            match parse_u32_chars(key.as_slice()) {
                None => {
                    assert(numbered_rings(self.rings@.take(i + 1)) =~= numbered_rings(prev));
                },
                Some(n) => {
                    let ring = &self.rings[i].1;
                    let ghost x = (n, *ring);
                    assert(numbered_rings(self.rings@.take(i + 1)) =~= numbered_rings(prev).push(x));
                    let mut p: usize = 0;
                    while p < res.len() && !(n < res[p].0)
                        invariant
                            p <= res@.len(),
                            forall|j: int| 0 <= j < p ==> !(n < #[trigger] deref_rings(res@)[j].0),
                        decreases res.len() - p,
                    {
                        assert(deref_rings(res@)[p as int].0 == res@[p as int].0);
                        p = p + 1;
                    }
                    let ghost before = deref_rings(res@);
                    proof {
                        if p < res.len() {
                            assert(before[p as int].0 == res@[p as int].0);
                            lemma_sorted_tail_above(before, level_key(), level_order(), n, p as int);
                        }
                        lemma_stable_insert(
                            before,
                            numbered_rings(prev),
                            level_key(),
                            level_order(),
                            x,
                            p as int,
                        );
                    }
                    res.insert(p, (n, ring));
                    assert(deref_rings(res@) =~= before.insert(p as int, x));
                },
            }
            i = i + 1;
        }
        assert(self.rings@.take(self.rings@.len() as int) =~= self.rings@);
        res
    }
}

// ---------------------------------------------------------------------------
// Finding the ontology directory
// ---------------------------------------------------------------------------

/// What the file system shows of a directory.
#[derive(Clone, Copy, Debug, PartialEq, Eq, Structural)]
pub struct DirFacts {
    pub is_dir: bool,
    /// It holds `exkernel.toml`.
    pub has_config: bool,
    /// It holds a directory `src`.
    pub has_src: bool,
}

/// An entry of `~/.exkernel/sources`, with its own entries in listing order.
pub struct SourceDir {
    pub dir: DirFacts,
    pub entries: Vec<DirFacts>,
}

/// Where the ontology is: the directory given, the current directory, entry
/// `j` of source directory `k`, or source directory `k` itself.
#[derive(Clone, Copy, Debug, PartialEq, Eq, Structural)]
pub enum OntologyDir {
    Explicit,
    Cwd,
    SourceEntry(usize, usize),
    Source(usize),
}

/// Why no ontology directory was found: the directory given does not look like
/// one, or none was found anywhere.
#[derive(Clone, Copy, Debug, PartialEq, Eq, Structural)]
pub enum ResolveError {
    NotOntology,
    NotFound,
}

/// A directory looks like an ontology: it has `exkernel.toml` or `src/`.
pub open spec fn looks_like_ontology(f: DirFacts) -> bool {
    f.has_config || f.has_src
}

/// The first entry at or after `j` that is a directory looking like an
/// ontology, or the number of entries.
pub open spec fn first_ontology_entry(es: Seq<DirFacts>, j: int) -> int
    decreases es.len() - j,
{
    if j >= es.len() {
        es.len() as int
    } else if es[j].is_dir && looks_like_ontology(es[j]) {
        j
    } else {
        first_ontology_entry(es, j + 1)
    }
}

/// The first source directory, from `k` on, that holds an ontology: in an
/// entry of its own, else in itself.
pub open spec fn source_choice(ss: Seq<SourceDir>, k: int) -> Option<OntologyDir>
    decreases ss.len() - k,
{
    if k < 0 || k >= ss.len() {
        None
    } else if ss[k].dir.is_dir && first_ontology_entry(ss[k].entries@, 0) < ss[k].entries@.len() {
        Some(OntologyDir::SourceEntry(k as usize, first_ontology_entry(ss[k].entries@, 0) as usize))
    } else if ss[k].dir.is_dir && looks_like_ontology(ss[k].dir) {
        Some(OntologyDir::Source(k as usize))
    } else {
        source_choice(ss, k + 1)
    }
}

/// The ontology directory, by priority: the directory given (and only it,
/// when one is given), the current directory when it has `exkernel.toml`,
/// then the sources in listing order.
pub open spec fn ontology_dir_choice(
    explicit: Option<DirFacts>,
    cwd_has_config: bool,
    sources: Option<Vec<SourceDir>>,
) -> Result<OntologyDir, ResolveError> {
    match explicit {
        Some(f) => if looks_like_ontology(f) {
            Ok(OntologyDir::Explicit)
        } else {
            Err(ResolveError::NotOntology)
        },
        None => if cwd_has_config {
            Ok(OntologyDir::Cwd)
        } else {
            match sources {
                Some(ss) => match source_choice(ss@, 0) {
                    Some(d) => Ok(d),
                    None => Err(ResolveError::NotFound),
                },
                None => Err(ResolveError::NotFound),
            }
        },
    }
}

/// Decide where the ontology directory is, from what the file system shows:
/// the directory given on the command line, whether the current directory
/// has `exkernel.toml`, and the listing of `~/.exkernel/sources` (`None`
/// when it cannot be read).
pub fn choose_ontology_dir(
    explicit: Option<DirFacts>,
    cwd_has_config: bool,
    sources: Option<Vec<SourceDir>>,
) -> (r: Result<OntologyDir, ResolveError>)
    ensures
        r == ontology_dir_choice(explicit, cwd_has_config, sources),
{
    if let Some(f) = explicit {
        if f.has_config || f.has_src {
            return Ok(OntologyDir::Explicit);
        } else {
            return Err(ResolveError::NotOntology);
        }
    }
    if cwd_has_config {
        return Ok(OntologyDir::Cwd);
    }
    let ghost goal = ontology_dir_choice(explicit, cwd_has_config, sources);
    match &sources {
        None => Err(ResolveError::NotFound),
        Some(ss) => {
            let mut k: usize = 0;
            while k < ss.len()
                invariant
                    k <= ss@.len(),
                    source_choice(ss@, 0) == source_choice(ss@, k as int),
                    goal == ontology_dir_choice(explicit, cwd_has_config, sources),
                    goal == match source_choice(ss@, 0) {
                        Some(d) => Ok(d),
                        None => Err(ResolveError::NotFound),
                    },
                decreases ss.len() - k,
            {
                let s = &ss[k];
                if s.dir.is_dir {
                    let mut j: usize = 0;
                    while j < s.entries.len() && !(s.entries[j].is_dir && (s.entries[j].has_config
                        || s.entries[j].has_src))
                        invariant
                            j <= s.entries@.len(),
                            first_ontology_entry(s.entries@, 0) == first_ontology_entry(
                                s.entries@,
                                j as int,
                            ),
                        decreases s.entries.len() - j,
                    {
                        j = j + 1;
                    }
                    if j < s.entries.len() {
                        return Ok(OntologyDir::SourceEntry(k, j));
                    }
                    if s.dir.has_config || s.dir.has_src {
                        return Ok(OntologyDir::Source(k));
                    }
                }
                k = k + 1;
            }
            Err(ResolveError::NotFound)
        },
    }
}

} // verus!
