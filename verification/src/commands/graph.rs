use vstd::prelude::*;
use crate::markdown::{extract_unique_links, links, sorted_distinct};
use crate::sorting::{
    distinct_sorted, lemma_distinct_sorted, lemma_sorted_insert, lemma_strictly_sorted_unique,
    strict_total, strictly_sorted,
};
use crate::text::{
    char_vecs, chars_of, is_digit, lemma_text_lt_irreflexive, lemma_text_lt_total, lemma_text_lt_transitive,
    lemma_text_order_strict_total, owned, string_of, strings_of, strs, text_eq, text_less, text_lt,
    text_order,
};

verus! {

broadcast use vstd::seq_lib::group_seq_properties;

/// A term relationship graph: its terms and its links between them.
pub struct AdjacencyList {
    pub nodes: Vec<String>,
    pub edges: Vec<(String, String)>,
}

pub open spec fn filter_view(f: Option<&Vec<String>>) -> Option<Seq<Seq<char>>> {
    match f {
        Some(v) => Some(strs(v@)),
        None => None,
    }
}

/// A term passes the ring filter: there is none, or it lists the term.
pub open spec fn allows(filter: Option<Seq<Seq<char>>>, term: Seq<char>) -> bool {
    match filter {
        Some(ts) => ts.contains(term),
        None => true,
    }
}

/// Whether a term passes the ring filter.
pub fn ring_filter_allows(filter: Option<&Vec<String>>, term: &str) -> (r: bool)
    ensures
        r == allows(filter_view(filter), term@),
{
    match filter {
        None => true,
        Some(v) => {
            let t = owned(term);
            let mut i: usize = 0;
            while i < v.len()
                invariant
                    i <= v@.len(),
                    t@ == term@,
                    filter_view(filter) == Some(strs(v@)),
                    forall|j: int| 0 <= j < i ==> #[trigger] strs(v@)[j] != term@,
                decreases v.len() - i,
            {
                if v[i] == t {
                    assert(strs(v@)[i as int] == term@);
                    assert(strs(v@).contains(term@));
                    return true;
                }
                i = i + 1;
            }
            false
        },
    }
}

/// (term, content) pairs as plain values.
pub open spec fn file_pairs(v: Seq<(String, String)>) -> Seq<(Seq<char>, Seq<char>)> {
    v.map_values(|p: (String, String)| (p.0@, p.1@))
}

/// The terms of the files that pass the filter, in file order.
pub open spec fn node_terms(files: Seq<(Seq<char>, Seq<char>)>, filter: Option<Seq<Seq<char>>>) -> Seq<
    Seq<char>,
>
    decreases files.len(),
{
    if files.len() == 0 {
        seq![]
    } else {
        node_terms(files.drop_last(), filter) + if allows(filter, files.last().0) {
            seq![files.last().0]
        } else {
            seq![]
        }
    }
}

/// The links of one file that count as edges: to existing terms that pass the filter.
pub open spec fn edges_of(
    term: Seq<char>,
    content: Seq<char>,
    existing: Seq<Seq<char>>,
    filter: Option<Seq<Seq<char>>>,
) -> Seq<(Seq<char>, Seq<char>)> {
    distinct_sorted(links(content), text_order()).filter(edge_target(existing, filter)).map_values(
        edge_from(term),
    )
}

/// A linked term that makes an edge: it exists and passes the filter.
pub open spec fn edge_target(existing: Seq<Seq<char>>, filter: Option<Seq<Seq<char>>>) -> spec_fn(
    Seq<char>,
) -> bool {
    |l: Seq<char>| existing.contains(l) && allows(filter, l)
}

pub open spec fn edge_from(term: Seq<char>) -> spec_fn(Seq<char>) -> (Seq<char>, Seq<char>) {
    |l: Seq<char>| (term, l)
}

/// The edges of all files that pass the filter, in file order.
pub open spec fn edge_list(
    files: Seq<(Seq<char>, Seq<char>)>,
    existing: Seq<Seq<char>>,
    filter: Option<Seq<Seq<char>>>,
) -> Seq<(Seq<char>, Seq<char>)>
    decreases files.len(),
{
    if files.len() == 0 {
        seq![]
    } else {
        edge_list(files.drop_last(), existing, filter) + if allows(filter, files.last().0) {
            edges_of(files.last().0, files.last().1, existing, filter)
        } else {
            seq![]
        }
    }
}

/// The order of (from, to) pairs: by `from`, then by `to`.
pub open spec fn pair_order() -> spec_fn((Seq<char>, Seq<char>), (Seq<char>, Seq<char>)) -> bool {
    |a: (Seq<char>, Seq<char>), b: (Seq<char>, Seq<char>)|
        text_lt(a.0, b.0) || (a.0 == b.0 && text_lt(a.1, b.1))
}

pub proof fn lemma_pair_order_strict_total()
    ensures
        strict_total(pair_order()),
{
    let lt = pair_order();
    assert forall|a: (Seq<char>, Seq<char>)| !#[trigger] lt(a, a) by {
        lemma_text_lt_irreflexive(a.0);
        lemma_text_lt_irreflexive(a.1);
    }
    assert forall|a: (Seq<char>, Seq<char>), b: (Seq<char>, Seq<char>), c: (Seq<char>, Seq<char>)|
        #[trigger] lt(a, b) && #[trigger] lt(b, c) implies lt(a, c) by {
        if text_lt(a.0, b.0) && text_lt(b.0, c.0) {
            lemma_text_lt_transitive(a.0, b.0, c.0);
        }
        lemma_text_lt_irreflexive(a.0);
        lemma_text_lt_irreflexive(b.0);
        if a.0 == b.0 && b.0 == c.0 {
            lemma_text_lt_transitive(a.1, b.1, c.1);
        }
    }
    assert forall|a: (Seq<char>, Seq<char>), b: (Seq<char>, Seq<char>)|
        #![trigger lt(a, b)]
        #![trigger lt(b, a)]
        a != b implies lt(a, b) || lt(b, a) by {
        if a.0 != b.0 {
            lemma_text_lt_total(a.0, b.0);
        } else {
            lemma_text_lt_total(a.1, b.1);
        }
    }
}

pub open spec fn pair_vecs(v: Seq<(Vec<char>, Vec<char>)>) -> Seq<(Seq<char>, Seq<char>)> {
    v.map_values(|p: (Vec<char>, Vec<char>)| (p.0@, p.1@))
}

pub open spec fn string_pairs(v: Seq<(String, String)>) -> Seq<(Seq<char>, Seq<char>)> {
    v.map_values(|p: (String, String)| (p.0@, p.1@))
}

fn pair_less(a: &(Vec<char>, Vec<char>), b: &(Vec<char>, Vec<char>)) -> (r: bool)
    ensures
        r == pair_order()((a.0@, a.1@), (b.0@, b.1@)),
{
    text_less(a.0.as_slice(), b.0.as_slice()) || (text_eq(a.0.as_slice(), b.0.as_slice())
        && text_less(a.1.as_slice(), b.1.as_slice()))
}

/// The distinct pairs of `v`, in increasing order.
fn sorted_distinct_pairs(v: Vec<(Vec<char>, Vec<char>)>) -> (r: Vec<(Vec<char>, Vec<char>)>)
    ensures
        pair_vecs(r@) == distinct_sorted(pair_vecs(v@), pair_order()),
{
    proof {
        lemma_pair_order_strict_total();
    }
    let ghost src = pair_vecs(v@);
    let mut res: Vec<(Vec<char>, Vec<char>)> = Vec::new();
    let mut rest = v;
    let mut i: usize = 0;
    let n = rest.len();
    while i < n
        invariant
            i <= n == rest@.len(),
            src == pair_vecs(rest@),
            strict_total(pair_order()),
            strictly_sorted(pair_vecs(res@), pair_order()),
            forall|x: (Seq<char>, Seq<char>)| #[trigger] pair_vecs(res@).contains(x) <==> src.take(
                i as int,
            ).contains(x),
        decreases n - i,
    {
        let x = (rest[i].0.clone(), rest[i].1.clone());
        let ghost xs = (x.0@, x.1@);
        assert(src[i as int] == xs);
        assert(src.take(i + 1) =~= src.take(i as int).push(xs));
        let mut p: usize = 0;
        while p < res.len() && pair_less(&res[p], &x)
            invariant
                p <= res@.len(),
                xs == (x.0@, x.1@),
                forall|j: int| 0 <= j < p ==> pair_order()(#[trigger] pair_vecs(res@)[j], xs),
            decreases res.len() - p,
        {
            assert(pair_vecs(res@)[p as int] == (res@[p as int].0@, res@[p as int].1@));
            p = p + 1;
        }
        let ghost before = pair_vecs(res@);
        if p < res.len() && text_eq(res[p].0.as_slice(), x.0.as_slice()) && text_eq(
            res[p].1.as_slice(),
            x.1.as_slice(),
        ) {
            assert(before[p as int] == (res@[p as int].0@, res@[p as int].1@));
            assert(before[p as int] == xs);
        } else {
            proof {
                if p < res.len() {
                    assert(before[p as int] == (res@[p as int].0@, res@[p as int].1@));
                    assert(before[p as int] != xs);
                }
                lemma_sorted_insert(before, pair_order(), xs, p as int);
            }
            res.insert(p, x);
            assert(pair_vecs(res@) =~= before.insert(p as int, xs));
        }
        i = i + 1;
    }
    assert(src.take(n as int) =~= src);
    proof {
        lemma_distinct_sorted(src, pair_order());
        lemma_strictly_sorted_unique(pair_vecs(res@), distinct_sorted(src, pair_order()), pair_order());
    }
    res
}


fn string_listed(v: &Vec<String>, t: &String) -> (r: bool)
    ensures
        r == strs(v@).contains(t@),
{
    let mut i: usize = 0;
    while i < v.len()
        invariant
            i <= v@.len(),
            forall|j: int| 0 <= j < i ==> #[trigger] strs(v@)[j] != t@,
        decreases v.len() - i,
    {
        if v[i] == *t {
            assert(strs(v@)[i as int] == t@);
            return true;
        }
        i = i + 1;
    }
    false
}

/// Build the term relationship graph of the given files (term, content):
/// the terms that pass the ring filter, and an edge from each such term to
/// each term it links to that exists and passes the filter; both sorted,
/// without repeats.
pub fn build_graph(
    existing_terms: &Vec<String>,
    files: &Vec<(String, String)>,
    ring_filter: Option<&Vec<String>>,
) -> (r: AdjacencyList)
    ensures
        strs(r.nodes@) == distinct_sorted(
            node_terms(file_pairs(files@), filter_view(ring_filter)),
            text_order(),
        ),
        string_pairs(r.edges@) == distinct_sorted(
            edge_list(file_pairs(files@), strs(existing_terms@), filter_view(ring_filter)),
            pair_order(),
        ),
{
    let ghost fs = file_pairs(files@);
    let ghost fv = filter_view(ring_filter);
    let ghost ex = strs(existing_terms@);
    let mut nodes: Vec<Vec<char>> = Vec::new();
    let mut edges: Vec<(Vec<char>, Vec<char>)> = Vec::new();
    let mut i: usize = 0;
    assert(fs.take(0) =~= Seq::<(Seq<char>, Seq<char>)>::empty());
    while i < files.len()
        invariant
            i <= files@.len(),
            fs == file_pairs(files@),
            fv == filter_view(ring_filter),
            ex == strs(existing_terms@),
            char_vecs(nodes@) == node_terms(fs.take(i as int), fv),
            pair_vecs(edges@) == edge_list(fs.take(i as int), ex, fv),
        decreases files.len() - i,
    {
        let ghost prev = fs.take(i as int);
        assert(fs.take(i + 1).drop_last() =~= prev);
        assert(fs.take(i + 1).last() == fs[i as int]);
        assert(fs[i as int] == (files@[i as int].0@, files@[i as int].1@));
        let term = &files[i].0;
        if ring_filter_allows(ring_filter, term.as_str()) {
            let ghost nbefore = char_vecs(nodes@);
            nodes.push(chars_of(term.as_str()));
            assert(char_vecs(nodes@) =~= nbefore.push(term@));
            assert(node_terms(fs.take(i + 1), fv) =~= node_terms(prev, fv) + seq![term@]);
            let links_u = extract_unique_links(files[i].1.as_str());
            let ghost u = strs(links_u@);
            let ghost g = edge_target(ex, fv);
            let ghost h = edge_from(term@);
            let ghost base = pair_vecs(edges@);
            let mut k: usize = 0;
            assert(u.take(0).filter(g) =~= Seq::<Seq<char>>::empty()) by {
                reveal(Seq::filter);
            }
            assert(pair_vecs(edges@) =~= base + u.take(0).filter(g).map_values(h));
            while k < links_u.len()
                invariant
                    k <= links_u@.len(),
                    u == strs(links_u@),
                    g == edge_target(ex, fv),
                    h == edge_from(term@),
                    ex == strs(existing_terms@),
                    fv == filter_view(ring_filter),
                    pair_vecs(edges@) == base + u.take(k as int).filter(g).map_values(h),
                decreases links_u.len() - k,
            {
                let link = &links_u[k];
                assert(u[k as int] == link@);
                assert(u.take(k + 1) =~= u.take(k as int).push(link@));
                proof {
                    u.take(k as int).lemma_filter_push(link@, g);
                }
                if string_listed(existing_terms, link) && ring_filter_allows(
                    ring_filter,
                    link.as_str(),
                ) {
                    let ghost before = pair_vecs(edges@);
                    edges.push((chars_of(term.as_str()), chars_of(link.as_str())));
                    assert(pair_vecs(edges@) =~= before.push(h(link@)));
                    assert(u.take(k + 1).filter(g).map_values(h) =~= u.take(k as int).filter(
                        g,
                    ).map_values(h).push(h(link@)));
                } else {
                    assert(u.take(k + 1).filter(g) == u.take(k as int).filter(g));
                }
                k = k + 1;
            }
            assert(u.take(links_u@.len() as int) =~= u);
            assert(edge_list(fs.take(i + 1), ex, fv) =~= edge_list(prev, ex, fv) + edges_of(
                term@,
                files@[i as int].1@,
                ex,
                fv,
            ));
        } else {
            assert(node_terms(fs.take(i + 1), fv) =~= node_terms(prev, fv));
            assert(edge_list(fs.take(i + 1), ex, fv) =~= edge_list(prev, ex, fv));
        }
        i = i + 1;
    }
    assert(fs.take(files@.len() as int) =~= fs);
    let node_set = sorted_distinct(&nodes);
    let edge_set = sorted_distinct_pairs(edges);
    let mut out_edges: Vec<(String, String)> = Vec::new();
    let mut k: usize = 0;
    while k < edge_set.len()
        invariant
            k <= edge_set@.len(),
            string_pairs(out_edges@) == pair_vecs(edge_set@).take(k as int),
        decreases edge_set.len() - k,
    {
        let ghost before = string_pairs(out_edges@);
        let a = string_of(edge_set[k].0.as_slice());
        let b = string_of(edge_set[k].1.as_slice());
        out_edges.push((a, b));
        assert(string_pairs(out_edges@) =~= before.push(pair_vecs(edge_set@)[k as int]));
        k = k + 1;
        assert(pair_vecs(edge_set@).take(k as int) =~= pair_vecs(edge_set@).take(k - 1).push(
            pair_vecs(edge_set@)[k - 1],
        ));
    }
    assert(pair_vecs(edge_set@).take(edge_set@.len() as int) =~= pair_vecs(edge_set@));
    AdjacencyList { nodes: strings_of(&node_set), edges: out_edges }
}

proof fn lemma_node_terms_contains(files: Seq<(Seq<char>, Seq<char>)>, filter: Option<Seq<Seq<char>>>, i: int)
    requires
        0 <= i < files.len(),
        allows(filter, files[i].0),
    ensures
        node_terms(files, filter).contains(files[i].0),
    decreases files.len(),
{
    let pre = node_terms(files.drop_last(), filter);
    let all = node_terms(files, filter);
    if i == files.len() - 1 {
        assert(all[pre.len() as int] == files[i].0);
    } else {
        lemma_node_terms_contains(files.drop_last(), filter, i);
        let j = choose|j: int| 0 <= j < pre.len() && pre[j] == files[i].0;
        assert(all[j] == pre[j]);
    }
}

proof fn lemma_edge_list_member(
    files: Seq<(Seq<char>, Seq<char>)>,
    existing: Seq<Seq<char>>,
    filter: Option<Seq<Seq<char>>>,
    e: (Seq<char>, Seq<char>),
)
    requires
        edge_list(files, existing, filter).contains(e),
    ensures
        exists|i: int| 0 <= i < files.len() && #[trigger] files[i].0 == e.0 && allows(filter, e.0),
        existing.contains(e.1),
        allows(filter, e.1),
    decreases files.len(),
{
    let pre = edge_list(files.drop_last(), existing, filter);
    let all = edge_list(files, existing, filter);
    let k = choose|k: int| 0 <= k < all.len() && all[k] == e;
    if k < pre.len() {
        assert(pre[k] == e);
        lemma_edge_list_member(files.drop_last(), existing, filter, e);
        let i = choose|i: int| 0 <= i < files.drop_last().len() && #[trigger] files.drop_last()[i].0 == e.0
            && allows(filter, e.0);
        assert(files[i].0 == e.0);
    } else {
        let last = files.last();
        let ds = distinct_sorted(links(last.1), text_order());
        let p = edge_target(existing, filter);
        let fl = ds.filter(p);
        let m = k - pre.len();
        assert(allows(filter, last.0));
        assert(e == (last.0, fl[m]));
        ds.lemma_filter_pred(p, m);
        assert(files[files.len() - 1].0 == e.0);
    }
}

proof fn lemma_edge_list_contains(
    files: Seq<(Seq<char>, Seq<char>)>,
    existing: Seq<Seq<char>>,
    filter: Option<Seq<Seq<char>>>,
    k: int,
    l: Seq<char>,
)
    requires
        0 <= k < files.len(),
        allows(filter, files[k].0),
        links(files[k].1).contains(l),
        existing.contains(l),
        allows(filter, l),
    ensures
        edge_list(files, existing, filter).contains((files[k].0, l)),
    decreases files.len(),
{
    let d = files.drop_last();
    let pre = edge_list(d, existing, filter);
    let all = edge_list(files, existing, filter);
    if k < files.len() - 1 {
        assert(files[k] == d[k]);
        lemma_edge_list_contains(d, existing, filter, k, l);
        let j = choose|j: int| 0 <= j < pre.len() && pre[j] == (files[k].0, l);
        assert(all[j] == pre[j]);
    } else {
        assert(files[k] == files.last());
        let last = files.last();
        lemma_text_order_strict_total();
        lemma_distinct_sorted(links(last.1), text_order());
        let ds = distinct_sorted(links(last.1), text_order());
        assert(ds.contains(l));
        let p = edge_target(existing, filter);
        let i = choose|i: int| 0 <= i < ds.len() && ds[i] == l;
        ds.lemma_filter_contains(p, i);
        let fl = ds.filter(p);
        let m = choose|m: int| 0 <= m < fl.len() && fl[m] == l;
        let es = edges_of(last.0, last.1, existing, filter);
        assert(es[m] == (last.0, l));
        assert(all[pre.len() + m] == es[m]);
    }
}

/// The graph has an edge from every term that passes the ring filter to each
/// term its file links to that exists and passes the filter, self-links
/// included.
pub proof fn law_graph_has_every_link(
    files: Seq<(Seq<char>, Seq<char>)>,
    existing: Seq<Seq<char>>,
    filter: Option<Seq<Seq<char>>>,
    k: int,
    l: Seq<char>,
)
    requires
        0 <= k < files.len(),
        allows(filter, files[k].0),
        links(files[k].1).contains(l),
        existing.contains(l),
        allows(filter, l),
    ensures
        distinct_sorted(edge_list(files, existing, filter), pair_order()).contains((files[k].0, l)),
{
    lemma_edge_list_contains(files, existing, filter, k, l);
    lemma_pair_order_strict_total();
    lemma_distinct_sorted(edge_list(files, existing, filter), pair_order());
}

/// Every term whose file passes the ring filter is a node of the graph,
/// whether or not it links anywhere.
pub proof fn law_graph_has_every_node(
    files: Seq<(Seq<char>, Seq<char>)>,
    filter: Option<Seq<Seq<char>>>,
    k: int,
)
    requires
        0 <= k < files.len(),
        allows(filter, files[k].0),
    ensures
        distinct_sorted(node_terms(files, filter), text_order()).contains(files[k].0),
{
    lemma_node_terms_contains(files, filter, k);
    lemma_text_order_strict_total();
    lemma_distinct_sorted(node_terms(files, filter), text_order());
}

/// Every edge of the graph goes from one of its nodes to an existing term,
/// and with a ring filter both ends are terms of the ring.
pub proof fn law_graph_edges_join_nodes(
    files: Seq<(Seq<char>, Seq<char>)>,
    existing: Seq<Seq<char>>,
    filter: Option<Seq<Seq<char>>>,
    e: (Seq<char>, Seq<char>),
)
    requires
        distinct_sorted(edge_list(files, existing, filter), pair_order()).contains(e),
    ensures
        distinct_sorted(node_terms(files, filter), text_order()).contains(e.0),
        existing.contains(e.1),
        allows(filter, e.0),
        allows(filter, e.1),
{
    lemma_pair_order_strict_total();
    lemma_distinct_sorted(edge_list(files, existing, filter), pair_order());
    lemma_edge_list_member(files, existing, filter, e);
    let i = choose|i: int| 0 <= i < files.len() && #[trigger] files[i].0 == e.0 && allows(filter, e.0);
    lemma_node_terms_contains(files, filter, i);
    lemma_text_order_strict_total();
    lemma_distinct_sorted(node_terms(files, filter), text_order());
}

/// A character that may start a bare DOT identifier: an ASCII letter or `_`.
pub open spec fn dot_id_start(c: char) -> bool {
    ('a' <= c && c <= 'z') || ('A' <= c && c <= 'Z') || c == '_'
}

/// A character of a bare DOT identifier.
pub open spec fn dot_id_char(c: char) -> bool {
    dot_id_start(c) || is_digit(c)
}

/// The keywords of DOT, in lower and in upper case; a bare identifier may not
/// be one of them, in any mix of cases.
pub open spec fn dot_keywords() -> Seq<(Seq<char>, Seq<char>)> {
    seq![
        ("node"@, "NODE"@),
        ("edge"@, "EDGE"@),
        ("graph"@, "GRAPH"@),
        ("digraph"@, "DIGRAPH"@),
        ("subgraph"@, "SUBGRAPH"@),
        ("strict"@, "STRICT"@),
    ]
}

/// `t` spells the word `k`, each letter in either case.
pub open spec fn spells_ignoring_case(t: Seq<char>, k: (Seq<char>, Seq<char>)) -> bool {
    &&& t.len() == k.0.len()
    &&& t.len() == k.1.len()
    &&& forall|i: int| 0 <= i < t.len() ==> #[trigger] t[i] == k.0[i] || t[i] == k.1[i]
}

pub open spec fn is_dot_keyword(t: Seq<char>) -> bool {
    exists|j: int| 0 <= j < dot_keywords().len() && spells_ignoring_case(t, #[trigger] dot_keywords()[j])
}

/// A text DOT reads as an identifier as it stands: a name of letters, `_`
/// and digits that does not start with a digit and is no keyword, or a
/// number of digits.
pub open spec fn plain_dot_id(t: Seq<char>) -> bool {
    &&& t.len() > 0
    &&& {
        ||| (dot_id_start(t[0]) && (forall|i: int| 0 <= i < t.len() ==> dot_id_char(#[trigger] t[i]))
            && !is_dot_keyword(t))
        ||| (forall|i: int| 0 <= i < t.len() ==> is_digit(#[trigger] t[i]))
    }
}

/// The text with each `"` escaped as `\"`.
pub open spec fn dot_escape(t: Seq<char>) -> Seq<char>
    decreases t.len(),
{
    if t.len() == 0 {
        seq![]
    } else {
        dot_escape(t.drop_last()) + if t.last() == '"' {
            seq!['\\', '"']
        } else {
            seq![t.last()]
        }
    }
}

/// A term as a DOT identifier: as it stands when that is a plain identifier,
/// else between double quotes.
pub open spec fn dot_id(t: Seq<char>) -> Seq<char> {
    if plain_dot_id(t) {
        t
    } else {
        seq!['"'] + dot_escape(t) + seq!['"']
    }
}

/// The DOT line of an edge.
pub open spec fn dot_edge(e: (Seq<char>, Seq<char>)) -> Seq<char> {
    "  "@ + dot_id(e.0) + " -> "@ + dot_id(e.1) + ";\n"@
}

fn spells(t: &[char], lower: &[char], upper: &[char]) -> (r: bool)
    ensures
        r == spells_ignoring_case(t@, (lower@, upper@)),
{
    if t.len() != lower.len() || t.len() != upper.len() {
        return false;
    }
    let mut i: usize = 0;
    while i < t.len()
        invariant
            i <= t@.len(),
            t@.len() == lower@.len(),
            t@.len() == upper@.len(),
            forall|j: int| 0 <= j < i ==> #[trigger] t@[j] == lower@[j] || t@[j] == upper@[j],
        decreases t.len() - i,
    {
        if !(t[i] == lower[i] || t[i] == upper[i]) {
            return false;
        }
        i = i + 1;
    }
    true
}

fn dot_keyword(t: &[char]) -> (r: bool)
    ensures
        r == is_dot_keyword(t@),
{
    let lows = [chars_of("node"), chars_of("edge"), chars_of("graph"), chars_of("digraph"), chars_of(
        "subgraph",
    ), chars_of("strict")];
    let ups = [chars_of("NODE"), chars_of("EDGE"), chars_of("GRAPH"), chars_of("DIGRAPH"), chars_of(
        "SUBGRAPH",
    ), chars_of("STRICT")];
    assert forall|m: int| 0 <= m < 6 implies ((#[trigger] lows@[m])@, ups@[m]@) == dot_keywords()[m] by {}
    let mut j: usize = 0;
    while j < 6
        invariant
            j <= 6,
            forall|m: int| 0 <= m < 6 ==> ((#[trigger] lows@[m])@, ups@[m]@) == dot_keywords()[m],
            forall|m: int| 0 <= m < j ==> !spells_ignoring_case(t@, #[trigger] dot_keywords()[m]),
        decreases 6 - j,
    {
        if spells(t, lows[j].as_slice(), ups[j].as_slice()) {
            assert(spells_ignoring_case(t@, dot_keywords()[j as int]));
            return true;
        }
        j = j + 1;
    }
    false
}

fn plain_id(t: &[char]) -> (r: bool)
    ensures
        r == plain_dot_id(t@),
{
    if t.len() == 0 {
        return false;
    }
    let mut name = true;
    let mut digits = true;
    let mut i: usize = 0;
    while i < t.len()
        invariant
            i <= t@.len(),
            name == forall|j: int| 0 <= j < i ==> dot_id_char(#[trigger] t@[j]),
            digits == forall|j: int| 0 <= j < i ==> is_digit(#[trigger] t@[j]),
        decreases t.len() - i,
    {
        let c = t[i];
        let is_d = '0' <= c && c <= '9';
        let is_start = ('a' <= c && c <= 'z') || ('A' <= c && c <= 'Z') || c == '_';
        proof {
            if !(is_start || is_d) {
                assert(!dot_id_char(t@[i as int]));
            }
            if !is_d {
                assert(!is_digit(t@[i as int]));
            }
        }
        name = name && (is_start || is_d);
        digits = digits && is_d;
        i = i + 1;
    }
    let c = t[0];
    let starts = ('a' <= c && c <= 'z') || ('A' <= c && c <= 'Z') || c == '_';
    (starts && name && !dot_keyword(t)) || digits
}

/// Appends a term as a DOT identifier.
fn push_dot_id(out: &mut String, term: &str)
    ensures
        final(out)@ == old(out)@ + dot_id(term@),
{
    let t = chars_of(term);
    if plain_id(t.as_slice()) {
        out.append(term);
        return;
    }
    let ghost base = old(out)@;
    out.push('"');
    let mut i: usize = 0;
    assert(t@.take(0) =~= Seq::<char>::empty());
    assert(out@ =~= base + seq!['"'] + dot_escape(t@.take(0)));
    while i < t.len()
        invariant
            i <= t@.len(),
            out@ == base + seq!['"'] + dot_escape(t@.take(i as int)),
        decreases t.len() - i,
    {
        assert(t@.take(i + 1).drop_last() =~= t@.take(i as int));
        assert(t@.take(i + 1).last() == t@[i as int]);
        if t[i] == '"' {
            out.push('\\');
            out.push('"');
        } else {
            out.push(t[i]);
        }
        i = i + 1;
        assert(out@ =~= base + seq!['"'] + dot_escape(t@.take(i as int)));
    }
    assert(t@.take(t@.len() as int) =~= t@);
    out.push('"');
    assert(out@ =~= base + dot_id(term@));
}

/// The DOT lines of the edges, in order.
pub open spec fn dot_edges(es: Seq<(Seq<char>, Seq<char>)>) -> Seq<char>
    decreases es.len(),
{
    if es.len() == 0 {
        seq![]
    } else {
        dot_edges(es.drop_last()) + dot_edge(es.last())
    }
}

/// The graph in DOT format, as the `graph` command prints it.
pub open spec fn dot_text(es: Seq<(Seq<char>, Seq<char>)>) -> Seq<char> {
    "digraph ontology {\n  rankdir=LR;\n  node [shape=box, style=rounded];\n\n"@ + dot_edges(es)
        + "}\n"@
}

/// Render the edges of a graph in DOT format.
#[verifier::spinoff_prover]
#[verifier::rlimit(40)]
pub fn render_dot(edges: &Vec<(String, String)>) -> (r: String)
    ensures
        r@ == dot_text(string_pairs(edges@)),
{
    let ghost es = string_pairs(edges@);
    let mut out = owned("digraph ontology {\n  rankdir=LR;\n  node [shape=box, style=rounded];\n\n");
    let ghost head = out@;
    let mut i: usize = 0;
    assert(es.take(0) =~= Seq::<(Seq<char>, Seq<char>)>::empty());
    assert(out@ =~= head + dot_edges(es.take(0)));
    while i < edges.len()
        invariant
            i <= edges@.len(),
            es == string_pairs(edges@),
            out@ == head + dot_edges(es.take(i as int)),
        decreases edges.len() - i,
    {
        assert(es.take(i + 1).drop_last() =~= es.take(i as int));
        assert(es.take(i + 1).last() == (edges@[i as int].0@, edges@[i as int].1@));
        out.append("  ");
        push_dot_id(&mut out, edges[i].0.as_str());
        out.append(" -> ");
        push_dot_id(&mut out, edges[i].1.as_str());
        out.append(";\n");
        i = i + 1;
        assert(out@ =~= head + dot_edges(es.take(i as int)));
    }
    out.append("}\n");
    assert(es.take(edges@.len() as int) =~= es);
    out
}

} // verus!
