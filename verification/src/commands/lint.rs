use vstd::prelude::*;
use crate::markdown::{
    text_key,
    extract_unique_links, first_title, heading_line, is_heading, is_title_line, links, title_line,
    title_of, section_of, first_index_from, names_heading, heading_names, h2,
    lemma_first_index_from_bounds,
};
use crate::sorting::{
    distinct_sorted, lemma_distinct_sorted, lemma_sorted_tail_above, lemma_stable_insert, stable_sort_of, strict_total,
};
use crate::text::{
    char_vecs, chars_of, decimal, lemma_text_order_strict_total, push_decimal, text_less, text_lt, contains, contains_at_any, lines, owned, split_lines, strs, text_order,
    trim, trim_bounds, lemma_strip_prefixes_suffix, lemma_contains_skip,
};

verus! {

broadcast use vstd::seq_lib::group_seq_properties;

/// Some line is a `# Title` line.
pub open spec fn has_title(content: Seq<char>) -> bool {
    exists|i: int| 0 <= i < lines(content).len() && is_title_line(#[trigger] lines(content)[i])
}

/// Some line is a `## ` heading whose trimmed text contains `name`.
pub open spec fn has_section(content: Seq<char>, name: Seq<char>) -> bool {
    exists|i: int|
        0 <= i < lines(content).len() && is_heading(#[trigger] lines(content)[i]) && contains(
            trim(lines(content)[i]),
            name,
        )
}

proof fn lemma_first_title_some(ls: Seq<Seq<char>>)
    ensures
        first_title(ls) is Some <==> exists|i: int| 0 <= i < ls.len() && is_title_line(#[trigger] ls[i]),
    decreases ls.len(),
{
    if ls.len() > 0 {
        let t = ls.drop_first();
        lemma_first_title_some(t);
        if is_title_line(ls[0]) {
            assert(is_title_line(ls[0]));
        } else {
            if exists|i: int| 0 <= i < ls.len() && is_title_line(#[trigger] ls[i]) {
                let i = choose|i: int| 0 <= i < ls.len() && is_title_line(#[trigger] ls[i]);
                assert(t[i - 1] == ls[i]);
            }
            if exists|i: int| 0 <= i < t.len() && is_title_line(#[trigger] t[i]) {
                let i = choose|i: int| 0 <= i < t.len() && is_title_line(#[trigger] t[i]);
                assert(ls[i + 1] == t[i]);
            }
        }
    }
}

/// A node has a title to parse exactly when lint finds its `# Title` line.
pub proof fn law_title_found_iff_title_line(content: Seq<char>)
    ensures
        title_of(content) is Some <==> has_title(content),
{
    lemma_first_title_some(lines(content));
}

/// A section that parsing finds is one that lint sees: its heading line
/// mentions the section's name.
pub proof fn law_found_section_is_seen(content: Seq<char>, name: Seq<char>)
    requires
        section_of(content, name) is Some,
    ensures
        has_section(content, name),
{
    let ls = lines(content);
    let first = first_index_from(ls, names_heading(name), 0);
    lemma_first_index_from_bounds(ls, names_heading(name), 0);
    assert(heading_names(ls[first], name));
    let k = lemma_strip_prefixes_suffix(trim(ls[first]), h2());
    lemma_contains_skip(trim(ls[first]), k, name);
}

/// The report on a link to a term that has no file.
pub open spec fn broken_link_message(link: Seq<char>, filename: Seq<char>) -> Seq<char> {
    "Broken link: ["@ + link + "](./"@ + link + ".md) — file src/"@ + link
        + ".md not found (referenced in "@ + filename + ")"@
}

pub open spec fn not_existing(existing: Seq<Seq<char>>) -> spec_fn(Seq<char>) -> bool {
    |l: Seq<char>| !existing.contains(l)
}

pub open spec fn broken_message_for(filename: Seq<char>) -> spec_fn(Seq<char>) -> Seq<char> {
    |l: Seq<char>| broken_link_message(l, filename)
}

/// One error per missing required part, then one per distinct linked term
/// (in increasing order) that is not among the existing terms.
#[verifier::opaque]
pub open spec fn lint_errors(content: Seq<char>, filename: Seq<char>, existing: Seq<Seq<char>>) -> Seq<
    Seq<char>,
> {
    (if has_title(content) {
        seq![]
    } else {
        seq!["Missing title (# Term)"@]
    }) + (if has_section(content, "Ontology"@) {
        seq![]
    } else {
        seq!["Missing required section: ## [Ontology]"@]
    }) + (if has_section(content, "Axiology"@) {
        seq![]
    } else {
        seq!["Missing required section: ## [Axiology]"@]
    }) + (if has_section(content, "Epistemology"@) {
        seq![]
    } else {
        seq!["Missing required section: ## [Epistemology]"@]
    }) + distinct_sorted(links(content), text_order()).filter(not_existing(existing)).map_values(
        broken_message_for(filename),
    )
}

fn any_title_line(ls: &Vec<Vec<char>>) -> (r: bool)
    ensures
        r == exists|i: int| 0 <= i < ls@.len() && is_title_line(#[trigger] char_vecs(ls@)[i]),
{
    let mut i: usize = 0;
    while i < ls.len()
        invariant
            i <= ls@.len(),
            forall|j: int| 0 <= j < i ==> !is_title_line(#[trigger] char_vecs(ls@)[j]),
        decreases ls.len() - i,
    {
        assert(char_vecs(ls@)[i as int] == ls@[i as int]@);
        if title_line(ls[i].as_slice()) {
            return true;
        }
        i = i + 1;
    }
    false
}

fn any_section_line(ls: &Vec<Vec<char>>, name: &[char]) -> (r: bool)
    ensures
        r == exists|i: int|
            0 <= i < ls@.len() && is_heading(#[trigger] char_vecs(ls@)[i]) && contains(
                trim(char_vecs(ls@)[i]),
                name@,
            ),
{
    let mut i: usize = 0;
    while i < ls.len()
        invariant
            i <= ls@.len(),
            forall|j: int|
                0 <= j < i ==> !(is_heading(#[trigger] char_vecs(ls@)[j]) && contains(
                    trim(char_vecs(ls@)[j]),
                    name@,
                )),
        decreases ls.len() - i,
    {
        assert(char_vecs(ls@)[i as int] == ls@[i as int]@);
        let l = ls[i].as_slice();
        if heading_line(l) {
            let (lo, hi) = trim_bounds(l);
            if contains_at_any(&l[lo..hi], name) {
                return true;
            }
        }
        i = i + 1;
    }
    false
}

fn term_exists(existing: &[String], t: &String) -> (r: bool)
    ensures
        r == strs(existing@).contains(t@),
{
    let mut i: usize = 0;
    while i < existing.len()
        invariant
            i <= existing@.len(),
            forall|j: int| 0 <= j < i ==> #[trigger] strs(existing@)[j] != t@,
        decreases existing.len() - i,
    {
        if existing[i] == *t {
            assert(strs(existing@)[i as int] == t@);
            return true;
        }
        i = i + 1;
    }
    false
}

/// The report on a broken link.
pub fn broken_link_error(link: &str, filename: &str) -> (r: String)
    ensures
        r@ == broken_link_message(link@, filename@),
{
    let mut m = owned("Broken link: [");
    m.append(link);
    m.append("](./");
    m.append(link);
    m.append(".md) — file src/");
    m.append(link);
    m.append(".md not found (referenced in ");
    m.append(filename);
    m.append(")");
    m
}

/// Check a node's text: a `# Title` line, the three required sections, and
/// that every linked term is among the existing terms.
pub fn lint_content(content: &str, filename: &str, existing_terms: &[String]) -> (r: Vec<String>)
    ensures
        strs(r@) == lint_errors(content@, filename@, strs(existing_terms@)),
{
    let cs = chars_of(content);
    let ls = split_lines(cs.as_slice());
    let ghost all = lines(content@);
    let mut errors: Vec<String> = Vec::new();
    let ghost e0 = strs(errors@);
    if !any_title_line(&ls) {
        errors.push(owned("Missing title (# Term)"));
    }
    let ghost e1 = strs(errors@);
    assert(e1 =~= (if has_title(content@) { seq![] } else { seq!["Missing title (# Term)"@] }));
    let n_ont = chars_of("Ontology");
    if !any_section_line(&ls, n_ont.as_slice()) {
        errors.push(owned("Missing required section: ## [Ontology]"));
    }
    let ghost e2 = strs(errors@);
    assert(e2 =~= e1 + (if has_section(content@, "Ontology"@) {
        seq![]
    } else {
        seq!["Missing required section: ## [Ontology]"@]
    }));
    let n_axi = chars_of("Axiology");
    if !any_section_line(&ls, n_axi.as_slice()) {
        errors.push(owned("Missing required section: ## [Axiology]"));
    }
    let ghost e3 = strs(errors@);
    assert(e3 =~= e2 + (if has_section(content@, "Axiology"@) {
        seq![]
    } else {
        seq!["Missing required section: ## [Axiology]"@]
    }));
    let n_epi = chars_of("Epistemology");
    if !any_section_line(&ls, n_epi.as_slice()) {
        errors.push(owned("Missing required section: ## [Epistemology]"));
    }
    let ghost e4 = strs(errors@);
    assert(e4 =~= e3 + (if has_section(content@, "Epistemology"@) {
        seq![]
    } else {
        seq!["Missing required section: ## [Epistemology]"@]
    }));
    let links_u = extract_unique_links(content);
    let ghost u = strs(links_u@);
    let ghost f = not_existing(strs(existing_terms@));
    let ghost g = broken_message_for(filename@);
    let mut k: usize = 0;
    assert(u.take(0).filter(f) =~= Seq::<Seq<char>>::empty()) by {
        reveal(Seq::filter);
    }
    assert(strs(errors@) =~= e4 + u.take(0).filter(f).map_values(g));
    while k < links_u.len()
        invariant
            k <= links_u@.len(),
            u == strs(links_u@),
            f == not_existing(strs(existing_terms@)),
            g == broken_message_for(filename@),
            strs(errors@) == e4 + u.take(k as int).filter(f).map_values(g),
        decreases links_u.len() - k,
    {
        let link = &links_u[k];
        assert(u.take(k + 1) =~= u.take(k as int).push(link@));
        proof {
            u.take(k as int).lemma_filter_push(link@, f);
        }
        if !term_exists(existing_terms, link) {
            let ghost before = strs(errors@);
            errors.push(broken_link_error(link.as_str(), filename));
            assert(strs(errors@) =~= before.push(g(link@)));
            assert(u.take(k + 1).filter(f).map_values(g) =~= u.take(k as int).filter(f).map_values(
                g,
            ).push(g(link@)));
        } else {
            assert(u.take(k + 1).filter(f) == u.take(k as int).filter(f));
        }
        k = k + 1;
    }
    assert(u.take(links_u@.len() as int) =~= u);
    proof {
        reveal(lint_errors);
    }
    assert(strs(errors@) =~= lint_errors(content@, filename@, strs(existing_terms@)));
    errors
}

/// The errors that come before the broken links: one per missing part.
pub open spec fn missing_part_errors(content: Seq<char>) -> Seq<Seq<char>> {
    (if has_title(content) {
        seq![]
    } else {
        seq!["Missing title (# Term)"@]
    }) + (if has_section(content, "Ontology"@) {
        seq![]
    } else {
        seq!["Missing required section: ## [Ontology]"@]
    }) + (if has_section(content, "Axiology"@) {
        seq![]
    } else {
        seq!["Missing required section: ## [Axiology]"@]
    }) + (if has_section(content, "Epistemology"@) {
        seq![]
    } else {
        seq!["Missing required section: ## [Epistemology]"@]
    })
}

/// The broken-link errors of a node, in the order of the terms.
pub open spec fn broken_link_errors(content: Seq<char>, filename: Seq<char>, existing: Seq<Seq<char>>) -> Seq<
    Seq<char>,
> {
    distinct_sorted(links(content), text_order()).filter(not_existing(existing)).map_values(
        broken_message_for(filename),
    )
}

proof fn lemma_lint_errors_split(content: Seq<char>, filename: Seq<char>, existing: Seq<Seq<char>>)
    ensures
        lint_errors(content, filename, existing) == missing_part_errors(content)
            + broken_link_errors(content, filename, existing),
{
    reveal(lint_errors);
}

/// The report on a broken link names the link: two links give two reports.
proof fn lemma_broken_link_message_injective(a: Seq<char>, b: Seq<char>, filename: Seq<char>)
    requires
        broken_link_message(a, filename) == broken_link_message(b, filename),
    ensures
        a == b,
{
    reveal_strlit("Broken link: [");
    reveal_strlit("](./");
    reveal_strlit(".md) — file src/");
    reveal_strlit(".md not found (referenced in ");
    reveal_strlit(")");
    let ma = broken_link_message(a, filename);
    let mb = broken_link_message(b, filename);
    assert(ma.len() == 3 * a.len() + filename.len() + 64);
    assert(mb.len() == 3 * b.len() + filename.len() + 64);
    assert(a.len() == b.len());
    assert(ma.subrange(14, 14 + a.len() as int) =~= a);
    assert(mb.subrange(14, 14 + b.len() as int) =~= b);
}

/// A node passes lint exactly when it has a `# Title` line, the three
/// required sections, and every term it links to is an existing term.
pub proof fn law_lint_clean(content: Seq<char>, filename: Seq<char>, existing: Seq<Seq<char>>)
    ensures
        lint_errors(content, filename, existing).len() == 0 <==> {
            &&& has_title(content)
            &&& has_section(content, "Ontology"@)
            &&& has_section(content, "Axiology"@)
            &&& has_section(content, "Epistemology"@)
            &&& forall|l: Seq<char>| #[trigger] links(content).contains(l) ==> existing.contains(l)
        },
{
    lemma_lint_errors_split(content, filename, existing);
    lemma_text_order_strict_total();
    let ls = links(content);
    lemma_distinct_sorted(ls, text_order());
    let ds = distinct_sorted(ls, text_order());
    let p = not_existing(existing);
    if forall|l: Seq<char>| #[trigger] ls.contains(l) ==> existing.contains(l) {
        assert forall|i: int| 0 <= i < ds.len() implies (|x: Seq<char>| !p(x))(#[trigger] ds[i]) by {
            assert(ds.contains(ds[i]));
            assert(ls.contains(ds[i]));
        }
        ds.lemma_all_neg_filter_empty(p);
    } else {
        let l = choose|l: Seq<char>| ls.contains(l) && !existing.contains(l);
        assert(ds.contains(l));
        let i = choose|i: int| 0 <= i < ds.len() && ds[i] == l;
        ds.lemma_filter_contains(p, i);
        assert(ds.filter(p).len() > 0);
    }
}

/// A node's lint errors report a broken link to a term exactly when the node
/// links to that term and the term is not among the existing terms.
pub proof fn law_broken_link_reported(
    content: Seq<char>,
    filename: Seq<char>,
    existing: Seq<Seq<char>>,
    link: Seq<char>,
)
    ensures
        lint_errors(content, filename, existing).contains(broken_link_message(link, filename))
            <==> (links(content).contains(link) && !existing.contains(link)),
{
    lemma_lint_errors_split(content, filename, existing);
    lemma_text_order_strict_total();
    let ls = links(content);
    lemma_distinct_sorted(ls, text_order());
    let ds = distinct_sorted(ls, text_order());
    let p = not_existing(existing);
    let fl = ds.filter(p);
    let g = broken_message_for(filename);
    let bl = fl.map_values(g);
    let mp = missing_part_errors(content);
    let all = lint_errors(content, filename, existing);
    let m = broken_link_message(link, filename);
    assert(all == mp + bl);
    if ls.contains(link) && !existing.contains(link) {
        assert(ds.contains(link));
        let i = choose|i: int| 0 <= i < ds.len() && ds[i] == link;
        ds.lemma_filter_contains(p, i);
        let k = choose|k: int| 0 <= k < fl.len() && fl[k] == link;
        assert(bl[k] == m);
        assert(all[mp.len() + k] == m);
    }
    if all.contains(m) {
        let j = choose|j: int| 0 <= j < all.len() && all[j] == m;
        reveal_strlit("Broken link: [");
        reveal_strlit("Missing title (# Term)");
        reveal_strlit("Missing required section: ## [Ontology]");
        reveal_strlit("Missing required section: ## [Axiology]");
        reveal_strlit("Missing required section: ## [Epistemology]");
        assert(m[0] == 'B');
        if j < mp.len() {
            assert(mp[j][0] == 'M');
            assert(false);
        }
        let k = j - mp.len();
        assert(bl[k] == m);
        lemma_broken_link_message_injective(fl[k], link, filename);
        ds.lemma_filter_pred(p, k);
        assert(fl.contains(link));
        ds.lemma_filter_contains_rev(p, link);
    }
}


// ---------------------------------------------------------------------------
// Reports
// ---------------------------------------------------------------------------

/// Lint result for a single node file.
pub struct LintResult {
    pub file: String,
    pub errors: Vec<String>,
}

/// A lint result as plain values: (file, errors).
pub open spec fn lint_result_view(r: LintResult) -> (Seq<char>, Seq<Seq<char>>) {
    (r.file@, strs(r.errors@))
}

pub open spec fn lint_result_views(v: Seq<LintResult>) -> Seq<(Seq<char>, Seq<Seq<char>>)> {
    v.map_values(|r: LintResult| lint_result_view(r))
}

/// (name, content) pairs as plain values.
pub open spec fn named_texts(v: Seq<(String, String)>) -> Seq<(Seq<char>, Seq<char>)> {
    v.map_values(|p: (String, String)| (p.0@, p.1@))
}

/// The files that have errors, with their errors, in the given order.
pub open spec fn lint_list(files: Seq<(Seq<char>, Seq<char>)>, existing: Seq<Seq<char>>) -> Seq<
    (Seq<char>, Seq<Seq<char>>),
>
    decreases files.len(),
{
    if files.len() == 0 {
        seq![]
    } else {
        let f = files.last();
        let errs = lint_errors(f.1, f.0, existing);
        lint_list(files.drop_last(), existing) + if errs.len() > 0 {
            seq![(f.0, errs)]
        } else {
            seq![]
        }
    }
}

/// Lint the files (name, content), in the order given; keep those with errors.
pub fn lint_files(files: &Vec<(String, String)>, existing_terms: &[String]) -> (r: Vec<LintResult>)
    ensures
        lint_result_views(r@) == lint_list(named_texts(files@), strs(existing_terms@)),
{
    let ghost fs = named_texts(files@);
    let mut results: Vec<LintResult> = Vec::new();
    let mut i: usize = 0;
    assert(fs.take(0) =~= Seq::<(Seq<char>, Seq<char>)>::empty());
    while i < files.len()
        invariant
            i <= files@.len(),
            fs == named_texts(files@),
            lint_result_views(results@) == lint_list(fs.take(i as int), strs(existing_terms@)),
        decreases files.len() - i,
    {
        assert(fs.take(i + 1).drop_last() =~= fs.take(i as int));
        assert(fs.take(i + 1).last() == (files@[i as int].0@, files@[i as int].1@));
        let errors = lint_content(files[i].1.as_str(), files[i].0.as_str(), existing_terms);
        if errors.len() > 0 {
            let ghost before = lint_result_views(results@);
            let item = LintResult { file: files[i].0.clone(), errors };
            let ghost x = lint_result_view(item);
            results.push(item);
            assert(lint_result_views(results@) =~= before.push(x));
        }
        i = i + 1;
    }
    assert(fs.take(files@.len() as int) =~= fs);
    results
}

/// File names sorted (as paths in one directory sort).
pub fn sorted_names(names: &Vec<String>) -> (r: Vec<String>)
    ensures
        stable_sort_of(strs(r@), strs(names@), text_key(), text_order()),
{
    proof {
        lemma_text_order_strict_total();
    }
    let ghost src = strs(names@);
    let mut res: Vec<String> = Vec::new();
    let mut i: usize = 0;
    assert(src.take(0) =~= Seq::<Seq<char>>::empty());
    assert(stable_sort_of(strs(res@), src.take(0), text_key(), text_order())) by {
        assert(strs(res@) =~= Seq::<Seq<char>>::empty());
    }
    while i < names.len()
        invariant
            i <= names@.len(),
            src == strs(names@),
            strict_total(text_order()),
            stable_sort_of(strs(res@), src.take(i as int), text_key(), text_order()),
        decreases names.len() - i,
    {
        let x = names[i].clone();
        let xc = chars_of(x.as_str());
        let ghost xs = x@;
        assert(src.take(i + 1) =~= src.take(i as int).push(xs));
        let mut p: usize = 0;
        while p < res.len() && !text_less(xc.as_slice(), chars_of(res[p].as_str()).as_slice())
            invariant
                p <= res@.len(),
                xs == xc@,
                forall|j: int| 0 <= j < p ==> !text_lt(xs, #[trigger] strs(res@)[j]),
            decreases res.len() - p,
        {
            p = p + 1;
        }
        let ghost before = strs(res@);
        proof {
            if p < res.len() {
                lemma_sorted_tail_above(before, text_key(), text_order(), xs, p as int);
            }
            lemma_stable_insert(before, src.take(i as int), text_key(), text_order(), xs, p as int);
        }
        res.insert(p, x);
        assert(strs(res@) =~= before.insert(p as int, xs));
        i = i + 1;
    }
    assert(src.take(names@.len() as int) =~= src);
    res
}

/// One `  - error` line per error.
pub open spec fn error_lines(errs: Seq<Seq<char>>) -> Seq<char>
    decreases errs.len(),
{
    if errs.len() == 0 {
        seq![]
    } else {
        error_lines(errs.drop_last()) + "  - "@ + errs.last() + "\n"@
    }
}

/// The report blocks of the results, each `file:`, its errors, a blank line.
pub open spec fn result_blocks(rs: Seq<(Seq<char>, Seq<Seq<char>>)>) -> Seq<char>
    decreases rs.len(),
{
    if rs.len() == 0 {
        seq![]
    } else {
        result_blocks(rs.drop_last()) + rs.last().0 + ":\n"@ + error_lines(rs.last().1) + "\n"@
    }
}

/// The number of errors over all results.
pub open spec fn total_errors(rs: Seq<(Seq<char>, Seq<Seq<char>>)>) -> nat
    decreases rs.len(),
{
    if rs.len() == 0 {
        0
    } else {
        total_errors(rs.drop_last()) + rs.last().1.len()
    }
}

/// What `lint` prints for a directory, and its outcome: an error (exit code 1)
/// when some file has errors.
pub open spec fn directory_report(rs: Seq<(Seq<char>, Seq<Seq<char>>)>) -> (Seq<char>, Result<(), Seq<char>>) {
    if rs.len() == 0 {
        ("All nodes pass lint checks.\n"@, Ok(()))
    } else {
        (
            result_blocks(rs) + decimal(total_errors(rs)) + " error(s) in "@ + decimal(rs.len())
                + " file(s).\n"@,
            Err(decimal(total_errors(rs)) + " lint error(s) found"@),
        )
    }
}

/// A file that lint finds errors in.
pub open spec fn fails_lint(existing: Seq<Seq<char>>) -> spec_fn((Seq<char>, Seq<char>)) -> bool {
    |f: (Seq<char>, Seq<char>)| lint_errors(f.1, f.0, existing).len() > 0
}

/// Linting a directory reports every file that has errors, with exactly its
/// errors, and only such files: one result per failing file.
pub proof fn law_lint_reports_every_failing_file(files: Seq<(Seq<char>, Seq<char>)>, existing: Seq<Seq<char>>)
    ensures
        forall|i: int|
            0 <= i < files.len() && lint_errors(files[i].1, files[i].0, existing).len() > 0
                ==> #[trigger] lint_list(files, existing).contains(
                (files[i].0, lint_errors(files[i].1, files[i].0, existing)),
            ),
        forall|x: (Seq<char>, Seq<Seq<char>>)|
            #[trigger] lint_list(files, existing).contains(x) ==> x.1.len() > 0 && exists|i: int|
                0 <= i < files.len() && #[trigger] files[i].0 == x.0 && x.1 == lint_errors(
                    files[i].1,
                    files[i].0,
                    existing,
                ),
        lint_list(files, existing).len() == files.filter(fails_lint(existing)).len(),
    decreases files.len(),
{
    let p = fails_lint(existing);
    if files.len() == 0 {
        assert(files.filter(p) =~= Seq::<(Seq<char>, Seq<char>)>::empty()) by {
            reveal(Seq::filter);
        }
    } else {
        let d = files.drop_last();
        law_lint_reports_every_failing_file(d, existing);
        assert(files =~= d.push(files.last()));
        d.lemma_filter_push(files.last(), p);
        let pre = lint_list(d, existing);
        let all = lint_list(files, existing);
        assert forall|i: int|
            0 <= i < files.len() && lint_errors(files[i].1, files[i].0, existing).len() > 0
                implies #[trigger] lint_list(files, existing).contains(
                (files[i].0, lint_errors(files[i].1, files[i].0, existing)),
            ) by {
            if i < files.len() - 1 {
                assert(files[i] == d[i]);
                let x = (d[i].0, lint_errors(d[i].1, d[i].0, existing));
                assert(pre.contains(x));
                let j = choose|j: int| 0 <= j < pre.len() && pre[j] == x;
                assert(all[j] == pre[j]);
            } else {
                assert(files[i] == files.last());
                assert(all[pre.len() as int] == (files[i].0, lint_errors(files[i].1, files[i].0, existing)));
            }
        }
        assert forall|x: (Seq<char>, Seq<Seq<char>>)| #[trigger] lint_list(files, existing).contains(x) implies x.1.len()
            > 0 && exists|i: int|
            0 <= i < files.len() && #[trigger] files[i].0 == x.0 && x.1 == lint_errors(
                files[i].1,
                files[i].0,
                existing,
            ) by {
            let j = choose|j: int| 0 <= j < all.len() && all[j] == x;
            if j < pre.len() {
                assert(pre[j] == x);
                assert(pre.contains(x));
                let i = choose|i: int|
                    0 <= i < d.len() && #[trigger] d[i].0 == x.0 && x.1 == lint_errors(d[i].1, d[i].0, existing);
                assert(files[i] == d[i]);
            } else {
                let i = files.len() - 1;
                assert(files[i] == files.last());
            }
        }
    }
}

/// A directory passes lint (exit code 0) exactly when every one of its
/// files does.
pub proof fn law_directory_clean(files: Seq<(Seq<char>, Seq<char>)>, existing: Seq<Seq<char>>)
    ensures
        directory_report(lint_list(files, existing)).1 is Ok <==> forall|i: int|
            0 <= i < files.len() ==> #[trigger] lint_errors(files[i].1, files[i].0, existing).len() == 0,
    decreases files.len(),
{
    if files.len() > 0 {
        let pre = files.drop_last();
        law_directory_clean(pre, existing);
        let last = files.len() - 1;
        assert(files[last] == files.last());
        assert forall|i: int| 0 <= i < pre.len() implies #[trigger] pre[i] == files[i] by {}
        if lint_list(pre, existing).len() > 0 {
            let i = choose|i: int| 0 <= i < pre.len() && #[trigger] lint_errors(pre[i].1, pre[i].0, existing).len() != 0;
            assert(lint_errors(files[i].1, files[i].0, existing).len() != 0);
        }
        if lint_errors(files[last].1, files[last].0, existing).len() == 0 && lint_list(pre, existing).len() == 0 {
            assert forall|i: int| 0 <= i < files.len() implies #[trigger] lint_errors(files[i].1, files[i].0, existing).len() == 0 by {
                if i < last {
                    assert(lint_errors(pre[i].1, pre[i].0, existing).len() == 0);
                }
            }
        }
    }
}

pub open spec fn report_view(r: (String, Result<(), String>)) -> (Seq<char>, Result<(), Seq<char>>) {
    (r.0@, match r.1 {
        Ok(()) => Ok(()),
        Err(e) => Err(e@),
    })
}

fn push_error_lines(out: &mut String, errs: &Vec<String>)
    ensures
        final(out)@ == old(out)@ + error_lines(strs(errs@)),
{
    let ghost es = strs(errs@);
    let ghost base = out@;
    let mut i: usize = 0;
    assert(es.take(0) =~= Seq::<Seq<char>>::empty());
    assert(out@ =~= base + error_lines(es.take(0)));
    while i < errs.len()
        invariant
            i <= errs@.len(),
            es == strs(errs@),
            out@ == base + error_lines(es.take(i as int)),
        decreases errs.len() - i,
    {
        assert(es.take(i + 1).drop_last() =~= es.take(i as int));
        assert(es.take(i + 1).last() == errs@[i as int]@);
        out.append("  - ");
        out.append(errs[i].as_str());
        out.append("\n");
        i = i + 1;
        assert(out@ =~= base + error_lines(es.take(i as int)));
    }
    assert(es.take(errs@.len() as int) =~= es);
}

/// The report of linting a directory, and its outcome.
pub fn lint_report(results: &Vec<LintResult>) -> (r: (String, Result<(), String>))
    requires
        total_errors(lint_result_views(results@)) <= i32::MAX,
    ensures
        report_view(r) == directory_report(lint_result_views(results@)),
{
    let ghost rs = lint_result_views(results@);
    if results.len() == 0 {
        return (owned("All nodes pass lint checks.\n"), Ok(()));
    }
    let mut out = String::new();
    let mut total: u64 = 0;
    let mut i: usize = 0;
    assert(rs.take(0) =~= Seq::<(Seq<char>, Seq<Seq<char>>)>::empty());
    assert(out@ =~= result_blocks(rs.take(0)));
    while i < results.len()
        invariant
            i <= results@.len(),
            rs == lint_result_views(results@),
            total_errors(rs) <= i32::MAX,
            out@ == result_blocks(rs.take(i as int)),
            total == total_errors(rs.take(i as int)),
        decreases results.len() - i,
    {
        assert(rs.take(i + 1).drop_last() =~= rs.take(i as int));
        assert(rs.take(i + 1).last() == lint_result_view(results@[i as int]));
        proof {
            lemma_total_errors_prefix(rs, i + 1);
        }
        out.append(results[i].file.as_str());
        out.append(":\n");
        push_error_lines(&mut out, &results[i].errors);
        out.append("\n");
        total = total + results[i].errors.len() as u64;
        i = i + 1;
        assert(out@ =~= result_blocks(rs.take(i as int)));
    }
    assert(rs.take(results@.len() as int) =~= rs);
    push_decimal(&mut out, total);
    out.append(" error(s) in ");
    push_decimal(&mut out, results.len() as u64);
    out.append(" file(s).\n");
    let mut e = String::new();
    push_decimal(&mut e, total);
    e.append(" lint error(s) found");
    assert(out@ =~= directory_report(rs).0);
    assert(e@ =~= decimal(total_errors(rs)) + " lint error(s) found"@);
    (out, Err(e))
}

proof fn lemma_total_errors_prefix(rs: Seq<(Seq<char>, Seq<Seq<char>>)>, k: int)
    requires
        0 <= k <= rs.len(),
    ensures
        total_errors(rs.take(k)) <= total_errors(rs),
    decreases rs.len() - k,
{
    if k < rs.len() {
        lemma_total_errors_prefix(rs, k + 1);
        assert(rs.take(k + 1).drop_last() =~= rs.take(k));
    } else {
        assert(rs.take(k) =~= rs);
    }
}

/// What `lint` prints for one file, and its outcome.
pub open spec fn file_report(filename: Seq<char>, errs: Seq<Seq<char>>) -> (Seq<char>, Result<(), Seq<char>>) {
    if errs.len() == 0 {
        (filename + ": OK\n"@, Ok(()))
    } else {
        (filename + ":\n"@ + error_lines(errs), Err(decimal(errs.len()) + " lint error(s) found"@))
    }
}

/// The report of linting a single file, and its outcome.
pub fn single_file_report(filename: &str, errors: &Vec<String>) -> (r: (String, Result<(), String>))
    ensures
        report_view(r) == file_report(filename@, strs(errors@)),
{
    let mut out = owned(filename);
    if errors.len() == 0 {
        out.append(": OK\n");
        return (out, Ok(()));
    }
    out.append(":\n");
    push_error_lines(&mut out, errors);
    let mut e = String::new();
    push_decimal(&mut e, errors.len() as u64);
    e.append(" lint error(s) found");
    assert(e@ =~= decimal(strs(errors@).len()) + " lint error(s) found"@);
    (out, Err(e))
}

} // verus!
