use vstd::prelude::*;
use crate::commands::lint::{has_section, has_title, law_lint_clean, lint_errors};
use crate::config::{key_index_from, ring_keys, Config};
use crate::markdown::{
    h1, h2, heading_names, is_heading, is_title_line, first_index_from, last_index_below, title_of,
    names_heading, lemma_last_index_below_bounds,
    other_heading, section_of, lemma_first_index_at, lemma_last_index_at, lemma_heading_link,
    lemma_links_skip, links, links_from, last_char_below, lemma_first_index_from_bounds, lemma_last_char_below,
};
use crate::text::{
    char_vecs, contains, contains_at_any, extend_chars, join_line_range, join_lines, lines,
    lemma_contains_extend, lemma_join_lines_contains, lemma_line_between_newlines, lemma_trim_end_at,
    lemma_trim_start_at, lemma_lines_from_line, is_ws, strip_cr, strip_prefixes,
    lemma_lines_from_append, lemma_join_lines_cons, lemma_trim_push_ws, lemma_trim_push_visible,
    trim_start, trim_end, lemma_join_lines_of, lemma_trim_between_newlines,
    lemma_trim_offsets, occurs_at, split_lines, starts_with, text_eq, trim, trim_bounds,
    chars_of, decimal, lowercase, owned, push_decimal, string_of, strs, to_lowercase, to_uppercase,
    uppercase,
};

verus! {

broadcast use vstd::seq_lib::group_seq_properties;

// ---------------------------------------------------------------------------
// Titles
// ---------------------------------------------------------------------------

/// The parts of `s` between occurrences of `sep` (`str::split` with a
/// character), given the current part so far: always at least one part.
pub open spec fn split_from(s: Seq<char>, sep: char, cur: Seq<char>) -> Seq<Seq<char>>
    decreases s.len(),
{
    if s.len() == 0 {
        seq![cur]
    } else if s[0] == sep {
        seq![cur] + split_from(s.drop_first(), sep, seq![])
    } else {
        split_from(s.drop_first(), sep, cur.push(s[0]))
    }
}

/// `str::split` by a character.
pub open spec fn split_on(s: Seq<char>, sep: char) -> Seq<Seq<char>> {
    split_from(s, sep, seq![])
}

/// Texts joined with a separator character.
pub open spec fn join_with(ls: Seq<Seq<char>>, sep: char) -> Seq<char>
    decreases ls.len(),
{
    if ls.len() == 0 {
        seq![]
    } else if ls.len() == 1 {
        ls[0]
    } else {
        join_with(ls.drop_last(), sep) + seq![sep] + ls.last()
    }
}

/// A word with its first letter in upper case and the rest in lower case.
pub open spec fn title_word(w: Seq<char>) -> Seq<char> {
    if w.len() == 0 {
        seq![]
    } else {
        uppercase(w[0]) + lowercase(w.drop_first())
    }
}

pub open spec fn title_words(words: Seq<Seq<char>>) -> Seq<Seq<char>> {
    words.map_values(|w: Seq<char>| title_word(w))
}

/// A term as a title: its hyphen-separated words capitalised, joined by spaces.
pub open spec fn title_of_term(term: Seq<char>) -> Seq<char> {
    join_with(title_words(split_on(term, '-')), ' ')
}

/// The title form of one word.
fn capitalise(w: &[char]) -> (r: String)
    ensures
        r@ == title_word(w@),
{
    if w.len() == 0 {
        return String::new();
    }
    let mut r = to_uppercase(w[0]);
    let rest = string_of(&w[1..w.len()]);
    assert(w@.subrange(1, w@.len() as int) =~= w@.drop_first());
    let low = to_lowercase(rest.as_str());
    r.append(low.as_str());
    r
}

/// Capitalize the first letter of each word, replacing hyphens with spaces.
pub fn titlecase(term: &str) -> (r: String)
    ensures
        r@ == title_of_term(term@),
{
    let s = chars_of(term);
    let n = s.len();
    let mut out = String::new();
    // words finished so far
    let ghost mut done: Seq<Seq<char>> = seq![];
    let mut cur: Vec<char> = Vec::new();
    let mut first = true;
    let mut i: usize = 0;
    assert(s@.skip(0) =~= s@);
    while i < n
        invariant
            n == s@.len(),
            i <= n,
            done + split_from(s@.skip(i as int), '-', cur@) == split_on(s@, '-'),
            out@ == join_with(title_words(done), ' '),
            first == (done.len() == 0),
        decreases n - i,
    {
        assert(s@.skip(i as int).drop_first() =~= s@.skip(i + 1));
        if s[i] == '-' {
            let ghost old_done = done;
            if !first {
                out.push(' ');
            }
            let w = capitalise(cur.as_slice());
            out.append(w.as_str());
            proof {
                done = done.push(cur@);
                assert(title_words(done).drop_last() =~= title_words(old_done));
                if old_done.len() == 0 {
                    assert(out@ =~= title_words(done)[0]);
                }
                assert(old_done + (seq![cur@] + split_from(s@.skip(i + 1), '-', seq![])) =~= done
                    + split_from(s@.skip(i + 1), '-', seq![]));
            }
            cur = Vec::new();
            first = false;
        } else {
            cur.push(s[i]);
        }
        i = i + 1;
    }
    let ghost old_done = done;
    if !first {
        out.push(' ');
    }
    let w = capitalise(cur.as_slice());
    out.append(w.as_str());
    proof {
        done = done.push(cur@);
        assert(title_words(done).drop_last() =~= title_words(old_done));
        if old_done.len() == 0 {
            assert(out@ =~= title_words(done)[0]);
        }
        assert(old_done + seq![cur@] =~= done);
    }
    out
}

// ---------------------------------------------------------------------------
// New nodes
// ---------------------------------------------------------------------------

pub open spec fn default_definition() -> Seq<char> {
    "*Definition to be documented.*"@
}

/// The heading lines of a new node's three required sections.
pub open spec fn ontology_heading() -> Seq<char> {
    "## [Ontology](./ontology.md)"@
}

pub open spec fn axiology_heading() -> Seq<char> {
    "## [Axiology](./axiology.md)"@
}

pub open spec fn epistemology_heading() -> Seq<char> {
    "## [Epistemology](./epistemology.md)"@
}

pub open spec fn axiology_placeholder() -> Seq<char> {
    "*Value and significance to be documented.*"@
}

pub open spec fn epistemology_placeholder() -> Seq<char> {
    "*How this concept is known and validated to be documented.*"@
}

/// An empty line between two parts.
pub open spec fn gap() -> Seq<char> {
    seq!['\n', '\n']
}

/// What a new node's ontology section holds: the description, or a placeholder.
pub open spec fn definition_text(description: Option<Seq<char>>) -> Seq<char> {
    match description {
        Some(d) => d,
        None => default_definition(),
    }
}

/// The markdown of a new node: its title, then the three required sections,
/// the ontology one holding the description (or a placeholder).
pub open spec fn node_text(term: Seq<char>, description: Option<Seq<char>>) -> Seq<char> {
    "# "@ + title_of_term(term) + gap() + ontology_heading() + gap() + definition_text(description)
        + gap() + axiology_heading() + gap() + axiology_placeholder() + gap() + epistemology_heading()
        + gap() + epistemology_placeholder() + seq!['\n']
}

/// The markdown of a new ontology node: its title and the three required sections.
pub fn node_template(term: &str, description: Option<&str>) -> (r: String)
    ensures
        r@ == node_text(
            term@,
            match description {
                Some(d) => Some(d@),
                None => None,
            },
        ),
{
    let title = titlecase(term);
    let mut c = owned("# ");
    c.append(title.as_str());
    c.append("\n\n");
    c.append("## [Ontology](./ontology.md)");
    c.append("\n\n");
    match description {
        Some(d) => c.append(d),
        None => c.append("*Definition to be documented.*"),
    }
    c.append("\n\n");
    c.append("## [Axiology](./axiology.md)");
    c.append("\n\n");
    c.append("*Value and significance to be documented.*");
    c.append("\n\n");
    c.append("## [Epistemology](./epistemology.md)");
    c.append("\n\n");
    c.append("*How this concept is known and validated to be documented.*");
    c.append("\n");
    proof {
        reveal_strlit("\n\n");
        reveal_strlit("\n");
    }
    c
}

/// The facts about a heading line that make it a required section.
proof fn lemma_heading_facts(b: Seq<char>, name: Seq<char>, at: int)
    requires
        b.len() > 4,
        b[0] == '#' && b[1] == '#' && b[2] == ' ' && b[3] == '[',
        b.last() == ')',
        forall|k: int| 0 <= k < b.len() ==> #[trigger] b[k] != '\n',
        occurs_at(b, name, at),
    ensures
        !b.contains('\n'),
        b.last() != '\r',
        is_heading(b),
        contains(trim(b), name),
        trim(b) == b,
{
    lemma_trim_start_at(b, 0);
    assert(b.skip(0) =~= b);
    lemma_trim_end_at(b, b.len() as int);
    assert(b.take(b.len() as int) =~= b);
    assert(trim(b) == b);
    assert(h2().is_prefix_of(b)) by {
        assert(b.take(3) =~= h2());
    }
}

proof fn lemma_section_between_gaps(a: Seq<char>, b: Seq<char>, c: Seq<char>, name: Seq<char>)
    requires
        !b.contains('\n'),
        b.last() != '\r',
        b.len() > 0,
        is_heading(b),
        contains(trim(b), name),
    ensures
        has_section(a + gap() + b + gap() + c, name),
{
    let content = a + gap() + b + gap() + c;
    lemma_line_between_newlines(a + seq!['\n'], b, seq!['\n'] + c);
    assert(a + seq!['\n'] + seq!['\n'] + b + seq!['\n'] + (seq!['\n'] + c) =~= content);
    let ls = lines(content);
    let i = choose|i: int| 0 <= i < ls.len() && ls[i] == b;
    assert(is_heading(ls[i]) && contains(trim(ls[i]), name));
}

/// A new node carries the three sections that lint requires.
pub proof fn law_new_node_has_required_sections(term: Seq<char>, description: Option<Seq<char>>)
    ensures
        has_section(node_text(term, description), "Ontology"@),
        has_section(node_text(term, description), "Axiology"@),
        has_section(node_text(term, description), "Epistemology"@),
{
    reveal_strlit("## [Ontology](./ontology.md)");
    reveal_strlit("## [Axiology](./axiology.md)");
    reveal_strlit("## [Epistemology](./epistemology.md)");
    reveal_strlit("Ontology");
    reveal_strlit("Axiology");
    reveal_strlit("Epistemology");
    let ho = ontology_heading();
    let ha = axiology_heading();
    let he = epistemology_heading();
    assert(ho.subrange(4, 12) =~= "Ontology"@);
    assert(ha.subrange(4, 12) =~= "Axiology"@);
    assert(he.subrange(4, 16) =~= "Epistemology"@);
    lemma_heading_facts(ho, "Ontology"@, 4);
    lemma_heading_facts(ha, "Axiology"@, 4);
    lemma_heading_facts(he, "Epistemology"@, 4);
    let d = match description {
        Some(d) => d,
        None => default_definition(),
    };
    let title = "# "@ + title_of_term(term);
    let content = node_text(term, description);
    let tail_e = epistemology_placeholder() + seq!['\n'];
    let tail_a = axiology_placeholder() + gap() + he + gap() + tail_e;
    let tail_o = d + gap() + ha + gap() + tail_a;
    assert(content =~= title + gap() + ho + gap() + tail_o);
    lemma_section_between_gaps(title, ho, tail_o, "Ontology"@);
    let pre_a = title + gap() + ho + gap() + d;
    assert(content =~= pre_a + gap() + ha + gap() + tail_a);
    lemma_section_between_gaps(pre_a, ha, tail_a, "Axiology"@);
    let pre_e = pre_a + gap() + ha + gap() + axiology_placeholder();
    assert(content =~= pre_e + gap() + he + gap() + tail_e);
    lemma_section_between_gaps(pre_e, he, tail_e, "Epistemology"@);
}

/// A new node has its `# Title` line, given a title that is one line ending
/// in a visible character; parsing gives that title back, unless it starts
/// with `# ` itself.
pub proof fn law_new_node_title(term: Seq<char>, description: Option<Seq<char>>)
    requires
        title_of_term(term).len() > 0,
        !title_of_term(term).contains('\n'),
        !is_ws(title_of_term(term).last()),
    ensures
        has_title(node_text(term, description)),
        !h1().is_prefix_of(title_of_term(term)) ==> title_of(node_text(term, description)) == Some(
            title_of_term(term),
        ),
{
    reveal_strlit("# ");
    let t = title_of_term(term);
    let line = "# "@ + t;
    let content = node_text(term, description);
    let rest = content.skip(line.len() + 1int);
    assert(content =~= line + seq!['\n'] + rest);
    assert(!line.contains('\n')) by {
        if line.contains('\n') {
            let k = choose|k: int| 0 <= k < line.len() && line[k] == '\n';
            assert(t[k - 2] == '\n');
            assert(t.contains(t[k - 2]));
        }
    }
    lemma_lines_from_line(line, rest, seq![]);
    assert(seq![] + line =~= line);
    assert(line.last() == t.last());
    assert(strip_cr(line) == line);
    lemma_trim_start_at(line, 0);
    assert(line.skip(0) =~= line);
    lemma_trim_end_at(line, line.len() as int);
    assert(line.take(line.len() as int) =~= line);
    assert(h1().is_prefix_of(line)) by {
        assert(line.take(2) =~= h1());
    }
    assert(is_title_line(lines(content)[0]));
    assert(line.skip(2) =~= t);
    assert(lines(content)[0] == line);
    assert(strip_prefixes(line, h1()) == strip_prefixes(t, h1()));
}

/// The lines that a description takes up in a new node.
pub open spec fn description_lines(d: Seq<char>) -> Seq<Seq<char>> {
    lines(d + seq!['\n'])
}

proof fn lemma_lines_cons(u: Seq<char>, v: Seq<char>)
    requires
        !u.contains('\n'),
        u.len() == 0 || u.last() != '\r',
    ensures
        lines(u + seq!['\n'] + v) == seq![u] + lines(v),
{
    lemma_lines_from_line(u, v, seq![]);
    assert(seq![] + u =~= u);
}

proof fn lemma_no_newline(b: Seq<char>)
    requires
        forall|k: int| 0 <= k < b.len() ==> #[trigger] b[k] != '\n',
    ensures
        !b.contains('\n'),
{
}

/// A placeholder line: it starts with `*` and ends with `*`, so it is no heading.
proof fn lemma_placeholder_facts(b: Seq<char>)
    requires
        b.len() > 1,
        b[0] == '*',
        b.last() == '*',
        forall|k: int| 0 <= k < b.len() ==> #[trigger] b[k] != '\n',
    ensures
        !b.contains('\n'),
        b.last() != '\r',
        !is_heading(b),
{
    lemma_trim_start_at(b, 0);
    assert(b.skip(0) =~= b);
    lemma_trim_end_at(b, b.len() as int);
    assert(b.take(b.len() as int) =~= b);
    assert(trim(b) == b);
}

/// A heading line that lacks a letter of a name does not name that section.
proof fn lemma_heading_lacks(b: Seq<char>, name: Seq<char>, q: int)
    requires
        b.len() > 3,
        b[0] == '#' && b[1] == '#' && b[2] == ' ' && b[3] == '[',
        trim(b) == b,
        0 <= q < name.len(),
        forall|k: int| 0 <= k < b.len() ==> #[trigger] b[k] != name[q],
    ensures
        !heading_names(b, name),
{
    assert(h2().is_prefix_of(b)) by {
        assert(b.take(3) =~= h2());
    }
    let t = b.skip(3);
    assert(!h2().is_prefix_of(t)) by {
        assert(t[0] == '[');
    }
    assert(h2().len() == 3);
    assert(strip_prefixes(b, h2()) == strip_prefixes(b.skip(3), h2()));
    assert(strip_prefixes(t, h2()) == t);
    if contains(t, name) {
        let k = choose|k: int| #[trigger] occurs_at(t, name, k);
        assert(t.subrange(k, k + name.len())[q] == t[k + q]);
        assert(b[k + q + 3] == name[q]);
    }
}

/// The lines of a new node: title, blank, ontology heading, blank, the
/// description's lines, then the rest of the template.
proof fn lemma_node_lines(term: Seq<char>, description: Option<Seq<char>>)
    requires
        title_of_term(term).len() > 0,
        !title_of_term(term).contains('\n'),
        !is_ws(title_of_term(term).last()),
    ensures
        lines(node_text(term, description)) == seq!["# "@ + title_of_term(term), seq![], ontology_heading(), seq![]]
            + description_lines(definition_text(description)) + seq![
            seq![],
            axiology_heading(),
            seq![],
            axiology_placeholder(),
            seq![],
            epistemology_heading(),
            seq![],
            epistemology_placeholder(),
        ],
{
    reveal_strlit("# ");
    reveal_strlit("## [Ontology](./ontology.md)");
    reveal_strlit("## [Axiology](./axiology.md)");
    reveal_strlit("## [Epistemology](./epistemology.md)");
    reveal_strlit("*Value and significance to be documented.*");
    reveal_strlit("*How this concept is known and validated to be documented.*");
    let t = title_of_term(term);
    let d = definition_text(description);
    let l0 = "# "@ + t;
    let ho = ontology_heading();
    let ha = axiology_heading();
    let he = epistemology_heading();
    let ap = axiology_placeholder();
    let ep = epistemology_placeholder();
    let e: Seq<char> = seq![];
    let nl = seq!['\n'];
    assert(!l0.contains('\n')) by {
        if l0.contains('\n') {
            let k = choose|k: int| 0 <= k < l0.len() && l0[k] == '\n';
            assert(t[k - 2] == '\n');
            assert(t.contains(t[k - 2]));
        }
    }
    assert(l0.last() == t.last());
    lemma_no_newline(ho);
    lemma_no_newline(ha);
    lemma_no_newline(he);
    lemma_no_newline(ap);
    lemma_no_newline(ep);
    let x1 = l0 + gap() + ho + gap();
    let x2 = nl + ha + gap() + ap + gap() + he + gap() + ep + nl;
    assert(node_text(term, description) =~= x1 + ((d + nl) + x2));
    lemma_lines_from_append(x1, (d + nl) + x2, seq![]);
    lemma_lines_from_append(d + nl, x2, seq![]);
    assert(lines(e) =~= Seq::<Seq<char>>::empty());
    // the lines of x1
    lemma_lines_cons(e, e);
    assert(nl =~= e + nl + e);
    lemma_lines_cons(ho, nl);
    assert(ho + gap() =~= ho + nl + nl);
    lemma_lines_cons(e, ho + gap());
    assert(nl + ho + gap() =~= e + nl + (ho + gap()));
    lemma_lines_cons(l0, nl + ho + gap());
    assert(x1 =~= l0 + nl + (nl + ho + gap()));
    assert(lines(x1) =~= seq![l0, e, ho, e]);
    // the lines of x2
    let r1 = ep + nl;
    lemma_lines_cons(ep, e);
    assert(r1 =~= ep + nl + e);
    let r2 = nl + r1;
    lemma_lines_cons(e, r1);
    assert(r2 =~= e + nl + r1);
    let r3 = he + nl + r2;
    lemma_lines_cons(he, r2);
    let r4 = nl + r3;
    lemma_lines_cons(e, r3);
    assert(r4 =~= e + nl + r3);
    let r5 = ap + nl + r4;
    lemma_lines_cons(ap, r4);
    let r6 = nl + r5;
    lemma_lines_cons(e, r5);
    assert(r6 =~= e + nl + r5);
    let r7 = ha + nl + r6;
    lemma_lines_cons(ha, r6);
    lemma_lines_cons(e, r7);
    assert(x2 =~= e + nl + r7);
    assert(lines(x2) =~= seq![e, ha, e, ap, e, he, e, ep]);
}

/// A new node's ontology section gives back its description, trimmed, given
/// a title that is one line ending in a visible character and a description
/// without carriage returns or heading lines that is not blank.
#[verifier::spinoff_prover]
pub proof fn law_new_node_definition(term: Seq<char>, description: Option<Seq<char>>)
    requires
        title_of_term(term).len() > 0,
        !title_of_term(term).contains('\n'),
        !is_ws(title_of_term(term).last()),
        !definition_text(description).contains('\r'),
        trim(definition_text(description)).len() > 0,
        forall|i: int|
            0 <= i < description_lines(definition_text(description)).len() ==> !is_heading(
                #[trigger] description_lines(definition_text(description))[i],
            ),
    ensures
        section_of(node_text(term, description), "Ontology"@) == Some(trim(definition_text(description))),
{
    reveal_strlit("# ");
    reveal_strlit("Ontology");
    reveal_strlit("## [Ontology](./ontology.md)");
    reveal_strlit("## [Axiology](./axiology.md)");
    reveal_strlit("## [Epistemology](./epistemology.md)");
    reveal_strlit("*Value and significance to be documented.*");
    reveal_strlit("*How this concept is known and validated to be documented.*");
    let t = title_of_term(term);
    let d = definition_text(description);
    let dl = description_lines(d);
    let l0 = "# "@ + t;
    let ho = ontology_heading();
    let ha = axiology_heading();
    let he = epistemology_heading();
    let ap = axiology_placeholder();
    let ep = epistemology_placeholder();
    let e: Seq<char> = seq![];
    lemma_node_lines(term, description);
    lemma_join_lines_of(d, seq![]);
    let n = dl.len() as int;
    let ls = lines(node_text(term, description));
    assert(ls.len() == n + 12);
    // which lines are headings, and which name the ontology section
    let nh = names_heading("Ontology"@);
    let oh = other_heading("Ontology"@);
    reveal_strlit("Axiology");
    reveal_strlit("Epistemology");
    assert(ho.subrange(4, 12) =~= "Ontology"@);
    assert(ha.subrange(4, 12) =~= "Axiology"@);
    assert(he.subrange(4, 16) =~= "Epistemology"@);
    lemma_heading_facts(ho, "Ontology"@, 4);
    lemma_heading_facts(ha, "Axiology"@, 4);
    lemma_heading_facts(he, "Epistemology"@, 4);
    lemma_heading_lacks(ha, "Ontology"@, 0);
    lemma_heading_lacks(he, "Ontology"@, 0);
    lemma_placeholder_facts(ap);
    lemma_placeholder_facts(ep);
    assert(heading_names(ho, "Ontology"@)) by {
        let s3 = ho.skip(3);
        assert(!h2().is_prefix_of(s3)) by {
            assert(s3[0] == '[');
        }
        assert(h2().len() == 3);
        assert(strip_prefixes(ho, h2()) == strip_prefixes(ho.skip(3), h2()));
        assert(strip_prefixes(s3, h2()) == s3);
        assert(s3.subrange(1, 9) =~= "Ontology"@);
        assert(occurs_at(s3, "Ontology"@, 1));
    }
    assert(!is_heading(e)) by {
        assert(trim(e) =~= e);
    }
    assert(!is_heading(l0)) by {
        lemma_trim_start_at(l0, 0);
        assert(l0.skip(0) =~= l0);
        assert(l0.last() == t.last());
        lemma_trim_end_at(l0, l0.len() as int);
        assert(l0.take(l0.len() as int) =~= l0);
        assert(l0[1] == ' ');
    }
    assert forall|j: int| 2 < j < ls.len() implies !nh(#[trigger] ls[j]) by {
        if 4 <= j < 4 + n {
            assert(ls[j] == dl[j - 4]);
        }
    }
    assert(!nh(ls[0]) && !nh(ls[1]) && nh(ls[2]));
    lemma_first_index_at(ls, nh, 0, 2);
    lemma_last_index_at(ls, nh, ls.len() as int, 2);
    assert forall|j: int| 3 <= j < 5 + n implies !oh(#[trigger] ls[j]) by {
        if 4 <= j < 4 + n {
            assert(ls[j] == dl[j - 4]);
        }
    }
    assert(oh(ls[5 + n]));
    lemma_first_index_at(ls, oh, 3, 5 + n);
    let sec = ls.subrange(3, 5 + n);
    assert(sec =~= seq![e] + (dl + seq![e]));
    lemma_join_lines_cons(e, dl + seq![e]);
    let de = dl + seq![e];
    assert(de.drop_last() =~= dl);
    assert(join_lines(de) == join_lines(dl) + seq!['\n'] + e);
    assert(seq![] + d =~= d);
    assert(join_lines(sec) =~= seq!['\n'] + d + seq!['\n']);
    lemma_trim_between_newlines(d);
}

/// A new node links exactly to the three section terms, given a title and a
/// description without `[`.
#[verifier::spinoff_prover]
#[verifier::rlimit(50)]
pub proof fn law_new_node_links(term: Seq<char>, description: Option<Seq<char>>)
    requires
        !title_of_term(term).contains('['),
        !definition_text(description).contains('['),
    ensures
        links(node_text(term, description)) == seq!["ontology"@, "axiology"@, "epistemology"@],
{
    reveal_strlit("# ");
    reveal_strlit("## [");
    reveal_strlit("](./");
    reveal_strlit(".md)");
    reveal_strlit("Ontology");
    reveal_strlit("Axiology");
    reveal_strlit("Epistemology");
    reveal_strlit("ontology");
    reveal_strlit("axiology");
    reveal_strlit("epistemology");
    reveal_strlit("## [Ontology](./ontology.md)");
    reveal_strlit("## [Axiology](./axiology.md)");
    reveal_strlit("## [Epistemology](./epistemology.md)");
    reveal_strlit("*Value and significance to be documented.*");
    reveal_strlit("*How this concept is known and validated to be documented.*");
    let t = title_of_term(term);
    let d = definition_text(description);
    let ho = ontology_heading();
    let ha = axiology_heading();
    let he = epistemology_heading();
    let ap = axiology_placeholder();
    let ep = epistemology_placeholder();
    assert(ho =~= "## ["@ + "Ontology"@ + "](./"@ + "ontology"@ + ".md)"@);
    assert(ha =~= "## ["@ + "Axiology"@ + "](./"@ + "axiology"@ + ".md)"@);
    assert(he =~= "## ["@ + "Epistemology"@ + "](./"@ + "epistemology"@ + ".md)"@);
    let a = "# "@ + t + gap();
    let b = gap() + d + gap();
    let c = gap() + ap + gap();
    let z = gap() + ep + seq!['\n'];
    let s = node_text(term, description);
    assert(s =~= a + ho + b + ha + c + he + z);
    let p1 = a.len() as int;
    let p2 = p1 + ho.len() + b.len();
    let p3 = p2 + ha.len() + c.len();
    let end = p3 + he.len() + z.len();
    assert(end == s.len());
    // no `[` outside the three headings
    assert forall|k: int| 0 <= k < p1 + 3 implies #[trigger] s[k] != '[' by {
        if k < p1 {
            assert(s[k] == a[k]);
            if 2 <= k < 2 + t.len() {
                assert(a[k] == t[k - 2]);
                if t[k - 2] == '[' {
                    assert(t.contains(t[k - 2]));
                }
            }
        } else {
            assert(s[k] == ho[k - p1]);
        }
    }
    lemma_links_skip(s, 0, p1 + 3);
    assert(s.subrange(p1, p1 + ho.len()) =~= ho);
    assert(!"Ontology"@.contains(']'));
    lemma_heading_link(s, p1, "Ontology"@, "ontology"@);
    assert forall|k: int| p1 + ho.len() <= k < p2 + 3 implies #[trigger] s[k] != '[' by {
        if k < p2 {
            let q = k - p1 - ho.len();
            assert(s[k] == b[q]);
            if 2 <= q < 2 + d.len() {
                assert(b[q] == d[q - 2]);
                if d[q - 2] == '[' {
                    assert(d.contains(d[q - 2]));
                }
            }
        } else {
            assert(s[k] == ha[k - p2]);
        }
    }
    lemma_links_skip(s, p1 + ho.len(), p2 + 3);
    assert(s.subrange(p2, p2 + ha.len()) =~= ha);
    assert(!"Axiology"@.contains(']'));
    lemma_heading_link(s, p2, "Axiology"@, "axiology"@);
    assert forall|k: int| p2 + ha.len() <= k < p3 + 3 implies #[trigger] s[k] != '[' by {
        if k < p3 {
            assert(s[k] == c[k - p2 - ha.len()]);
        } else {
            assert(s[k] == he[k - p3]);
        }
    }
    lemma_links_skip(s, p2 + ha.len(), p3 + 3);
    assert(s.subrange(p3, p3 + he.len()) =~= he);
    assert(!"Epistemology"@.contains(']'));
    lemma_heading_link(s, p3, "Epistemology"@, "epistemology"@);
    assert forall|k: int| p3 + he.len() <= k < end implies #[trigger] s[k] != '[' by {
        assert(s[k] == z[k - p3 - he.len()]);
    }
    lemma_links_skip(s, p3 + he.len(), end);
    assert(links_from(s, end) =~= Seq::<Seq<char>>::empty());
    assert(links(s) =~= seq!["ontology"@, "axiology"@, "epistemology"@]);
}

/// A new node passes lint when the terms of its three sections exist, given
/// a title that is one line ending in a visible character, and a title and
/// description without `[`.
pub proof fn law_new_node_passes_lint(
    term: Seq<char>,
    description: Option<Seq<char>>,
    filename: Seq<char>,
    existing: Seq<Seq<char>>,
)
    requires
        title_of_term(term).len() > 0,
        !title_of_term(term).contains('\n'),
        !is_ws(title_of_term(term).last()),
        !title_of_term(term).contains('['),
        !definition_text(description).contains('['),
        existing.contains("ontology"@),
        existing.contains("axiology"@),
        existing.contains("epistemology"@),
    ensures
        lint_errors(node_text(term, description), filename, existing).len() == 0,
{
    let content = node_text(term, description);
    law_new_node_title(term, description);
    law_new_node_has_required_sections(term, description);
    law_new_node_links(term, description);
    law_lint_clean(content, filename, existing);
    assert forall|l: Seq<char>| #[trigger] links(content).contains(l) implies existing.contains(l) by {
        let k = choose|k: int| 0 <= k < links(content).len() && links(content)[k] == l;
    }
}

/// A new node parses back into what it was made from, and passes lint: its
/// title is the term's title, its ontology section is the
/// description trimmed, and it has no lint error when the terms of its three
/// sections exist. This holds for a title that is one line ending in a visible
/// character and not starting with `# `, and a description that is not blank
/// and has no carriage return, `[` or heading line.
pub proof fn law_new_node_parses_back(
    term: Seq<char>,
    description: Option<Seq<char>>,
    filename: Seq<char>,
    existing: Seq<Seq<char>>,
)
    requires
        title_of_term(term).len() > 0,
        !title_of_term(term).contains('\n'),
        !is_ws(title_of_term(term).last()),
        !h1().is_prefix_of(title_of_term(term)),
        !title_of_term(term).contains('['),
        !definition_text(description).contains('\r'),
        !definition_text(description).contains('['),
        trim(definition_text(description)).len() > 0,
        forall|i: int|
            0 <= i < description_lines(definition_text(description)).len() ==> !is_heading(
                #[trigger] description_lines(definition_text(description))[i],
            ),
        existing.contains("ontology"@),
        existing.contains("axiology"@),
        existing.contains("epistemology"@),
    ensures
        title_of(node_text(term, description)) == Some(title_of_term(term)),
        section_of(node_text(term, description), "Ontology"@) == Some(trim(definition_text(description))),
        lint_errors(node_text(term, description), filename, existing).len() == 0,
{
    law_new_node_title(term, description);
    law_new_node_definition(term, description);
    law_new_node_passes_lint(term, description, filename, existing);
}

/// The message for a ring level that `exkernel.toml` does not define.
pub open spec fn ring_undefined_message(level: u32) -> Seq<char> {
    "Ring "@ + decimal(level as nat) + " not defined in exkernel.toml"@
}

pub fn ring_undefined(level: u32) -> (r: String)
    ensures
        r@ == ring_undefined_message(level),
{
    let mut m = owned("Ring ");
    push_decimal(&mut m, level as u64);
    m.append(" not defined in exkernel.toml");
    m
}

/// Whether adding `term` to ring `ring_level` has to change `exkernel.toml`:
/// an error when the ring is not defined, `false` when it lists the term already.
pub fn ring_needs_term(config: &Config, term: &str, ring_level: u32) -> (r: Result<bool, String>)
    ensures
        ({
            let i = key_index_from(ring_keys(config.rings@), decimal(ring_level as nat), 0);
            if i < config.rings@.len() {
                r == Ok::<bool, String>(!strs(config.rings@[i].1.terms@).contains(term@))
            } else {
                r matches Err(e) && e@ == ring_undefined_message(ring_level)
            }
        }),
{
    match config.get_ring(ring_level) {
        None => Err(ring_undefined(ring_level)),
        Some(r) => {
            let t = owned(term);
            let ghost idx = key_index_from(ring_keys(config.rings@), decimal(ring_level as nat), 0);
            let mut i: usize = 0;
            while i < r.terms.len()
                invariant
                    i <= r.terms@.len(),
                    t@ == term@,
                    idx == key_index_from(ring_keys(config.rings@), decimal(ring_level as nat), 0),
                    idx < config.rings@.len(),
                    *r == config.rings@[idx].1,
                    forall|j: int| 0 <= j < i ==> #[trigger] strs(r.terms@)[j] != term@,
                decreases r.terms.len() - i,
            {
                if r.terms[i] == t {
                    assert(strs(r.terms@)[i as int] == term@);
                    assert(strs(r.terms@).contains(term@));
                    return Ok(false);
                }
                i = i + 1;
            }
            Ok(true)
        },
    }
}


// ---------------------------------------------------------------------------
// Adding a term to a ring in `exkernel.toml`
// ---------------------------------------------------------------------------

/// `[rings.N]`
pub open spec fn ring_header(level: u32) -> Seq<char> {
    "[rings."@ + decimal(level as nat) + "]"@
}

/// A line that opens a table: trimmed, it starts with `[`.
pub open spec fn opens_table(l: Seq<char>) -> bool {
    trim(l).len() > 0 && trim(l)[0] == '['
}

/// Line `i` lies in the table whose header is `h`: the last table-opening line
/// at or before it is exactly `h` (trimmed).
pub open spec fn in_table_at(ls: Seq<Seq<char>>, h: Seq<char>, i: int) -> bool
    decreases i + 1,
{
    if i < 0 {
        false
    } else if opens_table(ls[i]) {
        trim(ls[i]) == h
    } else {
        in_table_at(ls, h, i - 1)
    }
}

/// `"terms"`
pub open spec fn terms_key() -> Seq<char> {
    seq!['t', 'e', 'r', 'm', 's']
}

/// Line `i` starts the `terms` array of the table headed `h`.
pub open spec fn is_terms_line(ls: Seq<Seq<char>>, h: Seq<char>, i: int) -> bool {
    in_table_at(ls, h, i) && terms_key().is_prefix_of(trim(ls[i]))
}

/// The first line at or after `i` that starts the `terms` array of table `h`,
/// or the number of lines.
pub open spec fn first_terms_line(ls: Seq<Seq<char>>, h: Seq<char>, i: int) -> int
    decreases ls.len() - i,
{
    if i >= ls.len() {
        ls.len() as int
    } else if is_terms_line(ls, h, i) {
        i
    } else {
        first_terms_line(ls, h, i + 1)
    }
}

/// The trimmed line holds a `]`.
pub open spec fn has_close(l: Seq<char>) -> bool {
    contains(trim(l), seq![']'])
}

pub open spec fn closes() -> spec_fn(Seq<char>) -> bool {
    |l: Seq<char>| has_close(l)
}

/// The text of a line before its last `]`, trimmed.
pub open spec fn before_close(line: Seq<char>) -> Seq<char> {
    trim(line.take(last_char_below(line, ']', line.len() as int)))
}

/// A line of an array with `term` added before its last `]`: right after the
/// `[` when the array holds nothing before, after a space when the item
/// before already has its comma, else after `, `.
pub open spec fn with_term_on_line(line: Seq<char>, term: Seq<char>) -> Seq<char> {
    let c = last_char_below(line, ']', line.len() as int);
    let before = line.take(c);
    let after = line.skip(c);
    let tb = trim(before);
    if tb.len() > 0 && tb.last() == '[' {
        before + seq!['"'] + term + seq!['"'] + after
    } else if tb.len() > 0 && tb.last() == ',' {
        before + seq![' ', '"'] + term + seq!['"'] + after
    } else {
        before + seq![',', ' ', '"'] + term + seq!['"'] + after
    }
}

/// A line that is not blank.
pub open spec fn nonblank() -> spec_fn(Seq<char>) -> bool {
    |l: Seq<char>| trim(l).len() > 0
}

/// A line that ends with a separator: `,` after an item, or the opening `[`.
pub open spec fn ends_item(l: Seq<char>) -> bool {
    trim(l).len() > 0 && (trim(l).last() == ',' || trim(l).last() == '[')
}

/// The line added to a multi-line array.
pub open spec fn term_item_line(term: Seq<char>) -> Seq<char> {
    "  \""@ + term + "\","@
}

/// Lines joined back, with a final newline when the input had one.
pub open spec fn rejoin(raw: Seq<char>, ls: Seq<Seq<char>>) -> Seq<char> {
    join_lines(ls) + if raw.len() > 0 && raw.last() == '\n' {
        seq!['\n']
    } else {
        seq![]
    }
}

/// The lines of a TOML text with `term` added as the last item of the `terms`
/// array of `[rings.N]`:
/// - when the array's first line closes it, before that `]`;
/// - else, when the line that closes it holds items before its `]`, there;
/// - else as a line of its own before the closing line, with a `,` added to
///   the last non-blank line before when that line has no separator.
/// `None` when there is no such array or it is never closed.
pub open spec fn lines_with_term(ls: Seq<Seq<char>>, level: u32, term: Seq<char>) -> Option<Seq<Seq<char>>> {
    let h = ring_header(level);
    let i = first_terms_line(ls, h, 0);
    if i >= ls.len() {
        None
    } else if has_close(ls[i]) {
        Some(ls.update(i, with_term_on_line(ls[i], term)))
    } else {
        let j = first_index_from(ls, closes(), i + 1);
        if j >= ls.len() {
            None
        } else if before_close(ls[j]).len() > 0 {
            Some(ls.update(j, with_term_on_line(ls[j], term)))
        } else {
            let k = last_index_below(ls, nonblank(), j);
            let ls2 = if ends_item(ls[k]) {
                ls
            } else {
                ls.update(k, ls[k].push(','))
            };
            Some(ls2.take(j) + seq![term_item_line(term)] + ls2.skip(j))
        }
    }
}

/// The TOML text with `term` added to the `terms` array of `[rings.N]` (see
/// `lines_with_term`).
pub open spec fn toml_with_term(raw: Seq<char>, level: u32, term: Seq<char>) -> Option<Seq<char>> {
    match lines_with_term(lines(raw), level, term) {
        Some(ls) => Some(rejoin(raw, ls)),
        None => None,
    }
}

/// The message when the ring has no `terms` array to add to.
pub open spec fn no_terms_array_message(level: u32) -> Seq<char> {
    "Could not find terms array for ring "@ + decimal(level as nat) + " in exkernel.toml"@
}

pub proof fn lemma_first_terms_line(ls: Seq<Seq<char>>, h: Seq<char>, i: int)
    requires
        0 <= i <= ls.len(),
    ensures
        i <= first_terms_line(ls, h, i) <= ls.len(),
        first_terms_line(ls, h, i) < ls.len() ==> is_terms_line(ls, h, first_terms_line(ls, h, i)),
    decreases ls.len() - i,
{
    if i < ls.len() && !is_terms_line(ls, h, i) {
        lemma_first_terms_line(ls, h, i + 1);
    }
}

/// The term between double quotes.
pub open spec fn quoted(term: Seq<char>) -> Seq<char> {
    seq!['"'] + term + seq!['"']
}

/// On line `r`, at column `col`, an array item stands after a separator: the
/// text before it on the line, trimmed, ends with `[` or `,`; or that text is
/// blank and the last non-blank line before ends so.
pub open spec fn separated_before(ls: Seq<Seq<char>>, r: int, col: int) -> bool {
    let pre = trim(ls[r].take(col));
    if pre.len() > 0 {
        pre.last() == '[' || pre.last() == ','
    } else {
        let k = last_index_below(ls, nonblank(), r);
        0 <= k && ends_item(ls[k])
    }
}

/// After the `len` characters from column `col` of line `r`, the array
/// closes: a `]` follows at once, or a `,` ends the line and the next line
/// holds nothing before its `]`.
pub open spec fn closed_after(ls: Seq<Seq<char>>, r: int, col: int, len: int) -> bool {
    let rest = ls[r].skip(col + len);
    ||| (rest.len() > 0 && rest[0] == ']')
    ||| (rest == seq![','] && r + 1 < ls.len() && has_close(ls[r + 1]) && before_close(ls[r + 1]).len()
        == 0)
}

/// On a line of an array, the added term comes after a separator and right
/// before the `]`.
proof fn lemma_term_on_line_last(line: Seq<char>, term: Seq<char>) -> (col: int)
    requires
        has_close(line),
    ensures
        occurs_at(with_term_on_line(line, term), quoted(term), col),
        trim(with_term_on_line(line, term).take(col)).len() > 0,
        trim(with_term_on_line(line, term).take(col)).last() == '['
            || trim(with_term_on_line(line, term).take(col)).last() == ',',
        with_term_on_line(line, term).skip(col + quoted(term).len() as int).len() > 0,
        with_term_on_line(line, term).skip(col + quoted(term).len() as int)[0] == ']',
{
    lemma_close_in_line(line);
    let c = last_char_below(line, ']', line.len() as int);
    let before = line.take(c);
    let after = line.skip(c);
    let tb = trim(before);
    let nl = with_term_on_line(line, term);
    let q = quoted(term);
    let ql = q.len() as int;
    assert(after[0] == ']');
    if tb.len() > 0 && tb.last() == '[' {
        assert(nl =~= before + q + after);
        let col: int = before.len() as int;
        assert(nl.take(col) =~= before);
        assert(nl.subrange(col, col + ql) =~= q);
        assert(nl.skip(col + ql) =~= after);
        col
    } else if tb.len() > 0 && tb.last() == ',' {
        assert(nl =~= before.push(' ') + q + after);
        let col: int = before.len() as int + 1;
        assert(nl.take(col) =~= before.push(' '));
        lemma_trim_push_ws(before, ' ');
        assert(nl.subrange(col, col + ql) =~= q);
        assert(nl.skip(col + ql) =~= after);
        col
    } else {
        assert(nl =~= before.push(',').push(' ') + q + after);
        let col: int = before.len() as int + 2;
        assert(nl.take(col) =~= before.push(',').push(' '));
        lemma_trim_push_ws(before.push(','), ' ');
        lemma_trim_push_visible(before, ',');
        assert(nl.subrange(col, col + ql) =~= q);
        assert(nl.skip(col + ql) =~= after);
        col
    }
}

/// Adding a term puts it, quoted, as the last item of the ring's `terms`
/// array: after a separator (`[`, or a `,` that ends the item before it), and
/// with the array's `]` right after it, or after a `,` on the next line.
pub proof fn law_added_term_is_last_item(ls: Seq<Seq<char>>, level: u32, term: Seq<char>)
    requires
        lines_with_term(ls, level, term) is Some,
    ensures
        ({
            let nls = lines_with_term(ls, level, term)->0;
            exists|r: int, col: int|
                0 <= r < nls.len() && #[trigger] occurs_at(nls[r], quoted(term), col) && separated_before(
                    nls,
                    r,
                    col,
                ) && closed_after(nls, r, col, quoted(term).len() as int)
        }),
{
    let h = ring_header(level);
    let i = first_terms_line(ls, h, 0);
    lemma_first_terms_line(ls, h, 0);
    let nls = lines_with_term(ls, level, term)->0;
    let q = quoted(term);
    let ql = q.len() as int;
    if has_close(ls[i]) {
        let col = lemma_term_on_line_last(ls[i], term);
        assert(nls[i] == with_term_on_line(ls[i], term));
        assert(separated_before(nls, i, col) && closed_after(nls, i, col, ql));
    } else {
        let j = first_index_from(ls, closes(), i + 1);
        lemma_first_index_from_bounds(ls, closes(), i + 1);
        assert(has_close(ls[j]));
        if before_close(ls[j]).len() > 0 {
            let col = lemma_term_on_line_last(ls[j], term);
            assert(nls[j] == with_term_on_line(ls[j], term));
            assert(separated_before(nls, j, col) && closed_after(nls, j, col, ql));
        } else {
            let nb = nonblank();
            let k = last_index_below(ls, nb, j);
            lemma_last_index_below_bounds(ls, nb, j);
            assert(terms_key().is_prefix_of(trim(ls[i])));
            assert(nb(ls[i]));
            assert(k >= i);
            let ls2 = if ends_item(ls[k]) {
                ls
            } else {
                ls.update(k, ls[k].push(','))
            };
            if !ends_item(ls[k]) {
                lemma_trim_push_visible(ls[k], ',');
            }
            assert(nb(ls2[k]) && ends_item(ls2[k]));
            let item = term_item_line(term);
            assert(nls =~= ls2.take(j) + seq![item] + ls2.skip(j));
            assert(nls[j] == item);
            reveal_strlit("  \"");
            reveal_strlit("\",");
            assert(item =~= seq![' ', ' '] + q + seq![',']);
            assert(item.subrange(2, 2 + ql) =~= q);
            assert(occurs_at(nls[j], q, 2));
            assert(item.take(2) =~= seq![' ', ' ']);
            assert(trim(seq![' ', ' ']).len() == 0) by {
                let w = seq![' ', ' '];
                assert(w.drop_first() =~= seq![' ']);
                assert(seq![' '].drop_first() =~= Seq::<char>::empty());
                assert(trim_start(Seq::<char>::empty()) == Seq::<char>::empty());
                assert(trim_start(seq![' ']) == trim_start(Seq::<char>::empty()));
                assert(trim_start(w) == trim_start(seq![' ']));
                assert(trim_end(Seq::<char>::empty()) == Seq::<char>::empty());
            }
            assert forall|m: int| k < m < j implies !nb(#[trigger] nls[m]) by {
                assert(nls[m] == ls[m]);
            }
            assert(nls[k] == ls2[k]);
            lemma_last_index_at(nls, nb, j, k);
            assert(item.skip(2 + ql) =~= seq![',']);
            assert(nls[j + 1] == ls[j]);
            assert(separated_before(nls, j, 2) && closed_after(nls, j, 2, ql));
        }
    }
}

fn trimmed_of(l: &[char]) -> (t: &[char])
    ensures
        t@ == trim(l@),
{
    let (lo, hi) = trim_bounds(l);
    &l[lo..hi]
}

fn line_has_close(l: &[char]) -> (r: bool)
    ensures
        r == has_close(l@),
{
    let close: &[char] = &[']'];
    assert(close@ =~= seq![']']);
    contains_at_any(trimmed_of(l), close)
}

/// A trimmed `]` is a `]` of the line.
proof fn lemma_close_in_line(l: Seq<char>)
    requires
        has_close(l),
    ensures
        0 <= last_char_below(l, ']', l.len() as int) < l.len(),
        l[last_char_below(l, ']', l.len() as int)] == ']',
{
    let (lo, hi) = lemma_trim_offsets(l);
    let k = choose|k: int| #[trigger] occurs_at(trim(l), seq![']'], k);
    assert(trim(l).subrange(k, k + 1)[0] == trim(l)[k]);
    assert(l[lo + k] == ']');
    lemma_last_char_below(l, ']', l.len() as int);
}

/// Whether the text before a line's last `]` is blank.
fn blank_before_close(line: &[char]) -> (r: bool)
    requires
        has_close(line@),
    ensures
        r == (before_close(line@).len() == 0),
{
    proof {
        lemma_close_in_line(line@);
    }
    let n = line.len();
    let mut c: usize = n;
    while c > 0 && line[c - 1] != ']'
        invariant
            c <= n == line@.len(),
            last_char_below(line@, ']', n as int) == last_char_below(line@, ']', c as int),
        decreases c,
    {
        c = c - 1;
    }
    let before = &line[0..c - 1];
    assert(before@ =~= line@.take(c - 1));
    trimmed_of(before).len() == 0
}

fn term_on_line(line: &[char], term: &[char]) -> (r: Vec<char>)
    requires
        has_close(line@),
    ensures
        r@ == with_term_on_line(line@, term@),
{
    proof {
        lemma_close_in_line(line@);
    }
    let n = line.len();
    let mut c: usize = n;
    while c > 0 && line[c - 1] != ']'
        invariant
            c <= n == line@.len(),
            last_char_below(line@, ']', n as int) == last_char_below(line@, ']', c as int),
        decreases c,
    {
        c = c - 1;
    }
    let c = c - 1;
    let before = &line[0..c];
    let after = &line[c..n];
    assert(before@ =~= line@.take(c as int));
    assert(after@ =~= line@.skip(c as int));
    let tb = trimmed_of(before);
    let mut r: Vec<char> = Vec::new();
    extend_chars(&mut r, before);
    if tb.len() > 0 && tb[tb.len() - 1] == '[' {
        r.push('"');
    } else if tb.len() > 0 && tb[tb.len() - 1] == ',' {
        r.push(' ');
        r.push('"');
    } else {
        r.push(',');
        r.push(' ');
        r.push('"');
    }
    extend_chars(&mut r, term);
    r.push('"');
    extend_chars(&mut r, after);
    assert(r@ =~= with_term_on_line(line@, term@));
    r
}


fn copy_chars(v: &[char]) -> (r: Vec<char>)
    ensures
        r@ == v@,
{
    let mut r: Vec<char> = Vec::new();
    extend_chars(&mut r, v);
    assert(r@ =~= v@);
    r
}

fn no_terms_array(level: u32) -> (r: String)
    ensures
        r@ == no_terms_array_message(level),
{
    let mut m = owned("Could not find terms array for ring ");
    push_decimal(&mut m, level as u64);
    m.append(" in exkernel.toml");
    m
}

/// Insert a term into a ring's terms array in raw TOML text.
///
/// Finds the `terms = [...]` line under `[rings.N]` and appends the new term.
pub fn insert_term_in_toml(raw: &str, ring_level: u32, term: &str) -> (r: Result<String, String>)
    ensures
        match toml_with_term(raw@, ring_level, term@) {
            Some(t) => r matches Ok(s) && s@ == t,
            None => r matches Err(e) && e@ == no_terms_array_message(ring_level),
        },
{
    let cs = chars_of(raw);
    let ls = split_lines(cs.as_slice());
    let ghost all = lines(raw@);
    let mut header = owned("[rings.");
    push_decimal(&mut header, ring_level as u64);
    header.append("]");
    let hc = chars_of(header.as_str());
    let ghost h = ring_header(ring_level);
    assert(hc@ =~= h);
    let tc = chars_of(term);
    let n = ls.len();
    let terms_word: &[char] = &['t', 'e', 'r', 'm', 's'];
    assert(terms_word@ =~= terms_key());
    // find the first `terms` line of the ring's table
    let mut in_ring = false;
    let mut i: usize = 0;
    let mut found = false;
    while i < n
        invariant_except_break
            !found,
        invariant
            n == ls@.len(),
            all == char_vecs(ls@),
            hc@ == h,
            terms_word@ == terms_key(),
            i <= n,
            in_ring == in_table_at(all, h, i - 1),
            first_terms_line(all, h, 0) == first_terms_line(all, h, i as int),
        ensures
            i <= n,
            found ==> i < n && first_terms_line(all, h, 0) == i,
            !found ==> first_terms_line(all, h, 0) == n,
        decreases n - i,
    {
        let l = ls[i].as_slice();
        assert(all[i as int] == l@);
        let t = trimmed_of(l);
        if t.len() > 0 && t[0] == '[' {
            in_ring = text_eq(t, hc.as_slice());
        }
        assert(in_ring == in_table_at(all, h, i as int));
        if in_ring && starts_with(t, terms_word) {
            found = true;
            break;
        }
        i = i + 1;
    }
    if !found {
        return Err(no_terms_array(ring_level));
    }
    let ghost i0 = i as int;
    let ghost target = lines_with_term(all, ring_level, tc@)->0;
    let mut ls = ls;
    assert(all[i0] == ls@[i0]@);
    if line_has_close(ls[i].as_slice()) {
        let nl = term_on_line(ls[i].as_slice(), tc.as_slice());
        ls[i] = nl;
        assert(char_vecs(ls@) =~= target);
    } else {
        // find the closing line
        let mut j: usize = i + 1;
        while j < n && !line_has_close(ls[j].as_slice())
            invariant
                n == ls@.len(),
                all == char_vecs(ls@),
                i < j <= n,
                first_index_from(all, closes(), i + 1) == first_index_from(all, closes(), j as int),
            decreases n - j,
        {
            assert(all[j as int] == ls@[j as int]@);
            j = j + 1;
        }
        if j == n {
            return Err(no_terms_array(ring_level));
        }
        assert(all[j as int] == ls@[j as int]@);
        if !blank_before_close(ls[j].as_slice()) {
            let nl = term_on_line(ls[j].as_slice(), tc.as_slice());
            ls[j] = nl;
            assert(char_vecs(ls@) =~= target);
        } else {
            // the last non-blank line before the closing one
            assert(nonblank()(all[i0])) by {
                lemma_first_terms_line(all, h, 0);
                assert(terms_key().is_prefix_of(trim(all[i0])));
            }
            let mut k: usize = j;
            while trimmed_of(ls[k - 1].as_slice()).len() == 0
                invariant
                    n == ls@.len(),
                    all == char_vecs(ls@),
                    i < k <= j < n,
                    i0 == i as int,
                    nonblank()(all[i0]),
                    last_index_below(all, nonblank(), j as int) == last_index_below(
                        all,
                        nonblank(),
                        k as int,
                    ),
                decreases k,
            {
                assert(all[k - 1] == ls@[k - 1]@);
                assert(!nonblank()(all[k - 1]));
                k = k - 1;
            }
            assert(all[k - 1] == ls@[k - 1]@);
            let k = k - 1;
            assert(last_index_below(all, nonblank(), j as int) == k as int);
            let t = trimmed_of(ls[k].as_slice());
            if !(t.len() > 0 && (t[t.len() - 1] == ',' || t[t.len() - 1] == '[')) {
                let mut line = copy_chars(ls[k].as_slice());
                line.push(',');
                ls[k] = line;
            }
            let mut item = owned("  \"");
            item.append(term);
            item.append("\",");
            let item_c = chars_of(item.as_str());
            ls.insert(j, item_c);
            assert(char_vecs(ls@) =~= target);
        }
    }
    let out = ls;
    let joined = join_line_range(&out, 0, out.len());
    assert(char_vecs(out@).subrange(0, out@.len() as int) =~= char_vecs(out@));
    let mut text = string_of(joined.as_slice());
    if cs.len() > 0 && cs[cs.len() - 1] == '\n' {
        text.push('\n');
    }
    assert(text@ =~= rejoin(raw@, char_vecs(out@)));
    Ok(text)
}

} // verus!
