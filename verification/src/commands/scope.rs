use vstd::prelude::*;
use crate::commands::new::{ring_undefined, ring_undefined_message};
use crate::config::{
    deref_rings, key_index_from, level_key, level_order, numbered_rings, ring_keys, Config, Ring,
};
use crate::sorting::{lemma_stable_sort_elements, stable_sort_of};
use crate::text::{contains, decimal, lemma_contains_extend, occurs_at, owned, push_decimal, strs};

verus! {

/// `Ring N — name (description)` and a newline.
pub open spec fn ring_heading(level: u32, r: Ring) -> Seq<char> {
    "Ring "@ + decimal(level as nat) + " — "@ + r.name@ + " ("@ + r.description@ + ")\n"@
}

/// One indented line per term.
pub open spec fn term_lines(ts: Seq<Seq<char>>) -> Seq<char>
    decreases ts.len(),
{
    if ts.len() == 0 {
        seq![]
    } else {
        term_lines(ts.drop_last()) + "  "@ + ts.last() + "\n"@
    }
}

/// What `scope N` prints for one ring.
pub open spec fn scope_of_ring(level: u32, r: Ring) -> Seq<char> {
    ring_heading(level, r) + "\n"@ + term_lines(strs(r.terms@))
}

/// What `scope` prints for all rings, in the given order.
pub open spec fn scope_of_rings(rs: Seq<(u32, Ring)>) -> Seq<char>
    decreases rs.len(),
{
    if rs.len() == 0 {
        seq![]
    } else {
        scope_of_rings(rs.drop_last()) + ring_heading(rs.last().0, rs.last().1) + term_lines(
            strs(rs.last().1.terms@),
        ) + "\n"@
    }
}

/// The listing of rings shows, for each ring given, its heading line followed
/// by its term lines and a blank line, whether or not it has terms.
pub proof fn law_scope_shows_every_ring(rs: Seq<(u32, Ring)>)
    ensures
        forall|k: int|
            0 <= k < rs.len() ==> contains(
                scope_of_rings(rs),
                ring_heading(#[trigger] rs[k].0, rs[k].1) + term_lines(strs(rs[k].1.terms@)) + "\n"@,
            ),
    decreases rs.len(),
{
    if rs.len() > 0 {
        let d = rs.drop_last();
        law_scope_shows_every_ring(d);
        let pre = scope_of_rings(d);
        let last = rs.last();
        let block = ring_heading(last.0, last.1) + term_lines(strs(last.1.terms@)) + "\n"@;
        assert(scope_of_rings(rs) =~= pre + block);
        assert forall|k: int|
            0 <= k < rs.len() implies contains(
                scope_of_rings(rs),
                ring_heading(#[trigger] rs[k].0, rs[k].1) + term_lines(strs(rs[k].1.terms@)) + "\n"@,
            ) by {
            if k < rs.len() - 1 {
                assert(rs[k] == d[k]);
                let bk = ring_heading(d[k].0, d[k].1) + term_lines(strs(d[k].1.terms@)) + "\n"@;
                assert(contains(pre, bk));
                lemma_contains_extend(seq![], pre, block, bk);
                assert(seq![] + pre + block =~= scope_of_rings(rs));
            } else {
                assert(rs[k] == last);
                assert(occurs_at(block, block, 0)) by {
                    assert(block.subrange(0, block.len() as int) =~= block);
                }
                lemma_contains_extend(pre, block, seq![], block);
                assert(pre + block + seq![] =~= scope_of_rings(rs));
            }
        }
    }
}

/// Listing all rings shows every numbered ring of the config, with its
/// heading and its terms, whether or not it has terms.
pub proof fn law_scope_shows_every_numbered_ring(config: Config, sorted: Seq<(u32, Ring)>, n: u32, r: Ring)
    requires
        stable_sort_of(sorted, numbered_rings(config.rings@), level_key(), level_order()),
        numbered_rings(config.rings@).contains((n, r)),
    ensures
        contains(scope_of_rings(sorted), ring_heading(n, r) + term_lines(strs(r.terms@)) + "\n"@),
{
    lemma_stable_sort_elements(sorted, numbered_rings(config.rings@), level_key(), level_order());
    law_scope_shows_every_ring(sorted);
    assert(sorted.contains((n, r)));
    let k = choose|k: int| 0 <= k < sorted.len() && sorted[k] == (n, r);
    assert(sorted[k].0 == n && sorted[k].1 == r);
}

fn push_heading(out: &mut String, level: u32, r: &Ring)
    ensures
        final(out)@ == old(out)@ + ring_heading(level, *r),
{
    out.append("Ring ");
    push_decimal(out, level as u64);
    out.append(" — ");
    out.append(r.name.as_str());
    out.append(" (");
    out.append(r.description.as_str());
    out.append(")\n");
    assert(final(out)@ =~= old(out)@ + ring_heading(level, *r));
}

fn push_terms(out: &mut String, r: &Ring)
    ensures
        final(out)@ == old(out)@ + term_lines(strs(r.terms@)),
{
    let ghost ts = strs(r.terms@);
    let ghost base = out@;
    let mut i: usize = 0;
    assert(ts.take(0) =~= Seq::<Seq<char>>::empty());
    assert(out@ =~= base + term_lines(ts.take(0)));
    while i < r.terms.len()
        invariant
            i <= r.terms@.len(),
            ts == strs(r.terms@),
            out@ == base + term_lines(ts.take(i as int)),
        decreases r.terms.len() - i,
    {
        assert(ts.take(i + 1).drop_last() =~= ts.take(i as int));
        assert(ts.take(i + 1).last() == r.terms@[i as int]@);
        out.append("  ");
        out.append(r.terms[i].as_str());
        out.append("\n");
        i = i + 1;
        assert(out@ =~= base + term_lines(ts.take(i as int)));
    }
    assert(ts.take(r.terms@.len() as int) =~= ts);
}

/// What the `scope` command prints: one ring's terms, or, without a level,
/// every numbered ring's terms in order of level.
pub fn render_scope(config: &Config, ring: Option<u32>) -> (r: Result<String, String>)
    ensures
        match ring {
            Some(level) => {
                let i = key_index_from(ring_keys(config.rings@), decimal(level as nat), 0);
                if i < config.rings@.len() {
                    r matches Ok(s) && s@ == scope_of_ring(level, config.rings@[i].1)
                } else {
                    r matches Err(e) && e@ == ring_undefined_message(level)
                }
            },
            None => r matches Ok(s) && exists|sorted: Seq<(u32, Ring)>|
                {
                    &&& stable_sort_of(
                        sorted,
                        numbered_rings(config.rings@),
                        level_key(),
                        level_order(),
                    )
                    &&& s@ == scope_of_rings(sorted)
                },
        },
{
    match ring {
        Some(level) => match config.get_ring(level) {
            None => Err(ring_undefined(level)),
            Some(rg) => {
                let mut out = String::new();
                push_heading(&mut out, level, rg);
                out.append("\n");
                push_terms(&mut out, rg);
                assert(out@ =~= scope_of_ring(level, *rg));
                Ok(out)
            },
        },
        None => {
            let sorted = config.rings_sorted();
            let ghost rs = deref_rings(sorted@);
            let mut out = String::new();
            let mut i: usize = 0;
            assert(rs.take(0) =~= Seq::<(u32, Ring)>::empty());
            assert(out@ =~= scope_of_rings(rs.take(0)));
            while i < sorted.len()
                invariant
                    i <= sorted@.len(),
                    rs == deref_rings(sorted@),
                    out@ == scope_of_rings(rs.take(i as int)),
                decreases sorted.len() - i,
            {
                assert(rs.take(i + 1).drop_last() =~= rs.take(i as int));
                assert(rs.take(i + 1).last() == (sorted@[i as int].0, *sorted@[i as int].1));
                let (level, rg) = sorted[i];
                push_heading(&mut out, level, rg);
                push_terms(&mut out, rg);
                out.append("\n");
                i = i + 1;
                assert(out@ =~= scope_of_rings(rs.take(i as int)));
            }
            assert(rs.take(sorted@.len() as int) =~= rs);
            Ok(out)
        },
    }
}

} // verus!
