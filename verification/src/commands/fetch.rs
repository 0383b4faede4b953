use vstd::prelude::*;
use crate::config::Config;
use crate::text::{chars_of, owned, string_of};

verus! {

/// `"github:"`
pub open spec fn github_prefix() -> Seq<char> {
    seq!['g', 'i', 't', 'h', 'u', 'b', ':']
}

/// The first index of `/` at or after `i`, or the length.
pub open spec fn slash_from(s: Seq<char>, i: int) -> int
    decreases s.len() - i,
{
    if i >= s.len() {
        s.len() as int
    } else if s[i] == '/' {
        i
    } else {
        slash_from(s, i + 1)
    }
}

/// A source `github:org/repo`: after the prefix, the text up to the first `/`
/// is the organisation and the rest the repository; neither may be empty.
pub open spec fn github_source(source: Seq<char>) -> Option<(Seq<char>, Seq<char>)> {
    if github_prefix().is_prefix_of(source) {
        let rest = source.skip(7);
        let k = slash_from(rest, 0);
        if k < rest.len() && k > 0 && k + 1 < rest.len() {
            Some((rest.take(k), rest.skip(k + 1)))
        } else {
            None
        }
    } else {
        None
    }
}

/// The message for a source that is not `github:org/repo`.
pub open spec fn invalid_source_message(source: Seq<char>) -> Seq<char> {
    "Invalid source format '"@ + source + "'. Expected: github:org/repo"@
}

pub proof fn lemma_slash_from(s: Seq<char>, i: int)
    requires
        0 <= i <= s.len(),
    ensures
        i <= slash_from(s, i) <= s.len(),
        slash_from(s, i) < s.len() ==> s[slash_from(s, i)] == '/',
        forall|j: int| i <= j < slash_from(s, i) ==> #[trigger] s[j] != '/',
    decreases s.len() - i,
{
    if i < s.len() && s[i] != '/' {
        lemma_slash_from(s, i + 1);
    }
}

/// A source names `(org, repo)` exactly when it reads `github:` + org + `/`
/// + repo, with a non-empty org that holds no `/` and a non-empty repo.
pub proof fn law_github_source_form(source: Seq<char>, org: Seq<char>, repo: Seq<char>)
    ensures
        github_source(source) == Some((org, repo)) <==> {
            &&& source == github_prefix() + org + seq!['/'] + repo
            &&& org.len() > 0
            &&& !org.contains('/')
            &&& repo.len() > 0
        },
{
    let formed = github_prefix() + org + seq!['/'] + repo;
    if github_source(source) == Some((org, repo)) {
        let rest = source.skip(7);
        let k = slash_from(rest, 0);
        lemma_slash_from(rest, 0);
        assert(org =~= rest.take(k));
        assert(repo =~= rest.skip(k + 1));
        assert(source =~= formed) by {
            assert(source.take(7) =~= github_prefix());
            assert(source =~= source.take(7) + rest);
            assert(rest =~= rest.take(k) + seq!['/'] + rest.skip(k + 1));
        }
        if org.contains('/') {
            let j = choose|j: int| 0 <= j < org.len() && org[j] == '/';
            assert(rest[j] == '/');
            assert(false);
        }
    }
    if source == formed && org.len() > 0 && !org.contains('/') && repo.len() > 0 {
        assert(github_prefix().is_prefix_of(source)) by {
            assert(source.take(7) =~= github_prefix());
        }
        let rest = source.skip(7);
        assert(rest =~= org + seq!['/'] + repo);
        let m = org.len() as int;
        assert(rest[m] == '/');
        lemma_slash_from(rest, 0);
        let k = slash_from(rest, 0);
        if k < m {
            assert(rest[k] == org[k]);
            assert(org.contains(org[k]));
            assert(false);
        }
        assert(k == m);
        assert(rest.take(k) =~= org);
        assert(rest.skip(k + 1) =~= repo);
    }
}

fn invalid_source(source: &str) -> (r: String)
    ensures
        r@ == invalid_source_message(source@),
{
    let mut m = owned("Invalid source format '");
    m.append(source);
    m.append("'. Expected: github:org/repo");
    m
}

/// Parse `github:org/repo` into `(org, repo)`.
pub fn parse_github_source(source: &str) -> (r: Result<(String, String), String>)
    ensures
        match github_source(source@) {
            Some((org, repo)) => r matches Ok((o, p)) && o@ == org && p@ == repo,
            None => r matches Err(e) && e@ == invalid_source_message(source@),
        },
{
    let s = chars_of(source);
    let prefix = ['g', 'i', 't', 'h', 'u', 'b', ':'];
    if !crate::text::starts_with(s.as_slice(), &prefix) {
        return Err(invalid_source(source));
    }
    let rest = &s.as_slice()[7..s.len()];
    assert(rest@ =~= source@.skip(7));
    proof {
        lemma_slash_from(rest@, 0);
    }
    let mut k: usize = 0;
    while k < rest.len() && rest[k] != '/'
        invariant
            k <= rest@.len(),
            slash_from(rest@, 0) == slash_from(rest@, k as int),
        decreases rest.len() - k,
    {
        k = k + 1;
    }
    if !(k < rest.len() && k > 0 && rest.len() - k > 1) {
        return Err(invalid_source(source));
    }
    let org = string_of(&rest[0..k]);
    let repo = string_of(&rest[k + 1..rest.len()]);
    assert(rest@.subrange(0, k as int) =~= rest@.take(k as int));
    assert(rest@.subrange(k + 1, rest@.len() as int) =~= rest@.skip(k + 1));
    Ok((org, repo))
}

/// `"cli"`: the name of a source given on the command line.
pub open spec fn cli_name() -> Seq<char> {
    "cli"@
}

/// The sources to fetch: the one given, else those of the config's
/// `[sources]` table in key order; an error when there are none.
pub open spec fn fetch_plan(
    source: Option<Seq<char>>,
    config_sources: Option<Seq<(Seq<char>, Seq<char>)>>,
) -> Result<Seq<(Seq<char>, Seq<char>)>, Seq<char>> {
    match source {
        Some(s) => Ok(seq![(cli_name(), s)]),
        None => match config_sources {
            None => Err(
                "No source specified and no exkernel.toml found. Usage: exkernel fetch github:org/repo"@,
            ),
            Some(srcs) => if srcs.len() == 0 {
                Err("No source specified and no [sources] section in exkernel.toml"@)
            } else {
                Ok(srcs)
            },
        },
    }
}

/// The (name, source) pairs of a sources table.
pub open spec fn source_pairs(v: Seq<(String, String)>) -> Seq<(Seq<char>, Seq<char>)> {
    v.map_values(|p: (String, String)| (p.0@, p.1@))
}

pub open spec fn opt_sources(config: Option<&Config>) -> Option<Seq<(Seq<char>, Seq<char>)>> {
    match config {
        Some(c) => Some(source_pairs(c.sources@)),
        None => None,
    }
}

/// Decide what to fetch: the source given, or, without one, the sources of
/// `exkernel.toml` (`config` is `None` when that file does not exist).
pub fn run(source: Option<&str>, config: Option<&Config>) -> (r: Result<Vec<(String, String)>, String>)
    ensures
        match (r, fetch_plan(
            match source {
                Some(s) => Some(s@),
                None => None,
            },
            opt_sources(config),
        )) {
            (Ok(v), Ok(p)) => source_pairs(v@) == p,
            (Err(e), Err(m)) => e@ == m,
            _ => false,
        },
{
    match source {
        Some(s) => {
            let mut v: Vec<(String, String)> = Vec::new();
            v.push((owned("cli"), owned(s)));
            assert(source_pairs(v@) =~= seq![(cli_name(), s@)]);
            Ok(v)
        },
        None => match config {
            None => Err(
                owned(
                    "No source specified and no exkernel.toml found. Usage: exkernel fetch github:org/repo",
                ),
            ),
            Some(c) => {
                if c.sources.len() == 0 {
                    return Err(owned("No source specified and no [sources] section in exkernel.toml"));
                }
                let mut v: Vec<(String, String)> = Vec::new();
                let mut i: usize = 0;
                while i < c.sources.len()
                    invariant
                        i <= c.sources@.len(),
                        source_pairs(v@) == source_pairs(c.sources@).take(i as int),
                    decreases c.sources.len() - i,
                {
                    let ghost before = source_pairs(v@);
                    let name = c.sources[i].0.clone();
                    let src = c.sources[i].1.clone();
                    v.push((name, src));
                    assert(source_pairs(v@) =~= before.push(
                        (c.sources@[i as int].0@, c.sources@[i as int].1@),
                    ));
                    i = i + 1;
                    assert(source_pairs(c.sources@).take(i as int) =~= source_pairs(c.sources@).take(
                        i - 1,
                    ).push((c.sources@[i - 1].0@, c.sources@[i - 1].1@)));
                }
                assert(source_pairs(c.sources@).take(c.sources@.len() as int) =~= source_pairs(
                    c.sources@,
                ));
                Ok(v)
            },
        },
    }
}

/// The clone URL of a GitHub repository.
pub fn github_url(org: &str, repo: &str) -> (r: String)
    ensures
        r@ == "https://github.com/"@ + org@ + "/"@ + repo@ + ".git"@,
{
    let mut u = owned("https://github.com/");
    u.append(org);
    u.append("/");
    u.append(repo);
    u.append(".git");
    u
}

} // verus!
