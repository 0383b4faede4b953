use exkernel::commands::fetch::{github_url, parse_github_source, run};
use exkernel::config::{Config, Meta};

#[test]
fn test_parse_github_source() {
    let (org, repo) = parse_github_source("github:existential-kernel/ontology").unwrap();
    assert_eq!(org, "existential-kernel");
    assert_eq!(repo, "ontology");
}

#[test]
fn test_parse_github_source_invalid() {
    assert!(parse_github_source("gitlab:foo/bar").is_err());
    assert!(parse_github_source("github:").is_err());
    assert!(parse_github_source("github:/repo").is_err());
    assert!(parse_github_source("github:org/").is_err());
}

#[test]
fn parse_github_source_keeps_later_slashes() {
    assert_eq!(
        parse_github_source("github:org/repo/sub"),
        Ok(("org".to_string(), "repo/sub".to_string()))
    );
    assert_eq!(
        parse_github_source("github:orgrepo"),
        Err("Invalid source format 'github:orgrepo'. Expected: github:org/repo".to_string())
    );
}

fn config_with_sources(sources: Vec<(&str, &str)>) -> Config {
    Config {
        meta: Meta { name: "t".to_string(), description: "t".to_string() },
        rings: Vec::new(),
        sources: sources.into_iter().map(|(a, b)| (a.to_string(), b.to_string())).collect(),
    }
}

#[test]
fn fetch_plan_cases() {
    assert_eq!(
        run(Some("github:a/b"), None),
        Ok(vec![("cli".to_string(), "github:a/b".to_string())])
    );
    assert_eq!(
        run(None, None),
        Err("No source specified and no exkernel.toml found. Usage: exkernel fetch github:org/repo".to_string())
    );
    let empty = config_with_sources(vec![]);
    assert_eq!(
        run(None, Some(&empty)),
        Err("No source specified and no [sources] section in exkernel.toml".to_string())
    );
    let two = config_with_sources(vec![("a", "github:x/y"), ("b", "github:z/w")]);
    assert_eq!(
        run(None, Some(&two)),
        Ok(vec![
            ("a".to_string(), "github:x/y".to_string()),
            ("b".to_string(), "github:z/w".to_string())
        ])
    );
    assert_eq!(github_url("o", "r"), "https://github.com/o/r.git");
}
