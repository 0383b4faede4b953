use exkernel::commands::search::{
    compute_score, extract_definition, load_ring_map, search, SearchResult, WEIGHT_BODY,
    WEIGHT_DEFINITION, WEIGHT_NAME_EXACT, WEIGHT_NAME_SUBSTRING,
};
use exkernel::config::{Config, Meta, Ring};

fn test_config() -> Config {
    Config {
        meta: Meta { name: "test".to_string(), description: "test ontology".to_string() },
        rings: vec![
            (
                "0".to_string(),
                Ring {
                    name: "kernel".to_string(),
                    description: "core".to_string(),
                    terms: vec!["existence".to_string(), "evolution".to_string()],
                },
            ),
            (
                "1".to_string(),
                Ring {
                    name: "software".to_string(),
                    description: "bridge".to_string(),
                    terms: vec!["state".to_string()],
                },
            ),
        ],
        sources: Vec::new(),
    }
}

fn test_files() -> Vec<(String, String)> {
    vec![
        (
            "existence".to_string(),
            r#"# Existence

## [Ontology](./ontology.md)

Everything that 'is', or more simply, everything.

## [Axiology](./axiology.md)

Existence is the Universal Set of everything, including itself.
"#
            .to_string(),
        ),
        (
            "evolution".to_string(),
            r#"# Evolution

## [Ontology](./ontology.md)

The altering of an Entity or lineage of Entities as a learned response to the environment.

## [Axiology](./axiology.md)

Evolution is how an Entity changes in response to its context.
"#
            .to_string(),
        ),
        (
            "state".to_string(),
            r#"# State

## [Ontology](./ontology.md)

The condition of the Entity and its members.

## [Axiology](./axiology.md)

State is change captured at a moment.
"#
            .to_string(),
        ),
    ]
}

fn run_search(query: &str, limit: usize) -> Vec<SearchResult> {
    let map = load_ring_map(&test_config());
    search(&test_files(), Some(&map), query, limit)
}

#[test]
fn test_search_exact_name() {
    let results = run_search("existence", 10);
    assert!(!results.is_empty());
    assert_eq!(results[0].term, "existence");
    assert!(results[0].score >= WEIGHT_NAME_EXACT);
}

#[test]
fn test_search_substring_name() {
    let results = run_search("exist", 10);
    assert!(!results.is_empty());
    assert_eq!(results[0].term, "existence");
}

#[test]
fn test_search_body_match() {
    // "change" appears in evolution and state body text
    let results = run_search("change", 10);
    assert!(!results.is_empty());
    let terms: Vec<&str> = results.iter().map(|r| r.term.as_str()).collect();
    assert!(
        terms.contains(&"evolution") || terms.contains(&"state"),
        "Expected to find evolution or state, got: {terms:?}"
    );
}

#[test]
fn test_search_limit() {
    let results = run_search("entity", 1);
    assert!(results.len() <= 1);
}

#[test]
fn test_search_no_results() {
    let results = run_search("zzzznonexistent", 10);
    assert!(results.is_empty());
}

#[test]
fn test_search_ring_mapping() {
    let results = run_search("existence", 10);
    assert_eq!(results[0].ring, Some(0));

    let results = run_search("state", 10);
    let state_result = results.iter().find(|r| r.term == "state").unwrap();
    assert_eq!(state_result.ring, Some(1));
}

#[test]
fn test_extract_definition() {
    let content = r#"# Existence

## [Ontology](./ontology.md)

Everything that 'is', or more simply, everything.

## [Axiology](./axiology.md)

Some value content.
"#;
    let def = extract_definition(content);
    assert_eq!(def, "Everything that 'is', or more simply, everything.");
}

#[test]
fn test_search_definition_match() {
    // "condition" appears only in state's definition
    let results = run_search("condition", 10);
    assert!(!results.is_empty());
    let state_result = results.iter().find(|r| r.term == "state").unwrap();
    assert!(state_result.score >= WEIGHT_DEFINITION);
}

#[test]
fn definition_fallbacks() {
    assert_eq!(extract_definition("# Only Title\ntext\n"), "Only Title");
    assert_eq!(extract_definition("no title\n## Ontology\nx\n"), "x");
    assert_eq!(extract_definition("## [Ontology](./ontology.md)\n\nA thing.\n"), "A thing.");
    assert_eq!(extract_definition("no title\n## Axiology\nx\n"), "(no definition)");
    assert_eq!(extract_definition("# T\n## [Ontology](./ontology.md)\n\n"), "T");
}

#[test]
fn scores_exact() {
    let files = test_files();
    let (t, c) = &files[0];
    assert_eq!(compute_score(t, c, "existence"), WEIGHT_NAME_EXACT + WEIGHT_BODY);
    assert_eq!(compute_score(t, c, "exist"), WEIGHT_NAME_SUBSTRING + WEIGHT_BODY);
    assert_eq!(compute_score(t, c, "simply"), WEIGHT_DEFINITION + WEIGHT_BODY);
    assert_eq!(compute_score("domain-model", "# D\n", "domain model"), WEIGHT_NAME_EXACT);
    assert_eq!(compute_score("State", "# S\n", "state"), WEIGHT_NAME_EXACT);
}

#[test]
fn search_order_score_then_term() {
    let results = run_search("entity", 10);
    let got: Vec<(&str, u32)> = results.iter().map(|r| (r.term.as_str(), r.score)).collect();
    assert_eq!(got, vec![("evolution", 40), ("state", 40)]);
    let map = load_ring_map(&test_config());
    assert_eq!(map.get("evolution"), Some(0));
    assert_eq!(map.get("nothing"), None);
    let no_map = search(&test_files(), None, "State", 10);
    assert_eq!(no_map[0].term, "state");
    assert_eq!(no_map[0].ring, None);
    assert_eq!(no_map[0].definition, "The condition of the Entity and its members.");
}

#[test]
fn ring_map_takes_highest_ring() {
    let mut c = test_config();
    c.rings.push((
        "2".to_string(),
        Ring { name: "x".to_string(), description: "y".to_string(), terms: vec!["existence".to_string()] },
    ));
    c.rings.push((
        "zz".to_string(),
        Ring { name: "x".to_string(), description: "y".to_string(), terms: vec!["state".to_string()] },
    ));
    let map = load_ring_map(&c);
    assert_eq!(map.get("existence"), Some(2));
    assert_eq!(map.get("state"), Some(1));
}
