use exkernel::commands::fetch::parse_github_source;
use exkernel::commands::graph::build_graph;
use exkernel::commands::lint::{broken_link_error, lint_content, lint_files, lint_report};
use exkernel::commands::new::{insert_term_in_toml, node_template};
use exkernel::commands::search::{load_ring_map, search};
use exkernel::config::{Config, Meta, Ring};
use exkernel::markdown::{extract_links, extract_section, extract_title, md_term, Node};
use exkernel::text::{parse_u32_chars, push_decimal};

fn ring(name: &str, terms: &[&str]) -> Ring {
    Ring {
        name: name.to_string(),
        description: String::new(),
        terms: terms.iter().map(|t| t.to_string()).collect(),
    }
}

fn names(ts: &[&str]) -> Vec<String> {
    ts.iter().map(|t| t.to_string()).collect()
}

const CLEAN: &str = "# Focus\n\n## [Ontology](./ontology.md)\n\nSee [scope](./scope.md).\n\n## [Axiology](./axiology.md)\n\nv\n\n## [Epistemology](./epistemology.md)\n\nk\n";

#[test]
fn law_lint_clean_on_values() {
    let all = names(&["ontology", "axiology", "epistemology", "scope"]);
    assert!(lint_content(CLEAN, "focus.md", &all).is_empty());
    let without_scope = names(&["ontology", "axiology", "epistemology"]);
    assert_eq!(
        lint_content(CLEAN, "focus.md", &without_scope),
        vec![broken_link_error("scope", "focus.md")]
    );
}

#[test]
fn law_broken_link_reported_on_values() {
    let errors = lint_content(CLEAN, "focus.md", &names(&["scope"]));
    assert!(errors.contains(&broken_link_error("ontology", "focus.md")));
    assert!(!errors.contains(&broken_link_error("scope", "focus.md")));
    assert!(!errors.contains(&broken_link_error("entity", "focus.md")));
}

#[test]
fn law_directory_clean_on_values() {
    let all = names(&["ontology", "axiology", "epistemology", "scope"]);
    let good = vec![("focus.md".to_string(), CLEAN.to_string())];
    assert_eq!(lint_report(&lint_files(&good, &all)).1, Ok(()));
    let mixed = vec![
        ("focus.md".to_string(), CLEAN.to_string()),
        ("bad.md".to_string(), "no title".to_string()),
    ];
    assert!(lint_report(&lint_files(&mixed, &all)).1.is_err());
}

#[test]
fn law_title_found_iff_title_line_on_values() {
    for content in ["# T\nx", "## Not a title\n", "  # Spaced  \n", "#NoSpace\n"] {
        let missing = lint_content(content, "t.md", &[])
            .contains(&"Missing title (# Term)".to_string());
        assert_eq!(extract_title(content).is_some(), !missing);
    }
}

#[test]
fn law_found_section_is_seen_on_values() {
    let content = "# T\n## Ontology notes\nbody\n";
    assert_eq!(extract_section(content, "Ontology"), Some("body".to_string()));
    let errors = lint_content(content, "t.md", &[]);
    assert!(!errors.contains(&"Missing required section: ## [Ontology]".to_string()));
}

#[test]
fn law_get_ring_is_listed_on_values() {
    let config = Config {
        meta: Meta { name: "t".to_string(), description: "t".to_string() },
        rings: vec![
            ("010".to_string(), ring("padded", &[])),
            ("10".to_string(), ring("ten", &[])),
            ("2".to_string(), ring("two", &[])),
        ],
        sources: Vec::new(),
    };
    let found = config.get_ring(10).unwrap();
    assert_eq!(found.name, "ten");
    let sorted = config.rings_sorted();
    assert!(sorted.iter().any(|(n, r)| *n == 10 && r.name == "ten"));
    assert_eq!(sorted.iter().map(|(n, _)| *n).collect::<Vec<_>>(), vec![2, 10, 10]);
}

#[test]
fn law_decimal_parses_back_on_values() {
    let mut s = String::from("n=");
    push_decimal(&mut s, 4294967295);
    assert_eq!(s, "n=4294967295");
    let digits: Vec<char> = "4294967295".chars().collect();
    assert_eq!(parse_u32_chars(&digits), Some(u32::MAX));
    let plus: Vec<char> = "+7".chars().collect();
    assert_eq!(parse_u32_chars(&plus), Some(7));
    let over: Vec<char> = "4294967296".chars().collect();
    assert_eq!(parse_u32_chars(&over), None);
}

#[test]
fn law_github_source_form_on_values() {
    assert_eq!(
        parse_github_source("github:org/repo/extra"),
        Ok(("org".to_string(), "repo/extra".to_string()))
    );
    assert!(parse_github_source("github:org").is_err());
    assert!(parse_github_source("github:/repo").is_err());
}

#[test]
fn law_graph_edges_join_nodes_on_values() {
    let files = vec![
        ("a".to_string(), "# A\n[b](./b.md) [c](./c.md) [z](./z.md)\n".to_string()),
        ("b".to_string(), "# B\n[a](./a.md)\n".to_string()),
        ("c".to_string(), "# C\n[a](./a.md)\n".to_string()),
    ];
    let existing = names(&["a", "b", "c"]);
    let filter = names(&["a", "b"]);
    let g = build_graph(&existing, &files, Some(&filter));
    assert_eq!(g.nodes, names(&["a", "b"]));
    for (from, to) in &g.edges {
        assert!(g.nodes.contains(from));
        assert!(filter.contains(to) && existing.contains(to));
    }
    assert_eq!(
        g.edges,
        vec![("a".to_string(), "b".to_string()), ("b".to_string(), "a".to_string())]
    );
}

fn ring0_terms(text: &str) -> Vec<String> {
    let table: toml::Table = toml::from_str(text).unwrap();
    table["rings"]["0"]["terms"]
        .as_array()
        .unwrap()
        .iter()
        .map(|t| t.as_str().unwrap().to_string())
        .collect()
}

#[test]
fn law_added_term_is_last_item_on_values() {
    let cases = [
        ("[rings.0]\nterms = [\n  \"a\",\n]\n", "[rings.0]\nterms = [\n  \"a\",\n  \"focus\",\n]\n"),
        (
            "[rings.0]\nterms = [\n  \"a\",\n  \"b\"\n]\n",
            "[rings.0]\nterms = [\n  \"a\",\n  \"b\",\n  \"focus\",\n]\n",
        ),
        ("[rings.0]\nterms = [\"a\", \"b\",]\n", "[rings.0]\nterms = [\"a\", \"b\", \"focus\"]\n"),
        ("[rings.0]\nterms = [\n  \"a\",\n  \"b\"]\n", "[rings.0]\nterms = [\n  \"a\",\n  \"b\", \"focus\"]\n"),
        (
            "[rings.0]\nterms = [\n  \"a\"\n\n]\n",
            "[rings.0]\nterms = [\n  \"a\",\n\n  \"focus\",\n]\n",
        ),
        ("[rings.0]\nterms = [\n]\n", "[rings.0]\nterms = [\n  \"focus\",\n]\n"),
    ];
    for (raw, expected) in cases {
        let before = ring0_terms(raw);
        let out = insert_term_in_toml(raw, 0, "focus").unwrap();
        assert_eq!(out, expected);
        let mut after = before.clone();
        after.push("focus".to_string());
        assert_eq!(ring0_terms(&out), after);
    }
}

#[test]
fn law_new_node_passes_lint_on_values() {
    let content = node_template("domain-model", None);
    let existing = names(&["ontology", "axiology", "epistemology"]);
    assert!(lint_content(&content, "domain-model.md", &existing).is_empty());
    assert_eq!(extract_title(&content), Some("Domain Model".to_string()));
}

fn search_config() -> Config {
    Config {
        meta: Meta { name: "t".to_string(), description: "t".to_string() },
        rings: vec![
            ("0".to_string(), ring("kernel", &["state"])),
            ("1".to_string(), ring("software", &["state", "model"])),
        ],
        sources: Vec::new(),
    }
}

#[test]
fn law_ring_level_is_highest_on_values() {
    let map = load_ring_map(&search_config());
    assert_eq!(map.get("state"), Some(1));
    assert_eq!(map.get("model"), Some(1));
    assert_eq!(map.get("other"), None);
}

#[test]
fn law_search_results_ranked_on_values() {
    let files = vec![
        ("state".to_string(), "# State\n\n## Ontology\n\nA state of things.\n".to_string()),
        ("model".to_string(), "# Model\n\n## Ontology\n\nA model of a state.\n".to_string()),
        ("other".to_string(), "# Other\n\nnothing here\n".to_string()),
    ];
    let map = load_ring_map(&search_config());
    let results = search(&files, Some(&map), "state", 10);
    assert_eq!(results.len(), 2);
    assert!(results.iter().all(|r| r.score > 0));
    assert!(results.windows(2).all(|w| w[0].score >= w[1].score));
    assert_eq!(results[0].term, "state");
    assert_eq!(results[0].score, 140);
    assert_eq!(results[1].term, "model");
    assert_eq!(results[1].score, 40);
}

#[test]
fn law_link_terms_are_names_on_values() {
    let links = extract_links("[a](./Upper.md) [b](./ok-1_x.md) [c](./.md) [d](./sp ace.md)");
    assert_eq!(links, names(&["ok-1_x"]));
}

#[test]
fn md_term_of_file_names() {
    assert_eq!(md_term("focus.md"), Some("focus".to_string()));
    assert_eq!(md_term("a.b.md"), Some("a.b".to_string()));
    assert_eq!(md_term(".md"), None);
    assert_eq!(md_term("notes.txt"), None);
    assert_eq!(md_term("md"), None);
}

#[test]
fn search_ignores_case() {
    let files = vec![("state".to_string(), "# State\n\n## Ontology\n\nThe STATE of things.\n".to_string())];
    let results = search(&files, None, "State", 10);
    assert_eq!(results.len(), 1);
    assert_eq!(results[0].score, 140);
    assert_eq!(results[0].ring, None);
}

#[test]
fn new_node_parses_back() {
    let content = node_template("domain-model", Some("  Elements that\nrepeat.  "));
    let node = Node::parse(&content).unwrap();
    assert_eq!(node.title, "Domain Model");
    assert_eq!(node.ontology, Some("Elements that\nrepeat.".to_string()));
    let plain = node_template("focus", None);
    let node = Node::parse(&plain).unwrap();
    assert_eq!(node.title, "Focus");
    assert_eq!(node.ontology, Some("*Definition to be documented.*".to_string()));
}

#[test]
fn new_node_links_and_lint() {
    let content = node_template("domain-model", Some("Elements that repeat."));
    assert_eq!(extract_links(&content), names(&["ontology", "axiology", "epistemology"]));
    let existing = names(&["axiology", "epistemology", "ontology"]);
    assert!(lint_content(&content, "domain-model.md", &existing).is_empty());
    let missing = names(&["axiology", "ontology"]);
    assert_eq!(
        lint_content(&content, "domain-model.md", &missing),
        vec![broken_link_error("epistemology", "domain-model.md")]
    );
}

#[test]
fn out_of_order_sections_give_a_result() {
    use_definition("## Ontology\n## Axiology\n## Ontology\nx", "x");
    use_definition("# T\n## Ontology\n## Axiology\n## Ontology\n", "T");
    let files = vec![("t".to_string(), "## Ontology\n## Axiology\n## Ontology\nt here\n".to_string())];
    let results = search(&files, None, "t", 10);
    assert_eq!(results.len(), 1);
    assert_eq!(results[0].definition, "t here");
}

fn use_definition(content: &str, expected: &str) {
    assert_eq!(exkernel::commands::search::extract_definition(content), expected);
}

#[test]
fn numbered_rings_one_per_numeric_key() {
    let config = Config {
        meta: Meta { name: "t".to_string(), description: "t".to_string() },
        rings: vec![
            ("1".to_string(), ring("one", &[])),
            ("x".to_string(), ring("x", &[])),
            ("0".to_string(), ring("zero", &[])),
        ],
        sources: Vec::new(),
    };
    assert_eq!(config.rings_sorted().len(), 2);
}
