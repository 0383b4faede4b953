use exkernel::commands::new::{insert_term_in_toml, node_template, ring_needs_term, titlecase};
use exkernel::config::{Config, Meta, Ring};

#[test]
fn test_titlecase_simple() {
    assert_eq!(titlecase("existence"), "Existence");
}

#[test]
fn test_titlecase_hyphenated() {
    assert_eq!(titlecase("domain-model"), "Domain Model");
}

#[test]
fn test_titlecase_multiple_hyphens() {
    assert_eq!(titlecase("my-long-term"), "My Long Term");
}

#[test]
fn titlecase_edges() {
    assert_eq!(titlecase(""), "");
    assert_eq!(titlecase("a--b"), "A  B");
    assert_eq!(titlecase("mIxED-CASE"), "Mixed Case");
    assert_eq!(titlecase("ßig"), "SSig");
}

#[test]
fn test_insert_term_in_toml_single_line() {
    let toml = r#"[meta]
name = "test"
description = "test"

[rings.0]
name = "kernel"
description = "core"
terms = ["existence", "entity"]
"#;
    let updated = insert_term_in_toml(toml, 0, "focus").unwrap();
    assert!(
        updated.contains(r#"terms = ["existence", "entity", "focus"]"#),
        "Got: {updated}"
    );
}

#[test]
fn test_insert_term_in_toml_multi_line() {
    let toml = r#"[meta]
name = "test"
description = "test"

[rings.0]
name = "kernel"
description = "core"
terms = [
  "existence",
  "entity",
]
"#;
    let updated = insert_term_in_toml(toml, 0, "focus").unwrap();
    assert!(updated.contains("\"focus\","), "Got: {updated}");
    // Verify it parses correctly
    let table: toml::Table = toml::from_str(&updated).unwrap();
    let terms = table["rings"]["0"]["terms"].as_array().unwrap();
    assert!(terms.iter().any(|t| t.as_str() == Some("focus")));
}

#[test]
fn test_insert_term_in_toml_empty_array() {
    let toml = r#"[meta]
name = "test"
description = "test"

[rings.0]
name = "kernel"
description = "core"
terms = []
"#;
    let updated = insert_term_in_toml(toml, 0, "focus").unwrap();
    assert!(
        updated.contains(r#"terms = ["focus"]"#),
        "Got: {updated}"
    );
}

#[test]
fn insert_term_exact_and_errors() {
    let toml = "[rings.1]\nterms = [\"a\"]\n[rings.0]\nname = \"k\"\nterms = [\"x\"]  # c\n";
    assert_eq!(
        insert_term_in_toml(toml, 0, "y"),
        Ok("[rings.1]\nterms = [\"a\"]\n[rings.0]\nname = \"k\"\nterms = [\"x\", \"y\"]  # c\n".to_string())
    );
    assert_eq!(
        insert_term_in_toml("[rings.0]\nterms = [\n\"x\"", 0, "y"),
        Err("Could not find terms array for ring 0 in exkernel.toml".to_string())
    );
    assert_eq!(
        insert_term_in_toml("[rings.0]\nname = \"k\"\n", 0, "y"),
        Err("Could not find terms array for ring 0 in exkernel.toml".to_string())
    );
    assert_eq!(
        insert_term_in_toml("[rings.10]\nterms = []", 10, "y"),
        Ok("[rings.10]\nterms = [\"y\"]".to_string())
    );
}

#[test]
fn new_node_text() {
    let content = node_template("focus", None);
    assert!(content.starts_with("# Focus\n"));
    assert!(content.contains("## [Ontology](./ontology.md)"));
    assert!(content.contains("## [Axiology](./axiology.md)"));
    assert!(content.contains("## [Epistemology](./epistemology.md)"));
    assert!(content.contains("*Definition to be documented.*"));
    let with = node_template("domain-model", Some("Elements that repeat in a predictable manner."));
    assert!(with.starts_with("# Domain Model\n"));
    assert!(with.contains("Elements that repeat in a predictable manner."));
    assert!(!with.contains("*Definition to be documented.*"));
}

fn config() -> Config {
    Config {
        meta: Meta { name: "test".to_string(), description: "test ontology".to_string() },
        rings: vec![
            (
                "0".to_string(),
                Ring {
                    name: "kernel".to_string(),
                    description: "core".to_string(),
                    terms: vec!["existence".to_string(), "entity".to_string()],
                },
            ),
            (
                "1".to_string(),
                Ring {
                    name: "software".to_string(),
                    description: "bridge".to_string(),
                    terms: vec!["state".to_string()],
                },
            ),
        ],
        sources: Vec::new(),
    }
}

#[test]
fn ring_membership_decides_insertion() {
    let c = config();
    assert_eq!(ring_needs_term(&c, "focus", 0), Ok(true));
    assert_eq!(ring_needs_term(&c, "entity", 0), Ok(false));
    let err = ring_needs_term(&c, "focus", 5).unwrap_err();
    assert!(err.contains("Ring 5 not defined"), "Unexpected error: {err}");
}
