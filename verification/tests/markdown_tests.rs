use exkernel::markdown::{
    extract_links, extract_section, extract_title, extract_unique_links, is_markdown_file,
    list_terms, Node,
};

const SAMPLE: &str = r#"# Existence

## [Ontology](./ontology.md)

Everything that 'is', or more simply, everything.

A [scoped](./scope.md) Existence, representing an [Entity's](./entity.md) [perspective](./perspective.md).

## [Axiology](./axiology.md)

Existence is the Universal Set of everything, including itself.

## [Epistemology](./epistemology.md)

Contrary to some [cultural](./culture.md) [definitions](./definition.md), Existence includes all thoughts.
"#;

#[test]
fn test_parse_node() {
    let node = Node::parse(SAMPLE).unwrap();
    assert_eq!(node.title, "Existence");
    assert!(node.ontology.is_some());
    assert!(node.axiology.is_some());
    assert!(node.epistemology.is_some());
    assert!(node.ethics.is_none());
}

#[test]
fn test_extract_title() {
    assert_eq!(
        extract_title("# Existence\n\nstuff"),
        Some("Existence".to_string())
    );
    assert_eq!(
        extract_title("## Not Title\n# Real Title"),
        Some("Real Title".to_string())
    );
    assert_eq!(extract_title("no heading"), None);
}

#[test]
fn test_extract_links() {
    let links = extract_links(
        "[scope](./scope.md) and [entity](./entity.md) plus [pattern](./pattern.md)",
    );
    assert_eq!(links, vec!["scope", "entity", "pattern"]);
}

#[test]
fn test_extract_unique_links() {
    let links = extract_unique_links("[a](./scope.md) [b](./scope.md) [c](./entity.md)");
    assert_eq!(links, vec!["entity", "scope"]);
}

#[test]
fn parse_node_sections_exact() {
    let node = Node::parse(SAMPLE).unwrap();
    assert_eq!(
        node.axiology.as_deref(),
        Some("Existence is the Universal Set of everything, including itself.")
    );
    assert_eq!(
        node.ontology.as_deref(),
        Some("Everything that 'is', or more simply, everything.\n\nA [scoped](./scope.md) Existence, representing an [Entity's](./entity.md) [perspective](./perspective.md).")
    );
    assert_eq!(node.raw, SAMPLE);
}

#[test]
fn parse_node_without_title_fails() {
    let r = Node::parse("## [Ontology](./ontology.md)\n\nText.\n");
    assert_eq!(r.err(), Some("No title (# heading) found".to_string()));
}

#[test]
fn title_strips_every_leading_marker() {
    assert_eq!(extract_title("  # # Deep  \n"), Some("Deep".to_string()));
    assert_eq!(extract_title("#NoSpace\n## Two\n"), None);
    assert_eq!(extract_title("\r\n# Crlf\r\n"), Some("Crlf".to_string()));
}

#[test]
fn section_plain_heading_and_empty_section() {
    let text = "# T\n## Ethics\n\n  kindness  \n## Other\nx\n## Axiology\n\n";
    assert_eq!(extract_section(text, "Ethics"), Some("kindness".to_string()));
    assert_eq!(extract_section(text, "Axiology"), None);
    assert_eq!(extract_section(text, "Missing"), None);
}

#[test]
fn section_with_interleaved_heading_takes_the_last() {
    let text = "# T\n## Ontology\na\n## Other\nb\n## Ontology again\nc\n## Next\nd\n";
    assert_eq!(extract_section(text, "Ontology"), Some("c".to_string()));
    let node = Node::parse("# T\n## Ontology\n## Axiology\n## Ontology\nx").unwrap();
    assert_eq!(node.ontology, Some("x".to_string()));
    assert_eq!(node.axiology, None);
    assert_eq!(extract_section("## Ontology\n## Axiology\n## Ontology\nx", "Ontology"), Some("x".to_string()));
}

#[test]
fn links_need_the_exact_form() {
    assert_eq!(
        extract_links("[](./a.md) [x](./B.md) [x](./ok_1-2.md) [x](../c.md) [x](./d.md"),
        vec!["ok_1-2"]
    );
    assert_eq!(
        extract_links("[a [b](./x.md) [multi\nline](./y.md)"),
        vec!["x", "y"]
    );
}

#[test]
fn unique_links_sorted_without_repeats() {
    let links = extract_unique_links("[z](./zeta.md) [a](./alpha.md) [z2](./zeta.md) [m](./mu.md)");
    assert_eq!(links, vec!["alpha", "mu", "zeta"]);
    assert!(extract_unique_links("no links").is_empty());
}

#[test]
fn terms_from_markdown_file_names() {
    let names: Vec<String> = vec![
        "state.md", "README", ".md", "existence.md", "notes.txt", "a.b.md", "entity.md",
    ]
    .into_iter()
    .map(String::from)
    .collect();
    assert_eq!(list_terms(&names), vec!["a.b", "entity", "existence", "state"]);
    assert!(is_markdown_file("x.md"));
    assert!(!is_markdown_file(".md"));
    assert!(!is_markdown_file("x.mdx"));
}
