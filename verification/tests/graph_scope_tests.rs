use exkernel::commands::graph::{build_graph, render_dot, ring_filter_allows};
use exkernel::commands::scope::render_scope;
use exkernel::config::{Config, Meta, Ring};

fn files() -> Vec<(String, String)> {
    vec![
        ("entity".to_string(), "# Entity\n[e](./existence.md) [x](./missing.md) [s](./state.md)\n".to_string()),
        ("existence".to_string(), "# Existence\n[e](./entity.md) [e2](./entity.md)\n".to_string()),
        ("state".to_string(), "# State\n[e](./entity.md)\n".to_string()),
    ]
}

fn existing() -> Vec<String> {
    vec!["entity".to_string(), "existence".to_string(), "state".to_string()]
}

#[test]
fn graph_without_filter() {
    let g = build_graph(&existing(), &files(), None);
    assert_eq!(g.nodes, vec!["entity", "existence", "state"]);
    let edges: Vec<(&str, &str)> = g.edges.iter().map(|(a, b)| (a.as_str(), b.as_str())).collect();
    assert_eq!(
        edges,
        vec![("entity", "existence"), ("entity", "state"), ("existence", "entity"), ("state", "entity")]
    );
    assert_eq!(
        render_dot(&g.edges),
        "digraph ontology {\n  rankdir=LR;\n  node [shape=box, style=rounded];\n\n  entity -> existence;\n  entity -> state;\n  existence -> entity;\n  state -> entity;\n}\n"
    );
}

#[test]
fn graph_with_ring_filter() {
    let filter = vec!["entity".to_string(), "existence".to_string()];
    assert!(ring_filter_allows(Some(&filter), "entity"));
    assert!(!ring_filter_allows(Some(&filter), "state"));
    assert!(ring_filter_allows(None, "state"));
    let g = build_graph(&existing(), &files(), Some(&filter));
    assert_eq!(g.nodes, vec!["entity", "existence"]);
    let edges: Vec<(&str, &str)> = g.edges.iter().map(|(a, b)| (a.as_str(), b.as_str())).collect();
    assert_eq!(edges, vec![("entity", "existence"), ("existence", "entity")]);
}

fn config() -> Config {
    Config {
        meta: Meta { name: "t".to_string(), description: "t".to_string() },
        rings: vec![
            (
                "0".to_string(),
                Ring { name: "kernel".to_string(), description: "core".to_string(), terms: vec!["existence".to_string(), "entity".to_string()] },
            ),
            (
                "1".to_string(),
                Ring { name: "software".to_string(), description: "bridge".to_string(), terms: vec!["state".to_string()] },
            ),
        ],
        sources: Vec::new(),
    }
}

#[test]
fn scope_output() {
    let c = config();
    assert_eq!(
        render_scope(&c, Some(0)),
        Ok("Ring 0 — kernel (core)\n\n  existence\n  entity\n".to_string())
    );
    assert_eq!(
        render_scope(&c, None),
        Ok("Ring 0 — kernel (core)\n  existence\n  entity\n\nRing 1 — software (bridge)\n  state\n\n".to_string())
    );
    assert_eq!(render_scope(&c, Some(7)), Err("Ring 7 not defined in exkernel.toml".to_string()));
}

#[test]
fn dot_quotes_ids_that_are_not_plain() {
    let edges = vec![
        ("domain-model".to_string(), "Node".to_string()),
        ("a\"b".to_string(), "x1".to_string()),
        ("9".to_string(), "_y".to_string()),
        ("1a".to_string(), "strictly".to_string()),
    ];
    assert_eq!(
        render_dot(&edges),
        "digraph ontology {\n  rankdir=LR;\n  node [shape=box, style=rounded];\n\n  \"domain-model\" -> \"Node\";\n  \"a\\\"b\" -> x1;\n  9 -> _y;\n  \"1a\" -> strictly;\n}\n"
    );
}
