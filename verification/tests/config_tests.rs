use exkernel::config::{
    choose_ontology_dir, Config, DirFacts, Meta, OntologyDir, ResolveError, Ring, SourceDir,
};

fn ring(name: &str, description: &str, terms: &[&str]) -> Ring {
    Ring {
        name: name.to_string(),
        description: description.to_string(),
        terms: terms.iter().map(|t| t.to_string()).collect(),
    }
}

#[test]
fn test_parse_config() {
    let config = Config {
        meta: Meta {
            name: "existential-kernel/ontology".to_string(),
            description: "Reference existential ontology".to_string(),
        },
        rings: vec![
            ("0".to_string(), ring("kernel", "Universal terms, always loaded", &["existence", "entity", "abstraction"])),
            ("1".to_string(), ring("software", "Software engineering bridge", &["project", "model"])),
        ],
        sources: vec![("upstream".to_string(), "github:existential-kernel/ontology".to_string())],
    };
    assert_eq!(config.meta.name, "existential-kernel/ontology");
    assert_eq!(config.rings.len(), 2);
    assert_eq!(config.get_ring(0).unwrap().name, "kernel");
    assert_eq!(config.get_ring(0).unwrap().terms.len(), 3);
    assert_eq!(config.get_ring(1).unwrap().name, "software");
    assert_eq!(config.get_ring(1).unwrap().terms.len(), 2);
    assert_eq!(config.sources[0].1, "github:existential-kernel/ontology");
}

#[test]
fn test_parse_config_no_sources() {
    let config = Config {
        meta: Meta { name: "test".to_string(), description: "test ontology".to_string() },
        rings: vec![("0".to_string(), ring("kernel", "core", &["existence"]))],
        sources: Vec::new(),
    };
    assert!(config.sources.is_empty());
    assert_eq!(config.rings.len(), 1);
}

#[test]
fn test_rings_sorted() {
    // rings in the order the file writes them: ring 1 first
    let config = Config {
        meta: Meta { name: "test".to_string(), description: "test".to_string() },
        rings: vec![
            ("1".to_string(), ring("software", "bridge", &["project"])),
            ("0".to_string(), ring("kernel", "core", &["existence"])),
        ],
        sources: Vec::new(),
    };
    let sorted = config.rings_sorted();
    assert_eq!(sorted[0].0, 0);
    assert_eq!(sorted[0].1.name, "kernel");
    assert_eq!(sorted[1].0, 1);
    assert_eq!(sorted[1].1.name, "software");
}

#[test]
fn rings_sorted_numeric_and_stable() {
    let config = Config {
        meta: Meta { name: "t".to_string(), description: "t".to_string() },
        rings: vec![
            ("+3".to_string(), ring("plus", "", &[])),
            ("00".to_string(), ring("zero2", "", &[])),
            ("10".to_string(), ring("ten", "", &[])),
            ("2".to_string(), ring("two", "", &[])),
            ("4294967296".to_string(), ring("big", "", &[])),
            ("x".to_string(), ring("x", "", &[])),
        ],
        sources: Vec::new(),
    };
    let sorted: Vec<(u32, String)> =
        config.rings_sorted().into_iter().map(|(n, r)| (n, r.name.clone())).collect();
    assert_eq!(
        sorted,
        vec![(0, "zero2".to_string()), (2, "two".to_string()), (3, "plus".to_string()), (10, "ten".to_string())]
    );
    // only the plain numeral names a ring
    assert!(config.get_ring(0).is_none());
    assert_eq!(config.get_ring(10).unwrap().name, "ten");
    assert!(config.get_ring(3).is_none());
}

fn dir(is_dir: bool, has_config: bool, has_src: bool) -> DirFacts {
    DirFacts { is_dir, has_config, has_src }
}

#[test]
fn ontology_dir_explicit_only() {
    assert_eq!(choose_ontology_dir(Some(dir(true, false, true)), true, None), Ok(OntologyDir::Explicit));
    assert_eq!(choose_ontology_dir(Some(dir(false, true, false)), false, None), Ok(OntologyDir::Explicit));
    // an explicit directory that is no ontology is refused, with no fallback
    assert_eq!(
        choose_ontology_dir(Some(dir(true, false, false)), true, None),
        Err(ResolveError::NotOntology)
    );
}

#[test]
fn ontology_dir_cwd_then_sources() {
    assert_eq!(choose_ontology_dir(None, true, None), Ok(OntologyDir::Cwd));
    assert_eq!(choose_ontology_dir(None, false, None), Err(ResolveError::NotFound));
    let sources = vec![
        // a file, skipped
        SourceDir { dir: dir(false, true, true), entries: Vec::new() },
        // an org directory: its first entry is a file, its second a repository
        SourceDir {
            dir: dir(true, true, false),
            entries: vec![dir(false, true, true), dir(true, false, false), dir(true, false, true)],
        },
    ];
    assert_eq!(choose_ontology_dir(None, false, Some(sources)), Ok(OntologyDir::SourceEntry(1, 2)));
    let sources = vec![
        SourceDir { dir: dir(true, false, false), entries: vec![dir(true, false, false)] },
        SourceDir { dir: dir(true, true, false), entries: vec![dir(true, false, false)] },
    ];
    assert_eq!(choose_ontology_dir(None, false, Some(sources)), Ok(OntologyDir::Source(1)));
    let sources = vec![SourceDir { dir: dir(true, false, false), entries: Vec::new() }];
    assert_eq!(choose_ontology_dir(None, false, Some(sources)), Err(ResolveError::NotFound));
}

#[test]
fn rings_sorted_agrees_with_get_ring() {
    let config = Config {
        meta: Meta { name: "t".to_string(), description: "t".to_string() },
        rings: vec![
            ("0".to_string(), ring("kernel", "", &[])),
            ("10".to_string(), ring("ten", "", &[])),
            ("2".to_string(), ring("two", "", &[])),
            ("x".to_string(), ring("x", "", &[])),
        ],
        sources: Vec::new(),
    };
    let sorted = config.rings_sorted();
    let levels: Vec<u32> = sorted.iter().map(|(n, _)| *n).collect();
    assert_eq!(levels, vec![0, 2, 10]);
    for (n, r) in &sorted {
        assert_eq!(config.get_ring(*n).unwrap().name, r.name);
    }
    assert!(config.get_ring(1).is_none());
}
