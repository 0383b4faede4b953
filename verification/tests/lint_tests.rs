use exkernel::commands::lint::{
    lint_content, lint_files, lint_report, single_file_report, sorted_names, LintResult,
};

#[test]
fn test_lint_valid_content() {
    let content = r#"# Test

## [Ontology](./ontology.md)

Definition here.

## [Axiology](./axiology.md)

Value here.

## [Epistemology](./epistemology.md)

Knowledge here.
"#;
    let errors = lint_content(content, "test.md", &[]);
    // No structural errors (broken links are expected since no terms exist)
    let structural: Vec<_> = errors
        .iter()
        .filter(|e| !e.starts_with("Broken link"))
        .collect();
    assert!(structural.is_empty());
}

#[test]
fn test_lint_missing_sections() {
    let content = "# Test\n\nSome content.\n";
    let errors = lint_content(content, "test.md", &[]);
    assert!(errors.iter().any(|e| e.contains("Ontology")));
    assert!(errors.iter().any(|e| e.contains("Axiology")));
    assert!(errors.iter().any(|e| e.contains("Epistemology")));
}

#[test]
fn test_lint_missing_title() {
    let content = "## [Ontology](./ontology.md)\n## [Axiology](./axiology.md)\n## [Epistemology](./epistemology.md)\n";
    let errors = lint_content(content, "test.md", &[]);
    assert!(errors.iter().any(|e| e.contains("Missing title")));
}

#[test]
fn test_lint_broken_links() {
    let content = r#"# Test

## [Ontology](./ontology.md)

Links to [foo](./foo.md) and [bar](./bar.md).

## [Axiology](./axiology.md)

Value.

## [Epistemology](./epistemology.md)

Knowledge.
"#;
    let existing = vec!["foo".to_string()];
    let errors = lint_content(content, "test.md", &existing);
    // "bar" and "ontology" are broken, "foo" is OK
    assert!(errors.iter().any(|e| e.contains("bar")));
    assert!(!errors.iter().any(|e| e.contains("[foo]")));
}

#[test]
fn lint_messages_exact() {
    let errors = lint_content("just text [x](./x.md) [x](./x.md) [a](./a.md)\n", "n.md", &["a".to_string()]);
    assert_eq!(
        errors,
        vec![
            "Missing title (# Term)",
            "Missing required section: ## [Ontology]",
            "Missing required section: ## [Axiology]",
            "Missing required section: ## [Epistemology]",
            "Broken link: [x](./x.md) — file src/x.md not found (referenced in n.md)",
        ]
    );
}

#[test]
fn lint_directory_report() {
    let files = vec![
        ("b.md".to_string(), "# B\n## Ontology\n## Axiology\n## Epistemology\n".to_string()),
        ("a.md".to_string(), "no title\n".to_string()),
    ];
    let results = lint_files(&files, &[]);
    assert_eq!(results.len(), 1);
    assert_eq!(results[0].file, "a.md");
    let (text, outcome) = lint_report(&results);
    assert_eq!(
        text,
        "a.md:\n  - Missing title (# Term)\n  - Missing required section: ## [Ontology]\n  - Missing required section: ## [Axiology]\n  - Missing required section: ## [Epistemology]\n\n4 error(s) in 1 file(s).\n"
    );
    assert_eq!(outcome, Err("4 lint error(s) found".to_string()));
    let empty: Vec<LintResult> = Vec::new();
    assert_eq!(lint_report(&empty), ("All nodes pass lint checks.\n".to_string(), Ok(())));
}

#[test]
fn lint_single_file_report() {
    let ok = single_file_report("x.md", &Vec::new());
    assert_eq!(ok, ("x.md: OK\n".to_string(), Ok(())));
    let bad = single_file_report("x.md", &vec!["e1".to_string(), "e2".to_string()]);
    assert_eq!(bad, ("x.md:\n  - e1\n  - e2\n".to_string(), Err("2 lint error(s) found".to_string())));
}

#[test]
fn names_sorted_like_paths() {
    let names: Vec<String> = vec!["b.md", "a.md", "B.md", "ab.md"].into_iter().map(String::from).collect();
    assert_eq!(sorted_names(&names), vec!["B.md", "a.md", "ab.md", "b.md"]);
}
