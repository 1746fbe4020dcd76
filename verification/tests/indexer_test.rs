use forgeindex::config::Config;
use forgeindex::indexer::{
    build_exclude_set, excluded_by_components, hash_unchanged, is_hidden_component, is_test_file_name, should_skip_dir,
    classify_entry, size_limit_overflows, skip_reason, EntryOutcome, IndexSummary,
};
use std::path::Path;

#[test]
fn build_and_vendor_directories_are_skipped() {
    assert!(should_skip_dir("node_modules"));
    assert!(should_skip_dir(".forgeindex"));
    assert!(!should_skip_dir("src"));
    assert!(is_hidden_component(".cache"));
    assert!(!is_hidden_component("cache"));
}

#[test]
fn components_say_why_a_file_is_left_out() {
    let hidden = vec!["src".to_string(), ".hidden".to_string(), "a.py".to_string()];
    assert_eq!(excluded_by_components(&hidden), Some((true, "hidden component: .hidden".to_string())));
    let built = vec!["target".to_string(), "a.rs".to_string()];
    assert_eq!(excluded_by_components(&built), Some((false, "excluded dir: target".to_string())));
    let fine = vec!["src".to_string(), "a.rs".to_string()];
    assert_eq!(excluded_by_components(&fine), None);
}

#[test]
fn test_files_are_recognised() {
    assert!(is_test_file_name("test_models.py"));
    assert!(is_test_file_name("app.spec.tsx"));
    assert!(is_test_file_name("parser_test.go"));
    assert!(!is_test_file_name("models.py"));
}

#[test]
fn skip_reasons_follow_the_configuration() {
    let config = Config::default();
    let excludes = build_exclude_set(&config.index.exclude_patterns);
    let check = |rel: &str, size: Option<u64>| skip_reason(Path::new(rel), Path::new(rel), size, &config, &excludes);
    assert_eq!(check("src/app.py", Some(100)), None);
    assert_eq!(check("README.md", None), Some("unsupported extension: .md".to_string()));
    assert_eq!(check("Makefile", None), Some("unsupported extension: .none".to_string()));
    assert_eq!(check("ui/View.swift", None), Some("swift not yet supported".to_string()));
    assert_eq!(
        check("big.py", Some(600 * 1024)),
        Some("file too large: 600 KB > 512 KB limit".to_string())
    );
    assert_eq!(
        check("web/dist/app.js", Some(10)),
        Some("matched exclude pattern (rel: web/dist/app.js)".to_string())
    );
    assert_eq!(check("tests/test_app.py", Some(10)), Some("test file: test_app.py".to_string()));
    let mut only_rust = Config::default();
    only_rust.index.languages = vec!["rust".to_string()];
    let r = skip_reason(Path::new("a.py"), Path::new("a.py"), None, &only_rust, &excludes);
    assert_eq!(r, Some("language 'python' not in config languages list [\"rust\"]".to_string()));
}

#[test]
fn stored_hashes_are_decimal() {
    assert!(hash_unchanged(Some("12345"), 12345));
    assert!(!hash_unchanged(Some("12346"), 12345));
    assert!(!hash_unchanged(None, 0));
}

#[test]
fn the_summary_tallies_each_entry() {
    let mut s = IndexSummary::default();
    for o in [
        EntryOutcome::WalkError,
        EntryOutcome::NotFile,
        EntryOutcome::Hidden,
        EntryOutcome::ExcludedDir,
        EntryOutcome::Filtered,
        EntryOutcome::Indexed,
        EntryOutcome::Indexed,
        EntryOutcome::Unchanged,
        EntryOutcome::IndexError,
        EntryOutcome::NotUnderRoot,
    ] {
        s.record(o);
    }
    assert_eq!(
        s,
        IndexSummary {
            indexed: 2,
            unchanged: 1,
            total_entries: 10,
            total_files: 8,
            skipped_hidden: 1,
            skipped_excluded_dir: 1,
            skipped_filter: 1,
            walk_errors: 2,
        }
    );
    assert!(!s.nothing_indexed());
}

#[test]
fn exclude_sets_match_any_valid_pattern() {
    let set = build_exclude_set(&["**/gen/**".to_string(), "a[".to_string(), "*.lock".to_string()]);
    assert!(set.is_match("src/gen/x.rs"));
    assert!(set.is_match("Cargo.lock"));
    assert!(!set.is_match("src/main.rs"));
    assert!(!build_exclude_set(&[]).is_match("anything"));
}

#[test]
fn walked_entries_are_classified_in_walk_order() {
    let hidden = vec![".git".to_string(), "node_modules".to_string(), "a.py".to_string()];
    let excluded = vec!["src".to_string(), "node_modules".to_string(), "a.py".to_string()];
    let plain = vec!["src".to_string(), "a.py".to_string()];
    assert_eq!(classify_entry(false, Some(&hidden)).map(|r| r.0), Some(EntryOutcome::NotFile));
    assert_eq!(classify_entry(true, None).map(|r| r.0), Some(EntryOutcome::NotUnderRoot));
    assert_eq!(classify_entry(true, Some(&hidden)), Some((EntryOutcome::Hidden, "hidden component: .git".to_string())));
    assert_eq!(
        classify_entry(true, Some(&excluded)),
        Some((EntryOutcome::ExcludedDir, "excluded dir: node_modules".to_string()))
    );
    assert_eq!(classify_entry(true, Some(&plain)), None);
}

#[test]
fn the_size_limit_is_computed_only_for_configured_languages() {
    let mut config = Config::default();
    config.index.max_file_size_kb = u64::MAX;
    assert!(size_limit_overflows(Path::new("a.py"), Some(10), &config));
    assert!(!size_limit_overflows(Path::new("a.py"), None, &config));
    assert!(!size_limit_overflows(Path::new("a.txt"), Some(10), &config));
    assert!(!size_limit_overflows(Path::new("a.swift"), Some(10), &config));
    config.index.max_file_size_kb = 512;
    assert!(!size_limit_overflows(Path::new("a.py"), Some(10), &config));
}
