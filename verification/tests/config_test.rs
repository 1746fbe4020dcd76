use forgeindex::config::{Config, IndexConfig};
use std::path::{Path, PathBuf};

#[test]
fn test_config_defaults() {
    let config = Config::default();
    assert!(config.index.languages.contains(&"python".to_string()));
    assert!(config.index.languages.contains(&"typescript".to_string()));
    assert!(config.index.languages.contains(&"tsx".to_string()));
    assert!(config.index.languages.contains(&"rust".to_string()));
    assert_eq!(config.compression.default_token_budget, 4000);
    assert!(config.watcher.enabled);
    assert!(config.git_hooks.auto_install);
}

#[test]
fn test_config_load_migrates_legacy_languages() {
    let text = r#"[index]
languages = ["python", "typescript", "javascript", "rust", "go", "java", "c", "cpp", "ruby"]
"#;
    let value: toml::Value = toml::from_str(text).unwrap();
    let languages: Vec<String> = value["index"]["languages"]
        .as_array()
        .unwrap()
        .iter()
        .map(|v| v.as_str().unwrap().to_string())
        .collect();
    let mut loaded = Config::default();
    loaded.index.languages = languages;
    loaded.migrate();
    assert!(loaded.index.languages.contains(&"tsx".to_string()));
}

#[test]
fn migration_inserts_tsx_after_typescript_once() {
    let mut index = IndexConfig::default();
    index.languages = vec!["go".to_string(), "typescript".to_string(), "rust".to_string()];
    index.migrate_legacy_languages();
    assert_eq!(index.languages, vec!["go", "typescript", "tsx", "rust"]);
    index.migrate_legacy_languages();
    assert_eq!(index.languages, vec!["go", "typescript", "tsx", "rust"]);

    let mut no_ts = IndexConfig::default();
    no_ts.languages = vec!["python".to_string()];
    no_ts.migrate_legacy_languages();
    assert_eq!(no_ts.languages, vec!["python"]);
}

#[test]
fn legacy_default_list_migrates_to_the_default_list() {
    let mut legacy = IndexConfig::default();
    legacy.languages = ["python", "typescript", "javascript", "rust", "go", "java", "c", "cpp", "ruby"]
        .iter()
        .map(|s| s.to_string())
        .collect();
    legacy.migrate_legacy_languages();
    assert_eq!(legacy.languages, IndexConfig::default().languages);
}

#[test]
fn default_sections_hold_their_documented_values() {
    let config = Config::default();
    assert_eq!(config.index.max_file_size_kb, 512);
    assert!(!config.index.include_tests);
    assert_eq!(config.index.exclude_patterns.len(), 9);
    assert_eq!(config.compression.skeleton_collapse_threshold_lines, 3);
    assert_eq!(config.watcher.debounce_ms, 200);
    assert_eq!(config.git_hooks.hook_types, vec!["post-commit", "post-checkout"]);
    assert_eq!(config.server.transport, "stdio");
    assert_eq!(config.server.sse_port, 3945);
    assert_eq!(config.server.log_level, "warn");
    assert_eq!(config.server.log_file, ".forgeindex/forge.log");
}

#[test]
fn index_files_live_under_the_project_root() {
    assert_eq!(Config::config_path(Path::new("/proj")), PathBuf::from("/proj/.forgeindex/config.toml"));
    assert_eq!(Config::db_path(Path::new("/proj")), PathBuf::from("/proj/.forgeindex/index.db"));
}
