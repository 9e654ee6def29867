use docent::init::{
    assignment_value_text, find_comment_start, merge_entries, merge_toml, replace_value_in_text,
    ConfigEntry, ConfigValue, MergeError,
};

const TEMPLATE: &str = r#"# docent configuration

[index]
embedding_model = "BGESmallENV15Q" # model used for embeddings
persist_path = "./.docent-index"
chunk_size = 256
chunk_overlap = 32
max_size_mb = 512

[file]
enabled = true
glob_patterns = ["**/*.md"]
file_size_limit_mb = 10

[git]
enabled = false
"#;

#[test]
fn merge_inserts_missing_key_in_correct_section() {
    let existing = r#"
[index]
embedding_model = "BGESmallENV15Q"
persist_path = "./.docent-index"
chunk_overlap = 64
max_size_mb = 512
"#;

    let template = TEMPLATE;
    let merged = merge_toml(template, existing).ok().unwrap();
    let index_pos = merged.find("[index]").unwrap();
    let next_section_pos = merged[index_pos + 1..]
        .find("\n[")
        .map(|p| index_pos + 1 + p)
        .unwrap_or(merged.len());
    let index_section = &merged[index_pos..next_section_pos];

    assert!(
        index_section.contains("chunk_size"),
        "chunk_size should appear inside the [index] section, got:\n{}",
        merged
    );

    let after_last_section = &merged[next_section_pos..];
    assert!(
        !after_last_section.contains("chunk_size"),
        "chunk_size should not appear after other sections, got:\n{}",
        merged
    );
}

#[test]
fn merge_keeps_user_values_and_template_comments() {
    let existing = "[index]\nchunk_overlap = 64\nembedding_model = \"Other\"\n\n[git]\nenabled = true\n";
    let merged = merge_toml(TEMPLATE, existing).ok().unwrap();
    assert!(merged.contains("chunk_overlap = 64\n"));
    assert!(merged.contains("embedding_model = \"Other\" # model used for embeddings\n"));
    assert!(merged.contains("[git]\nenabled = true\n"));
    assert!(merged.contains("[file]\nenabled = true\n"));
    assert!(merged.contains("chunk_size = 256\n"));
}

#[test]
fn merge_twice_changes_nothing_more() {
    let existing = "[index]\nchunk_overlap = 64\n[file]\nglob_patterns = [\"*.rs\", \"*.md\"]\n";
    let once = merge_toml(TEMPLATE, existing).ok().unwrap();
    let twice = merge_toml(&once, existing).ok().unwrap();
    assert_eq!(once, twice);
}

#[test]
fn merge_with_empty_existing_keeps_template() {
    let merged = merge_toml(TEMPLATE, "").ok().unwrap();
    assert_eq!(merged, TEMPLATE);
}

#[test]
fn merge_ignores_keys_missing_from_template() {
    let existing = "[index]\nunknown_key = 3\n[other]\nx = 1\n";
    let merged = merge_toml(TEMPLATE, existing).ok().unwrap();
    assert_eq!(merged, TEMPLATE);
}

#[test]
fn merge_rejects_invalid_existing_config() {
    let result = merge_toml(TEMPLATE, "[index\nbroken = ");
    match result {
        Err(e) => {
            let MergeError::InvalidExisting(_) = &e;
            assert!(e.message().starts_with("Failed to parse existing config: "));
        }
        Ok(_) => panic!("expected a parse error"),
    }
}

#[test]
fn replace_rewrites_only_the_key_of_the_section() {
    let text = "[a]\nx = 1\n[b]\nx = 2 # two\ny = 3\n";
    let out = replace_value_in_text(text, "b", "x", "20").unwrap();
    assert_eq!(out, "[a]\nx = 1\n[b]\nx = 20 # two\ny = 3\n");
}

#[test]
fn replace_keeps_spacing_before_comment() {
    let text = "[s]\nkey   =   \"old\"    # note # more\n";
    let out = replace_value_in_text(text, "s", "key", "\"new\"").unwrap();
    assert_eq!(out, "[s]\nkey   =   \"new\"    # note # more\n");
}

#[test]
fn replace_ignores_hash_inside_quotes() {
    let text = "[s]\nkey = \"a # b\" # c\n";
    let out = replace_value_in_text(text, "s", "key", "1").unwrap();
    assert_eq!(out, "[s]\nkey = 1 # c\n");
}

#[test]
fn replace_without_matching_key_gives_none() {
    let text = "[s]\nkey = 1\n[t]\nother = 2\n";
    assert!(replace_value_in_text(text, "t", "key", "5").is_none());
    assert!(replace_value_in_text(text, "u", "key", "5").is_none());
}

#[test]
fn replace_stops_at_next_table_header() {
    let text = "[s]\n[t]\nkey = 1\n";
    assert!(replace_value_in_text(text, "s", "key", "5").is_none());
}

#[test]
fn replace_continues_past_array_of_tables_header() {
    let text = "[s]\n[[arr]]\nkey = 1\n";
    let out = replace_value_in_text(text, "s", "key", "5").unwrap();
    assert_eq!(out, "[s]\n[[arr]]\nkey = 5\n");
}

#[test]
fn replace_normalizes_line_endings() {
    let text = "[s]\r\nkey = 1\r\nother = 2";
    let out = replace_value_in_text(text, "s", "key", "9").unwrap();
    assert_eq!(out, "[s]\nkey = 9\nother = 2\n");
}

#[test]
fn replace_with_empty_value_after_equals() {
    let text = "[s]\nkey =\n";
    let out = replace_value_in_text(text, "s", "key", "true").unwrap();
    assert_eq!(out, "[s]\nkey =true\n");
}

#[test]
fn find_comment_start_examples() {
    assert_eq!(find_comment_start("1 # c"), Some(2));
    assert_eq!(find_comment_start("\"#\" # c"), Some(4));
    assert_eq!(find_comment_start("\"a\\\"#\""), None);
    assert_eq!(find_comment_start("\\#x"), None);
    assert_eq!(find_comment_start("no comment"), None);
    assert_eq!(find_comment_start("é # x"), Some(3));
}

#[test]
fn assignment_value_examples() {
    assert_eq!(assignment_value_text("_ = 42\n", "_"), "42");
    assert_eq!(assignment_value_text("  _ = [1, 2]  \n", "_"), "[1, 2]");
    assert_eq!(assignment_value_text("[_]\na = 1\n", "_"), "");
}

#[test]
fn merge_entries_applies_tables_in_order() {
    let template = "[a]\nk = 1\n[b]\nk = 2\n";
    let entries = vec![
        ConfigEntry { name: "top".to_string(), values: None },
        ConfigEntry {
            name: "b".to_string(),
            values: Some(vec![ConfigValue { key: "k".to_string(), inline: "20".to_string() }]),
        },
        ConfigEntry {
            name: "a".to_string(),
            values: Some(vec![
                ConfigValue { key: "k".to_string(), inline: "10".to_string() },
                ConfigValue { key: "k".to_string(), inline: "11".to_string() },
            ]),
        },
    ];
    assert_eq!(merge_entries(template, &entries), "[a]\nk = 11\n[b]\nk = 20\n");
    assert_eq!(merge_entries(template, &vec![]), template);
}

#[test]
fn merge_keeps_every_existing_value_on_its_line() {
    let entries = vec![
        ConfigEntry {
            name: "index".to_string(),
            values: Some(vec![
                ConfigValue { key: "embedding_model".to_string(), inline: "\"Other\"".to_string() },
                ConfigValue { key: "chunk_size".to_string(), inline: "512".to_string() },
                ConfigValue { key: "unknown".to_string(), inline: "1".to_string() },
            ]),
        },
        ConfigEntry {
            name: "git".to_string(),
            values: Some(vec![ConfigValue { key: "enabled".to_string(), inline: "true".to_string() }]),
        },
        ConfigEntry {
            name: "file".to_string(),
            values: Some(vec![ConfigValue { key: "enabled".to_string(), inline: "false".to_string() }]),
        },
    ];
    let merged = merge_entries(TEMPLATE, &entries);
    let lines: Vec<&str> = merged.lines().collect();
    assert!(lines.contains(&"embedding_model = \"Other\" # model used for embeddings"));
    assert!(lines.contains(&"chunk_size = 512"));
    let file_at = lines.iter().position(|l| *l == "[file]").unwrap();
    let git_at = lines.iter().position(|l| *l == "[git]").unwrap();
    assert_eq!(lines[file_at + 1], "enabled = false");
    assert_eq!(lines[git_at + 1], "enabled = true");
    assert!(!merged.contains("unknown"));
    // Carrying the same values over again changes nothing.
    assert_eq!(merge_entries(&merged, &entries), merged);
}
