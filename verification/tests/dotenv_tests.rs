use easyenv::dotenv::{collect_items, parse_file};

fn parse(contents: &str) -> easyenv::dotenv::ParsedEnv {
    parse_file("/p/.env", Ok(contents.as_bytes().to_vec()))
}

#[test]
fn parses_basic_key_value() {
    let parsed = parse("FOO=bar\n");
    assert_eq!(parsed.vars.get("FOO"), Some(&"bar".to_string()));
    assert!(parsed.warnings.is_empty());
}

#[test]
fn parses_quotes_comments_export_prefix_blank_lines() {
    let parsed = parse("# a comment\n\nexport FOO=\"hello world\"\nBAR='literal $NOT_EXPANDED'\n");
    assert_eq!(parsed.vars.get("FOO"), Some(&"hello world".to_string()));
    assert_eq!(parsed.vars.get("BAR"), Some(&"literal $NOT_EXPANDED".to_string()));
    assert!(parsed.warnings.is_empty());
}

#[test]
fn skips_malformed_line_but_keeps_valid_ones() {
    let parsed = parse("FOO=1\nnot a valid line\nBAR=2\n");
    assert_eq!(parsed.vars.get("FOO"), Some(&"1".to_string()));
    assert_eq!(parsed.vars.get("BAR"), Some(&"2".to_string()));
    assert!(!parsed.warnings.is_empty());
    assert!(parsed.warnings[0].starts_with("/p/.env: "));
}

#[test]
fn missing_file_yields_empty_with_warning() {
    let parsed = parse_file("/nonexistent/path/.env", Err("No such file or directory (os error 2)".to_string()));
    assert!(parsed.vars.is_empty());
    assert_eq!(parsed.warnings, vec!["/nonexistent/path/.env: No such file or directory (os error 2)".to_string()]);
}

#[test]
fn later_items_override_earlier_ones_and_errors_become_warnings() {
    let items = vec![
        Ok(("FOO".to_string(), "1".to_string())),
        Err("bad line".to_string()),
        Ok(("FOO".to_string(), "2".to_string())),
    ];
    let parsed = collect_items("/x/.env", items);
    assert_eq!(parsed.vars.len(), 1);
    assert_eq!(parsed.vars.get("FOO"), Some(&"2".to_string()));
    assert_eq!(parsed.warnings, vec!["/x/.env: bad line".to_string()]);
}
