use toml_sort::cli::Cli;
use toml_sort::config::{parse_config, parse_string_array, Config};

fn b(s: &str) -> Vec<u8> {
    s.as_bytes().to_vec()
}

fn empty_cli() -> Cli {
    Cli {
        cwd: Vec::new(),
        check: false,
        print: false,
        no_format: false,
        check_format: false,
        workspace: false,
        grouped: false,
        order: Vec::new(),
    }
}

#[test]
fn config_defaults_from_empty_text() {
    let c = parse_config(&b("")).unwrap();
    assert!(c.table_order.is_empty());
    assert!(!c.grouped);
    assert_eq!(c.crlf, None);
    assert!(!c.no_format);
    assert!(!c.check_format);
}

#[test]
fn config_reads_options() {
    let text = "table_order = [\"package\", \"dependencies\"]\ngrouped = true\ncrlf = false\nno_format = true\ncheck_format = true\n";
    let c = parse_config(&b(text)).unwrap();
    assert_eq!(c.table_order, vec![b("package"), b("dependencies")]);
    assert!(c.grouped);
    assert_eq!(c.crlf, Some(false));
    assert!(c.no_format);
    assert!(c.check_format);
}

#[test]
fn config_ignores_unknown_keys() {
    let c = parse_config(&b("mystery = 42\ngrouped = true\n")).unwrap();
    assert!(c.grouped);
    assert!(c.table_order.is_empty());
}

#[test]
fn config_rejects_malformed_text() {
    assert!(parse_config(&b("grouped ???\n")).is_err());
}

#[test]
fn cli_flags_win_over_config() {
    let base = Config {
        table_order: vec![b("package")],
        grouped: false,
        crlf: Some(true),
        no_format: false,
        check_format: false,
    };
    let mut cli = empty_cli();
    cli.grouped = true;
    cli.order = vec![b("dependencies")];
    let c = cli.apply(base);
    assert_eq!(c.table_order, vec![b("dependencies")]);
    assert!(c.grouped);
    assert_eq!(c.crlf, Some(true));
}

#[test]
fn cli_empty_order_keeps_config_order() {
    let base = Config {
        table_order: vec![b("package")],
        grouped: true,
        crlf: None,
        no_format: true,
        check_format: false,
    };
    let c = empty_cli().apply(base);
    assert_eq!(c.table_order, vec![b("package")]);
    assert!(c.grouped);
    assert!(c.no_format);
}

#[test]
fn config_later_entry_wins() {
    let c = parse_config(&b("grouped = true\ngrouped = false\n")).unwrap();
    assert!(!c.grouped);
}

#[test]
fn string_array_trailing_backslash_rejected() {
    assert!(parse_string_array(&b("[\"a\\")).is_none());
}
