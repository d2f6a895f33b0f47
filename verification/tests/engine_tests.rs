use toml_sort::config::{parse_string_array, Config};
use toml_sort::engine::transform;
use toml_sort::matcher::{default_matcher, matcher_sortable, Matcher};
use toml_sort::model::serialize;
use toml_sort::parse::parse;
use toml_sort::scan::ParseErrorKind;

fn b(s: &str) -> Vec<u8> {
    s.as_bytes().to_vec()
}

fn default_cfg() -> Config {
    Config {
        table_order: Vec::new(),
        grouped: false,
        crlf: None,
        no_format: false,
        check_format: false,
    }
}

fn run(text: &str, cfg: Config) -> (String, bool, bool) {
    let m = default_matcher();
    let t = transform(&b(text), &m, &cfg).unwrap();
    (
        String::from_utf8(t.final_text).unwrap(),
        t.already_sorted,
        t.already_formatted,
    )
}

#[test]
fn round_trip_exact() {
    let text = "# top comment\n\n[package]\nname = \"demo\"  # trailing\nversion = '0.1'\n\n[dependencies]\nserde = { version = \"1\", features = [\n  \"derive\",\n] }\nanyhow = \"1\"\n";
    let doc = parse(&b(text)).unwrap();
    let out = serialize(&doc);
    assert_eq!(out, b(text));
}

#[test]
fn round_trip_no_trailing_newline() {
    let text = "[package]\nname = \"x\"";
    let doc = parse(&b(text)).unwrap();
    assert_eq!(serialize(&doc), b(text));
}

#[test]
fn round_trip_empty_and_blank() {
    for text in ["", "\n", "\r\n", "  \n\n# only a comment\n"] {
        let doc = parse(&b(text)).unwrap();
        assert_eq!(serialize(&doc), b(text), "failed on {text:?}");
    }
}

#[test]
fn round_trip_crlf_exact() {
    let text = "[dependencies]\r\nb = \"1\"\r\na = \"2\"\r\n";
    let doc = parse(&b(text)).unwrap();
    assert_eq!(serialize(&doc), b(text));
}

#[test]
fn sorts_dependency_table() {
    let text = "[dependencies]\nserde = \"1\"\nanyhow = \"1\"\nbase64 = \"0.21\"\n";
    let (out, sorted, formatted) = run(text, default_cfg());
    assert_eq!(out, "[dependencies]\nanyhow = \"1\"\nbase64 = \"0.21\"\nserde = \"1\"\n");
    assert!(!sorted);
    assert!(formatted);
}

#[test]
fn package_table_is_not_sorted() {
    let text = "[package]\nversion = \"1\"\nname = \"x\"\n";
    let (out, sorted, _) = run(text, default_cfg());
    assert_eq!(out, "[package]\nversion = \"1\"\nname = \"x\"\n");
    assert!(sorted);
}

#[test]
fn comments_travel_with_entries() {
    let text = "[dependencies]\n# serde is serialization\nserde = \"1\"\n# anyhow is errors\nanyhow = \"1\"\n";
    let (out, _, _) = run(text, default_cfg());
    assert_eq!(
        out,
        "[dependencies]\n# anyhow is errors\nanyhow = \"1\"\n# serde is serialization\nserde = \"1\"\n"
    );
}

#[test]
fn permutation_same_lines() {
    let text = "[dependencies]\nc = \"3\"\na = \"1\"\nb = \"2\"\n";
    let (out, _, _) = run(text, default_cfg());
    let mut lines_in: Vec<&str> = text.trim_end().split('\n').collect();
    let mut lines_out: Vec<&str> = out.trim_end().split('\n').collect();
    lines_in.sort();
    lines_out.sort();
    assert_eq!(lines_in, lines_out);
}

#[test]
fn stability_equal_keys_keep_order() {
    let text = "[dependencies]\nzz = \"first\"\naa = \"x\"\nzz = \"second\"\n";
    let (out, _, _) = run(text, default_cfg());
    assert_eq!(out, "[dependencies]\naa = \"x\"\nzz = \"first\"\nzz = \"second\"\n");
}

#[test]
fn grouping_preserved_when_grouped() {
    // two groups [b, a] then [d, c]: group order is by first key (b < d),
    // entries inside a group never permute
    let text = "[dependencies]\nb = \"1\"\na = \"2\"\n\nd = \"3\"\nc = \"4\"\n";
    let mut cfg = default_cfg();
    cfg.grouped = true;
    let (out, sorted, _) = run(text, cfg);
    assert_eq!(out, "[dependencies]\nb = \"1\"\na = \"2\"\n\nd = \"3\"\nc = \"4\"\n");
    assert!(sorted);
}

#[test]
fn groups_reorder_as_wholes() {
    let text = "[dependencies]\nd = \"3\"\nc = \"4\"\n\nb = \"1\"\na = \"2\"\n";
    let mut cfg = default_cfg();
    cfg.grouped = true;
    let (out, sorted, _) = run(text, cfg);
    assert_eq!(out, "[dependencies]\nb = \"1\"\na = \"2\"\nd = \"3\"\nc = \"4\"\n\n");
    assert!(!sorted);
}

#[test]
fn ungrouped_sort_ignores_groups() {
    let text = "[dependencies]\nb = \"1\"\na = \"2\"\n\nd = \"3\"\nc = \"4\"\n";
    let (out, _, _) = run(text, default_cfg());
    // blank lines travel with their entry; full sort by key
    assert_eq!(out, "[dependencies]\na = \"2\"\n\nb = \"1\"\nc = \"4\"\nd = \"3\"\n");
}

#[test]
fn table_order_policy() {
    let text = "[dev-dependencies]\nx = \"1\"\n\n[dependencies]\ny = \"1\"\n\n[package]\nname = \"p\"\n";
    let mut cfg = default_cfg();
    cfg.table_order = vec![b("package"), b("dependencies")];
    let (out, _, _) = run(text, cfg);
    let package = out.find("[package]").unwrap();
    let dependencies = out.find("[dependencies]").unwrap();
    let dev = out.find("[dev-dependencies]").unwrap();
    assert!(package < dependencies && dependencies < dev, "got: {out}");
}

#[test]
fn table_order_keeps_unlisted_relative_order() {
    let text = "[b]\nx = \"1\"\n[a]\ny = \"1\"\n[package]\nname = \"p\"\n";
    let mut cfg = default_cfg();
    cfg.table_order = vec![b("package")];
    let (out, _, _) = run(text, cfg);
    let pa = out.find("[package]").unwrap();
    let tb = out.find("[b]").unwrap();
    let ta = out.find("[a]").unwrap();
    assert!(pa < tb && tb < ta, "got: {out}");
}

#[test]
fn crlf_detected_and_applied_throughout() {
    let text = "[dependencies]\r\nb = \"1\"\r\na = \"2\"\r\n";
    let (out, _, _) = run(text, default_cfg());
    assert_eq!(out, "[dependencies]\r\na = \"2\"\r\nb = \"1\"\r\n");
    // every newline is preceded by a carriage return
    let bytes = out.as_bytes();
    for i in 0..bytes.len() {
        if bytes[i] == b'\n' {
            assert!(i > 0 && bytes[i - 1] == b'\r');
        }
    }
}

#[test]
fn crlf_forced_off_strips_crlf() {
    let text = "[dependencies]\r\na = \"1\"\r\n";
    let mut cfg = default_cfg();
    cfg.crlf = Some(false);
    let (out, _, _) = run(text, cfg);
    assert_eq!(out, "[dependencies]\na = \"1\"\n");
}

#[test]
fn check_mode_sorted_but_unformatted() {
    // sorted already, but spacing is not canonical
    let text = "[dependencies]\na= \"1\"\nb =\"2\"\n";
    let (_, sorted, formatted) = run(text, default_cfg());
    assert!(sorted);
    assert!(!formatted);
}

#[test]
fn format_canonicalizes_spacing_and_quotes() {
    let text = "[dependencies]\na='1'\n";
    let (out, _, formatted) = run(text, default_cfg());
    assert_eq!(out, "[dependencies]\na = \"1\"\n");
    assert!(!formatted);
}

#[test]
fn quote_with_embedded_double_quote_kept() {
    let text = "[package]\ndescription = 'say \"hi\"'\n";
    let doc = parse(&b(text)).unwrap();
    assert_eq!(serialize(&doc), b(text));
    let (out, _, _) = run(text, default_cfg());
    assert_eq!(out, "[package]\ndescription = 'say \"hi\"'\n");
}

#[test]
fn format_adds_final_newline() {
    let text = "[dependencies]\na = \"1\"";
    let (out, _, _) = run(text, default_cfg());
    assert_eq!(out, "[dependencies]\na = \"1\"\n");
}

#[test]
fn format_collapses_blank_runs() {
    let text = "[dependencies]\na = \"1\"\n\n\n\nb = \"2\"\n";
    let (out, _, _) = run(text, default_cfg());
    assert_eq!(out, "[dependencies]\na = \"1\"\n\nb = \"2\"\n");
}

#[test]
fn no_format_skips_formatting() {
    let text = "[dependencies]\nb= '1'\na= '2'\n";
    let mut cfg = default_cfg();
    cfg.no_format = true;
    let (out, sorted, formatted) = run(text, cfg);
    assert_eq!(out, "[dependencies]\na= '2'\nb= '1'\n");
    assert!(!sorted);
    assert!(formatted);
}

#[test]
fn transform_idempotent_on_text() {
    let text = "[dependencies]\nserde='1'\n\nzoo = \"2\"\nanyhow =  \"1\"\n[package]\nname='p'\n";
    let (out1, _, _) = run(text, default_cfg());
    let (out2, sorted2, formatted2) = run(&out1, default_cfg());
    assert_eq!(out1, out2);
    assert!(sorted2);
    assert!(formatted2);
}

#[test]
fn grouped_transform_idempotent_on_text() {
    let text = "[dependencies]\nd = \"3\"\nc = \"4\"\n\nb = \"1\"\na = \"2\"\n";
    let mut cfg = default_cfg();
    cfg.grouped = true;
    let (out1, _, _) = run(text, cfg);
    let mut cfg2 = default_cfg();
    cfg2.grouped = true;
    let (out2, _, _) = run(&out1, cfg2);
    assert_eq!(out1, out2);
}

#[test]
fn multiline_value_moves_as_one_entry() {
    let text = "[dependencies]\nserde = { version = \"1\", features = [\n  \"derive\",\n] }\nanyhow = \"1\"\n";
    let (out, _, _) = run(text, default_cfg());
    assert_eq!(
        out,
        "[dependencies]\nanyhow = \"1\"\nserde = { version = \"1\", features = [\n  \"derive\",\n] }\n"
    );
}

#[test]
fn target_suffix_tables_sort() {
    let m = default_matcher();
    assert!(matcher_sortable(&m, &b("dependencies")));
    assert!(matcher_sortable(&m, &b("workspace.dependencies")));
    assert!(matcher_sortable(&m, &b("target.'cfg(unix)'.dependencies")));
    assert!(!matcher_sortable(&m, &b("package")));
    assert!(!matcher_sortable(&m, &b("workspace")));
    assert!(!matcher_sortable(&m, &b("profile.release")));
}

#[test]
fn custom_matcher_controls_sorting() {
    let m = Matcher { tables: vec![b("package")], suffixes: Vec::new() };
    let cfg = default_cfg();
    let t = transform(&b("[package]\nb = \"1\"\na = \"2\"\n"), &m, &cfg).unwrap();
    assert_eq!(
        String::from_utf8(t.final_text).unwrap(),
        "[package]\na = \"2\"\nb = \"1\"\n"
    );
}

#[test]
fn parse_error_missing_equals() {
    let err = match parse(&b("[package]\nname \"x\"\n")) {
        Err(e) => e,
        Ok(_) => panic!("expected a parse error"),
    };
    assert_eq!(err.kind, ParseErrorKind::MissingEquals);
    assert_eq!(err.line, 2);
}

#[test]
fn parse_error_unterminated_string() {
    let err = match parse(&b("a = \"oops\n")) {
        Err(e) => e,
        Ok(_) => panic!("expected a parse error"),
    };
    assert_eq!(err.kind, ParseErrorKind::UnterminatedString);
    assert_eq!(err.line, 1);
}

#[test]
fn parse_error_bad_header() {
    let err = match parse(&b("[package\nname = \"x\"\n")) {
        Err(e) => e,
        Ok(_) => panic!("expected a parse error"),
    };
    assert_eq!(err.kind, ParseErrorKind::BadHeader);
    assert_eq!(err.line, 1);
}

#[test]
fn parse_error_unexpected_closer() {
    let err = match parse(&b("a = }\n")) {
        Err(e) => e,
        Ok(_) => panic!("expected a parse error"),
    };
    assert_eq!(err.kind, ParseErrorKind::UnexpectedCloser);
}

#[test]
fn parse_error_unclosed_value() {
    let err = match parse(&b("a = [\n  \"x\",\n")) {
        Err(e) => e,
        Ok(_) => panic!("expected a parse error"),
    };
    assert_eq!(err.kind, ParseErrorKind::UnclosedValue);
}

#[test]
fn string_array_parsing() {
    let r = parse_string_array(&b("[\"package\", \"dependencies\"]")).unwrap();
    assert_eq!(r, vec![b("package"), b("dependencies")]);
    let r2 = parse_string_array(&b("[]")).unwrap();
    assert!(r2.is_empty());
    let r3 = parse_string_array(&b("[\n  'a',\n  'b',\n]")).unwrap();
    assert_eq!(r3, vec![b("a"), b("b")]);
    assert!(parse_string_array(&b("nope")).is_none());
    assert!(parse_string_array(&b("[\"unclosed\"")).is_none());
}

#[test]
fn array_of_tables_round_trip_and_order() {
    let text = "[[bin]]\nname = \"a\"\n\n[[bin]]\nname = \"b\"\n\n[dependencies]\nz = \"1\"\na = \"2\"\n";
    let doc = parse(&b(text)).unwrap();
    assert_eq!(serialize(&doc), b(text));
    let (out, _, _) = run(text, default_cfg());
    // the bin sections are untouched; the dependency table sorts
    assert!(out.contains("[dependencies]\na = \"2\"\nz = \"1\"\n"), "got: {out}");
    let first = out.find("name = \"a\"").unwrap();
    let second = out.find("name = \"b\"").unwrap();
    assert!(first < second);
}

#[test]
fn dotted_sub_tables_sort_independently() {
    let text = "[dependencies.serde]\nversion = \"1\"\nfeatures = [\"derive\"]\n";
    let (out, sorted, _) = run(text, default_cfg());
    // the sub-table's name ends in none of the dependency suffixes with a dot,
    // full name `dependencies.serde` is not sortable: entries keep their order
    assert_eq!(out, "[dependencies.serde]\nversion = \"1\"\nfeatures = [\"derive\"]\n");
    assert!(sorted);
}

#[test]
fn header_comment_preserved() {
    let text = "[dependencies] # the deps\nb = \"1\"\na = \"2\"\n";
    let (out, _, _) = run(text, default_cfg());
    assert_eq!(out, "[dependencies] # the deps\na = \"2\"\nb = \"1\"\n");
}

#[test]
fn comment_block_above_table_moves_with_it() {
    let text = "# deps below\n[dependencies]\nx = \"1\"\n[package]\nname = \"p\"\n";
    let mut cfg = default_cfg();
    cfg.table_order = vec![b("package")];
    let (out, _, _) = run(text, cfg);
    assert_eq!(out, "[package]\nname = \"p\"\n# deps below\n[dependencies]\nx = \"1\"\n");
}

#[test]
fn sort_applied_twice_is_stable_no_format() {
    let text = "[dependencies]\nc = '3'\na = '1'\nb = '2'\n";
    let mut cfg = default_cfg();
    cfg.no_format = true;
    let (out1, _, _) = run(text, cfg);
    let mut cfg2 = default_cfg();
    cfg2.no_format = true;
    let (out2, sorted2, _) = run(&out1, cfg2);
    assert_eq!(out1, out2);
    assert!(sorted2);
}

#[test]
fn forced_crlf_counts_as_formatting_change() {
    // canonically formatted except for the line-ending convention
    let text = "[dependencies]\na = \"1\"\n";
    let mut cfg = default_cfg();
    cfg.crlf = Some(true);
    let (out, sorted, formatted) = run(text, cfg);
    assert_eq!(out, "[dependencies]\r\na = \"1\"\r\n");
    assert!(sorted);
    assert!(!formatted);
}

#[test]
fn crlf_input_canonical_is_already_formatted() {
    let text = "[dependencies]\r\na = \"1\"\r\n";
    let (out, sorted, formatted) = run(text, default_cfg());
    assert_eq!(out, text);
    assert!(sorted);
    assert!(formatted);
}
