use srcdump::chunks::{file_piece, make_header, make_preamble};
use srcdump::outname::resolve_output_name;
use srcdump::patterns::pattern_lines;
use srcdump::sanitize::{classify_style, sanitize_content, strip_comments, Style};
use srcdump::select::{
    count_unmatched, extension_of, include_matches, is_excluded_entry, normalize_target_ext,
    should_select,
};

fn b(s: &str) -> Vec<u8> {
    s.as_bytes().to_vec()
}

#[test]
fn classify_by_extension_and_name() {
    assert_eq!(classify_style(&b("py"), &b("run.py")), Style::ScriptStyle);
    assert_eq!(classify_style(&b("toml"), &b("Cargo.toml")), Style::ScriptStyle);
    assert_eq!(classify_style(&b("php"), &b("index.php")), Style::PhpStyle);
    assert_eq!(classify_style(&b(""), &b("Dockerfile")), Style::ScriptStyle);
    assert_eq!(classify_style(&b(""), &b("Makefile")), Style::ScriptStyle);
    assert_eq!(classify_style(&b("rs"), &b("main.rs")), Style::CStyle);
    assert_eq!(classify_style(&b("js"), &b("app.js")), Style::CStyle);
}

#[test]
fn php_style_strips_all_three_comment_forms() {
    let input = b("$a = 1; # note\n$b = 2; // more\n/* block */ $c = 3;");
    let out = String::from_utf8(strip_comments(&input, Style::PhpStyle)).unwrap();
    assert!(out.contains("$a = 1;"));
    assert!(out.contains("$b = 2;"));
    assert!(out.contains("$c = 3;"));
    assert!(!out.contains("note"));
    assert!(!out.contains("more"));
    assert!(!out.contains("block"));
}

#[test]
fn unterminated_literal_extends_to_end() {
    let input = b("var s = \"abc // not a comment");
    assert_eq!(strip_comments(&input, Style::CStyle), input);
}

#[test]
fn unterminated_block_comment_extends_to_end() {
    let input = b("a /* zzz");
    assert_eq!(sanitize_content(&input, Style::CStyle, true), b("a"));
}

#[test]
fn escaped_quote_does_not_close_literal() {
    let input = b("x = \"a\\\" // still inside\";");
    assert_eq!(strip_comments(&input, Style::CStyle), input);
}

#[test]
fn plain_style_passes_through_unchanged() {
    let input = b("# not stripped\n\n\n// kept");
    assert_eq!(sanitize_content(&input, Style::Plain, true), input);
}

#[test]
fn clean_disabled_passes_through_unchanged() {
    let input = b("a // comment\n\n\n");
    assert_eq!(sanitize_content(&input, Style::CStyle, false), input);
}

#[test]
fn leading_and_trailing_blanks_trimmed() {
    let input = b("\n\n  \nmid\n   \n\n");
    assert_eq!(sanitize_content(&input, Style::CStyle, true), b("mid"));
}

#[test]
fn extension_of_names() {
    assert_eq!(extension_of(&b("a.tar.gz")), Some(b("gz")));
    assert_eq!(extension_of(&b(".env")), None);
    assert_eq!(extension_of(&b("plain")), None);
    assert_eq!(extension_of(&b("dot.")), Some(b("")));
}

#[test]
fn normalize_target_ext_strips_dots_and_lowercases() {
    assert_eq!(normalize_target_ext(&b("..PHP")), b("php"));
    assert_eq!(normalize_target_ext(&b("Rs")), b("rs"));
}

#[test]
fn git_directory_always_pruned() {
    let none: Vec<Vec<u8>> = Vec::new();
    assert!(is_excluded_entry(&b("repo/.git"), &b(".git"), 1, &none));
    assert!(!is_excluded_entry(&b("."), &b(".git"), 0, &none));
}

#[test]
fn selection_by_extension_or_include() {
    let no_inc: Vec<Vec<u8>> = Vec::new();
    assert!(should_select(&b("src/a.php"), &b("a.php"), &b("php"), &no_inc));
    assert!(should_select(&b("src/a.PHP"), &b("a.PHP"), &b("php"), &no_inc));
    assert!(!should_select(&b("src/a.txt"), &b("a.txt"), &b("php"), &no_inc));
    let incs = vec![b("b.txt"), b("conf/.env")];
    assert!(should_select(&b("x/b.txt"), &b("b.txt"), &b("php"), &incs));
    assert!(should_select(&b("deep/conf/.env"), &b(".env"), &b("php"), &incs));
    assert!(!should_select(&b("deep/conf/env"), &b("env"), &b("php"), &incs));
}

#[test]
fn include_match_by_name_or_suffix() {
    assert!(include_matches(&b("a/b/c.txt"), &b("c.txt"), &b("c.txt")));
    assert!(include_matches(&b("a/b/c.txt"), &b("c.txt"), &b("b/c.txt")));
    assert!(!include_matches(&b("a/b/c.txt"), &b("c.txt"), &b("d.txt")));
}

#[test]
fn unmatched_includes_are_counted() {
    assert_eq!(count_unmatched(&vec![true, false, true, false]), 2);
    assert_eq!(count_unmatched(&Vec::new()), 0);
}

#[test]
fn pattern_file_lines_skip_blanks_and_comments() {
    let text = b("a\n# comment\n\n  b  \n");
    assert_eq!(pattern_lines(&text), vec![b("a"), b("b")]);
}

#[test]
fn header_names_the_file() {
    assert_eq!(make_header(&b("x.js")), b("\n--- FILE: \"x.js\" ---\n"));
}

#[test]
fn file_piece_empty_after_cleaning_vanishes() {
    assert_eq!(file_piece(&b("x.js"), &b("// only a comment"), Style::CStyle, true), None);
}

#[test]
fn file_piece_holds_header_content_newline() {
    let piece = file_piece(&b("x.js"), &b("let a;"), Style::CStyle, false).unwrap();
    assert_eq!(piece, b("\n--- FILE: \"x.js\" ---\nlet a;\n"));
}

#[test]
fn preamble_has_banners_around_tree() {
    let banner = "=".repeat(42);
    let expect = format!("PROJECT STRUCTURE: \"r\"\n{}\nT\n\n{}\n\n", banner, banner);
    assert_eq!(make_preamble(&b("r"), &b("T\n")), expect.into_bytes());
}

#[test]
fn output_name_star_replaced_by_index() {
    assert_eq!(resolve_output_name(&b("dump/dump_*.txt"), &b(".php"), 3), b("dump/dump_3.txt"));
    assert_eq!(resolve_output_name(&b("dump/dump_*.txt"), &b(".php"), 12), b("dump/dump_12.txt"));
}

#[test]
fn output_name_type_placeholder_replaced() {
    assert_eq!(resolve_output_name(&b("out/dump{type}"), &b(".rs"), 3), b("out/dump_3.rs"));
}

#[test]
fn output_name_index_inserted_before_extension() {
    assert_eq!(resolve_output_name(&b("dump/out.txt"), &b(".php"), 2), b("dump/out_2.txt"));
    assert_eq!(resolve_output_name(&b("out/data"), &b(".php"), 2), b("out/data_2"));
    assert_eq!(resolve_output_name(&b("plain.txt"), &b(".php"), 1), b("plain_1.txt"));
}
