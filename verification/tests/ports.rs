use srcdump::patterns::expand_brace_patterns;
use srcdump::sanitize::{strip_comments, Style};
use srcdump::select::matches_exclusion;

fn b(s: &str) -> Vec<u8> {
    s.as_bytes().to_vec()
}

fn utf8(v: Vec<u8>) -> String {
    String::from_utf8(v).unwrap()
}

#[test]
fn test_c_style_regex() {
    let input = r#"
            var x = 1; // DELETE_ME_COMMENT
            var y = "string with // KEEP_ME_STRING inside";
            var z = `template with // KEEP_ME_TEMPLATE inside`;
            /*
               DELETE_ME_BLOCK
            */
            var w = 'single quote // KEEP_ME_SINGLE';
        "#;

    let output = utf8(strip_comments(&b(input), Style::CStyle));

    assert!(output.contains("var x = 1;"));
    assert!(!output.contains("DELETE_ME_COMMENT"));
    assert!(!output.contains("DELETE_ME_BLOCK"));

    assert!(output.contains("KEEP_ME_STRING"));
    assert!(output.contains("KEEP_ME_TEMPLATE"));
    assert!(output.contains("KEEP_ME_SINGLE"));
}

#[test]
fn test_brace_expansion() {
    let input = vec![b("src/{a,b,c}.rs"), b("test")];
    let output = expand_brace_patterns(input);
    assert!(output.contains(&b("src/a.rs")));
    assert!(output.contains(&b("src/b.rs")));
    assert!(output.contains(&b("src/c.rs")));
    assert!(output.contains(&b("test")));
}

#[test]
fn test_smart_exclusion() {
    let excludes = vec![b("test"), b("vendor/bin")];

    let p1 = b("src/app/test/file.php");
    let p2 = b("src/app/latest_news.php");
    let p3 = b("src/vendor/bin/tool");

    let check = |path: &Vec<u8>| -> bool {
        excludes.iter().any(|excl| matches_exclusion(path, excl))
    };

    assert!(check(&p1));
    assert!(!check(&p2));
    assert!(check(&p3));
}
