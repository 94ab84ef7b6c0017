use srcdump::chunks::build_chunks;
use srcdump::outname::deletion_is_safe;
use srcdump::patterns::expand_brace_patterns;
use srcdump::sanitize::{sanitize_content, Style};
use srcdump::select::add_external_include;
use srcdump::tree::{render_tree, TreeNode};

fn b(s: &str) -> Vec<u8> {
    s.as_bytes().to_vec()
}

fn utf8(v: Vec<u8>) -> String {
    String::from_utf8(v).unwrap()
}

#[test]
fn literal_preservation_keeps_comment_like_strings() {
    let input = b("x = \"http://example\"");
    let out = sanitize_content(&input, Style::CStyle, true);
    assert_eq!(out, input);
}

#[test]
fn literal_preservation_single_and_backtick() {
    let input = b("a = 'no // cut'; t = `nor /* here */`;");
    let out = sanitize_content(&input, Style::CStyle, true);
    assert_eq!(out, input);
}

#[test]
fn comment_removal_drops_line_comment() {
    let out = utf8(sanitize_content(&b("a();  // note\nb();"), Style::CStyle, true));
    assert!(out.contains("a();"));
    assert!(out.contains("b();"));
    assert!(!out.contains("note"));
}

#[test]
fn script_style_hash_handling() {
    let out = sanitize_content(&b("KEY=value # comment"), Style::ScriptStyle, true);
    assert_eq!(out, b("KEY=value"));
}

#[test]
fn blank_line_collapse_three_to_one() {
    let out = sanitize_content(&b("a\n\n\n\nb"), Style::CStyle, true);
    assert_eq!(out, b("a\n\nb"));
}

#[test]
fn chunk_boundary_respects_limit() {
    let preamble = b("PP");
    let pieces = vec![b("aaa"), b("bbb"), b("ccc")];
    let chunks = build_chunks(&preamble, &pieces, 6);
    assert_eq!(chunks.len(), 2);
    assert_eq!(chunks[0].index, 1);
    assert_eq!(chunks[1].index, 2);
    assert_eq!(chunks[0].data, b("PPaaa"));
    assert_eq!(chunks[1].data, b("bbbccc"));
    // Conservation: the chunk bytes are exactly preamble + pieces.
    let total: Vec<u8> = chunks.iter().flat_map(|c| c.data.clone()).collect();
    assert_eq!(total, b("PPaaabbbccc"));
}

#[test]
fn chunk_boundary_oversized_piece_alone() {
    let preamble = b("PP");
    let pieces = vec![b("xxxxxxxxxx")];
    let chunks = build_chunks(&preamble, &pieces, 6);
    assert_eq!(chunks.len(), 2);
    assert_eq!(chunks[0].data, b("PP"));
    assert_eq!(chunks[1].data, b("xxxxxxxxxx"));
    assert!(chunks[1].data.len() > 6);
}

#[test]
fn chunk_of_preamble_alone_when_no_pieces() {
    let preamble = b("HEAD");
    let pieces: Vec<Vec<u8>> = Vec::new();
    let chunks = build_chunks(&preamble, &pieces, 100);
    assert_eq!(chunks.len(), 1);
    assert_eq!(chunks[0].index, 1);
    assert_eq!(chunks[0].data, b("HEAD"));
}

#[test]
fn pattern_expansion_yields_exactly_the_items() {
    let out = expand_brace_patterns(vec![b("a/{x,y}/b")]);
    assert_eq!(out, vec![b("a/x/b"), b("a/y/b")]);
}

#[test]
fn pattern_expansion_is_a_fixed_point() {
    let once = expand_brace_patterns(vec![b("a/{x,y}/b"), b("plain")]);
    let twice = expand_brace_patterns(once.clone());
    assert_eq!(once, twice);
}

#[test]
fn pattern_expansion_trims_items_and_keeps_malformed() {
    let out = expand_brace_patterns(vec![b("s/{ a , b }.rs"), b("un{closed")]);
    assert_eq!(out, vec![b("s/a.rs"), b("s/b.rs"), b("un{closed")]);
}

#[test]
fn deduplication_by_canonical_path() {
    let mut paths = vec![b("./src/a.php")];
    let mut canons = vec![b("/root/src/a.php")];
    // The same file again, by a distinct but canonically-equal path.
    let added = add_external_include(&mut paths, &mut canons, b("src/a.php"), b("/root/src/a.php"));
    assert!(!added);
    assert_eq!(paths.len(), 1);
    // A genuinely new file is appended.
    let added2 = add_external_include(&mut paths, &mut canons, b("x.txt"), b("/root/x.txt"));
    assert!(added2);
    assert_eq!(paths.len(), 2);
}

#[test]
fn deletion_guard_blocks_source_and_ancestors() {
    // Output directory equal to the source root.
    assert!(!deletion_is_safe(&b("/srv/proj"), &b("/srv/proj")));
    // Output directory an ancestor of the source root.
    assert!(!deletion_is_safe(&b("/srv"), &b("/srv/proj")));
    assert!(!deletion_is_safe(&b("/"), &b("/srv/proj")));
    // A sibling or a directory inside the source is allowed.
    assert!(deletion_is_safe(&b("/srv/dump"), &b("/srv/proj")));
    assert!(deletion_is_safe(&b("/srv/proj/dump"), &b("/srv/proj")));
    // A name that only shares a prefix is not an ancestor.
    assert!(deletion_is_safe(&b("/srv/pro"), &b("/srv/proj")));
}

fn sample_tree() -> TreeNode {
    TreeNode {
        name: b("/root"),
        is_dir: true,
        children: vec![
            TreeNode { name: b("README"), is_dir: false, children: Vec::new() },
            TreeNode {
                name: b("src"),
                is_dir: true,
                children: vec![TreeNode {
                    name: b("main.rs"),
                    is_dir: false,
                    children: Vec::new(),
                }],
            },
            TreeNode { name: b(".hidden"), is_dir: false, children: Vec::new() },
            TreeNode { name: b("target"), is_dir: true, children: Vec::new() },
        ],
    }
}

#[test]
fn tree_determinism_two_renders_identical() {
    let excludes = vec![b("target")];
    let one = render_tree(&sample_tree(), &excludes);
    let two = render_tree(&sample_tree(), &excludes);
    assert_eq!(one, two);
}

#[test]
fn tree_determinism_ignores_enumeration_order() {
    // The same directory handed out by the filesystem in a different order
    // draws the same bytes.
    let mut shuffled = sample_tree();
    shuffled.children.reverse();
    let excludes = vec![b("target")];
    assert_eq!(render_tree(&sample_tree(), &excludes), render_tree(&shuffled, &excludes));
}

#[test]
fn tree_rendering_orders_and_filters() {
    let excludes = vec![b("target")];
    let out = utf8(render_tree(&sample_tree(), &excludes));
    // Directories first, files after; hidden and excluded entries are gone.
    assert_eq!(out, "├── src\n│   └── main.rs\n└── README\n");
}

#[test]
fn tree_honors_separator_excludes() {
    // A pattern with a separator hides entries by substring match on the
    // path, exactly as the file selector prunes them.
    let excludes = vec![b("src/main.rs"), b("target")];
    let out = utf8(render_tree(&sample_tree(), &excludes));
    assert_eq!(out, "├── src\n└── README\n");
}
