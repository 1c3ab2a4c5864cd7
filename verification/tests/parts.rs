use std::ops::Range;

use ultra_uni::format::{is_literal_kind, trailing_whitespace, value_ranges};
use ultra_uni::language::resolve;
use ultra_uni::lint::{has_syntax_errors, lint as lint_tree, LineIndex};
use ultra_uni::metrics::{measure as measure_tree, measure_lines};
use ultra_uni::parse_syntax;
use ultra_uni::syntax::{build_tree, RawNode, SyntaxTree};
use ultra_uni::tree::{next_code_sibling, prev_code_sibling, walk};

fn tree_of(language: &str, source: &str) -> SyntaxTree {
    parse_syntax(language, source).unwrap().1.unwrap()
}

#[test]
fn trailing_whitespace_without_values() {
    let ranges: Vec<Range<usize>> = trailing_whitespace("a \nb\t\t\nc", &[]);
    assert_eq!(ranges, vec![1..2, 4..6]);
    assert_eq!(trailing_whitespace("a\r\n", &[]), vec![1..2]);
    assert_eq!(trailing_whitespace("", &[]), Vec::<Range<usize>>::new());
    assert_eq!(trailing_whitespace("  ", &[]), vec![0..2]);
}

#[test]
fn trailing_whitespace_skips_values() {
    // The whitespace at the end of the first line belongs to a value.
    assert_eq!(trailing_whitespace("ab  \n", &[2..4]), Vec::<Range<usize>>::new());
    // A value that ends inside the trailing run leaves the rest of it.
    assert_eq!(trailing_whitespace("ab   \n", &[1..3]), vec![3..5]);
}

#[test]
fn literal_kinds() {
    for kind in ["string", "template_string", "heredoc_body", "regex", "text", "raw_text", "content"] {
        assert!(is_literal_kind(kind), "{kind}");
    }
    for kind in ["identifier", "comment", "texts", "number"] {
        assert!(!is_literal_kind(kind), "{kind}");
    }
}

#[test]
fn line_index_positions() {
    let source = "ab\nc\u{1F600}d";
    let lines = LineIndex::new(source);
    assert_eq!(lines.line_starts, vec![0, 3]);
    let p = lines.position(0);
    assert_eq!((p.line, p.column), (1, 1));
    let p = lines.position(2);
    assert_eq!((p.line, p.column), (1, 3));
    let p = lines.position(3);
    assert_eq!((p.line, p.column), (2, 1));
    // The emoji takes two UTF-16 code units.
    let p = lines.position(8);
    assert_eq!((p.line, p.column), (2, 4));
    assert_eq!(lines.line_of(8), 1);
}

#[test]
fn walk_visits_in_preorder_and_skips_subtrees() {
    let tree = tree_of("python", "x = 1\n");
    let n = tree.nodes.len();
    let all = walk(&tree, 0, &vec![true; n]);
    assert_eq!(all, (0..n).collect::<Vec<_>>());
    let root_only = walk(&tree, 0, &vec![false; n]);
    assert_eq!(root_only, vec![0]);
}

#[test]
fn code_siblings_skip_comments() {
    let tree = tree_of("python", "x = 1\n# c\ny = 2\n");
    let children: Vec<usize> = tree.children_of(0);
    assert_eq!(children.len(), 3);
    assert_eq!(tree.nodes[children[1]].kind, "comment");
    assert!(tree.nodes[children[1]].is_extra);
    assert_eq!(prev_code_sibling(&tree, children[2]), Some(children[0]));
    assert_eq!(next_code_sibling(&tree, children[0]), Some(children[2]));
    assert_eq!(prev_code_sibling(&tree, children[0]), None);
    assert_eq!(next_code_sibling(&tree, children[2]), None);
}

#[test]
fn value_ranges_cover_strings() {
    let source = "s = 'a  '\n";
    let tree = tree_of("python", source);
    let ranges = value_ranges(source, Some(&tree));
    assert_eq!(ranges, vec![4..9]);
    assert_eq!(trailing_whitespace(source, &ranges), Vec::<Range<usize>>::new());
    assert_eq!(value_ranges(source, None), Vec::<Range<usize>>::new());
}

#[test]
fn format_with_a_tree() {
    let source = "x = 1 \ny = 2\t\n\n";
    let tree = tree_of("python", source);
    assert_eq!(ultra_uni::format::format(source, Some(&tree)), "x = 1\ny = 2\n");
    assert_eq!(ultra_uni::format::format("a \n", None), "a\n");
}

#[test]
fn has_syntax_errors_matches_lint() {
    for (source, broken) in [("x = 1\n", false), ("x = (\n", true), ("def f(:\n", true)] {
        let tree = tree_of("python", source);
        assert_eq!(has_syntax_errors(source, &tree), broken, "{source:?}");
        let reported = lint_tree(source, Some(&tree)).iter().any(|d| d.rule == "syntax-error");
        assert_eq!(reported, broken, "{source:?}");
    }
}

#[test]
fn measure_lines_with_and_without_tree() {
    let source = "// a\nint x; // b\n\n";
    let tree = tree_of("c", source);
    let with_tree = measure_lines(source, Some(&tree));
    assert_eq!((with_tree.total, with_tree.code, with_tree.comment, with_tree.blank), (3, 1, 1, 1));
    let without = measure_lines(source, None);
    assert_eq!((without.total, without.code, without.comment, without.blank), (3, 2, 0, 1));
}

#[test]
fn lines_partition_into_kinds() {
    for (language, source) in [
        ("python", "# a\n\nx = 1\n  \n"),
        ("c", "/* a\n b */\nint f() { return 0; }\n"),
        ("text", "a\n\nb"),
    ] {
        let tree = parse_syntax(language, source).unwrap().1;
        let lines = measure_lines(source, tree.as_ref());
        assert_eq!(lines.total, lines.code + lines.comment + lines.blank, "{language}");
    }
}

#[test]
fn cyclomatic_exceeds_function_count() {
    let source = "int f(int a) { if (a && a > 1) return 1; return 0; }\nint g(void) { return 2; }\n";
    let tree = tree_of("c", source);
    let profile = resolve("c").unwrap().profile.unwrap();
    let metrics = measure_tree(source, Some(&tree), Some(&profile));
    assert_eq!(metrics.function_count, Some(2));
    // The file, two functions, the `if` and the `&&`.
    assert_eq!(metrics.cyclomatic_complexity, Some(5));
    assert!(metrics.cyclomatic_complexity.unwrap() > metrics.function_count.unwrap());
    let without_profile = measure_tree(source, Some(&tree), None);
    assert_eq!(without_profile.cyclomatic_complexity, None);
}

#[test]
fn nested_control_flow_adds_nesting() {
    let source = "def f(a, b):\n    for x in a:\n        if x:\n            while b:\n                pass\n";
    let tree = tree_of("python", source);
    let profile = resolve("python").unwrap().profile.unwrap();
    let metrics = measure_tree(source, Some(&tree), Some(&profile));
    assert_eq!(metrics.max_nesting_depth, Some(3));
    // `for` at level 0, `if` at level 1 and `while` at level 2.
    assert_eq!(metrics.cognitive_complexity, Some(1 + 2 + 3));
    assert_eq!(metrics.cyclomatic_complexity, Some(5));
}

#[test]
fn value_ranges_are_in_document_order() {
    let source = "a = 'x  '\nb = \"y\"\nc = f'''z\n'''\n";
    let tree = tree_of("python", source);
    let ranges = value_ranges(source, Some(&tree));
    assert_eq!(ranges.len(), 3);
    for pair in ranges.windows(2) {
        assert!(pair[0].end <= pair[1].start);
    }
    assert_eq!(ranges[0], 4..9);
}

fn raw(kind: &str, start: usize, end: usize, depth: usize) -> RawNode {
    RawNode {
        kind: kind.to_owned(),
        field_name: None,
        is_named: true,
        is_extra: false,
        is_error: false,
        is_missing: false,
        has_error: false,
        start_byte: start,
        end_byte: end,
        depth,
    }
}

#[test]
fn build_tree_links_records_by_depth() {
    let source = "ab cd";
    let records = vec![raw("root", 0, 5, 0), raw("a", 0, 2, 1), raw("x", 0, 1, 2), raw("b", 3, 5, 1)];
    let tree = build_tree(&records, source).unwrap();
    assert_eq!(tree.nodes.len(), 4);
    assert_eq!(tree.nodes[0].parent, None);
    assert_eq!(tree.nodes[1].parent, Some(0));
    assert_eq!(tree.nodes[2].parent, Some(1));
    assert_eq!(tree.nodes[3].parent, Some(0));
    assert_eq!(tree.nodes[3].prev_sibling, Some(1));
    assert_eq!(tree.nodes[1].prev_sibling, None);
    assert_eq!(
        tree.nodes.iter().map(|n| n.subtree_end).collect::<Vec<_>>(),
        vec![4, 3, 3, 4]
    );
    assert_eq!(tree.nodes[2].kind, "x");
    assert!(tree.check_order());
}

#[test]
fn build_tree_refuses_what_is_no_tree() {
    let source = "ab";
    // No records.
    assert!(build_tree(&vec![], source).is_none());
    // A second root.
    assert!(build_tree(&vec![raw("r", 0, 2, 0), raw("s", 0, 2, 0)], source).is_none());
    // A jump of two levels.
    assert!(build_tree(&vec![raw("r", 0, 2, 0), raw("s", 0, 2, 2)], source).is_none());
    // A range past the text.
    assert!(build_tree(&vec![raw("r", 0, 3, 0)], source).is_none());
    // A range that splits a character.
    assert!(build_tree(&vec![raw("r", 0, 1, 0)], "\u{e9}").is_none());
}

#[test]
fn trailing_whitespace_skips_a_value_that_starts_in_the_blank_run() {
    assert_eq!(trailing_whitespace("a  \n", &[2..3]), Vec::<Range<usize>>::new());
    assert_eq!(trailing_whitespace("a   \n", &[1..2]), vec![2..4]);
}

#[test]
fn syntax_tree_of_rust_is_an_s_expression() {
    assert_eq!(
        ultra_uni::syntax_tree("rust", "fn f() {}").unwrap(),
        "(source_file (function_item name: (identifier) parameters: (parameters) body: (block)))"
    );
}

#[test]
fn trailing_whitespace_of_joined_lines() {
    let a = "a \n";
    let b = "b\t";
    let joined = format!("{a}{b}");
    let mut expected = trailing_whitespace(a, &[]);
    expected.extend(trailing_whitespace(b, &[]).into_iter().map(|r| r.start + a.len()..r.end + a.len()));
    assert_eq!(trailing_whitespace(&joined, &[]), expected);
    assert_eq!(expected, vec![1..2, 4..5]);
}

#[test]
fn positions_grow_with_the_offset() {
    let source = "ab\n\u{e9}\u{1F600}\n\nz";
    let lines = LineIndex::new(source);
    let boundaries: Vec<usize> = (0..=source.len()).filter(|&i| source.is_char_boundary(i)).collect();
    for pair in boundaries.windows(2) {
        let p = lines.position(pair[0]);
        let q = lines.position(pair[1]);
        assert!((p.line, p.column) < (q.line, q.column), "{pair:?}");
    }
}

#[test]
fn a_value_at_the_end_is_kept_verbatim() {
    let source = "x = 1  \n__END__\ndata  ";
    let tree = tree_of("ruby", source);
    let values = value_ranges(source, Some(&tree));
    let last = values.last().unwrap();
    assert_eq!(last.end, source.len());
    let out = ultra_uni::format::format(source, Some(&tree));
    assert!(out.ends_with(&source[last.start..]));
    assert!(out.ends_with("data  "));
    assert!(out.starts_with("x = 1\n"));
}

#[test]
fn lint_without_a_tree_keeps_text_order() {
    let source = "a \nb\t\n  \n";
    let diagnostics = lint_tree(source, None);
    let starts: Vec<(u32, u32)> = diagnostics.iter().map(|d| (d.start.line, d.start.column)).collect();
    assert_eq!(starts, vec![(1, 2), (2, 2), (3, 1)]);
}

#[test]
fn value_ranges_of_markup_are_disjoint() {
    let sources = [
        "<ul><li>one  \n  <li>two</ul>\n",
        "<p>a  \n<pre> b </pre>\n",
        "<textarea>x</textarea>\n<p>y  \n",
    ];
    for source in sources {
        let tree = tree_of("html", source);
        let ranges = value_ranges(source, Some(&tree));
        for r in &ranges {
            assert!(r.start <= r.end && r.end <= source.len(), "{source:?}: {ranges:?}");
        }
        for pair in ranges.windows(2) {
            assert!(pair[0].end <= pair[1].start, "{source:?}: {ranges:?}");
        }
    }
}

fn removes_only_whitespace(source: &str, out: &str) {
    let (src, out) = (source.as_bytes(), out.as_bytes());
    let mut k = 0;
    for (i, &byte) in out.iter().enumerate() {
        while k < src.len() && src[k] != byte {
            assert!(b" \t\r\n".contains(&src[k]), "{source:?}");
            k += 1;
        }
        if k == src.len() {
            // Only a final line feed may be added.
            assert!(i == out.len() - 1 && byte == b'\n', "{source:?}");
            return;
        }
        k += 1;
    }
    assert!(src[k..].iter().all(|b| b" \t\r\n".contains(b)), "{source:?}");
}

#[test]
fn format_removes_only_whitespace() {
    for (language, source) in [
        ("python", "x = 1   \n\n\ny = 'a  '  \n"),
        ("text", "a\t\r\nb  "),
        ("html", "<pre>a  \n</pre>  \n\n"),
    ] {
        let tree = parse_syntax(language, source).unwrap().1;
        let out = ultra_uni::format::format(source, tree.as_ref());
        removes_only_whitespace(source, &out);
    }
}
