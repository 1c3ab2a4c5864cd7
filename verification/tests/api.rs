use ultra_uni::{lint, measure, parse_syntax, syntax_tree, ApiError};

#[test]
fn syntax_tree_of_typescript_is_an_s_expression() {
    let sexp = syntax_tree("typescript", "const x = 1;").unwrap();
    assert_eq!(
        sexp,
        "(program (lexical_declaration (variable_declarator name: (identifier) value: (number))))"
    );
}

#[test]
fn plain_text_has_no_syntax_tree() {
    let error = syntax_tree("text", "hello").unwrap_err();
    assert!(matches!(error, ApiError::NoSyntaxTree(ref id) if id == "text"));
    assert_eq!(error.message(), "text has no syntax tree");
}

#[test]
fn unsupported_languages_are_refused_everywhere() {
    let expected = "Unsupported language: cobol";
    assert_eq!(syntax_tree("cobol", "x").unwrap_err().message(), expected);
    assert_eq!(measure("cobol", "x").unwrap_err().message(), expected);
    assert_eq!(lint("cobol", "x").unwrap_err().message(), expected);
    assert_eq!(ultra_uni::format("cobol", "x").unwrap_err().message(), expected);
    assert!(matches!(parse_syntax("cobol", "x"), Err(ApiError::UnsupportedLanguage(ref id)) if id == "cobol"));
}

#[test]
fn error_messages() {
    assert_eq!(ApiError::ParsingCancelled.message(), "Parsing was cancelled");
    assert_eq!(ApiError::SyntaxErrors.message(), "Cannot format code with syntax errors");
    assert_eq!(
        ApiError::UnreadableTree.message(),
        "The syntax tree does not fit its text"
    );
    assert_eq!(
        ApiError::TooManyNodes.message(),
        "The syntax tree has too many nodes to measure"
    );
}

#[test]
fn parse_reads_a_tree_for_grammar_languages_only() {
    let (spec, tree) = parse_syntax("python", "x = 1\n").unwrap();
    assert!(spec.grammar.is_some());
    let tree = tree.unwrap();
    assert_eq!(tree.nodes[0].kind, "module");
    assert_eq!(tree.nodes[0].start_byte, 0);
    assert_eq!(tree.nodes[0].subtree_end, tree.nodes.len());
    let (spec, tree) = parse_syntax("text", "x = 1\n").unwrap();
    assert!(spec.grammar.is_none() && spec.profile.is_none() && tree.is_none());
}

#[test]
fn measure_plain_text_counts_lines_only() {
    let metrics = measure("text", "a\n\n  b\n").unwrap();
    assert_eq!(metrics.lines.total, 3);
    assert_eq!(metrics.lines.code, 2);
    assert_eq!(metrics.lines.comment, 0);
    assert_eq!(metrics.lines.blank, 1);
    assert_eq!(metrics.function_count, None);
    assert_eq!(metrics.cyclomatic_complexity, None);
    assert_eq!(metrics.cognitive_complexity, None);
    assert_eq!(metrics.max_nesting_depth, None);
}

#[test]
fn measure_python_function() {
    let source = "def f(x):\n    # comment\n    if x and y:\n        return 1\n    return 0\n";
    let metrics = measure("python", source).unwrap();
    assert_eq!(metrics.lines.total, 5);
    assert_eq!(metrics.lines.code, 4);
    assert_eq!(metrics.lines.comment, 1);
    assert_eq!(metrics.lines.blank, 0);
    assert_eq!(metrics.function_count, Some(1));
    // The file, the function, the `if` and the `and`.
    assert_eq!(metrics.cyclomatic_complexity, Some(4));
    // The `if` at nesting level zero and the `and` sequence.
    assert_eq!(metrics.cognitive_complexity, Some(2));
    assert_eq!(metrics.max_nesting_depth, Some(1));
}

#[test]
fn measure_css_omits_complexity_but_counts_comments() {
    let metrics = measure("css", "/* c */\na {}\n").unwrap();
    assert_eq!(metrics.lines.total, 2);
    assert_eq!(metrics.lines.comment, 1);
    assert_eq!(metrics.lines.code, 1);
    assert_eq!(metrics.function_count, None);
    assert_eq!(metrics.cyclomatic_complexity, None);
}

#[test]
fn lint_plain_text_reports_trailing_whitespace() {
    let diagnostics = lint("text", "a  \nb\t\r\n").unwrap();
    assert_eq!(diagnostics.len(), 2);
    assert_eq!(diagnostics[0].rule, "trailing-whitespace");
    assert_eq!(diagnostics[0].message, "Trailing whitespace");
    assert_eq!((diagnostics[0].start.line, diagnostics[0].start.column), (1, 2));
    assert_eq!((diagnostics[0].end.line, diagnostics[0].end.column), (1, 4));
    // The `\r` of a CRLF line ending is not flagged.
    assert_eq!((diagnostics[1].start.line, diagnostics[1].start.column), (2, 2));
    assert_eq!((diagnostics[1].end.line, diagnostics[1].end.column), (2, 3));
}

#[test]
fn lint_reports_syntax_errors_sorted_by_start() {
    let diagnostics = lint("python", "x = 1  \ny = (\n").unwrap();
    assert!(diagnostics.iter().any(|d| d.rule == "syntax-error"));
    assert!(diagnostics.iter().any(|d| d.rule == "trailing-whitespace"));
    for pair in diagnostics.windows(2) {
        assert!((pair[0].start.line, pair[0].start.column) <= (pair[1].start.line, pair[1].start.column));
    }
    assert_eq!(diagnostics[0].rule, "trailing-whitespace");
}

#[test]
fn lint_clean_python_reports_nothing() {
    assert!(lint("python", "x = 1\n").unwrap().is_empty());
}

#[test]
fn format_plain_text() {
    assert_eq!(ultra_uni::format("text", "a  \r\nb\n\n\n").unwrap(), "a\nb\n");
    assert_eq!(ultra_uni::format("text", "").unwrap(), "");
    assert_eq!(ultra_uni::format("text", "x").unwrap(), "x\n");
    assert_eq!(ultra_uni::format("text", " \n\t\n").unwrap(), "");
}

#[test]
fn format_python_removes_trailing_whitespace() {
    assert_eq!(ultra_uni::format("python", "x = 1   \n\n").unwrap(), "x = 1\n");
}

#[test]
fn format_keeps_whitespace_inside_strings() {
    let source = "s = '''a  \nb'''\n";
    assert_eq!(ultra_uni::format("python", source).unwrap(), source);
}

#[test]
fn format_refuses_syntax_errors() {
    let error = ultra_uni::format("python", "x = (  \n").unwrap_err();
    assert!(matches!(error, ApiError::SyntaxErrors));
    assert_eq!(error.message(), "Cannot format code with syntax errors");
}

#[test]
fn formatted_plain_text_lints_clean_and_is_stable() {
    for source in ["a  \r\nb\t\n\n", "  \n x \n", "x", "", "\n\n", "a\r\n\r\n b \t"] {
        let once = ultra_uni::format("text", source).unwrap();
        assert!(lint("text", &once).unwrap().is_empty(), "{source:?}");
        assert_eq!(ultra_uni::format("text", &once).unwrap(), once, "{source:?}");
    }
}
