use bazel_lsp::lens::{classify_rule_kind, lenses_for_target, RuleKind};
use bazel_lsp::semantic::{encode_semantic_tokens, TokenSpan};
use bazel_lsp::text::{apply_content_change, line_prefix};

#[test]
fn test_classify_rule_kind_suffixes() {
    assert_eq!(classify_rule_kind("cc_test"), RuleKind::Test);
    assert_eq!(classify_rule_kind("go_binary"), RuleKind::Binary);
    assert_eq!(classify_rule_kind("py_library"), RuleKind::Other);
    assert_eq!(classify_rule_kind("_test"), RuleKind::Test);
    assert_eq!(classify_rule_kind("test"), RuleKind::Other);
}

#[test]
fn test_lenses_for_test_target() {
    let lenses = lenses_for_target("unit", "cc_test", "pkg");
    assert_eq!(lenses.len(), 2);
    assert_eq!(lenses[0].title, "Test unit");
    assert_eq!(lenses[0].command, "bazel.test");
    assert_eq!(lenses[0].target, "//pkg:unit");
    assert_eq!(lenses[1].title, "Build unit");
    assert_eq!(lenses[1].command, "bazel.build");
    assert_eq!(lenses[1].target, "//pkg:unit");
}

#[test]
fn test_lenses_for_binary_target() {
    let lenses = lenses_for_target("tool", "go_binary", "");
    assert_eq!(lenses.len(), 2);
    assert_eq!(lenses[0].title, "\u{25b6} Run tool");
    assert_eq!(lenses[0].command, "bazel.run");
    assert_eq!(lenses[0].target, "//:tool");
    assert_eq!(lenses[1].title, "Build tool");
}

#[test]
fn test_lenses_for_library_target() {
    let lenses = lenses_for_target("lib", "py_library", "a/b");
    assert_eq!(lenses.len(), 1);
    assert_eq!(lenses[0].title, "Build lib");
    assert_eq!(lenses[0].command, "bazel.build");
    assert_eq!(lenses[0].target, "//a/b:lib");
}

#[test]
fn test_encode_semantic_tokens_sorts_and_deltas() {
    let spans = vec![
        TokenSpan { line: 1, start: 4, end: 8, kind: 1 },
        TokenSpan { line: 0, start: 0, end: 9, kind: 0 },
        TokenSpan { line: 1, start: 11, end: 24, kind: 2 },
    ];
    let toks = encode_semantic_tokens(&spans);
    assert_eq!(toks.len(), 3);
    // first token: absolute position
    assert_eq!((toks[0].delta_line, toks[0].delta_start, toks[0].length, toks[0].token_type), (0, 0, 9, 0));
    // next line: line delta 1, start is absolute on the new line
    assert_eq!((toks[1].delta_line, toks[1].delta_start, toks[1].length, toks[1].token_type), (1, 4, 4, 1));
    // same line: start delta from the previous token
    assert_eq!((toks[2].delta_line, toks[2].delta_start, toks[2].length, toks[2].token_type), (0, 7, 13, 2));
}

#[test]
fn test_encode_semantic_tokens_empty() {
    let toks = encode_semantic_tokens(&vec![]);
    assert_eq!(toks.len(), 0);
}

#[test]
fn test_line_prefix_extracts_up_to_cursor() {
    let text = "first line\n    deps = [\"//a\nlast";
    assert_eq!(line_prefix(text, 1, 16), "    deps = [\"//a");
    assert_eq!(line_prefix(text, 1, 13), "    deps = [\"");
    assert_eq!(line_prefix(text, 0, 5), "first");
    // a column past the line end clamps to the line end
    assert_eq!(line_prefix(text, 0, 99), "first line");
}

#[test]
fn test_apply_content_change_replaces_span() {
    let text = "abc\ndef\nghi";
    // replace "ef" (line 1, chars 1..3) with "X"
    assert_eq!(apply_content_change(text, 1, 1, 1, 3, "X"), "abc\ndX\nghi");
    // insertion at a point
    assert_eq!(apply_content_change(text, 0, 3, 0, 3, "!"), "abc!\ndef\nghi");
    // spanning a newline
    assert_eq!(apply_content_change(text, 0, 1, 2, 1, "-"), "a-hi");
}
