use bazel_lsp::format::sort_deps_in_text;

#[test]
fn test_sort_deps_basic() {
    let input = r#"
cc_binary(
    name = "my_binary",
    deps = [
        "//third_party:lib3",
        "//base:lib1",
        "//core:lib2",
    ],
)
"#;

    let expected = r#"
cc_binary(
    name = "my_binary",
    deps = [
        "//base:lib1",
        "//core:lib2",
        "//third_party:lib3",
    ],
)
"#;

    let result = sort_deps_in_text(input);
    assert_eq!(result, expected);
}

#[test]
fn test_sort_deps_multiple_targets() {
    let input = r#"
cc_binary(
    name = "binary1",
    deps = [
        "//third_party:lib3",
        "//base:lib1",
    ],
)

cc_binary(
    name = "binary2",
    deps = [
        "//core:lib2",
        "//base:lib1",
    ],
)
"#;

    let expected = r#"
cc_binary(
    name = "binary1",
    deps = [
        "//base:lib1",
        "//third_party:lib3",
    ],
)

cc_binary(
    name = "binary2",
    deps = [
        "//base:lib1",
        "//core:lib2",
    ],
)
"#;

    let result = sort_deps_in_text(input);
    assert_eq!(result, expected);
}

#[test]
fn test_sort_deps_empty_list() {
    let input = r#"
cc_binary(
    name = "my_binary",
    deps = [],
)
"#;

    let expected = r#"
cc_binary(
    name = "my_binary",
    deps = [],
)
"#;

    let result = sort_deps_in_text(input);
    assert_eq!(result, expected);
}

#[test]
fn test_sort_deps_single_dep() {
    let input = r#"
cc_binary(
    name = "my_binary",
    deps = ["//base:lib1"],
)
"#;

    let expected = r#"
cc_binary(
    name = "my_binary",
    deps = [
        "//base:lib1",
    ],
)
"#;

    let result = sort_deps_in_text(input);
    assert_eq!(result, expected);
}

#[test]
fn test_sort_deps_no_deps() {
    let input = r#"
cc_binary(
    name = "my_binary",
    srcs = ["main.cc"],
)
"#;

    let expected = r#"
cc_binary(
    name = "my_binary",
    srcs = ["main.cc"],
)
"#;

    let result = sort_deps_in_text(input);
    assert_eq!(result, expected);
}

#[test]
fn test_sort_deps_complex() {
    let input = r#"
cc_binary(
    name = "my_binary",
    srcs = ["main.cc"],
    deps = [
        "//third_party:lib3",
        "//base:lib1",
        "//core:lib2",
        "//base:lib1",  # duplicate
    ],
)

go_library(
    name = "go_lib",
    srcs = ["lib.go"],
    deps = [
        "//go:go111",
        "//go:go",
        "//aaa:go111",
    ],
)
"#;

    let expected = r#"
cc_binary(
    name = "my_binary",
    srcs = ["main.cc"],
    deps = [
        "//base:lib1",
        "//core:lib2",
        "//third_party:lib3",
    ],
)

go_library(
    name = "go_lib",
    srcs = ["lib.go"],
    deps = [
        "//aaa:go111",
        "//go:go",
        "//go:go111",
    ],
)
"#;

    let result = sort_deps_in_text(input);
    assert_eq!(result, expected);
}

#[test]
fn test_sort_deps_remove_duplicates() {
    let input = r#"
cc_binary(
    name = "my_binary",
    deps = [
        "//third_party:lib3",
        "//base:lib1",
        "//core:lib2",
        "//base:lib1",  # duplicate should be removed
    ],
)
"#;

    let expected = r#"
cc_binary(
    name = "my_binary",
    deps = [
        "//base:lib1",
        "//core:lib2",
        "//third_party:lib3",
    ],
)
"#;

    let result = sort_deps_in_text(input);
    assert_eq!(result, expected);
}

#[test]
fn test_sort_deps_remove_duplicates_multiple_targets() {
    let input = r#"
cc_binary(
    name = "binary1",
    deps = [
        "//third_party:lib3",
        "//base:lib1",
        "//base:lib1",  # duplicate
    ],
)

cc_binary(
    name = "binary2",
    deps = [
        "//core:lib2",
        "//base:lib1",
        "//base:lib1",  # duplicate
    ],
)
"#;

    let expected = r#"
cc_binary(
    name = "binary1",
    deps = [
        "//base:lib1",
        "//third_party:lib3",
    ],
)

cc_binary(
    name = "binary2",
    deps = [
        "//base:lib1",
        "//core:lib2",
    ],
)
"#;

    let result = sort_deps_in_text(input);
    assert_eq!(result, expected);
}

#[test]
fn test_sort_deps_dedup_and_sort_order() {
    // ["//c:x", "//a:x", "//a:x"] comes out as exactly ["//a:x", "//c:x"]
    let input = r#"
cc_library(
    name = "lib",
    deps = [
        "//c:x",
        "//a:x",
        "//a:x",
    ],
)
"#;
    let expected = r#"
cc_library(
    name = "lib",
    deps = [
        "//a:x",
        "//c:x",
    ],
)
"#;
    assert_eq!(sort_deps_in_text(input), expected);
}

#[test]
fn test_sort_deps_keeps_comment_of_first_occurrence() {
    // a duplicate goes away; the surviving first occurrence keeps its comment
    let input = r#"
cc_library(
    name = "lib",
    deps = [
        "//b:y",
        "//a:x",  # pinned
        "//a:x",
    ],
)
"#;
    let expected = r#"
cc_library(
    name = "lib",
    deps = [
        "//a:x",  # pinned
        "//b:y",
    ],
)
"#;
    assert_eq!(sort_deps_in_text(input), expected);
}

#[test]
fn test_sort_deps_idempotent() {
    let inputs = [
        "\ncc_binary(\n    name = \"my_binary\",\n    deps = [\n        \"//b:x\",\n        \"//a:y\",  # note\n        \"//a:y\",\n    ],\n)\n",
        "\ncc_binary(\n    name = \"m\",\n    deps = [],\n)\n",
        "deps = [\"//z:z\", \"//a:a\"]",
        "# deps = [\"//not:me\"]\nx = \"deps = [1]\"\n",
    ];
    for input in inputs {
        let once = sort_deps_in_text(input);
        let twice = sort_deps_in_text(&once);
        assert_eq!(once, twice);
    }
}

#[test]
fn test_sort_deps_skips_strings_and_comments() {
    // `deps` inside a string or comment is not an attribute
    let input = "# deps = [\"//b:b\", \"//a:a\"]\nname = \"deps = [\"\n";
    assert_eq!(sort_deps_in_text(input), input);
}
