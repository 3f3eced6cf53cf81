use bazel_lsp::text::is_in_deps_attribute;

#[test]
fn test_is_in_deps_attribute_inside_deps() {
    let source = r#"
    cc_library(
        name = "lib",
        deps = ["//path/to:target"]
    )
    "#;
    // Inside deps attribute
    assert!(is_in_deps_attribute(source, 3, 20));
}

#[test]
fn test_is_in_deps_attribute_inside_target_but_not_deps() {
    let source = r#"
    cc_library(
        name = "lib",
        deps = ["//path/to:target"]
    )
    "#;
    // Inside name attribute
    assert!(!is_in_deps_attribute(source, 2, 20));
}

#[test]
fn test_is_in_deps_attribute_outside_target() {
    let source = r#"
    cc_library(
        name = "lib",
        deps = ["//path/to:target"]
    )
    "#;
    // Outside any target
    assert!(!is_in_deps_attribute(source, 0, 0));
}

#[test]
fn test_is_in_deps_attribute_multiple_targets_first() {
    let source = r#"
    cc_library(
        name = "lib1",
        deps = ["//path/to:target1"]
    )
    cc_library(
        name = "lib2",
        deps = ["//path/to:target2"]
    )
    "#;
    // Inside first deps
    assert!(is_in_deps_attribute(source, 3, 20));
}

#[test]
fn test_is_in_deps_attribute_multiple_targets_second() {
    let source = r#"
    cc_library(
        name = "lib1",
        deps = ["//path/to:target1"]
    )
    cc_library(
        name = "lib2",
        deps = ["//path/to:target2"]
    )
    "#;
    // Inside second deps
    assert!(is_in_deps_attribute(source, 7, 20));
}

#[test]
fn test_is_in_deps_attribute_empty_list() {
    let source = r#"
    cc_library(
        name = "lib",
        deps = []
    )
    "#;
    // Past the end of the short deps line
    assert!(!is_in_deps_attribute(source, 3, 20));
}

#[test]
fn test_is_in_deps_attribute_multiple_items() {
    let source = r#"
    cc_library(
        name = "lib",
        deps = [
            "//path/to:target1",
            "//path/to:target2"
        ]
    )
    "#;
    // Inside deps list
    assert!(is_in_deps_attribute(source, 4, 20));
}
