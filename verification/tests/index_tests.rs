use bazel_lsp::index::{full_label, index_build_file, make_rule, relative_package_path};
use bazel_lsp::target_trie::TargetTrie;

#[test]
fn test_full_label_with_package() {
    assert_eq!(full_label("src/main", "app"), "//src/main:app");
}

#[test]
fn test_full_label_root_package() {
    assert_eq!(full_label("", "app"), "//:app");
}

#[test]
fn test_make_rule_fields() {
    let rule = make_rule("pkg", "tool");
    assert_eq!(rule.name, "tool");
    assert_eq!(rule.full_build_path, "//pkg:tool");
}

#[test]
fn test_index_build_file_root_package() {
    // a root-package target is keyed by its bare name
    let mut trie = TargetTrie::new();
    index_build_file(&mut trie, "", &vec!["tool".to_string()]);
    let results = trie.starts_with("tool");
    assert_eq!(results.len(), 1);
    assert_eq!(results[0][0].full_build_path, "//:tool");
}

#[test]
fn test_index_build_file_package_path() {
    let mut trie = TargetTrie::new();
    index_build_file(&mut trie, "src/main", &vec!["app".to_string()]);
    let results = trie.starts_with("src/main:app");
    assert_eq!(results.len(), 1);
    assert_eq!(results[0][0].name, "app");
    assert_eq!(results[0][0].full_build_path, "//src/main:app");
}

#[test]
fn test_relative_package_path_cases() {
    assert_eq!(
        relative_package_path("/ws", "/ws/src/main"),
        Some("src/main".to_string())
    );
    assert_eq!(relative_package_path("/ws", "/ws"), Some("".to_string()));
    assert_eq!(relative_package_path("/ws", "/wsx/src"), None);
    assert_eq!(relative_package_path("/ws", "/other"), None);
}
