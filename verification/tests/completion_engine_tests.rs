use bazel_lsp::completion::{
    completion_in_file, completion_in_workspace, find_trigger_position, TriggerResult, TriggerType,
};
use bazel_lsp::index::index_build_file;
use bazel_lsp::target_trie::TargetTrie;

#[test]
fn test_completion_colon_trigger_same_package() {
    // two targets in package `a`; completion after typing `"a:` offers both,
    // and nothing else
    let mut trie = TargetTrie::new();
    index_build_file(
        &mut trie,
        "a",
        &vec!["inside_a".to_string(), "inside_b".to_string()],
    );
    index_build_file(&mut trie, "other", &vec!["elsewhere".to_string()]);

    let trigger = Some(TriggerResult {
        trigger_type: TriggerType::Colon,
        trigger_pos: 1,
        text_after_trigger: "a:",
    });
    let items = completion_in_workspace(&trie, &trigger);
    let mut labels: Vec<String> = items.iter().map(|c| c.label.clone()).collect();
    labels.sort();
    assert_eq!(labels, vec!["//a:inside_a", "//a:inside_b"]);
}

#[test]
fn test_completion_double_slash_returns_all() {
    // `//` with nothing typed matches every indexed target
    let mut trie = TargetTrie::new();
    index_build_file(&mut trie, "a/b", &vec!["target1".to_string()]);
    index_build_file(&mut trie, "a/c", &vec!["target2".to_string()]);

    let trigger = Some(TriggerResult {
        trigger_type: TriggerType::DoubleSlash,
        trigger_pos: 1,
        text_after_trigger: "",
    });
    let items = completion_in_workspace(&trie, &trigger);
    let mut labels: Vec<String> = items.iter().map(|c| c.label.clone()).collect();
    labels.sort();
    assert_eq!(labels, vec!["//a/b:target1", "//a/c:target2"]);
}

#[test]
fn test_completion_partial_package_path() {
    // a partial package path narrows the result to its own package
    let mut trie = TargetTrie::new();
    index_build_file(
        &mut trie,
        "a/b",
        &vec!["target1".to_string(), "target2".to_string()],
    );
    index_build_file(&mut trie, "a/c", &vec!["other".to_string()]);

    let trigger = Some(TriggerResult {
        trigger_type: TriggerType::DoubleSlash,
        trigger_pos: 1,
        text_after_trigger: "a/b",
    });
    let items = completion_in_workspace(&trie, &trigger);
    let mut labels: Vec<String> = items.iter().map(|c| c.label.clone()).collect();
    labels.sort();
    assert_eq!(labels, vec!["//a/b:target1", "//a/b:target2"]);
}

#[test]
fn test_completion_edit_text_per_trigger() {
    let mut trie = TargetTrie::new();
    index_build_file(&mut trie, "pkg", &vec!["tool".to_string()]);

    let colon = Some(TriggerResult {
        trigger_type: TriggerType::Colon,
        trigger_pos: 1,
        text_after_trigger: ":",
    });
    let items = completion_in_workspace(&trie, &colon);
    assert_eq!(items.len(), 1);
    assert_eq!(items[0].new_text, ":tool");
    assert_eq!(items[0].detail, "Target: //pkg:tool");
    assert_eq!(items[0].documentation, "Bazel target: //pkg:tool");

    let slashes = Some(TriggerResult {
        trigger_type: TriggerType::DoubleSlash,
        trigger_pos: 1,
        text_after_trigger: "//p",
    });
    let items = completion_in_workspace(&trie, &slashes);
    assert_eq!(items.len(), 1);
    assert_eq!(items[0].new_text, "//pkg:tool");
}

#[test]
fn test_completion_no_trigger_is_empty() {
    let mut trie = TargetTrie::new();
    index_build_file(&mut trie, "pkg", &vec!["tool".to_string()]);
    let items = completion_in_workspace(&trie, &None);
    assert_eq!(items.len(), 0);
}

#[test]
fn test_completion_in_file_filters_by_prefix() {
    let names = vec![
        "server".to_string(),
        "server_test".to_string(),
        "client".to_string(),
    ];
    let trigger = Some(TriggerResult {
        trigger_type: TriggerType::Colon,
        trigger_pos: 1,
        text_after_trigger: "ser",
    });
    let items = completion_in_file(&trigger, &names).unwrap();
    let labels: Vec<String> = items.iter().map(|c| c.label.clone()).collect();
    assert_eq!(labels, vec!["server", "server_test"]);
    assert_eq!(items[0].new_text, "server");
    assert_eq!(items[0].detail, "Target: server");
}

#[test]
fn test_completion_in_file_rejects_double_slash() {
    let names = vec!["server".to_string()];
    let trigger = Some(TriggerResult {
        trigger_type: TriggerType::DoubleSlash,
        trigger_pos: 1,
        text_after_trigger: "",
    });
    assert!(completion_in_file(&trigger, &names).is_none());
}

#[test]
fn test_trigger_feeds_workspace_completion() {
    // the full path: line text -> trigger -> trie query
    let mut trie = TargetTrie::new();
    index_build_file(&mut trie, "a/b", &vec!["target1".to_string()]);

    let line = "    deps = [\"//a/b";
    let trigger = find_trigger_position(line);
    assert!(trigger.is_some());
    let items = completion_in_workspace(&trie, &trigger);
    assert_eq!(items.len(), 1);
    assert_eq!(items[0].label, "//a/b:target1");
}
