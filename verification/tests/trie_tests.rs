use bazel_lsp::target_trie::{RuleInfo, TargetTrie};

#[test]
fn test_trie_insert_and_search() {
    let mut trie = TargetTrie::new();
    let rule = RuleInfo {
        name: "test_rule".to_string(),
        full_build_path: "//a/b:c".to_string(),
    };
    trie.insert_target("//a/b:c", rule);

    let results = trie.starts_with("//a/b:c");
    assert_eq!(results.len(), 1);
    assert_eq!(results[0][0].name, "test_rule");
}

#[test]
fn test_trie_starts_with() {
    let mut trie = TargetTrie::new();
    let rule1 = RuleInfo {
        name: "rule1".to_string(),
        full_build_path: "//a/b:c".to_string(),
    };
    let rule2 = RuleInfo {
        name: "rule2".to_string(),
        full_build_path: "//a/b:d".to_string(),
    };
    let rule3 = RuleInfo {
        name: "rule3".to_string(),
        full_build_path: "//a/c:e".to_string(),
    };

    trie.insert_target("//a/b:c", rule1);
    trie.insert_target("//a/b:d", rule2);
    trie.insert_target("//a/c:e", rule3);

    let results = trie.starts_with("//a/b");
    assert_eq!(results.len(), 2);

    let results = trie.starts_with("//a");
    assert_eq!(results.len(), 3);

    let results = trie.starts_with("//b");
    assert_eq!(results.len(), 0);
}

#[test]
fn test_trie_with_package_path() {
    let mut trie = TargetTrie::new();
    let rule = RuleInfo {
        name: "main".to_string(),
        full_build_path: "//src:main".to_string(),
    };
    trie.insert_target("//src:main", rule);

    let results = trie.starts_with("//src");
    assert_eq!(results.len(), 1);
    assert_eq!(results[0][0].name, "main");
}

#[test]
fn test_trie_round_trip_same_split() {
    // searching with the inserted path itself finds the rule's bucket
    let mut trie = TargetTrie::new();
    trie.insert_target(
        "pkg/sub:target",
        RuleInfo {
            name: "target".to_string(),
            full_build_path: "//pkg/sub:target".to_string(),
        },
    );
    let results = trie.starts_with("pkg/sub:target");
    assert_eq!(results.len(), 1);
    assert_eq!(results[0].len(), 1);
    assert_eq!(results[0][0].full_build_path, "//pkg/sub:target");
}

#[test]
fn test_trie_empty_prefix_lists_every_insertion() {
    // the empty prefix returns every rule exactly once per insertion,
    // duplicates included
    let mut trie = TargetTrie::new();
    trie.insert_target(
        "a:x",
        RuleInfo {
            name: "x".to_string(),
            full_build_path: "//a:x".to_string(),
        },
    );
    trie.insert_target(
        "a:x",
        RuleInfo {
            name: "x".to_string(),
            full_build_path: "//a:x".to_string(),
        },
    );
    trie.insert_target(
        "b:y",
        RuleInfo {
            name: "y".to_string(),
            full_build_path: "//b:y".to_string(),
        },
    );
    let results = trie.starts_with("");
    let total: usize = results.iter().map(|g| g.len()).sum();
    assert_eq!(total, 3);
    assert_eq!(results.len(), 2);
    let mut sizes: Vec<usize> = results.iter().map(|g| g.len()).collect();
    sizes.sort();
    assert_eq!(sizes, vec![1, 2]);
}

#[test]
fn test_trie_prefix_monotonic() {
    // shortening the prefix can only grow the result
    let mut trie = TargetTrie::new();
    for (path, name, full) in [
        ("a/b:one", "one", "//a/b:one"),
        ("a/b:two", "two", "//a/b:two"),
        ("a/c:three", "three", "//a/c:three"),
    ] {
        trie.insert_target(
            path,
            RuleInfo {
                name: name.to_string(),
                full_build_path: full.to_string(),
            },
        );
    }
    let longer = trie.starts_with("a/b:one");
    let shorter = trie.starts_with("a/b");
    let shortest = trie.starts_with("a");
    assert_eq!(longer.len(), 1);
    assert_eq!(shorter.len(), 2);
    assert_eq!(shortest.len(), 3);
    for g in &longer {
        assert!(shorter.iter().any(|h| {
            h.len() == g.len() && h.iter().zip(g.iter()).all(|(x, y)| x.name == y.name)
        }));
    }
}

#[test]
fn test_trie_second_colon_dropped() {
    // a path with two colons is keyed by the text before the second colon
    let mut trie = TargetTrie::new();
    trie.insert_target(
        "a:b:c",
        RuleInfo {
            name: "b".to_string(),
            full_build_path: "//a:b".to_string(),
        },
    );
    let results = trie.starts_with("a:b");
    assert_eq!(results.len(), 1);
    assert_eq!(results[0][0].name, "b");
    assert_eq!(trie.starts_with("a:b:c").len(), 1);
}
