use bazel_lsp::completion::{
    create_edit_text_in_workspace, find_trigger_position, TriggerResult, TriggerType,
};
use bazel_lsp::target_trie::RuleInfo;

#[test]
fn test_double_slash_after_quote() {
    assert_eq!(
        find_trigger_position("\"//"),
        Some(TriggerResult {
            trigger_type: TriggerType::DoubleSlash,
            trigger_pos: 1,
            text_after_trigger: ""
        })
    );
}

#[test]
fn test_colon_after_quote() {
    assert_eq!(
        find_trigger_position("\":"),
        Some(TriggerResult {
            trigger_type: TriggerType::Colon,
            trigger_pos: 1,
            text_after_trigger: ""
        })
    );
}

#[test]
fn test_double_slash_with_text_after_quote() {
    assert_eq!(find_trigger_position("\"foo//"), None);
}

#[test]
fn test_colon_with_text_after_quote() {
    assert_eq!(find_trigger_position("\"foo:"), None);
}

#[test]
fn test_colon_without_quote() {
    assert_eq!(find_trigger_position("foo:"), None);
}

#[test]
fn test_empty() {
    assert_eq!(find_trigger_position(""), None);
}

#[test]
fn test_quote_only() {
    assert_eq!(find_trigger_position("\""), None);
}

#[test]
fn test_double_slash_with_text_after_trigger() {
    assert_eq!(
        find_trigger_position("\"//somedep"),
        Some(TriggerResult {
            trigger_type: TriggerType::DoubleSlash,
            trigger_pos: 1,
            text_after_trigger: "somedep"
        })
    );
}

#[test]
fn test_colon_with_text_after_trigger() {
    assert_eq!(
        find_trigger_position("\":somedep"),
        Some(TriggerResult {
            trigger_type: TriggerType::Colon,
            trigger_pos: 1,
            text_after_trigger: "somedep"
        })
    );
}

#[test]
fn test_create_edit_text_in_workspace_double_slash() {
    let trigger_result = Some(TriggerResult {
        trigger_type: TriggerType::DoubleSlash,
        trigger_pos: 1,
        text_after_trigger: "//path/to/target",
    });
    let rule = RuleInfo {
        name: "target".to_string(),
        full_build_path: "//path/to/target".to_string(),
    };
    assert_eq!(
        create_edit_text_in_workspace(&trigger_result, &rule),
        "//path/to/target"
    );
}

#[test]
fn test_create_edit_text_in_workspace_colon() {
    let trigger_result = Some(TriggerResult {
        trigger_type: TriggerType::Colon,
        trigger_pos: 1,
        text_after_trigger: ":target",
    });
    let rule = RuleInfo {
        name: "target".to_string(),
        full_build_path: "//path/to/target".to_string(),
    };
    assert_eq!(
        create_edit_text_in_workspace(&trigger_result, &rule),
        ":target"
    );
}

#[test]
fn test_create_edit_text_in_workspace_no_trigger() {
    let trigger_result = None;
    let rule = RuleInfo {
        name: "target".to_string(),
        full_build_path: "//path/to/target".to_string(),
    };
    assert_eq!(
        create_edit_text_in_workspace(&trigger_result, &rule),
        "//path/to/target"
    );
}

#[test]
fn test_create_edit_text_in_workspace_multiple_slashes() {
    let trigger_result = Some(TriggerResult {
        trigger_type: TriggerType::DoubleSlash,
        trigger_pos: 1,
        text_after_trigger: "////path/to/target",
    });
    let rule = RuleInfo {
        name: "target".to_string(),
        full_build_path: "//path/to/target".to_string(),
    };
    assert_eq!(
        create_edit_text_in_workspace(&trigger_result, &rule),
        "//path/to/target"
    );
}

#[test]
fn test_create_edit_text_in_workspace_partial_path() {
    let trigger_result = Some(TriggerResult {
        trigger_type: TriggerType::DoubleSlash,
        trigger_pos: 1,
        text_after_trigger: "//path/to",
    });
    let rule = RuleInfo {
        name: "target".to_string(),
        full_build_path: "//path/to/target".to_string(),
    };
    assert_eq!(
        create_edit_text_in_workspace(&trigger_result, &rule),
        "//path/to/target"
    );
}

#[test]
fn test_create_edit_text_in_workspace_path_contained() {
    let trigger_result = Some(TriggerResult {
        trigger_type: TriggerType::DoubleSlash,
        trigger_pos: 1,
        text_after_trigger: "//to/target",
    });
    let rule = RuleInfo {
        name: "target".to_string(),
        full_build_path: "//path/to/target".to_string(),
    };
    assert_eq!(
        create_edit_text_in_workspace(&trigger_result, &rule),
        "//path/to/target"
    );
}
