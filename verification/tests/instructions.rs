use fff_plus::instructions::{build_instructions, ExposedTool};

#[test]
fn default_all_tools_mentions_all_three() {
    let s = build_instructions(&ExposedTool::all());
    assert!(s.contains("**find_files**"));
    assert!(s.contains("**grep**"));
    assert!(s.contains("**multi_grep**"));
    assert!(s.contains("### 4. Use multi_grep"));
}

#[test]
fn only_find_files_drops_grep_and_multi_grep_sections() {
    let s = build_instructions(&[ExposedTool::FindFiles]);
    assert!(s.contains("**find_files**"));
    assert!(!s.contains("**grep**"));
    assert!(!s.contains("**multi_grep**"));
    assert!(!s.contains("Constraint Syntax"));
    assert!(!s.contains("Core Rules"));
}

#[test]
fn grep_without_multi_grep_drops_multi_grep_rule() {
    let s = build_instructions(&[ExposedTool::Grep]);
    assert!(s.contains("**grep**"));
    assert!(!s.contains("**multi_grep**"));
    assert!(!s.contains("### 4. Use multi_grep"));
    assert!(!s.contains("use multi_grep with literal patterns"));
    assert!(s.contains("Constraint Syntax"));
}

#[test]
fn multi_grep_only_keeps_multi_grep_rules() {
    let s = build_instructions(&[ExposedTool::MultiGrep]);
    assert!(!s.contains("**grep**:"));
    assert!(s.contains("**multi_grep**"));
    assert!(s.contains("### 4. Use multi_grep"));
}

#[test]
fn tool_names_are_the_exposed_names() {
    assert_eq!(ExposedTool::FindFiles.tool_name(), "find_files");
    assert_eq!(ExposedTool::Grep.tool_name(), "grep");
    assert_eq!(ExposedTool::MultiGrep.tool_name(), "multi_grep");
}

#[test]
fn duplicate_tools_give_the_same_text() {
    let once = build_instructions(&[ExposedTool::Grep]);
    let twice = build_instructions(&[ExposedTool::Grep, ExposedTool::Grep]);
    assert_eq!(once, twice);
}
