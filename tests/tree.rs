use logmap::lines::LineIndex;
use logmap::regex_matcher::RegexConfig;
use logmap::tree::{get_patterns, Cursor, PatternTree};

#[test]
fn child_rule_narrows_root_lines() {
    let content = b"INFO x\nERROR y\nINFO ERROR z";
    let index = LineIndex::build(content);
    let mut tree = PatternTree::new("", "root");
    let child = tree.add_child(0, "ERROR", "errors");
    tree.resolve(content, &index, &RegexConfig::default()).unwrap();
    assert_eq!(tree.cursors(0).len(), 3);
    assert_eq!(
        tree.cursors(child).clone(),
        vec![Cursor { line: 1, offset: 0 }, Cursor { line: 2, offset: 5 }]
    );
}

#[test]
fn grandchild_searches_from_parent_cursor() {
    let content = b"a b a\nb a\nb";
    let index = LineIndex::build(content);
    let mut tree = PatternTree::new("", "root");
    let b = tree.add_child(0, "b", "b");
    let a = tree.add_child(b, "a", "a after b");
    let x = tree.add_child(0, "x", "x");
    let under_x = tree.add_child(x, "a", "never");
    tree.resolve(content, &index, &RegexConfig::default()).unwrap();
    assert_eq!(
        tree.cursors(b).clone(),
        vec![
            Cursor { line: 0, offset: 2 },
            Cursor { line: 1, offset: 0 },
            Cursor { line: 2, offset: 0 }
        ]
    );
    assert_eq!(
        tree.cursors(a).clone(),
        vec![Cursor { line: 0, offset: 4 }, Cursor { line: 1, offset: 2 }]
    );
    assert!(tree.cursors(x).is_empty());
    assert!(tree.cursors(under_x).is_empty());
    assert_eq!(tree.parent(a), b);
    assert_eq!(tree.label(a), "a after b");
    assert_eq!(tree.pattern(a), "a");
}

#[test]
fn malformed_pattern_aborts_resolution() {
    let content = b"abc";
    let index = LineIndex::build(content);
    let mut tree = PatternTree::new("", "root");
    tree.add_child(0, "a", "fine");
    tree.add_child(1, "(", "broken");
    let e = tree.resolve(content, &index, &RegexConfig::default()).err().unwrap();
    assert_eq!(e.label, "broken");
    assert_eq!(e.error.pattern, "(");
    assert!(tree.cursors(0).is_empty());
}

#[test]
fn preset_rules() {
    let tree = get_patterns();
    assert_eq!(tree.node_count(), 2);
    assert_eq!(tree.label(0), "parent");
    assert_eq!(tree.pattern(0), "");
    assert_eq!(tree.pattern(1), "xxx");
    assert_eq!(tree.label(1), "xxx");
    assert_eq!(tree.parent(1), 0);
    assert!(tree.cursors(1).is_empty());
}

#[test]
fn failed_resolution_keeps_earlier_cursors() {
    let content = b"a\nb";
    let index = LineIndex::build(content);
    let mut tree = PatternTree::new("", "root");
    let a = tree.add_child(0, "a", "a");
    tree.resolve(content, &index, &RegexConfig::default()).unwrap();
    assert_eq!(tree.cursors(a).clone(), vec![Cursor { line: 0, offset: 0 }]);
    tree.add_child(a, "[", "broken");
    assert!(tree.resolve(content, &index, &RegexConfig::default()).is_err());
    assert_eq!(tree.cursors(0).len(), 2);
    assert_eq!(tree.cursors(a).clone(), vec![Cursor { line: 0, offset: 0 }]);
}
