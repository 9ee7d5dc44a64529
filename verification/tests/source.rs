use alternator::source::{find_fatal_error, has_declaration_keyword};
use alternator::syntax::{SyntaxNode, SyntaxTree};
use alternator::AlternatorError;

fn chars(s: &str) -> Vec<char> {
    s.chars().collect()
}

fn node(kind: &str, start: usize, end: usize, row: usize, parent: Option<usize>, is_error: bool, has_error: bool) -> SyntaxNode {
    SyntaxNode {
        kind: kind.to_string(),
        named: true,
        field: None,
        start_byte: start,
        end_byte: end,
        row,
        column: 0,
        is_error,
        is_missing: false,
        has_error,
        parent,
    }
}

#[test]
fn declaration_keywords_are_whole_words() {
    assert!(has_declaration_keyword(&chars("native void Foo(int a b c);")));
    assert!(has_declaration_keyword(&chars("x+enum")));
    assert!(has_declaration_keyword(&chars("property")));
    assert!(!has_declaration_keyword(&chars("enum_thing natives")));
    assert!(!has_declaration_keyword(&chars("new String:g_Name[] = \"x\";")));
    assert!(!has_declaration_keyword(&chars("")));
}

#[test]
fn fatal_errors_are_found_last_child_first() {
    let text = "int a;\nnative void Foo(int a b c);\n";
    let start = text.find("native").unwrap();
    let tree = SyntaxTree {
        nodes: vec![
            node("source_file", 0, text.len(), 0, None, false, true),
            node("ERROR", start, text.len() - 1, 1, Some(0), true, true),
        ],
        children: vec![vec![1], vec![]],
    };
    match find_fatal_error(&tree, text, 0) {
        Some(AlternatorError::Syntax { line, column, snippet }) => {
            assert_eq!(line, 2);
            assert_eq!(column, 1);
            assert_eq!(snippet, "native void Foo(int a b c);");
        }
        _ => panic!("expected a syntax error"),
    }
}

#[test]
fn tolerated_errors_are_not_fatal() {
    let text = "new String:g_Name[] = \"x\";\n";
    // A top level error without a declaration keyword
    let tree = SyntaxTree {
        nodes: vec![
            node("source_file", 0, text.len(), 0, None, false, true),
            node("ERROR", 0, text.len() - 1, 0, Some(0), true, true),
        ],
        children: vec![vec![1], vec![]],
    };
    assert!(find_fatal_error(&tree, text, 0).is_none());

    // Any error inside a function body
    let text = "void f() { native x y z }";
    let tree = SyntaxTree {
        nodes: vec![
            node("source_file", 0, text.len(), 0, None, false, true),
            node("block", 9, text.len(), 0, Some(0), false, true),
            node("ERROR", 11, text.len() - 2, 0, Some(1), true, true),
        ],
        children: vec![vec![1], vec![2], vec![]],
    };
    assert!(find_fatal_error(&tree, text, 0).is_none());
}
