use alternator::comments::Comments;
use alternator::preprocess::preprocess;

fn find(src: &str, line: usize) -> Option<String> {
    let p = preprocess(src);
    let c = Comments::new(&p.items);
    c.find(line).map(|r| src[r.start..r.end].to_string())
}

#[test]
fn front_comment() {
    let src = "/**\n * Doc\n */\nnative void A();\n";
    assert_eq!(find(src, 4).unwrap(), "/**\n * Doc\n */");
}

#[test]
fn blank_line_breaks_association() {
    let src = "/** Doc */\n\nnative void A();\n";
    assert_eq!(find(src, 3), None);
}

#[test]
fn tail_comment() {
    let src = "enum X {\n  A, // first\n  B /**< second */\n};\n";
    assert_eq!(find(src, 2).unwrap(), "// first");
    assert_eq!(find(src, 3).unwrap(), "/**< second */");
}

#[test]
fn defines_use_tail_comments() {
    let src = "/** @section Flags */\n#define A 1 /**< Tail */\n// Label\n#define B 2\n";
    assert_eq!(find(src, 2).unwrap(), "/**< Tail */");
    assert_eq!(find(src, 4), None);
}

#[test]
fn multi_line_trailing_comment_documents_next_line() {
    let src = "enum X {\n  A, /**< one\n        two */\n  B\n};\n";
    assert_eq!(find(src, 2), None);
    assert!(find(src, 4).unwrap().starts_with("/**< one"));
}

#[test]
fn consecutive_line_comments() {
    let src = "// a\n// b\nnative void A();\n";
    assert_eq!(find(src, 3).unwrap(), "// a\n// b");
}

#[test]
fn line_zero_has_no_comment() {
    assert_eq!(find("// a\nint x;\n", 0), None);
}

#[test]
fn comment_before_token_on_same_line_is_no_front_comment() {
    let src = "/* a */ int x;\nint y;\n";
    assert_eq!(find(src, 2), None);
    assert_eq!(find(src, 1), None);
}

#[test]
fn tail_block_extends_over_adjacent_comments() {
    let src = "int x; // a\n// b\n\n// c\nint y;\n";
    assert_eq!(find(src, 1).unwrap(), "// a\n// b");
    assert_eq!(find(src, 5).unwrap(), "// c");
}
