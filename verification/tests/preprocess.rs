use alternator::preprocess::{preprocess, preprocess_checked, Item};

#[test]
fn masks_inactive_branches() {
    let src = "#if defined FOO\nnative A();\n#else\nnative B();\n#endif\n";
    let p = preprocess(src);
    assert!(!p.text.contains("A()"));
    assert!(p.text.contains("native B();"));
    assert_eq!(p.text.len(), src.len());
}

#[test]
fn tracks_defines() {
    let src = "#define FOO 1\n#if FOO\nnative A();\n#endif\n#undef FOO\n#if defined FOO\nnative B();\n#endif";
    let p = preprocess(src);
    assert!(p.text.contains("native A();"));
    assert!(!p.text.contains("native B();"));
    assert_eq!(p.macros.len(), 1);
    assert_eq!(p.macros[0].value, "1");
}

#[test]
fn define_values() {
    let p = preprocess("#define A   (1<<0) /* doc */\n#define B\n#define C(%1) %1+1\n");
    assert_eq!(p.macros[0].value, "(1<<0)");
    assert_eq!(p.macros[1].value, "");
    assert!(p.macros[2].function_like);
    assert_eq!(p.macros[2].value, "%1+1");
}

#[test]
fn blanks_function_bodies() {
    let src = "stock int Foo(int a)\n{\n    switch (a) { case 1: return 2; }\n}\nenum E (<<= 1) { A = 1, B }\n";
    let p = preprocess(src);
    assert!(p.text.contains("stock int Foo(int a)\n{\n"));
    assert!(!p.text.contains("switch"));
    assert!(p.text.contains("A = 1, B"));
}

#[test]
fn endinput_stops() {
    let p = preprocess("native A();\n#endinput\nnative B();");
    assert!(!p.text.contains("B"));
}

#[test]
fn offsets_and_line_breaks_are_kept() {
    let src = "#if 0\r\nnative A();\r\n#endif\r\nint x; // c\n";
    let p = preprocess(src);
    assert_eq!(p.text.len(), src.len());
    for (a, b) in src.bytes().zip(p.text.bytes()) {
        assert!(a == b || (b == b' ' && a != b'\n' && a != b'\r'));
        if a == b'\n' || a == b'\r' {
            assert_eq!(a, b);
        }
    }
    assert!(p.text.contains("int x; // c"));
    assert!(!p.text.contains("native"));
}

#[test]
fn elseif_takes_first_true_branch() {
    let src = "#define V 3\n#if V == 1\nint a;\n#elseif V == 3\nint b;\n#elif V > 0\nint c;\n#else\nint d;\n#endif\n";
    let p = preprocess(src);
    assert!(p.text.contains("int b;"));
    assert!(!p.text.contains("int a;"));
    assert!(!p.text.contains("int c;"));
    assert!(!p.text.contains("int d;"));
}

#[test]
fn nested_inactive_regions() {
    let src = "#if 0\n#if 1\nint a;\n#endif\nint b;\n#else\nint c;\n#endif\n";
    let p = preprocess(src);
    assert!(!p.text.contains("int a;"));
    assert!(!p.text.contains("int b;"));
    assert!(p.text.contains("int c;"));
}

#[test]
fn predefined_macros_are_known() {
    let src = "#if __sourcepawn__ == 2 && defined __sourcepawn2__\nint a;\n#endif\n";
    let p = preprocess(src);
    assert!(p.text.contains("int a;"));
}

#[test]
fn redefinition_ends_the_old_macro() {
    let p = preprocess("#define A 1\n#define A 2\n");
    assert_eq!(p.macros.len(), 2);
    assert_eq!(p.macros[0].undefined_at, Some(12));
    assert_eq!(p.macros[1].defined_at, 12);
    assert_eq!(p.macros[1].undefined_at, None);
    assert_eq!(p.macros[1].offset, 22);
}

#[test]
fn define_clean_value_drops_comments_and_continuations() {
    let p = preprocess("#define A 1 + \\\n 2 /* x */\n");
    assert_eq!(p.macros[0].name, "A");
    assert_eq!(p.macros[0].clean_value, "1 +   2");
}

#[test]
fn comments_and_tokens_are_recorded() {
    let p = preprocess("int a; // x\n/* y\n z */\n#define B\n");
    assert_eq!(p.items.len(), 4);
    assert!(matches!(p.items[0], Item::Token { line: 1, directive: false }));
    match p.items[1] {
        Item::Comment(c) => {
            assert_eq!((c.start, c.end, c.start_line, c.end_line), (7, 11, 1, 1));
        }
        _ => panic!("expected a comment"),
    }
    match p.items[2] {
        Item::Comment(c) => {
            assert_eq!((c.start_line, c.end_line), (2, 3));
        }
        _ => panic!("expected a comment"),
    }
    assert!(matches!(p.items[3], Item::Token { line: 4, directive: true }));
}

#[test]
fn literal_running_past_the_end_of_a_directive_fails() {
    assert!(preprocess_checked("#define A \"x\\").is_none());
    assert!(preprocess_checked("#define A \"x\\\n").is_some());
}
