use alternator::preprocess::preprocess;
use alternator::schema::signature::parse_type_signature;

#[test]
fn redefinition_leaves_one_live_macro() {
    let p = preprocess("#define A 1\n#define A 2\n#undef B\n");
    let live: Vec<_> = p.macros.iter().filter(|m| m.name == "A" && m.undefined_at.is_none()).collect();
    assert_eq!(live.len(), 1);
    assert_eq!(live[0].value, "2");
    assert_eq!(p.macros.iter().filter(|m| m.name == "A").count(), 2);
}

#[test]
fn else_after_taken_branch_is_inactive() {
    let p = preprocess("#if 1\nint x;\n#else\nint y;\n#endif\nint z;\n");
    assert!(p.text.contains("int x;"));
    assert!(!p.text.contains("int y;"));
    assert!(p.text.contains("int z;"));
    assert_eq!(p.text.len(), "#if 1\nint x;\n#else\nint y;\n#endif\nint z;\n".len());
}

#[test]
fn signature_round_trip() {
    let t = parse_type_signature("function Action(int client, const char[] name)").unwrap();
    assert_eq!(t.return_type, "Action");
    let decls: Vec<String> = t.arguments.iter().map(|a| a.decl.clone()).collect();
    assert_eq!(decls, vec!["int client".to_string(), "const char[] name".to_string()]);
}

#[test]
fn signature_round_trip_without_arguments() {
    let t = parse_type_signature("function void()").unwrap();
    assert_eq!(t.return_type, "void");
    assert!(t.arguments.is_empty());
}

#[test]
fn define_value_keeps_trailing_multibyte_character() {
    let p = preprocess("#define X é\n");
    assert_eq!(p.macros.len(), 1);
    assert_eq!(p.macros[0].value, "é");
    assert_eq!(p.macros[0].offset, 10);
}

#[test]
fn blanking_keeps_multibyte_text_whole() {
    let src = "#if 0\nconst char é = 1;\n#endif\nint ü;\nvoid f() { é(); }\n";
    let p = preprocess(src);
    assert_eq!(p.text.len(), src.len());
    assert!(!p.text.contains('\u{FFFD}'));
    assert!(p.text.contains("int ü;"));
    assert!(!p.text.contains('é'));
    for (t, s) in p.text.bytes().zip(src.bytes()) {
        assert!(t == s || (t == b' ' && s != b'\n' && s != b'\r'));
    }
}

#[test]
fn endinput_blanks_the_rest() {
    let src = "int a;\n#endinput\nint b;\r\nfoo é\n";
    let p = preprocess(src);
    assert_eq!(p.text.len(), src.len());
    assert!(p.text.starts_with("int a;\n"));
    let stop = src.find("int b").unwrap();
    for (t, s) in p.text.bytes().zip(src.bytes()).skip(stop) {
        assert!(t == b' ' || (t == s && (s == b'\n' || s == b'\r')));
    }
}

#[test]
fn macros_follow_their_defines() {
    let p = preprocess("#define A 1\n#define B 2\n#undef A\n#define A 3\n");
    assert_eq!(p.macros.len(), 3);
    assert_eq!(p.macros[0].defined_at, 0);
    assert_eq!(p.macros[1].defined_at, 12);
    assert_eq!(p.macros[2].defined_at, 33);
    assert_eq!(p.macros[0].undefined_at, Some(24));
    assert_eq!(p.macros[1].undefined_at, None);
    assert_eq!(p.macros[2].undefined_at, None);
    for w in p.macros.windows(2) {
        assert!(w[0].defined_at < w[1].defined_at);
    }
}

#[test]
fn macro_table_over_a_whole_run() {
    let p = preprocess("#define A 1 /* one */\n#define B (2) // two\n#undef A\n#define A 3\n");
    assert_eq!(p.macros.len(), 3);
    assert_eq!(p.macros[0].clean_value, "1");
    assert_eq!(p.macros[1].clean_value, "(2)");
    for m in &p.macros {
        assert!(!m.name.is_empty());
        if let Some(u) = m.undefined_at {
            assert!(u > m.defined_at);
        }
    }
    let live: Vec<_> = p.macros.iter().filter(|m| m.name == "A" && m.undefined_at.is_none()).collect();
    assert_eq!(live.len(), 1);
    assert_eq!(live[0].value, "3");
}
