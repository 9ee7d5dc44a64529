use alternator::schema::signature::parse_type_signature;
use alternator::mono;

#[test]
fn parses_function_signatures() {
    let sig = parse_type_signature("function Action(Handle timer, const char[] name)").unwrap();
    assert_eq!(sig.return_type, "Action");
    assert_eq!(sig.arguments.len(), 2);
    assert_eq!(sig.arguments[1].ty, "const char[]");
    assert_eq!(sig.arguments[1].name, "name");

    assert!(parse_type_signature("function void()").unwrap().arguments.is_empty());
}

#[test]
fn ignores_non_function_types() {
    assert_eq!(parse_type_signature("int64"), None);
    assert_eq!(parse_type_signature(""), None);
}

#[test]
fn signature_keeps_declarations_and_skips_single_words() {
    let sig = parse_type_signature("function int(int a, float b[3], any, const char[] s)").unwrap();
    assert_eq!(sig.return_type, "int");
    assert_eq!(sig.arguments.len(), 3);
    assert_eq!(sig.arguments[1].decl, "float b[3]");
    assert_eq!(sig.arguments[2].ty, "const char[]");
    assert_eq!(sig.arguments[2].name, "s");
    assert_eq!(sig.arguments[2].default, None);
}

#[test]
fn unbalanced_parentheses_are_rejected() {
    assert_eq!(parse_type_signature("function int)("), None);
    assert_eq!(parse_type_signature("function int("), None);
}

#[test]
fn legacy_parser_reads_arguments_after_a_comma() {
    let sig = mono::parse_type_signature("function Action(Handle timer, const char[] name)");
    assert_eq!(sig.return_type, "Action");
    assert_eq!(sig.arguments.len(), 2);
    assert_eq!(sig.arguments[0].ty, "Handle");
    assert_eq!(sig.arguments[1].ty, "const char[]");
    assert_eq!(sig.arguments[1].decl, "const char[] name");
    let single = mono::parse_type_signature("function void(int client)");
    assert!(single.arguments.is_empty());
}

#[test]
fn symbol_types_display_names() {
    assert_eq!(alternator::schema::SymbolType::Enum.to_string(), "enumeration");
    assert_eq!(alternator::schema::SymbolType::TypeDefinition.to_string(), "typedef");
    assert_eq!(mono::SymbolType::MethodMap.to_string(), "methodmap");
}
