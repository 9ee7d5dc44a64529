use alternator::generator::{process_include_file, process_section};
use alternator::mono::{
    Constant, Enumeration, Entry, Function, IncludeFile, MethodMap, Type, TypeDefinition, TypeSet,
};
use alternator::schema::{Declaration, DocComment, DocLocation, Documentation};

const RAW: &str = "#pragma semicolon 1\n/**\n * Closes a Handle.\n *\n * @param hndl  Handle to close.\n */\nnative void CloseHandle(Handle hndl);\n";

fn located(start: i64, end: i64) -> Documentation {
    Documentation {
        ref_line: 6,
        doc_start: DocLocation(start),
        doc_end: DocLocation(end),
        docs: None,
        metadata: None,
    }
}

fn comment_start() -> i64 {
    RAW.find("/**").unwrap() as i64
}

fn comment_end() -> i64 {
    RAW.find("*/").unwrap() as i64 + 2
}

fn declaration(name: &str, doc: Documentation) -> Declaration {
    Declaration { name: name.to_string(), documentation: doc }
}

#[test]
fn section_is_read_from_the_located_bytes() {
    let mut doc = located(0, comment_end());
    // A start of zero means the location is unset: nothing is read
    process_section(&mut doc, RAW);
    assert!(doc.docs.is_none());

    let mut doc = located(comment_start(), comment_end());
    process_section(&mut doc, RAW);
    let docs = doc.docs.unwrap();
    assert_eq!(docs.brief, "Closes a Handle.");
    assert_eq!(docs.tag("param:hndl").as_deref(), Some("Handle to close."));
    assert_eq!(doc.ref_line, 6);
}

#[test]
fn comments_already_read_are_kept() {
    let mut doc = located(comment_start(), comment_end());
    doc.docs = Some(DocComment { brief: "Kept.".to_string(), tags: Vec::new() });
    process_section(&mut doc, RAW);
    assert_eq!(doc.docs.unwrap().brief, "Kept.");
}

#[test]
fn include_file_symbols_get_their_comments_and_signatures() {
    let mut file = IncludeFile {
        functions: vec![Function {
            declaration: declaration("CloseHandle", located(comment_start(), comment_end())),
            kind: "native".to_string(),
            return_type: "void".to_string(),
            arguments: Vec::new(),
        }],
        methodmaps: vec![MethodMap {
            declaration: declaration("ArrayList", located(0, 0)),
            parent: Some("Handle".to_string()),
            methods: Vec::new(),
            properties: Vec::new(),
        }],
        enumstructs: Vec::new(),
        constants: vec![Constant { declaration: declaration("X", located(0, 0)) }],
        defines: Vec::new(),
        enums: vec![Enumeration {
            declaration: declaration("E", located(0, 0)),
            entries: vec![Entry { declaration: declaration("E_A", located(comment_start(), comment_end())), value: None }],
        }],
        typesets: vec![TypeSet {
            declaration: declaration("Cb", located(0, 0)),
            types: vec![Type {
                documentation: located(0, 0),
                ty: "function void (int a, int b)".to_string(),
                parsed_signature: None,
            }],
        }],
        typedefs: vec![TypeDefinition {
            declaration: declaration("Timer", located(0, 0)),
            ty: "function Action (Handle timer)".to_string(),
            parsed_signature: None,
        }],
    };
    process_include_file(&mut file, RAW);
    assert_eq!(file.functions[0].declaration.documentation.docs.as_ref().unwrap().brief, "Closes a Handle.");
    assert_eq!(file.enums[0].entries[0].declaration.documentation.docs.as_ref().unwrap().brief, "Closes a Handle.");
    assert!(file.methodmaps[0].declaration.documentation.docs.is_none());
    assert_eq!(file.methodmaps[0].parent.as_deref(), Some("Handle"));
    let sig = file.typedefs[0].parsed_signature.as_ref().unwrap();
    assert_eq!(sig.return_type, "Action ");
    assert_eq!(sig.arguments.len(), 0);
    let sig = file.typesets[0].types[0].parsed_signature.as_ref().unwrap();
    assert_eq!(sig.arguments.len(), 2);
    assert_eq!(sig.arguments[1].name, "b");
}
