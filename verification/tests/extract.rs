//! Focused tests of symbol extraction on small snippets

use alternator::parse;

#[test]
fn natives_forwards_and_notes() {
    let s = parse(
        r#"
/**
 * Closes a Handle.
 *
 * @note Closing a Handle has a different meaning for each Handle type.
 *
 * @param hndl          Handle to close.
 * @error               Invalid handles will cause a run time error.
 */
native void CloseHandle(Handle hndl);

/**
 * Called when the map starts.
 *
 * @note
 *   Notes on their own line are kept.
 */
forward void OnMapStart();
"#,
    )
    .unwrap();

    let close = s.functions.get("CloseHandle").unwrap();
    assert_eq!(close.kind, "native");
    assert_eq!(close.return_type, "void");
    assert_eq!(close.declaration.documentation.ref_line, 10);
    let docs = close.declaration.documentation.docs.as_ref().unwrap();
    assert_eq!(docs.brief, "Closes a Handle.");
    assert_eq!(
        docs.tag("note").as_deref(),
        Some("Closing a Handle has a different meaning for each Handle type.")
    );
    assert_eq!(docs.tag("param:hndl").as_deref(), Some("Handle to close."));

    let start = s.functions.get("OnMapStart").unwrap();
    assert_eq!(start.kind, "forward");
    let docs = start.declaration.documentation.docs.as_ref().unwrap();
    assert_eq!(docs.tag("note").as_deref(), Some("Notes on their own line are kept."));
}

#[test]
fn arguments() {
    let s = parse(
        "native bool Foo(const char[] name, float vec[3], int &out, Handle &h, char buffer[MAX_LEN] = \"x\", int flags = (1<<2)|0x10, any ...);\n#define MAX_LEN 32\n",
    )
    .unwrap();

    let args: Vec<(&str, &str, Option<&str>)> = s
        .functions
        .get("Foo")
        .unwrap()
        .arguments
        .iter()
        .map(|a| (a.ty.as_str(), a.decl.as_str(), a.default.as_deref()))
        .collect();

    assert_eq!(
        args,
        vec![
            ("const char[]", "const char[] name", None),
            ("float[3]", "float vec[3]", None),
            ("int&", "int& out", None),
            ("Handle&", "Handle &h", None),
            ("char[MAX_LEN]", "char buffer[MAX_LEN]", Some("\"x\"")),
            ("int", "int flags", Some("1 << 2 | 16")),
            ("any...", "any...", None),
        ]
    );
}

#[test]
fn macros_expand_in_defaults() {
    let s = parse("#define FLAG_A (1<<0)\n#define FLAG_B 0x02\nnative void Foo(int flags = FLAG_A|FLAG_B);\n")
        .unwrap();
    assert_eq!(
        s.functions.get("Foo").unwrap().arguments[0].default.as_deref(),
        Some("1 << 0 | 2")
    );
    assert_eq!(s.defines.get("FLAG_A").unwrap().value, "(1<<0)");
}

#[test]
fn conditional_compilation() {
    let s = parse(
        r#"
#if defined _foo_included
 #endinput
#endif
#define _foo_included

#if !defined REQUIRE_PLUGIN
public void __pl_foo_SetNTVOptional()
{
    MarkNativeAsOptional("Foo");
}
#endif

#if defined SOMETHING_ELSE
native void Hidden();
#else
native void Shown();
#endif
"#,
    )
    .unwrap();

    assert!(s.functions.contains_key("__pl_foo_SetNTVOptional"));
    assert!(s.functions.contains_key("Shown"));
    assert!(!s.functions.contains_key("Hidden"));
    assert!(s.defines.contains_key("_foo_included"));
}

#[test]
fn methodmaps() {
    let s = parse(
        r#"
/** A list */
methodmap ArrayList < Handle {
    /** Creates a list */
    public native ArrayList(int blocksize=1);

    /** Clears it */
    public native void Clear();

    /** Length */
    property int Length {
        public native get();
    }

    property bool Flag {
        public get() { return true; }
        public set(bool value) { }
    }
};
"#,
    )
    .unwrap();

    let mm = s.methodmaps.get("ArrayList").unwrap();
    assert_eq!(mm.parent.as_deref(), Some("Handle"));
    assert_eq!(mm.methods.get("ArrayList").unwrap().return_type, "ArrayList");
    assert_eq!(mm.methods.get("ArrayList").unwrap().arguments[0].default.as_deref(), Some("1"));
    assert_eq!(mm.methods.get("Clear").unwrap().kind, "native");
    assert_eq!(
        mm.methods.get("Clear").unwrap().declaration.documentation.docs.as_ref().unwrap().brief,
        "Clears it"
    );
    assert!(mm.properties.get("Length").unwrap().getter);
    assert!(!mm.properties.get("Length").unwrap().setter);
    assert!(mm.properties.get("Flag").unwrap().getter && mm.properties.get("Flag").unwrap().setter);
    assert_eq!(mm.properties.get("Flag").unwrap().ty, "bool");
}

#[test]
fn enums_and_constants() {
    let s = parse(
        r#"
/** Actions */
enum Action
{
    Plugin_Continue = 0,   /**< Continue */
    Plugin_Changed = 1,    /**< Changed */
};

enum
{
    UNNAMED_A = (1<<1),
};

enum struct Point
{
    float x;
    char name[32];

    float Length() { return 0.0; }
}
"#,
    )
    .unwrap();

    let action = s.enums.get("Action").unwrap();
    assert_eq!(action.entries.get("Plugin_Changed").unwrap().value.as_deref(), Some("1"));
    assert_eq!(
        action.entries.get("Plugin_Changed").unwrap()
            .declaration
            .documentation
            .docs
            .as_ref()
            .unwrap()
            .brief,
        "Changed"
    );
    assert!(s.constants.contains_key("UNNAMED_A"));

    let point = s.enumstructs.get("Point").unwrap();
    assert_eq!(point.fields.get("name").unwrap().ty, "char[32]");
    assert_eq!(point.methods.get("Length").unwrap().return_type, "float");
}

#[test]
fn typedefs_and_typesets() {
    let s = parse(
        r#"
typedef Timer = function Action (Handle timer, any data);
typedef Address = int64;

typeset SQLCallback
{
    /** Query */
    function void (Database db, DBResultSet results, const char[] error, any data);
    function void (Database db, any data);
};
"#,
    )
    .unwrap();

    let timer = s.typedefs.get("Timer").unwrap();
    assert_eq!(timer.ty, "function Action(Handle timer, any data)");
    let sig = timer.parsed_signature.as_ref().unwrap();
    assert_eq!(sig.return_type, "Action");
    assert_eq!(sig.arguments.len(), 2);

    assert_eq!(s.typedefs.get("Address").unwrap().ty, "int64");
    assert!(s.typedefs.get("Address").unwrap().parsed_signature.is_none());

    let ts = s.typesets.get("SQLCallback").unwrap();
    assert_eq!(ts.types.len(), 2);
    let query = ts
        .types
        .get("function void(Database db, DBResultSet results, const char[] error, any data)")
        .unwrap();
    assert_eq!(query.documentation.docs.as_ref().unwrap().brief, "Query");
}

#[test]
fn legacy_syntax() {
    let s = parse(
        r#"
native GetClientName(client, String:name[], maxlen);
native Float:GetGameTime();
functag public Action:Timer(Handle:timer);
public OnPluginStart()
{
    new String:yam[] = "yams";
}
"#,
    )
    .unwrap();

    let f = s.functions.get("GetClientName").unwrap();
    assert_eq!(f.return_type, "int");
    assert_eq!(f.arguments[1].decl, "char[] name");
    assert_eq!(s.functions.get("GetGameTime").unwrap().return_type, "float");
    assert_eq!(s.functions.get("OnPluginStart").unwrap().return_type, "void");
    assert_eq!(s.typedefs.get("Timer").unwrap().ty, "function Action(Handle timer)");
}

#[test]
fn statement_syntax_does_not_leak_into_declarations() {
    // Multiple statements per case aren't supported by the grammar; function
    // bodies are skipped so this must not produce bogus symbols
    let s = parse(
        r#"
enum struct Buffer {
    int cursor;

    void Write(int data) {
        switch (data) {
            case 0:
                this.cursor++;
                this.cursor++;
        }
    }

    int Read() { return 0; }
}
"#,
    )
    .unwrap();

    assert!(s.functions.is_empty());
    assert_eq!(s.enumstructs.get("Buffer").unwrap().methods.len(), 2);
}

#[test]
fn broken_declarations_fail() {
    assert!(parse("native void Foo(int a b c);\nnative void Bar();\n").is_err());
    assert!(parse("methodmap X {\n    public native void A(int a b);\n}\n").is_err());
}

#[test]
fn recoverable_errors_are_tolerated() {
    // Untyped legacy rest parameter, and a legacy global outside any declaration
    let s = parse("native Foo(a, ...);\nnew String:g_Name[] = \"x\";\n").unwrap();
    assert_eq!(s.functions.get("Foo").unwrap().arguments[1].ty, "int...");
}

#[test]
fn symbols_are_stored_under_their_names() {
    let s = parse(
        r#"
enum Action { Plugin_Continue, Plugin_Changed };
enum { UNNAMED_A = 1 };
methodmap ArrayList < Handle {
    public native ArrayList(int size);
    public native void Clear();
    property int Length { public native get(); }
};
enum struct Point { float x; int Length() { return 1; } };
typedef Timer = function Action (Handle timer);
typeset Cb { function void (int a); function void (); };
#define MAXP 64
native void F();
"#,
    )
    .unwrap();

    for (k, f) in s.functions.entries() {
        assert_eq!(k, &f.declaration.name);
    }
    for (k, m) in s.methodmaps.entries() {
        assert_eq!(k, &m.declaration.name);
        for (mk, f) in m.methods.entries() {
            assert_eq!(mk, &f.declaration.name);
        }
        for (pk, p) in m.properties.entries() {
            assert_eq!(pk, &p.declaration.name);
        }
    }
    for (k, e) in s.enums.entries() {
        assert_eq!(k, &e.declaration.name);
        for (ek, x) in e.entries.entries() {
            assert_eq!(ek, &x.declaration.name);
        }
    }
    for (k, c) in s.constants.entries() {
        assert_eq!(k, &c.declaration.name);
    }
    for (k, e) in s.enumstructs.entries() {
        assert_eq!(k, &e.declaration.name);
    }
    for (k, t) in s.typesets.entries() {
        assert_eq!(k, &t.declaration.name);
        for (tk, ty) in t.types.entries() {
            assert_eq!(tk, &ty.ty);
        }
    }
    for (k, d) in s.defines.entries() {
        assert_eq!(k, &d.declaration.name);
    }
    assert!(s.methodmaps.get("ArrayList").unwrap().methods.contains_key("Clear"));
    assert!(s.constants.contains_key("UNNAMED_A"));
    assert_eq!(s.typesets.get("Cb").unwrap().types.len(), 2);
}

#[test]
fn old_style_structs_and_funcenums() {
    let s = parse(
        r#"
/** Plugin information */
struct Plugin
{
    public const char[] name;
    public const char[] author;
};

funcenum Callback
{
    Action:public(Handle:timer),
    Action:public(Handle:timer, any:data)
};
"#,
    )
    .unwrap();

    let p = s.enumstructs.get("Plugin").unwrap();
    assert_eq!(p.fields.len(), 2);
    assert!(p.methods.is_empty());
    assert_eq!(p.fields.get("name").unwrap().ty, "const char[]");
    assert_eq!(p.declaration.documentation.docs.as_ref().unwrap().brief, "Plugin information");

    let cb = s.typesets.get("Callback").unwrap();
    assert_eq!(cb.types.len(), 2);
}
