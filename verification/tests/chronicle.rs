use alternator::catalog::update_index;
use alternator::chronicle::{iterate_chronicles, process, process_chronicle, update_metadata, Chronicle};
use alternator::history::{
    chain_step, commit_batch, count_step, diff_base, next_count, predecessor_candidate, skip_commit, ChainStep,
    CountStep, DiffBase,
};
use alternator::schema::symbol_map::SymbolMap;
use alternator::schema::{
    Bundle, Declaration, DocComment, DocLocation, Documentation, Function, Index, Manifest, Meta,
    Metadata, MethodMap, Source, SourceType, Strand, Versioning,
};

fn version(hash: &str, count: u64) -> Versioning {
    Versioning { hash: hash.to_string(), count, time: count as i64 * 10 }
}

fn documentation(brief: &str, ref_line: u64) -> Documentation {
    Documentation {
        ref_line,
        doc_start: DocLocation(0),
        doc_end: DocLocation(0),
        docs: Some(DocComment { brief: brief.to_string(), tags: Vec::new() }),
        metadata: None,
    }
}

fn declaration(name: &str, brief: &str) -> Declaration {
    Declaration { name: name.to_string(), documentation: documentation(brief, 1) }
}

fn function(name: &str, kind: &str) -> Function {
    Function {
        declaration: declaration(name, "Does things."),
        kind: kind.to_string(),
        return_type: "void".to_string(),
        arguments: Vec::new(),
    }
}

fn strand_with(functions: &[Function]) -> Strand {
    let mut s = Strand::new();
    for f in functions {
        s.functions.insert(f.declaration.name.clone(), f.clone());
    }
    s
}

fn meta(name: &str, author: Option<&str>) -> Meta {
    Meta { name: name.to_string(), description: None, author: author.map(|a| a.to_string()) }
}

fn source() -> Source {
    Source {
        source_type: SourceType::Git,
        repository: Some("https://example.com/repo.git".to_string()),
        endpoints: None,
    }
}

fn bundle() -> Bundle {
    Bundle::from_manifest(Manifest { meta: meta("sm", None), source: source(), patterns: None })
}

fn function_in<'a>(b: &'a Bundle, file: &str, name: &str) -> &'a Function {
    b.strands.get(file).unwrap().functions.get(name).unwrap()
}

fn hashes(m: &Option<Metadata>) -> (Option<String>, Option<String>) {
    let m = m.as_ref().unwrap();
    (
        m.created.as_ref().map(|v| v.hash.clone()),
        m.last_updated.as_ref().map(|v| v.hash.clone()),
    )
}

#[test]
fn new_file_adds_its_strand_as_one_difference() {
    let mut b = bundle();
    let diffs = process_chronicle(&mut b, &Some(version("v1", 1)), "a".to_string(), strand_with(&[function("F", "native")]));
    assert_eq!(diffs, 1);
    assert_eq!(b.strands.len(), 1);
    let f = function_in(&b, "a", "F");
    assert_eq!(hashes(&f.declaration.documentation.metadata), (Some("v1".to_string()), Some("v1".to_string())));
}

#[test]
fn unchanged_symbols_keep_their_stamps() {
    let mut b = bundle();
    process_chronicle(&mut b, &Some(version("v1", 1)), "a".to_string(), strand_with(&[function("F", "native")]));
    let diffs = process_chronicle(&mut b, &Some(version("v2", 2)), "a".to_string(), strand_with(&[function("F", "native")]));
    assert_eq!(diffs, 0);
    let f = function_in(&b, "a", "F");
    assert_eq!(hashes(&f.declaration.documentation.metadata), (Some("v1".to_string()), Some("v1".to_string())));
}

#[test]
fn changed_symbols_take_new_content_and_stamp_last_update() {
    let mut b = bundle();
    process_chronicle(&mut b, &Some(version("v1", 1)), "a".to_string(), strand_with(&[function("F", "native")]));
    let diffs = process_chronicle(&mut b, &Some(version("v3", 3)), "a".to_string(), strand_with(&[function("F", "forward")]));
    assert_eq!(diffs, 0);
    let f = function_in(&b, "a", "F");
    assert_eq!(f.kind, "forward");
    assert_eq!(hashes(&f.declaration.documentation.metadata), (Some("v1".to_string()), Some("v3".to_string())));
}

#[test]
fn new_symbols_count_and_old_ones_stay() {
    let mut b = bundle();
    process_chronicle(&mut b, &Some(version("v1", 1)), "a".to_string(), strand_with(&[function("F", "native")]));
    let diffs = process_chronicle(
        &mut b,
        &Some(version("v2", 2)),
        "a".to_string(),
        strand_with(&[function("G", "native"), function("H", "stock")]),
    );
    assert_eq!(diffs, 2);
    let s = b.strands.get("a").unwrap();
    assert_eq!(s.functions.len(), 3);
    assert!(s.functions.contains_key("F"));
    assert_eq!(hashes(&function_in(&b, "a", "G").declaration.documentation.metadata), (Some("v2".to_string()), Some("v2".to_string())));
    // Processing the same strand again finds nothing new
    let again = process_chronicle(
        &mut b,
        &Some(version("v2", 2)),
        "a".to_string(),
        strand_with(&[function("G", "native"), function("H", "stock")]),
    );
    assert_eq!(again, 0);
}

#[test]
fn comparison_ignores_positions_and_metadata() {
    let mut cur = strand_with(&[function("F", "native")]);
    let mut dp_f = function("F", "native");
    dp_f.declaration.documentation.ref_line = 99;
    let d = process(&mut cur, strand_with(&[dp_f]), &Some(version("v1", 1)));
    assert_eq!(d, 0);
    // Compared equal: the older content, line included, stays
    assert_eq!(cur.functions.get("F").unwrap().declaration.documentation.ref_line, 1);
}

#[test]
fn changed_documentation_is_a_change() {
    let mut cur = strand_with(&[function("F", "native")]);
    let mut dp_f = function("F", "native");
    dp_f.declaration = declaration("F", "Does other things.");
    dp_f.declaration.documentation.ref_line = 7;
    process(&mut cur, strand_with(&[dp_f]), &None);
    let f = cur.functions.get("F").unwrap();
    assert_eq!(f.declaration.documentation.docs.as_ref().unwrap().brief, "Does other things.");
    assert_eq!(f.declaration.documentation.ref_line, 7);
    // No version: metadata stays absent
    assert!(f.declaration.documentation.metadata.is_none());
}

fn methodmap(parent: Option<&str>, methods: &[Function]) -> MethodMap {
    let mut m = MethodMap {
        declaration: declaration("ArrayList", "A list."),
        parent: parent.map(|p| p.to_string()),
        methods: SymbolMap::new(),
        properties: SymbolMap::new(),
    };
    for f in methods {
        m.methods.insert(f.declaration.name.clone(), f.clone());
    }
    m
}

#[test]
fn changed_methodmap_takes_the_newer_members() {
    let mut cur = Strand::new();
    cur.methodmaps.insert("ArrayList".to_string(), methodmap(Some("Handle"), &[function("Push", "native"), function("Pop", "native")]));
    let mut dp = Strand::new();
    dp.methodmaps.insert("ArrayList".to_string(), methodmap(None, &[function("Push", "native")]));
    let d = process(&mut cur, dp, &Some(version("v2", 2)));
    assert_eq!(d, 0);
    let m = cur.methodmaps.get("ArrayList").unwrap();
    assert_eq!(m.parent, None);
    assert_eq!(m.methods.len(), 1);
    assert!(m.methods.contains_key("Push"));
    // The member was folded into itself: stamped as created at the version
    assert_eq!(
        hashes(&m.methods.get("Push").unwrap().declaration.documentation.metadata),
        (Some("v2".to_string()), Some("v2".to_string()))
    );
}

#[test]
fn unchanged_methodmap_folds_members_in() {
    let mut cur = Strand::new();
    cur.methodmaps.insert("ArrayList".to_string(), methodmap(Some("Handle"), &[function("Push", "native")]));
    let mut dp = Strand::new();
    dp.methodmaps.insert("ArrayList".to_string(), methodmap(Some("Handle"), &[function("Push", "native")]));
    let d = process(&mut cur, dp, &Some(version("v1", 1)));
    assert_eq!(d, 0);
    let m = cur.methodmaps.get("ArrayList").unwrap();
    assert_eq!(m.parent.as_deref(), Some("Handle"));
    assert_eq!(hashes(&m.declaration.documentation.metadata), (Some("v1".to_string()), Some("v1".to_string())));
}

#[test]
fn metadata_rules() {
    let v = Some(version("v9", 9));
    let mut none: Option<Metadata> = None;
    update_metadata(&mut none, true, &v);
    assert!(none.is_none());
    update_metadata(&mut none, false, &v);
    assert_eq!(hashes(&none), (Some("v9".to_string()), Some("v9".to_string())));

    let mut some = Some(Metadata { created: Some(version("v1", 1)), last_updated: Some(version("v2", 2)) });
    update_metadata(&mut some, false, &v);
    assert_eq!(hashes(&some), (Some("v1".to_string()), Some("v2".to_string())));
    update_metadata(&mut some, true, &v);
    assert_eq!(hashes(&some), (Some("v1".to_string()), Some("v9".to_string())));
    update_metadata(&mut some, true, &None);
    assert_eq!(hashes(&some), (Some("v1".to_string()), Some("v9".to_string())));
}

#[test]
fn versions_compare_by_count() {
    let a = version("aaa", 1);
    let b = version("bbb", 2);
    assert!(a < b);
    assert!(a == b);
    assert_eq!(a.partial_cmp(&a.clone()), Some(std::cmp::Ordering::Equal));
}

#[test]
fn chronicles_are_folded_in_order() {
    let mut b = bundle();
    let mut files1 = SymbolMap::new();
    files1.insert("a".to_string(), b"native void F();\n".to_vec());
    let mut files2 = SymbolMap::new();
    files2.insert("a".to_string(), b"native void F();\nnative void G();\n".to_vec());
    files2.insert("b".to_string(), b"native void H();\n".to_vec());
    let chronicles = vec![
        Chronicle { version: Some(version("v1", 1)), files: files1 },
        Chronicle { version: Some(version("v2", 2)), files: files2 },
    ];
    let diffs = iterate_chronicles(&mut b, chronicles);
    assert_eq!(diffs, 3);
    assert_eq!(b.version.as_ref().unwrap().hash, "v2");
    assert!(b.strands.get("a").unwrap().functions.contains_key("G"));
    assert!(b.strands.get("b").unwrap().functions.contains_key("H"));
    assert_eq!(
        hashes(&function_in(&b, "a", "F").declaration.documentation.metadata),
        (Some("v1".to_string()), Some("v1".to_string()))
    );
}

#[test]
fn no_chronicles_leave_the_version() {
    let mut b = bundle();
    b.version = Some(version("v0", 0));
    assert_eq!(iterate_chronicles(&mut b, Vec::new()), 0);
    assert_eq!(b.version.unwrap().hash, "v0");
}

#[test]
fn index_records_new_and_changed_bundles() {
    let mut index: SymbolMap<Index> = SymbolMap::new();
    assert!(update_index(&mut index, meta("sm", None), source()));
    assert!(!update_index(&mut index, meta("sm", None), source()));
    assert!(update_index(&mut index, meta("sm", Some("me")), source()));
    assert_eq!(index.get("sm").unwrap().meta.author.as_deref(), Some("me"));
    let mut other = source();
    other.repository = None;
    assert!(update_index(&mut index, meta("sm", Some("me")), other));
    assert!(update_index(&mut index, meta("tf", None), source()));
    assert_eq!(index.len(), 2);
}

#[test]
fn walk_decisions() {
    assert_eq!(chain_step(true, true, 0), ChainStep::Reached);
    assert_eq!(chain_step(false, true, 1), ChainStep::Cycle);
    assert_eq!(chain_step(false, false, 0), ChainStep::Predecessor);
    assert_eq!(chain_step(false, false, 2), ChainStep::FirstParent);

    assert!(skip_commit(false, Some(150), 100));
    assert!(!skip_commit(false, Some(150), 150));
    assert!(!skip_commit(true, Some(150), 100));
    assert!(!skip_commit(false, None, 100));

    assert_eq!(diff_base(true, false), DiffBase::Previous);
    assert_eq!(diff_base(false, true), DiffBase::FirstParent);
    assert_eq!(diff_base(false, false), DiffBase::Empty);

    assert_eq!(count_step(true, 1), CountStep::Increment);
    assert_eq!(count_step(true, 2), CountStep::Merge);
    assert_eq!(count_step(false, 1), CountStep::Recount);
    assert_eq!(count_step(true, 0), CountStep::Recount);
    assert_eq!(next_count(3, 0), 4);
    assert_eq!(next_count(3, 2), 6);

    assert!(predecessor_candidate(false, 100, 100));
    assert!(!predecessor_candidate(true, 50, 100));
    assert!(!predecessor_candidate(false, 150, 100));
}

#[test]
fn locations_keep_offsets() {
    for n in [0usize, 1, 4096, i64::MAX as usize] {
        assert_eq!(DocLocation::from_offset(n).offset(), n);
    }
}

#[test]
fn commit_batch_keeps_changed_paths_in_order() {
    let entries = vec![
        (false, Some("a.inc".to_string())),
        (true, Some("gone.inc".to_string())),
        (false, None),
        (false, Some("b.inc".to_string())),
    ];
    assert_eq!(commit_batch(false, entries.clone()), Some(vec!["a.inc".to_string(), "b.inc".to_string()]));
    assert_eq!(commit_batch(true, entries), None);
    assert_eq!(commit_batch(false, vec![(true, Some("x.inc".to_string()))]), None);
    assert_eq!(commit_batch::<String>(false, Vec::new()), None);
}
