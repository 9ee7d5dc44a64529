use alternator::mono::IncludeFile;
use alternator::sitemap::{build_include_tree, include_locations};

fn empty_include() -> IncludeFile {
    IncludeFile {
        functions: Vec::new(),
        methodmaps: Vec::new(),
        enumstructs: Vec::new(),
        constants: Vec::new(),
        defines: Vec::new(),
        enums: Vec::new(),
        typesets: Vec::new(),
        typedefs: Vec::new(),
    }
}

#[test]
fn include_tree_url_element() {
    let r = build_include_tree("core".to_string(), empty_include(), "https://example.org");
    assert_eq!(r.len(), 1);
    let e = r[0].element();
    assert_eq!(e.name, "url");
    assert_eq!(e.text, None);
    assert_eq!(e.children.len(), 2);
    assert_eq!(e.children[0].name, "loc");
    assert_eq!(e.children[0].text.as_deref(), Some("https://example.org/core/"));
    assert_eq!(e.children[1].name, "changefreq");
    assert_eq!(e.children[1].text.as_deref(), Some("monthly"));
    assert!(e.children[0].children.is_empty());
    assert!(e.children[1].children.is_empty());
}

#[test]
fn include_tree_matches_locations() {
    let key = "core".to_string();
    let file = empty_include();
    let locations = include_locations(&key, &file, "https://example.org");
    let r = build_include_tree(key, file, "https://example.org");
    assert_eq!(r.len(), locations.len());
    for (element, loc) in r.iter().zip(locations.iter()) {
        let e = element.element();
        assert_eq!(e.children[0].text.as_deref(), Some(loc.as_str()));
    }
}
