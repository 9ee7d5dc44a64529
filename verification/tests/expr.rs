use alternator::expr::eval::eval;
use alternator::expr::parse::parse;
use alternator::expr::render::{NoMacros, Renderer};
use alternator::preprocess::{Macro, Scope};

fn r(s: &str) -> String {
    let mut renderer = Renderer::new(&NoMacros, 0);
    renderer.render_src(s)
}

#[test]
fn renders_like_docparse() {
    assert_eq!(r("(1<<0)"), "1 << 0");
    assert_eq!(r("(3<<1)|(1<<0)"), "3 << 1 | 1 << 0");
    assert_eq!(r("0x0100"), "256");
    assert_eq!(r("-1"), "-1");
    assert_eq!(r("1.0"), "1.000000");
    assert_eq!(r("{0.0, 0.0, 1.0}"), "{ 0.000000, 0.000000, 1.000000 }");
    assert_eq!(r("{}"), "{}");
    assert_eq!(r("view_as<PropFieldType>(0)"), "view_as<PropFieldType>(0)");
    assert_eq!(r("\"GAME\""), "\"GAME\"");
    assert_eq!(r("'C'"), "'C'");
    assert_eq!(r("MenuAction_Select|MenuAction_Cancel"), "MenuAction_Select | MenuAction_Cancel");
    assert_eq!(r("sizeof(buffer)"), "sizeof(buffer)");
    assert_eq!(r("a ? b : c"), "a ? b : c");
    assert_eq!(r("Foo(1, 2)"), "Foo(1, 2)");
}

fn foo_is_two() -> Vec<Macro> {
    vec![Macro {
        name: "FOO".to_string(),
        value: "2".to_string(),
        clean_value: "2".to_string(),
        function_like: false,
        offset: 0,
        defined_at: 0,
        undefined_at: None,
    }]
}

#[test]
fn evaluates_conditions() {
    let macros = foo_is_two();
    let scope = Scope { macros: &macros, offset: 10 };
    let e = |s: &str| eval(&parse(s).unwrap(), &scope, 0).unwrap();
    assert_eq!(e("defined FOO"), 1);
    assert_eq!(e("!defined BAR"), 1);
    assert_eq!(e("defined(FOO) && FOO >= 2"), 1);
    assert_eq!(e("BAR"), 0);
    assert_eq!(e("FOO * 2 == 4"), 1);
}

#[test]
fn arithmetic_wraps_and_division_by_zero_fails() {
    let macros: Vec<Macro> = Vec::new();
    let scope = Scope { macros: &macros, offset: 0 };
    let e = |s: &str| eval(&parse(s).unwrap(), &scope, 0);
    assert_eq!(e("7 / 2"), Some(3));
    assert_eq!(e("-7 % 3"), Some(-1));
    assert_eq!(e("1 / 0"), None);
    assert_eq!(e("0x7fffffffffffffff + 1"), Some(i64::MIN));
    assert_eq!(e("1 ? 2 : 3"), Some(2));
    assert_eq!(e("0 || 5"), Some(1));
}

#[test]
fn macro_undefined_before_offset_is_not_visible() {
    let mut macros = foo_is_two();
    macros[0].undefined_at = Some(5);
    let scope = Scope { macros: &macros, offset: 10 };
    assert_eq!(eval(&parse("defined FOO").unwrap(), &scope, 0), Some(0));
}
