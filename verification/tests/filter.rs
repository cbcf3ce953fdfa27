use cfgmk::filter::cat::Cat;
use cfgmk::filter::simple::{self, Simple};
use cfgmk::filter::{Builder, Filter, FilterError, FilterMap, Standard};
use cfgmk::resolve::{carry, find_file, Content, ResolveError, SourceFile};
use cfgmk::parser::{parse, From};

fn pairs(list: &[(&str, &str)]) -> Vec<(String, String)> {
    list.iter().map(|(k, v)| (k.to_string(), v.to_string())).collect()
}

fn template_filter(vars: &[(&str, &str)]) -> Simple {
    simple::Builder::new().mapper(&pairs(vars)).finish()
}

fn registry(vars: &[(&str, &str)]) -> FilterMap<Standard> {
    Builder::new()
        .add("cat", Standard::Cat(Cat))
        .add("simple", Standard::Simple(template_filter(vars)))
        .finish()
}

fn literal(s: &str) -> From {
    From::Literal(s.as_bytes().to_vec())
}

fn filter(name: &str, inner: From) -> From {
    From::Filter(name.to_string(), Box::new(inner))
}

fn made(s: &str) -> Result<Content, ResolveError> {
    Ok(Content { bytes: s.as_bytes().to_vec(), mtime: None })
}

struct Upper;

impl Filter for Upper {
    fn apply(&self, input: &[u8]) -> Result<Vec<u8>, FilterError> {
        Ok(input.to_ascii_uppercase())
    }
}

#[test]
fn cat_hands_its_input_on() {
    assert_eq!(Cat.apply(b"abc"), Ok(b"abc".to_vec()));
    assert_eq!(Cat.apply(b""), Ok(vec![]));
    assert_eq!(Cat.apply(&[0xff, 0x00]), Ok(vec![0xff, 0x00]));
}

#[test]
fn literal_resolves_to_its_bytes() {
    let filters = registry(&[]);
    assert_eq!(filters.reify(&literal("x"), &[]), made("x"));
}

#[test]
fn file_resolves_to_its_content_and_time() {
    let filters = registry(&[]);
    let files = vec![
        SourceFile { path: "a".to_string(), content: b"one".to_vec(), mtime: 7 },
        SourceFile { path: "b".to_string(), content: vec![], mtime: 9 },
        SourceFile { path: "a".to_string(), content: b"two".to_vec(), mtime: 8 },
    ];
    assert_eq!(
        filters.reify(&From::File("a".to_string()), &files),
        Ok(Content { bytes: b"one".to_vec(), mtime: Some(7) })
    );
    assert_eq!(
        filters.reify(&From::File("b".to_string()), &files),
        Ok(Content { bytes: vec![], mtime: Some(9) })
    );
    assert_eq!(find_file(&files, &"a".to_string()), Some(&files[0]));
    assert_eq!(find_file(&files, &"c".to_string()), None);
}

#[test]
fn missing_file_is_an_io_error() {
    let filters = registry(&[]);
    assert_eq!(
        filters.reify(&From::File("gone".to_string()), &[]),
        Err(ResolveError::Io("gone".to_string()))
    );
    assert_eq!(
        filters.reify(&filter("cat", From::File("gone".to_string())), &[]),
        Err(ResolveError::Io("gone".to_string()))
    );
}

#[test]
fn unknown_filter_passes_through() {
    let filters = registry(&[]);
    assert_eq!(filters.reify(&filter("nope", literal("x")), &[]), made("x"));
    let files = vec![SourceFile { path: "a".to_string(), content: b"one".to_vec(), mtime: 7 }];
    assert_eq!(
        filters.reify(&filter("nope", From::File("a".to_string())), &files),
        Ok(Content { bytes: b"one".to_vec(), mtime: Some(7) })
    );
    let stmts = parse("create 'p' filter 'nope' literal 'x'\n").unwrap();
    assert_eq!(filters.reify(&stmts[0].from, &[]), made("x"));
}

#[test]
fn cat_makes_file_content_its_own() {
    let filters = registry(&[]);
    let files = vec![SourceFile { path: "a".to_string(), content: b"one".to_vec(), mtime: 7 }];
    assert_eq!(filters.reify(&filter("cat", From::File("a".to_string())), &files), made("one"));
}

#[test]
fn template_substitutes_a_variable() {
    let filters = registry(&[("name", "Ada")]);
    assert_eq!(filters.reify(&filter("simple", literal("Hello {{name}}")), &[]), made("Hello Ada"));
    let stmts = parse("create 'out/greet.txt' filter 'simple' literal 'Hello {{name}}'\n").unwrap();
    assert_eq!(filters.reify(&stmts[0].from, &[]), made("Hello Ada"));
}

#[test]
fn template_with_unbound_variable_fails() {
    let filters = registry(&[("name", "Ada")]);
    assert_eq!(
        filters.reify(&filter("simple", literal("Hello {{nobody}}")), &[]),
        Err(ResolveError::Filter(FilterError::Render))
    );
}

#[test]
fn malformed_template_fails() {
    let filters = registry(&[("name", "Ada")]);
    assert_eq!(
        filters.reify(&filter("simple", literal("Hello {{")), &[]),
        Err(ResolveError::Filter(FilterError::Render))
    );
}

#[test]
fn template_that_is_not_utf8_fails() {
    let f = template_filter(&[]);
    assert_eq!(f.apply(&[0xff, 0xfe]), Err(FilterError::Render));
    assert_eq!(f.apply(b"plain"), Ok(b"plain".to_vec()));
}

#[test]
fn template_reads_a_file() {
    let filters = registry(&[("host", "alpha")]);
    let files = vec![SourceFile {
        path: "motd.tmpl".to_string(),
        content: b"welcome to {{ host }}".to_vec(),
        mtime: 3,
    }];
    assert_eq!(
        filters.reify(&filter("simple", From::File("motd.tmpl".to_string())), &files),
        made("welcome to alpha")
    );
}

#[test]
fn filters_apply_from_the_inside_out() {
    let filters = Builder::new().add("up", Upper).finish();
    assert_eq!(filters.reify(&filter("up", filter("nope", literal("ab"))), &[]), made("AB"));
    let nested = registry(&[("x", "{{y}}"), ("y", "deep")]);
    assert_eq!(
        nested.reify(&filter("simple", filter("simple", filter("cat", literal("<{{x}}>")))), &[]),
        made("<deep>")
    );
    assert_eq!(nested.reify(&filter("simple", literal("<{{x}}>")), &[]), made("<{{y}}>"));
}

#[test]
fn later_registration_replaces_earlier() {
    let filters = Builder::new()
        .add("f", Standard::Simple(template_filter(&[("v", "first")])))
        .add("g", Standard::Cat(Cat))
        .add("f", Standard::Simple(template_filter(&[("v", "second")])))
        .finish();
    assert_eq!(filters.reify(&filter("f", literal("{{v}}")), &[]), made("second"));
    assert_eq!(filters.reify(&filter("g", literal("{{v}}")), &[]), made("{{v}}"));
    assert!(filters.get("f").is_some());
    assert!(filters.get("h").is_none());
}

#[test]
fn mapper_binds_later_over_earlier() {
    let f = simple::Builder::new()
        .mapper(&pairs(&[("a", "1"), ("b", "2"), ("a", "3")]))
        .mapper(&pairs(&[("c", "4"), ("b", "5")]))
        .finish();
    assert_eq!(f.apply(b"a={{a}};b={{b}};c={{c}};"), Ok(b"a=3;b=5;c=4;".to_vec()));
}

#[test]
fn no_variables_and_a_name_fail() {
    let f = simple::Builder::new().finish();
    assert_eq!(f.apply(b"Hello {{name}}"), Err(FilterError::Render));
    assert_eq!(f.apply(b"Hello"), Ok(b"Hello".to_vec()));
    assert_eq!(f.apply(b""), Ok(vec![]));
}

#[test]
fn plain_templates_render() {
    let f = template_filter(&[("name", "Ada"), ("_x9", "y"), ("format", "f"), ("IN", "i")]);
    for (template, text) in [
        ("{{name}}", "Ada"),
        ("{{  name  }}", "Ada"),
        ("{{name}}{{_x9}}", "Aday"),
        ("a {{ name }} b\n  {{_x9}}\n", "a Ada b\n  y\n"),
        ("# managed by hand\nroot = /srv/{{name}}/100%\n", "# managed by hand\nroot = /srv/Ada/100%\n"),
        ("{ {name} } }} {", "{ {name} } }} {"),
        ("{{format}} {{IN}}", "f i"),
        ("caf\u{e9} {{name}} \u{2028}", "caf\u{e9} Ada \u{2028}"),
        ("a # b", "a # b"),
    ] {
        assert_eq!(f.apply(template.as_bytes()), Ok(text.as_bytes().to_vec()), "{:?}", template);
    }
}

#[test]
fn templates_that_are_not_plain_fail() {
    let f = template_filter(&[("name", "Ada"), ("if", "x"), ("n", "1")]);
    for template in [
        "{{ 0 / 0 }}",
        "{{ name # }}",
        "{{name",
        "{{ name }",
        "{{}}",
        "{{ }}",
        "{{-name}}",
        "{{name-}}",
        "{{ name.len }}",
        "{{ name | x }}",
        "{{ 1 }}",
        "{{ 9n }}",
        "{{ n\u{e9} }}",
        "{{\tname}}",
        "{{\nname}}",
        "{{{name}}}",
        "{{ if }}",
        "{{ not }}",
        "{{ validate }}",
        "{{ {\"a\": 1} }}",
        "{# note #}",
        "## if name\nx\n## endif\n",
        "a ## b",
        "### note",
        "##",
    ] {
        assert_eq!(f.apply(template.as_bytes()), Err(FilterError::Render), "{:?}", template);
    }
}

#[test]
fn carry_maps_both_outcomes() {
    assert_eq!(carry(Ok(b"x".to_vec())), made("x"));
    assert_eq!(carry(Err(FilterError::Render)), Err(ResolveError::Filter(FilterError::Render)));
    assert_eq!(simple::finish_render(Some("é".to_string())), Ok(vec![0xc3, 0xa9]));
    assert_eq!(simple::finish_render(None), Err(FilterError::Render));
}

#[test]
fn escaped_quote_in_literal() {
    let filters = registry(&[]);
    let stmts = parse("create 'q' literal 'devil''s advocate'\n").unwrap();
    assert_eq!(filters.reify(&stmts[0].from, &[]), made("devil's advocate"));
}
