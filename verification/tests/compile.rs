use cfgmk::archive::{Entry, Warning};
use cfgmk::compile::{compile, sources, Diagnostic, Outcome};
use cfgmk::filter::cat::Cat;
use cfgmk::filter::simple;
use cfgmk::filter::{Builder, FilterError, FilterMap, Standard};
use cfgmk::resolve::{ResolveError, SourceFile};
use cfgmk::parser::{ParseError, Rulesfile};

fn registry(vars: &[(&str, &str)]) -> FilterMap<Standard> {
    let vars: Vec<(String, String)> =
        vars.iter().map(|(k, v)| (k.to_string(), v.to_string())).collect();
    Builder::new()
        .add("cat", Standard::Cat(Cat))
        .add("simple", Standard::Simple(simple::Builder::new().mapper(&vars).finish()))
        .finish()
}

fn rules(texts: &[&str]) -> Vec<String> {
    texts.iter().map(|t| t.to_string()).collect()
}

fn entry(path: &str, content: &str, mtime: u64) -> Entry {
    Entry { path: path.to_string(), content: content.as_bytes().to_vec(), mtime }
}

fn file(path: &str, content: &str, mtime: u64) -> SourceFile {
    SourceFile { path: path.to_string(), content: content.as_bytes().to_vec(), mtime }
}

#[test]
fn create_literal() {
    let out = compile(&rules(&["create 'out/hello.txt' literal 'hello world'\n"]), &registry(&[]), &[], 5);
    assert_eq!(
        out,
        Ok(Outcome {
            entries: vec![entry("out/hello.txt", "hello world", 5)],
            warnings: vec![],
            diagnostics: vec![],
        })
    );
}

#[test]
fn append_accumulation() {
    let text = "append 'out/a.txt' literal 'foo'\nappend 'out/a.txt' literal 'bar'\n";
    let out = compile(&rules(&[text]), &registry(&[]), &[], 5).unwrap();
    assert_eq!(out.entries, vec![entry("out/a.txt", "foobar", 5)]);
}

#[test]
fn duplicate_path_warns_at_the_second_statement() {
    for (first, second, content) in [
        ("create", "create", "2"),
        ("create", "append", "12"),
        ("append", "create", "2"),
        ("append", "append", "12"),
    ] {
        let text = format!("{} 'p' literal '1'\n{} 'p' literal '2'\n", first, second);
        let out = compile(&[text], &registry(&[]), &[], 5).unwrap();
        assert_eq!(out.warnings, vec![Warning::DuplicatePath("p".to_string())]);
        assert_eq!(out.entries, vec![entry("p", content, 5)]);
    }
}

#[test]
fn duplicate_path_across_files_warns() {
    let out = compile(
        &rules(&["create 'p' literal '1'\n", "append 'p' literal '2'\n"]),
        &registry(&[]),
        &[],
        5,
    )
    .unwrap();
    assert_eq!(out.warnings, vec![Warning::DuplicatePath("p".to_string())]);
    assert_eq!(out.entries, vec![entry("p", "12", 5)]);
}

#[test]
fn template_filter_substitution() {
    let text = "create 'out/greet.txt' filter 'simple' literal 'Hello {{name}}'\n";
    let out = compile(&rules(&[text]), &registry(&[("name", "Ada")]), &[], 5).unwrap();
    assert_eq!(out.entries, vec![entry("out/greet.txt", "Hello Ada", 5)]);
}

#[test]
fn unbound_variable_aborts_the_build() {
    let text = "create 'a' literal 'x'\ncreate 'out/greet.txt' filter 'simple' literal 'Hello {{nobody}}'\ncreate 'b' literal 'y'\n";
    let out = compile(&rules(&[text]), &registry(&[("name", "Ada")]), &[], 5);
    assert_eq!(out, Err(ResolveError::Filter(FilterError::Render)));
}

#[test]
fn unreadable_source_aborts_the_build() {
    let out = compile(
        &rules(&["create 'a' literal 'x'\n", "create 'b' from 'gone'\n"]),
        &registry(&[]),
        &[file("here", "h", 1)],
        5,
    );
    assert_eq!(out, Err(ResolveError::Io("gone".to_string())));
}

#[test]
fn malformed_file_is_skipped_not_fatal() {
    let out = compile(
        &rules(&["create 'a' literal 'x'\nthis is no statement\n", "create 'b' literal 'y'\n"]),
        &registry(&[]),
        &[],
        5,
    );
    assert_eq!(
        out,
        Ok(Outcome {
            entries: vec![entry("b", "y", 5)],
            warnings: vec![],
            diagnostics: vec![Diagnostic { file: 0, error: ParseError { line: 2, offset: 23 } }],
        })
    );
}

#[test]
fn every_malformed_file_gives_a_diagnostic() {
    let out = compile(
        &rules(&["bad\n", "create 'b' literal 'y'\n", "", "create 'c'\n"]),
        &registry(&[]),
        &[],
        5,
    )
    .unwrap();
    assert_eq!(out.entries, vec![entry("b", "y", 5)]);
    assert_eq!(
        out.diagnostics,
        vec![
            Diagnostic { file: 0, error: ParseError { line: 1, offset: 0 } },
            Diagnostic { file: 3, error: ParseError { line: 1, offset: 0 } },
        ]
    );
}

#[test]
fn file_sources_keep_their_time_on_create_only() {
    let text = "create 'a' from 'src'\nappend 'b' from 'src'\ncreate 'c' filter 'cat' from 'src'\ncreate 'd' filter 'nope' from 'src'\n";
    let out = compile(&rules(&[text]), &registry(&[]), &[file("src", "s", 100)], 5).unwrap();
    assert_eq!(
        out.entries,
        vec![entry("a", "s", 100), entry("b", "s", 5), entry("c", "s", 5), entry("d", "s", 100)]
    );
}

#[test]
fn entries_follow_statement_order_across_files() {
    let out = compile(
        &rules(&["create 'z' literal '1'\ncreate 'a' literal '2'\n", "create 'm' literal '3'\nappend 'z' literal '4'\n"]),
        &registry(&[]),
        &[],
        5,
    )
    .unwrap();
    assert_eq!(out.entries, vec![entry("z", "14", 5), entry("a", "2", 5), entry("m", "3", 5)]);
}

#[test]
fn no_rules_no_entries() {
    let none: Vec<String> = vec![];
    assert_eq!(
        compile(&none, &registry(&[]), &[], 5),
        Ok(Outcome { entries: vec![], warnings: vec![], diagnostics: vec![] })
    );
}

#[test]
fn rulesfile_hands_statements_out_in_order() {
    let filters = registry(&[]);
    let mut file =
        Rulesfile::new(&filters, "create 'a' literal '1'\nappend 'b' filter 'cat' literal '2'\n").unwrap();
    let first = file.next(&[]).unwrap().unwrap();
    assert_eq!(first.path, "a");
    assert_eq!(first.content.bytes, b"1");
    let second = file.next(&[]).unwrap().unwrap();
    assert_eq!(second.path, "b");
    assert_eq!(second.content.bytes, b"2");
    assert!(file.next(&[]).is_none());
    assert!(file.next(&[]).is_none());
    assert!(Rulesfile::new(&filters, "x").is_err());
    assert_eq!(
        Rulesfile::new(&filters, "create 'a' literal '1'\nx").err(),
        Some(ParseError { line: 2, offset: 23 })
    );
}

#[test]
fn sources_lists_each_file_once() {
    let texts = rules(&[
        "create 'a' from 'one'\nappend 'b' filter 'simple' filter 'nope' from 'two'\ncreate 'c' literal 'from'\n",
        "create 'broken' from 'never'\nnonsense\n",
        "append 'd' from 'one'\ncreate 'e' filter 'cat' from 'three'\n",
    ]);
    assert_eq!(sources(&texts), vec!["one".to_string(), "two".to_string(), "three".to_string()]);
    let none: Vec<String> = vec![];
    assert_eq!(sources(&none), none);
}
