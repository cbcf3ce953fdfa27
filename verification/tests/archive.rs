use cfgmk::archive::{mtime, Builder, Entry, Warning};
use cfgmk::resolve::Content;
use cfgmk::parser::Directive;

fn made(s: &str) -> Content {
    Content { bytes: s.as_bytes().to_vec(), mtime: None }
}

fn from_file(s: &str, mtime: u64) -> Content {
    Content { bytes: s.as_bytes().to_vec(), mtime: Some(mtime) }
}

fn entry(path: &str, content: &str, mtime: u64) -> Entry {
    Entry { path: path.to_string(), content: content.as_bytes().to_vec(), mtime }
}

fn warning(path: &str) -> Warning {
    Warning::DuplicatePath(path.to_string())
}

#[test]
fn creation() {
    let mut ar = Builder::new();

    let f = made("test");
    let p = String::from("test/test");

    assert_eq!((), ar.create(p, f, 0));
}

#[test]
fn new_builder_is_empty() {
    let ar = Builder::new();
    assert!(ar.warnings().is_empty());
    assert_eq!(ar.finish(), vec![]);
}

#[test]
fn create_gives_one_entry() {
    let mut ar = Builder::new();
    ar.create("out/hello.txt".to_string(), made("hello world"), 42);
    assert!(ar.warnings().is_empty());
    assert_eq!(ar.finish(), vec![entry("out/hello.txt", "hello world", 42)]);
}

#[test]
fn create_of_file_content_keeps_the_file_time() {
    let mut ar = Builder::new();
    ar.create("a".to_string(), from_file("x", 7), 42);
    assert_eq!(ar.finish(), vec![entry("a", "x", 7)]);
}

#[test]
fn append_takes_the_time_of_the_build() {
    let mut ar = Builder::new();
    ar.append("a".to_string(), from_file("x", 7), 42);
    assert_eq!(ar.finish(), vec![entry("a", "x", 42)]);
}

#[test]
fn appends_accumulate_in_order() {
    let mut ar = Builder::new();
    ar.append("out/a.txt".to_string(), made("foo"), 1);
    ar.append("out/a.txt".to_string(), made("bar"), 2);
    assert_eq!(ar.warnings(), &vec![warning("out/a.txt")]);
    assert_eq!(ar.finish(), vec![entry("out/a.txt", "foobar", 2)]);
}

#[test]
fn create_after_create_replaces_and_warns() {
    let mut ar = Builder::new();
    ar.create("p".to_string(), made("one"), 1);
    assert!(ar.warnings().is_empty());
    ar.create("p".to_string(), from_file("two", 9), 2);
    assert_eq!(ar.warnings(), &vec![warning("p")]);
    assert_eq!(ar.finish(), vec![entry("p", "two", 9)]);
}

#[test]
fn append_after_create_adds_and_warns() {
    let mut ar = Builder::new();
    ar.create("p".to_string(), from_file("one", 9), 1);
    ar.append("p".to_string(), made("two"), 2);
    assert_eq!(ar.warnings(), &vec![warning("p")]);
    assert_eq!(ar.finish(), vec![entry("p", "onetwo", 2)]);
}

#[test]
fn create_after_append_replaces_and_warns() {
    let mut ar = Builder::new();
    ar.append("p".to_string(), made("one"), 1);
    ar.create("p".to_string(), made("two"), 2);
    assert_eq!(ar.warnings(), &vec![warning("p")]);
    assert_eq!(ar.finish(), vec![entry("p", "two", 2)]);
}

#[test]
fn every_later_write_warns() {
    let mut ar = Builder::new();
    ar.create("p".to_string(), made("1"), 1);
    ar.create("q".to_string(), made("2"), 1);
    ar.append("p".to_string(), made("3"), 1);
    ar.append("q".to_string(), made("4"), 1);
    ar.create("p".to_string(), made("5"), 1);
    assert_eq!(ar.warnings(), &vec![warning("p"), warning("q"), warning("p")]);
    let (entries, warnings) = ar.into_parts();
    assert_eq!(entries, vec![entry("p", "5", 1), entry("q", "24", 1)]);
    assert_eq!(warnings.len(), 3);
}

#[test]
fn entries_come_in_first_seen_order() {
    let mut ar = Builder::new();
    ar.apply(Directive::Create, "z".to_string(), made("1"), 5);
    ar.apply(Directive::Append, "a".to_string(), made("2"), 5);
    ar.apply(Directive::Create, "m".to_string(), made("3"), 5);
    ar.apply(Directive::Append, "z".to_string(), made("4"), 6);
    assert_eq!(
        ar.finish(),
        vec![entry("z", "14", 6), entry("a", "2", 5), entry("m", "3", 5)]
    );
}

#[test]
fn paths_are_kept_as_written() {
    let mut ar = Builder::new();
    ar.create("./a//b/".to_string(), made("1"), 0);
    ar.create("a/b".to_string(), made("2"), 0);
    ar.create("".to_string(), made("3"), 0);
    assert!(ar.warnings().is_empty());
    assert_eq!(ar.finish(), vec![entry("./a//b/", "1", 0), entry("a/b", "2", 0), entry("", "3", 0)]);
}

#[test]
fn empty_content_is_content() {
    let mut ar = Builder::new();
    ar.append("e".to_string(), made(""), 3);
    ar.append("e".to_string(), made(""), 4);
    assert_eq!(ar.finish(), vec![entry("e", "", 4)]);
}

#[test]
fn mtime_is_the_timestamp_modulo_two_to_the_64() {
    assert_eq!(mtime(0), 0);
    assert_eq!(mtime(1_700_000_000), 1_700_000_000);
    assert_eq!(mtime(i64::MAX), 9_223_372_036_854_775_807);
    assert_eq!(mtime(-1), u64::MAX);
    assert_eq!(mtime(-2), u64::MAX - 1);
    assert_eq!(mtime(i64::MIN), 9_223_372_036_854_775_808);
    assert_eq!(mtime(-5), -5i64 as u64);
}
