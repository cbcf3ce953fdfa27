use cfgmk::parser::{parse, parse_from, parse_kind, unescape, Directive, From, ParseError, Stmt};

fn chars(s: &str) -> Vec<char> {
    s.chars().collect()
}

#[test]
fn basic() {}

#[test]
fn test_literal() {
    assert_eq!(
        parse_from(&chars("literal 'test'"), 0),
        Some((From::Literal(b"test".to_vec()), 14))
    );
    assert_eq!(
        parse_from(&chars("literal 'devil''s advocate'"), 0),
        Some((From::Literal(b"devil's advocate".to_vec()), 27))
    );
}

#[test]
fn duplicate_keeps_the_expression() {
    let f = From::Filter("cat".to_string(), Box::new(From::Literal(b"x".to_vec())));
    assert_eq!(f.duplicate(), f);
    assert_eq!(f.clone(), f);
}

#[test]
fn unescape_strips_and_collapses() {
    assert_eq!(unescape("'abc'").unwrap(), "abc");
    assert_eq!(unescape("''").unwrap(), "");
    assert_eq!(unescape("'devil''s advocate'").unwrap(), "devil's advocate");
    assert_eq!(unescape("'''''").unwrap(), "''");
    assert_eq!(unescape("''''").unwrap(), "'");
    assert_eq!(unescape("xay").unwrap(), "a");
    assert_eq!(unescape("'é'").unwrap(), "é");
}

#[test]
fn unescape_of_less_than_two_characters_is_an_error() {
    assert_eq!(unescape(""), None);
    assert_eq!(unescape("'"), None);
    assert_eq!(unescape("é"), None);
    assert_eq!(unescape("éé"), Some(String::new()));
    assert_eq!(parse("create ' literal 'x'\n"), Err(ParseError { line: 1, offset: 0 }));
    assert_eq!(parse("create 'a' from '\n"), Err(ParseError { line: 1, offset: 0 }));
}

#[test]
fn parse_kind_reads_both_keywords() {
    assert_eq!(parse_kind(&chars("create"), 0), Some((Directive::Create, 6)));
    assert_eq!(parse_kind(&chars("xappend"), 1), Some((Directive::Append, 7)));
    assert_eq!(parse_kind(&chars("creat"), 0), None);
    assert_eq!(parse_kind(&chars("create"), 7), None);
    assert_eq!(parse_kind(&chars("create"), usize::MAX), None);
}

#[test]
fn parse_one_of_each() {
    let text = "create 'a' literal 'x'\nappend 'b' from 'c'\ncreate 'd' filter 'f' filter 'g' from 'h'\n";
    let stmts = parse(text).unwrap();
    assert_eq!(
        stmts,
        vec![
            Stmt {
                cond: None,
                kind: Directive::Create,
                path: "a".to_string(),
                from: From::Literal(b"x".to_vec()),
            },
            Stmt {
                cond: None,
                kind: Directive::Append,
                path: "b".to_string(),
                from: From::File("c".to_string()),
            },
            Stmt {
                cond: None,
                kind: Directive::Create,
                path: "d".to_string(),
                from: From::Filter(
                    "f".to_string(),
                    Box::new(From::Filter(
                        "g".to_string(),
                        Box::new(From::File("h".to_string()))
                    ))
                ),
            },
        ]
    );
}

#[test]
fn parse_empty_file() {
    assert_eq!(parse(""), Ok(vec![]));
}

#[test]
fn parse_error_names_line_and_offset() {
    assert_eq!(parse("create 'a' literal 'x'"), Err(ParseError { line: 1, offset: 0 }));
    assert_eq!(
        parse("create 'a' literal 'x'\nbogus\n"),
        Err(ParseError { line: 2, offset: 23 })
    );
    assert_eq!(
        parse("create 'a' literal 'x\ny'\ncreate 'b' from\n"),
        Err(ParseError { line: 3, offset: 25 })
    );
    assert_eq!(parse("\n"), Err(ParseError { line: 1, offset: 0 }));
    assert_eq!(parse(" create 'a' literal 'x'\n"), Err(ParseError { line: 1, offset: 0 }));
    assert_eq!(parse("create 'a' literal 'x' \n"), Err(ParseError { line: 1, offset: 0 }));
    assert_eq!(parse("create'a' literal 'x'\n"), Err(ParseError { line: 1, offset: 0 }));
    assert_eq!(parse("create 'a\nb' literal 'x'\n"), Err(ParseError { line: 1, offset: 0 }));
}

#[test]
fn literal_may_span_lines() {
    let stmts = parse("create 'a' literal 'x\ny'\n").unwrap();
    assert_eq!(stmts[0].from, From::Literal(b"x\ny".to_vec()));
}

#[test]
fn blanks_are_spaces_and_tabs() {
    let stmts = parse("create \t 'a'\t\tliteral  'x'\n").unwrap();
    assert_eq!(stmts.len(), 1);
    assert_eq!(stmts[0].path, "a");
}

#[test]
fn literal_is_utf8_of_the_text() {
    let stmts = parse("create 'päth' literal 'é'\n").unwrap();
    assert_eq!(stmts[0].path, "päth");
    assert_eq!(stmts[0].from, From::Literal(vec![0xc3, 0xa9]));
}

#[test]
fn file_names_the_innermost_source() {
    let stmts =
        parse("create 'a' from 'x'\ncreate 'b' filter 'f' filter 'g' from 'y'\ncreate 'c' filter 'f' literal 'z'\n")
            .unwrap();
    assert_eq!(stmts[0].from.file(), Some(&"x".to_string()));
    assert_eq!(stmts[1].from.file(), Some(&"y".to_string()));
    assert_eq!(stmts[2].from.file(), None);
}

#[test]
fn quoting_round_trip() {
    for s in ["", "a", "'", "''", "it's", "a''b'", "'''", "päth/ü", "tab\there", " spaced out "] {
        let quoted = format!("'{}'", s.replace("'", "''"));
        assert_eq!(unescape(&quoted).unwrap(), s);
        let clause = format!("from {}", quoted);
        assert_eq!(
            parse_from(&chars(&clause), 0),
            Some((From::File(s.to_string()), clause.chars().count()))
        );
        let text = format!("create {} literal {}\n", quoted, quoted);
        let stmts = parse(&text).unwrap();
        assert_eq!(stmts.len(), 1);
        assert_eq!(stmts[0].path, s);
        assert_eq!(stmts[0].from, From::Literal(s.as_bytes().to_vec()));
    }
}

#[test]
fn line_break_is_kept_in_a_literal_only() {
    let quoted = "'two\nlines'";
    assert_eq!(unescape(quoted).unwrap(), "two\nlines");
    assert_eq!(
        parse_from(&chars("literal 'two\nlines'"), 0),
        Some((From::Literal(b"two\nlines".to_vec()), 19))
    );
    assert_eq!(parse_from(&chars("from 'two\nlines'"), 0), None);
    assert_eq!(parse_from(&chars("filter 'two\nlines' literal 'x'"), 0), None);
}

#[test]
fn source_clauses_that_are_malformed() {
    for clause in [
        "",
        "from",
        "from ",
        "from'x'",
        "from x",
        "from 'x",
        "from 'x''",
        "literal",
        "literal 'x",
        "filter 'f'",
        "filter 'f' ",
        "filter 'f''x'",
        "filter 'f' from",
        "filter  from 'x'",
        "Filter 'f' from 'x'",
        "form 'x'",
    ] {
        assert_eq!(parse_from(&chars(clause), 0), None, "{:?}", clause);
    }
}

#[test]
fn a_quote_after_a_string_is_part_of_it() {
    assert_eq!(parse_from(&chars("from 'a''"), 0), None);
    assert_eq!(parse_from(&chars("from 'a'''"), 0), Some((From::File("a'".to_string()), 10)));
    assert_eq!(parse_from(&chars("from 'a' 'b'"), 0), Some((From::File("a".to_string()), 8)));
}
