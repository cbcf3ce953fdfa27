//! The language of rules files, as functions on sequences of characters.
//!
//! A file is a run of statements, one per line:
//!
//! ```text
//! file      := statement*
//! statement := directive blank+ string blank+ source '\n'
//! directive := "create" | "append"
//! source    := "from" blank+ string
//!            | "literal" blank+ text
//!            | "filter" blank+ string blank+ source
//! blank     := ' ' | '\t'
//! string    := "'" (any character but "'" and '\n' | "''")* "'"
//! text      := "'" (any character but "'" | "''")* "'"
//! ```
//!
//! Inside the quotes, `''` stands for one quote. A `string` stays on its line;
//! the `text` of a literal may run over several.
use vstd::prelude::*;
use vstd::utf8::{decode_utf8, decode_utf8_encode_utf8, encode_utf8, valid_utf8};
use crate::parser::{Directive, ParseError, SourceExpr, Statement};

verus! {

/// A blank: what separates the words of a statement.
pub open spec fn is_space(c: char) -> bool {
    c == ' ' || c == '\t'
}

/// The keyword of the create directive.
pub open spec fn kw_create() -> Seq<char> {
    seq!['c', 'r', 'e', 'a', 't', 'e']
}

/// The keyword of the append directive.
pub open spec fn kw_append() -> Seq<char> {
    seq!['a', 'p', 'p', 'e', 'n', 'd']
}

/// The keyword before the path of a source file.
pub open spec fn kw_from() -> Seq<char> {
    seq!['f', 'r', 'o', 'm']
}

/// The keyword before inline content.
pub open spec fn kw_literal() -> Seq<char> {
    seq!['l', 'i', 't', 'e', 'r', 'a', 'l']
}

/// The keyword before the name of a filter.
pub open spec fn kw_filter() -> Seq<char> {
    seq!['f', 'i', 'l', 't', 'e', 'r']
}

/// `word` stands in `s` at index `i`.
pub open spec fn starts_with_at(s: Seq<char>, i: int, word: Seq<char>) -> bool {
    0 <= i && i + word.len() <= s.len() && s.subrange(i, i + word.len()) == word
}

/// The index of the first character at or after `i` that is no blank.
pub open spec fn blanks_end(s: Seq<char>, i: int) -> int
    decreases s.len() - i,
{
    if 0 <= i < s.len() && is_space(s[i]) {
        blanks_end(s, i + 1)
    } else {
        i
    }
}

/// The end of the run of blanks that a statement needs at `i`: none where no
/// blank stands there.
pub open spec fn gap_end(s: Seq<char>, i: int) -> Option<int> {
    if blanks_end(s, i) > i {
        Some(blanks_end(s, i))
    } else {
        None
    }
}

/// Reading on inside a quoted string from `i`: the index just past the quote
/// that closes it. A doubled quote does not close it. Without `multiline` a
/// line break is an error.
pub open spec fn body_end(s: Seq<char>, i: int, multiline: bool) -> Option<int>
    decreases s.len() - i,
{
    if i < 0 || i >= s.len() {
        None
    } else if s[i] == '\'' {
        if i + 1 < s.len() && s[i + 1] == '\'' {
            body_end(s, i + 2, multiline)
        } else {
            Some(i + 1)
        }
    } else if s[i] == '\n' && !multiline {
        None
    } else {
        body_end(s, i + 1, multiline)
    }
}

/// The index just past the quoted string that opens at `i`.
pub open spec fn quoted_end(s: Seq<char>, i: int, multiline: bool) -> Option<int> {
    if 0 <= i < s.len() && s[i] == '\'' {
        body_end(s, i + 1, multiline)
    } else {
        None
    }
}

/// `s` with each pair of quotes, taken from the left, replaced by one quote.
pub open spec fn collapse(s: Seq<char>) -> Seq<char>
    decreases s.len(),
{
    if s.len() == 0 {
        s
    } else if s.len() >= 2 && s[0] == '\'' && s[1] == '\'' {
        seq!['\''] + collapse(s.subrange(2, s.len() as int))
    } else {
        seq![s[0]] + collapse(s.subrange(1, s.len() as int))
    }
}

/// What a quoted string stands for: the token without its first and last
/// character, and with doubled quotes made single.
pub open spec fn unescape_spec(token: Seq<char>) -> Seq<char> {
    collapse(token.subrange(1, token.len() - 1))
}

/// The quoted string at `i`: what it stands for, and the index just past it.
pub open spec fn string_at(s: Seq<char>, i: int, multiline: bool) -> Option<(Seq<char>, int)> {
    match quoted_end(s, i, multiline) {
        Some(end) => Some((unescape_spec(s.subrange(i, end)), end)),
        None => None,
    }
}

/// The directive keyword at `i`, and the index just past it.
pub open spec fn directive_at(s: Seq<char>, i: int) -> Option<(Directive, int)> {
    if starts_with_at(s, i, kw_create()) {
        Some((Directive::Create, i + 6))
    } else if starts_with_at(s, i, kw_append()) {
        Some((Directive::Append, i + 6))
    } else {
        None
    }
}

/// The source clause at `i`, and the index just past it.
pub open spec fn source_at(s: Seq<char>, i: int) -> Option<(SourceExpr, int)>
    decreases s.len() - i,
{
    if starts_with_at(s, i, kw_from()) {
        match gap_end(s, i + 4) {
            Some(j) => match string_at(s, j, false) {
                Some((path, end)) => Some((SourceExpr::File(path), end)),
                None => None,
            },
            None => None,
        }
    } else if starts_with_at(s, i, kw_literal()) {
        match gap_end(s, i + 7) {
            Some(j) => match string_at(s, j, true) {
                Some((text, end)) => Some((SourceExpr::Literal(encode_utf8(text)), end)),
                None => None,
            },
            None => None,
        }
    } else if starts_with_at(s, i, kw_filter()) {
        match gap_end(s, i + 6) {
            Some(j) => match string_at(s, j, false) {
                Some((name, k)) => match gap_end(s, k) {
                    Some(m) => {
                        proof {
                            lemma_body_end_bounds(s, j + 1, false);
                            lemma_blanks_end_bounds(s, k);
                        }
                        match source_at(s, m) {
                            Some((inner, end)) => Some(
                                (SourceExpr::Filter(name, Box::new(inner)), end),
                            ),
                            None => None,
                        }
                    },
                    None => None,
                },
                None => None,
            },
            None => None,
        }
    } else {
        None
    }
}

/// The statement at `i`, and the index just past the line break that ends it.
pub open spec fn statement_at(s: Seq<char>, i: int) -> Option<(Statement, int)> {
    match directive_at(s, i) {
        Some((kind, a)) => match gap_end(s, a) {
            Some(b) => match string_at(s, b, false) {
                Some((path, c)) => match gap_end(s, c) {
                    Some(d) => match source_at(s, d) {
                        Some((from, e)) => if e < s.len() && s[e] == '\n' {
                            Some((Statement { cond: None, kind, path, from }, e + 1))
                        } else {
                            None
                        },
                        None => None,
                    },
                    None => None,
                },
                None => None,
            },
            None => None,
        },
        None => None,
    }
}

/// A source clause ends after where it starts, and within the text.
pub proof fn lemma_source_at_bounds(s: Seq<char>, i: int)
    requires
        source_at(s, i) is Some,
    ensures
        0 <= i < source_at(s, i).unwrap().1 <= s.len(),
    decreases s.len() - i,
{
    if starts_with_at(s, i, kw_from()) {
        let j = gap_end(s, i + 4).unwrap();
        lemma_body_end_bounds(s, j + 1, false);
    } else if starts_with_at(s, i, kw_literal()) {
        let j = gap_end(s, i + 7).unwrap();
        lemma_body_end_bounds(s, j + 1, true);
    } else {
        let j = gap_end(s, i + 6).unwrap();
        lemma_body_end_bounds(s, j + 1, false);
        let k = string_at(s, j, false).unwrap().1;
        lemma_blanks_end_bounds(s, k);
        let m = gap_end(s, k).unwrap();
        lemma_source_at_bounds(s, m);
    }
}

/// A statement ends after where it starts, and within the text.
pub proof fn lemma_statement_at_bounds(s: Seq<char>, i: int)
    requires
        statement_at(s, i) is Some,
    ensures
        0 <= i < statement_at(s, i).unwrap().1 <= s.len(),
{
    let a = directive_at(s, i).unwrap().1;
    let b = gap_end(s, a).unwrap();
    lemma_body_end_bounds(s, b + 1, false);
    let c = string_at(s, b, false).unwrap().1;
    let d = gap_end(s, c).unwrap();
    lemma_source_at_bounds(s, d);
}

/// The statements from `i` to the end of the text, or the index of the first
/// that is malformed.
pub open spec fn statements_from(s: Seq<char>, i: int) -> Result<Seq<Statement>, int>
    decreases s.len() - i,
{
    if i < 0 || i >= s.len() {
        Ok(Seq::empty())
    } else {
        match statement_at(s, i) {
            Some((stmt, next)) => {
                proof {
                    lemma_statement_at_bounds(s, i);
                }
                match statements_from(s, next) {
                    Ok(rest) => Ok(seq![stmt] + rest),
                    Err(at) => Err(at),
                }
            },
            None => Err(i),
        }
    }
}

/// The number of line breaks in `s`.
pub open spec fn newlines(s: Seq<char>) -> nat
    decreases s.len(),
{
    if s.len() == 0 {
        0
    } else if s.last() == '\n' {
        newlines(s.drop_last()) + 1
    } else {
        newlines(s.drop_last())
    }
}

/// The line of `s` that index `i` is on, counted from 1.
pub open spec fn line_of(s: Seq<char>, i: int) -> nat {
    1 + newlines(s.take(i))
}

/// What a rules file says: its statements in order, or where its first
/// malformed statement starts.
pub open spec fn parse_spec(s: Seq<char>) -> Result<Seq<Statement>, ParseError> {
    match statements_from(s, 0) {
        Ok(stmts) => Ok(stmts),
        Err(at) => Err(ParseError { line: line_of(s, at) as usize, offset: at as usize }),
    }
}

/// `s` with a quote for each quote: what stands between the quotes of a
/// quoted string for `s`.
pub open spec fn doubled(s: Seq<char>) -> Seq<char>
    decreases s.len(),
{
    if s.len() == 0 {
        s
    } else if s[0] == '\'' {
        seq!['\'', '\''] + doubled(s.subrange(1, s.len() as int))
    } else {
        seq![s[0]] + doubled(s.subrange(1, s.len() as int))
    }
}

/// The quoted string for `s`.
pub open spec fn quote(s: Seq<char>) -> Seq<char> {
    seq!['\''] + doubled(s) + seq!['\'']
}

/// `blanks_end` stays between its start and the end of the text.
pub proof fn lemma_blanks_end_bounds(s: Seq<char>, i: int)
    requires
        0 <= i <= s.len(),
    ensures
        i <= blanks_end(s, i) <= s.len(),
        blanks_end(s, i) < s.len() ==> !is_space(s[blanks_end(s, i)]),
        forall|k: int| i <= k < blanks_end(s, i) ==> is_space(#[trigger] s[k]),
    decreases s.len() - i,
{
    if i < s.len() && is_space(s[i]) {
        lemma_blanks_end_bounds(s, i + 1);
    }
}

/// A quoted string that ends, ends after where its body starts and within
/// the text.
pub proof fn lemma_body_end_bounds(s: Seq<char>, i: int, multiline: bool)
    requires
        body_end(s, i, multiline) is Some,
    ensures
        0 <= i < body_end(s, i, multiline).unwrap() <= s.len(),
        s[body_end(s, i, multiline).unwrap() - 1] == '\'',
    decreases s.len() - i,
{
    if s[i] == '\'' {
        if i + 1 < s.len() && s[i + 1] == '\'' {
            lemma_body_end_bounds(s, i + 2, multiline);
        }
    } else {
        lemma_body_end_bounds(s, i + 1, multiline);
    }
}

/// Making doubled quotes single undoes doubling them.
pub proof fn lemma_collapse_doubled(s: Seq<char>)
    ensures
        collapse(doubled(s)) == s,
    decreases s.len(),
{
    if s.len() > 0 {
        let rest = s.subrange(1, s.len() as int);
        let d = doubled(s);
        lemma_collapse_doubled(rest);
        if s[0] == '\'' {
            assert(d.subrange(2, d.len() as int) =~= doubled(rest));
            assert(seq!['\''] + rest =~= s);
        } else {
            assert(d.subrange(1, d.len() as int) =~= doubled(rest));
            assert(seq![s[0]] + rest =~= s);
        }
    }
}

/// Where `doubled(s)` stands in `t` at `i` with one quote after it, and `s` has
/// no line break unless `multiline` allows it, the quoted string whose body
/// starts at `i` ends just past that quote.
pub proof fn lemma_body_end_of_doubled(t: Seq<char>, i: int, s: Seq<char>, multiline: bool)
    requires
        0 <= i,
        i + doubled(s).len() < t.len(),
        t.subrange(i, i + doubled(s).len()) == doubled(s),
        t[i + doubled(s).len()] == '\'',
        i + doubled(s).len() + 1 < t.len() ==> t[i + doubled(s).len() + 1] != '\'',
        multiline || !s.contains('\n'),
    ensures
        body_end(t, i, multiline) == Some(i + doubled(s).len() + 1),
    decreases s.len(),
{
    if s.len() > 0 {
        let rest = s.subrange(1, s.len() as int);
        let d = doubled(s);
        let step: int = if s[0] == '\'' { 2 } else { 1 };
        assert(d.len() == step + doubled(rest).len());
        assert(t[i] == d[0]);
        if s[0] == '\'' {
            assert(t[i + 1] == d[1]);
        }
        assert(t.subrange(i + step, i + step + doubled(rest).len()) =~= doubled(rest)) by {
            assert forall|k: int| 0 <= k < doubled(rest).len() implies t[i + step + k] == doubled(
                rest,
            )[k] by {
                assert(t[i + step + k] == d[step + k]);
            }
        }
        assert(multiline || !rest.contains('\n')) by {
            if rest.contains('\n') {
                let k = choose|k: int| 0 <= k < rest.len() && rest[k] == '\n';
                assert(s[k + 1] == '\n');
            }
        }
        if !multiline && s[0] == '\n' {
            assert(s.contains('\n'));
        }
        lemma_body_end_of_doubled(t, i + step, rest, multiline);
    }
}

/// Quoting round trip: where the quoted string for `s` stands in `t` at `i`
/// and no quote follows it, reading a quoted string at `i` gives `s` and ends
/// just past it. A `s` with a line break is read back only as the text of a
/// literal (`multiline`).
pub proof fn lemma_string_at_quote(t: Seq<char>, i: int, s: Seq<char>, multiline: bool)
    requires
        0 <= i,
        i + quote(s).len() <= t.len(),
        t.subrange(i, i + quote(s).len()) == quote(s),
        i + quote(s).len() < t.len() ==> t[i + quote(s).len()] != '\'',
        multiline || !s.contains('\n'),
    ensures
        string_at(t, i, multiline) == Some((s, i + quote(s).len())),
{
    let q = quote(s);
    let d = doubled(s);
    assert(q.len() == d.len() + 2);
    assert(t[i] == q[0]);
    assert(t[i + d.len() + 1] == q[d.len() as int + 1]);
    assert(t.subrange(i + 1, i + 1 + d.len()) =~= d) by {
        assert forall|k: int| 0 <= k < d.len() implies t[i + 1 + k] == d[k] by {
            assert(t[i + 1 + k] == q[1 + k]);
        }
    }
    lemma_body_end_of_doubled(t, i + 1, s, multiline);
    assert(t.subrange(i, i + q.len()).subrange(1, q.len() - 1) =~= d);
    lemma_collapse_doubled(s);
}

/// Quoting round trip: for a `s` without line break, the quoted string for
/// `s` (a quote, `s` with every quote doubled, a quote) reads back as `s`, all
/// of it.
pub proof fn lemma_quoting_round_trip(s: Seq<char>)
    requires
        !s.contains('\n'),
    ensures
        string_at(quote(s), 0, false) == Some((s, quote(s).len() as int)),
        unescape_spec(quote(s)) == s,
{
    assert(quote(s).subrange(0, quote(s).len() as int) =~= quote(s));
    lemma_string_at_quote(quote(s), 0, s, false);
}

/// Quoting round trip for the text of a literal: the quoted string for any
/// `s`, line breaks or not, reads back as `s`.
pub proof fn lemma_quoting_round_trip_text(s: Seq<char>)
    ensures
        string_at(quote(s), 0, true) == Some((s, quote(s).len() as int)),
        unescape_spec(quote(s)) == s,
{
    assert(quote(s).subrange(0, quote(s).len() as int) =~= quote(s));
    lemma_string_at_quote(quote(s), 0, s, true);
}

/// The keyword of the directive `kind`.
pub open spec fn keyword(kind: Directive) -> Seq<char> {
    match kind {
        Directive::Create => kw_create(),
        Directive::Append => kw_append(),
    }
}

/// A source clause for `expr`: keywords, one space between the words, and
/// quoted strings.
pub open spec fn source_text(expr: SourceExpr) -> Seq<char>
    decreases expr,
{
    match expr {
        SourceExpr::File(path) => kw_from() + seq![' '] + quote(path),
        SourceExpr::Literal(bytes) => kw_literal() + seq![' '] + quote(decode_utf8(bytes)),
        SourceExpr::Filter(name, inner) => kw_filter() + seq![' '] + quote(name) + seq![' ']
            + source_text(*inner),
    }
}

/// A line for `stmt`.
pub open spec fn statement_text(stmt: Statement) -> Seq<char> {
    keyword(stmt.kind) + seq![' '] + quote(stmt.path) + seq![' '] + source_text(stmt.from)
        + seq!['\n']
}

/// A rules file for `stmts`: a line for each, in order.
pub open spec fn file_text(stmts: Seq<Statement>) -> Seq<char>
    decreases stmts.len(),
{
    if stmts.len() == 0 {
        Seq::empty()
    } else {
        statement_text(stmts[0]) + file_text(stmts.drop_first())
    }
}

/// A source that a rules file can say: no line break in a path or in the name
/// of a filter, and literal bytes that are the UTF-8 of a text.
pub open spec fn writable_source(expr: SourceExpr) -> bool
    decreases expr,
{
    match expr {
        SourceExpr::File(path) => !path.contains('\n'),
        SourceExpr::Literal(bytes) => valid_utf8(bytes),
        SourceExpr::Filter(name, inner) => !name.contains('\n') && writable_source(*inner),
    }
}

/// A statement that a rules file can say: no condition, no line break in its
/// path, and a source that a rules file can say.
pub open spec fn writable(stmt: Statement) -> bool {
    stmt.cond is None && !stmt.path.contains('\n') && writable_source(stmt.from)
}

/// A text of two parts stands where its first part stands with its second
/// part after it.
pub proof fn lemma_starts_with_concat(s: Seq<char>, i: int, a: Seq<char>, b: Seq<char>)
    ensures
        starts_with_at(s, i, a + b) <==> starts_with_at(s, i, a) && starts_with_at(
            s,
            i + a.len(),
            b,
        ),
{
    if starts_with_at(s, i, a + b) {
        assert(s.subrange(i, i + a.len()) =~= a) by {
            assert forall|k: int| 0 <= k < a.len() implies s[i + k] == a[k] by {
                assert(s.subrange(i, i + (a + b).len())[k] == (a + b)[k]);
            }
        }
        assert(s.subrange(i + a.len(), i + a.len() + b.len()) =~= b) by {
            assert forall|k: int| 0 <= k < b.len() implies s[i + a.len() + k] == b[k] by {
                assert(s.subrange(i, i + (a + b).len())[a.len() + k] == (a + b)[a.len() + k]);
            }
        }
    }
    if starts_with_at(s, i, a) && starts_with_at(s, i + a.len(), b) {
        assert(s.subrange(i, i + (a + b).len()) =~= a + b) by {
            assert forall|k: int| 0 <= k < (a + b).len() implies s[i + k] == (a + b)[k] by {
                if k < a.len() {
                    assert(s.subrange(i, i + a.len())[k] == a[k]);
                } else {
                    assert(s.subrange(i + a.len(), i + a.len() + b.len())[k - a.len()] == b[k
                        - a.len()]);
                }
            }
        }
    }
}

/// The characters of a text that stands in `s` are those of `s` there.
proof fn lemma_starts_with_index(s: Seq<char>, i: int, word: Seq<char>, k: int)
    requires
        starts_with_at(s, i, word),
        0 <= k < word.len(),
    ensures
        s[i + k] == word[k],
{
    assert(s.subrange(i, i + word.len())[k] == word[k]);
}

/// One space before what is no blank is a gap of one.
proof fn lemma_gap_of_one_space(s: Seq<char>, i: int)
    requires
        0 <= i,
        i + 1 < s.len(),
        s[i] == ' ',
        !is_space(s[i + 1]),
    ensures
        gap_end(s, i) == Some(i + 1),
{
    reveal_with_fuel(blanks_end, 2);
}

/// The text of a source clause begins with a letter.
proof fn lemma_source_text_start(expr: SourceExpr)
    ensures
        source_text(expr).len() > 0,
        source_text(expr)[0] == 'f' || source_text(expr)[0] == 'l',
{
}

/// Round trip for a source clause: where the text for a writable `expr`
/// stands in `s` at `i` and no quote follows it, the source clause read at
/// `i` is `expr`, and ends where the text ends.
pub proof fn lemma_source_at_text(s: Seq<char>, i: int, expr: SourceExpr)
    requires
        writable_source(expr),
        starts_with_at(s, i, source_text(expr)),
        i + source_text(expr).len() < s.len() ==> s[i + source_text(expr).len()] != '\'',
    ensures
        source_at(s, i) == Some((expr, i + source_text(expr).len())),
    decreases expr,
{
    let text = source_text(expr);
    match expr {
        SourceExpr::File(path) => {
            let q = quote(path);
            lemma_starts_with_concat(s, i, kw_from() + seq![' '], q);
            lemma_starts_with_concat(s, i, kw_from(), seq![' ']);
            lemma_starts_with_index(s, i + 4, seq![' '], 0);
            lemma_starts_with_index(s, i + 5, q, 0);
            lemma_gap_of_one_space(s, i + 4);
            lemma_string_at_quote(s, i + 5, path, false);
        },
        SourceExpr::Literal(bytes) => {
            let q = quote(decode_utf8(bytes));
            lemma_starts_with_concat(s, i, kw_literal() + seq![' '], q);
            lemma_starts_with_concat(s, i, kw_literal(), seq![' ']);
            lemma_starts_with_index(s, i, kw_literal(), 0);
            assert(!starts_with_at(s, i, kw_from())) by {
                if starts_with_at(s, i, kw_from()) {
                    lemma_starts_with_index(s, i, kw_from(), 0);
                }
            }
            lemma_starts_with_index(s, i + 7, seq![' '], 0);
            lemma_starts_with_index(s, i + 8, q, 0);
            lemma_gap_of_one_space(s, i + 7);
            lemma_string_at_quote(s, i + 8, decode_utf8(bytes), true);
            decode_utf8_encode_utf8(bytes);
        },
        SourceExpr::Filter(name, inner) => {
            let q = quote(name);
            let rest = source_text(*inner);
            let head = kw_filter() + seq![' '] + q + seq![' '];
            lemma_starts_with_concat(s, i, head, rest);
            lemma_starts_with_concat(s, i, kw_filter() + seq![' '] + q, seq![' ']);
            lemma_starts_with_concat(s, i, kw_filter() + seq![' '], q);
            lemma_starts_with_concat(s, i, kw_filter(), seq![' ']);
            lemma_starts_with_index(s, i, kw_filter(), 0);
            lemma_starts_with_index(s, i, kw_filter(), 1);
            assert(!starts_with_at(s, i, kw_from())) by {
                if starts_with_at(s, i, kw_from()) {
                    lemma_starts_with_index(s, i, kw_from(), 1);
                }
            }
            assert(!starts_with_at(s, i, kw_literal())) by {
                if starts_with_at(s, i, kw_literal()) {
                    lemma_starts_with_index(s, i, kw_literal(), 0);
                }
            }
            lemma_starts_with_index(s, i + 6, seq![' '], 0);
            lemma_starts_with_index(s, i + 7, q, 0);
            lemma_gap_of_one_space(s, i + 6);
            let after = i + 7 + q.len();
            lemma_starts_with_index(s, after, seq![' '], 0);
            lemma_string_at_quote(s, i + 7, name, false);
            lemma_source_text_start(*inner);
            lemma_starts_with_index(s, after + 1, rest, 0);
            lemma_gap_of_one_space(s, after);
            lemma_source_at_text(s, after + 1, *inner);
        },
    }
}

/// Round trip for a statement: where the line for a writable `stmt` stands in
/// `s` at `i`, the statement read at `i` is `stmt`, and ends where the line
/// ends.
pub proof fn lemma_statement_at_text(s: Seq<char>, i: int, stmt: Statement)
    requires
        writable(stmt),
        starts_with_at(s, i, statement_text(stmt)),
    ensures
        statement_at(s, i) == Some((stmt, i + statement_text(stmt).len())),
{
    let word = keyword(stmt.kind);
    let q = quote(stmt.path);
    let source = source_text(stmt.from);
    let head = word + seq![' '] + q + seq![' '];
    lemma_starts_with_concat(s, i, head + source, seq!['\n']);
    lemma_starts_with_concat(s, i, head, source);
    lemma_starts_with_concat(s, i, word + seq![' '] + q, seq![' ']);
    lemma_starts_with_concat(s, i, word + seq![' '], q);
    lemma_starts_with_concat(s, i, word, seq![' ']);
    lemma_starts_with_index(s, i, word, 0);
    if stmt.kind == Directive::Append {
        assert(!starts_with_at(s, i, kw_create())) by {
            if starts_with_at(s, i, kw_create()) {
                lemma_starts_with_index(s, i, kw_create(), 0);
            }
        }
    }
    lemma_starts_with_index(s, i + 6, seq![' '], 0);
    lemma_starts_with_index(s, i + 7, q, 0);
    lemma_gap_of_one_space(s, i + 6);
    let after = i + 7 + q.len();
    lemma_starts_with_index(s, after, seq![' '], 0);
    lemma_string_at_quote(s, i + 7, stmt.path, false);
    lemma_source_text_start(stmt.from);
    lemma_starts_with_index(s, after + 1, source, 0);
    lemma_gap_of_one_space(s, after);
    lemma_starts_with_index(s, after + 1 + source.len(), seq!['\n'], 0);
    lemma_source_at_text(s, after + 1, stmt.from);
}

/// Round trip for the statements of a file: where the rules file for writable
/// `stmts` is what stands in `s` from `i` on, the statements read from `i`
/// are `stmts`.
pub proof fn lemma_statements_from_text(s: Seq<char>, i: int, stmts: Seq<Statement>)
    requires
        forall|k: int| 0 <= k < stmts.len() ==> writable(#[trigger] stmts[k]),
        starts_with_at(s, i, file_text(stmts)),
        i + file_text(stmts).len() == s.len(),
    ensures
        statements_from(s, i) == Ok::<Seq<Statement>, int>(stmts),
    decreases stmts.len(),
{
    if stmts.len() == 0 {
        assert(stmts =~= Seq::<Statement>::empty());
    } else {
        let first = stmts[0];
        let rest = stmts.drop_first();
        lemma_starts_with_concat(s, i, statement_text(first), file_text(rest));
        lemma_statement_at_text(s, i, first);
        assert forall|k: int| 0 <= k < rest.len() implies writable(#[trigger] rest[k]) by {
            assert(rest[k] == stmts[k + 1]);
        }
        lemma_statements_from_text(s, i + statement_text(first).len(), rest);
        assert(seq![first] + rest =~= stmts);
    }
}

/// Round trip: the rules file for statements that a rules file can say is
/// well-formed, and says those statements.
pub proof fn lemma_parse_file_text(stmts: Seq<Statement>)
    requires
        forall|k: int| 0 <= k < stmts.len() ==> writable(#[trigger] stmts[k]),
    ensures
        parse_spec(file_text(stmts)) == Ok::<Seq<Statement>, ParseError>(stmts),
{
    let text = file_text(stmts);
    assert(text.subrange(0, text.len() as int) =~= text);
    lemma_statements_from_text(text, 0, stmts);
}

} // verus!
