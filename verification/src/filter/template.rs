//! Templates, and their rendering by trimmer.
//!
//! The templates that the library renders are plain: text with placeholders,
//! each `{{`, a name, `}}`, with spaces allowed around the name. A name is
//! made of ASCII letters, digits and `_`, begins with no digit, and is none
//! of the words that the template engine keeps for itself. Outside the
//! placeholders a plain template holds no `{{`, no `{#` and no `##`: those
//! open what the engine does besides substitution, and some of that makes it
//! abort.
use vstd::prelude::*;
use crate::filter::simple::{bindings, distinct};
use crate::text::chars_of;

verus! {

/// A character that a name may begin with.
pub open spec fn is_name_start(c: char) -> bool {
    ('a' <= c && c <= 'z') || ('A' <= c && c <= 'Z') || c == '_'
}

/// A character that a name may hold.
pub open spec fn is_name_char(c: char) -> bool {
    is_name_start(c) || ('0' <= c && c <= '9')
}

/// A word that the template engine keeps for itself.
pub open spec fn reserved(name: Seq<char>) -> bool {
    ||| name == seq!['a', 'n', 'd']
    ||| name == seq!['o', 'r']
    ||| name == seq!['n', 'o', 't']
    ||| name == seq!['f', 'o', 'r']
    ||| name == seq!['i', 'n']
    ||| name == seq!['e', 'n', 'd', 'f', 'o', 'r']
    ||| name == seq!['s', 'k', 'i', 'p']
    ||| name == seq!['i', 'f']
    ||| name == seq!['e', 'l', 'i', 'f']
    ||| name == seq!['e', 'l', 's', 'e']
    ||| name == seq!['e', 'n', 'd', 'i', 'f']
    ||| name == seq!['l', 'e', 't']
    ||| name == seq!['s', 'y', 'n', 't', 'a', 'x']
    ||| name == seq!['v', 'a', 'l', 'i', 'd', 'a', 't', 'e']
}

/// The index of the first character at or after `i` that is no space.
pub open spec fn spaces_end(s: Seq<char>, i: int) -> int
    decreases s.len() - i,
{
    if 0 <= i < s.len() && s[i] == ' ' {
        spaces_end(s, i + 1)
    } else {
        i
    }
}

/// The index of the first character at or after `i` that no name holds.
pub open spec fn name_end(s: Seq<char>, i: int) -> int
    decreases s.len() - i,
{
    if 0 <= i < s.len() && is_name_char(s[i]) {
        name_end(s, i + 1)
    } else {
        i
    }
}

/// The index just past the placeholder that opens at `i`, if one does.
pub open spec fn placeholder_end(s: Seq<char>, i: int) -> Option<int> {
    let name = spaces_end(s, i + 2);
    let after = name_end(s, name);
    let close = spaces_end(s, after);
    if 0 <= i && i + 1 < s.len() && s[i] == '{' && s[i + 1] == '{' && name < s.len()
        && is_name_start(s[name]) && !reserved(s.subrange(name, after)) && close + 1 < s.len()
        && s[close] == '}' && s[close + 1] == '}' {
        Some(close + 2)
    } else {
        None
    }
}

/// `s` is plain from `i` on.
pub open spec fn plain_from(s: Seq<char>, i: int) -> bool
    decreases s.len() - i,
{
    if i < 0 || i >= s.len() {
        true
    } else if i + 1 < s.len() && s[i] == '{' && s[i + 1] == '{' {
        match placeholder_end(s, i) {
            Some(end) => end > i && plain_from(s, end),
            None => false,
        }
    } else if i + 1 < s.len() && s[i] == '{' && s[i + 1] == '#' {
        false
    } else if i + 1 < s.len() && s[i] == '#' && s[i + 1] == '#' {
        false
    } else {
        plain_from(s, i + 1)
    }
}

/// `s` is a plain template.
pub open spec fn plain(s: Seq<char>) -> bool {
    plain_from(s, 0)
}

/// The name of the placeholder that opens at `i`.
pub open spec fn name_at(s: Seq<char>, i: int) -> Seq<char> {
    s.subrange(spaces_end(s, i + 2), name_end(s, spaces_end(s, i + 2)))
}

/// Each placeholder of the plain template `s` from `i` on names a variable
/// that `vars` binds.
pub open spec fn bound_from(vars: Map<Seq<char>, Seq<char>>, s: Seq<char>, i: int) -> bool
    decreases s.len() - i,
{
    if i < 0 || i >= s.len() {
        true
    } else if i + 1 < s.len() && s[i] == '{' && s[i + 1] == '{' {
        match placeholder_end(s, i) {
            Some(end) => end > i && vars.contains_key(name_at(s, i)) && bound_from(vars, s, end),
            None => true,
        }
    } else {
        bound_from(vars, s, i + 1)
    }
}

/// Each placeholder of the plain template `s` names a variable that `vars`
/// binds.
pub open spec fn bound(vars: Map<Seq<char>, Seq<char>>, s: Seq<char>) -> bool {
    bound_from(vars, s, 0)
}

/// A plain template whose placeholders all name variables, where none is
/// bound, holds no placeholder.
pub proof fn lemma_bound_by_nothing(s: Seq<char>, i: int, at: int)
    requires
        0 <= i <= at,
        at + 1 < s.len(),
        plain_from(s, i),
        bound_from(Map::empty(), s, i),
    ensures
        !(s[at] == '{' && s[at + 1] == '{'),
    decreases at - i,
{
    if i < at {
        lemma_bound_by_nothing(s, i + 1, at);
    }
}

/// What trimmer makes of the plain template `template` with the variables
/// `vars`: the rendered text, or nothing where it reports an error.
pub uninterp spec fn rendered_text(template: Seq<char>, vars: Map<Seq<char>, Seq<char>>) -> Option<Seq<char>>;

/// `trimmer::Parser::parse` and then `trimmer::Template::render`, with each
/// pair of `vars` set in a `trimmer::Context`: the rendered text, or nothing
/// where either reports an error. For a plain template the engine does
/// nothing but copy text and look names up, so the text depends on the
/// template and on what the names are bound to, and on nothing else.
#[verifier::external_body]
pub(crate) fn render(template: &str, vars: &Vec<(String, String)>) -> (r: Option<String>)
    requires
        plain(template@),
        bound(bindings(vars@), template@),
        distinct(vars@),
    ensures
        match r {
            Some(text) => rendered_text(template@, bindings(vars@)) == Some(text@),
            None => rendered_text(template@, bindings(vars@)) is None,
        },
{
    let mut context = trimmer::Context::new();
    for pair in vars.iter() {
        context.set(pair.0.as_str(), &pair.1);
    }
    match trimmer::Parser::new().parse(template) {
        Ok(parsed) => parsed.render(&context).ok(),
        Err(_) => None,
    }
}

/// Whether `c` may begin a name.
fn name_start(c: char) -> (r: bool)
    ensures
        r == is_name_start(c),
{
    (c >= 'a' && c <= 'z') || (c >= 'A' && c <= 'Z') || c == '_'
}

/// Whether a name may hold `c`.
fn name_char(c: char) -> (r: bool)
    ensures
        r == is_name_char(c),
{
    name_start(c) || (c >= '0' && c <= '9')
}

/// The index of the first character at or after `pos` that is no space.
fn skip_spaces(text: &[char], pos: usize) -> (end: usize)
    ensures
        end == spaces_end(text@, pos as int),
        pos <= end,
        pos <= text.len() ==> end <= text.len(),
{
    let mut i = pos;
    while i < text.len() && text[i] == ' '
        invariant
            pos <= i,
            pos <= text.len() ==> i <= text.len(),
            spaces_end(text@, pos as int) == spaces_end(text@, i as int),
        decreases text.len() - i,
    {
        i += 1;
    }
    i
}

/// The index of the first character at or after `pos` that no name holds.
fn skip_name(text: &[char], pos: usize) -> (end: usize)
    ensures
        end == name_end(text@, pos as int),
        pos <= end,
        pos <= text.len() ==> end <= text.len(),
{
    let mut i = pos;
    while i < text.len() && name_char(text[i])
        invariant
            pos <= i,
            pos <= text.len() ==> i <= text.len(),
            name_end(text@, pos as int) == name_end(text@, i as int),
        decreases text.len() - i,
    {
        i += 1;
    }
    i
}

/// Whether the characters of `text` from `lo` to `hi` are those of `word`.
fn word_is(text: &[char], lo: usize, hi: usize, word: &[char]) -> (r: bool)
    requires
        lo <= hi <= text.len(),
    ensures
        r == (text@.subrange(lo as int, hi as int) == word@),
{
    if hi - lo != word.len() {
        return false;
    }
    let mut k: usize = 0;
    while k < word.len()
        invariant
            k <= word.len(),
            lo <= hi <= text.len(),
            hi - lo == word.len(),
            forall|j: int| 0 <= j < k ==> text@[lo + j] == word@[j],
        decreases word.len() - k,
    {
        if text[lo + k] != word[k] {
            assert(text@.subrange(lo as int, hi as int)[k as int] != word@[k as int]);
            return false;
        }
        k += 1;
    }
    assert(text@.subrange(lo as int, hi as int) =~= word@);
    true
}

/// Whether the characters of `text` from `lo` to `hi` are a word that the
/// template engine keeps for itself.
fn is_reserved(text: &[char], lo: usize, hi: usize) -> (r: bool)
    requires
        lo <= hi <= text.len(),
    ensures
        r == reserved(text@.subrange(lo as int, hi as int)),
{
    let w_and = ['a', 'n', 'd'];
    let w_or = ['o', 'r'];
    let w_not = ['n', 'o', 't'];
    let w_for = ['f', 'o', 'r'];
    let w_in = ['i', 'n'];
    let w_endfor = ['e', 'n', 'd', 'f', 'o', 'r'];
    let w_skip = ['s', 'k', 'i', 'p'];
    let w_if = ['i', 'f'];
    let w_elif = ['e', 'l', 'i', 'f'];
    let w_else = ['e', 'l', 's', 'e'];
    let w_endif = ['e', 'n', 'd', 'i', 'f'];
    let w_let = ['l', 'e', 't'];
    let w_syntax = ['s', 'y', 'n', 't', 'a', 'x'];
    let w_validate = ['v', 'a', 'l', 'i', 'd', 'a', 't', 'e'];
    assert(w_and@ =~= seq!['a', 'n', 'd']);
    assert(w_or@ =~= seq!['o', 'r']);
    assert(w_not@ =~= seq!['n', 'o', 't']);
    assert(w_for@ =~= seq!['f', 'o', 'r']);
    assert(w_in@ =~= seq!['i', 'n']);
    assert(w_endfor@ =~= seq!['e', 'n', 'd', 'f', 'o', 'r']);
    assert(w_skip@ =~= seq!['s', 'k', 'i', 'p']);
    assert(w_if@ =~= seq!['i', 'f']);
    assert(w_elif@ =~= seq!['e', 'l', 'i', 'f']);
    assert(w_else@ =~= seq!['e', 'l', 's', 'e']);
    assert(w_endif@ =~= seq!['e', 'n', 'd', 'i', 'f']);
    assert(w_let@ =~= seq!['l', 'e', 't']);
    assert(w_syntax@ =~= seq!['s', 'y', 'n', 't', 'a', 'x']);
    assert(w_validate@ =~= seq!['v', 'a', 'l', 'i', 'd', 'a', 't', 'e']);
    word_is(text, lo, hi, w_and.as_slice()) || word_is(text, lo, hi, w_or.as_slice()) || word_is(
        text,
        lo,
        hi,
        w_not.as_slice(),
    ) || word_is(text, lo, hi, w_for.as_slice()) || word_is(text, lo, hi, w_in.as_slice())
        || word_is(text, lo, hi, w_endfor.as_slice()) || word_is(text, lo, hi, w_skip.as_slice())
        || word_is(text, lo, hi, w_if.as_slice()) || word_is(text, lo, hi, w_elif.as_slice())
        || word_is(text, lo, hi, w_else.as_slice()) || word_is(text, lo, hi, w_endif.as_slice())
        || word_is(text, lo, hi, w_let.as_slice()) || word_is(text, lo, hi, w_syntax.as_slice())
        || word_is(text, lo, hi, w_validate.as_slice())
}

/// The index just past the placeholder that opens at `pos`, if one does.
fn placeholder(text: &[char], pos: usize) -> (r: Option<usize>)
    requires
        pos + 1 < text.len(),
    ensures
        match r {
            Some(end) => placeholder_end(text@, pos as int) == Some(end as int) && end > pos,
            None => placeholder_end(text@, pos as int) is None,
        },
{
    if text[pos] != '{' || text[pos + 1] != '{' {
        return None;
    }
    let name = skip_spaces(text, pos + 2);
    if name >= text.len() || !name_start(text[name]) {
        return None;
    }
    let after = skip_name(text, name);
    if is_reserved(text, name, after) {
        return None;
    }
    let close = skip_spaces(text, after);
    if close >= text.len() || close + 1 >= text.len() || text[close] != '}' || text[close + 1]
        != '}' {
        return None;
    }
    Some(close + 2)
}

/// Whether `text` is a plain template.
pub fn is_plain(text: &[char]) -> (r: bool)
    ensures
        r == plain(text@),
{
    let mut i: usize = 0;
    while i < text.len()
        invariant
            plain(text@) == plain_from(text@, i as int),
        decreases text.len() - i,
    {
        if i + 1 < text.len() && text[i] == '{' && text[i + 1] == '{' {
            match placeholder(text, i) {
                Some(end) => {
                    i = end;
                },
                None => {
                    return false;
                },
            }
        } else if i + 1 < text.len() && text[i] == '{' && text[i + 1] == '#' {
            return false;
        } else if i + 1 < text.len() && text[i] == '#' && text[i + 1] == '#' {
            return false;
        } else {
            i += 1;
        }
    }
    true
}

/// The names that pairs bind are the names of the pairs.
proof fn lemma_bound_names(pairs: Seq<(String, String)>, name: Seq<char>)
    ensures
        bindings(pairs).contains_key(name) <==> exists|i: int|
            0 <= i < pairs.len() && (#[trigger] pairs[i]).0@ == name,
    decreases pairs.len(),
{
    if pairs.len() > 0 {
        let front = pairs.drop_last();
        lemma_bound_names(front, name);
        if exists|i: int| 0 <= i < front.len() && (#[trigger] front[i]).0@ == name {
            let i = choose|i: int| 0 <= i < front.len() && (#[trigger] front[i]).0@ == name;
            assert(pairs[i].0@ == name);
        }
        if pairs.last().0@ == name {
            assert(pairs[pairs.len() - 1].0@ == name);
        }
        if exists|i: int| 0 <= i < pairs.len() && (#[trigger] pairs[i]).0@ == name {
            let i = choose|i: int| 0 <= i < pairs.len() && (#[trigger] pairs[i]).0@ == name;
            if i < front.len() {
                assert(front[i].0@ == name);
            }
        }
    }
}

/// Whether `vars` binds the name that the characters of `text` from `lo` to
/// `hi` are.
fn binds(vars: &Vec<(String, String)>, text: &[char], lo: usize, hi: usize) -> (r: bool)
    requires
        lo <= hi <= text.len(),
    ensures
        r == bindings(vars@).contains_key(text@.subrange(lo as int, hi as int)),
{
    let ghost name = text@.subrange(lo as int, hi as int);
    let mut i: usize = 0;
    while i < vars.len()
        invariant
            i <= vars.len(),
            lo <= hi <= text.len(),
            name == text@.subrange(lo as int, hi as int),
            forall|k: int| 0 <= k < i ==> (#[trigger] vars[k]).0@ != name,
        decreases vars.len() - i,
    {
        let key = chars_of(vars[i].0.as_str());
        if word_is(text, lo, hi, key.as_slice()) {
            proof {
                lemma_bound_names(vars@, name);
            }
            return true;
        }
        i += 1;
    }
    proof {
        lemma_bound_names(vars@, name);
    }
    false
}

/// Whether each placeholder of the plain template `text` names a variable
/// that `vars` binds.
pub fn all_bound(text: &[char], vars: &Vec<(String, String)>) -> (r: bool)
    requires
        plain(text@),
    ensures
        r == bound(bindings(vars@), text@),
{
    let mut i: usize = 0;
    while i < text.len()
        invariant
            plain_from(text@, i as int),
            bound(bindings(vars@), text@) == bound_from(bindings(vars@), text@, i as int),
        decreases text.len() - i,
    {
        if i + 1 < text.len() && text[i] == '{' && text[i + 1] == '{' {
            match placeholder(text, i) {
                Some(end) => {
                    let name = skip_spaces(text, i + 2);
                    let after = skip_name(text, name);
                    if !binds(vars, text, name, after) {
                        return false;
                    }
                    i = end;
                },
                None => {
                    return true;
                },
            }
        } else {
            i += 1;
        }
    }
    true
}

} // verus!
