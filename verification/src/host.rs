//! Which host a build is for, and the variables that its templates see.
//!
//! Two YAML texts say so: one maps machine identifiers to host names, the
//! other host names to variables.
//!
//! The YAML decoder recurses for each collection that is open at a place
//! of the text, and a deep enough text ends the process. A block collection
//! opens only at a column that nothing but blanks and the indicators `-`,
//! `?` and `:` stand before on its line, and a flow collection only at a
//! `[` or `{`. So a text is decoded only where it is shallow: where no line
//! begins with more than 64 blanks and indicators, and the text holds no
//! more than 64 opening brackets.
use vstd::prelude::*;
use std::collections::HashMap;
use crate::filter::simple::bindings;
use crate::text::chars_of;

verus! {

/// What `serde_yaml::from_str` makes of `text` as a map from strings to
/// strings; none where it reports an error.
pub uninterp spec fn yaml_names(text: Seq<char>) -> Option<Map<Seq<char>, Seq<char>>>;

/// What `serde_yaml::from_str` makes of `text` as a map from strings to maps
/// from strings to strings; none where it reports an error.
pub uninterp spec fn yaml_tables(text: Seq<char>) -> Option<
    Map<Seq<char>, Map<Seq<char>, Seq<char>>>,
>;

/// The tables that `tables` names. Of two with one name the later counts.
pub open spec fn sections(tables: Seq<(String, Vec<(String, String)>)>) -> Map<
    Seq<char>,
    Map<Seq<char>, Seq<char>>,
>
    decreases tables.len(),
{
    if tables.len() == 0 {
        Map::empty()
    } else {
        sections(tables.drop_last()).insert(tables.last().0@, bindings(tables.last().1@))
    }
}

/// A blank, or an indicator that opens a block collection.
pub open spec fn is_indicator(c: char) -> bool {
    c == ' ' || c == '\t' || c == '-' || c == '?' || c == ':'
}

/// A character that ends a line.
pub open spec fn is_break(c: char) -> bool {
    c == '\n' || c == '\r'
}

/// A character that opens a flow collection.
pub open spec fn is_opening(c: char) -> bool {
    c == '[' || c == '{'
}

/// The number of characters of its line that stand before index `i`, where
/// they are all blanks and indicators; none where another character stands
/// among them.
pub open spec fn lead(s: Seq<char>, i: int) -> Option<nat>
    decreases i,
{
    if i <= 0 || i > s.len() || is_break(s[i - 1]) {
        Some(0)
    } else if is_indicator(s[i - 1]) {
        match lead(s, i - 1) {
            Some(n) => Some(n + 1),
            None => None,
        }
    } else {
        None
    }
}

/// The number of opening brackets among the first `i` characters of `s`.
pub open spec fn opened(s: Seq<char>, i: int) -> nat
    decreases i,
{
    if i <= 0 || i > s.len() {
        0
    } else if is_opening(s[i - 1]) {
        opened(s, i - 1) + 1
    } else {
        opened(s, i - 1)
    }
}

/// No line of `s` begins with more than 64 blanks and indicators, and `s`
/// holds no more than 64 opening brackets.
pub open spec fn shallow(s: Seq<char>) -> bool {
    &&& opened(s, s.len() as int) <= 64
    &&& forall|i: int| 0 <= i <= s.len() && (#[trigger] lead(s, i)) is Some ==> lead(s, i)->0 <= 64
}

/// The opening brackets before an index are among those before a later one.
proof fn lemma_opened_grows(s: Seq<char>, i: int, j: int)
    requires
        0 <= i <= j <= s.len(),
    ensures
        opened(s, i) <= opened(s, j),
    decreases j - i,
{
    if i < j {
        lemma_opened_grows(s, i, j - 1);
    }
}

/// Whether `text` is shallow.
pub fn is_shallow(text: &str) -> (r: bool)
    ensures
        r == shallow(text@),
{
    let chars = chars_of(text);
    let mut run: Option<usize> = Some(0);
    let mut brackets: usize = 0;
    let mut i: usize = 0;
    while i < chars.len()
        invariant
            i <= chars.len(),
            chars@ == text@,
            brackets == opened(chars@, i as int),
            brackets <= 64,
            match run {
                Some(n) => lead(chars@, i as int) == Some(n as nat) && n <= 64,
                None => lead(chars@, i as int) is None,
            },
            forall|k: int|
                0 <= k <= i && (#[trigger] lead(chars@, k)) is Some ==> lead(chars@, k)->0 <= 64,
        decreases chars.len() - i,
    {
        let c = chars[i];
        if c == '[' || c == '{' {
            brackets += 1;
        }
        run = if c == '\n' || c == '\r' {
            Some(0)
        } else if c == ' ' || c == '\t' || c == '-' || c == '?' || c == ':' {
            match run {
                Some(n) => Some(n + 1),
                None => None,
            }
        } else {
            None
        };
        i += 1;
        if brackets > 64 {
            proof {
                lemma_opened_grows(chars@, i as int, chars@.len() as int);
            }
            return false;
        }
        match run {
            Some(n) => {
                if n > 64 {
                    assert(lead(chars@, i as int)->0 > 64);
                    return false;
                }
            },
            None => {},
        }
    }
    true
}

/// `serde_yaml::from_str` at the type `HashMap<String, String>`, for a
/// shallow text: the pairs of the map that it makes of `text`, in no order
/// that is promised, or nothing where it reports an error.
#[verifier::external_body]
fn decode_names(text: &str) -> (r: Option<Vec<(String, String)>>)
    requires
        shallow(text@),
    ensures
        match r {
            Some(pairs) => yaml_names(text@) == Some(bindings(pairs@)),
            None => yaml_names(text@) is None,
        },
{
    match serde_yaml::from_str::<HashMap<String, String>>(text) {
        Ok(map) => Some(map.into_iter().collect()),
        Err(_) => None,
    }
}

/// `serde_yaml::from_str` at the type
/// `HashMap<String, HashMap<String, String>>`, for a shallow text: the tables
/// of the map that it makes of `text`, each as its pairs, in no order that is
/// promised, or nothing where it reports an error.
#[verifier::external_body]
fn decode_tables(text: &str) -> (r: Option<Vec<(String, Vec<(String, String)>)>>)
    requires
        shallow(text@),
    ensures
        match r {
            Some(tables) => yaml_tables(text@) == Some(sections(tables@)),
            None => yaml_tables(text@) is None,
        },
{
    match serde_yaml::from_str::<HashMap<String, HashMap<String, String>>>(text) {
        Ok(map) => Some(
            map.into_iter().map(|(name, table)| (name, table.into_iter().collect())).collect(),
        ),
        Err(_) => None,
    }
}

/// The names that the YAML text `text` gives: what the decoder makes of a
/// shallow text, and nothing for any other.
pub open spec fn names_in(text: Seq<char>) -> Option<Map<Seq<char>, Seq<char>>> {
    if shallow(text) {
        yaml_names(text)
    } else {
        None
    }
}

/// The tables that the YAML text `text` gives: what the decoder makes of a
/// shallow text, and nothing for any other.
pub open spec fn tables_in(text: Seq<char>) -> Option<Map<Seq<char>, Map<Seq<char>, Seq<char>>>> {
    if shallow(text) {
        yaml_tables(text)
    } else {
        None
    }
}

/// The host name for `machine_id` among `names`, or the empty name where it
/// has none.
pub open spec fn named(names: Map<Seq<char>, Seq<char>>, machine_id: Seq<char>) -> Seq<char> {
    if names.contains_key(machine_id) {
        names[machine_id]
    } else {
        Seq::empty()
    }
}

/// The host that a build is for: the one asked for where one is, else the
/// one that `names` gives for this machine, else the empty name.
pub open spec fn host(
    asked: Option<Seq<char>>,
    machine_id: Seq<char>,
    names: Option<Map<Seq<char>, Seq<char>>>,
) -> Seq<char> {
    match asked {
        Some(name) => name,
        None => match names {
            Some(names) => named(names, machine_id),
            None => Seq::empty(),
        },
    }
}

/// The variables of the host `name`: its table where it has a name and a
/// table, and none otherwise.
pub open spec fn variables(
    name: Seq<char>,
    tables: Option<Map<Seq<char>, Map<Seq<char>, Seq<char>>>>,
) -> Map<Seq<char>, Seq<char>> {
    match tables {
        Some(tables) => if name.len() > 0 && tables.contains_key(name) {
            tables[name]
        } else {
            Map::empty()
        },
        None => Map::empty(),
    }
}

/// The value of a name that may not have been given.
pub open spec fn asked_of(asked: Option<String>) -> Option<Seq<char>> {
    match asked {
        Some(name) => Some(name@),
        None => None,
    }
}

/// A copy of `pairs`.
fn copy_pairs(pairs: &Vec<(String, String)>) -> (r: Vec<(String, String)>)
    ensures
        r@ == pairs@,
{
    let mut r: Vec<(String, String)> = Vec::new();
    let mut i: usize = 0;
    while i < pairs.len()
        invariant
            i <= pairs.len(),
            r@ == pairs@.take(i as int),
        decreases pairs.len() - i,
    {
        r.push((pairs[i].0.clone(), pairs[i].1.clone()));
        assert(pairs@.take(i + 1) =~= pairs@.take(i as int).push(pairs[i as int]));
        i += 1;
    }
    assert(pairs@.take(pairs.len() as int) =~= pairs@);
    r
}

/// The host name that `names` gives for `machine_id`, or the empty name.
pub fn name_for(names: &Vec<(String, String)>, machine_id: &str) -> (r: String)
    ensures
        r@ == named(bindings(names@), machine_id@),
{
    let key = machine_id.to_owned();
    let mut i: usize = names.len();
    assert(names@.take(i as int) =~= names@);
    while i > 0
        invariant
            i <= names.len(),
            key@ == machine_id@,
            named(bindings(names@), machine_id@) == named(
                bindings(names@.take(i as int)),
                machine_id@,
            ),
        decreases i,
    {
        assert(names@.take(i as int).drop_last() =~= names@.take(i - 1));
        i -= 1;
        if names[i].0 == key {
            return names[i].1.clone();
        }
    }
    String::new()
}

/// The variables that `tables` gives for the host `name`, as its table lists
/// them, or none where it gives none or the host has no name.
pub fn variables_for(
    tables: &Vec<(String, Vec<(String, String)>)>,
    name: &str,
) -> (r: Vec<(String, String)>)
    ensures
        bindings(r@) == variables(name@, Some(sections(tables@))),
{
    let key = name.to_owned();
    if name.unicode_len() == 0 {
        return Vec::new();
    }
    let mut i: usize = tables.len();
    assert(tables@.take(i as int) =~= tables@);
    while i > 0
        invariant
            i <= tables.len(),
            key@ == name@,
            name@.len() > 0,
            variables(name@, Some(sections(tables@))) == variables(
                name@,
                Some(sections(tables@.take(i as int))),
            ),
        decreases i,
    {
        assert(tables@.take(i as int).drop_last() =~= tables@.take(i - 1));
        i -= 1;
        if tables[i].0 == key {
            return copy_pairs(&tables[i].1);
        }
    }
    Vec::new()
}

/// The host that a build is for: `asked` where a name was asked for, else
/// the one that the YAML text `names` gives for `machine_id`, else the empty
/// name. A text that is not shallow gives no names.
pub fn host_name(asked: Option<String>, machine_id: &str, names: &str) -> (r: String)
    ensures
        r@ == host(asked_of(asked), machine_id@, names_in(names@)),
{
    match asked {
        Some(name) => name,
        None => {
            if !is_shallow(names) {
                return String::new();
            }
            match decode_names(names) {
                Some(pairs) => name_for(&pairs, machine_id),
                None => String::new(),
            }
        },
    }
}

/// The variables that the YAML text `tables` gives for the host `name`; none
/// where the text is not shallow or no such YAML, or has no table for the
/// host, or the host has no name.
pub fn host_variables(name: &str, tables: &str) -> (r: Vec<(String, String)>)
    ensures
        bindings(r@) == variables(name@, tables_in(tables@)),
{
    if !is_shallow(tables) {
        return Vec::new();
    }
    match decode_tables(tables) {
        Some(decoded) => variables_for(&decoded, name),
        None => Vec::new(),
    }
}

} // verus!
