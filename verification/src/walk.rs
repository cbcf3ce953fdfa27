//! Which entries of a directory tree a search for rules files looks at, and
//! which of them it keeps.
use vstd::prelude::*;
use crate::text::chars_of;

verus! {

/// The name that a rules file has.
pub open spec fn rules_name() -> Seq<char> {
    seq!['R', 'u', 'l', 'e', 's']
}

/// A name that begins with a dot.
pub open spec fn hidden(name: Seq<char>) -> bool {
    name.len() > 0 && name[0] == '.'
}

/// An entry that is a file and has the name of a rules file.
pub open spec fn names_rules(name: Option<Seq<char>>, is_dir: bool) -> bool {
    !is_dir && name == Some(rules_name())
}

/// An entry that the search looks at: one that is not hidden, or a rules
/// file. A name that is no text counts as not hidden.
pub open spec fn walked(name: Option<Seq<char>>, is_dir: bool) -> bool {
    match name {
        Some(text) => !hidden(text) || names_rules(name, is_dir),
        None => true,
    }
}

/// The value of a name that may be no text.
pub open spec fn name_of(name: Option<&str>) -> Option<Seq<char>> {
    match name {
        Some(text) => Some(text@),
        None => None,
    }
}

/// Whether an entry with the file name `name`, a directory or not, is a rules
/// file. `name` is none where the file name is no text.
pub fn is_rules(name: Option<&str>, is_dir: bool) -> (r: bool)
    ensures
        r == names_rules(name_of(name), is_dir),
{
    match name {
        Some(text) => {
            let chars = chars_of(text);
            let rules = ['R', 'u', 'l', 'e', 's'];
            assert(rules@ =~= rules_name());
            if is_dir || chars.len() != 5 {
                return false;
            }
            let mut k: usize = 0;
            while k < 5
                invariant
                    k <= 5,
                    chars.len() == 5,
                    name_of(name) == Some(chars@),
                    rules@ == rules_name(),
                    forall|i: int| 0 <= i < k ==> chars[i] == rules_name()[i],
                decreases 5 - k,
            {
                if chars[k] != rules[k] {
                    return false;
                }
                k += 1;
            }
            assert(chars@ =~= rules_name());
            true
        },
        None => false,
    }
}

/// Whether the search looks at an entry with the file name `name`, a
/// directory or not: a hidden directory is not entered and a hidden file is
/// passed over. `name` is none where the file name is no text.
pub fn filter_walk(name: Option<&str>, is_dir: bool) -> (r: bool)
    ensures
        r == walked(name_of(name), is_dir),
{
    match name {
        Some(text) => {
            let chars = chars_of(text);
            !(chars.len() > 0 && chars[0] == '.') || is_rules(name, is_dir)
        },
        None => true,
    }
}

/// A rules file is never passed over: the search looks at every entry that
/// it would keep.
pub proof fn lemma_rules_files_are_walked(name: Option<Seq<char>>, is_dir: bool)
    requires
        names_rules(name, is_dir),
    ensures
        walked(name, is_dir),
{
}

} // verus!
