//! Selection of directory entries by kind and by name patterns.
//!
//! The walk itself is I/O and stays with the caller; this module decides, for
//! one entry at a time, whether it is selected.  An entry passes when its kind
//! is among the requested kinds (or none were requested) and its file name
//! matches one of the requested patterns (or none were requested).  Pattern
//! matching is regular-expression matching, called through a trusted wrapper;
//! its verdict is a function of the pattern and the text alone.

use vstd::prelude::*;

verus! {

/// The kinds of directory entry that can be selected.
#[derive(Debug, PartialEq, Eq, Structural, Clone, Copy)]
pub enum EntryType {
    Dir,
    File,
    Link,
}

/// Whether `pattern` is a well-formed regular expression.
pub uninterp spec fn regex_parses(pattern: Seq<char>) -> bool;

/// Whether the regular expression `pattern` matches somewhere in `text`.
pub uninterp spec fn regex_match_of(pattern: Seq<char>, text: Seq<char>) -> bool;

/// Relies on `regex::Regex::new` and `regex::Regex::is_match`: compilation
/// succeeds or fails on the pattern text alone, and a compiled pattern
/// matches a haystack as a function of the two texts alone.  Returns `None`
/// when the pattern does not compile.
#[verifier::external_body]
fn regex_match(pattern: &str, text: &str) -> (r: Option<bool>)
    ensures
        r is Some <==> regex_parses(pattern@),
        r is Some ==> r->0 == regex_match_of(pattern@, text@),
{
    match regex::Regex::new(pattern) {
        Ok(re) => Some(re.is_match(text)),
        Err(_) => None,
    }
}

/// Whether an entry with the given kind flags is of kind `t`.
pub open spec fn kind_matches(t: EntryType, is_file: bool, is_dir: bool, is_link: bool) -> bool {
    match t {
        EntryType::File => is_file,
        EntryType::Dir => is_dir,
        EntryType::Link => is_link,
    }
}

/// Whether the entry kind passes the kind filter: no requested kinds, or one
/// of them applies.
pub open spec fn kind_selected_spec(
    kinds: Seq<EntryType>,
    is_file: bool,
    is_dir: bool,
    is_link: bool,
) -> bool {
    kinds.len() == 0 || exists|t: int|
        0 <= t < kinds.len() && kind_matches(kinds[t], is_file, is_dir, is_link)
}

/// Whether the file name passes the name filter: no patterns, or one of them
/// matches.
pub open spec fn name_selected_spec(patterns: Seq<Seq<char>>, name: Seq<char>) -> bool {
    patterns.len() == 0 || exists|p: int|
        0 <= p < patterns.len() && regex_match_of(patterns[p], name)
}

/// Decides the kind filter for one entry.
pub fn kind_selected(kinds: &Vec<EntryType>, is_file: bool, is_dir: bool, is_link: bool) -> (r:
    bool)
    ensures
        r == kind_selected_spec(kinds@, is_file, is_dir, is_link),
{
    if kinds.len() == 0 {
        return true;
    }
    let mut t: usize = 0;
    while t < kinds.len()
        invariant
            t <= kinds@.len(),
            forall|j: int| 0 <= j < t ==> !kind_matches(kinds@[j], is_file, is_dir, is_link),
        decreases kinds@.len() - t,
    {
        let hit = match kinds[t] {
            EntryType::File => is_file,
            EntryType::Dir => is_dir,
            EntryType::Link => is_link,
        };
        if hit {
            return true;
        }
        t = t + 1;
    }
    false
}

/// Decides the name filter for one entry; `None` when some pattern is not a
/// well-formed regular expression.
pub fn name_selected(patterns: &Vec<String>, name: &str) -> (r: Option<bool>)
    ensures
        r is Some <==> (forall|p: int|
            0 <= p < patterns@.len() ==> regex_parses(#[trigger] patterns@[p]@)),
        r is Some ==> r->0 == name_selected_spec(patterns.deep_view(), name@),
{
    let mut hit = false;
    let mut p: usize = 0;
    while p < patterns.len()
        invariant
            p <= patterns@.len(),
            forall|j: int| 0 <= j < p ==> regex_parses(#[trigger] patterns@[j]@),
            hit == exists|j: int|
                0 <= j < p && regex_match_of(#[trigger] patterns@[j]@, name@),
        decreases patterns@.len() - p,
    {
        match regex_match(patterns[p].as_str(), name) {
            None => {
                return None;
            },
            Some(m) => {
                if m {
                    hit = true;
                }
            },
        }
        p = p + 1;
    }
    proof {
        if hit {
            let j = choose|j: int|
                0 <= j < patterns@.len() && regex_match_of(#[trigger] patterns@[j]@, name@);
            assert(patterns.deep_view()[j] == patterns@[j]@);
            assert(regex_match_of(patterns.deep_view()[j], name@));
        } else {
            assert forall|j: int| 0 <= j < patterns.deep_view().len() implies !regex_match_of(
                #[trigger] patterns.deep_view()[j],
                name@,
            ) by {
                assert(patterns.deep_view()[j] == patterns@[j]@);
            }
        }
    }
    Some(patterns.len() == 0 || hit)
}

/// Decides whether one directory entry is selected: its kind passes the kind
/// filter and its file name passes the name filter.  `None` when some pattern
/// is not a well-formed regular expression.
pub fn entry_selected(
    kinds: &Vec<EntryType>,
    is_file: bool,
    is_dir: bool,
    is_link: bool,
    patterns: &Vec<String>,
    name: &str,
) -> (r: Option<bool>)
    ensures
        r is Some <==> (forall|p: int|
            0 <= p < patterns@.len() ==> regex_parses(#[trigger] patterns@[p]@)),
        r is Some ==> r->0 == (kind_selected_spec(kinds@, is_file, is_dir, is_link)
            && name_selected_spec(patterns.deep_view(), name@)),
{
    let kind_ok = kind_selected(kinds, is_file, is_dir, is_link);
    match name_selected(patterns, name) {
        None => None,
        Some(name_ok) => Some(kind_ok && name_ok),
    }
}

} // verus!
