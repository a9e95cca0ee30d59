//! What the directory walk decides about each entry of a directory it
//! lists: skip it, report it as an artifact (and not descend into it), or
//! descend into it. Reading directories is left to the caller.

use vstd::prelude::*;
use crate::rules::{Rule, UserRules, match_dir, names_view, registered, spec_match_dir, str_eq};

verus! {

/// One entry of a directory listing, as far as the walk looks at it. Entries
/// whose names are not valid UTF-8 are left out of the listing; an entry
/// whose type cannot be read is neither a directory nor a file.
pub struct EntryInfo {
    pub name: String,
    pub is_dir: bool,
    pub is_file: bool,
}

/// What the walk does with one entry.
pub enum Visit<'a> {
    /// Not a directory, or a version-control directory: never touched.
    Skip,
    /// An artifact claimed by this rule; not descended into.
    Artifact(&'a Rule),
    /// An ordinary directory to walk into.
    Descend,
}

/// Version-control and similar directories that are never descended into or
/// touched.
pub open spec fn is_skip_dir(name: Seq<char>) -> bool {
    name == ".git"@ || name == ".hg"@ || name == ".svn"@
}

/// The names of the regular files of a listing, in listing order: the
/// siblings against which marker files are checked.
pub open spec fn sibling_names(entries: Seq<EntryInfo>) -> Seq<Seq<char>>
    decreases entries.len(),
{
    if entries.len() == 0 {
        Seq::<Seq<char>>::empty()
    } else {
        let rest = sibling_names(entries.drop_last());
        if entries.last().is_file {
            rest.push(entries.last().name@)
        } else {
            rest
        }
    }
}

/// `v` is what the walk does with entry `e` among `siblings`, with the user
/// rules `user`: files, links and version-control directories are skipped;
/// a directory that a rule claims is an artifact of the first such rule
/// (built-ins before user rules); any other directory is descended into.
pub open spec fn visit_of(v: Visit, e: EntryInfo, siblings: Seq<Seq<char>>, user: Seq<Rule>) -> bool {
    if !e.is_dir || is_skip_dir(e.name@) {
        v is Skip
    } else {
        match spec_match_dir(e.name@, siblings, user) {
            Some(rule) => v matches Visit::Artifact(r) && *r == rule,
            None => v is Descend,
        }
    }
}

/// Whether `name` is one of the directories the walk never enters.
pub fn skip_dir(name: &str) -> (r: bool)
    ensures
        r == is_skip_dir(name@),
{
    str_eq(name, ".git") || str_eq(name, ".hg") || str_eq(name, ".svn")
}

/// The names of the regular files of a listing.
pub fn siblings_of(entries: &Vec<EntryInfo>) -> (r: Vec<String>)
    ensures
        names_view(r@) == sibling_names(entries@),
{
    let mut r: Vec<String> = Vec::new();
    let mut i: usize = 0;
    while i < entries.len()
        invariant
            i <= entries@.len(),
            names_view(r@) == sibling_names(entries@.subrange(0, i as int)),
        decreases entries@.len() - i,
    {
        let ghost sub = entries@.subrange(0, i + 1);
        assert(sub.drop_last() =~= entries@.subrange(0, i as int));
        if entries[i].is_file {
            let ghost prev = r@;
            let name = entries[i].name.clone();
            r.push(name);
            assert(names_view(r@) =~= names_view(prev).push(entries@[i as int].name@));
        }
        i = i + 1;
    }
    assert(entries@.subrange(0, i as int) =~= entries@);
    r
}

/// Decide, for every entry of one directory listing, what the walk does
/// with it (see [`visit_of`]); the siblings are the listing's regular files.
pub fn classify<'a>(entries: &Vec<EntryInfo>, registry: &'a UserRules) -> (r: Vec<Visit<'a>>)
    ensures
        r@.len() == entries@.len(),
        forall|i: int|
            0 <= i < entries@.len() ==> visit_of(
                #[trigger] r@[i],
                entries@[i],
                sibling_names(entries@),
                registered(registry@),
            ),
{
    let siblings = siblings_of(entries);
    let mut r: Vec<Visit<'a>> = Vec::new();
    let mut i: usize = 0;
    while i < entries.len()
        invariant
            i <= entries@.len(),
            names_view(siblings@) == sibling_names(entries@),
            r@.len() == i,
            forall|k: int|
                0 <= k < i ==> visit_of(
                    #[trigger] r@[k],
                    entries@[k],
                    sibling_names(entries@),
                    registered(registry@),
                ),
        decreases entries@.len() - i,
    {
        let e = &entries[i];
        let v = if !e.is_dir || skip_dir(e.name.as_str()) {
            Visit::Skip
        } else {
            match match_dir(e.name.as_str(), &siblings, registry) {
                Some(rule) => Visit::Artifact(rule),
                None => Visit::Descend,
            }
        };
        r.push(v);
        i = i + 1;
    }
    r
}

} // verus!
