//! The interactive workflows' decision logic: parsing the bounded prompt
//! vocabularies and applying one decision to the store.
//!
//! Prompting itself is a blocking call that belongs to the caller; each
//! step here takes the line of input or the parsed decision as a plain
//! value, so the whole flow's effect on the store is verified.
use vstd::prelude::*;
use vstd::string::StrSliceExecFns;
use vstd::string::StringExecFns;
use crate::store::Store;
use crate::store::store_set;

verus! {

/// A yes/no answer to a prompt.
#[derive(Debug, Clone, Copy, PartialEq, Eq, Structural)]
pub enum Decision {
    Yes,
    No,
}

/// One decision of the review flow: replace the description, keep it, or
/// drop the entry.
#[derive(Debug)]
pub enum ReviewDecision {
    Update(String),
    Skip,
    Delete,
}

/// The two terminal states of the init flow.
#[derive(Debug, Clone, Copy, PartialEq, Eq, Structural)]
pub enum InitAction {
    CreateEmpty,
    AlreadyExists,
}

/// ASCII-case-insensitive equality of a character against a lower-case one.
pub open spec fn lower_eq(a: char, b: char) -> bool {
    a == b || (('A' as u32) <= a as u32 && a as u32 <= ('Z' as u32) && a as u32 + 32 == b as u32)
}

/// ASCII-case-insensitive match of `s` against the lower-case word `lit`.
pub open spec fn ci_matches(s: Seq<char>, lit: Seq<char>) -> bool {
    s.len() == lit.len() && (forall|i: int| 0 <= i < s.len() ==> lower_eq(s[i], #[trigger] lit[i]))
}

/// Whether `s` matches `lit` ASCII-case-insensitively.
fn ci_eq(s: &str, lit: &str) -> (r: bool)
    ensures
        r == ci_matches(s@, lit@),
{
    let n = s.unicode_len();
    if n != lit.unicode_len() {
        return false;
    }
    let mut i: usize = 0;
    while i < n
        invariant
            i <= n,
            n == s@.len(),
            n == lit@.len(),
            forall|j: int| 0 <= j < i ==> lower_eq(s@[j], #[trigger] lit@[j]),
        decreases n - i,
    {
        let a = s.get_char(i);
        let b = lit.get_char(i);
        let ok = a == b || (('A' as u32) <= (a as u32) && (a as u32) <= ('Z' as u32) && (a as u32)
            + 32 == (b as u32));
        if !ok {
            proof {
                assert(!lower_eq(s@[i as int], lit@[i as int]));
            }
            return false;
        }
        i = i + 1;
    }
    true
}

/// The yes/no answer a line of input denotes, if it is in the vocabulary.
pub open spec fn decision_of(s: Seq<char>) -> Option<Decision> {
    if ci_matches(s, ("y")@) || ci_matches(s, ("yes")@) || ci_matches(s, ("yes please")@) {
        Some(Decision::Yes)
    } else if ci_matches(s, ("n")@) || ci_matches(s, ("no")@) || ci_matches(s, ("no thanks")@) {
        Some(Decision::No)
    } else {
        None
    }
}

/// Parses a yes/no answer, case-insensitively; unrecognized input is `None`,
/// on which the caller re-prompts or falls back to its default.
pub fn parse_decision(s: &str) -> (r: Option<Decision>)
    ensures
        r == decision_of(s@),
{
    if ci_eq(s, "y") || ci_eq(s, "yes") || ci_eq(s, "yes please") {
        Some(Decision::Yes)
    } else if ci_eq(s, "n") || ci_eq(s, "no") || ci_eq(s, "no thanks") {
        Some(Decision::No)
    } else {
        None
    }
}

/// Parses one review decision: empty input skips, the exact literal `d`
/// deletes, and anything else becomes the new description, as given.
pub fn parse_review(s: &str) -> (r: ReviewDecision)
    ensures
        match r {
            ReviewDecision::Skip => s@.len() == 0,
            ReviewDecision::Delete => s@ == ("d")@,
            ReviewDecision::Update(t) => s@.len() > 0 && s@ != ("d")@ && t@ == s@,
        },
{
    if s.unicode_len() == 0 {
        ReviewDecision::Skip
    } else if crate::order::str_compare(s, "d") == crate::order::Cmp::Eq {
        ReviewDecision::Delete
    } else {
        ReviewDecision::Update(String::from_str(s))
    }
}

/// One step of the discovery pass, and of the single-path edit flow: a
/// non-empty input becomes the path's description; empty input never
/// mutates the store.
pub fn add_description(store: &mut Store, path: &str, input: &str) -> (changed: bool)
    requires
        old(store).wf(),
        path@.len() > 0,
    ensures
        final(store).wf(),
        changed == (input@.len() > 0),
        final(store)@ == if input@.len() > 0 {
            old(store)@.insert(path@, input@)
        } else {
            old(store)@
        },
{
    if input.unicode_len() > 0 {
        store.set(path, input);
        true
    } else {
        false
    }
}

/// One step of the staleness pass: on `Yes` the stale entry is removed and
/// the step reports a change; on `No` the store is left untouched.
pub fn apply_stale(store: &mut Store, path: &str, decision: Decision) -> (changed: bool)
    requires
        old(store).wf(),
    ensures
        final(store).wf(),
        changed == (decision == Decision::Yes),
        final(store)@ == if decision == Decision::Yes {
            old(store)@.remove(path@)
        } else {
            old(store)@
        },
{
    match decision {
        Decision::Yes => {
            store.remove(path);
            true
        },
        Decision::No => false,
    }
}

/// One step of the review flow: applies the decision for `path` and reports
/// whether the store changed.
pub fn apply_review(store: &mut Store, path: &str, decision: &ReviewDecision) -> (changed: bool)
    requires
        old(store).wf(),
        path@.len() > 0,
    ensures
        final(store).wf(),
        match decision {
            ReviewDecision::Skip => final(store)@ == old(store)@ && !changed,
            ReviewDecision::Delete => final(store)@ == old(store)@.remove(path@) && changed,
            ReviewDecision::Update(t) => final(store)@ == store_set(old(store)@, path@, t@)
                && changed,
        },
{
    match decision {
        ReviewDecision::Skip => false,
        ReviewDecision::Delete => {
            store.remove(path);
            true
        },
        ReviewDecision::Update(t) => {
            store.set(path, t.as_str());
            true
        },
    }
}

/// The init flow's decision: create an empty backing file only where none
/// exists.
pub fn init_action(store_file_exists: bool) -> (r: InitAction)
    ensures
        r == if store_file_exists {
            InitAction::AlreadyExists
        } else {
            InitAction::CreateEmpty
        },
{
    if store_file_exists {
        InitAction::AlreadyExists
    } else {
        InitAction::CreateEmpty
    }
}

/// The locator's decision: the nearest ancestor holding a store file, given
/// for each ancestor, nearest first, whether it holds one.
pub fn first_with_store(has_store: &Vec<bool>) -> (r: Option<usize>)
    ensures
        match r {
            Some(i) => i < has_store@.len() && has_store@[i as int] && (forall|j: int|
                0 <= j < i ==> !has_store@[j]),
            None => forall|j: int| 0 <= j < has_store@.len() ==> !has_store@[j],
        },
{
    let n = has_store.len();
    let mut i: usize = 0;
    while i < n
        invariant
            i <= n,
            n == has_store@.len(),
            forall|j: int| 0 <= j < i ==> !has_store@[j],
        decreases n - i,
    {
        if has_store[i] {
            return Some(i);
        }
        i = i + 1;
    }
    None
}

} // verus!
