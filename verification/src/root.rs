//! Which directory the inputs are looked up under.
//!
//! An override, where one is given, is the root and nothing is looked at.
//! Without one the root is found by walking up from the current directory:
//! the nearest directory, the current one included, that holds a directory
//! `data`. Where no directory on the way up holds one, the root is the
//! current directory itself.
//!
//! Asking for the current directory and looking into directories is left to
//! the caller. [`begin`] and [`advance`] decide one step at a time, so that a
//! caller looks no further than it must; [`repo_root`] decides at once from
//! what the caller has found on the whole way up.

use vstd::prelude::*;

verus! {

/// What is to be done next in the search for the root.
pub enum Walk<P> {
    /// Ask for the current directory and look at it first.
    Start,
    /// Look at this directory: does it hold `data`, and what is its parent?
    Probe(P),
    /// The search is over: this directory is the root.
    Found(P),
    /// The search is over and no directory held `data`: the root is the
    /// current directory.
    Fallback,
}

/// Where the nearest directory that holds `data` stands among the
/// `ancestors`, looking from place `from` on. The directories are listed
/// from the current one upwards, each with whether it holds `data`.
pub open spec fn nearest_with_data<P>(ancestors: Seq<(P, bool)>, from: int) -> Option<int>
    decreases ancestors.len() - from,
{
    if from < 0 || from >= ancestors.len() {
        None
    } else if ancestors[from].1 {
        Some(from)
    } else {
        nearest_with_data(ancestors, from + 1)
    }
}

/// The root: the override where there is one; else the nearest of the
/// `ancestors` that holds `data`, or the first of them, the current
/// directory, where none does. Without an override and without a current
/// directory there is no root.
pub open spec fn located<P>(override_root: Option<P>, ancestors: Seq<(P, bool)>) -> Option<P> {
    match override_root {
        Some(root) => Some(root),
        None => if ancestors.len() == 0 {
            None
        } else {
            match nearest_with_data(ancestors, 0) {
                Some(i) => Some(ancestors[i].0),
                None => Some(ancestors[0].0),
            }
        },
    }
}

/// What `advance` answers.
pub open spec fn advanced<P>(dir: P, holds_data: bool, parent: Option<P>) -> Walk<P> {
    if holds_data {
        Walk::Found(dir)
    } else {
        match parent {
            Some(p) => Walk::Probe(p),
            None => Walk::Fallback,
        }
    }
}

/// Where a search ends that looks at `ancestors[at]` next and goes on step
/// by step as `advance` says, the parent of each directory being the next
/// in the list.
pub open spec fn stepped<P>(ancestors: Seq<(P, bool)>, at: int) -> Walk<P>
    decreases ancestors.len() - at,
{
    if at < 0 || at >= ancestors.len() {
        Walk::Fallback
    } else {
        let parent = if at + 1 < ancestors.len() {
            Some(ancestors[at + 1].0)
        } else {
            None
        };
        match advanced(ancestors[at].0, ancestors[at].1, parent) {
            Walk::Probe(_) => stepped(ancestors, at + 1),
            end => end,
        }
    }
}

/// The first step of the search. An override is the root as it stands,
/// whatever the current directory is and whatever the override holds.
pub fn begin<P>(override_root: Option<P>) -> (walk: Walk<P>)
    ensures
        walk == match override_root {
            Some(root) => Walk::Found(root),
            None => Walk::Start,
        },
{
    match override_root {
        Some(root) => Walk::Found(root),
        None => Walk::Start,
    }
}

/// The step after a look at `dir`: `dir` is the root if it holds `data`;
/// otherwise its parent is looked at next, and without a parent the search
/// falls back on the current directory.
pub fn advance<P>(dir: P, holds_data: bool, parent: Option<P>) -> (walk: Walk<P>)
    ensures
        walk == advanced(dir, holds_data, parent),
{
    if holds_data {
        Walk::Found(dir)
    } else {
        match parent {
            Some(p) => Walk::Probe(p),
            None => Walk::Fallback,
        }
    }
}

/// The root, given the override and what lies on the way up from the
/// current directory: each directory, the current one first and each next
/// one the parent of the one before, with whether it holds `data`.
///
/// There is no root only where there is neither an override nor a current
/// directory.
pub fn repo_root<P>(override_root: Option<P>, ancestors: Vec<(P, bool)>) -> (root: Option<P>)
    ensures
        root == located(override_root, ancestors@),
{
    let mut ancestors = ancestors;
    let ghost all = ancestors@;
    match begin(override_root) {
        Walk::Found(root) => {
            return Some(root);
        },
        _ => {},
    }
    if ancestors.len() == 0 {
        return None;
    }
    let mut at: usize = 0;
    let mut settled: usize = 0;
    loop
        invariant
            ancestors@ == all,
            at < all.len(),
            nearest_with_data(all, at as int) == nearest_with_data(all, 0),
        ensures
            ancestors@ == all,
            settled < all.len(),
            located(None, all) == Some(all[settled as int].0),
        decreases all.len() - at,
    {
        let parent: Option<&P> = if at < ancestors.len() - 1 {
            Some(&ancestors[at + 1].0)
        } else {
            None
        };
        match advance(&ancestors[at].0, ancestors[at].1, parent) {
            Walk::Found(_) => {
                settled = at;
                break ;
            },
            Walk::Probe(_) => {
                at += 1;
            },
            _ => {
                assert(nearest_with_data(all, at + 1) is None);
                settled = 0;
                break ;
            },
        }
    }
    let (root, _) = ancestors.swap_remove(settled);
    Some(root)
}

/// An override is the root, whatever the current directory is and whatever
/// lies above it or under the override.
pub proof fn lemma_override_wins<P>(root: P, ancestors: Seq<(P, bool)>)
    ensures
        located(Some(root), ancestors) == Some(root),
{
}

/// Without an override the root is the directory that holds `data` while
/// none nearer to the current directory does.
pub proof fn lemma_walk_finds_nearest<P>(ancestors: Seq<(P, bool)>, i: int)
    requires
        0 <= i < ancestors.len(),
        ancestors[i].1,
        forall|j: int| 0 <= j < i ==> !(#[trigger] ancestors[j]).1,
    ensures
        located(None, ancestors) == Some(ancestors[i].0),
{
    lemma_nearest_from(ancestors, 0, i);
}

/// Without an override, and with no directory on the way up that holds
/// `data`, the root is the current directory.
pub proof fn lemma_walk_falls_back<P>(ancestors: Seq<(P, bool)>)
    requires
        ancestors.len() > 0,
        forall|j: int| 0 <= j < ancestors.len() ==> !(#[trigger] ancestors[j]).1,
    ensures
        located(None, ancestors) == Some(ancestors[0].0),
{
    lemma_nearest_none(ancestors, 0);
}

/// A search that goes step by step from the current directory ends on the
/// root: it finds the directory that `located` names, or falls back where
/// `located` names the current directory for want of any `data`.
pub proof fn lemma_steps_reach_the_root<P>(ancestors: Seq<(P, bool)>)
    requires
        ancestors.len() > 0,
    ensures
        match stepped(ancestors, 0) {
            Walk::Found(root) => located(None, ancestors) == Some(root),
            Walk::Fallback => nearest_with_data(ancestors, 0) is None && located(None, ancestors)
                == Some(ancestors[0].0),
            _ => false,
        },
{
    lemma_stepped_from(ancestors, 0);
}

/// A search that goes step by step from `ancestors[at]` ends on the nearest
/// directory from there on that holds `data`, and falls back where there is
/// none.
pub proof fn lemma_stepped_from<P>(ancestors: Seq<(P, bool)>, at: int)
    requires
        0 <= at < ancestors.len(),
    ensures
        stepped(ancestors, at) == match nearest_with_data(ancestors, at) {
            Some(i) => Walk::Found(ancestors[i].0),
            None => Walk::Fallback,
        },
    decreases ancestors.len() - at,
{
    if !ancestors[at].1 {
        if at + 1 < ancestors.len() {
            lemma_stepped_from(ancestors, at + 1);
        } else {
            assert(nearest_with_data(ancestors, at + 1) is None);
        }
    }
}

/// Looking from `from` on, the search stops at the first directory that
/// holds `data`.
pub proof fn lemma_nearest_from<P>(ancestors: Seq<(P, bool)>, from: int, i: int)
    requires
        0 <= from <= i < ancestors.len(),
        ancestors[i].1,
        forall|j: int| from <= j < i ==> !(#[trigger] ancestors[j]).1,
    ensures
        nearest_with_data(ancestors, from) == Some(i),
    decreases i - from,
{
    if from < i {
        lemma_nearest_from(ancestors, from + 1, i);
    }
}

/// Looking from `from` on, the search finds nothing where no directory
/// holds `data`.
pub proof fn lemma_nearest_none<P>(ancestors: Seq<(P, bool)>, from: int)
    requires
        0 <= from,
        forall|j: int| from <= j < ancestors.len() ==> !(#[trigger] ancestors[j]).1,
    ensures
        nearest_with_data(ancestors, from) is None,
    decreases ancestors.len() - from,
{
    if from < ancestors.len() {
        lemma_nearest_none(ancestors, from + 1);
    }
}

} // verus!
