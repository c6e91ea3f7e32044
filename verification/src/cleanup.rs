//! What follows the removal of a clip folder.
//!
//! A clip folder lies in a folder named `video`, which lies in a container
//! folder. Once the clip folder is gone, the container goes too if three
//! gates let it, asked in this order: the parent exists and is named
//! `video`; no directory is left in the parent; the grandparent's name is
//! that of a container. The first gate that does not hold ends the matter.

use vstd::prelude::*;
use crate::grammar::{is_container, is_container_name};
use crate::scan::{DirEntryView, Listing};
use crate::text::same_text;

verus! {

/// The verdict on the container of a clip folder that was removed.
#[derive(Clone, Copy, Debug, PartialEq, Eq, Structural)]
pub enum CleanupDecision {
    /// The parent does not exist, or has no name, or another name than
    /// `video`.
    NotContainer,
    /// A directory is left in the parent.
    HasSiblings,
    /// The grandparent's name is not that of a container.
    NotContainerGrandparent,
    /// All three gates hold: the grandparent is to be removed with all it
    /// holds.
    Eligible,
}

/// The name of the folder that holds clip folders.
pub open spec fn video_name() -> Seq<char> {
    seq!['v', 'i', 'd', 'e', 'o']
}

/// The first gate: the parent exists and is named `video`.
pub open spec fn parent_gate(parent_name: Option<Seq<char>>, parent_exists: bool) -> bool {
    parent_exists && parent_name == Some(video_name())
}

/// Some entry is a directory.
pub open spec fn has_directory(entries: Seq<DirEntryView>) -> bool {
    exists|i: int| 0 <= i < entries.len() && (#[trigger] entries[i]).is_dir
}

/// The second gate: the parent holds no directory. A parent that exists
/// and cannot be read counts as empty.
pub open spec fn siblings_gate(remaining: Listing) -> bool {
    !has_directory(remaining.entries())
}

/// The third gate: the grandparent has the name of a container.
pub open spec fn grandparent_gate(grandparent_name: Option<Seq<char>>) -> bool {
    grandparent_name is Some && is_container(grandparent_name->0)
}

/// The verdict, from the parent's name, whether the parent exists, what is
/// left in it, and the grandparent's name.
pub open spec fn cascade(
    parent_name: Option<Seq<char>>,
    parent_exists: bool,
    remaining: Listing,
    grandparent_name: Option<Seq<char>>,
) -> CleanupDecision {
    if !parent_gate(parent_name, parent_exists) {
        CleanupDecision::NotContainer
    } else if !siblings_gate(remaining) {
        CleanupDecision::HasSiblings
    } else if !grandparent_gate(grandparent_name) {
        CleanupDecision::NotContainerGrandparent
    } else {
        CleanupDecision::Eligible
    }
}

/// Whether the first gate holds. Where it does not, the parent need not be
/// listed.
pub fn passes_parent_gate(parent_name: Option<&str>, parent_exists: bool) -> (r: bool)
    ensures
        r == parent_gate(parent_name.deep_view(), parent_exists),
{
    if !parent_exists {
        return false;
    }
    proof {
        reveal_strlit("video");
        assert("video"@ =~= video_name());
    }
    match parent_name {
        Some(name) => same_text(name, "video"),
        None => false,
    }
}

/// Whether the second gate holds.
pub fn passes_siblings_gate(remaining: &Listing) -> (r: bool)
    ensures
        r == siblings_gate(*remaining),
{
    match remaining {
        Listing::Unreadable => true,
        Listing::Entries(entries) => {
            let mut i: usize = 0;
            while i < entries.len()
                invariant
                    i <= entries.len(),
                    remaining.entries() == entries.deep_view(),
                    forall|j: int| 0 <= j < i ==> !(#[trigger] entries.deep_view()[j]).is_dir,
                decreases entries.len() - i,
            {
                if entries[i].is_dir {
                    assert(entries.deep_view()[i as int].is_dir);
                    return false;
                }
                i += 1;
            }
            true
        },
    }
}

/// Whether the third gate holds.
pub fn passes_grandparent_gate(grandparent_name: Option<&str>) -> (r: bool)
    ensures
        r == grandparent_gate(grandparent_name.deep_view()),
{
    match grandparent_name {
        Some(name) => is_container_name(name),
        None => false,
    }
}

/// Decides what becomes of the container once a clip folder has been
/// removed.
///
/// `parent_name` and `grandparent_name` are the last components of the
/// paths of the clip folder's parent and of that folder's parent, where
/// there are such; `parent_exists` says whether the parent is a directory
/// that is there; `remaining` is what the parent holds now.
pub fn cascade_decision(
    parent_name: Option<&str>,
    parent_exists: bool,
    remaining: &Listing,
    grandparent_name: Option<&str>,
) -> (r: CleanupDecision)
    ensures
        r == cascade(
            parent_name.deep_view(),
            parent_exists,
            *remaining,
            grandparent_name.deep_view(),
        ),
{
    if !passes_parent_gate(parent_name, parent_exists) {
        CleanupDecision::NotContainer
    } else if !passes_siblings_gate(remaining) {
        CleanupDecision::HasSiblings
    } else if !passes_grandparent_gate(grandparent_name) {
        CleanupDecision::NotContainerGrandparent
    } else {
        CleanupDecision::Eligible
    }
}

/// The container goes if and only if the parent exists and is named
/// `video`, no directory is left in it, and the grandparent has the name of
/// a container.
pub proof fn law_eligible_iff_all_gates(
    parent_name: Option<Seq<char>>,
    parent_exists: bool,
    remaining: Listing,
    grandparent_name: Option<Seq<char>>,
)
    ensures
        cascade(parent_name, parent_exists, remaining, grandparent_name)
            == CleanupDecision::Eligible <==> parent_exists && parent_name == Some(video_name())
            && !has_directory(remaining.entries()) && grandparent_name is Some && is_container(
            grandparent_name->0,
        ),
{
}

} // verus!
