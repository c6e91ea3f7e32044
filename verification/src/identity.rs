//! The display name of an application, from the manifests that the
//! metadata roots hold for it.
//!
//! Each root may hold a manifest for the application. The roots are asked
//! in their order, and the first manifest that gives a name decides: what a
//! later root holds is never looked at.

use vstd::prelude::*;
use crate::keyvalue::{first_value, name_key, parse_acf_name};
use crate::appid::AppId;
use crate::text::decimal_digits;

verus! {

/// The file name of the manifest of the application `appid`.
pub open spec fn manifest_name(appid: nat) -> Seq<char> {
    "appmanifest_"@ + decimal_digits(appid) + ".acf"@
}

/// The file name of the manifest of the application `appid`:
/// `appmanifest_`, the identifier in decimal, `.acf`.
pub fn manifest_file_name(appid: &AppId) -> (r: String)
    ensures
        r@ == manifest_name(appid@),
{
    let mut name = "appmanifest_".to_owned();
    name.append(appid.decimal().as_str());
    name.append(".acf");
    name
}

/// The name that one root gives: that of its manifest, where it has a
/// manifest that can be read and that holds a name.
pub open spec fn manifest_display_name(manifest: Option<Seq<char>>) -> Option<Seq<char>> {
    match manifest {
        Some(text) => first_value(text, name_key()),
        None => None,
    }
}

/// The name that the roots give, each root standing for its manifest: the
/// name of the first root from `from` on that gives one.
pub open spec fn resolved_from(manifests: Seq<Option<Seq<char>>>, from: int) -> Option<Seq<char>>
    decreases manifests.len() - from,
{
    if from < 0 || from >= manifests.len() {
        None
    } else if manifest_display_name(manifests[from]) is Some {
        manifest_display_name(manifests[from])
    } else {
        resolved_from(manifests, from + 1)
    }
}

/// The name that the roots give.
pub open spec fn resolved_name(manifests: Seq<Option<Seq<char>>>) -> Option<Seq<char>> {
    resolved_from(manifests, 0)
}

/// A lookup in progress: `asked` is the index of the root whose manifest is
/// awaited.
#[derive(Clone, Debug, PartialEq, Eq)]
pub struct NameLookup {
    pub asked: usize,
}

/// What the caller is to do next.
#[derive(Clone, Debug, PartialEq, Eq)]
pub enum LookupAction {
    /// Read the manifest under the root of this index and hand it to `step`.
    Read(usize),
    /// The lookup is over, with this name or with none.
    Done(Option<String>),
}

pub enum LookupActionView {
    Read(usize),
    Done(Option<Seq<char>>),
}

impl View for LookupAction {
    type V = LookupActionView;

    open spec fn view(&self) -> LookupActionView {
        match self {
            LookupAction::Read(i) => LookupActionView::Read(*i),
            LookupAction::Done(name) => LookupActionView::Done(name.deep_view()),
        }
    }
}

/// What follows when `manifest` answers the request for the root `asked`,
/// of `root_count` roots: its name if it gives one, else the next root, and
/// after the last root nothing.
pub open spec fn lookup_step(asked: usize, root_count: usize, manifest: Option<Seq<char>>) -> (
    usize,
    LookupActionView,
) {
    if manifest_display_name(manifest) is Some {
        (asked, LookupActionView::Done(manifest_display_name(manifest)))
    } else if asked + 1 < root_count {
        ((asked + 1) as usize, LookupActionView::Read((asked + 1) as usize))
    } else {
        (asked, LookupActionView::Done(None))
    }
}

impl NameLookup {
    /// Begins a lookup over `root_count` roots: the first root is asked
    /// first, and with no root there is no name.
    pub fn start(root_count: usize) -> (r: (NameLookup, LookupAction))
        ensures
            r.0.asked == 0,
            r.1@ == if root_count > 0 {
                LookupActionView::Read(0)
            } else {
                LookupActionView::Done(None)
            },
    {
        if root_count > 0 {
            (NameLookup { asked: 0 }, LookupAction::Read(0))
        } else {
            (NameLookup { asked: 0 }, LookupAction::Done(None))
        }
    }

    /// Takes the manifest under the root that was asked for (`None` where
    /// that root holds no such file, or one that cannot be read), and says
    /// what to do next.
    pub fn step(self, root_count: usize, manifest: Option<&str>) -> (r: (NameLookup, LookupAction))
        ensures
            (r.0.asked, r.1@) == lookup_step(self.asked, root_count, manifest.deep_view()),
    {
        let name = match manifest {
            Some(text) => parse_acf_name(text),
            None => None,
        };
        if name.is_some() {
            (self, LookupAction::Done(name))
        } else if self.asked < usize::MAX && self.asked + 1 < root_count {
            let next = self.asked + 1;
            (NameLookup { asked: next }, LookupAction::Read(next))
        } else {
            (self, LookupAction::Done(None))
        }
    }
}

/// The name that the lookup ends with when it stands at the root `asked`
/// and each root answers with its manifest.
pub open spec fn lookup_run(manifests: Seq<Option<Seq<char>>>, asked: usize) -> Option<Seq<char>>
    decreases manifests.len() - asked,
{
    if asked >= manifests.len() || manifests.len() > usize::MAX {
        None
    } else {
        match lookup_step(asked, manifests.len() as usize, manifests[asked as int]) {
            (_, LookupActionView::Done(name)) => name,
            (next, LookupActionView::Read(_)) => if asked < next {
                lookup_run(manifests, next)
            } else {
                None
            },
        }
    }
}

/// The display name of an application, from the manifest that each root
/// holds for it, the roots in their order: the name in the first manifest
/// that gives one.
pub fn resolve_app_name(manifests: &Vec<Option<String>>) -> (r: Option<String>)
    ensures
        r.deep_view() == resolved_name(manifests.deep_view()),
{
    let n = manifests.len();
    let (mut lookup, mut action) = NameLookup::start(n);
    loop
        invariant
            n == manifests.len(),
            lookup.asked <= n,
            match action@ {
                LookupActionView::Read(i) => i == lookup.asked && i < n && resolved_name(
                    manifests.deep_view(),
                ) == resolved_from(manifests.deep_view(), i as int),
                LookupActionView::Done(name) => name == resolved_name(manifests.deep_view()),
            },
        decreases
            n - lookup.asked,
            (if action is Read { 1int } else { 0int }),
    {
        match action {
            LookupAction::Done(name) => {
                return name;
            },
            LookupAction::Read(i) => {
                let text: Option<&str> = match &manifests[i] {
                    Some(s) => Some(s.as_str()),
                    None => None,
                };
                proof {
                    let all = manifests.deep_view();
                    assert(text.deep_view() == all[i as int]);
                    assert(manifest_display_name(all[i as int]) is None ==> resolved_from(
                        all,
                        i as int,
                    ) == resolved_from(all, i + 1));
                    assert(i + 1 >= n ==> resolved_from(all, i + 1) is None);
                }
                let next = lookup.step(n, text);
                lookup = next.0;
                action = next.1;
            },
        }
    }
}

/// The first root that gives a name decides, whatever the later roots hold.
pub proof fn law_first_root_wins(manifests: Seq<Option<Seq<char>>>, i: int)
    requires
        0 <= i < manifests.len(),
        manifest_display_name(manifests[i]) is Some,
        forall|j: int| 0 <= j < i ==> manifest_display_name(#[trigger] manifests[j]) is None,
    ensures
        resolved_name(manifests) == manifest_display_name(manifests[i]),
{
    lemma_resolved_skips(manifests, 0, i);
}

/// With no root that gives a name there is no name.
pub proof fn law_no_name_without_manifest(manifests: Seq<Option<Seq<char>>>)
    requires
        forall|j: int| 0 <= j < manifests.len() ==> manifest_display_name(#[trigger] manifests[j])
            is None,
    ensures
        resolved_name(manifests) is None,
{
    lemma_resolved_skips(manifests, 0, manifests.len() as int);
}

proof fn lemma_resolved_skips(manifests: Seq<Option<Seq<char>>>, from: int, to: int)
    requires
        0 <= from <= to <= manifests.len(),
        forall|j: int| from <= j < to ==> manifest_display_name(#[trigger] manifests[j]) is None,
    ensures
        resolved_from(manifests, from) == resolved_from(manifests, to),
    decreases to - from,
{
    if from < to {
        lemma_resolved_skips(manifests, from + 1, to);
    }
}

/// Step by step, the lookup ends with the name that the roots give.
pub proof fn law_lookup_run(manifests: Seq<Option<Seq<char>>>, asked: usize)
    requires
        manifests.len() <= usize::MAX,
    ensures
        lookup_run(manifests, asked) == resolved_from(manifests, asked as int),
    decreases manifests.len() - asked,
{
    if asked < manifests.len() {
        if manifest_display_name(manifests[asked as int]) is None && asked + 1 < manifests.len() {
            law_lookup_run(manifests, (asked + 1) as usize);
        }
    }
}

} // verus!
