//! The clip directory scanner, as a state machine that does no reading of
//! its own.
//!
//! The caller lists a directory and hands the listing in; the scanner
//! records the clip folders in it, decides which of the other directories
//! are to be listed next, and names the next one. A clip folder is a leaf:
//! nothing below it is ever asked for.

use vstd::prelude::*;
use crate::appid::AppId;
use crate::grammar::{
    classify, classify_name, clip_prefix, groups_fit, has_token_form, law_classify_clip,
    law_classify_zero, token_name, NameClass, NameClassView,
};
use crate::order::PathKeyed;
use crate::text::{all_digits, chars_of, decimal_value};

verus! {

/// One clip folder that the scan found.
#[derive(Clone, Debug, PartialEq, Eq)]
pub struct ClipRecord {
    /// The path of the folder.
    pub dir: String,
    /// The application that recorded the clip; never zero.
    pub appid: AppId,
    /// The day of the recording, eight digits.
    pub date: String,
    /// The time of the recording, six digits.
    pub time: String,
}

pub struct ClipRecordView {
    pub dir: Seq<char>,
    pub appid: nat,
    pub date: Seq<char>,
    pub time: Seq<char>,
}

impl ClipRecordView {
    /// What holds of every record that the scanner makes.
    pub open spec fn wf(self) -> bool {
        &&& self.appid > 0
        &&& self.date.len() == 8
        &&& all_digits(self.date)
        &&& self.time.len() == 6
        &&& all_digits(self.time)
    }
}

impl View for ClipRecord {
    type V = ClipRecordView;

    open spec fn view(&self) -> ClipRecordView {
        ClipRecordView { dir: self.dir@, appid: self.appid@, date: self.date@, time: self.time@ }
    }
}

impl DeepView for ClipRecord {
    type V = ClipRecordView;

    open spec fn deep_view(&self) -> ClipRecordView {
        self@
    }
}

/// One entry of a directory listing.
#[derive(Clone, Debug, PartialEq, Eq)]
pub struct DirEntry {
    /// The path of the entry.
    pub path: String,
    /// The last component of the path, where it has one that is text.
    pub name: Option<String>,
    /// Whether the entry is a directory.
    pub is_dir: bool,
}

pub struct DirEntryView {
    pub path: Seq<char>,
    pub name: Option<Seq<char>>,
    pub is_dir: bool,
}

impl View for DirEntry {
    type V = DirEntryView;

    open spec fn view(&self) -> DirEntryView {
        DirEntryView { path: self.path@, name: self.name.deep_view(), is_dir: self.is_dir }
    }
}

impl DeepView for DirEntry {
    type V = DirEntryView;

    open spec fn deep_view(&self) -> DirEntryView {
        self@
    }
}

/// What came of listing a directory.
#[derive(Clone, Debug, PartialEq, Eq)]
pub enum Listing {
    /// The directory could not be read.
    Unreadable,
    /// Its entries, in any order.
    Entries(Vec<DirEntry>),
}

impl Listing {
    /// The entries that the listing holds; none where the directory could
    /// not be read.
    pub open spec fn entries(self) -> Seq<DirEntryView> {
        match self {
            Listing::Unreadable => Seq::empty(),
            Listing::Entries(v) => v.deep_view(),
        }
    }
}

/// The record that an entry gives: one for a directory whose name is that
/// of a clip folder, none for anything else.
pub open spec fn entry_record(e: DirEntryView) -> Option<ClipRecordView> {
    if e.is_dir && e.name is Some {
        match classify(e.name->0) {
            NameClassView::Clip(c) => Some(
                ClipRecordView { dir: e.path, appid: c.appid, date: c.date, time: c.time },
            ),
            _ => None,
        }
    } else {
        None
    }
}

/// Whether the scan goes on below an entry: it does for a directory whose
/// name is not of the clip form, or is no text at all.
pub open spec fn entry_descends(e: DirEntryView) -> bool {
    e.is_dir && (e.name is None || classify(e.name->0) is Other)
}

/// The records that a listing gives, in its order.
pub open spec fn records_of(entries: Seq<DirEntryView>) -> Seq<ClipRecordView>
    decreases entries.len(),
{
    if entries.len() == 0 {
        Seq::empty()
    } else {
        let rest = records_of(entries.drop_last());
        match entry_record(entries.last()) {
            Some(r) => rest.push(r),
            None => rest,
        }
    }
}

/// The directories of a listing below which the scan goes on, in its order.
pub open spec fn subdirs_of(entries: Seq<DirEntryView>) -> Seq<Seq<char>>
    decreases entries.len(),
{
    if entries.len() == 0 {
        Seq::empty()
    } else {
        let rest = subdirs_of(entries.drop_last());
        if entry_descends(entries.last()) {
            rest.push(entries.last().path)
        } else {
            rest
        }
    }
}

/// A scan in progress.
#[derive(Clone, Debug, PartialEq, Eq)]
pub struct ScanState {
    /// The directories that are still to be listed; the last one is next.
    pub pending: Vec<String>,
    /// The clip folders found so far.
    pub found: Vec<ClipRecord>,
    /// Whether the listing that is awaited is that of the root.
    pub at_root: bool,
}

pub struct ScanStateView {
    pub pending: Seq<Seq<char>>,
    pub found: Seq<ClipRecordView>,
    pub at_root: bool,
}

impl View for ScanState {
    type V = ScanStateView;

    open spec fn view(&self) -> ScanStateView {
        ScanStateView {
            pending: self.pending.deep_view(),
            found: self.found.deep_view(),
            at_root: self.at_root,
        }
    }
}

/// What the caller is to do next.
#[derive(Clone, Debug, PartialEq, Eq)]
pub enum ScanAction {
    /// List this directory and hand the listing to `step`.
    List(String),
    /// The scan is over; these are the clip folders, in no particular order.
    Done(Vec<ClipRecord>),
    /// The root could not be read: the scan has failed.
    Failed,
}

pub enum ScanActionView {
    List(Seq<char>),
    Done(Seq<ClipRecordView>),
    Failed,
}

impl View for ScanAction {
    type V = ScanActionView;

    open spec fn view(&self) -> ScanActionView {
        match self {
            ScanAction::List(p) => ScanActionView::List(p@),
            ScanAction::Done(v) => ScanActionView::Done(v.deep_view()),
            ScanAction::Failed => ScanActionView::Failed,
        }
    }
}

/// Every record of `records` is well formed.
pub open spec fn all_wf(records: Seq<ClipRecordView>) -> bool {
    forall|i: int| 0 <= i < records.len() ==> (#[trigger] records[i]).wf()
}

/// The state at rest, with nothing pending and nothing found.
pub open spec fn idle() -> ScanStateView {
    ScanStateView { pending: Seq::empty(), found: Seq::empty(), at_root: false }
}

/// The state and the action that follow when a listing answers the last
/// `List` action: `unreadable` says that the directory could not be read,
/// and `entries` is what it holds, nothing where it could not be read.
///
/// An unreadable root ends the scan in failure; any other unreadable
/// directory counts as empty. The records of the listing join those found,
/// its directories to look into join those pending, and the last of the
/// pending is asked for next. With none pending the scan is done.
pub open spec fn step_view(s: ScanStateView, unreadable: bool, entries: Seq<DirEntryView>) -> (
    ScanStateView,
    ScanActionView,
) {
    if s.at_root && unreadable {
        (idle(), ScanActionView::Failed)
    } else {
        let found = s.found + records_of(entries);
        let pending = s.pending + subdirs_of(entries);
        if pending.len() == 0 {
            (idle(), ScanActionView::Done(found))
        } else {
            (
                ScanStateView { pending: pending.drop_last(), found, at_root: false },
                ScanActionView::List(pending.last()),
            )
        }
    }
}

/// The state and the action that follow when `listing` answers the last
/// `List` action.
pub open spec fn step_spec(s: ScanStateView, listing: Listing) -> (ScanStateView, ScanActionView) {
    step_view(s, listing is Unreadable, listing.entries())
}

impl ScanState {
    /// Begins a scan below `root`: the first thing to list is the root.
    pub fn start(root: String) -> (r: (ScanState, ScanAction))
        ensures
            r.0@ == (ScanStateView { pending: Seq::empty(), found: Seq::empty(), at_root: true }),
            r.1@ == ScanActionView::List(root@),
    {
        let state = ScanState { pending: Vec::new(), found: Vec::new(), at_root: true };
        assert(state.pending.deep_view() =~= Seq::empty());
        assert(state.found.deep_view() =~= Seq::empty());
        (state, ScanAction::List(root))
    }

    /// Takes the listing of the directory that the last action asked for,
    /// and says what to do next.
    pub fn step(self, listing: &Listing) -> (r: (ScanState, ScanAction))
        ensures
            (r.0@, r.1@) == step_spec(self@, *listing),
            all_wf(self@.found) ==> all_wf(r.0@.found) && (r.1@ matches ScanActionView::Done(v)
                ==> all_wf(v)),
    {
        let mut state = self;
        match listing {
            Listing::Unreadable => {
                if state.at_root {
                    return (ScanState::rest(), ScanAction::Failed);
                }
                assert(state.found.deep_view() + records_of(listing.entries())
                    =~= state.found.deep_view());
                assert(state.pending.deep_view() + subdirs_of(listing.entries())
                    =~= state.pending.deep_view());
            },
            Listing::Entries(entries) => {
                state.absorb(entries);
            },
        }
        proof {
            lemma_records_wf(listing.entries());
        }
        state.advance()
    }

    fn rest() -> (r: ScanState)
        ensures
            r@ == idle(),
    {
        let state = ScanState { pending: Vec::new(), found: Vec::new(), at_root: false };
        assert(state.pending.deep_view() =~= Seq::empty());
        assert(state.found.deep_view() =~= Seq::empty());
        state
    }

    fn absorb(&mut self, entries: &Vec<DirEntry>)
        ensures
            final(self)@.found == old(self)@.found + records_of(entries.deep_view()),
            final(self)@.pending == old(self)@.pending + subdirs_of(entries.deep_view()),
            final(self).at_root == old(self).at_root,
    {
        let ghost all = entries.deep_view();
        let ghost found0 = self@.found;
        let ghost pending0 = self@.pending;
        let mut i: usize = 0;
        assert(all.take(0) =~= Seq::empty());
        while i < entries.len()
            invariant
                i <= entries.len(),
                all == entries.deep_view(),
                self@.found == found0 + records_of(all.take(i as int)),
                self@.pending == pending0 + subdirs_of(all.take(i as int)),
                self.at_root == old(self).at_root,
            decreases entries.len() - i,
        {
            let e = &entries[i];
            proof {
                assert(all.take(i + 1).drop_last() =~= all.take(i as int));
                assert(all.take(i + 1).last() == e@);
            }
            let ghost found1 = self@.found;
            let ghost pending1 = self@.pending;
            if e.is_dir {
                match &e.name {
                    Some(name) => {
                        match classify_name(name.as_str()) {
                            NameClass::Clip(c) => {
                                let rec = ClipRecord {
                                    dir: e.path.clone(),
                                    appid: c.appid,
                                    date: c.date,
                                    time: c.time,
                                };
                                self.found.push(rec);
                                assert(self@.found =~= found1.push(entry_record(e@)->0));
                            },
                            NameClass::Rejected => {},
                            NameClass::Other => {
                                self.pending.push(e.path.clone());
                                assert(self@.pending =~= pending1.push(e@.path));
                            },
                        }
                    },
                    None => {
                        self.pending.push(e.path.clone());
                        assert(self@.pending =~= pending1.push(e@.path));
                    },
                }
            }
            i += 1;
        }
        assert(all.take(entries.len() as int) =~= all);
    }

    fn advance(self) -> (r: (ScanState, ScanAction))
        ensures
            self@.pending.len() == 0 ==> r.0@ == idle() && r.1@ == ScanActionView::Done(
                self@.found,
            ),
            self@.pending.len() > 0 ==> r.0@ == (ScanStateView {
                pending: self@.pending.drop_last(),
                found: self@.found,
                at_root: false,
            }) && r.1@ == ScanActionView::List(self@.pending.last()),
    {
        let mut state = self;
        match state.pending.pop() {
            Some(next) => {
                state.at_root = false;
                assert(state.pending.deep_view() =~= self@.pending.drop_last());
                (state, ScanAction::List(next))
            },
            None => (ScanState::rest(), ScanAction::Done(state.found)),
        }
    }
}

/// The records of a listing are well formed.
pub proof fn lemma_records_wf(entries: Seq<DirEntryView>)
    ensures
        all_wf(records_of(entries)),
    decreases entries.len(),
{
    if entries.len() > 0 {
        lemma_records_wf(entries.drop_last());
    }
}

/// A directory below the root that cannot be read ends nothing and loses
/// nothing: the scan goes on with the next pending directory, or is done
/// with what it has found.
pub proof fn law_unreadable_is_passed_over(s: ScanStateView)
    requires
        !s.at_root,
    ensures
        step_spec(s, Listing::Unreadable) == if s.pending.len() == 0 {
            (idle(), ScanActionView::Done(s.found))
        } else {
            (
                ScanStateView { pending: s.pending.drop_last(), found: s.found, at_root: false },
                ScanActionView::List(s.pending.last()),
            )
        },
{
    let none = Listing::Unreadable.entries();
    assert(s.found + records_of(none) =~= s.found);
    assert(s.pending + subdirs_of(none) =~= s.pending);
}

/// What two listings give together is what each gives, one after the other.
pub proof fn law_listing_concat(a: Seq<DirEntryView>, b: Seq<DirEntryView>)
    ensures
        records_of(a + b) == records_of(a) + records_of(b),
        subdirs_of(a + b) == subdirs_of(a) + subdirs_of(b),
    decreases b.len(),
{
    if b.len() == 0 {
        assert(a + b =~= a);
        assert(records_of(a) + records_of(b) =~= records_of(a));
        assert(subdirs_of(a) + subdirs_of(b) =~= subdirs_of(a));
    } else {
        law_listing_concat(a, b.drop_last());
        assert((a + b).drop_last() =~= a + b.drop_last());
        assert((a + b).last() == b.last());
        assert(records_of(a + b) =~= records_of(a) + records_of(b));
        assert(subdirs_of(a + b) =~= subdirs_of(a) + subdirs_of(b));
    }
}

/// What a listing of one entry gives.
proof fn lemma_single_entry(e: DirEntryView)
    ensures
        records_of(seq![e]) == match entry_record(e) {
            Some(r) => seq![r],
            None => Seq::empty(),
        },
        subdirs_of(seq![e]) == if entry_descends(e) {
            seq![e.path]
        } else {
            Seq::empty()
        },
{
    let one = seq![e];
    assert(one.drop_last() =~= Seq::<DirEntryView>::empty());
    assert(one.last() == e);
    assert(records_of(one.drop_last()) =~= Seq::<ClipRecordView>::empty());
    assert(subdirs_of(one.drop_last()) =~= Seq::<Seq<char>>::empty());
    match entry_record(e) {
        Some(r) => {
            assert(records_of(one) =~= seq![r]);
        },
        None => {},
    }
    if entry_descends(e) {
        assert(subdirs_of(one) =~= seq![e.path]);
    }
}

/// The entry of a directory at `path` whose name is made of the clip prefix
/// and the three groups.
pub open spec fn clip_entry(
    path: Seq<char>,
    id: Seq<char>,
    date: Seq<char>,
    time: Seq<char>,
) -> DirEntryView {
    DirEntryView { path, name: Some(token_name(clip_prefix(), id, date, time)), is_dir: true }
}

/// A directory whose name is of the clip form, with an identifier that is
/// not zero, gives exactly one record wherever it stands in a listing: its
/// path, the identifier's value, however large, and the date and the time
/// as the name spells them.
pub proof fn law_clip_recorded_once(
    before: Seq<DirEntryView>,
    after: Seq<DirEntryView>,
    path: Seq<char>,
    id: Seq<char>,
    date: Seq<char>,
    time: Seq<char>,
)
    requires
        groups_fit(id, date, time),
        decimal_value(id) > 0,
    ensures
        records_of(before + seq![clip_entry(path, id, date, time)] + after) == records_of(before)
            + seq![ClipRecordView { dir: path, appid: decimal_value(id), date, time }]
            + records_of(after),
{
    let e = clip_entry(path, id, date, time);
    law_classify_clip(id, date, time);
    law_listing_concat(before, seq![e]);
    law_listing_concat(before + seq![e], after);
    lemma_single_entry(e);
}

/// A directory whose name is of the clip form with the identifier zero
/// gives no record, wherever it stands in a listing.
pub proof fn law_zero_id_not_recorded(
    before: Seq<DirEntryView>,
    after: Seq<DirEntryView>,
    path: Seq<char>,
    id: Seq<char>,
    date: Seq<char>,
    time: Seq<char>,
)
    requires
        groups_fit(id, date, time),
        decimal_value(id) == 0,
    ensures
        records_of(before + seq![clip_entry(path, id, date, time)] + after) == records_of(before)
            + records_of(after),
{
    let e = clip_entry(path, id, date, time);
    law_classify_zero(id, date, time);
    law_listing_concat(before, seq![e]);
    law_listing_concat(before + seq![e], after);
    lemma_single_entry(e);
    assert(records_of(before) + records_of(seq![e]) =~= records_of(before));
}

/// A directory whose name is of the clip form is a leaf: wherever it stands
/// in a listing, it adds nothing to the directories that are listed next.
pub proof fn law_clips_are_leaves(
    before: Seq<DirEntryView>,
    after: Seq<DirEntryView>,
    e: DirEntryView,
)
    requires
        e.is_dir,
        e.name is Some,
        has_token_form(clip_prefix(), e.name->0),
    ensures
        subdirs_of(before + seq![e] + after) == subdirs_of(before) + subdirs_of(after),
{
    law_listing_concat(before, seq![e]);
    law_listing_concat(before + seq![e], after);
    lemma_single_entry(e);
    assert(subdirs_of(before) + subdirs_of(seq![e]) =~= subdirs_of(before));
}

impl PathKeyed for ClipRecord {
    open spec fn path_key(&self) -> Seq<char> {
        self.dir@
    }

    fn path_chars(&self) -> (r: Vec<char>) {
        chars_of(self.dir.as_str())
    }
}

/// The records that a choice of applications leaves: all of them where
/// nothing is chosen, else those of the chosen applications, in their
/// order.
pub open spec fn chosen(clips: Seq<ClipRecordView>, ids: Seq<nat>) -> Seq<ClipRecordView> {
    if ids.len() == 0 {
        clips
    } else {
        clips.filter(|c: ClipRecordView| ids.contains(c.appid))
    }
}

fn is_chosen(ids: &Vec<AppId>, appid: &AppId) -> (r: bool)
    ensures
        r == ids.deep_view().contains(appid@),
{
    let mut i: usize = 0;
    while i < ids.len()
        invariant
            i <= ids.len(),
            forall|j: int| 0 <= j < i ==> ids.deep_view()[j] != appid@,
        decreases ids.len() - i,
    {
        if ids[i].same(appid) {
            assert(ids.deep_view()[i as int] == appid@);
            return true;
        }
        i += 1;
    }
    false
}

/// Keeps the records of the applications in `ids`; with no application
/// named, keeps them all.
pub fn retain_app_ids(clips: Vec<ClipRecord>, ids: &Vec<AppId>) -> (r: Vec<ClipRecord>)
    ensures
        r.deep_view() == chosen(clips.deep_view(), ids.deep_view()),
{
    if ids.len() == 0 {
        return clips;
    }
    let ghost all = clips.deep_view();
    let ghost wanted = |c: ClipRecordView| ids.deep_view().contains(c.appid);
    let mut out: Vec<ClipRecord> = Vec::new();
    let mut i: usize = 0;
    assert(all.take(0) =~= Seq::empty());
    assert(out.deep_view() =~= all.take(0).filter(wanted));
    while i < clips.len()
        invariant
            i <= clips.len(),
            all == clips.deep_view(),
            wanted == |c: ClipRecordView| ids.deep_view().contains(c.appid),
            out.deep_view() == all.take(i as int).filter(wanted),
        decreases clips.len() - i,
    {
        let ghost before = out.deep_view();
        let c = &clips[i];
        proof {
            assert(all.take(i + 1).drop_last() =~= all.take(i as int));
            assert(all.take(i + 1).last() == c@);
            reveal(Seq::filter);
        }
        if is_chosen(ids, &c.appid) {
            out.push(
                ClipRecord {
                    dir: c.dir.clone(),
                    appid: c.appid.copy(),
                    date: c.date.clone(),
                    time: c.time.clone(),
                },
            );
            assert(out.deep_view() =~= before.push(c@));
        }
        i += 1;
    }
    assert(all.take(clips.len() as int) =~= all);
    out
}

} // verus!
