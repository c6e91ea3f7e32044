//! The scan over a whole file tree.
//!
//! The scanner sees one listing at a time. Here a tree is given as a
//! whole, the scanner is run over it step by step, and what holds of every
//! such run is proved: no directory is recorded twice, and no record lies
//! below another, so nothing inside a clip folder is ever recorded; a scan
//! that is done has recorded every clip folder that can be reached; and a
//! scan fails only where the root cannot be read.

use vstd::prelude::*;
use crate::scan::{
    entry_descends, entry_record, records_of, step_view, subdirs_of, ClipRecordView, DirEntryView,
    ScanActionView, ScanStateView,
};

verus! {

/// A file tree as the scan meets it: for each directory whether it can be
/// read and what it holds, and for each path its parent and its depth below
/// the root.
pub struct FileTree {
    pub root: Seq<char>,
    pub parent: spec_fn(Seq<char>) -> Seq<char>,
    pub depth: spec_fn(Seq<char>) -> nat,
    pub readable: spec_fn(Seq<char>) -> bool,
    pub entries: spec_fn(Seq<char>) -> Seq<DirEntryView>,
}

impl FileTree {
    /// The tree is a tree: the root is at depth zero, each entry of a
    /// directory has that directory as its parent and lies one deeper, and
    /// no two entries of a directory have one path.
    pub open spec fn wf(self) -> bool {
        &&& (self.depth)(self.root) == 0
        &&& forall|d: Seq<char>, i: int|
            0 <= i < (self.entries)(d).len() ==> (self.parent)(
                (#[trigger] (self.entries)(d)[i]).path,
            ) == d && (self.depth)((self.entries)(d)[i].path) == (self.depth)(d) + 1
        &&& forall|d: Seq<char>, i: int, j: int|
            0 <= i < j < (self.entries)(d).len() ==> (#[trigger] (self.entries)(d)[i]).path != (
            #[trigger] (self.entries)(d)[j]).path
    }

    /// What listing `d` gives: its entries, or nothing where it cannot be
    /// read.
    pub open spec fn listing(self, d: Seq<char>) -> Seq<DirEntryView> {
        if (self.readable)(d) {
            (self.entries)(d)
        } else {
            Seq::empty()
        }
    }

    /// The directory `k` levels above `p`.
    pub open spec fn up(self, p: Seq<char>, k: nat) -> Seq<char>
        decreases k,
    {
        if k == 0 {
            p
        } else {
            self.up((self.parent)(p), (k - 1) as nat)
        }
    }

    /// `p` lies below `a`: `a` is one of the directories above `p`, up to
    /// the root.
    pub open spec fn is_below(self, p: Seq<char>, a: Seq<char>) -> bool {
        exists|k: nat| 1 <= k <= (self.depth)(p) && #[trigger] self.up(p, k) == a
    }

    /// `d` is reached from the root through directories that the scan
    /// looks into: it is the root, or an entry of its parent that the scan
    /// goes on below, and its parent is reached and can be read.
    pub open spec fn reached(self, d: Seq<char>) -> bool
        decreases (self.depth)(d),
    {
        d == self.root || {
            let up = (self.parent)(d);
            &&& (self.depth)(d) == (self.depth)(up) + 1
            &&& (self.readable)(up)
            &&& exists|i: int|
                0 <= i < (self.entries)(up).len() && (#[trigger] (self.entries)(up)[i]).path == d
                    && entry_descends((self.entries)(up)[i])
            &&& self.reached(up)
        }
    }

    /// `dir` is the path of an entry of its parent that gives a record, and
    /// the parent is reached, can be read and is among `listed`.
    pub open spec fn recorded(self, listed: Seq<Seq<char>>, dir: Seq<char>) -> bool {
        let up = (self.parent)(dir);
        &&& listed.contains(up)
        &&& (self.depth)(dir) == (self.depth)(up) + 1
        &&& (self.readable)(up)
        &&& self.reached(up)
        &&& exists|i: int|
            0 <= i < (self.entries)(up).len() && (#[trigger] (self.entries)(up)[i]).path == dir
                && entry_record((self.entries)(up)[i]) is Some
    }
}

/// No two of the texts are the same.
pub open spec fn distinct(s: Seq<Seq<char>>) -> bool {
    forall|i: int, j: int| 0 <= i < j < s.len() ==> #[trigger] s[i] != #[trigger] s[j]
}

/// The folders of the records.
pub open spec fn dirs_of(found: Seq<ClipRecordView>) -> Seq<Seq<char>> {
    Seq::new(found.len(), |k: int| found[k].dir)
}

/// What holds of the records found when the directories `listed` have been
/// listed: each was recorded from a listed directory, and no folder twice.
pub open spec fn records_ok(t: FileTree, listed: Seq<Seq<char>>, found: Seq<ClipRecordView>) -> bool {
    &&& forall|k: int| 0 <= k < found.len() ==> t.recorded(listed, (#[trigger] found[k]).dir)
    &&& distinct(dirs_of(found))
}

/// Nothing is lost: the root is listed or waiting; below a listed
/// directory that can be read, each directory to look into is listed or
/// waiting, and each clip folder is among the records found.
pub open spec fn covered(
    t: FileTree,
    listed: Seq<Seq<char>>,
    waiting: Seq<Seq<char>>,
    found: Seq<ClipRecordView>,
) -> bool {
    &&& listed.contains(t.root) || waiting.contains(t.root)
    &&& forall|d: Seq<char>, i: int|
        #![trigger (t.entries)(d)[i]]
        listed.contains(d) && (t.readable)(d) && 0 <= i < (t.entries)(d).len() ==> {
            let e = (t.entries)(d)[i];
            &&& entry_descends(e) ==> listed.contains(e.path) || waiting.contains(e.path)
            &&& entry_record(e) is Some ==> found.contains(entry_record(e)->0)
        }
}

/// What holds of a scan of the tree `t` when the directories `listed` have
/// been listed and `action` is next.
pub open spec fn scan_inv(
    t: FileTree,
    listed: Seq<Seq<char>>,
    s: ScanStateView,
    action: ScanActionView,
) -> bool {
    match action {
        ScanActionView::Failed => !(t.readable)(t.root),
        ScanActionView::Done(found) => records_ok(t, listed, found) && covered(
            t,
            listed,
            Seq::empty(),
            found,
        ),
        ScanActionView::List(cur) => {
            let waiting = s.pending.push(cur);
            &&& distinct(listed)
            &&& distinct(waiting)
            &&& forall|x: Seq<char>| !(listed.contains(x) && waiting.contains(x))
            &&& forall|x: Seq<char>|
                #![trigger listed.contains(x)]
                #![trigger waiting.contains(x)]
                listed.contains(x) || waiting.contains(x) ==> x == t.root || ((t.depth)(x) > 0
                    && listed.contains((t.parent)(x)))
            &&& forall|x: Seq<char>| waiting.contains(x) ==> t.reached(x)
            &&& records_ok(t, listed, s.found)
            &&& covered(t, listed, waiting, s.found)
            &&& s.at_root ==> cur == t.root
        },
    }
}

/// No directory is recorded twice, and no record lies below another.
pub open spec fn apart(t: FileTree, found: Seq<ClipRecordView>) -> bool {
    forall|i: int, j: int|
        0 <= i < found.len() && 0 <= j < found.len() && i != j ==> (#[trigger] found[i]).dir != (
        #[trigger] found[j]).dir && !t.is_below(found[j].dir, found[i].dir)
}

proof fn lemma_record_from(entries: Seq<DirEntryView>, k: int) -> (i: int)
    requires
        0 <= k < records_of(entries).len(),
    ensures
        0 <= i < entries.len(),
        entry_record(entries[i]) == Some(records_of(entries)[k]),
        entries[i].path == records_of(entries)[k].dir,
    decreases entries.len(),
{
    let rest = records_of(entries.drop_last());
    if entry_record(entries.last()) is Some && k == rest.len() {
        entries.len() - 1
    } else {
        lemma_record_from(entries.drop_last(), k)
    }
}

proof fn lemma_subdir_from(entries: Seq<DirEntryView>, k: int) -> (i: int)
    requires
        0 <= k < subdirs_of(entries).len(),
    ensures
        0 <= i < entries.len(),
        entry_descends(entries[i]),
        entries[i].path == subdirs_of(entries)[k],
    decreases entries.len(),
{
    let rest = subdirs_of(entries.drop_last());
    if entry_descends(entries.last()) && k == rest.len() {
        entries.len() - 1
    } else {
        lemma_subdir_from(entries.drop_last(), k)
    }
}

/// The paths of the entries differ from one another.
pub open spec fn distinct_paths(entries: Seq<DirEntryView>) -> bool {
    forall|i: int, j: int|
        0 <= i < j < entries.len() ==> (#[trigger] entries[i]).path != (#[trigger] entries[j]).path
}

proof fn lemma_records_distinct(entries: Seq<DirEntryView>)
    requires
        distinct_paths(entries),
    ensures
        distinct(dirs_of(records_of(entries))),
    decreases entries.len(),
{
    if entries.len() > 0 {
        let front = entries.drop_last();
        assert(distinct_paths(front)) by {
            assert forall|i: int, j: int| 0 <= i < j < front.len() implies (#[trigger] front[i]).path
                != (#[trigger] front[j]).path by {
                assert(front[i] == entries[i] && front[j] == entries[j]);
            }
        }
        lemma_records_distinct(front);
        let dirs = dirs_of(records_of(entries));
        assert forall|a: int, b: int| 0 <= a < b < dirs.len() implies #[trigger] dirs[a]
            != #[trigger] dirs[b] by {
            let rest = records_of(front);
            if b < rest.len() {
                assert(dirs[a] == dirs_of(rest)[a] && dirs[b] == dirs_of(rest)[b]);
            } else {
                let i = lemma_record_from(front, a);
                assert(front[i] == entries[i]);
                assert(entries[i].path != entries[entries.len() - 1].path);
            }
        }
    }
}

proof fn lemma_subdirs_distinct(entries: Seq<DirEntryView>)
    requires
        distinct_paths(entries),
    ensures
        distinct(subdirs_of(entries)),
    decreases entries.len(),
{
    if entries.len() > 0 {
        let front = entries.drop_last();
        assert(distinct_paths(front)) by {
            assert forall|i: int, j: int| 0 <= i < j < front.len() implies (#[trigger] front[i]).path
                != (#[trigger] front[j]).path by {
                assert(front[i] == entries[i] && front[j] == entries[j]);
            }
        }
        lemma_subdirs_distinct(front);
        let dirs = subdirs_of(entries);
        assert forall|a: int, b: int| 0 <= a < b < dirs.len() implies #[trigger] dirs[a]
            != #[trigger] dirs[b] by {
            let rest = subdirs_of(front);
            if b < rest.len() {
                assert(dirs[a] == rest[a] && dirs[b] == rest[b]);
            } else {
                let i = lemma_subdir_from(front, a);
                assert(front[i] == entries[i]);
                assert(entries[i].path != entries[entries.len() - 1].path);
            }
        }
    }
}

/// The scan begins in a state of which the invariant holds.
pub proof fn law_scan_begins(t: FileTree)
    requires
        t.wf(),
    ensures
        scan_inv(
            t,
            Seq::empty(),
            ScanStateView { pending: Seq::empty(), found: Seq::empty(), at_root: true },
            ScanActionView::List(t.root),
        ),
{
    let waiting = Seq::<Seq<char>>::empty().push(t.root);
    assert forall|x: Seq<char>| waiting.contains(x) implies x == t.root by {
        let i = choose|i: int| 0 <= i < waiting.len() && waiting[i] == x;
    }
    assert(waiting[0] == t.root);
}

proof fn lemma_contains_push(s: Seq<Seq<char>>, v: Seq<char>, x: Seq<char>)
    ensures
        s.push(v).contains(x) <==> s.contains(x) || x == v,
{
    let t = s.push(v);
    if t.contains(x) {
        let i = choose|i: int| 0 <= i < t.len() && t[i] == x;
        if i < s.len() {
            assert(s[i] == x);
        }
    }
    if s.contains(x) {
        let i = choose|i: int| 0 <= i < s.len() && s[i] == x;
        assert(t[i] == x);
    }
    if x == v {
        assert(t[s.len() as int] == x);
    }
}

proof fn lemma_contains_concat(a: Seq<Seq<char>>, b: Seq<Seq<char>>, x: Seq<char>)
    ensures
        (a + b).contains(x) <==> a.contains(x) || b.contains(x),
{
    let t = a + b;
    if t.contains(x) {
        let i = choose|i: int| 0 <= i < t.len() && t[i] == x;
        if i < a.len() {
            assert(a[i] == x);
        } else {
            assert(b[i - a.len()] == x);
        }
    }
    if a.contains(x) {
        let i = choose|i: int| 0 <= i < a.len() && a[i] == x;
        assert(t[i] == x);
    }
    if b.contains(x) {
        let i = choose|i: int| 0 <= i < b.len() && b[i] == x;
        assert(t[a.len() + i] == x);
    }
}

/// Two lists without repeats that share nothing make one without repeats.
proof fn lemma_distinct_concat(a: Seq<Seq<char>>, b: Seq<Seq<char>>)
    requires
        distinct(a),
        distinct(b),
        forall|x: Seq<char>| !(a.contains(x) && b.contains(x)),
    ensures
        distinct(a + b),
{
    let t = a + b;
    assert forall|i: int, j: int| 0 <= i < j < t.len() implies #[trigger] t[i] != #[trigger] t[j] by {
        if j < a.len() {
            assert(t[i] == a[i] && t[j] == a[j]);
        } else if i >= a.len() {
            assert(t[i] == b[i - a.len()] && t[j] == b[j - a.len()]);
        } else {
            assert(t[i] == a[i] && t[j] == b[j - a.len()]);
            assert(a.contains(a[i]));
            assert(b.contains(b[j - a.len()]));
        }
    }
}

proof fn lemma_record_in(entries: Seq<DirEntryView>, i: int)
    requires
        0 <= i < entries.len(),
        entry_record(entries[i]) is Some,
    ensures
        records_of(entries).contains(entry_record(entries[i])->0),
    decreases entries.len(),
{
    let rest = records_of(entries.drop_last());
    let all = records_of(entries);
    if i == entries.len() - 1 {
        assert(all[rest.len() as int] == entry_record(entries[i])->0);
    } else {
        lemma_record_in(entries.drop_last(), i);
        let k = choose|k: int| 0 <= k < rest.len() && rest[k] == entry_record(entries[i])->0;
        assert(all[k] == rest[k]);
    }
}

proof fn lemma_subdir_in(entries: Seq<DirEntryView>, i: int)
    requires
        0 <= i < entries.len(),
        entry_descends(entries[i]),
    ensures
        subdirs_of(entries).contains(entries[i].path),
    decreases entries.len(),
{
    let rest = subdirs_of(entries.drop_last());
    let all = subdirs_of(entries);
    if i == entries.len() - 1 {
        assert(all[rest.len() as int] == entries[i].path);
    } else {
        lemma_subdir_in(entries.drop_last(), i);
        let k = choose|k: int| 0 <= k < rest.len() && rest[k] == entries[i].path;
        assert(all[k] == rest[k]);
    }
}

/// What a listing of the directory `cur` adds: each new record and each new
/// directory to look into is an entry of `cur`.
proof fn lemma_listing_adds(t: FileTree, cur: Seq<char>)
    requires
        t.wf(),
    ensures
        distinct(dirs_of(records_of(t.listing(cur)))),
        distinct(subdirs_of(t.listing(cur))),
        forall|k: int|
            0 <= k < records_of(t.listing(cur)).len() ==> {
                let dir = (#[trigger] records_of(t.listing(cur))[k]).dir;
                &&& (t.parent)(dir) == cur
                &&& (t.depth)(dir) == (t.depth)(cur) + 1
                &&& (t.readable)(cur)
                &&& exists|i: int|
                    0 <= i < (t.entries)(cur).len() && (#[trigger] (t.entries)(cur)[i]).path == dir
                        && entry_record((t.entries)(cur)[i]) is Some
            },
        forall|k: int|
            0 <= k < subdirs_of(t.listing(cur)).len() ==> {
                let dir = #[trigger] subdirs_of(t.listing(cur))[k];
                &&& (t.parent)(dir) == cur
                &&& (t.depth)(dir) == (t.depth)(cur) + 1
                &&& (t.readable)(cur)
                &&& exists|i: int|
                    0 <= i < (t.entries)(cur).len() && (#[trigger] (t.entries)(cur)[i]).path == dir
                        && entry_descends((t.entries)(cur)[i])
            },
{
    let entries = t.listing(cur);
    assert(distinct_paths(entries)) by {
        assert forall|i: int, j: int| 0 <= i < j < entries.len() implies (#[trigger] entries[i]).path
            != (#[trigger] entries[j]).path by {
            assert((t.entries)(cur)[i].path != (t.entries)(cur)[j].path);
        }
    }
    lemma_records_distinct(entries);
    lemma_subdirs_distinct(entries);
    assert forall|k: int| 0 <= k < records_of(entries).len() implies {
        let dir = (#[trigger] records_of(entries)[k]).dir;
        &&& (t.parent)(dir) == cur
        &&& (t.depth)(dir) == (t.depth)(cur) + 1
        &&& (t.readable)(cur)
        &&& exists|i: int|
            0 <= i < (t.entries)(cur).len() && (#[trigger] (t.entries)(cur)[i]).path == dir
                && entry_record((t.entries)(cur)[i]) is Some
    } by {
        let i = lemma_record_from(entries, k);
        assert((t.entries)(cur)[i].path == records_of(entries)[k].dir);
    }
    assert forall|k: int| 0 <= k < subdirs_of(entries).len() implies {
        let dir = #[trigger] subdirs_of(entries)[k];
        &&& (t.parent)(dir) == cur
        &&& (t.depth)(dir) == (t.depth)(cur) + 1
        &&& (t.readable)(cur)
        &&& exists|i: int|
            0 <= i < (t.entries)(cur).len() && (#[trigger] (t.entries)(cur)[i]).path == dir
                && entry_descends((t.entries)(cur)[i])
    } by {
        let i = lemma_subdir_from(entries, k);
        assert((t.entries)(cur)[i].path == subdirs_of(entries)[k]);
    }
}

/// A step of the scan keeps the invariant: when `cur` is listed as the tree
/// has it, the invariant holds of what follows, with `cur` among the
/// listed.
pub proof fn law_scan_step(t: FileTree, listed: Seq<Seq<char>>, s: ScanStateView, cur: Seq<char>)
    requires
        t.wf(),
        scan_inv(t, listed, s, ScanActionView::List(cur)),
    ensures
        scan_inv(
            t,
            listed.push(cur),
            step_view(s, !(t.readable)(cur), t.listing(cur)).0,
            step_view(s, !(t.readable)(cur), t.listing(cur)).1,
        ),
{
    let entries = t.listing(cur);
    let next = step_view(s, !(t.readable)(cur), entries);
    if s.at_root && !(t.readable)(cur) {
        return ;
    }
    let recs = records_of(entries);
    let waiting_then = s.pending + subdirs_of(entries);
    assert(covered(t, listed.push(cur), waiting_then, s.found + recs)) by {
        let listed2 = listed.push(cur);
        let found2 = s.found + recs;
        let waiting = s.pending.push(cur);
        assert forall|x: Seq<char>| listed.contains(x) || waiting.contains(x) implies listed2.contains(
            x,
        ) || waiting_then.contains(x) by {
            lemma_contains_push(listed, cur, x);
            lemma_contains_push(s.pending, cur, x);
            lemma_contains_concat(s.pending, subdirs_of(entries), x);
        }
        assert forall|r: ClipRecordView| s.found.contains(r) implies found2.contains(r) by {
            let k = choose|k: int| 0 <= k < s.found.len() && s.found[k] == r;
            assert(found2[k] == r);
        }
        assert forall|d: Seq<char>, i: int|
            #![trigger (t.entries)(d)[i]]
            listed2.contains(d) && (t.readable)(d) && 0 <= i < (t.entries)(d).len() implies {
                let e = (t.entries)(d)[i];
                &&& entry_descends(e) ==> listed2.contains(e.path) || waiting_then.contains(e.path)
                &&& entry_record(e) is Some ==> found2.contains(entry_record(e)->0)
            } by {
            let e = (t.entries)(d)[i];
            lemma_contains_push(listed, cur, d);
            if listed.contains(d) {
                if entry_descends(e) {
                    assert(listed.contains(e.path) || waiting.contains(e.path));
                }
                if entry_record(e) is Some {
                    assert(s.found.contains(entry_record(e)->0));
                }
            } else {
                assert(d == cur);
                if entry_descends(e) {
                    lemma_subdir_in(entries, i);
                    lemma_contains_concat(s.pending, subdirs_of(entries), e.path);
                }
                if entry_record(e) is Some {
                    lemma_record_in(entries, i);
                    let k = choose|k: int| 0 <= k < recs.len() && recs[k] == entry_record(e)->0;
                    assert(found2[s.found.len() + k] == recs[k]);
                }
            }
        }
    }
    let subs = subdirs_of(entries);
    let waiting = s.pending.push(cur);
    let listed2 = listed.push(cur);
    let found2 = s.found + recs;
    let pending2 = s.pending + subs;
    lemma_listing_adds(t, cur);
    assert(waiting[s.pending.len() as int] == cur);
    assert(waiting.contains(cur));
    assert(!listed.contains(cur));
    assert(t.reached(cur));
    assert forall|x: Seq<char>| listed2.contains(x) <==> listed.contains(x) || x == cur by {
        lemma_contains_push(listed, cur, x);
    }
    assert forall|x: Seq<char>| waiting.contains(x) <==> s.pending.contains(x) || x == cur by {
        lemma_contains_push(s.pending, cur, x);
    }
    assert forall|x: Seq<char>| pending2.contains(x) <==> s.pending.contains(x) || subs.contains(
        x,
    ) by {
        lemma_contains_concat(s.pending, subs, x);
    }
    // what holds of the new directories
    assert forall|x: Seq<char>| subs.contains(x) implies (t.parent)(x) == cur && (t.depth)(x) == (
    t.depth)(cur) + 1 && t.reached(x) && !listed.contains(x) && !waiting.contains(x) by {
        let k = choose|k: int| 0 <= k < subs.len() && subs[k] == x;
        assert((t.parent)(subs[k]) == cur);
        if listed.contains(x) || waiting.contains(x) {
            assert(x != t.root);
            assert(listed.contains((t.parent)(x)));
        }
    }
    // the records
    assert(records_ok(t, listed2, found2)) by {
        assert forall|k: int| 0 <= k < found2.len() implies t.recorded(
            listed2,
            (#[trigger] found2[k]).dir,
        ) by {
            if k < s.found.len() {
                assert(found2[k] == s.found[k]);
                assert(t.recorded(listed, s.found[k].dir));
            } else {
                assert(found2[k] == recs[k - s.found.len()]);
            }
        }
        let dirs = dirs_of(found2);
        assert forall|a: int, b: int| 0 <= a < b < dirs.len() implies #[trigger] dirs[a]
            != #[trigger] dirs[b] by {
            let n = s.found.len() as int;
            if b < n {
                assert(dirs[a] == dirs_of(s.found)[a] && dirs[b] == dirs_of(s.found)[b]);
            } else if a >= n {
                assert(dirs[a] == dirs_of(recs)[a - n] && dirs[b] == dirs_of(recs)[b - n]);
            } else {
                assert(found2[a] == s.found[a] && found2[b] == recs[b - n]);
                assert(t.recorded(listed, s.found[a].dir));
                assert((t.parent)(recs[b - n].dir) == cur);
            }
        }
    }
    if pending2.len() == 0 {
        assert(pending2 =~= Seq::<Seq<char>>::empty());
    }
    if pending2.len() > 0 {
        let cur2 = pending2.last();
        let waiting2 = pending2.drop_last().push(cur2);
        assert(waiting2 =~= pending2);
        assert(distinct(listed2)) by {
            assert forall|i: int, j: int| 0 <= i < j < listed2.len() implies #[trigger] listed2[i]
                != #[trigger] listed2[j] by {
                if j == listed.len() {
                    assert(listed.contains(listed[i]));
                }
            }
        }
        assert(distinct(s.pending)) by {
            assert forall|i: int, j: int| 0 <= i < j < s.pending.len() implies #[trigger] s.pending[i]
                != #[trigger] s.pending[j] by {
                assert(waiting[i] == s.pending[i] && waiting[j] == s.pending[j]);
            }
        }
        assert forall|x: Seq<char>| !(s.pending.contains(x) && subs.contains(x)) by {}
        lemma_distinct_concat(s.pending, subs);
        assert forall|x: Seq<char>| !(listed2.contains(x) && waiting2.contains(x)) by {
            if x == cur && s.pending.contains(x) {
                let i = choose|i: int| 0 <= i < s.pending.len() && s.pending[i] == x;
                assert(waiting[i] == x);
                assert(waiting[s.pending.len() as int] == x);
            }
            if x == cur && subs.contains(x) {
                assert((t.depth)(x) == (t.depth)(cur) + 1);
            }
        }
        assert forall|x: Seq<char>| listed2.contains(x) || waiting2.contains(x) implies x == t.root || (
        (t.depth)(x) > 0 && listed2.contains((t.parent)(x))) by {
            if subs.contains(x) {
                assert(listed2.contains(cur));
            } else {
                assert(listed.contains(x) || waiting.contains(x));
                if x != t.root {
                    assert(listed.contains((t.parent)(x)));
                }
            }
        }
        assert forall|x: Seq<char>| waiting2.contains(x) implies t.reached(x) by {
            if !subs.contains(x) {
                assert(waiting.contains(x));
            }
        }
    }
}

/// Up from a directory that is reached, every directory is reached, each
/// one level higher.
proof fn lemma_reached_up(t: FileTree, d: Seq<char>, k: nat)
    requires
        t.wf(),
        t.reached(d),
        k <= (t.depth)(d),
    ensures
        t.reached(t.up(d, k)),
        (t.depth)(t.up(d, k)) == (t.depth)(d) - k,
    decreases k,
{
    if k > 0 {
        lemma_reached_up(t, (t.parent)(d), (k - 1) as nat);
    }
}

/// Records of which the invariant holds are apart: no directory is recorded
/// twice, and no record lies below another.
pub proof fn law_records_apart(t: FileTree, listed: Seq<Seq<char>>, found: Seq<ClipRecordView>)
    requires
        t.wf(),
        records_ok(t, listed, found),
    ensures
        apart(t, found),
{
    assert forall|i: int, j: int|
        0 <= i < found.len() && 0 <= j < found.len() && i != j implies (#[trigger] found[i]).dir != (
    #[trigger] found[j]).dir && !t.is_below(found[j].dir, found[i].dir) by {
        let dirs = dirs_of(found);
        assert(dirs[i] == found[i].dir && dirs[j] == found[j].dir);
        if i < j {
            assert(dirs[i] != dirs[j]);
        } else {
            assert(dirs[j] != dirs[i]);
        }
        let x = found[i].dir;
        let p = found[j].dir;
        assert(t.recorded(listed, x));
        assert(t.recorded(listed, p));
        if t.is_below(p, x) {
            let k = choose|k: nat| 1 <= k <= (t.depth)(p) && #[trigger] t.up(p, k) == x;
            let d = (t.parent)(p);
            assert(t.up(p, k) == t.up(d, (k - 1) as nat));
            lemma_reached_up(t, d, (k - 1) as nat);
            assert(t.reached(x));
            assert(x != t.root);
            let up = (t.parent)(x);
            let a = choose|a: int|
                0 <= a < (t.entries)(up).len() && (#[trigger] (t.entries)(up)[a]).path == x
                    && entry_descends((t.entries)(up)[a]);
            let b = choose|b: int|
                0 <= b < (t.entries)(up).len() && (#[trigger] (t.entries)(up)[b]).path == x
                    && entry_record((t.entries)(up)[b]) is Some;
            if a < b {
                assert((t.entries)(up)[a].path != (t.entries)(up)[b].path);
            } else if b < a {
                assert((t.entries)(up)[b].path != (t.entries)(up)[a].path);
            }
            assert(false);
        }
    }
}

/// The directories listed, the state and the action after `n` steps of the
/// scan of `t`, each listing being what the tree has; once the scan is over
/// nothing changes.
pub open spec fn scan_after(t: FileTree, n: nat) -> (
    Seq<Seq<char>>,
    ScanStateView,
    ScanActionView,
)
    decreases n,
{
    if n == 0 {
        (
            Seq::empty(),
            ScanStateView { pending: Seq::empty(), found: Seq::empty(), at_root: true },
            ScanActionView::List(t.root),
        )
    } else {
        let before = scan_after(t, (n - 1) as nat);
        match before.2 {
            ScanActionView::List(cur) => {
                let next = step_view(before.1, !(t.readable)(cur), t.listing(cur));
                (before.0.push(cur), next.0, next.1)
            },
            _ => before,
        }
    }
}

/// The invariant holds after any number of steps.
pub proof fn law_scan_invariant(t: FileTree, n: nat)
    requires
        t.wf(),
    ensures
        scan_inv(t, scan_after(t, n).0, scan_after(t, n).1, scan_after(t, n).2),
    decreases n,
{
    if n == 0 {
        law_scan_begins(t);
    } else {
        law_scan_invariant(t, (n - 1) as nat);
        let before = scan_after(t, (n - 1) as nat);
        match before.2 {
            ScanActionView::List(cur) => {
                law_scan_step(t, before.0, before.1, cur);
            },
            _ => {},
        }
    }
}

/// Whenever a scan of a tree is done, its records are apart: no directory
/// is recorded twice, and no record lies below another.
pub proof fn law_scan_result_apart(t: FileTree, n: nat)
    requires
        t.wf(),
    ensures
        scan_after(t, n).2 matches ScanActionView::Done(found) ==> apart(t, found),
{
    law_scan_invariant(t, n);
    match scan_after(t, n).2 {
        ScanActionView::Done(found) => {
            law_records_apart(t, scan_after(t, n).0, found);
        },
        _ => {},
    }
}

/// With nothing waiting, every directory that is reached is listed.
proof fn lemma_reached_is_listed(
    t: FileTree,
    listed: Seq<Seq<char>>,
    found: Seq<ClipRecordView>,
    d: Seq<char>,
)
    requires
        t.wf(),
        covered(t, listed, Seq::empty(), found),
        t.reached(d),
    ensures
        listed.contains(d),
    decreases (t.depth)(d),
{
    let none = Seq::<Seq<char>>::empty();
    assert forall|x: Seq<char>| !none.contains(x) by {}
    if d != t.root {
        let up = (t.parent)(d);
        lemma_reached_is_listed(t, listed, found, up);
        let i = choose|i: int|
            0 <= i < (t.entries)(up).len() && (#[trigger] (t.entries)(up)[i]).path == d
                && entry_descends((t.entries)(up)[i]);
        assert(listed.contains((t.entries)(up)[i].path) || none.contains((t.entries)(up)[i].path));
    }
}

/// A scan that is done has missed nothing: every clip folder in a directory
/// that is reached and can be read is among its records.
pub proof fn law_scan_finds_all(t: FileTree, n: nat, d: Seq<char>, i: int)
    requires
        t.wf(),
        scan_after(t, n).2 is Done,
        t.reached(d),
        (t.readable)(d),
        0 <= i < (t.entries)(d).len(),
        entry_record((t.entries)(d)[i]) is Some,
    ensures
        scan_after(t, n).2->Done_0.contains(entry_record((t.entries)(d)[i])->0),
{
    law_scan_invariant(t, n);
    let listed = scan_after(t, n).0;
    let found = scan_after(t, n).2->Done_0;
    lemma_reached_is_listed(t, listed, found, d);
    let e = (t.entries)(d)[i];
    assert(found.contains(entry_record(e)->0));
}

/// A scan fails only where the root cannot be read.
pub proof fn law_scan_fails_only_at_root(t: FileTree, n: nat)
    requires
        t.wf(),
        (t.readable)(t.root),
    ensures
        !(scan_after(t, n).2 is Failed),
{
    law_scan_invariant(t, n);
}

} // verus!
