//! A path as the list of its components, and the order of such paths:
//! component by component, a path before any longer one that begins with
//! it. Two paths are the same path when their components are the same,
//! however each was written.

use vstd::prelude::*;
use crate::order::{
    law_lex_antisymmetric, law_lex_reflexive, law_lex_total, law_lex_transitive, lex_le,
    lex_le_chars,
};
use crate::text::{chars_of, same_text};

verus! {

/// One component of a path.
#[derive(Clone, Debug, PartialEq, Eq)]
pub enum PathPart {
    /// What stands before the root on some platforms, such as a drive.
    Prefix(String),
    /// The root.
    Root,
    /// The directory itself, `.`.
    Current,
    /// The directory above, `..`.
    Parent,
    /// The name of a file or a directory.
    Name(String),
}

pub enum PathPartView {
    Prefix(Seq<char>),
    Root,
    Current,
    Parent,
    Name(Seq<char>),
}

impl View for PathPart {
    type V = PathPartView;

    open spec fn view(&self) -> PathPartView {
        match self {
            PathPart::Prefix(t) => PathPartView::Prefix(t@),
            PathPart::Root => PathPartView::Root,
            PathPart::Current => PathPartView::Current,
            PathPart::Parent => PathPartView::Parent,
            PathPart::Name(t) => PathPartView::Name(t@),
        }
    }
}

impl DeepView for PathPart {
    type V = PathPartView;

    open spec fn deep_view(&self) -> PathPartView {
        self@
    }
}

/// The place of a kind of component among the kinds: a prefix first, then
/// the root, `.`, `..`, and a name last.
pub open spec fn rank(p: PathPartView) -> int {
    match p {
        PathPartView::Prefix(_) => 0,
        PathPartView::Root => 1,
        PathPartView::Current => 2,
        PathPartView::Parent => 3,
        PathPartView::Name(_) => 4,
    }
}

/// The text of a prefix or a name; the other kinds have none.
pub open spec fn text_of(p: PathPartView) -> Seq<char> {
    match p {
        PathPartView::Prefix(t) => t,
        PathPartView::Name(t) => t,
        _ => Seq::empty(),
    }
}

/// `a` comes no later than `b`: by kind, and within a kind by text.
pub open spec fn part_le(a: PathPartView, b: PathPartView) -> bool {
    rank(a) < rank(b) || (rank(a) == rank(b) && lex_le(text_of(a), text_of(b)))
}

/// `a` comes no later than `b`: `a` is empty, or its first component comes
/// before that of `b`, or the first components are the same and the rest
/// of `a` comes no later than the rest of `b`.
pub open spec fn path_le(a: Seq<PathPartView>, b: Seq<PathPartView>) -> bool
    decreases a.len(),
{
    if a.len() == 0 {
        true
    } else if b.len() == 0 {
        false
    } else if a[0] != b[0] {
        part_le(a[0], b[0])
    } else {
        path_le(a.drop_first(), b.drop_first())
    }
}

proof fn lemma_part_total(a: PathPartView, b: PathPartView)
    ensures
        part_le(a, b) || part_le(b, a),
{
    law_lex_total(text_of(a), text_of(b));
}

proof fn lemma_part_antisymmetric(a: PathPartView, b: PathPartView)
    requires
        part_le(a, b),
        part_le(b, a),
    ensures
        a == b,
{
    law_lex_antisymmetric(text_of(a), text_of(b));
}

proof fn lemma_part_transitive(a: PathPartView, b: PathPartView, c: PathPartView)
    requires
        part_le(a, b),
        part_le(b, c),
    ensures
        part_le(a, c),
{
    if rank(a) == rank(b) && rank(b) == rank(c) {
        law_lex_transitive(text_of(a), text_of(b), text_of(c));
    }
}

/// Every path comes no later than itself.
pub proof fn law_path_reflexive(a: Seq<PathPartView>)
    ensures
        path_le(a, a),
    decreases a.len(),
{
    if a.len() > 0 {
        law_path_reflexive(a.drop_first());
    }
}

/// Of two paths one comes no later than the other.
pub proof fn law_path_total(a: Seq<PathPartView>, b: Seq<PathPartView>)
    ensures
        path_le(a, b) || path_le(b, a),
    decreases a.len(),
{
    if a.len() > 0 && b.len() > 0 {
        if a[0] == b[0] {
            law_path_total(a.drop_first(), b.drop_first());
        } else {
            lemma_part_total(a[0], b[0]);
        }
    }
}

/// Two paths of which each comes no later than the other are the same.
pub proof fn law_path_antisymmetric(a: Seq<PathPartView>, b: Seq<PathPartView>)
    requires
        path_le(a, b),
        path_le(b, a),
    ensures
        a == b,
    decreases a.len(),
{
    if a.len() == 0 || b.len() == 0 {
        assert(a =~= b);
    } else {
        if a[0] != b[0] {
            lemma_part_antisymmetric(a[0], b[0]);
        }
        law_path_antisymmetric(a.drop_first(), b.drop_first());
        assert(a =~= seq![a[0]] + a.drop_first());
        assert(b =~= seq![b[0]] + b.drop_first());
    }
}

/// The order passes on: from `a` to `b` and from `b` to `c` is from `a` to
/// `c`.
pub proof fn law_path_transitive(
    a: Seq<PathPartView>,
    b: Seq<PathPartView>,
    c: Seq<PathPartView>,
)
    requires
        path_le(a, b),
        path_le(b, c),
    ensures
        path_le(a, c),
    decreases a.len(),
{
    if a.len() > 0 && b.len() > 0 && c.len() > 0 {
        if a[0] == b[0] && b[0] == c[0] {
            law_path_transitive(a.drop_first(), b.drop_first(), c.drop_first());
        } else if a[0] != b[0] && b[0] != c[0] {
            lemma_part_transitive(a[0], b[0], c[0]);
            if a[0] == c[0] {
                lemma_part_antisymmetric(a[0], b[0]);
            }
        }
    }
}

fn rank_of(p: &PathPart) -> (r: u8)
    ensures
        r == rank(p@),
{
    match p {
        PathPart::Prefix(_) => 0,
        PathPart::Root => 1,
        PathPart::Current => 2,
        PathPart::Parent => 3,
        PathPart::Name(_) => 4,
    }
}

/// Whether two components are the same.
pub fn same_part(a: &PathPart, b: &PathPart) -> (r: bool)
    ensures
        r == (a@ == b@),
{
    match (a, b) {
        (PathPart::Prefix(x), PathPart::Prefix(y)) => same_text(x.as_str(), y.as_str()),
        (PathPart::Name(x), PathPart::Name(y)) => same_text(x.as_str(), y.as_str()),
        _ => rank_of(a) == rank_of(b),
    }
}

/// Whether the component `a` comes no later than `b`.
pub fn part_le_exec(a: &PathPart, b: &PathPart) -> (r: bool)
    ensures
        r == part_le(a@, b@),
{
    proof {
        law_lex_reflexive(Seq::<char>::empty());
    }
    match (a, b) {
        (PathPart::Prefix(x), PathPart::Prefix(y)) => lex_le_chars(
            &chars_of(x.as_str()),
            &chars_of(y.as_str()),
        ),
        (PathPart::Name(x), PathPart::Name(y)) => lex_le_chars(
            &chars_of(x.as_str()),
            &chars_of(y.as_str()),
        ),
        _ => rank_of(a) <= rank_of(b),
    }
}

/// Whether the path `a` comes no later than `b`.
pub fn path_le_exec(a: &Vec<PathPart>, b: &Vec<PathPart>) -> (r: bool)
    ensures
        r == path_le(a.deep_view(), b.deep_view()),
{
    let ghost x = a.deep_view();
    let ghost y = b.deep_view();
    let mut i: usize = 0;
    assert(x.skip(0) =~= x && y.skip(0) =~= y);
    loop
        invariant
            x == a.deep_view(),
            y == b.deep_view(),
            i <= a.len(),
            i <= b.len(),
            path_le(x, y) == path_le(x.skip(i as int), y.skip(i as int)),
        decreases a.len() - i,
    {
        if i == a.len() {
            return true;
        }
        if i == b.len() {
            return false;
        }
        assert(x.skip(i as int)[0] == a@[i as int]@);
        assert(y.skip(i as int)[0] == b@[i as int]@);
        if !same_part(&a[i], &b[i]) {
            return part_le_exec(&a[i], &b[i]);
        }
        proof {
            assert(x.skip(i as int).drop_first() =~= x.skip(i + 1));
            assert(y.skip(i as int).drop_first() =~= y.skip(i + 1));
        }
        i += 1;
    }
}

/// Each path of `s` comes before every path behind it, and is another.
pub open spec fn strictly_sorted(s: Seq<Seq<PathPartView>>) -> bool {
    forall|i: int, j: int|
        0 <= i < j < s.len() ==> path_le(#[trigger] s[i], #[trigger] s[j]) && s[i] != s[j]
}

/// `a` and `b` hold the same paths, however often and in whatever order.
pub open spec fn same_elements(a: Seq<Seq<PathPartView>>, b: Seq<Seq<PathPartView>>) -> bool {
    forall|x: Seq<PathPartView>| a.contains(x) <==> b.contains(x)
}

/// The paths of `items`, each once, in order.
pub fn sorted_unique(items: Vec<Vec<PathPart>>) -> (r: Vec<Vec<PathPart>>)
    ensures
        strictly_sorted(r.deep_view()),
        same_elements(r.deep_view(), items.deep_view()),
{
    let ghost given = items.deep_view();
    let mut rest = items;
    let mut out: Vec<Vec<PathPart>> = Vec::new();
    assert(out.deep_view() =~= Seq::empty());
    while rest.len() > 0
        invariant
            strictly_sorted(out.deep_view()),
            forall|x: Seq<PathPartView>|
                (out.deep_view().contains(x) || rest.deep_view().contains(x)) <==> given.contains(x),
        decreases rest.len(),
    {
        let ghost rest0 = rest.deep_view();
        let ghost out0 = out.deep_view();
        let x = rest.pop().unwrap();
        let ghost xv = x.deep_view();
        let ghost rest1 = rest.deep_view();
        proof {
            assert(rest1 =~= rest0.drop_last());
            assert(rest0.last() == xv);
            assert forall|y: Seq<PathPartView>| rest0.contains(y) <==> (rest1.contains(y) || y
                == xv) by {
                if rest0.contains(y) {
                    let k = choose|k: int| 0 <= k < rest0.len() && rest0[k] == y;
                    if k < rest1.len() {
                        assert(rest1[k] == y);
                    }
                }
                if rest1.contains(y) {
                    let k = choose|k: int| 0 <= k < rest1.len() && rest1[k] == y;
                    assert(rest0[k] == y);
                }
                if y == xv {
                    assert(rest0[rest0.len() - 1] == y);
                }
            }
        }
        let mut i: usize = 0;
        while i < out.len() && !path_le_exec(&x, &out[i])
            invariant
                i <= out.len(),
                out0 == out.deep_view(),
                xv == x.deep_view(),
                forall|j: int| 0 <= j < i ==> !path_le(xv, #[trigger] out0[j]),
            decreases out.len() - i,
        {
            i += 1;
        }
        let known = i < out.len() && path_le_exec(&out[i], &x);
        if known {
            proof {
                law_path_antisymmetric(xv, out0[i as int]);
                assert(out0.contains(xv));
            }
        } else {
            out.insert(i, x);
            proof {
                let out1 = out.deep_view();
                assert(out1 =~= out0.insert(i as int, xv));
                law_path_reflexive(xv);
                assert forall|a: int, b: int| 0 <= a < b < out1.len() implies path_le(
                    #[trigger] out1[a],
                    #[trigger] out1[b],
                ) && out1[a] != out1[b] by {
                    if b < i {
                        assert(out1[a] == out0[a] && out1[b] == out0[b]);
                    } else if b == i {
                        assert(out1[a] == out0[a]);
                        law_path_total(xv, out0[a]);
                    } else if a < i {
                        assert(out1[a] == out0[a] && out1[b] == out0[b - 1]);
                    } else if a == i {
                        assert(out1[b] == out0[b - 1]);
                        if b - 1 > i {
                            assert(path_le(out0[i as int], out0[b - 1]));
                            law_path_transitive(xv, out0[i as int], out0[b - 1]);
                            if xv == out0[b - 1] {
                                law_path_antisymmetric(out0[i as int], out0[b - 1]);
                            }
                        }
                    } else {
                        assert(out1[a] == out0[a - 1] && out1[b] == out0[b - 1]);
                    }
                }
                assert forall|y: Seq<PathPartView>| out1.contains(y) <==> (out0.contains(y) || y
                    == xv) by {
                    if out1.contains(y) {
                        let k = choose|k: int| 0 <= k < out1.len() && out1[k] == y;
                        if k < i {
                            assert(out0[k] == y);
                        } else if k > i {
                            assert(out0[k - 1] == y);
                        }
                    }
                    if out0.contains(y) {
                        let k = choose|k: int| 0 <= k < out0.len() && out0[k] == y;
                        if k < i {
                            assert(out1[k] == y);
                        } else {
                            assert(out1[k + 1] == y);
                        }
                    }
                    if y == xv {
                        assert(out1[i as int] == y);
                    }
                }
            }
        }
    }
    out
}

/// There is one way only to hold given paths each once and in order: two
/// lists that do so are the same list.
pub proof fn law_sorted_unique_is_determined(
    a: Seq<Seq<PathPartView>>,
    b: Seq<Seq<PathPartView>>,
)
    requires
        strictly_sorted(a),
        strictly_sorted(b),
        same_elements(a, b),
    ensures
        a == b,
    decreases a.len(),
{
    if a.len() == 0 {
        if b.len() > 0 {
            assert(b.contains(b[0]));
            assert(a.contains(b[0]));
        }
        assert(a =~= b);
    } else {
        assert(a.contains(a[0]));
        assert(b.contains(a[0]));
        let k = choose|k: int| 0 <= k < b.len() && b[k] == a[0];
        assert(b.contains(b[0]));
        assert(a.contains(b[0]));
        let m = choose|m: int| 0 <= m < a.len() && a[m] == b[0];
        if m > 0 {
            assert(path_le(a[0], a[m]));
        } else {
            law_path_reflexive(a[0]);
        }
        if k > 0 {
            assert(path_le(b[0], b[k]));
        } else {
            law_path_reflexive(b[0]);
        }
        law_path_antisymmetric(a[0], b[0]);
        let a1 = a.drop_first();
        let b1 = b.drop_first();
        assert forall|x: Seq<PathPartView>| a1.contains(x) <==> b1.contains(x) by {
            if a1.contains(x) {
                let i = choose|i: int| 0 <= i < a1.len() && a1[i] == x;
                assert(a[i + 1] == x);
                assert(a.contains(x));
                assert(a[0] != a[i + 1]);
                let j = choose|j: int| 0 <= j < b.len() && b[j] == x;
                assert(j > 0);
                assert(b1[j - 1] == x);
            }
            if b1.contains(x) {
                let i = choose|i: int| 0 <= i < b1.len() && b1[i] == x;
                assert(b[i + 1] == x);
                assert(b.contains(x));
                assert(b[0] != b[i + 1]);
                let j = choose|j: int| 0 <= j < a.len() && a[j] == x;
                assert(j > 0);
                assert(a1[j - 1] == x);
            }
        }
        assert forall|i: int, j: int| 0 <= i < j < a1.len() implies path_le(
            #[trigger] a1[i],
            #[trigger] a1[j],
        ) && a1[i] != a1[j] by {
            assert(a1[i] == a[i + 1] && a1[j] == a[j + 1]);
        }
        assert forall|i: int, j: int| 0 <= i < j < b1.len() implies path_le(
            #[trigger] b1[i],
            #[trigger] b1[j],
        ) && b1[i] != b1[j] by {
            assert(b1[i] == b[i + 1] && b1[j] == b[j + 1]);
        }
        law_sorted_unique_is_determined(a1, b1);
        assert(a =~= seq![a[0]] + a1);
        assert(b =~= seq![b[0]] + b1);
    }
}

} // verus!
