//! The order of texts: character by character, a text before any longer
//! one that begins with it. Sorting by it.

use vstd::prelude::*;

verus! {

/// `a` comes no later than `b`: `a` is empty, or its first character is the
/// smaller one, or the first characters are the same and the rest of `a`
/// comes no later than the rest of `b`.
pub open spec fn lex_le(a: Seq<char>, b: Seq<char>) -> bool
    decreases a.len(),
{
    if a.len() == 0 {
        true
    } else if b.len() == 0 {
        false
    } else if a[0] != b[0] {
        a[0] < b[0]
    } else {
        lex_le(a.drop_first(), b.drop_first())
    }
}

/// Every text comes no later than itself.
pub proof fn law_lex_reflexive(a: Seq<char>)
    ensures
        lex_le(a, a),
    decreases a.len(),
{
    if a.len() > 0 {
        law_lex_reflexive(a.drop_first());
    }
}

/// Of two texts one comes no later than the other.
pub proof fn law_lex_total(a: Seq<char>, b: Seq<char>)
    ensures
        lex_le(a, b) || lex_le(b, a),
    decreases a.len(),
{
    if a.len() > 0 && b.len() > 0 && a[0] == b[0] {
        law_lex_total(a.drop_first(), b.drop_first());
    }
}

/// Two texts of which each comes no later than the other are the same.
pub proof fn law_lex_antisymmetric(a: Seq<char>, b: Seq<char>)
    requires
        lex_le(a, b),
        lex_le(b, a),
    ensures
        a == b,
    decreases a.len(),
{
    if a.len() == 0 || b.len() == 0 {
        assert(a =~= b);
    } else {
        law_lex_antisymmetric(a.drop_first(), b.drop_first());
        assert(a =~= seq![a[0]] + a.drop_first());
        assert(b =~= seq![b[0]] + b.drop_first());
    }
}

/// The order passes on: from `a` to `b` and from `b` to `c` is from `a` to
/// `c`.
pub proof fn law_lex_transitive(a: Seq<char>, b: Seq<char>, c: Seq<char>)
    requires
        lex_le(a, b),
        lex_le(b, c),
    ensures
        lex_le(a, c),
    decreases a.len(),
{
    if a.len() > 0 && b.len() > 0 && c.len() > 0 && a[0] == b[0] && b[0] == c[0] {
        law_lex_transitive(a.drop_first(), b.drop_first(), c.drop_first());
    }
}

/// Whether `a` comes no later than `b`.
pub fn lex_le_chars(a: &Vec<char>, b: &Vec<char>) -> (r: bool)
    ensures
        r == lex_le(a@, b@),
{
    let mut i: usize = 0;
    assert(a@.skip(0) =~= a@ && b@.skip(0) =~= b@);
    loop
        invariant
            i <= a.len(),
            i <= b.len(),
            lex_le(a@, b@) == lex_le(a@.skip(i as int), b@.skip(i as int)),
        decreases a.len() - i,
    {
        if i == a.len() {
            return true;
        }
        if i == b.len() {
            return false;
        }
        if a[i] != b[i] {
            return a[i] < b[i];
        }
        proof {
            assert(a@.skip(i as int).drop_first() =~= a@.skip(i + 1));
            assert(b@.skip(i as int).drop_first() =~= b@.skip(i + 1));
        }
        i += 1;
    }
}

/// Something that is ordered by a path.
pub trait PathKeyed {
    /// The path that orders it.
    spec fn path_key(&self) -> Seq<char>;

    /// The characters of that path.
    fn path_chars(&self) -> (r: Vec<char>)
        ensures
            r@ == self.path_key(),
    ;
}

/// No item of `s` comes later than an item behind it.
pub open spec fn sorted_by_path<T: PathKeyed>(s: Seq<T>) -> bool {
    forall|i: int, j: int|
        0 <= i <= j < s.len() ==> lex_le((#[trigger] s[i]).path_key(), (#[trigger] s[j]).path_key())
}

/// `perm` and `back` are two ways through one pairing of the positions
/// below `n`: each undoes the other.
pub open spec fn is_permutation(perm: Seq<int>, back: Seq<int>, n: nat) -> bool {
    &&& perm.len() == n
    &&& back.len() == n
    &&& forall|i: int| 0 <= i < n ==> 0 <= #[trigger] perm[i] < n && back[perm[i]] == i
    &&& forall|k: int| 0 <= k < n ==> 0 <= #[trigger] back[k] < n && perm[back[k]] == k
}

/// `r` holds the items of `items`, each once, in an order of its own.
pub open spec fn is_rearrangement<T>(r: Seq<T>, items: Seq<T>) -> bool {
    exists|perm: Seq<int>, back: Seq<int>|
        #![trigger is_permutation(perm, back, items.len())]
        is_permutation(perm, back, items.len()) && r.len() == items.len() && forall|i: int|
            0 <= i < r.len() ==> #[trigger] r[i] == items[perm[i]]
}

/// Sorts by path. Items with the same path keep no particular order.
pub fn sort_by_path<T: PathKeyed>(items: Vec<T>) -> (r: Vec<T>)
    ensures
        sorted_by_path(r@),
        is_rearrangement(r@, items@),
{
    let ghost source = items@;
    let ghost n = source.len() as int;
    let mut rest = items;
    let mut out: Vec<T> = Vec::new();
    let mut keys: Vec<Vec<char>> = Vec::new();
    let ghost mut perm: Seq<int> = Seq::empty();
    let ghost mut back: Seq<int> = Seq::new(source.len(), |k: int| 0int);
    while rest.len() > 0
        invariant
            n == source.len(),
            rest.len() <= n,
            rest@ == source.take(rest.len() as int),
            out.len() == n - rest.len(),
            keys.len() == out.len(),
            perm.len() == out.len(),
            back.len() == n,
            forall|j: int| 0 <= j < out.len() ==> (#[trigger] keys@[j])@ == out@[j].path_key(),
            sorted_by_path(out@),
            forall|j: int|
                0 <= j < perm.len() ==> rest.len() <= #[trigger] perm[j] < n && out@[j]
                    == source[perm[j]] && back[perm[j]] == j,
            forall|k: int|
                rest.len() <= k < n ==> 0 <= #[trigger] back[k] < perm.len() && perm[back[k]] == k,
        decreases rest.len(),
    {
        let ghost out0 = out@;
        let ghost perm0 = perm;
        let ghost back0 = back;
        let x = rest.pop().unwrap();
        let ghost m = rest.len() as int;
        let key = x.path_chars();
        let mut i: usize = 0;
        while i < keys.len() && lex_le_chars(&keys[i], &key)
            invariant
                i <= keys.len(),
                forall|j: int| 0 <= j < i ==> lex_le((#[trigger] keys@[j])@, key@),
            decreases keys.len() - i,
        {
            i += 1;
        }
        proof {
            assert forall|j: int| i <= j < out0.len() implies lex_le(
                x.path_key(),
                (#[trigger] out0[j]).path_key(),
            ) by {
                law_lex_total(keys@[i as int]@, key@);
                assert(lex_le(out0[i as int].path_key(), out0[j].path_key()));
                law_lex_transitive(key@, keys@[i as int]@, out0[j].path_key());
            }
            assert forall|j: int| 0 <= j < i implies lex_le(
                (#[trigger] out0[j]).path_key(),
                x.path_key(),
            ) by {
                assert(lex_le(keys@[j]@, key@));
            }
            law_lex_reflexive(x.path_key());
            perm = perm0.insert(i as int, m);
            back = Seq::new(
                source.len(),
                |k: int|
                    if k == m {
                        i as int
                    } else if back0[k] >= i {
                        back0[k] + 1
                    } else {
                        back0[k]
                    },
            );
        }
        out.insert(i, x);
        keys.insert(i, key);
        proof {
            let out1 = out@;
            assert forall|a: int, b: int| 0 <= a <= b < out1.len() implies lex_le(
                (#[trigger] out1[a]).path_key(),
                (#[trigger] out1[b]).path_key(),
            ) by {
                if a < i && b < i {
                    assert(out1[a] == out0[a] && out1[b] == out0[b]);
                } else if a < i && b == i {
                    assert(out1[a] == out0[a]);
                } else if a < i && b > i {
                    assert(out1[a] == out0[a] && out1[b] == out0[b - 1]);
                } else if a == i && b == i {
                } else if a == i && b > i {
                    assert(out1[b] == out0[b - 1]);
                } else {
                    assert(out1[a] == out0[a - 1] && out1[b] == out0[b - 1]);
                }
            }
            assert forall|j: int| 0 <= j < perm.len() implies m <= #[trigger] perm[j] < n
                && out1[j] == source[perm[j]] && back[perm[j]] == j by {
                if j < i {
                    assert(perm[j] == perm0[j]);
                } else if j > i {
                    assert(perm[j] == perm0[j - 1]);
                }
            }
            assert forall|k: int| m <= k < n implies 0 <= #[trigger] back[k] < perm.len()
                && perm[back[k]] == k by {
                if k > m {
                    assert(perm0[back0[k]] == k);
                }
            }
            assert forall|j: int| 0 <= j < out1.len() implies (#[trigger] keys@[j])@
                == out1[j].path_key() by {
                if j < i {
                } else if j > i {
                }
            }
        }
    }
    proof {
        assert(is_permutation(perm, back, source.len()));
    }
    out
}

} // verus!
