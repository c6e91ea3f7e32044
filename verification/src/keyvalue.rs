//! Quoted key/value pairs in loosely structured text.
//!
//! A pair of the key `k` is the text `"k"`, any amount of white space, and a
//! quoted value of one character or more that holds no quote. Whatever
//! surrounds a pair, braces and nesting included, is passed over.

use vstd::prelude::*;
use crate::text::{chars_of, is_space, is_space_char};

verus! {

/// The key of the display name in an application manifest.
pub open spec fn name_key() -> Seq<char> {
    seq!['n', 'a', 'm', 'e']
}

/// The key of a library location in a registry file.
pub open spec fn path_key() -> Seq<char> {
    seq!['p', 'a', 't', 'h']
}

/// `key` between two quotes.
pub open spec fn quoted(key: Seq<char>) -> Seq<char> {
    seq!['"'] + key + seq!['"']
}

/// `pat` stands in `text` at position `i`.
pub open spec fn has_at(text: Seq<char>, i: int, pat: Seq<char>) -> bool {
    0 <= i && i + pat.len() <= text.len() && text.subrange(i, i + pat.len()) == pat
}

/// A pair of `key` starts at `start`, and its value runs from `a` up to `b`.
pub open spec fn is_pair(text: Seq<char>, key: Seq<char>, start: int, a: int, b: int) -> bool {
    &&& has_at(text, start, quoted(key))
    &&& start + key.len() + 2 < a
    &&& forall|j: int| start + key.len() + 2 <= j < a - 1 ==> is_space(#[trigger] text[j])
    &&& text[a - 1] == '"'
    &&& a < b < text.len()
    &&& forall|j: int| a <= j < b ==> #[trigger] text[j] != '"'
    &&& text[b] == '"'
}

/// The first position from `i` on that holds no white space, or the end.
pub open spec fn skip_spaces(text: Seq<char>, i: int) -> int
    decreases text.len() - i,
{
    if 0 <= i < text.len() && is_space(text[i]) {
        skip_spaces(text, i + 1)
    } else {
        i
    }
}

/// The first position from `i` on that holds a quote, or the end.
pub open spec fn skip_unquoted(text: Seq<char>, i: int) -> int
    decreases text.len() - i,
{
    if 0 <= i < text.len() && text[i] != '"' {
        skip_unquoted(text, i + 1)
    } else {
        i
    }
}

/// Where the value of the pair that starts at `start` begins and ends, if a
/// pair starts there.
pub open spec fn pair_at(text: Seq<char>, key: Seq<char>, start: int) -> Option<(int, int)> {
    let open = skip_spaces(text, start + key.len() + 2);
    let close = skip_unquoted(text, open + 1);
    if has_at(text, start, quoted(key)) && open < text.len() && text[open] == '"' && open + 1
        < close && close < text.len() {
        Some((open + 1, close))
    } else {
        None
    }
}

/// The value span of the first pair that starts at `from` or later.
pub open spec fn first_pair(text: Seq<char>, key: Seq<char>, from: int) -> Option<(int, int)>
    decreases text.len() - from,
{
    if from < 0 || from >= text.len() {
        None
    } else if pair_at(text, key, from) is Some {
        pair_at(text, key, from)
    } else {
        first_pair(text, key, from + 1)
    }
}

/// The value of the first pair of `key` in `text`.
pub open spec fn first_value(text: Seq<char>, key: Seq<char>) -> Option<Seq<char>> {
    match first_pair(text, key, 0) {
        Some((a, b)) => Some(text.subrange(a, b)),
        None => None,
    }
}

/// The values of the pairs of `key` from `from` on, in order, each pair
/// sought behind the closing quote of the one before.
pub open spec fn values_from(text: Seq<char>, key: Seq<char>, from: int) -> Seq<Seq<char>>
    decreases text.len() - from,
{
    match first_pair(text, key, from) {
        Some((a, b)) => if from <= b < text.len() {
            seq![text.subrange(a, b)] + values_from(text, key, b + 1)
        } else {
            Seq::empty()
        },
        None => Seq::empty(),
    }
}

/// The values of all pairs of `key` in `text`.
pub open spec fn all_values(text: Seq<char>, key: Seq<char>) -> Seq<Seq<char>> {
    values_from(text, key, 0)
}

proof fn lemma_skip_spaces(text: Seq<char>, i: int)
    requires
        0 <= i <= text.len(),
    ensures
        i <= skip_spaces(text, i) <= text.len(),
        forall|j: int| i <= j < skip_spaces(text, i) ==> is_space(#[trigger] text[j]),
        skip_spaces(text, i) < text.len() ==> !is_space(text[skip_spaces(text, i)]),
    decreases text.len() - i,
{
    if i < text.len() && is_space(text[i]) {
        lemma_skip_spaces(text, i + 1);
    }
}

proof fn lemma_skip_unquoted(text: Seq<char>, i: int)
    requires
        0 <= i <= text.len(),
    ensures
        i <= skip_unquoted(text, i) <= text.len(),
        forall|j: int| i <= j < skip_unquoted(text, i) ==> #[trigger] text[j] != '"',
        skip_unquoted(text, i) < text.len() ==> text[skip_unquoted(text, i)] == '"',
    decreases text.len() - i,
{
    if i < text.len() && text[i] != '"' {
        lemma_skip_unquoted(text, i + 1);
    }
}

/// White space from `i` up to a position that holds none: that position is
/// where skipping from `i` ends.
proof fn lemma_skip_spaces_unique(text: Seq<char>, i: int, j: int)
    requires
        0 <= i <= j < text.len(),
        forall|k: int| i <= k < j ==> is_space(#[trigger] text[k]),
        !is_space(text[j]),
    ensures
        skip_spaces(text, i) == j,
    decreases j - i,
{
    if i < j {
        assert(is_space(text[i]));
        lemma_skip_spaces_unique(text, i + 1, j);
    }
}

proof fn lemma_skip_unquoted_unique(text: Seq<char>, i: int, j: int)
    requires
        0 <= i <= j < text.len(),
        forall|k: int| i <= k < j ==> #[trigger] text[k] != '"',
        text[j] == '"',
    ensures
        skip_unquoted(text, i) == j,
    decreases j - i,
{
    if i < j {
        assert(text[i] != '"');
        lemma_skip_unquoted_unique(text, i + 1, j);
    }
}

/// The pair that starts at a position is the one that the definition of a
/// pair describes, and there is no other.
pub proof fn law_pair_at(text: Seq<char>, key: Seq<char>, start: int, a: int, b: int)
    ensures
        is_pair(text, key, start, a, b) <==> pair_at(text, key, start) == Some((a, b)),
{
    let after = start + key.len() + 2;
    if is_pair(text, key, start, a, b) {
        assert(quoted(key).len() == key.len() + 2);
        assert(!is_space('"'));
        lemma_skip_spaces_unique(text, after, a - 1);
        lemma_skip_unquoted_unique(text, a, b);
    }
    if pair_at(text, key, start) == Some((a, b)) {
        assert(quoted(key).len() == key.len() + 2);
        lemma_skip_spaces(text, after);
        lemma_skip_unquoted(text, a);
    }
}

/// The first pair from `from` on starts nowhere before itself: no pair
/// starts between `from` and the place where the first one does.
pub proof fn law_first_pair(text: Seq<char>, key: Seq<char>, from: int)
    requires
        0 <= from,
    ensures
        match first_pair(text, key, from) {
            Some(span) => exists|start: int|
                from <= start < text.len() && #[trigger] pair_at(text, key, start) == Some(span)
                    && forall|s: int| from <= s < start ==> #[trigger] pair_at(text, key, s) is None,
            None => forall|s: int| from <= s ==> #[trigger] pair_at(text, key, s) is None,
        },
    decreases text.len() - from,
{
    if from >= text.len() {
        assert forall|s: int| from <= s implies #[trigger] pair_at(text, key, s) is None by {
            assert(quoted(key).len() == key.len() + 2);
        }
    } else if pair_at(text, key, from) is Some {
        assert(pair_at(text, key, from) == Some(first_pair(text, key, from)->0));
    } else {
        law_first_pair(text, key, from + 1);
        match first_pair(text, key, from + 1) {
            Some(span) => {
                let start = choose|start: int|
                    from + 1 <= start < text.len() && #[trigger] pair_at(text, key, start) == Some(
                        span,
                    ) && forall|s: int|
                        from + 1 <= s < start ==> #[trigger] pair_at(text, key, s) is None;
                assert forall|s: int| from <= s < start implies #[trigger] pair_at(
                    text,
                    key,
                    s,
                ) is None by {
                    if s > from {
                    }
                }
            },
            None => {
                assert forall|s: int| from <= s implies #[trigger] pair_at(text, key, s) is None by {
                    if s > from {
                    }
                }
            },
        }
    }
}

fn key_at(text: &Vec<char>, key: &Vec<char>, start: usize) -> (r: bool)
    requires
        start < text.len(),
    ensures
        r == has_at(text@, start as int, quoted(key@)),
{
    let k = key.len();
    let ghost pat = quoted(key@);
    assert(pat.len() == k + 2);
    if text.len() - start < 2 || text.len() - start - 2 < k {
        return false;
    }
    if text[start] != '"' {
        assert(text@.subrange(start as int, start + pat.len())[0] == text@[start as int]);
        return false;
    }
    let mut i: usize = 0;
    while i < k
        invariant
            i <= k,
            k == key.len(),
            start + k + 2 <= text.len(),
            pat == quoted(key@),
            forall|j: int| 0 <= j < i ==> text@[start + 1 + j] == key@[j],
        decreases k - i,
    {
        if text[start + 1 + i] != key[i] {
            assert(text@.subrange(start as int, start + pat.len())[1 + i] == text@[start + 1 + i]);
            assert(pat[1 + i] == key@[i as int]);
            return false;
        }
        i += 1;
    }
    if text[start + 1 + k] != '"' {
        assert(text@.subrange(start as int, start + pat.len())[1 + k] == text@[start + 1 + k]);
        return false;
    }
    assert(text@.subrange(start as int, start + pat.len()) =~= pat);
    true
}

fn value_at(text: &Vec<char>, key: &Vec<char>, start: usize) -> (r: Option<(usize, usize)>)
    requires
        start < text.len(),
    ensures
        match pair_at(text@, key@, start as int) {
            Some((a, b)) => r == Some((a as usize, b as usize)) && start < a < b < text.len(),
            None => r is None,
        },
{
    if !key_at(text, key, start) {
        return None;
    }
    assert(quoted(key@).len() == key.len() + 2);
    let n = text.len();
    let after = start + key.len() + 2;
    let mut open = after;
    while open < n && is_space_char(text[open])
        invariant
            after <= open <= n,
            n == text.len(),
            skip_spaces(text@, after as int) == skip_spaces(text@, open as int),
        decreases n - open,
    {
        open += 1;
    }
    if open >= n || text[open] != '"' {
        return None;
    }
    let mut close = open + 1;
    while close < n && text[close] != '"'
        invariant
            open + 1 <= close <= n,
            n == text.len(),
            skip_unquoted(text@, open + 1) == skip_unquoted(text@, close as int),
        decreases n - close,
    {
        close += 1;
    }
    if close <= open + 1 || close >= n {
        return None;
    }
    Some((open + 1, close))
}

fn find_pair(text: &Vec<char>, key: &Vec<char>, from: usize) -> (r: Option<(usize, usize)>)
    ensures
        match first_pair(text@, key@, from as int) {
            Some((a, b)) => r == Some((a as usize, b as usize)) && from < a < b < text.len(),
            None => r is None,
        },
{
    let mut start = from;
    while start < text.len()
        invariant
            from <= start,
            first_pair(text@, key@, from as int) == first_pair(text@, key@, start as int),
        decreases text.len() - start,
    {
        let found = value_at(text, key, start);
        if found.is_some() {
            return found;
        }
        start += 1;
    }
    None
}

/// The value of the first pair of `key` in `text`, if there is a pair.
pub fn extract_first(text: &str, key: &str) -> (r: Option<String>)
    ensures
        r.deep_view() == first_value(text@, key@),
{
    let chars = chars_of(text);
    let key_chars = chars_of(key);
    match find_pair(&chars, &key_chars, 0) {
        Some((a, b)) => Some(text.substring_char(a, b).to_owned()),
        None => None,
    }
}

/// The values of all pairs of `key` in `text`, in the order of the text.
pub fn extract_all(text: &str, key: &str) -> (r: Vec<String>)
    ensures
        r.deep_view() == all_values(text@, key@),
{
    let chars = chars_of(text);
    let key_chars = chars_of(key);
    let mut out: Vec<String> = Vec::new();
    let mut from: usize = 0;
    loop
        invariant
            chars@ == text@,
            key_chars@ == key@,
            from <= chars.len(),
            all_values(text@, key@) == out.deep_view() + values_from(text@, key@, from as int),
        ensures
            out.deep_view() == all_values(text@, key@),
        decreases chars.len() - from,
    {
        match find_pair(&chars, &key_chars, from) {
            None => {
                break ;
            },
            Some((a, b)) => {
                let ghost before = out.deep_view();
                let value = text.substring_char(a, b).to_owned();
                out.push(value);
                assert(out.deep_view() =~= before + seq![text@.subrange(a as int, b as int)]);
                from = b + 1;
            },
        }
    }
    out
}

/// The display name that an application manifest gives: the value of its
/// first `name` pair.
pub fn parse_acf_name(acf_text: &str) -> (r: Option<String>)
    ensures
        r.deep_view() == first_value(acf_text@, name_key()),
{
    proof {
        reveal_strlit("name");
        assert("name"@ =~= name_key());
    }
    extract_first(acf_text, "name")
}

/// The library locations that a registry file lists: the values of its
/// `path` pairs, in the order of the file.
pub fn parse_libraryfolders_paths(vdf_text: &str) -> (r: Vec<String>)
    ensures
        r.deep_view() == all_values(vdf_text@, path_key()),
{
    proof {
        reveal_strlit("path");
        assert("path"@ =~= path_key());
    }
    extract_all(vdf_text, "path")
}

} // verus!
