//! The two directory-name grammars: a clip folder, `fg_<id>_<date>_<time>`,
//! and the container that holds it, `clip_<id>_<date>_<time>`.
//!
//! Both are a literal prefix followed by three groups of decimal digits that
//! underscores separate: an identifier of one digit or more, a date of eight
//! digits and a time of six. The whole name has to match.

use vstd::prelude::*;
use crate::appid::AppId;
use crate::text::{all_digits, chars_of, decimal_value, digits_in};

verus! {

/// The prefix of a clip folder's name.
pub open spec fn clip_prefix() -> Seq<char> {
    seq!['f', 'g', '_']
}

/// The prefix of a container folder's name.
pub open spec fn container_prefix() -> Seq<char> {
    seq!['c', 'l', 'i', 'p', '_']
}

/// `name` is `prefix`, then digits, `_`, eight digits, `_`, six digits, and
/// nothing else.
pub open spec fn has_token_form(prefix: Seq<char>, name: Seq<char>) -> bool {
    let n = name.len() as int;
    let p = prefix.len() as int;
    &&& n >= p + 17
    &&& name.subrange(0, p) == prefix
    &&& all_digits(name.subrange(p, n - 16))
    &&& name[n - 16] == '_'
    &&& all_digits(name.subrange(n - 15, n - 7))
    &&& name[n - 7] == '_'
    &&& all_digits(name.subrange(n - 6, n))
}

/// The identifier group of a name of that form.
pub open spec fn id_token(prefix: Seq<char>, name: Seq<char>) -> Seq<char> {
    name.subrange(prefix.len() as int, name.len() - 16)
}

/// The date group of a name of that form.
pub open spec fn date_token(name: Seq<char>) -> Seq<char> {
    name.subrange(name.len() - 15, name.len() - 7)
}

/// The time group of a name of that form.
pub open spec fn time_token(name: Seq<char>) -> Seq<char> {
    name.subrange(name.len() - 6, name.len() as int)
}

/// The name that a prefix and three groups make.
pub open spec fn token_name(
    prefix: Seq<char>,
    id: Seq<char>,
    date: Seq<char>,
    time: Seq<char>,
) -> Seq<char> {
    prefix + id + seq!['_'] + date + seq!['_'] + time
}

/// What a clip folder's name says.
#[derive(Clone, Debug, PartialEq, Eq)]
pub struct ClipName {
    pub appid: AppId,
    pub date: String,
    pub time: String,
}

pub struct ClipNameView {
    pub appid: nat,
    pub date: Seq<char>,
    pub time: Seq<char>,
}

impl View for ClipName {
    type V = ClipNameView;

    open spec fn view(&self) -> ClipNameView {
        ClipNameView { appid: self.appid@, date: self.date@, time: self.time@ }
    }
}

/// How a directory name stands to the clip grammar.
#[derive(Clone, Debug, PartialEq, Eq)]
pub enum NameClass {
    /// The name of a clip folder, with a positive identifier.
    Clip(ClipName),
    /// A name of the clip form whose identifier is zero: no clip, and
    /// nothing to look into either.
    Rejected,
    /// Any other name.
    Other,
}

pub enum NameClassView {
    Clip(ClipNameView),
    Rejected,
    Other,
}

impl View for NameClass {
    type V = NameClassView;

    open spec fn view(&self) -> NameClassView {
        match self {
            NameClass::Clip(c) => NameClassView::Clip(c@),
            NameClass::Rejected => NameClassView::Rejected,
            NameClass::Other => NameClassView::Other,
        }
    }
}

/// The class of a directory name.
pub open spec fn classify(name: Seq<char>) -> NameClassView {
    if !has_token_form(clip_prefix(), name) {
        NameClassView::Other
    } else if decimal_value(id_token(clip_prefix(), name)) == 0 {
        NameClassView::Rejected
    } else {
        NameClassView::Clip(
            ClipNameView {
                appid: decimal_value(id_token(clip_prefix(), name)),
                date: date_token(name),
                time: time_token(name),
            },
        )
    }
}

/// `name` is the name of a container folder.
pub open spec fn is_container(name: Seq<char>) -> bool {
    has_token_form(container_prefix(), name)
}

fn starts_with(name: &Vec<char>, prefix: &Vec<char>) -> (r: bool)
    ensures
        r == (prefix.len() <= name.len() && name@.subrange(0, prefix.len() as int) == prefix@),
{
    if name.len() < prefix.len() {
        return false;
    }
    let mut i: usize = 0;
    while i < prefix.len()
        invariant
            i <= prefix.len() <= name.len(),
            name@.subrange(0, i as int) == prefix@.subrange(0, i as int),
        decreases prefix.len() - i,
    {
        if name[i] != prefix[i] {
            assert(name@.subrange(0, prefix.len() as int)[i as int] != prefix@[i as int]);
            return false;
        }
        assert(name@.subrange(0, i + 1) =~= name@.subrange(0, i as int).push(name@[i as int]));
        assert(prefix@.subrange(0, i + 1) =~= prefix@.subrange(0, i as int).push(
            prefix@[i as int],
        ));
        i += 1;
    }
    assert(prefix@.subrange(0, prefix.len() as int) =~= prefix@);
    true
}

fn token_form(prefix: &Vec<char>, name: &Vec<char>) -> (r: bool)
    ensures
        r == has_token_form(prefix@, name@),
{
    let n = name.len();
    let p = prefix.len();
    if n < 17 || n - 17 < p {
        return false;
    }
    starts_with(name, prefix) && digits_in(name, p, n - 16) && name[n - 16] == '_' && digits_in(
        name,
        n - 15,
        n - 7,
    ) && name[n - 7] == '_' && digits_in(name, n - 6, n)
}

/// Classifies a directory name against the clip grammar.
pub fn classify_name(name: &str) -> (r: NameClass)
    ensures
        r@ == classify(name@),
{
    let chars = chars_of(name);
    let prefix = chars_of("fg_");
    proof {
        reveal_strlit("fg_");
        assert(prefix@ =~= clip_prefix());
    }
    if !token_form(&prefix, &chars) {
        return NameClass::Other;
    }
    let n = chars.len();
    let appid = AppId::from_numeral(name, &chars, 3, n - 16);
    if appid.is_zero() {
        NameClass::Rejected
    } else {
        let date = name.substring_char(n - 15, n - 7).to_owned();
        let time = name.substring_char(n - 6, n).to_owned();
        NameClass::Clip(ClipName { appid, date, time })
    }
}

/// Whether `name` is the name of a container folder.
pub fn is_container_name(name: &str) -> (r: bool)
    ensures
        r == is_container(name@),
{
    let chars = chars_of(name);
    let prefix = chars_of("clip_");
    proof {
        reveal_strlit("clip_");
        assert(prefix@ =~= container_prefix());
    }
    token_form(&prefix, &chars)
}

/// The groups have the sizes that the grammar asks for.
pub open spec fn groups_fit(id: Seq<char>, date: Seq<char>, time: Seq<char>) -> bool {
    &&& id.len() >= 1
    &&& all_digits(id)
    &&& date.len() == 8
    &&& all_digits(date)
    &&& time.len() == 6
    &&& all_digits(time)
}

/// A name made of a prefix and three groups of the right sizes has the
/// form, and read back it gives the same three groups.
pub proof fn law_token_name_read_back(
    prefix: Seq<char>,
    id: Seq<char>,
    date: Seq<char>,
    time: Seq<char>,
)
    requires
        groups_fit(id, date, time),
    ensures
        has_token_form(prefix, token_name(prefix, id, date, time)),
        id_token(prefix, token_name(prefix, id, date, time)) == id,
        date_token(token_name(prefix, id, date, time)) == date,
        time_token(token_name(prefix, id, date, time)) == time,
{
    let name = token_name(prefix, id, date, time);
    let n = name.len() as int;
    let p = prefix.len() as int;
    assert(n == p + id.len() + 16);
    assert(name.subrange(0, p) =~= prefix);
    assert(name.subrange(p, n - 16) =~= id);
    assert(name.subrange(n - 15, n - 7) =~= date);
    assert(name.subrange(n - 6, n) =~= time);
}

/// A name of the form is made of the prefix and of its three groups, which
/// have the right sizes.
pub proof fn law_token_form_groups(prefix: Seq<char>, name: Seq<char>)
    requires
        has_token_form(prefix, name),
    ensures
        groups_fit(id_token(prefix, name), date_token(name), time_token(name)),
        name == token_name(prefix, id_token(prefix, name), date_token(name), time_token(name)),
{
    assert(name =~= token_name(
        prefix,
        id_token(prefix, name),
        date_token(name),
        time_token(name),
    ));
}

/// A name of the clip form whose identifier is not zero is classified as a
/// clip, with the identifier's value, however large, and with the date and
/// the time as the name spells them.
pub proof fn law_classify_clip(id: Seq<char>, date: Seq<char>, time: Seq<char>)
    requires
        groups_fit(id, date, time),
        decimal_value(id) > 0,
    ensures
        classify(token_name(clip_prefix(), id, date, time)) == NameClassView::Clip(
            ClipNameView { appid: decimal_value(id), date, time },
        ),
{
    law_token_name_read_back(clip_prefix(), id, date, time);
}

/// A name of the clip form whose identifier is zero is rejected.
pub proof fn law_classify_zero(id: Seq<char>, date: Seq<char>, time: Seq<char>)
    requires
        groups_fit(id, date, time),
        decimal_value(id) == 0,
    ensures
        classify(token_name(clip_prefix(), id, date, time)) == NameClassView::Rejected,
{
    law_token_name_read_back(clip_prefix(), id, date, time);
}

} // verus!
