//! The name of the file that a clip is written to:
//! `<display name, made safe>-<date>-<time>.mp4`.

use vstd::prelude::*;
use crate::appid::AppId;
use crate::text::{all_digits, decimal_digits};

verus! {

/// A character that a file name must not hold: one that separates or
/// stands for something in a path or a pattern, or a control character.
pub open spec fn is_unsafe_char(c: char) -> bool {
    ||| c == '/'
    ||| c == '?'
    ||| c == '<'
    ||| c == '>'
    ||| c == '\\'
    ||| c == ':'
    ||| c == '*'
    ||| c == '|'
    ||| c == '"'
    ||| c <= '\u{1f}'
    ||| '\u{80}' <= c <= '\u{9f}'
}

/// No character of `s` is unsafe.
pub open spec fn is_safe(s: Seq<char>) -> bool {
    forall|i: int| 0 <= i < s.len() ==> !is_unsafe_char(#[trigger] s[i])
}

/// The file name that a stem, a date and a time make.
pub open spec fn file_name(stem: Seq<char>, date: Seq<char>, time: Seq<char>) -> Seq<char> {
    stem + seq!['-'] + date + seq!['-'] + time + seq!['.', 'm', 'p', '4']
}

/// The name that a clip goes by: the application's display name where one
/// was found, else the identifier in decimal.
pub open spec fn display_name_of(resolved: Option<Seq<char>>, appid: nat) -> Seq<char> {
    match resolved {
        Some(name) => name,
        None => decimal_digits(appid),
    }
}

/// The name that a clip goes by: the application's display name where one
/// was found, else the identifier in decimal.
pub fn display_name(resolved: Option<String>, appid: &AppId) -> (r: String)
    ensures
        r@ == display_name_of(resolved.deep_view(), appid@),
{
    match resolved {
        Some(name) => name,
        None => appid.decimal(),
    }
}

/// What is left of `name` once every unsafe character is out.
pub open spec fn safe_part(name: Seq<char>) -> Seq<char>
    decreases name.len(),
{
    if name.len() == 0 {
        Seq::empty()
    } else if is_unsafe_char(name.last()) {
        safe_part(name.drop_last())
    } else {
        safe_part(name.drop_last()).push(name.last())
    }
}

/// A character that the name of a device may begin with on some platform:
/// one of the letters `c`, `p`, `a`, `n`, `l`, small or capital, or, to be
/// on the safe side, any character outside ASCII.
pub open spec fn may_begin_device_name(c: char) -> bool {
    ||| c == 'c' || c == 'C'
    ||| c == 'p' || c == 'P'
    ||| c == 'a' || c == 'A'
    ||| c == 'n' || c == 'N'
    ||| c == 'l' || c == 'L'
    ||| c > '\u{7f}'
}

/// A text that no platform empties or trims: not ending in a dot or a
/// space, so not made of dots alone, and not beginning as the name of a
/// device does.
pub open spec fn left_alone(s: Seq<char>) -> bool {
    &&& s.len() > 0 ==> s.last() != '.' && s.last() != ' '
    &&& s.len() >= 3 ==> !may_begin_device_name(s[0])
}

/// The number of bytes that `c` takes in UTF-8.
pub open spec fn utf8_width(c: char) -> nat {
    if c <= '\u{7f}' {
        1
    } else if c <= '\u{7ff}' {
        2
    } else if c <= '\u{ffff}' {
        3
    } else {
        4
    }
}

/// The number of bytes that `s` takes in UTF-8.
pub open spec fn utf8_len(s: Seq<char>) -> nat
    decreases s.len(),
{
    if s.len() == 0 {
        0
    } else {
        utf8_len(s.drop_last()) + utf8_width(s.last())
    }
}

/// The longest beginning of `s` that takes no more than `limit` bytes.
pub open spec fn cut_to(s: Seq<char>, limit: nat) -> Seq<char>
    decreases s.len(),
{
    if s.len() == 0 || utf8_len(s) <= limit {
        s
    } else {
        cut_to(s.drop_last(), limit)
    }
}

/// Calls `sanitize_filename::sanitize`. Trusted: it first takes the
/// characters `/ ? < > \ : * | "` and the control characters (U+0000 to
/// U+001F, U+0080 to U+009F) out of `name`, and after that only ever cuts
/// at the end or empties, so what it returns begins what is left of `name`
/// without those characters; it is at most 255 bytes long; and of a text
/// that no platform empties or trims it is the longest beginning that
/// takes no more than 255 bytes. What becomes of other texts depends on
/// the platform, and nothing more is claimed of that.
#[verifier::external_body]
fn sanitize(name: &str) -> (r: String)
    ensures
        r@.is_prefix_of(safe_part(name@)),
        utf8_len(r@) <= 255,
        left_alone(safe_part(name@)) ==> r@ == cut_to(safe_part(name@), 255),
{
    sanitize_filename::sanitize(name)
}

/// What is left of a text without its unsafe characters is safe.
pub proof fn law_safe_part_is_safe(name: Seq<char>)
    ensures
        is_safe(safe_part(name)),
    decreases name.len(),
{
    if name.len() > 0 {
        law_safe_part_is_safe(name.drop_last());
    }
}

/// Puts a file name together from a stem that is safe already.
pub fn compose_file_name(stem: &str, date: &str, time: &str) -> (r: String)
    ensures
        r@ == file_name(stem@, date@, time@),
{
    proof {
        reveal_strlit("-");
        reveal_strlit(".mp4");
    }
    let mut name = stem.to_owned();
    name.append("-");
    name.append(date);
    name.append("-");
    name.append(time);
    name.append(".mp4");
    assert(name@ =~= file_name(stem@, date@, time@));
    name
}

/// The stem of a file name that was made with `date` and `time`.
pub open spec fn stem_of(name: Seq<char>, date: Seq<char>, time: Seq<char>) -> Seq<char> {
    name.subrange(0, name.len() - date.len() - time.len() - 6)
}

/// The name of the file that a clip is written to: the display name made
/// safe, then the date and the time of the recording.
///
/// The stem begins what is left of the display name once every unsafe
/// character is out; where no platform empties or trims that, the stem is
/// its longest beginning of no more than 255 bytes, so all of it where it
/// is that short. The stem may be empty. With a date and a time of digits
/// the whole name is safe: it names one file and no path.
pub fn output_file_name(display_name: &str, date: &str, time: &str) -> (r: String)
    ensures
        r@ == file_name(stem_of(r@, date@, time@), date@, time@),
        stem_of(r@, date@, time@).is_prefix_of(safe_part(display_name@)),
        utf8_len(stem_of(r@, date@, time@)) <= 255,
        is_safe(stem_of(r@, date@, time@)),
        left_alone(safe_part(display_name@)) ==> r@ == file_name(
            cut_to(safe_part(display_name@), 255),
            date@,
            time@,
        ),
        all_digits(date@) && all_digits(time@) ==> is_safe(r@),
{
    let stem = sanitize(display_name);
    let name = compose_file_name(stem.as_str(), date, time);
    proof {
        assert(stem_of(name@, date@, time@) =~= stem@);
        law_safe_part_is_safe(display_name@);
        assert(is_safe(stem@)) by {
            assert forall|i: int| 0 <= i < stem@.len() implies !is_unsafe_char(
                #[trigger] stem@[i],
            ) by {
                assert(stem@[i] == safe_part(display_name@)[i]);
            }
        }
        if all_digits(date@) && all_digits(time@) {
            law_file_name_safe(stem@, date@, time@);
        }
    }
    name
}

/// A file name made of a safe stem and of a date and a time of digits is
/// safe.
pub proof fn law_file_name_safe(stem: Seq<char>, date: Seq<char>, time: Seq<char>)
    requires
        is_safe(stem),
        all_digits(date),
        all_digits(time),
    ensures
        is_safe(file_name(stem, date, time)),
{
    let name = file_name(stem, date, time);
    let s = stem.len() as int;
    let d = date.len() as int;
    let t = time.len() as int;
    assert forall|i: int| 0 <= i < name.len() implies !is_unsafe_char(#[trigger] name[i]) by {
        if i < s {
            assert(name[i] == stem[i]);
        } else if i == s {
            assert(name[i] == '-');
        } else if i < s + 1 + d {
            assert(name[i] == date[i - s - 1]);
        } else if i == s + 1 + d {
            assert(name[i] == '-');
        } else if i < s + 2 + d + t {
            assert(name[i] == time[i - s - 2 - d]);
        } else {
            let ext = seq!['.', 'm', 'p', '4'];
            assert(name[i] == ext[i - s - 2 - d - t]);
        }
    }
}

} // verus!
