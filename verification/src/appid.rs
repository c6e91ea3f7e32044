//! The identifier of an application: a natural number of any size, held as
//! its decimal numeral.

use vstd::prelude::*;
use crate::text::{
    all_digits, chars_of, decimal_digits, decimal_value, digit_char, digit_value, digits_in,
    is_digit, push_decimal, same_text,
};

verus! {

/// `s` is the numeral of a number as it is commonly written: digits, one at
/// least, and no zero in front of another digit.
pub open spec fn is_canonical(s: Seq<char>) -> bool {
    s.len() >= 1 && all_digits(s) && (s.len() == 1 || s[0] != '0')
}

/// A zero in front of a numeral changes nothing.
pub proof fn lemma_leading_zero(s: Seq<char>)
    requires
        s.len() >= 1,
        s[0] == '0',
    ensures
        decimal_value(s) == decimal_value(s.drop_first()),
    decreases s.len(),
{
    if s.len() == 1 {
        assert(s.drop_last() =~= Seq::<char>::empty());
        assert(s.drop_first() =~= Seq::<char>::empty());
    } else {
        lemma_leading_zero(s.drop_last());
        assert(s.drop_first().drop_last() =~= s.drop_last().drop_first());
        assert(s.drop_first().last() == s.last());
    }
}

/// A numeral that begins with another digit than zero is worth one at
/// least.
pub proof fn lemma_positive(s: Seq<char>)
    requires
        s.len() >= 1,
        all_digits(s),
        s[0] != '0',
    ensures
        decimal_value(s) >= 1,
    decreases s.len(),
{
    if s.len() == 1 {
        assert(s.drop_last() =~= Seq::<char>::empty());
        assert(is_digit(s[0]));
    } else {
        let front = s.drop_last();
        assert forall|i: int| 0 <= i < front.len() implies is_digit(#[trigger] front[i]) by {
            assert(front[i] == s[i]);
        }
        lemma_positive(front);
    }
}

/// A number is written in one way only: the numeral of the value of a
/// numeral as commonly written is that numeral.
pub proof fn law_numeral_of_value(s: Seq<char>)
    requires
        is_canonical(s),
    ensures
        decimal_digits(decimal_value(s)) == s,
    decreases s.len(),
{
    let d = digit_value(s.last());
    assert(is_digit(s[s.len() - 1]));
    assert(digit_char(d) == s.last());
    if s.len() == 1 {
        assert(s.drop_last() =~= Seq::<char>::empty());
        assert(decimal_digits(decimal_value(s)) =~= s);
    } else {
        let front = s.drop_last();
        assert forall|i: int| 0 <= i < front.len() implies is_digit(#[trigger] front[i]) by {
            assert(front[i] == s[i]);
        }
        assert(front[0] == s[0]);
        lemma_positive(front);
        law_numeral_of_value(front);
        let v = decimal_value(front);
        assert(decimal_value(s) == v * 10 + d);
        assert((v * 10 + d) / 10 == v && (v * 10 + d) % 10 == d);
        assert(decimal_digits(decimal_value(s)) =~= front.push(s.last()));
        assert(front.push(s.last()) =~= s);
    }
}

/// The digit for a number below ten is a digit, and stands for that number.
proof fn lemma_digit_char(d: nat)
    requires
        d < 10,
    ensures
        is_digit(digit_char(d)),
        digit_value(digit_char(d)) == d,
{
    if d == 0 {
        assert(digit_char(d) == '0');
    } else if d == 1 {
        assert(digit_char(d) == '1');
    } else if d == 2 {
        assert(digit_char(d) == '2');
    } else if d == 3 {
        assert(digit_char(d) == '3');
    } else if d == 4 {
        assert(digit_char(d) == '4');
    } else if d == 5 {
        assert(digit_char(d) == '5');
    } else if d == 6 {
        assert(digit_char(d) == '6');
    } else if d == 7 {
        assert(digit_char(d) == '7');
    } else if d == 8 {
        assert(digit_char(d) == '8');
    } else {
        assert(digit_char(d) == '9');
    }
}

/// The numeral of a number is as commonly written, and is worth the
/// number.
pub proof fn law_value_of_numeral(n: nat)
    ensures
        is_canonical(decimal_digits(n)),
        decimal_value(decimal_digits(n)) == n,
    decreases n,
{
    let s = decimal_digits(n);
    lemma_digit_char(n % 10);
    if n < 10 {
        assert(s.drop_last() =~= Seq::<char>::empty());
        assert(s.last() == digit_char(n));
        assert(decimal_value(s) == decimal_value(s.drop_last()) * 10 + digit_value(s.last()));
    } else {
        law_value_of_numeral(n / 10);
        let front = decimal_digits(n / 10);
        assert(s.drop_last() =~= front);
        assert(s.last() == digit_char(n % 10));
        assert(digit_value(digit_char(n % 10)) == n % 10);
        assert(decimal_value(s) == decimal_value(front) * 10 + n % 10);
        assert((n / 10) * 10 + n % 10 == n);
        assert forall|i: int| 0 <= i < s.len() implies is_digit(#[trigger] s[i]) by {
            if i < front.len() {
                assert(s[i] == front[i]);
            }
        }
        assert(s[0] == front[0]);
        if front[0] == '0' {
            lemma_leading_zero(front);
            if front.len() == 1 {
                assert(front.drop_first() =~= Seq::<char>::empty());
            }
            assert(front.len() == 1);
            assert(decimal_value(front) == 0);
        }
    }
}

/// The identifier of an application.
#[derive(Debug, PartialEq, Eq)]
pub struct AppId {
    digits: String,
}

impl View for AppId {
    type V = nat;

    /// The number.
    closed spec fn view(&self) -> nat {
        decimal_value(self.digits@)
    }
}

impl DeepView for AppId {
    type V = nat;

    open spec fn deep_view(&self) -> nat {
        self@
    }
}

impl AppId {
    #[verifier::type_invariant]
    spec fn well_formed(self) -> bool {
        is_canonical(self.digits@)
    }

    /// The identifier that `text` spells from position `from` up to `to`,
    /// where `chars` holds the characters of `text`.
    pub(crate) fn from_numeral(text: &str, chars: &Vec<char>, from: usize, to: usize) -> (r:
        AppId)
        requires
            chars@ == text@,
            from < to <= chars.len(),
            all_digits(chars@.subrange(from as int, to as int)),
        ensures
            r@ == decimal_value(chars@.subrange(from as int, to as int)),
    {
        let ghost numeral = chars@.subrange(from as int, to as int);
        let mut start: usize = from;
        while start + 1 < to && chars[start] == '0'
            invariant
                from <= start < to <= chars.len(),
                numeral == chars@.subrange(from as int, to as int),
                decimal_value(numeral) == decimal_value(chars@.subrange(start as int, to as int)),
            decreases to - start,
        {
            proof {
                let here = chars@.subrange(start as int, to as int);
                lemma_leading_zero(here);
                assert(here.drop_first() =~= chars@.subrange(start + 1, to as int));
            }
            start += 1;
        }
        let digits = text.substring_char(start, to).to_owned();
        proof {
            let here = chars@.subrange(start as int, to as int);
            assert(digits@ == here);
            assert forall|i: int| 0 <= i < here.len() implies is_digit(#[trigger] here[i]) by {
                assert(here[i] == numeral[i + start - from]);
            }
        }
        AppId { digits }
    }

    /// The identifier that `text` spells: `None` unless `text` is made of
    /// digits, one at least. Zeros in front count for nothing.
    pub fn parse(text: &str) -> (r: Option<AppId>)
        ensures
            r is Some <==> text@.len() >= 1 && all_digits(text@),
            r matches Some(id) ==> id@ == decimal_value(text@),
    {
        let chars = chars_of(text);
        let n = chars.len();
        assert(chars@.subrange(0, n as int) =~= text@);
        if n == 0 || !digits_in(&chars, 0, n) {
            return None;
        }
        Some(AppId::from_numeral(text, &chars, 0, n))
    }

    /// The identifier `n`.
    pub fn from_u64(n: u64) -> (r: AppId)
        ensures
            r@ == n,
    {
        let mut digits = String::new();
        push_decimal(&mut digits, n);
        proof {
            law_value_of_numeral(n as nat);
            assert(digits@ =~= decimal_digits(n as nat));
        }
        AppId { digits }
    }

    /// The identifier in decimal, as commonly written.
    pub fn decimal(&self) -> (r: String)
        ensures
            r@ == decimal_digits(self@),
    {
        proof {
            use_type_invariant(self);
            law_numeral_of_value(self.digits@);
        }
        self.digits.clone()
    }

    /// Whether this is the identifier `other`.
    pub fn same(&self, other: &AppId) -> (r: bool)
        ensures
            r == (self@ == other@),
    {
        proof {
            use_type_invariant(self);
            use_type_invariant(other);
            law_numeral_of_value(self.digits@);
            law_numeral_of_value(other.digits@);
        }
        same_text(self.digits.as_str(), other.digits.as_str())
    }

    /// Whether this is the identifier zero.
    pub fn is_zero(&self) -> (r: bool)
        ensures
            r == (self@ == 0),
    {
        proof {
            use_type_invariant(self);
            law_numeral_of_value(self.digits@);
            reveal_strlit("0");
            assert("0"@ =~= decimal_digits(0));
            law_value_of_numeral(0);
        }
        same_text(self.digits.as_str(), "0")
    }

    /// The same identifier once more.
    pub fn copy(&self) -> (r: AppId)
        ensures
            r@ == self@,
    {
        proof {
            use_type_invariant(self);
        }
        AppId { digits: self.digits.clone() }
    }
}

impl Clone for AppId {
    fn clone(&self) -> (r: AppId)
        ensures
            r@ == self@,
    {
        self.copy()
    }
}

} // verus!
