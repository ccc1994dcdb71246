//! RFC-3339 rendering of calendar records.

use vstd::prelude::*;
use vstd::string::StringExecFns;

use crate::Time;
use crate::sys::tm;
use crate::sys::tm_normalize_spec;

verus! {

/// The decimal digit character for a value between 0 and 9.
pub open spec fn dec_digit(v: int) -> char {
    if v == 0 {
        '0'
    } else if v == 1 {
        '1'
    } else if v == 2 {
        '2'
    } else if v == 3 {
        '3'
    } else if v == 4 {
        '4'
    } else if v == 5 {
        '5'
    } else if v == 6 {
        '6'
    } else if v == 7 {
        '7'
    } else if v == 8 {
        '8'
    } else {
        '9'
    }
}

/// A field value rendered with at least two digits: zero-padded below 10,
/// and never truncated above 99.
pub open spec fn dec2_digits(v: int) -> Seq<char> {
    if v < 100 {
        seq![dec_digit(v / 10), dec_digit(v % 10)]
    } else {
        seq![dec_digit(v / 100), dec_digit(v / 10 % 10), dec_digit(v % 10)]
    }
}

/// A year rendered with at least four digits: zero-padded below 1000, and
/// never truncated above 9999.
pub open spec fn year_digits(v: int) -> Seq<char> {
    if v < 10000 {
        seq![
            dec_digit(v / 1000),
            dec_digit(v / 100 % 10),
            dec_digit(v / 10 % 10),
            dec_digit(v % 10),
        ]
    } else {
        seq![
            dec_digit(v / 10000),
            dec_digit(v / 1000 % 10),
            dec_digit(v / 100 % 10),
            dec_digit(v / 10 % 10),
            dec_digit(v % 10),
        ]
    }
}

/// The RFC-3339 UTC representation `YYYY-MM-DDThh:mm:ssZ` of a normalized
/// record.
pub open spec fn rfc3339_chars(t: Time) -> Seq<char> {
    year_digits(t.year as int) + seq!['-'] + dec2_digits(t.month as int) + seq!['-'] + dec2_digits(
        t.month_day as int,
    ) + seq!['T'] + dec2_digits(t.hour as int) + seq![':'] + dec2_digits(t.min as int) + seq![':']
        + dec2_digits(t.sec as int) + seq!['Z']
}

/// The RFC-3339 representation of a raw record: the record normalized, then
/// rendered.
pub open spec fn rfc3339_tm_chars(m: tm) -> Seq<char> {
    rfc3339_chars(tm_normalize_spec(m))
}

/// Normalization is format-preserving: a raw record and its normalized
/// counterpart render as the identical RFC-3339 string.
pub proof fn lemma_format_preserves_normalization(m: tm)
    ensures
        rfc3339_tm_chars(m) == rfc3339_chars(tm_normalize_spec(m)),
{
}

/// RFC-3339 encoder for tm
pub struct Rfc3339<'a, T>(pub &'a T);

fn digit_str(d: u8) -> (r: &'static str)
    requires
        d < 10,
    ensures
        r@ == seq![dec_digit(d as int)],
{
    if d == 0 {
        proof {
            reveal_strlit("0");
            assert(("0")@ =~= seq![dec_digit(0int)]);
        }
        "0"
    } else if d == 1 {
        proof {
            reveal_strlit("1");
            assert(("1")@ =~= seq![dec_digit(1int)]);
        }
        "1"
    } else if d == 2 {
        proof {
            reveal_strlit("2");
            assert(("2")@ =~= seq![dec_digit(2int)]);
        }
        "2"
    } else if d == 3 {
        proof {
            reveal_strlit("3");
            assert(("3")@ =~= seq![dec_digit(3int)]);
        }
        "3"
    } else if d == 4 {
        proof {
            reveal_strlit("4");
            assert(("4")@ =~= seq![dec_digit(4int)]);
        }
        "4"
    } else if d == 5 {
        proof {
            reveal_strlit("5");
            assert(("5")@ =~= seq![dec_digit(5int)]);
        }
        "5"
    } else if d == 6 {
        proof {
            reveal_strlit("6");
            assert(("6")@ =~= seq![dec_digit(6int)]);
        }
        "6"
    } else if d == 7 {
        proof {
            reveal_strlit("7");
            assert(("7")@ =~= seq![dec_digit(7int)]);
        }
        "7"
    } else if d == 8 {
        proof {
            reveal_strlit("8");
            assert(("8")@ =~= seq![dec_digit(8int)]);
        }
        "8"
    } else {
        proof {
            reveal_strlit("9");
            assert(("9")@ =~= seq![dec_digit(9int)]);
        }
        "9"
    }
}

fn push_two(s: &mut String, v: u8)
    ensures
        final(s)@ == old(s)@ + dec2_digits(v as int),
{
    if v < 100 {
        s.append(digit_str(v / 10));
        s.append(digit_str(v % 10));
        assert(s@ =~= old(s)@ + dec2_digits(v as int));
    } else {
        s.append(digit_str(v / 100));
        s.append(digit_str(v / 10 % 10));
        s.append(digit_str(v % 10));
        assert(s@ =~= old(s)@ + dec2_digits(v as int));
    }
}

fn push_year(s: &mut String, v: u16)
    ensures
        final(s)@ == old(s)@ + year_digits(v as int),
{
    if v < 10000 {
        s.append(digit_str((v / 1000) as u8));
        s.append(digit_str((v / 100 % 10) as u8));
        s.append(digit_str((v / 10 % 10) as u8));
        s.append(digit_str((v % 10) as u8));
        assert(s@ =~= old(s)@ + year_digits(v as int));
    } else {
        s.append(digit_str((v / 10000) as u8));
        s.append(digit_str((v / 1000 % 10) as u8));
        s.append(digit_str((v / 100 % 10) as u8));
        s.append(digit_str((v / 10 % 10) as u8));
        s.append(digit_str((v % 10) as u8));
        assert(s@ =~= old(s)@ + year_digits(v as int));
    }
}

impl<'a> Rfc3339<'a, Time> {
    /// Renders `YYYY-MM-DDThh:mm:ssZ`: every numeric field zero-padded to
    /// its nominal width, wider only when the value overflows it, with the
    /// trailing `Z` always emitted.
    pub fn to_string(&self) -> (r: String)
        ensures
            r@ == rfc3339_chars(*self.0),
    {
        let t = self.0;
        let mut s = String::new();
        push_year(&mut s, t.year);
        s.append("-");
        push_two(&mut s, t.month);
        s.append("-");
        push_two(&mut s, t.month_day);
        s.append("T");
        push_two(&mut s, t.hour);
        s.append(":");
        push_two(&mut s, t.min);
        s.append(":");
        push_two(&mut s, t.sec);
        s.append("Z");
        proof {
            reveal_strlit("-");
            reveal_strlit("T");
            reveal_strlit(":");
            reveal_strlit("Z");
            assert(("-")@ =~= seq!['-']);
            assert(("T")@ =~= seq!['T']);
            assert((":")@ =~= seq![':']);
            assert(("Z")@ =~= seq!['Z']);
            assert(s@ =~= rfc3339_chars(*self.0));
        }
        s
    }
}

impl<'a> Rfc3339<'a, tm> {
    /// Renders a raw record: the formatter applies the same field
    /// adjustments as [`tm::normalize`] first, so a raw record and its
    /// normalized counterpart print identically.
    pub fn to_string(&self) -> (r: String)
        ensures
            r@ == rfc3339_tm_chars(*self.0),
    {
        let n = self.0.normalize();
        let f = Rfc3339(&n);
        f.to_string()
    }
}

} // verus!
