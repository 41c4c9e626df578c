//! Lenient per-field coercion: currency and percentage decoration is
//! stripped, then the text is read as a decimal numeral; any text that is
//! no numeral degrades to zero instead of failing.

use vstd::prelude::*;
use crate::chars::chars_of;
use crate::decimal::{
    all_digits, digits_val, is_digit, spec_parse_decimal, parse_decimal, Dec,
};

verus! {

/// Characters dropped before a currency field is read: the dollar sign
/// and the thousands separator.
pub open spec fn keep_currency(c: char) -> bool {
    c != '$' && c != ','
}

/// Characters dropped before a percentage field is read: the percent sign.
pub open spec fn keep_percent(c: char) -> bool {
    c != '%'
}

pub open spec fn strip_currency(s: Seq<char>) -> Seq<char>
    decreases s.len(),
{
    if s.len() == 0 {
        Seq::empty()
    } else if keep_currency(s.last()) {
        strip_currency(s.drop_last()).push(s.last())
    } else {
        strip_currency(s.drop_last())
    }
}

pub open spec fn strip_percent(s: Seq<char>) -> Seq<char>
    decreases s.len(),
{
    if s.len() == 0 {
        Seq::empty()
    } else if keep_percent(s.last()) {
        strip_percent(s.drop_last()).push(s.last())
    } else {
        strip_percent(s.drop_last())
    }
}

/// The currency coercion: `$` and `,` removed, the rest read as a decimal
/// numeral, zero on failure.
pub open spec fn spec_currency(s: Seq<char>) -> Dec {
    spec_parse_decimal(strip_currency(s))
}

/// The percentage coercion: `%` removed, the rest read as a decimal
/// numeral without any rescaling, zero on failure.
pub open spec fn spec_percentage(s: Seq<char>) -> Dec {
    spec_parse_decimal(strip_percent(s))
}

/// The category coercion: an optional plus sign and digits naming a value
/// of at most 255 give that value; anything else gives zero.
pub open spec fn spec_category(s: Seq<char>) -> u8 {
    let t = if s.len() > 0 && s[0] == '+' {
        s.drop_first()
    } else {
        s
    };
    if t.len() > 0 && all_digits(t) && digits_val(t) <= 255 {
        digits_val(t) as u8
    } else {
        0
    }
}

pub(crate) fn coerce_currency(v: &Vec<char>) -> (r: Dec)
    ensures
        r == spec_currency(v@),
        r.wf(),
{
    let mut kept: Vec<char> = Vec::new();
    let mut i: usize = 0;
    proof {
        assert(v@.take(0) =~= Seq::<char>::empty());
    }
    while i < v.len()
        invariant
            i <= v@.len(),
            kept@ == strip_currency(v@.take(i as int)),
        decreases v@.len() - i,
    {
        let c = v[i];
        proof {
            assert(v@.take(i as int + 1).drop_last() =~= v@.take(i as int));
            assert(v@.take(i as int + 1).last() == v@[i as int]);
        }
        if c != '$' && c != ',' {
            kept.push(c);
        }
        i += 1;
    }
    proof {
        assert(v@.take(v@.len() as int) =~= v@);
    }
    parse_decimal(&kept)
}

pub(crate) fn coerce_percentage(v: &Vec<char>) -> (r: Dec)
    ensures
        r == spec_percentage(v@),
        r.wf(),
{
    let mut kept: Vec<char> = Vec::new();
    let mut i: usize = 0;
    proof {
        assert(v@.take(0) =~= Seq::<char>::empty());
    }
    while i < v.len()
        invariant
            i <= v@.len(),
            kept@ == strip_percent(v@.take(i as int)),
        decreases v@.len() - i,
    {
        let c = v[i];
        proof {
            assert(v@.take(i as int + 1).drop_last() =~= v@.take(i as int));
            assert(v@.take(i as int + 1).last() == v@[i as int]);
        }
        if c != '%' {
            kept.push(c);
        }
        i += 1;
    }
    proof {
        assert(v@.take(v@.len() as int) =~= v@);
    }
    parse_decimal(&kept)
}

pub(crate) fn coerce_category(v: &Vec<char>) -> (r: u8)
    ensures
        r == spec_category(v@),
{
    let n = v.len();
    let mut i: usize = 0;
    if n > 0 && v[0] == '+' {
        i = 1;
    }
    let ghost t = if v@.len() > 0 && v@[0] == '+' {
        v@.drop_first()
    } else {
        v@
    };
    proof {
        assert(t =~= v@.skip(i as int));
        assert(t.take(0) =~= Seq::<char>::empty());
    }
    let ghost i0 = i as int;
    if i == n {
        return 0;
    }
    let mut acc: u16 = 0;
    let mut over = false;
    while i < n
        invariant
            n == v@.len(),
            0 <= i0 <= i as int <= n,
            t == v@.skip(i0),
            t == (if v@.len() > 0 && v@[0] == '+' {
                v@.drop_first()
            } else {
                v@
            }),
            t.len() == n - i0,
            all_digits(t.take(i - i0)),
            !over ==> acc == digits_val(t.take(i - i0)) && acc <= 255,
            over ==> digits_val(t.take(i - i0)) > 255,
        decreases n - i,
    {
        let c = v[i];
        proof {
            assert(t.take(i - i0 + 1).drop_last() =~= t.take(i - i0));
            assert(t.take(i - i0 + 1).last() == t[i - i0] == v@[i as int]);
        }
        if !(c >= '0' && c <= '9') {
            proof {
                assert(!is_digit(t[i - i0]));
                assert(!all_digits(t));
            }
            return 0;
        }
        let d = (c as u32 - '0' as u32) as u16;
        if !over {
            acc = acc * 10 + d;
            if acc > 255 {
                over = true;
            }
        }
        i += 1;
    }
    proof {
        assert(t.take(n - i0) =~= t);
    }
    if over {
        return 0;
    }
    acc as u8
}

/// Coerces one raw currency field, stripping `$` and `,` before the
/// numeral is read; any failure gives zero.
pub fn parse_currency_field(field: &str) -> (r: Dec)
    ensures
        r == spec_currency(field@),
        r.wf(),
{
    let v = chars_of(field);
    coerce_currency(&v)
}

/// Coerces one raw percentage field, stripping `%` before the numeral is
/// read and leaving the value unscaled; any failure gives zero.
pub fn parse_percentage_field(field: &str) -> (r: Dec)
    ensures
        r == spec_percentage(field@),
        r.wf(),
{
    let v = chars_of(field);
    coerce_percentage(&v)
}

} // verus!
