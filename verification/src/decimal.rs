//! An exact decimal numeral: the numeric model for the quantity, currency
//! and percentage fields of a record.
//!
//! A value is `mantissa / 10^scale`, negated when `neg` is set, and is kept
//! normalized: the zero value is `{neg: false, mantissa: 0, scale: 0}`, and a
//! positive scale implies a mantissa not divisible by ten.  Two normalized
//! values are numerically equal exactly when they are structurally equal.

use vstd::prelude::*;

verus! {

/// An exact decimal number, `(-1)^neg * mantissa / 10^scale`, normalized.
#[derive(Clone, Copy, Debug, PartialEq, Eq, Structural)]
pub struct Dec {
    pub neg: bool,
    pub mantissa: u64,
    pub scale: usize,
}

impl Dec {
    /// Normalization invariant: zero is unsigned with scale zero, and a
    /// fractional part never ends in a zero digit.
    pub open spec fn wf(self) -> bool {
        &&& (self.mantissa == 0 ==> !self.neg && self.scale == 0)
        &&& (self.scale > 0 ==> self.mantissa % 10 != 0)
    }

    /// The zero value, the default of every failed numeric coercion.
    pub open spec fn spec_zero() -> Dec {
        Dec { neg: false, mantissa: 0, scale: 0 }
    }

    /// The zero value, the default of every failed numeric coercion.
    pub fn zero() -> (r: Dec)
        ensures
            r == Dec::spec_zero(),
    {
        Dec { neg: false, mantissa: 0, scale: 0 }
    }
}

/// A decimal digit.
pub open spec fn is_digit(c: char) -> bool {
    '0' <= c && c <= '9'
}

/// The value of one decimal digit.
pub open spec fn digit_val(c: char) -> nat {
    (c as u32 - '0' as u32) as nat
}

pub open spec fn all_digits(s: Seq<char>) -> bool {
    forall|i: int| 0 <= i < s.len() ==> is_digit(#[trigger] s[i])
}

/// The value of a digit string read in base ten.
pub open spec fn digits_val(s: Seq<char>) -> nat
    decreases s.len(),
{
    if s.len() == 0 {
        0
    } else {
        digits_val(s.drop_last()) * 10 + digit_val(s.last())
    }
}

/// Trailing zero digits of a fractional part carry no value and are dropped.
pub open spec fn strip_tail_zeros(s: Seq<char>) -> Seq<char>
    decreases s.len(),
{
    if s.len() > 0 && s.last() == '0' {
        strip_tail_zeros(s.drop_last())
    } else {
        s
    }
}

/// The scan state of the numeral grammar: digits before the dot, digits
/// after it, whether a dot was seen, and whether the text is still a
/// well-formed numeral.
pub struct NumScan {
    pub seen_dot: bool,
    pub intd: Seq<char>,
    pub fracd: Seq<char>,
    pub ok: bool,
}

/// One grammar step: a digit extends the current part, a first dot starts
/// the fractional part, anything else makes the text invalid.
pub open spec fn num_step(st: NumScan, c: char) -> NumScan {
    if !st.ok {
        st
    } else if is_digit(c) {
        if st.seen_dot {
            NumScan { fracd: st.fracd.push(c), ..st }
        } else {
            NumScan { intd: st.intd.push(c), ..st }
        }
    } else if c == '.' {
        if st.seen_dot {
            NumScan { ok: false, ..st }
        } else {
            NumScan { seen_dot: true, ..st }
        }
    } else {
        NumScan { ok: false, ..st }
    }
}

pub open spec fn num_init() -> NumScan {
    NumScan { seen_dot: false, intd: Seq::empty(), fracd: Seq::empty(), ok: true }
}

pub open spec fn num_fold(t: Seq<char>) -> NumScan
    decreases t.len(),
{
    if t.len() == 0 {
        num_init()
    } else {
        num_step(num_fold(t.drop_last()), t.last())
    }
}

/// The lenient numeric coercion: an optional sign, digits with at most one
/// dot and at least one digit, give the written value, normalized; any
/// other text, and any mantissa beyond the machine range, gives zero.
pub open spec fn spec_parse_decimal(s: Seq<char>) -> Dec {
    let neg = s.len() > 0 && s[0] == '-';
    let t = if s.len() > 0 && (s[0] == '+' || s[0] == '-') {
        s.drop_first()
    } else {
        s
    };
    let st = num_fold(t);
    if !st.ok || st.intd.len() + st.fracd.len() == 0 {
        Dec::spec_zero()
    } else {
        let fr = strip_tail_zeros(st.fracd);
        let m = digits_val(st.intd + fr);
        if m > u64::MAX {
            Dec::spec_zero()
        } else {
            Dec { neg: neg && m > 0, mantissa: m as u64, scale: fr.len() as usize }
        }
    }
}

proof fn lemma_num_fold_len(t: Seq<char>)
    ensures
        num_fold(t).intd.len() + num_fold(t).fracd.len() <= t.len(),
    decreases t.len(),
{
    if t.len() > 0 {
        lemma_num_fold_len(t.drop_last());
    }
}

fn digit_value(c: char) -> (d: u64)
    requires
        is_digit(c),
    ensures
        d == digit_val(c),
        d < 10,
{
    (c as u32 - '0' as u32) as u64
}

/// Parses a character vector as a decimal numeral; any failure gives zero.
pub fn parse_decimal(s: &Vec<char>) -> (r: Dec)
    ensures
        r == spec_parse_decimal(s@),
        r.wf(),
{
    let n = s.len();
    let mut i: usize = 0;
    let mut neg = false;
    if n > 0 && (s[0] == '+' || s[0] == '-') {
        neg = s[0] == '-';
        i = 1;
    }
    let ghost t = if s@.len() > 0 && (s@[0] == '+' || s@[0] == '-') {
        s@.drop_first()
    } else {
        s@
    };
    proof {
        assert(t =~= s@.skip(i as int));
    }
    let ghost i0 = i as int;
    let mut seen_dot = false;
    let mut intd: Vec<char> = Vec::new();
    let mut fracd: Vec<char> = Vec::new();
    let mut ok = true;
    proof {
        assert(t.take(0) =~= Seq::<char>::empty());
    }
    while i < n
        invariant
            n == s@.len(),
            0 <= i0 <= i as int <= n,
            t == s@.skip(i0),
            t.len() == n - i0,
            num_fold(t.take(i - i0)) == (NumScan {
                seen_dot,
                intd: intd@,
                fracd: fracd@,
                ok,
            }),
            all_digits(intd@),
            all_digits(fracd@),
        decreases n - i,
    {
        let c = s[i];
        proof {
            assert(t.take(i - i0 + 1).drop_last() =~= t.take(i - i0));
            assert(t.take(i - i0 + 1).last() == t[i - i0] == s@[i as int]);
        }
        if ok {
            if c >= '0' && c <= '9' {
                if seen_dot {
                    fracd.push(c);
                } else {
                    intd.push(c);
                }
            } else if c == '.' {
                if seen_dot {
                    ok = false;
                } else {
                    seen_dot = true;
                }
            } else {
                ok = false;
            }
        }
        i += 1;
    }
    proof {
        assert(t.take(n - i0) =~= t);
    }
    if !ok || (intd.len() == 0 && fracd.len() == 0) {
        return Dec::zero();
    }
    while fracd.len() > 0 && fracd[fracd.len() - 1] == '0'
        invariant
            all_digits(fracd@),
            fracd@.len() <= num_fold(t).fracd.len(),
            strip_tail_zeros(num_fold(t).fracd) == strip_tail_zeros(fracd@),
        decreases fracd@.len(),
    {
        fracd.pop();
    }
    proof {
        assert(strip_tail_zeros(fracd@) == fracd@);
    }
    let ghost fr = fracd@;
    let ghost ds = num_fold(t).intd + fr;
    let mut m: u64 = 0;
    let mut over = false;
    let mut k: usize = 0;
    let ilen = intd.len();
    let flen = fracd.len();
    proof {
        lemma_num_fold_len(t);
        assert(ds.take(0) =~= Seq::<char>::empty());
        assert(ds.len() == ilen + flen);
        assert(ilen + flen <= n);
        assert(all_digits(ds)) by {
            assert(forall|q: int| 0 <= q < ilen ==> #[trigger] ds[q] == intd@[q]);
            assert(forall|q: int| ilen <= q < ds.len() ==> #[trigger] ds[q] == fr[q - ilen]);
        }
    }
    while k < ilen + flen
        invariant
            ilen == intd@.len(),
            flen == fracd@.len(),
            fr == fracd@,
            ds == num_fold(t).intd + fr,
            ds.len() == ilen + flen,
            ilen + flen <= usize::MAX,
            num_fold(t).intd == intd@,
            all_digits(ds),
            k <= ds.len(),
            !over ==> m == digits_val(ds.take(k as int)),
            over ==> digits_val(ds.take(k as int)) > u64::MAX,
        decreases ilen + flen - k,
    {
        let c = if k < ilen {
            intd[k]
        } else {
            fracd[k - ilen]
        };
        proof {
            assert(ds[k as int] == c);
            assert(ds.take(k as int + 1).drop_last() =~= ds.take(k as int));
            assert(ds.take(k as int + 1).last() == ds[k as int]);
        }
        let d = digit_value(c);
        if !over {
            if m > (u64::MAX - d) / 10 {
                proof {
                    let q = (u64::MAX - d) as int / 10;
                    assert((u64::MAX - d) as int == q * 10 + (u64::MAX - d) as int % 10);
                    assert(m as int * 10 >= (q + 1) * 10);
                }
                over = true;
            } else {
                proof {
                    let q = (u64::MAX - d) as int / 10;
                    assert((u64::MAX - d) as int == q * 10 + (u64::MAX - d) as int % 10);
                    assert(m as int * 10 <= q * 10);
                }
                m = m * 10 + d;
            }
        } else {
            proof {
                assert(digits_val(ds.take(k as int + 1)) == digits_val(ds.take(k as int)) * 10
                    + digit_val(ds[k as int]));
                assert(digits_val(ds.take(k as int)) * 10 >= (u64::MAX + 1) * 10);
            }
        }
        k += 1;
    }
    proof {
        assert(ds.take(ds.len() as int) =~= ds);
    }
    if over {
        return Dec::zero();
    }
    if m == 0 {
        proof {
            if fr.len() > 0 {
                assert(digits_val(ds) % 10 == digit_val(ds.last())) by {
                    assert(ds.drop_last().len() == ds.len() - 1);
                    assert(digit_val(ds.last()) < 10);
                }
                assert(ds.last() == fr.last());
                assert(fr.last() != '0' && is_digit(fr.last()));
                assert(digit_val(fr.last()) != 0);
            }
        }
        return Dec::zero();
    }
    proof {
        if fr.len() > 0 {
            assert(digits_val(ds) % 10 == digit_val(ds.last())) by {
                assert(ds.drop_last().len() == ds.len() - 1);
                assert(digit_val(ds.last()) < 10);
            }
            assert(ds.last() == fr.last());
            assert(fr.last() != '0' && is_digit(fr.last()));
        }
    }
    Dec { neg, mantissa: m, scale: flen }
}

/// The character of one decimal digit.
pub open spec fn digit_char(d: nat) -> char {
    if d == 0 {
        '0'
    } else if d == 1 {
        '1'
    } else if d == 2 {
        '2'
    } else if d == 3 {
        '3'
    } else if d == 4 {
        '4'
    } else if d == 5 {
        '5'
    } else if d == 6 {
        '6'
    } else if d == 7 {
        '7'
    } else if d == 8 {
        '8'
    } else {
        '9'
    }
}

/// The decimal digits of `n`, most significant first, without leading
/// zeros (a single zero digit for zero).
pub open spec fn digits_of(n: nat) -> Seq<char>
    decreases n,
{
    if n < 10 {
        seq![digit_char(n)]
    } else {
        digits_of(n / 10).push(digit_char(n % 10))
    }
}

/// A run of `n` zero digits.
pub open spec fn zeros(n: nat) -> Seq<char>
    decreases n,
{
    if n == 0 {
        Seq::empty()
    } else {
        zeros((n - 1) as nat).push('0')
    }
}

/// The canonical text of a decimal value: an optional minus sign, the
/// integer digits, and, for a positive scale, a dot followed by exactly
/// `scale` fractional digits.
pub open spec fn spec_render_decimal(d: Dec) -> Seq<char> {
    let sign: Seq<char> = if d.neg {
        seq!['-']
    } else {
        Seq::empty()
    };
    let ds = digits_of(d.mantissa as nat);
    if d.scale == 0 {
        sign + ds
    } else if ds.len() > d.scale {
        sign + ds.take(ds.len() - d.scale) + seq!['.'] + ds.skip(ds.len() - d.scale)
    } else {
        sign + seq!['0', '.'] + zeros((d.scale - ds.len()) as nat) + ds
    }
}

fn digit_char_of(d: u64) -> (c: char)
    requires
        d < 10,
    ensures
        c == digit_char(d as nat),
{
    if d == 0 {
        '0'
    } else if d == 1 {
        '1'
    } else if d == 2 {
        '2'
    } else if d == 3 {
        '3'
    } else if d == 4 {
        '4'
    } else if d == 5 {
        '5'
    } else if d == 6 {
        '6'
    } else if d == 7 {
        '7'
    } else if d == 8 {
        '8'
    } else {
        '9'
    }
}

/// Appends the decimal digits of `n` to `out`.
pub fn push_digits(n: u64, out: &mut Vec<char>)
    ensures
        final(out)@ == old(out)@ + digits_of(n as nat),
    decreases n,
{
    if n < 10 {
        out.push(digit_char_of(n));
        proof {
            assert(old(out)@ + digits_of(n as nat) =~= old(out)@.push(digit_char(n as nat)));
        }
    } else {
        push_digits(n / 10, out);
        out.push(digit_char_of(n % 10));
        proof {
            assert(old(out)@ + digits_of(n as nat) =~= (old(out)@ + digits_of(
                n as nat / 10,
            )).push(digit_char(n as nat % 10)));
        }
    }
}

/// Renders a decimal value as its canonical text.
pub fn render_decimal(d: &Dec) -> (r: Vec<char>)
    ensures
        r@ == spec_render_decimal(*d),
{
    let mut out: Vec<char> = Vec::new();
    if d.neg {
        out.push('-');
    }
    let ghost sign = out@;
    let mut ds: Vec<char> = Vec::new();
    push_digits(d.mantissa, &mut ds);
    proof {
        assert(ds@ == digits_of(d.mantissa as nat));
    }
    if d.scale == 0 {
        let mut j: usize = 0;
        while j < ds.len()
            invariant
                j <= ds@.len(),
                out@ == sign + ds@.take(j as int),
            decreases ds@.len() - j,
        {
            out.push(ds[j]);
            proof {
                assert(sign + ds@.take(j as int + 1) =~= (sign + ds@.take(j as int)).push(
                    ds@[j as int],
                ));
            }
            j += 1;
        }
        proof {
            assert(ds@.take(ds@.len() as int) =~= ds@);
        }
        out
    } else if ds.len() > d.scale {
        let cut = ds.len() - d.scale;
        let mut j: usize = 0;
        while j < cut
            invariant
                cut <= ds@.len(),
                j <= cut,
                out@ == sign + ds@.take(j as int),
            decreases cut - j,
        {
            out.push(ds[j]);
            proof {
                assert(sign + ds@.take(j as int + 1) =~= (sign + ds@.take(j as int)).push(
                    ds@[j as int],
                ));
            }
            j += 1;
        }
        out.push('.');
        let ghost before = out@;
        let mut k: usize = cut;
        while k < ds.len()
            invariant
                cut <= ds@.len(),
                before == sign + ds@.take(cut as int) + seq!['.'],
                cut <= k <= ds@.len(),
                out@ == before + ds@.subrange(cut as int, k as int),
            decreases ds@.len() - k,
        {
            out.push(ds[k]);
            proof {
                assert(before + ds@.subrange(cut as int, k as int + 1) =~= (before + ds@.subrange(
                    cut as int,
                    k as int,
                )).push(ds@[k as int]));
            }
            k += 1;
        }
        proof {
            assert(ds@.subrange(cut as int, ds@.len() as int) =~= ds@.skip(cut as int));
            assert(out@ =~= spec_render_decimal(*d));
        }
        out
    } else {
        out.push('0');
        out.push('.');
        let ghost before = out@;
        let pad = d.scale - ds.len();
        let mut z: usize = 0;
        while z < pad
            invariant
                z <= pad,
                out@ == before + zeros(z as nat),
            decreases pad - z,
        {
            out.push('0');
            z += 1;
        }
        let ghost mid = out@;
        let mut j: usize = 0;
        while j < ds.len()
            invariant
                j <= ds@.len(),
                out@ == mid + ds@.take(j as int),
            decreases ds@.len() - j,
        {
            out.push(ds[j]);
            proof {
                assert(mid + ds@.take(j as int + 1) =~= (mid + ds@.take(j as int)).push(
                    ds@[j as int],
                ));
            }
            j += 1;
        }
        proof {
            assert(ds@.take(ds@.len() as int) =~= ds@);
            assert(out@ =~= spec_render_decimal(*d));
        }
        out
    }
}

} // verus!
