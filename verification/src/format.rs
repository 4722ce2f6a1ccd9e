//! Display formatting: thousands separators and a bounded number of decimal
//! digits.
//!
//! A display value is a signed fixed-point number held in hundred-millionths
//! (see [`Fixed`]). Its text form groups the integer part with `,` every
//! three digits, and shows the fractional part truncated — never rounded —
//! to the requested number of digits; trailing zeros are not padded, and if
//! no fractional digit remains, no decimal point is shown at all.

use crate::digits::{all_digits, min_int};
use vstd::arithmetic::div_mod::{lemma_div_decreases, lemma_div_pos_is_pos};
use vstd::prelude::*;

verus! {

/// The character for a single digit value.
pub open spec fn digit_char(d: u8) -> char {
    (((d + 0x30) as u8) as char)
}

/// The decimal digit characters of `n`, most significant first, with no
/// leading zeros (`0` itself is the single character `0`).
pub open spec fn dec_digits(n: nat) -> Seq<char>
    decreases n,
{
    if n < 10 {
        seq![digit_char(n as u8)]
    } else {
        dec_digits(n / 10) + seq![digit_char((n % 10) as u8)]
    }
}

/// Exactly three digit characters for `m < 1000`, zero-padded on the left.
pub open spec fn pad3(m: nat) -> Seq<char> {
    seq![
        digit_char((m / 100) as u8),
        digit_char(((m / 10) % 10) as u8),
        digit_char((m % 10) as u8),
    ]
}

/// The decimal digits of `n` with a `,` before every group of three digits
/// counted from the right.
pub open spec fn grouped_digits(n: nat) -> Seq<char>
    decreases n,
{
    if n < 1000 {
        dec_digits(n)
    } else {
        grouped_digits(n / 1000) + seq![','] + pad3((n % 1000) as nat)
    }
}

/// The low `width` decimal digits of `n` as digit values, most significant
/// first, zero-padded on the left.
pub open spec fn padded_vals(n: nat, width: nat) -> Seq<u8>
    decreases width,
{
    if width == 0 {
        Seq::empty()
    } else {
        padded_vals(n / 10, (width - 1) as nat) + seq![(n % 10) as u8]
    }
}

/// The sequence with its trailing zero digits removed.
pub open spec fn strip_trailing_zeros(ds: Seq<u8>) -> Seq<u8>
    decreases ds.len(),
{
    if ds.len() > 0 && ds.last() == 0 {
        strip_trailing_zeros(ds.drop_last())
    } else {
        ds
    }
}

/// Digit values rendered as characters.
pub open spec fn chars_of(ds: Seq<u8>) -> Seq<char> {
    ds.map_values(|d: u8| digit_char(d))
}

/// Number of hundred-millionths in one whole unit.
pub const UNITS_PER_WHOLE: u64 = 100_000_000;

/// The display text of a fixed-point value: optional sign, grouped integer
/// part, then the fractional digits truncated to `decimals` digits with
/// trailing zeros removed; the decimal point is omitted when no fractional
/// digit remains.
pub open spec fn fixed_text(negative: bool, units: nat, decimals: nat) -> Seq<char> {
    let whole = grouped_digits(units / (UNITS_PER_WHOLE as nat));
    let frac = strip_trailing_zeros(padded_vals(units % (UNITS_PER_WHOLE as nat), 8));
    let shown = frac.take(min_int(decimals as int, frac.len() as int));
    let body = if shown.len() > 0 {
        whole + seq!['.'] + chars_of(shown)
    } else {
        whole
    };
    if negative {
        seq!['-'] + body
    } else {
        body
    }
}

/// A signed fixed-point display value: `units` hundred-millionths, negated
/// when `negative` is set.
pub struct Fixed {
    /// Sign of the value.
    pub negative: bool,
    /// Magnitude in hundred-millionths of a unit.
    pub units: u128,
}

/// Appends one character. Relies on `String::push`: the character is added
/// at the end of the string.
#[verifier::external_body]
pub(crate) fn push_char(s: &mut String, c: char)
    ensures
        final(s)@ == old(s)@.push(c),
{
    s.push(c);
}

/// The character for a digit value.
pub(crate) fn digit_to_char(d: u8) -> (c: char)
    requires
        d < 10,
    ensures
        c == digit_char(d),
{
    (d + 0x30) as char
}

/// Appends the plain decimal digits of `n`.
fn push_digits(s: &mut String, n: u128)
    ensures
        final(s)@ == old(s)@ + dec_digits(n as nat),
    decreases n,
{
    if n < 10 {
        let c = digit_to_char(n as u8);
        push_char(s, c);
        proof {
            assert(s@ =~= old(s)@ + dec_digits(n as nat));
        }
    } else {
        proof {
            lemma_div_decreases(n as int, 10);
            lemma_div_pos_is_pos(n as int, 10);
        }
        push_digits(s, n / 10);
        let c = digit_to_char((n % 10) as u8);
        push_char(s, c);
        proof {
            assert(s@ =~= old(s)@ + dec_digits(n as nat));
        }
    }
}

/// Appends exactly three digits of `m < 1000`, zero-padded.
fn push_pad3(s: &mut String, m: u16)
    requires
        m < 1000,
    ensures
        final(s)@ == old(s)@ + pad3(m as nat),
{
    let c0 = digit_to_char((m / 100) as u8);
    push_char(s, c0);
    let c1 = digit_to_char(((m / 10) % 10) as u8);
    push_char(s, c1);
    let c2 = digit_to_char((m % 10) as u8);
    push_char(s, c2);
    proof {
        assert(s@ =~= old(s)@ + pad3(m as nat));
    }
}

/// Appends the decimal digits of `n` with thousands separators.
fn push_grouped(s: &mut String, n: u128)
    ensures
        final(s)@ == old(s)@ + grouped_digits(n as nat),
    decreases n,
{
    if n < 1000 {
        push_digits(s, n);
    } else {
        proof {
            lemma_div_decreases(n as int, 1000);
            lemma_div_pos_is_pos(n as int, 1000);
        }
        push_grouped(s, n / 1000);
        push_char(s, ',');
        push_pad3(s, (n % 1000) as u16);
        proof {
            assert(s@ =~= old(s)@ + grouped_digits(n as nat));
        }
    }
}

/// Appends the low `width` digits of `n` as digit values.
fn push_padded_vals(out: &mut Vec<u8>, n: u64, width: u8)
    ensures
        final(out)@ == old(out)@ + padded_vals(n as nat, width as nat),
    decreases width,
{
    if width > 0 {
        push_padded_vals(out, n / 10, width - 1);
        out.push((n % 10) as u8);
        proof {
            assert(out@ =~= old(out)@ + padded_vals(n as nat, width as nat));
        }
    } else {
        proof {
            assert(out@ =~= old(out)@ + padded_vals(n as nat, width as nat));
        }
    }
}

/// Every digit value `padded_vals` produces is below ten.
pub proof fn lemma_padded_vals_digits(n: nat, width: nat)
    ensures
        padded_vals(n, width).len() == width,
        all_digits(padded_vals(n, width)),
    decreases width,
{
    if width > 0 {
        lemma_padded_vals_digits(n / 10, (width - 1) as nat);
    }
}

/// Formats a non-negative fixed-point value.
pub(crate) fn format_units(units: u128, decimals: u32) -> (r: String)
    ensures
        r@ == fixed_text(false, units as nat, decimals as nat),
{
    let mut s = String::new();
    push_grouped(&mut s, units / (UNITS_PER_WHOLE as u128));
    let f: u64 = (units % (UNITS_PER_WHOLE as u128)) as u64;
    let mut fd: Vec<u8> = Vec::new();
    push_padded_vals(&mut fd, f, 8);
    proof {
        assert(fd@ =~= padded_vals(f as nat, 8));
        lemma_padded_vals_digits(f as nat, 8);
    }
    let ghost cs = fd@;
    let mut keep: usize = 8;
    proof {
        assert(cs.take(8) =~= cs);
    }
    while keep > 0 && fd[keep - 1] == 0
        invariant
            keep <= 8,
            fd@ == cs,
            cs.len() == 8,
            strip_trailing_zeros(cs) == strip_trailing_zeros(cs.take(keep as int)),
        decreases keep,
    {
        proof {
            assert(cs.take(keep as int).drop_last() =~= cs.take(keep as int - 1));
            assert(cs.take(keep as int).last() == 0);
        }
        keep = keep - 1;
    }
    proof {
        if keep > 0 {
            assert(cs.take(keep as int).last() != 0);
        }
        assert(strip_trailing_zeros(cs.take(keep as int)) == cs.take(keep as int));
    }
    let shown: usize = if (decimals as usize) < keep {
        decimals as usize
    } else {
        keep
    };
    proof {
        assert(cs.take(keep as int).take(shown as int) =~= cs.take(shown as int));
    }
    if shown > 0 {
        push_char(&mut s, '.');
        let ghost base = s@;
        let mut j: usize = 0;
        proof {
            assert(chars_of(cs.take(0)) =~= Seq::<char>::empty());
            assert(base + chars_of(cs.take(0)) =~= base);
        }
        while j < shown
            invariant
                j <= shown,
                shown <= 8,
                fd@ == cs,
                cs.len() == 8,
                all_digits(cs),
                s@ == base + chars_of(cs.take(j as int)),
            decreases shown - j,
        {
            let c = digit_to_char(fd[j]);
            push_char(&mut s, c);
            proof {
                assert(chars_of(cs.take(j + 1)) =~= chars_of(cs.take(j as int)).push(
                    digit_char(cs[j as int]),
                ));
                assert(s@ =~= base + chars_of(cs.take(j + 1)));
            }
            j = j + 1;
        }
    }
    proof {
        assert(s@ =~= fixed_text(false, units as nat, decimals as nat));
    }
    s
}

/// How many `.` characters the text holds.
pub open spec fn count_dots(s: Seq<char>) -> nat
    decreases s.len(),
{
    if s.len() == 0 {
        0
    } else {
        (if s[0] == '.' {
            1nat
        } else {
            0nat
        }) + count_dots(s.skip(1))
    }
}

/// Dot counting distributes over concatenation.
pub proof fn lemma_count_dots_concat(a: Seq<char>, b: Seq<char>)
    ensures
        count_dots(a + b) == count_dots(a) + count_dots(b),
    decreases a.len(),
{
    if a.len() == 0 {
        assert(a + b =~= b);
    } else {
        assert((a + b)[0] == a[0]);
        assert((a + b).skip(1) =~= a.skip(1) + b);
        lemma_count_dots_concat(a.skip(1), b);
    }
}

/// A text without a `.` counts zero dots.
pub proof fn lemma_count_dots_none(s: Seq<char>)
    requires
        forall|j: int| 0 <= j < s.len() ==> s[j] != '.',
    ensures
        count_dots(s) == 0,
    decreases s.len(),
{
    if s.len() > 0 {
        lemma_count_dots_none(s.skip(1));
    }
}

/// The text with everything after the eighth character behind its first `.`
/// removed.
pub open spec fn trunc_from(s: Seq<char>) -> Seq<char>
    decreases s.len(),
{
    if s.len() == 0 {
        s
    } else if s[0] == '.' {
        seq!['.'] + s.skip(1).take(min_int(8, s.len() - 1))
    } else {
        seq![s[0]] + trunc_from(s.skip(1))
    }
}

/// The text a call of `truncate_decimal_part` returns: when the text holds
/// exactly one `.`, its decimal part is cut to at most eight characters;
/// any other text is returned unchanged.
pub open spec fn truncated_decimal(s: Seq<char>) -> Seq<char> {
    if count_dots(s) == 1 {
        trunc_from(s)
    } else {
        s
    }
}

proof fn lemma_count_dots_push(s: Seq<char>, c: char)
    ensures
        count_dots(s.push(c)) == count_dots(s) + (if c == '.' {
            1nat
        } else {
            0nat
        }),
    decreases s.len(),
{
    reveal_with_fuel(count_dots, 4);
    if s.len() == 0 {
        assert(s.push(c)[0] == c);
        assert(s.push(c).skip(1) =~= Seq::<char>::empty());
    } else {
        assert(s.push(c)[0] == s[0]);
        assert(s.push(c).skip(1) =~= s.skip(1).push(c));
        lemma_count_dots_push(s.skip(1), c);
    }
}

/// Where the first `.` stands at index `k`, `trunc_from` keeps the text up
/// to it and at most eight characters after it.
proof fn lemma_trunc_from_at(s: Seq<char>, k: int)
    requires
        0 <= k < s.len(),
        s[k] == '.',
        forall|j: int| 0 <= j < k ==> s[j] != '.',
    ensures
        trunc_from(s) == s.take(k) + seq!['.'] + s.skip(k + 1).take(
            min_int(8, s.len() - k - 1),
        ),
    decreases k,
{
    if k == 0 {
        assert(s.take(0) =~= Seq::<char>::empty());
        assert(trunc_from(s) =~= s.take(0) + seq!['.'] + s.skip(1).take(min_int(8, s.len() - 1)));
    } else {
        let t = s.skip(1);
        assert(t[k - 1] == '.');
        assert(forall|j: int| 0 <= j < k - 1 ==> t[j] != '.');
        lemma_trunc_from_at(t, k - 1);
        assert(seq![s[0]] + t.take(k - 1) =~= s.take(k));
        assert(t.skip(k) =~= s.skip(k + 1));
        assert(trunc_from(s) =~= s.take(k) + seq!['.'] + s.skip(k + 1).take(
            min_int(8, s.len() - k - 1),
        ));
    }
}

/// Cuts the decimal part of a number's text down to at most eight
/// characters. A text without a `.`, or with more than one, is returned
/// unchanged.
pub fn truncate_decimal_part(input: &str) -> (r: String)
    ensures
        r@ == truncated_decimal(input@),
{
    let n = input.unicode_len();
    let mut cnt: usize = 0;
    let mut first_dot: usize = 0;
    let mut found = false;
    let mut i: usize = 0;
    proof {
        assert(input@.take(0) =~= Seq::<char>::empty());
    }
    while i < n
        invariant
            i <= n,
            n == input@.len(),
            cnt <= i,
            cnt == count_dots(input@.take(i as int)),
            found <==> cnt > 0,
            found ==> first_dot < i && input@[first_dot as int] == '.' && forall|j: int|
                0 <= j < first_dot ==> input@[j] != '.',
            !found ==> forall|j: int| 0 <= j < i ==> input@[j] != '.',
        decreases n - i,
    {
        let c = input.get_char(i);
        proof {
            lemma_count_dots_push(input@.take(i as int), c);
            assert(input@.take(i + 1) =~= input@.take(i as int).push(c));
        }
        if c == '.' {
            if !found {
                first_dot = i;
                found = true;
            }
            cnt = cnt + 1;
        }
        i = i + 1;
    }
    proof {
        assert(input@.take(n as int) =~= input@);
    }
    if cnt != 1 {
        let r = input.to_owned();
        return r;
    }
    proof {
        lemma_trunc_from_at(input@, first_dot as int);
    }
    let mut out = String::new();
    let mut j: usize = 0;
    proof {
        assert(out@ =~= input@.take(0));
    }
    while j < first_dot
        invariant
            j <= first_dot,
            first_dot < n,
            n == input@.len(),
            out@ == input@.take(j as int),
        decreases first_dot - j,
    {
        let c = input.get_char(j);
        push_char(&mut out, c);
        proof {
            assert(input@.take(j + 1) =~= input@.take(j as int).push(input@[j as int]));
        }
        j = j + 1;
    }
    push_char(&mut out, '.');
    let ghost base = out@;
    let rest = n - first_dot - 1;
    let m: usize = if rest < 8 {
        rest
    } else {
        8
    };
    let mut k: usize = 0;
    proof {
        assert(input@.skip(first_dot + 1).take(0) =~= Seq::<char>::empty());
        assert(base + input@.skip(first_dot + 1).take(0) =~= base);
    }
    while k < m
        invariant
            k <= m,
            m == min_int(8, n - first_dot - 1),
            first_dot < n,
            n == input@.len(),
            base == input@.take(first_dot as int) + seq!['.'],
            out@ == base + input@.skip(first_dot + 1).take(k as int),
        decreases m - k,
    {
        let c = input.get_char(first_dot + 1 + k);
        push_char(&mut out, c);
        proof {
            assert(input@.skip(first_dot + 1).take(k + 1) =~= input@.skip(first_dot + 1).take(
                k as int,
            ).push(input@[first_dot + 1 + k]));
            assert(out@ =~= base + input@.skip(first_dot + 1).take(k + 1));
        }
        k = k + 1;
    }
    proof {
        assert(out@ =~= truncated_decimal(input@));
    }
    out
}

/// Formats a signed fixed-point value with thousands separators and at most
/// `decimals` fractional digits; the fraction is truncated, not rounded, and
/// a zero fraction is dropped together with the decimal point.
pub fn format_with_commas(value: &Fixed, decimals: u32) -> (r: String)
    ensures
        r@ == fixed_text(value.negative, value.units as nat, decimals as nat),
{
    let body = format_units(value.units, decimals);
    if value.negative {
        let mut s = String::new();
        push_char(&mut s, '-');
        let r = s.concat(body.as_str());
        proof {
            assert(r@ =~= fixed_text(value.negative, value.units as nat, decimals as nat));
        }
        r
    } else {
        body
    }
}

} // verus!
