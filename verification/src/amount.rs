//! Sanitized user amounts.
//!
//! A free-form string a user typed is cleaned down to a decimal amount:
//! digits are kept, the first `.` is kept, and everything from a second `.`
//! on is discarded, as is every other character. The cleaned text and its
//! digit values are held in an [`Amount`], whose numeric value is exact
//! (arbitrary precision) at the spec level and is evaluated in executable
//! code as a capped fixed-point number in hundred-millionths.

use crate::digits::{
    all_digits, digits_capped, frac8_units, frac8_val, lemma_seq_val_all_zero,
    lemma_seq_val_bounds, lemma_seq_val_nonzero, lemma_units_cap, min_int, pow10, seq_val,
};
use crate::format::{chars_of, count_dots, digit_char, digit_to_char, push_char, UNITS_PER_WHOLE};
use crate::rate::{digit_vals, frac_chars, int_chars};
use vstd::prelude::*;

verus! {

/// The fixed BTC supply bound, in whole BTC.
pub const BTC_SUPPLY_WHOLE: u64 = 21_000_000;

/// The fixed BTC supply bound, in hundred-millionths (satoshis).
pub const BTC_SUPPLY_UNITS: u64 = 21_000_000 * 100_000_000;

/// A decimal digit character.
pub open spec fn is_digit_char(c: char) -> bool {
    0x30 <= c as u32 <= 0x39
}

/// The digit value of a decimal digit character.
pub open spec fn char_digit(c: char) -> u8 {
    (c as u32 - 0x30) as u8
}

/// The cleaned form of a raw amount string: digits are kept, the first `.`
/// is kept, later characters from a second `.` on are discarded, and every
/// other character is dropped.
pub open spec fn cleaned(s: Seq<char>, seen_point: bool) -> Seq<char>
    decreases s.len(),
{
    if s.len() == 0 {
        Seq::empty()
    } else if is_digit_char(s[0]) {
        seq![s[0]] + cleaned(s.skip(1), seen_point)
    } else if s[0] == '.' {
        if seen_point {
            Seq::empty()
        } else {
            seq!['.'] + cleaned(s.skip(1), true)
        }
    } else {
        cleaned(s.skip(1), seen_point)
    }
}

/// The cleaned text these parts render as.
pub open spec fn text_parts(ints: Seq<u8>, fracs: Seq<u8>, has_point: bool) -> Seq<char> {
    chars_of(ints) + if has_point {
        seq!['.'] + chars_of(fracs)
    } else {
        Seq::empty()
    }
}

/// A sanitized, non-negative decimal amount: integer digits, fractional
/// digits, and whether the cleaned text held a decimal point.
pub struct Amount {
    /// Digit values before the decimal point, most significant first.
    pub int_digits: Vec<u8>,
    /// Digit values after the decimal point.
    pub frac_digits: Vec<u8>,
    /// Whether the cleaned text holds a decimal point.
    pub has_point: bool,
}

impl Amount {
    /// Every stored digit is a digit value, and fractional digits exist
    /// only behind a decimal point.
    pub open spec fn wf(self) -> bool {
        &&& all_digits(self.int_digits@)
        &&& all_digits(self.frac_digits@)
        &&& !self.has_point ==> self.frac_digits@.len() == 0
    }

    /// The cleaned text of the amount.
    pub open spec fn text(self) -> Seq<char> {
        text_parts(self.int_digits@, self.frac_digits@, self.has_point)
    }

    /// Number of fractional digits.
    pub open spec fn scale(self) -> nat {
        self.frac_digits@.len()
    }

    /// The exact numeric value, scaled by `10^scale()` to an integer.
    pub open spec fn mant(self) -> int {
        seq_val(self.int_digits@) * pow10(self.scale()) + seq_val(self.frac_digits@)
    }

    /// The value in hundred-millionths, truncated to eight fractional
    /// digits.
    pub open spec fn units(self) -> int {
        seq_val(self.int_digits@) * (UNITS_PER_WHOLE as int) + frac8_val(self.frac_digits@)
    }

    /// Whether the exact value exceeds the BTC supply bound.
    pub open spec fn exceeds_btc_supply(self) -> bool {
        self.mant() > (BTC_SUPPLY_WHOLE as int) * pow10(self.scale())
    }
}

/// Keeps the digits of a raw amount string and the first decimal point;
/// every other character is dropped, and a second decimal point ends the
/// scan. An input without usable digits comes back as the zero amount with
/// empty text.
pub fn sanitize(raw: &str) -> (a: Amount)
    ensures
        a.wf(),
        a.text() == cleaned(raw@, false),
{
    let n = raw.unicode_len();
    let mut int_digits: Vec<u8> = Vec::new();
    let mut frac_digits: Vec<u8> = Vec::new();
    let mut has_point = false;
    let mut stopped = false;
    let mut i: usize = 0;
    proof {
        assert(raw@.skip(0) =~= raw@);
        assert(text_parts(int_digits@, frac_digits@, false) =~= Seq::<char>::empty());
    }
    while i < n && !stopped
        invariant
            i <= n,
            n == raw@.len(),
            all_digits(int_digits@),
            all_digits(frac_digits@),
            !has_point ==> frac_digits@.len() == 0,
            cleaned(raw@, false) == text_parts(int_digits@, frac_digits@, has_point) + (if stopped {
                Seq::<char>::empty()
            } else {
                cleaned(raw@.skip(i as int), has_point)
            }),
        decreases n - i,
    {
        let c = raw.get_char(i);
        let code = c as u32;
        proof {
            assert(raw@.skip(i as int)[0] == c);
            assert(raw@.skip(i as int).skip(1) =~= raw@.skip(i + 1));
        }
        if 0x30 <= code && code <= 0x39 {
            let d = (code - 0x30) as u8;
            proof {
                assert(digit_char(d) == c);
            }
            if has_point {
                frac_digits.push(d);
                proof {
                    assert(chars_of(frac_digits@) =~= chars_of(frac_digits@.drop_last()).push(c));
                    assert(text_parts(int_digits@, frac_digits@, has_point) =~= text_parts(
                        int_digits@,
                        frac_digits@.drop_last(),
                        has_point,
                    ) + seq![c]);
                    assert(cleaned(raw@, false) == text_parts(int_digits@, frac_digits@, has_point)
                        + cleaned(raw@.skip(i + 1), has_point));
                }
            } else {
                int_digits.push(d);
                proof {
                    assert(chars_of(int_digits@) =~= chars_of(int_digits@.drop_last()).push(c));
                    assert(text_parts(int_digits@, frac_digits@, has_point) =~= text_parts(
                        int_digits@.drop_last(),
                        frac_digits@,
                        has_point,
                    ) + seq![c]);
                    assert(cleaned(raw@, false) == text_parts(int_digits@, frac_digits@, has_point)
                        + cleaned(raw@.skip(i + 1), has_point));
                }
            }
        } else if c == '.' {
            if has_point {
                stopped = true;
                proof {
                    assert(cleaned(raw@.skip(i as int), true) =~= Seq::<char>::empty());
                }
            } else {
                has_point = true;
                proof {
                    assert(text_parts(int_digits@, frac_digits@, true) =~= text_parts(
                        int_digits@,
                        frac_digits@,
                        false,
                    ) + seq!['.']);
                    assert(cleaned(raw@, false) == text_parts(int_digits@, frac_digits@, true)
                        + cleaned(raw@.skip(i + 1), true));
                }
            }
        } else {
            proof {
                assert(cleaned(raw@.skip(i as int), has_point) == cleaned(
                    raw@.skip(i + 1),
                    has_point,
                ));
            }
        }
        i = i + 1;
    }
    proof {
        if !stopped {
            assert(raw@.skip(n as int) =~= Seq::<char>::empty());
        }
        assert(cleaned(raw@, false) =~= text_parts(int_digits@, frac_digits@, has_point));
    }
    Amount { int_digits, frac_digits, has_point }
}

impl Amount {
    /// The cleaned text, rendered back as a string.
    pub fn render(&self) -> (r: String)
        requires
            self.wf(),
        ensures
            r@ == self.text(),
    {
        let mut s = String::new();
        let mut j: usize = 0;
        proof {
            assert(s@ =~= chars_of(self.int_digits@.take(0)));
        }
        while j < self.int_digits.len()
            invariant
                j <= self.int_digits@.len(),
                all_digits(self.int_digits@),
                s@ == chars_of(self.int_digits@.take(j as int)),
            decreases self.int_digits@.len() - j,
        {
            let c = digit_to_char(self.int_digits[j]);
            push_char(&mut s, c);
            proof {
                assert(chars_of(self.int_digits@.take(j + 1)) =~= chars_of(
                    self.int_digits@.take(j as int),
                ).push(digit_char(self.int_digits@[j as int])));
            }
            j = j + 1;
        }
        proof {
            assert(self.int_digits@.take(self.int_digits@.len() as int) =~= self.int_digits@);
        }
        if self.has_point {
            push_char(&mut s, '.');
            let ghost base = s@;
            let mut k: usize = 0;
            proof {
                assert(base + chars_of(self.frac_digits@.take(0)) =~= base);
            }
            while k < self.frac_digits.len()
                invariant
                    k <= self.frac_digits@.len(),
                    all_digits(self.frac_digits@),
                    base == chars_of(self.int_digits@) + seq!['.'],
                    s@ == base + chars_of(self.frac_digits@.take(k as int)),
                decreases self.frac_digits@.len() - k,
            {
                let c = digit_to_char(self.frac_digits[k]);
                push_char(&mut s, c);
                proof {
                    assert(chars_of(self.frac_digits@.take(k + 1)) =~= chars_of(
                        self.frac_digits@.take(k as int),
                    ).push(digit_char(self.frac_digits@[k as int])));
                    assert(s@ =~= base + chars_of(self.frac_digits@.take(k + 1)));
                }
                k = k + 1;
            }
            proof {
                assert(self.frac_digits@.take(self.frac_digits@.len() as int)
                    =~= self.frac_digits@);
                assert(s@ =~= self.text());
            }
        } else {
            proof {
                assert(s@ =~= self.text());
            }
        }
        s
    }
}

impl Amount {
    /// The value in hundred-millionths, capped at `total_cap`; integer
    /// digits are evaluated capped at `int_cap` first, which the bounds in
    /// `requires` make harmless.
    pub(crate) fn units_capped(&self, int_cap: u128, total_cap: u128) -> (r: u128)
        requires
            self.wf(),
            0 < int_cap <= 1_000_000_000_000_000_000_000_000u128,
            0 < total_cap <= int_cap * (UNITS_PER_WHOLE as u128),
        ensures
            r == min_int(total_cap as int, self.units()),
    {
        let iv = digits_capped(&self.int_digits, int_cap);
        let f = frac8_units(&self.frac_digits);
        proof {
            lemma_seq_val_bounds(self.int_digits@);
            assert(iv * (UNITS_PER_WHOLE as u128) <= int_cap * (UNITS_PER_WHOLE as u128))
                by (nonlinear_arith)
                requires
                    0 <= iv <= int_cap,
            ;
            lemma_units_cap(
                seq_val(self.int_digits@),
                iv as int,
                f as int,
                int_cap as int,
                total_cap as int,
                UNITS_PER_WHOLE as int,
            );
        }
        let t = iv * (UNITS_PER_WHOLE as u128) + f as u128;
        if t < total_cap {
            t
        } else {
            total_cap
        }
    }

    /// The value in hundred-millionths (satoshis), clamped at the BTC
    /// supply bound.
    pub fn btc_units(&self) -> (r: u64)
        requires
            self.wf(),
        ensures
            r == min_int(BTC_SUPPLY_UNITS as int, self.units()),
    {
        let r = self.units_capped(21_000_001, BTC_SUPPLY_UNITS as u128);
        r as u64
    }

    /// Whether the exact value exceeds the BTC supply bound.
    pub fn exceeds_btc_cap(&self) -> (r: bool)
        requires
            self.wf(),
        ensures
            r == self.exceeds_btc_supply(),
    {
        let ghost v = seq_val(self.int_digits@);
        let ghost fv = seq_val(self.frac_digits@);
        let ghost p = pow10(self.scale());
        let ghost c = BTC_SUPPLY_WHOLE as int;
        proof {
            lemma_seq_val_bounds(self.int_digits@);
            lemma_seq_val_bounds(self.frac_digits@);
        }
        let ic = digits_capped(&self.int_digits, 21_000_001);
        if ic > 21_000_000 {
            proof {
                assert(v * p + fv > c * p) by (nonlinear_arith)
                    requires
                        v >= c + 1,
                        0 <= fv,
                        p >= 1,
                ;
            }
            true
        } else if ic < 21_000_000 {
            proof {
                assert(v * p + fv <= c * p - 1) by (nonlinear_arith)
                    requires
                        v <= c - 1,
                        fv < p,
                        p >= 1,
                ;
            }
            false
        } else {
            let mut j: usize = 0;
            let mut seen_nonzero = false;
            while j < self.frac_digits.len()
                invariant
                    j <= self.frac_digits@.len(),
                    all_digits(self.frac_digits@),
                    seen_nonzero ==> seq_val(self.frac_digits@) > 0,
                    !seen_nonzero ==> forall|t: int| 0 <= t < j ==> self.frac_digits@[t] == 0,
                decreases self.frac_digits@.len() - j,
            {
                if self.frac_digits[j] != 0 {
                    proof {
                        lemma_seq_val_nonzero(self.frac_digits@, j as int);
                    }
                    seen_nonzero = true;
                }
                j = j + 1;
            }
            proof {
                if !seen_nonzero {
                    lemma_seq_val_all_zero(self.frac_digits@);
                }
                if fv > 0 {
                    assert(v * p + fv > c * p) by (nonlinear_arith)
                        requires
                            v == c,
                            fv > 0,
                    ;
                } else {
                    assert(v * p + fv <= c * p) by (nonlinear_arith)
                        requires
                            v == c,
                            fv == 0,
                    ;
                }
            }
            seen_nonzero
        }
    }
}

/// Sanitizing keeps a text that is already a plain decimal — only digits
/// and at most one decimal point — exactly as it stands, so its numeric
/// value is reproduced without loss.
pub proof fn lemma_sanitize_lossless(s: Seq<char>)
    requires
        forall|j: int| 0 <= j < s.len() ==> is_digit_char(s[j]) || s[j] == '.',
        count_dots(s) <= 1,
    ensures
        cleaned(s, false) == s,
{
    lemma_cleaned_keeps(s, false);
}

/// An amount's digits are recovered from its text: the digit values before
/// the text's first `.` are its integer digits and those after it are its
/// fractional digits. Together with [`lemma_sanitize_lossless`] this ties
/// the value of a sanitized plain decimal to the digits of the input text
/// itself.
pub proof fn lemma_text_determines_value(a: Amount)
    requires
        a.wf(),
    ensures
        digit_vals(int_chars(a.text())) == a.int_digits@,
        digit_vals(frac_chars(a.text())) == a.frac_digits@,
{
    if a.has_point {
        let tail = seq!['.'] + chars_of(a.frac_digits@);
        assert(tail[0] == '.');
        lemma_split_after_digits(a.int_digits@, tail);
        assert(tail.skip(1) =~= chars_of(a.frac_digits@));
        assert(digit_vals(chars_of(a.int_digits@)) =~= a.int_digits@);
        assert(digit_vals(chars_of(a.frac_digits@)) =~= a.frac_digits@);
    } else {
        let tail = Seq::<char>::empty();
        assert(a.text() =~= chars_of(a.int_digits@) + tail);
        lemma_split_after_digits(a.int_digits@, tail);
        assert(digit_vals(chars_of(a.int_digits@)) =~= a.int_digits@);
        assert(digit_vals(Seq::<char>::empty()) =~= a.frac_digits@);
    }
}

/// A run of digit characters belongs wholly to the integer part; the
/// fractional part starts behind the dot of the tail.
proof fn lemma_split_after_digits(ds: Seq<u8>, tail: Seq<char>)
    requires
        all_digits(ds),
        tail.len() > 0 ==> tail[0] == '.',
    ensures
        int_chars(chars_of(ds) + tail) == chars_of(ds),
        frac_chars(chars_of(ds) + tail) == if tail.len() > 0 {
            tail.skip(1)
        } else {
            Seq::<char>::empty()
        },
    decreases ds.len(),
{
    let text = chars_of(ds) + tail;
    if ds.len() == 0 {
        assert(text =~= tail);
        if tail.len() > 0 {
            assert(int_chars(tail) =~= chars_of(ds));
        }
    } else {
        assert(text[0] == digit_char(ds[0]));
        assert(is_digit_char(text[0]));
        assert(text[0] != '.');
        assert(text.skip(1) =~= chars_of(ds.skip(1)) + tail);
        assert(all_digits(ds.skip(1)));
        lemma_split_after_digits(ds.skip(1), tail);
        assert(seq![text[0]] + chars_of(ds.skip(1)) =~= chars_of(ds));
    }
}

/// At or under eight fractional digits — satoshi precision — the
/// fixed-point evaluation of an amount is exact: nothing of the typed
/// value is lost.
pub proof fn lemma_units_exact_at_satoshi_scale(a: Amount)
    requires
        a.wf(),
        a.scale() <= 8,
    ensures
        a.units() == a.mant() * pow10((8 - a.scale()) as nat),
{
    crate::digits::lemma_frac8_exact(a.frac_digits@);
    reveal_with_fuel(pow10, 9);
    assert(pow10(8) == 100_000_000);
    let v = seq_val(a.int_digits@);
    let fv = seq_val(a.frac_digits@);
    let l = a.scale();
    let k = (8 - l) as nat;
    lemma_pow10_mul(l, k);
    assert(v * (pow10(l) * pow10(k)) + fv * pow10(k) == (v * pow10(l) + fv) * pow10(k))
        by (nonlinear_arith);
    assert(v * (pow10(l) * pow10(k)) == v * pow10(l) * pow10(k)) by (nonlinear_arith);
}

/// Powers of ten multiply by adding exponents.
proof fn lemma_pow10_mul(m: nat, n: nat)
    ensures
        pow10(m) * pow10(n) == pow10((m + n) as nat),
    decreases m,
{
    if m == 0 {
        assert(pow10(0) == 1);
    } else {
        lemma_pow10_mul((m - 1) as nat, n);
        assert((10 * pow10((m - 1) as nat)) * pow10(n) == 10 * (pow10((m - 1) as nat) * pow10(n)))
            by (nonlinear_arith);
    }
}

/// Cleaning keeps every character of a digits-and-dots text whose dot count
/// fits what was already seen.
proof fn lemma_cleaned_keeps(s: Seq<char>, seen_point: bool)
    requires
        forall|j: int| 0 <= j < s.len() ==> is_digit_char(s[j]) || s[j] == '.',
        count_dots(s) + (if seen_point {
            1nat
        } else {
            0nat
        }) <= 1,
    ensures
        cleaned(s, seen_point) == s,
    decreases s.len(),
{
    if s.len() > 0 {
        assert(forall|j: int|
            0 <= j < s.skip(1).len() ==> is_digit_char(s.skip(1)[j]) || s.skip(1)[j] == '.');
        if is_digit_char(s[0]) {
            lemma_cleaned_keeps(s.skip(1), seen_point);
            assert(seq![s[0]] + s.skip(1) =~= s);
        } else {
            assert(s[0] == '.');
            lemma_cleaned_keeps(s.skip(1), true);
            assert(seq!['.'] + s.skip(1) =~= s);
        }
    }
}

} // verus!
