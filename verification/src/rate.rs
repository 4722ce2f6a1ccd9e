//! Parsing the exchange rate a price feed reports.
//!
//! The feed answers with a JSON document carrying the USD rate for one BTC
//! as a string under `data.rates.USD`. The JSON navigation is done by
//! `serde_json` behind a trusted wrapper; turning the rate text into a
//! fixed-point number of hundred-millionths is verified here. A rate text
//! that is not a plain non-negative decimal counts as zero, as does a
//! missing or unparseable document.

use crate::amount::{char_digit, is_digit_char};
use crate::digits::{
    all_digits, digits_capped, frac8_units, frac8_val, lemma_units_cap, min_int, seq_val,
};
use crate::format::{count_dots, lemma_count_dots_concat, lemma_count_dots_none, UNITS_PER_WHOLE};
use vstd::prelude::*;

verus! {

/// The digit values of a text of digit characters.
pub open spec fn digit_vals(cs: Seq<char>) -> Seq<u8> {
    cs.map_values(|c: char| char_digit(c))
}

/// A plain non-negative decimal: only digits and at most one `.`, with at
/// least one digit.
pub open spec fn valid_rate_text(t: Seq<char>) -> bool {
    &&& forall|j: int| 0 <= j < t.len() ==> is_digit_char(t[j]) || t[j] == '.'
    &&& count_dots(t) <= 1
    &&& exists|j: int| 0 <= j < t.len() && is_digit_char(t[j])
}

/// The characters before the first `.` of a text.
pub open spec fn int_chars(t: Seq<char>) -> Seq<char>
    decreases t.len(),
{
    if t.len() == 0 {
        t
    } else if t[0] == '.' {
        Seq::empty()
    } else {
        seq![t[0]] + int_chars(t.skip(1))
    }
}

/// The characters after the first `.` of a text; empty without a `.`.
pub open spec fn frac_chars(t: Seq<char>) -> Seq<char>
    decreases t.len(),
{
    if t.len() == 0 {
        Seq::empty()
    } else if t[0] == '.' {
        t.skip(1)
    } else {
        frac_chars(t.skip(1))
    }
}

/// The rate a text denotes, in hundred-millionths: the decimal value
/// truncated to eight fractional digits and capped at `u64::MAX`; zero for
/// a text that is not a plain non-negative decimal.
pub open spec fn rate_units_of(t: Seq<char>) -> int {
    if valid_rate_text(t) {
        min_int(
            u64::MAX as int,
            seq_val(digit_vals(int_chars(t))) * (UNITS_PER_WHOLE as int) + frac8_val(
                digit_vals(frac_chars(t)),
            ),
        )
    } else {
        0
    }
}

/// In a text without dots, everything belongs to the integer part.
proof fn lemma_split_no_dot(t: Seq<char>)
    requires
        forall|j: int| 0 <= j < t.len() ==> t[j] != '.',
    ensures
        int_chars(t) == t,
        frac_chars(t) == Seq::<char>::empty(),
    decreases t.len(),
{
    if t.len() > 0 {
        lemma_split_no_dot(t.skip(1));
        assert(seq![t[0]] + t.skip(1) =~= t);
    }
}

/// With the first dot at index `p`, the integer part is everything before
/// it and the fractional part everything after it.
proof fn lemma_split_dot(t: Seq<char>, p: int)
    requires
        0 <= p < t.len(),
        t[p] == '.',
        forall|j: int| 0 <= j < p ==> t[j] != '.',
    ensures
        int_chars(t) == t.take(p),
        frac_chars(t) == t.skip(p + 1),
    decreases p,
{
    if p == 0 {
        assert(int_chars(t) =~= t.take(0));
        assert(frac_chars(t) =~= t.skip(1));
    } else {
        let u = t.skip(1);
        assert(u[p - 1] == '.');
        assert(forall|j: int| 0 <= j < p - 1 ==> u[j] != '.');
        lemma_split_dot(u, p - 1);
        assert(seq![t[0]] + u.take(p - 1) =~= t.take(p));
        assert(u.skip(p) =~= t.skip(p + 1));
    }
}

/// A text holding a `.` counts at least one dot.
proof fn lemma_dot_present(s: Seq<char>, k: int)
    requires
        0 <= k < s.len(),
        s[k] == '.',
    ensures
        count_dots(s) >= 1,
    decreases s.len(),
{
    if k > 0 {
        lemma_dot_present(s.skip(1), k - 1);
    }
}

/// Integer-digit cap while a rate is evaluated; the cap scaled to
/// hundred-millionths lies above `u64::MAX`.
const RATE_INT_CAP: u128 = 184_467_440_738;

/// Turns a rate text into hundred-millionths: the decimal value truncated
/// to eight fractional digits, saturating at `u64::MAX`. Any text that is
/// not a plain non-negative decimal — empty, a lone `.`, a second `.`, a
/// sign, an exponent, any other stray character — yields zero.
pub fn parse_rate(s: &str) -> (r: u64)
    ensures
        r as int == rate_units_of(s@),
{
    let n = s.unicode_len();
    let mut int_digits: Vec<u8> = Vec::new();
    let mut frac_digits: Vec<u8> = Vec::new();
    let mut has_point = false;
    let mut dot_at: usize = 0;
    let mut i: usize = 0;
    while i < n
        invariant
            i <= n,
            n == s@.len(),
            all_digits(int_digits@),
            all_digits(frac_digits@),
            !has_point ==> {
                &&& forall|j: int| 0 <= j < i ==> is_digit_char(s@[j])
                &&& int_digits@ == digit_vals(s@.take(i as int))
                &&& frac_digits@.len() == 0
            },
            has_point ==> {
                &&& dot_at < i
                &&& s@[dot_at as int] == '.'
                &&& forall|j: int| 0 <= j < dot_at ==> is_digit_char(s@[j])
                &&& forall|j: int| dot_at < j < i ==> is_digit_char(s@[j])
                &&& int_digits@ == digit_vals(s@.take(dot_at as int))
                &&& frac_digits@ == digit_vals(s@.subrange(dot_at + 1, i as int))
            },
        decreases n - i,
    {
        let c = s.get_char(i);
        let code = c as u32;
        if 0x30 <= code && code <= 0x39 {
            let d = (code - 0x30) as u8;
            proof {
                assert(char_digit(c) == d);
            }
            if has_point {
                frac_digits.push(d);
                proof {
                    assert(s@.subrange(dot_at + 1, i + 1) =~= s@.subrange(dot_at + 1, i as int)
                        .push(c));
                    assert(digit_vals(s@.subrange(dot_at + 1, i + 1)) =~= digit_vals(
                        s@.subrange(dot_at + 1, i as int),
                    ).push(d));
                }
            } else {
                int_digits.push(d);
                proof {
                    assert(s@.take(i + 1) =~= s@.take(i as int).push(c));
                    assert(digit_vals(s@.take(i + 1)) =~= digit_vals(s@.take(i as int)).push(d));
                }
            }
        } else if c == '.' {
            if has_point {
                proof {
                    assert(s@ =~= s@.take(dot_at + 1) + s@.skip(dot_at + 1));
                    lemma_count_dots_concat(s@.take(dot_at + 1), s@.skip(dot_at + 1));
                    assert(s@.take(dot_at + 1) =~= s@.take(dot_at as int).push('.'));
                    lemma_count_dots_push_dot(s@.take(dot_at as int));
                    lemma_count_dots_none(s@.take(dot_at as int));
                    assert(s@.skip(dot_at + 1)[i - dot_at - 1] == '.');
                    lemma_dot_present(s@.skip(dot_at + 1), i - dot_at - 1);
                    assert(count_dots(s@) >= 2);
                }
                return 0;
            }
            has_point = true;
            dot_at = i;
            proof {
                assert(s@.subrange(i + 1, i + 1) =~= Seq::<char>::empty());
                assert(digit_vals(Seq::<char>::empty()) =~= Seq::<u8>::empty());
            }
        } else {
            proof {
                assert(!(is_digit_char(s@[i as int]) || s@[i as int] == '.'));
            }
            return 0;
        }
        i = i + 1;
    }
    if int_digits.len() == 0 && frac_digits.len() == 0 {
        proof {
            if has_point {
                assert(s@.take(dot_at as int).len() == 0);
                assert(s@.subrange(dot_at + 1, n as int).len() == 0);
                assert(n == 1 && s@[0] == '.');
            }
            assert(!valid_rate_text(s@));
        }
        return 0;
    }
    proof {
        if has_point {
            lemma_split_dot(s@, dot_at as int);
            assert(s@.subrange(dot_at + 1, n as int) =~= s@.skip(dot_at + 1));
            assert(s@ =~= s@.take(dot_at + 1) + s@.skip(dot_at + 1));
            lemma_count_dots_concat(s@.take(dot_at + 1), s@.skip(dot_at + 1));
            assert(s@.take(dot_at + 1) =~= s@.take(dot_at as int).push('.'));
            lemma_count_dots_push_dot(s@.take(dot_at as int));
            lemma_count_dots_none(s@.take(dot_at as int));
            lemma_count_dots_none(s@.skip(dot_at + 1));
            if int_digits@.len() > 0 {
                assert(is_digit_char(s@[0]));
            } else {
                assert(s@.subrange(dot_at + 1, n as int).len() > 0);
                assert(is_digit_char(s@[dot_at + 1]));
            }
            assert(valid_rate_text(s@));
        } else {
            assert(s@.take(n as int) =~= s@);
            lemma_count_dots_none(s@);
            assert(is_digit_char(s@[0]));
            assert(valid_rate_text(s@));
            lemma_split_no_dot(s@);
            assert(digit_vals(frac_chars(s@)) =~= frac_digits@);
        }
        assert(int_digits@ == digit_vals(int_chars(s@)));
        assert(frac_digits@ == digit_vals(frac_chars(s@)));
    }
    let iv = digits_capped(&int_digits, RATE_INT_CAP);
    let f = frac8_units(&frac_digits);
    proof {
        crate::digits::lemma_seq_val_bounds(int_digits@);
        assert(iv * (UNITS_PER_WHOLE as u128) <= RATE_INT_CAP * (UNITS_PER_WHOLE as u128))
            by (nonlinear_arith)
            requires
                0 <= iv <= RATE_INT_CAP,
        ;
        lemma_units_cap(
            seq_val(int_digits@),
            iv as int,
            f as int,
            RATE_INT_CAP as int,
            u64::MAX as int,
            UNITS_PER_WHOLE as int,
        );
    }
    let t = iv * (UNITS_PER_WHOLE as u128) + f as u128;
    if t < u64::MAX as u128 {
        t as u64
    } else {
        u64::MAX
    }
}

/// Appending a dot raises the dot count by one.
proof fn lemma_count_dots_push_dot(s: Seq<char>)
    ensures
        count_dots(s.push('.')) == count_dots(s) + 1,
{
    lemma_count_dots_concat(s, seq!['.']);
    assert(s.push('.') =~= s + seq!['.']);
    assert(count_dots(seq!['.']) == 1) by {
        assert(seq!['.'][0] == '.');
        assert(seq!['.'].skip(1) =~= Seq::<char>::empty());
        reveal_with_fuel(count_dots, 3);
    };
}

/// What an exchange-rate feed's answer denotes, in hundred-millionths: the
/// rate text at `data.rates.USD` read by [`parse_rate`], zero when the
/// document or the path is missing.
pub open spec fn feed_rate_units(body: Seq<char>) -> int {
    match json_string_at(body, "data"@, "rates"@, "USD"@) {
        Some(t) => rate_units_of(t),
        None => 0,
    }
}

/// The string value a JSON document holds under a three-key path, if any.
/// The document text and the keys determine it alone.
pub uninterp spec fn json_string_at(
    body: Seq<char>,
    k1: Seq<char>,
    k2: Seq<char>,
    k3: Seq<char>,
) -> Option<Seq<char>>;

/// Relies on `serde_json::from_str`, `serde_json::Value::get` and
/// `serde_json::Value::as_str`: parses the document and hands back the
/// string value under the three-key object path, `None` when the document
/// does not parse, a key is missing, or the value there is not a string.
/// The result depends on the four texts alone.
#[verifier::external_body]
fn lookup_json_string(body: &str, k1: &str, k2: &str, k3: &str) -> (r: Option<String>)
    ensures
        match r {
            Some(t) => json_string_at(body@, k1@, k2@, k3@) == Some(t@),
            None => json_string_at(body@, k1@, k2@, k3@) is None,
        },
{
    let doc: serde_json::Value = match serde_json::from_str(body) {
        Ok(d) => d,
        Err(_) => return None,
    };
    let v1 = match doc.get(k1) { Some(v) => v, None => return None };
    let v2 = match v1.get(k2) { Some(v) => v, None => return None };
    let v3 = match v2.get(k3) { Some(v) => v, None => return None };
    match v3.as_str() {
        Some(t) => Some(t.to_string()),
        None => None,
    }
}

/// Reads the USD rate out of a price feed's JSON answer, in
/// hundred-millionths; zero when the document, the `data.rates.USD` path or
/// the rate text is unusable.
pub fn rate_from_feed(body: &str) -> (r: u64)
    ensures
        r as int == feed_rate_units(body@),
{
    match lookup_json_string(body, "data", "rates", "USD") {
        Some(t) => parse_rate(t.as_str()),
        None => 0,
    }
}

} // verus!
