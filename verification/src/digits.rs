//! Decimal digit sequences and their integer values.
//!
//! Amounts are carried around as sequences of base-10 digit values (each in
//! `0..10`), most significant first. This module gives such sequences their
//! mathematical value and provides overflow-safe, capped evaluation.

use vstd::prelude::*;

verus! {

/// Every element of the sequence is a base-10 digit value.
pub open spec fn all_digits(ds: Seq<u8>) -> bool {
    forall|i: int| 0 <= i < ds.len() ==> ds[i] < 10
}

/// The integer a digit sequence denotes, most significant digit first.
pub open spec fn seq_val(ds: Seq<u8>) -> int
    decreases ds.len(),
{
    if ds.len() == 0 {
        0
    } else {
        seq_val(ds.drop_last()) * 10 + ds.last()
    }
}

/// Ten to the `n`-th power.
pub open spec fn pow10(n: nat) -> int
    decreases n,
{
    if n == 0 {
        1
    } else {
        10 * pow10((n - 1) as nat)
    }
}

/// The smaller of two integers.
pub open spec fn min_int(a: int, b: int) -> int {
    if a < b {
        a
    } else {
        b
    }
}

pub proof fn lemma_pow10_positive(n: nat)
    ensures
        pow10(n) >= 1,
    decreases n,
{
    if n > 0 {
        lemma_pow10_positive((n - 1) as nat);
    }
}

pub proof fn lemma_pow10_increases(m: nat, n: nat)
    requires
        m <= n,
    ensures
        pow10(m) <= pow10(n),
    decreases n,
{
    if m < n {
        lemma_pow10_increases(m, (n - 1) as nat);
        lemma_pow10_positive((n - 1) as nat);
    }
}

/// A sequence of digits denotes a value in `[0, 10^len)`.
pub proof fn lemma_seq_val_bounds(ds: Seq<u8>)
    requires
        all_digits(ds),
    ensures
        0 <= seq_val(ds) < pow10(ds.len()),
    decreases ds.len(),
{
    if ds.len() > 0 {
        assert(all_digits(ds.drop_last()));
        lemma_seq_val_bounds(ds.drop_last());
        assert(seq_val(ds.drop_last()) <= pow10((ds.len() - 1) as nat) - 1);
        assert(seq_val(ds) == seq_val(ds.drop_last()) * 10 + ds.last());
        assert(seq_val(ds.drop_last()) * 10 <= (pow10((ds.len() - 1) as nat) - 1) * 10)
            by (nonlinear_arith)
            requires
                seq_val(ds.drop_last()) <= pow10((ds.len() - 1) as nat) - 1,
        ;
    }
}

/// A digit appended at the low end multiplies the value by ten and adds it.
pub proof fn lemma_seq_val_step(ds: Seq<u8>, i: int)
    requires
        0 <= i < ds.len(),
    ensures
        seq_val(ds.take(i + 1)) == seq_val(ds.take(i)) * 10 + ds[i],
{
    assert(ds.take(i + 1).drop_last() =~= ds.take(i));
    assert(ds.take(i + 1).last() == ds[i]);
}

/// Capping before and after the multiply-add step agree, so a running value
/// may be capped at every step.
proof fn lemma_capped_step(cap: int, v: int, d: int)
    requires
        0 < cap,
        0 <= v,
        0 <= d < 10,
    ensures
        min_int(cap, min_int(cap, v) * 10 + d) == min_int(cap, v * 10 + d),
{
    if v >= cap {
        assert(v * 10 + d >= cap && cap * 10 + d >= cap) by (nonlinear_arith)
            requires
                0 < cap <= v,
                0 <= d,
        ;
    }
}

/// A digit sequence with a nonzero digit has a positive value.
pub proof fn lemma_seq_val_nonzero(ds: Seq<u8>, k: int)
    requires
        all_digits(ds),
        0 <= k < ds.len(),
        ds[k] != 0,
    ensures
        seq_val(ds) > 0,
    decreases ds.len(),
{
    if k == ds.len() - 1 {
        lemma_seq_val_bounds(ds.drop_last());
        assert(seq_val(ds.drop_last()) * 10 >= 0) by (nonlinear_arith)
            requires
                seq_val(ds.drop_last()) >= 0,
        ;
    } else {
        assert(all_digits(ds.drop_last()));
        lemma_seq_val_nonzero(ds.drop_last(), k);
        assert(seq_val(ds.drop_last()) * 10 >= 10) by (nonlinear_arith)
            requires
                seq_val(ds.drop_last()) >= 1,
        ;
    }
}

/// A digit sequence of zeros has value zero.
pub proof fn lemma_seq_val_all_zero(ds: Seq<u8>)
    requires
        forall|t: int| 0 <= t < ds.len() ==> ds[t] == 0,
    ensures
        seq_val(ds) == 0,
    decreases ds.len(),
{
    if ds.len() > 0 {
        lemma_seq_val_all_zero(ds.drop_last());
    }
}

/// Appending zero digits at the low end multiplies the value by ten each
/// time.
pub proof fn lemma_seq_val_pad(ds: Seq<u8>, w: nat)
    requires
        ds.len() <= w,
    ensures
        seq_val(
            Seq::new(
                w,
                |i: int|
                    if i < ds.len() {
                        ds[i]
                    } else {
                        0
                    },
            ),
        ) == seq_val(ds) * pow10((w - ds.len()) as nat),
    decreases w - ds.len(),
{
    let padded = Seq::new(
        w,
        |i: int|
            if i < ds.len() {
                ds[i]
            } else {
                0
            },
    );
    if ds.len() == w {
        assert(padded =~= ds);
        assert(seq_val(ds) * 1 == seq_val(ds));
    } else {
        let shorter = Seq::new(
            (w - 1) as nat,
            |i: int|
                if i < ds.len() {
                    ds[i]
                } else {
                    0
                },
        );
        assert(padded.drop_last() =~= shorter);
        assert(padded.last() == 0);
        lemma_seq_val_pad(ds, (w - 1) as nat);
        let k = (w - 1 - ds.len()) as nat;
        assert(pow10((w - ds.len()) as nat) == 10 * pow10(k));
        assert(seq_val(ds) * (10 * pow10(k)) == (seq_val(ds) * pow10(k)) * 10) by (nonlinear_arith);
    }
}

/// At or under eight fractional digits the fixed-point value is exact.
pub proof fn lemma_frac8_exact(fs: Seq<u8>)
    requires
        fs.len() <= 8,
    ensures
        frac8_val(fs) == seq_val(fs) * pow10((8 - fs.len()) as nat),
{
    assert(pad8(fs) =~= Seq::new(
        8,
        |i: int|
            if i < fs.len() {
                fs[i]
            } else {
                0
            },
    ));
    lemma_seq_val_pad(fs, 8);
}

/// Capping the integer part at `ic` first and the scaled total at `ct`
/// second gives the same value as capping the exact scaled total, provided
/// `ct` lies at or below `ic` scaled.
pub proof fn lemma_units_cap(v: int, iv: int, f: int, ic: int, ct: int, e: int)
    requires
        0 < e,
        0 <= f < e,
        0 <= v,
        0 < ic,
        iv == min_int(ic, v),
        0 < ct <= ic * e,
    ensures
        min_int(ct, iv * e + f) == min_int(ct, v * e + f),
{
    if v >= ic {
        assert(v * e >= ic * e) by (nonlinear_arith)
            requires
                v >= ic,
                e > 0,
        ;
    }
}

/// Bound under which `acc * 10 + 9` cannot overflow a `u128`.
pub const CAP_LIMIT: u128 = (u128::MAX - 9) / 10;

/// Evaluates a digit sequence, capping the result at `cap`.
pub(crate) fn digits_capped(ds: &Vec<u8>, cap: u128) -> (r: u128)
    requires
        all_digits(ds@),
        0 < cap <= CAP_LIMIT,
    ensures
        r == min_int(cap as int, seq_val(ds@)),
{
    let mut acc: u128 = 0;
    let mut i: usize = 0;
    proof {
        assert(ds@.take(0) =~= Seq::<u8>::empty());
    }
    while i < ds.len()
        invariant
            i <= ds.len(),
            all_digits(ds@),
            0 < cap <= CAP_LIMIT,
            acc == min_int(cap as int, seq_val(ds@.take(i as int))),
        decreases ds.len() - i,
    {
        let d = ds[i];
        proof {
            assert(all_digits(ds@.take(i as int)));
            lemma_seq_val_bounds(ds@.take(i as int));
            lemma_capped_step(cap as int, seq_val(ds@.take(i as int)), d as int);
            lemma_seq_val_step(ds@, i as int);
        }
        let t = acc * 10 + d as u128;
        acc = if t < cap {
            t
        } else {
            cap
        };
        i = i + 1;
    }
    proof {
        assert(ds@.take(ds@.len() as int) =~= ds@);
    }
    acc
}

/// The first eight digits of a fractional digit sequence, padded on the right
/// with zeros.
pub open spec fn pad8(fs: Seq<u8>) -> Seq<u8> {
    Seq::new(
        8,
        |i: int|
            if i < fs.len() {
                fs[i]
            } else {
                0
            },
    )
}

/// The value of a fractional digit sequence in hundred-millionths: its first
/// eight digits read as an integer (truncation beyond eight digits).
pub open spec fn frac8_val(fs: Seq<u8>) -> int {
    seq_val(pad8(fs))
}

/// Evaluates the fractional digits of an amount in hundred-millionths.
pub(crate) fn frac8_units(fs: &Vec<u8>) -> (r: u64)
    requires
        all_digits(fs@),
    ensures
        r == frac8_val(fs@),
        r < 100_000_000,
{
    let mut acc: u64 = 0;
    let mut i: usize = 0;
    proof {
        assert(pad8(fs@).take(0) =~= Seq::<u8>::empty());
    }
    while i < 8
        invariant
            i <= 8,
            all_digits(fs@),
            acc == seq_val(pad8(fs@).take(i as int)),
            acc < pow10(i as nat),
        decreases 8 - i,
    {
        let d: u8 = if i < fs.len() {
            fs[i]
        } else {
            0
        };
        proof {
            lemma_seq_val_step(pad8(fs@), i as int);
            assert(pad8(fs@)[i as int] == d);
            reveal_with_fuel(pow10, 9);
            assert(pow10(7) == 10_000_000);
            lemma_pow10_increases(i as nat, 7);
        }
        acc = acc * 10 + d as u64;
        i = i + 1;
    }
    proof {
        assert(pad8(fs@).take(8) =~= pad8(fs@));
        reveal_with_fuel(pow10, 9);
        assert(pow10(8) == 100_000_000);
    }
    acc
}

} // verus!
