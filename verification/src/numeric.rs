//! Exact decimal numbers as digit strings.
//!
//! The data context stores every number as its decimal text. The
//! formatting helpers (rounding to a number of decimals or to a power of
//! ten, digit grouping, value-with-uncertainty) work on that text exactly,
//! digit by digit: rounding multiplies by a power of ten, rounds to the
//! nearest integer with ties away from zero, and divides back, as the
//! engine's rounding rule demands, without any binary floating-point
//! detour.
use vstd::prelude::*;

use crate::textutil::{ascii_bytes, copy_range, find_sub_from, lit_bytes, spec_find_from};

verus! {

/// ASCII code of the digit zero.
pub const D0: u8 = 48;

/// ASCII code of the digit nine.
pub const D9: u8 = 57;

/// ASCII code of the decimal point.
pub const DOT: u8 = 46;

/// ASCII code of the minus sign.
pub const MINUS: u8 = 45;

/// Every byte is an ASCII decimal digit.
pub open spec fn all_digits(s: Seq<u8>) -> bool {
    forall|i: int| 0 <= i < s.len() ==> D0 <= #[trigger] s[i] <= D9
}

/// The natural number that a big-endian ASCII digit string denotes.
pub open spec fn dval(s: Seq<u8>) -> nat
    decreases s.len(),
{
    if s.len() == 0 {
        0
    } else {
        dval(s.drop_last()) * 10 + ((s.last() - D0) as nat)
    }
}

/// Ten to the `n`.
pub open spec fn pow10(n: nat) -> nat
    decreases n,
{
    if n == 0 {
        1
    } else {
        10 * pow10((n - 1) as nat)
    }
}

/// The canonical ASCII digit string of a natural number: no leading
/// zeros, except that zero itself is the single digit `0`.
pub open spec fn spec_udec(n: nat) -> Seq<u8>
    decreases n,
{
    if n < 10 {
        seq![(D0 + n) as u8]
    } else {
        spec_udec(n / 10).push((D0 + n % 10) as u8)
    }
}

/// A digit string with no spurious leading zero.
pub open spec fn no_leading_zero(s: Seq<u8>) -> bool {
    s.len() >= 1 && (s[0] != D0 || s.len() == 1)
}

pub proof fn lemma_dval_empty()
    ensures
        dval(Seq::<u8>::empty()) == 0,
{
}

pub proof fn lemma_pow10_pos(n: nat)
    ensures
        pow10(n) >= 1,
    decreases n,
{
    if n > 0 {
        lemma_pow10_pos((n - 1) as nat);
    }
}

/// Concatenating digit strings multiplies the left value by the power of
/// ten given by the length of the right part.
pub proof fn lemma_dval_concat(a: Seq<u8>, b: Seq<u8>)
    requires
        all_digits(b),
    ensures
        dval(a + b) == dval(a) * pow10(b.len()) + dval(b),
    decreases b.len(),
{
    if b.len() == 0 {
        assert(a + b =~= a);
        lemma_dval_empty();
        assert(b =~= Seq::<u8>::empty());
        assert(pow10(b.len()) == 1);
    } else {
        let b0 = b.drop_last();
        assert(all_digits(b0));
        lemma_dval_concat(a, b0);
        assert((a + b).drop_last() =~= a + b0);
        assert((a + b).last() == b.last());
        assert(dval(a + b) == dval(a + b0) * 10 + ((b.last() - D0) as nat));
        assert(dval(b) == dval(b0) * 10 + ((b.last() - D0) as nat));
        assert((dval(a) * pow10(b0.len()) + dval(b0)) * 10 + ((b.last() - D0) as nat)
            == dval(a) * (pow10(b0.len()) * 10) + (dval(b0) * 10 + ((b.last() - D0) as nat)))
            by (nonlinear_arith);
        assert(pow10(b.len()) == 10 * pow10(b0.len()));
        assert(dval(a) * (pow10(b0.len()) * 10) == dval(a) * pow10(b.len())) by (nonlinear_arith)
            requires pow10(b.len()) == 10 * pow10(b0.len()),
        ;
        assert(dval(a + b) == dval(a) * pow10(b.len()) + dval(b));
    }
}

/// A digit string of length `n` denotes a value below ten to the `n`.
pub proof fn lemma_dval_bound(s: Seq<u8>)
    requires
        all_digits(s),
    ensures
        dval(s) < pow10(s.len()),
    decreases s.len(),
{
    if s.len() > 0 {
        let s0 = s.drop_last();
        lemma_dval_bound(s0);
        assert(dval(s0) + 1 <= pow10(s0.len()));
        assert((dval(s0) + 1) * 10 <= pow10(s0.len()) * 10) by (nonlinear_arith)
            requires dval(s0) + 1 <= pow10(s0.len()),
        ;
    }
}

/// The canonical digit string of `n` really denotes `n` and is canonical.
pub proof fn lemma_udec_val(n: nat)
    ensures
        dval(spec_udec(n)) == n,
        all_digits(spec_udec(n)),
        no_leading_zero(spec_udec(n)),
        n > 0 ==> spec_udec(n)[0] != D0,
    decreases n,
{
    if n < 10 {
        let s = spec_udec(n);
        assert(s =~= seq![(D0 + n) as u8]);
        assert(s.drop_last() =~= Seq::<u8>::empty());
        assert(dval(s) == dval(s.drop_last()) * 10 + ((s.last() - D0) as nat));
    } else {
        lemma_udec_val(n / 10);
        let s = spec_udec(n);
        assert(s.drop_last() =~= spec_udec(n / 10));
        assert(s.last() == (D0 + n % 10) as u8);
        assert(dval(s) == (n / 10) * 10 + n % 10);
        assert((n / 10) * 10 + n % 10 == n) by (nonlinear_arith);
        assert(s[0] == spec_udec(n / 10)[0]);
    }
}

/// A digit string without leading zeros is the canonical string of its
/// value.
pub proof fn lemma_canonical_digits(s: Seq<u8>)
    requires
        all_digits(s),
        no_leading_zero(s),
    ensures
        spec_udec(dval(s)) =~= s,
    decreases s.len(),
{
    if s.len() == 1 {
        assert(s.drop_last() =~= Seq::<u8>::empty());
        lemma_dval_empty();
        assert(dval(s) == ((s[0] - D0) as nat));
        assert(dval(s) < 10);
        assert(spec_udec(dval(s)) =~= seq![(D0 + dval(s)) as u8]);
        assert((D0 + dval(s)) as u8 == s[0]);
        assert(seq![s[0]] =~= s);
    } else {
        let s0 = s.drop_last();
        assert(no_leading_zero(s0));
        lemma_canonical_digits(s0);
        lemma_dval_lower_bound(s0);
        assert(dval(s) == dval(s0) * 10 + (s.last() - D0));
        assert(dval(s) >= 10) by {
            assert(dval(s0) >= 1);
        }
        assert(dval(s) / 10 == dval(s0) && dval(s) % 10 == s.last() - D0) by {
            assert(dval(s) == 10 * dval(s0) + (s.last() - D0));
            assert(0 <= s.last() - D0 < 10);
            vstd::arithmetic::div_mod::lemma_fundamental_div_mod_converse(
                dval(s) as int, 10, dval(s0) as int, (s.last() - D0) as int);
        }
        assert(spec_udec(dval(s)) == spec_udec(dval(s0)).push((D0 + dval(s) % 10) as u8));
        assert((D0 + dval(s) % 10) as u8 == s.last());
        assert(spec_udec(dval(s0)).push(s.last()) =~= s);
    }
}

/// A nonempty digit string with a nonzero first digit denotes at least
/// ten to one less than its length.
pub proof fn lemma_dval_lower_bound(s: Seq<u8>)
    requires
        all_digits(s),
        s.len() >= 1,
        s[0] != D0,
    ensures
        dval(s) >= pow10((s.len() - 1) as nat),
    decreases s.len(),
{
    if s.len() == 1 {
    } else {
        let s0 = s.drop_last();
        lemma_dval_lower_bound(s0);
        assert(dval(s0) * 10 >= pow10((s0.len() - 1) as nat) * 10) by (nonlinear_arith)
            requires dval(s0) >= pow10((s0.len() - 1) as nat),
        ;
    }
}

/// Adds one to a digit string, propagating the carry.
pub fn inc_digits(ds: Vec<u8>) -> (r: Vec<u8>)
    requires
        all_digits(ds@),
    ensures
        all_digits(r@),
        dval(r@) == dval(ds@) + 1,
        r@.len() >= 1,
        ds@.len() >= 1 && ds@[0] != D0 ==> r@[0] != D0,
        ds@.len() == 0 || (ds@.len() == 1 && ds@[0] == D0) ==> r@[0] != D0,
        r@.len() > ds@.len() ==> r@[0] != D0,
        ds@.len() <= r@.len() <= ds@.len() + 1,
    decreases ds@.len(),
{
    let mut ds = ds;
    let ghost orig = ds@;
    match ds.pop() {
        None => {
            let mut v: Vec<u8> = Vec::new();
            v.push(D0 + 1);
            proof {
                lemma_dval_empty();
                assert(v@.drop_last() =~= Seq::<u8>::empty());
            }
            v
        },
        Some(d) => {
            proof {
                assert(orig.drop_last() =~= ds@);
            }
            if d < D9 {
                ds.push(d + 1);
                proof {
                    assert(ds@.drop_last() =~= orig.drop_last());
                    assert(dval(ds@) == dval(ds@.drop_last()) * 10 + ((d + 1 - D0) as nat));
                    assert(dval(orig) == dval(orig.drop_last()) * 10 + ((d - D0) as nat));
                }
                ds
            } else {
                let mut r = inc_digits(ds);
                let ghost r0 = r@;
                r.push(D0);
                proof {
                    assert(r@.drop_last() =~= r0);
                    assert(dval(r@) == dval(r0) * 10 + ((D0 - D0) as nat));
                    assert(dval(orig) == dval(orig.drop_last()) * 10 + ((d - D0) as nat));
                    assert(d == D9);
                }
                r
            }
        },
    }
}

/// A decimal number held exactly: a sign and the digit strings on both
/// sides of the decimal point.
pub struct Dec {
    pub neg: bool,
    pub ints: Vec<u8>,
    pub fracs: Vec<u8>,
}

/// The mathematical reading of a [`Dec`]: the denoted value is
/// `(-1)^neg * mant / 10^scale`.
pub struct DecModel {
    pub neg: bool,
    pub mant: nat,
    pub scale: nat,
}

impl View for Dec {
    type V = DecModel;

    open spec fn view(&self) -> DecModel {
        DecModel {
            neg: self.neg,
            mant: dval(self.ints@ + self.fracs@),
            scale: self.fracs@.len(),
        }
    }
}

impl Dec {
    /// Shape invariant: both sides are digit strings and the integer
    /// side is free of leading zeros.
    pub open spec fn wf(&self) -> bool {
        &&& all_digits(self.ints@)
        &&& all_digits(self.fracs@)
        &&& no_leading_zero(self.ints@)
    }

    /// A canonical decimal also carries no trailing zero in the
    /// fraction and never writes a minus sign on zero.
    pub open spec fn canonical(&self) -> bool {
        &&& self.wf()
        &&& self.fracs@.len() == 0 || self.fracs@.last() != D0
        &&& self.neg ==> self@.mant != 0
    }
}

/// The canonical model of a value: trailing fractional zeros are
/// dropped and zero is never negative.
pub open spec fn canon_model(neg: bool, m: nat, s: nat) -> DecModel
    decreases s,
{
    if s > 0 && m % 10 == 0 {
        canon_model(neg, m / 10, (s - 1) as nat)
    } else {
        DecModel { neg: neg && m != 0, mant: m, scale: s }
    }
}

/// The nearest integer to `m / 10^p`, ties rounded away from zero.
pub open spec fn round_away(m: nat, p: nat) -> nat {
    m / pow10(p) + if 2 * (m % pow10(p)) >= pow10(p) { 1nat } else { 0nat }
}

/// Rounding a value to `k` decimal places (`k < 0`: to a power of
/// ten): the value is scaled by `10^k`, rounded to the nearest integer
/// with ties away from zero, scaled back, and written canonically.
pub open spec fn spec_round_model(v: DecModel, k: int) -> DecModel {
    if k >= v.scale {
        canon_model(v.neg, v.mant, v.scale)
    } else {
        let m2 = round_away(v.mant, (v.scale - k) as nat);
        if k >= 0 {
            canon_model(v.neg, m2, k as nat)
        } else {
            canon_model(v.neg, m2 * pow10((-k) as nat), 0)
        }
    }
}

/// The canonical zero.
fn dec_zero() -> (r: Dec)
    ensures
        r.canonical(),
        r@ == (DecModel { neg: false, mant: 0, scale: 0 }),
{
    let mut ints: Vec<u8> = Vec::new();
    ints.push(D0);
    let r = Dec { neg: false, ints, fracs: Vec::new() };
    proof {
        lemma_dval_empty();
        assert(r.ints@ + r.fracs@ =~= r.ints@);
        assert(r.ints@.drop_last() =~= Seq::<u8>::empty());
    }
    r
}

/// Drops trailing fractional zeros and a minus sign on zero.
pub fn canonize(d: Dec) -> (r: Dec)
    requires
        d.wf(),
    ensures
        r.canonical(),
        r@ == canon_model(d@.neg, d@.mant, d@.scale),
{
    let mut d = d;
    let ghost dm = d@;
    while d.fracs.len() > 0 && d.fracs[d.fracs.len() - 1] == D0
        invariant
            d.wf(),
            d.neg == dm.neg,
            canon_model(dm.neg, dm.mant, dm.scale) == canon_model(d@.neg, d@.mant, d@.scale),
        decreases d.fracs@.len(),
    {
        let ghost pre = d@;
        let ghost whole = d.ints@ + d.fracs@;
        d.fracs.pop();
        proof {
            assert(whole.last() == D0);
            assert(whole.drop_last() =~= d.ints@ + d.fracs@);
            assert(dval(whole) == dval(whole.drop_last()) * 10 + ((whole.last() - D0) as nat));
            assert(pre.mant == d@.mant * 10);
            assert(pre.mant % 10 == 0 && pre.mant / 10 == d@.mant) by {
                assert(pre.mant == 10 * d@.mant + 0);
                vstd::arithmetic::div_mod::lemma_fundamental_div_mod_converse(
                    pre.mant as int, 10, d@.mant as int, 0);
            }
        }
    }
    if d.neg {
        let is_zero = is_all_zeros(&d.ints) && is_all_zeros(&d.fracs);
        if is_zero {
            proof {
                lemma_dval_concat(d.ints@, d.fracs@);
                lemma_all_zeros_val(d.ints@);
                lemma_all_zeros_val(d.fracs@);
            }
            d.neg = false;
        } else {
            proof {
                lemma_nonzero_digits(d.ints@, d.fracs@);
            }
        }
    }
    d
}

/// Every byte is the digit zero.
pub open spec fn all_zeros(s: Seq<u8>) -> bool {
    forall|i: int| 0 <= i < s.len() ==> #[trigger] s[i] == D0
}

pub proof fn lemma_all_zeros_val(s: Seq<u8>)
    requires
        all_zeros(s),
    ensures
        dval(s) == 0,
    decreases s.len(),
{
    if s.len() > 0 {
        lemma_all_zeros_val(s.drop_last());
    }
}

/// A digit string with some nonzero digit denotes a nonzero value.
proof fn lemma_digits_nonzero_val(s: Seq<u8>)
    requires
        all_digits(s),
        !all_zeros(s),
    ensures
        dval(s) != 0,
    decreases s.len(),
{
    if s.len() > 0 {
        if s.last() == D0 {
            assert(!all_zeros(s.drop_last())) by {
                let i = choose|i: int| 0 <= i < s.len() && s[i] != D0;
                assert(s.drop_last()[i] != D0);
            }
            lemma_digits_nonzero_val(s.drop_last());
        }
    }
}

proof fn lemma_nonzero_digits(a: Seq<u8>, b: Seq<u8>)
    requires
        all_digits(a),
        all_digits(b),
        !all_zeros(a) || !all_zeros(b),
    ensures
        dval(a + b) != 0,
{
    lemma_dval_concat(a, b);
    lemma_pow10_pos(b.len());
    if !all_zeros(a) {
        lemma_digits_nonzero_val(a);
        assert(dval(a) * pow10(b.len()) >= 1 * pow10(b.len())) by (nonlinear_arith)
            requires dval(a) >= 1, pow10(b.len()) >= 1,
        ;
    } else {
        lemma_digits_nonzero_val(b);
    }
}

/// Byte-for-byte copy.
pub fn copy_bytes(v: &Vec<u8>) -> (r: Vec<u8>)
    ensures
        r@ == v@,
{
    let mut r: Vec<u8> = Vec::new();
    let mut i: usize = 0;
    while i < v.len()
        invariant
            i <= v@.len(),
            r@ =~= v@.subrange(0, i as int),
        decreases v@.len() - i,
    {
        r.push(v[i]);
        i += 1;
    }
    proof {
        assert(r@ =~= v@);
    }
    r
}

pub proof fn lemma_pow10_mono(a: nat, b: nat)
    requires
        a <= b,
    ensures
        pow10(a) <= pow10(b),
    decreases b,
{
    if a < b {
        lemma_pow10_mono(a, (b - 1) as nat);
        lemma_pow10_pos((b - 1) as nat);
    }
}

/// The first digit of the dropped tail decides whether the tail is at
/// least one half of its scale.
proof fn lemma_tie(dropped: Seq<u8>)
    requires
        all_digits(dropped),
        dropped.len() >= 1,
    ensures
        (2 * dval(dropped) >= pow10(dropped.len())) <==> dropped[0] >= D0 + 5,
{
    let len = dropped.len() as int;
    let first = dropped[0];
    let sub = dropped.subrange(1, len);
    assert(dropped =~= seq![first] + sub);
    assert(all_digits(sub));
    lemma_dval_concat(seq![first], sub);
    lemma_dval_bound(sub);
    lemma_dval_empty();
    assert(seq![first].drop_last() =~= Seq::<u8>::empty());
    assert(dval(seq![first]) == ((first - D0) as nat));
    let q1 = pow10(sub.len());
    let tail = dval(sub);
    assert(dval(dropped) == ((first - D0) as nat) * q1 + tail);
    assert(pow10(dropped.len()) == 10 * q1);
    lemma_pow10_pos(sub.len());
    if first >= D0 + 5 {
        assert(2 * dval(dropped) >= pow10(dropped.len())) by (nonlinear_arith)
            requires
                dval(dropped) == ((first - D0) as nat) * q1 + tail,
                D0 + 5 <= first <= D9,
                pow10(dropped.len()) == 10 * q1,
                q1 >= 1,
                tail >= 0,
        ;
    } else {
        assert(2 * dval(dropped) < pow10(dropped.len())) by (nonlinear_arith)
            requires
                dval(dropped) == ((first - D0) as nat) * q1 + tail,
                D0 <= first < D0 + 5,
                pow10(dropped.len()) == 10 * q1,
                q1 >= 1,
                tail < q1,
        ;
    }
}

/// Rounds a well-formed decimal to `decimals` places; a negative count
/// rounds to the corresponding power of ten. Exact: the value is scaled
/// by ten to the `decimals`, rounded to the nearest integer with ties
/// away from zero, and scaled back.
#[verifier::rlimit(100)]
#[verifier::spinoff_prover]
pub fn round_value(d: &Dec, decimals: i32) -> (r: Dec)
    requires
        d.wf(),
    ensures
        r.canonical(),
        r@ == spec_round_model(d@, decimals as int),
{
    let scale = d.fracs.len();
    if decimals >= 0 && decimals as usize >= scale {
        let copy = Dec { neg: d.neg, ints: copy_bytes(&d.ints), fracs: copy_bytes(&d.fracs) };
        proof {
            assert(copy@ == d@);
        }
        return canonize(copy);
    }
    // The count of digits to drop from the right of the digit string.
    let ghost p = d@.scale - decimals;
    proof {
        assert(p >= 1);
    }
    // All digits in one string, integer part first.
    let mut whole = copy_bytes(&d.ints);
    let fcopy = copy_bytes(&d.fracs);
    whole.extend_from_slice(fcopy.as_slice());
    proof {
        assert(whole@ =~= d.ints@ + d.fracs@) by {
            assert(forall|i: int| 0 <= i < d.fracs@.len()
                ==> cloned::<u8>(d.fracs@[i], #[trigger] whole@[d.ints@.len() + i]));
            assert(forall|i: int| 0 <= i < d.fracs@.len()
                ==> #[trigger] whole@[d.ints@.len() + i] == d.fracs@[i]);
        }
        assert(d@.mant == dval(whole@));
        assert(all_digits(whole@));
    }
    let n = whole.len();
    let p_fits = if decimals >= 0 {
        true
    } else {
        // `scale - decimals` stays within the digit count exactly when
        // the magnitude of the negative count fits under the integer
        // digit count.
        let neg_count = (-(decimals as i64)) as u64;
        neg_count <= (n - scale) as u64
    };
    if !p_fits {
        // Dropping more digits than there are: the scaled value is
        // under one half, so everything rounds to zero.
        proof {
            assert(p > n);
            lemma_dval_bound(whole@);
            lemma_pow10_mono(n as nat, (p - 1) as nat);
            assert(2 * d@.mant < 2 * pow10(n as nat));
            assert(2 * pow10((p - 1) as nat) <= pow10(p as nat));
            assert(d@.mant / pow10(p as nat) == 0) by {
                lemma_pow10_pos(p as nat);
                lemma_pow10_mono(n as nat, p as nat);
                vstd::arithmetic::div_mod::lemma_basic_div(d@.mant as int, pow10(p as nat) as int);
            }
            assert(d@.mant % pow10(p as nat) == d@.mant) by {
                lemma_pow10_mono(n as nat, p as nat);
                vstd::arithmetic::div_mod::lemma_small_mod(d@.mant, pow10(p as nat));
            }
            assert(round_away(d@.mant, p as nat) == 0);
            lemma_canon_model_zero(d@.neg, ((-(decimals as int))) as nat);
        }
        return dec_zero();
    }
    let pu: usize = if decimals >= 0 {
        scale - (decimals as usize)
    } else {
        scale + ((-(decimals as i64)) as u64 as usize)
    };
    proof {
        assert(pu == p);
        assert(1 <= pu <= n);
    }
    let keep = n - pu;
    let mut kept = copy_bytes(&whole);
    kept.truncate(keep);
    let first_dropped = whole[keep];
    let round_up = first_dropped >= D0 + 5;
    let ghost dropped = whole@.subrange(keep as int, n as int);
    proof {
        assert(whole@ =~= kept@ + dropped);
        assert(all_digits(kept@));
        assert(all_digits(dropped));
        assert(all_digits(dropped.subrange(1, dropped.len() as int)));
        lemma_dval_concat(kept@, dropped);
        lemma_dval_bound(dropped);
        lemma_pow10_pos(pu as nat);
        vstd::arithmetic::div_mod::lemma_fundamental_div_mod_converse(
            d@.mant as int, pow10(pu as nat) as int, dval(kept@) as int, dval(dropped) as int);
        assert(dval(kept@) == d@.mant / pow10(pu as nat));
        assert(dval(dropped) == d@.mant % pow10(pu as nat));
        lemma_tie(dropped);
        assert(dropped[0] == first_dropped);
        assert(round_up == (2 * (d@.mant % pow10(pu as nat)) >= pow10(pu as nat)));
    }
    let base: Vec<u8> = if keep == 0 {
        let mut v: Vec<u8> = Vec::new();
        if round_up {
            v.push(D0 + 1);
        } else {
            v.push(D0);
        }
        proof {
            lemma_dval_empty();
            assert(v@.drop_last() =~= Seq::<u8>::empty());
            assert(kept@ =~= Seq::<u8>::empty());
        }
        v
    } else {
        if round_up {
            inc_digits(kept)
        } else {
            kept
        }
    };
    let ghost m2 = round_away(d@.mant, pu as nat);
    proof {
        assert(dval(base@) == m2);
        assert(all_digits(base@));
        assert(base@.len() >= 1);
    }
    if decimals >= 0 {
        // Split the rounded digits back into integer and fractional
        // parts at the requested scale.
        let ku = decimals as usize;
        proof {
            assert(keep == d.ints@.len() + ku);
            assert(base@.len() >= ku + 1);
        }
        let mut ints2 = base;
        let cut = ints2.len() - ku;
        let fracs2 = ints2.split_off(cut);
        proof {
            assert(ints2@ + fracs2@ =~= base@);
            assert(no_leading_zero(ints2@)) by {
                if ints2@.len() > 1 {
                    if base@.len() > keep {
                        assert(base@[0] != D0);
                    } else {
                        assert(ints2@.len() == d.ints@.len());
                        assert(d.ints@[0] != D0);
                        assert(kept@[0] == d.ints@[0]);
                        assert(base@[0] != D0);
                    }
                    assert(ints2@[0] == base@[0]);
                }
            }
        }
        let out = Dec { neg: d.neg, ints: ints2, fracs: fracs2 };
        proof {
            assert(out@.mant == m2);
            assert(out@.scale == ku);
        }
        canonize(out)
    } else {
        // Rounding to a power of ten: pad the rounded digits with
        // zeros back up to the integer scale.
        let q: usize = (-(decimals as i64)) as u64 as usize;
        if keep == 0 && !round_up {
            proof {
                assert(m2 == 0);
                lemma_canon_model_zero(d@.neg, 0);
                assert(m2 * pow10(q as nat) == 0) by (nonlinear_arith)
                    requires m2 == 0,
                ;
            }
            return dec_zero();
        }
        proof {
            assert(base@[0] != D0) by {
                if keep > 0 {
                    assert(kept@[0] == d.ints@[0]);
                    assert(keep <= d.ints@.len());
                    assert(d.ints@.len() >= 2 || keep == d.ints@.len());
                    assert(kept@[0] != D0);
                }
            }
            lemma_dval_lower_bound(base@);
            lemma_pow10_pos((base@.len() - 1) as nat);
            assert(m2 >= 1);
        }
        let mut ints2 = base;
        let mut j: usize = 0;
        proof {
            assert(pow10(0) == 1);
            assert(m2 * pow10(0) == m2) by (nonlinear_arith)
                requires pow10(0) == 1,
            ;
        }
        while j < q
            invariant
                j <= q,
                all_digits(ints2@),
                ints2@.len() >= 1,
                ints2@[0] != D0,
                dval(ints2@) == m2 * pow10(j as nat),
            decreases q - j,
        {
            let ghost pre = ints2@;
            ints2.push(D0);
            proof {
                assert(ints2@.drop_last() =~= pre);
                assert(dval(ints2@) == dval(pre) * 10);
                assert(m2 * pow10(j as nat) * 10 == m2 * pow10((j + 1) as nat)) by (nonlinear_arith)
                    requires pow10((j + 1) as nat) == 10 * pow10(j as nat),
                ;
            }
            j += 1;
        }
        let out = Dec { neg: d.neg, ints: ints2, fracs: Vec::new() };
        proof {
            assert(out.ints@ + out.fracs@ =~= out.ints@);
            assert(out@.mant == m2 * pow10(q as nat));
            assert(out@.scale == 0);
            assert(out@.mant >= 1) by {
                lemma_pow10_pos(q as nat);
                assert(m2 * pow10(q as nat) >= 1 * 1) by (nonlinear_arith)
                    requires m2 >= 1, pow10(q as nat) >= 1,
                ;
            }
            assert(canon_model(d@.neg, out@.mant, 0) == out@);
        }
        out
    }
}

/// A zero mantissa canonicalizes to plain zero at any scale.
pub proof fn lemma_canon_model_zero(neg: bool, s: nat)
    ensures
        canon_model(neg, 0, s) == (DecModel { neg: false, mant: 0, scale: 0 }),
    decreases s,
{
    if s > 0 {
        lemma_canon_model_zero(neg, (s - 1) as nat);
    }
}

/// Whether every digit of `v` is zero.
fn is_all_zeros(v: &Vec<u8>) -> (r: bool)
    ensures
        r == all_zeros(v@),
{
    let mut i: usize = 0;
    while i < v.len()
        invariant
            i <= v@.len(),
            forall|k: int| 0 <= k < i ==> #[trigger] v@[k] == D0,
        decreases v@.len() - i,
    {
        if v[i] != D0 {
            return false;
        }
        i += 1;
    }
    true
}

/// The fixed-width digit string of `n mod 10^w`, zero-padded on the
/// left.
pub open spec fn spec_pad(n: nat, w: nat) -> Seq<u8>
    decreases w,
{
    if w == 0 {
        Seq::<u8>::empty()
    } else {
        spec_pad(n / 10, (w - 1) as nat).push((D0 + n % 10) as u8)
    }
}

/// A fixed-width digit string is the padded form of its own value.
proof fn lemma_pad_of_digits(s: Seq<u8>)
    requires
        all_digits(s),
    ensures
        spec_pad(dval(s), s.len()) =~= s,
    decreases s.len(),
{
    if s.len() > 0 {
        let s0 = s.drop_last();
        lemma_pad_of_digits(s0);
        let n = dval(s);
        assert(n == 10 * dval(s0) + (s.last() - D0));
        assert(n / 10 == dval(s0) && n % 10 == s.last() - D0) by {
            vstd::arithmetic::div_mod::lemma_fundamental_div_mod_converse(
                n as int, 10, dval(s0) as int, (s.last() - D0) as int);
        }
        assert(spec_pad(n, s.len()) == spec_pad(dval(s0), s0.len()).push((D0 + n % 10) as u8));
        assert(spec_pad(dval(s0), s0.len()).push(s.last()) =~= s);
    }
}

/// The two digit sides of a canonical decimal are determined by its
/// model: the integer side is the canonical string of the quotient, the
/// fractional side the padded remainder.
proof fn lemma_canonical_parts(d: &Dec)
    requires
        d.wf(),
    ensures
        d.ints@ =~= spec_udec(d@.mant / pow10(d@.scale)),
        d.fracs@ =~= spec_pad(d@.mant % pow10(d@.scale), d@.scale),
{
    lemma_dval_concat(d.ints@, d.fracs@);
    lemma_dval_bound(d.fracs@);
    lemma_pow10_pos(d@.scale);
    vstd::arithmetic::div_mod::lemma_fundamental_div_mod_converse(
        d@.mant as int, pow10(d@.scale) as int, dval(d.ints@) as int, dval(d.fracs@) as int);
    lemma_canonical_digits(d.ints@);
    lemma_pad_of_digits(d.fracs@);
}

/// The canonical text of a decimal model: an optional minus sign, the
/// integer digits, and, when the scale is positive, a point followed by
/// the zero-padded fractional digits.
pub open spec fn spec_model_bytes(v: DecModel) -> Seq<u8> {
    let sign: Seq<u8> = if v.neg { seq![MINUS] } else { Seq::<u8>::empty() };
    let ip = spec_udec(v.mant / pow10(v.scale));
    if v.scale == 0 {
        sign + ip
    } else {
        sign + ip + seq![DOT] + spec_pad(v.mant % pow10(v.scale), v.scale)
    }
}

/// Writes a well-formed decimal as text.
pub fn dec_to_bytes(d: &Dec) -> (r: Vec<u8>)
    requires
        d.wf(),
    ensures
        r@ == spec_model_bytes(d@),
{
    let mut r: Vec<u8> = Vec::new();
    if d.neg {
        r.push(MINUS);
    }
    r.extend_from_slice(d.ints.as_slice());
    if d.fracs.len() > 0 {
        r.push(DOT);
        r.extend_from_slice(d.fracs.as_slice());
    }
    proof {
        lemma_canonical_parts(d);
        byte_copy_exact(r@);
        assert(r@ =~= spec_model_bytes(d@));
    }
    r
}

/// Cloned bytes are equal bytes.
pub proof fn byte_copy_exact(s: Seq<u8>)
    ensures
        forall|x: u8, y: u8| #[trigger] cloned::<u8>(x, y) ==> x == y,
{
    assert forall|x: u8, y: u8| #[trigger] cloned::<u8>(x, y) implies x == y by {
        if vstd::pervasive::strictly_cloned::<u8>(x, y) {
            assert(call_ensures(<u8 as Clone>::clone, (&x,), y));
        }
    }
}

/// Digit grouping: a separator before every group of three digits
/// counted from the right.
pub open spec fn spec_group(ds: Seq<u8>, sep: Seq<u8>) -> Seq<u8>
    decreases ds.len(),
{
    if ds.len() <= 3 {
        ds
    } else {
        spec_group(ds.subrange(0, ds.len() - 3), sep) + sep + ds.subrange(
            ds.len() - 3,
            ds.len() as int,
        )
    }
}

/// Inserts `sep` every three digits from the right.
pub fn group_digits(ds: &Vec<u8>, sep: &Vec<u8>) -> (r: Vec<u8>)
    ensures
        r@ == spec_group(ds@, sep@),
    decreases ds@.len(),
{
    if ds.len() <= 3 {
        copy_bytes(ds)
    } else {
        let cut = ds.len() - 3;
        let mut head = copy_bytes(ds);
        let tail = head.split_off(cut);
        let mut r = group_digits(&head, sep);
        r.extend_from_slice(sep.as_slice());
        r.extend_from_slice(tail.as_slice());
        proof {
            byte_copy_exact(r@);
            assert(head@ =~= ds@.subrange(0, ds@.len() - 3));
            assert(tail@ =~= ds@.subrange(ds@.len() - 3, ds@.len() as int));
            assert(r@ =~= spec_group(head@, sep@) + sep@ + tail@);
        }
        r
    }
}

/// The grouped text of a canonical decimal model: the sign and the
/// fraction are kept as they are; only the integer digits are grouped.
pub open spec fn spec_sep_bytes(v: DecModel, sep: Seq<u8>) -> Seq<u8> {
    let sign: Seq<u8> = if v.neg { seq![MINUS] } else { Seq::<u8>::empty() };
    let ip = spec_group(spec_udec(v.mant / pow10(v.scale)), sep);
    if v.scale == 0 {
        sign + ip
    } else {
        sign + ip + seq![DOT] + spec_pad(v.mant % pow10(v.scale), v.scale)
    }
}

/// Makes a number easier to read: writes it canonically and inserts the
/// separator between groups of three integer digits, counted leftward
/// from the decimal point. The fractional part is kept unchanged.
pub fn add_separators(d: &Dec, separator: &Vec<u8>) -> (r: Vec<u8>)
    requires
        d.wf(),
    ensures
        r@ == spec_sep_bytes(canon_model(d@.neg, d@.mant, d@.scale), separator@),
{
    let copy = Dec { neg: d.neg, ints: copy_bytes(&d.ints), fracs: copy_bytes(&d.fracs) };
    proof {
        assert(copy@ == d@);
    }
    let c = canonize(copy);
    let grouped = group_digits(&c.ints, separator);
    let mut r: Vec<u8> = Vec::new();
    if c.neg {
        r.push(MINUS);
    }
    r.extend_from_slice(grouped.as_slice());
    if c.fracs.len() > 0 {
        r.push(DOT);
        r.extend_from_slice(c.fracs.as_slice());
    }
    proof {
        lemma_canonical_parts(&c);
        byte_copy_exact(r@);
        assert(r@ =~= spec_sep_bytes(c@, separator@));
    }
    r
}

/// What a byte string denotes as a plain decimal number: an optional
/// minus sign, then digits with at most one decimal point somewhere
/// among them (at least one digit in all). Anything else — empty text,
/// other characters, a second point — denotes nothing.
pub open spec fn spec_parse_plain(s: Seq<u8>) -> Option<DecModel> {
    let neg = s.len() >= 1 && s[0] == MINUS;
    let t = if neg { s.skip(1) } else { s };
    match spec_find_from(t, seq![DOT], 0) {
        None => if t.len() >= 1 && all_digits(t) {
            Some(DecModel { neg, mant: dval(t), scale: 0 })
        } else {
            None
        },
        Some(i) => {
            let a = t.subrange(0, i);
            let b = t.subrange(i + 1, t.len() as int);
            if t.len() >= 2 && all_digits(a) && all_digits(b) {
                Some(DecModel { neg, mant: dval(a + b), scale: b.len() })
            } else {
                None
            }
        },
    }
}

/// Whether `v[from..to]` consists of digits alone.
fn digits_only(v: &Vec<u8>, from: usize, to: usize) -> (r: bool)
    requires
        from <= to <= v@.len(),
    ensures
        r == all_digits(v@.subrange(from as int, to as int)),
{
    let mut i: usize = from;
    while i < to
        invariant
            from <= i <= to <= v@.len(),
            forall|k: int| from <= k < i ==> D0 <= #[trigger] v@[k] <= D9,
        decreases to - i,
    {
        if v[i] < D0 || v[i] > D9 {
            proof {
                assert(v@.subrange(from as int, to as int)[i - from] == v@[i as int]);
            }
            return false;
        }
        i += 1;
    }
    proof {
        assert forall|k: int| 0 <= k < to - from
            implies D0 <= #[trigger] v@.subrange(from as int, to as int)[k] <= D9 by {
            assert(v@.subrange(from as int, to as int)[k] == v@[from + k]);
        }
    }
    true
}

/// Copies `v[from..to]` with leading zero digits removed; the last
/// digit is always kept, and an empty range yields the single digit
/// zero. The denoted value is unchanged.
pub(crate) fn digits_stripped(v: &Vec<u8>, from: usize, to: usize) -> (r: Vec<u8>)
    requires
        from <= to <= v@.len(),
        all_digits(v@.subrange(from as int, to as int)),
    ensures
        all_digits(r@),
        no_leading_zero(r@),
        dval(r@) == dval(v@.subrange(from as int, to as int)),
{
    let mut k = from;
    while to - k > 1 && v[k] == D0
        invariant
            from <= k <= to <= v@.len(),
            to > from ==> k < to,
            forall|j: int| from <= j < k ==> #[trigger] v@[j] == D0,
        decreases to - k,
    {
        k += 1;
    }
    let ghost whole = v@.subrange(from as int, to as int);
    if k == to {
        // The range was empty.
        let mut r: Vec<u8> = Vec::new();
        r.push(D0);
        proof {
            lemma_dval_empty();
            assert(r@.drop_last() =~= Seq::<u8>::empty());
            assert(whole =~= Seq::<u8>::empty());
        }
        r
    } else {
        let r = copy_range(v, k, to);
        proof {
            let zeros = v@.subrange(from as int, k as int);
            assert(whole =~= zeros + r@);
            assert(all_zeros(zeros));
            assert(all_digits(r@)) by {
                assert forall|j: int| 0 <= j < r@.len() implies D0 <= #[trigger] r@[j] <= D9 by {
                    assert(r@[j] == whole[k - from + j]);
                }
            }
            lemma_all_zeros_val(zeros);
            lemma_dval_concat(zeros, r@);
            assert(no_leading_zero(r@)) by {
                if k + 1 < to {
                    assert(v@[k as int] != D0);
                }
            }
        }
        r
    }
}

/// Reads a byte string as a plain decimal number, without exponent.
pub(crate) fn parse_plain(s: &Vec<u8>) -> (r: Option<Dec>)
    ensures
        match r {
            Some(d) => d.wf() && spec_parse_plain(s@) == Some(d@),
            None => spec_parse_plain(s@) is None,
        },
{
    let neg = s.len() >= 1 && s[0] == MINUS;
    let start: usize = if neg { 1 } else { 0 };
    let t = copy_range(s, start, s.len());
    proof {
        assert(t@ =~= if neg { s@.skip(1) } else { s@ });
    }
    let mut dot: Vec<u8> = Vec::new();
    dot.push(DOT);
    proof {
        assert(dot@ =~= seq![DOT]);
    }
    match find_sub_from(&t, &dot, 0) {
        None => {
            if t.len() >= 1 && digits_only(&t, 0, t.len()) {
                proof {
                    assert(t@.subrange(0, t@.len() as int) =~= t@);
                }
                let ints = digits_stripped(&t, 0, t.len());
                let d = Dec { neg, ints, fracs: Vec::new() };
                proof {
                    assert(d.ints@ + d.fracs@ =~= d.ints@);
                }
                Some(d)
            } else {
                proof {
                    if t@.len() >= 1 {
                        assert(t@.subrange(0, t@.len() as int) =~= t@);
                    }
                }
                None
            }
        },
        Some(i) => {
            proof {
                crate::textutil::lemma_find_is_match(t@, dot@, 0, i as int);
                assert(dot@.len() == 1);
                assert(t@.subrange(i as int, i as int + 1) == dot@);
                assert(t@.subrange(i as int, i as int + 1)[0] == t@[i as int]);
                assert(t@[i as int] == DOT);
            }
            let a_ok = digits_only(&t, 0, i);
            let b_ok = digits_only(&t, i + 1, t.len());
            if t.len() >= 2 && a_ok && b_ok {
                let ints = digits_stripped(&t, 0, i);
                let fracs = copy_range(&t, i + 1, t.len());
                let d = Dec { neg, ints, fracs };
                proof {
                    let a = t@.subrange(0, i as int);
                    let b = t@.subrange(i + 1, t@.len() as int);
                    lemma_dval_concat(d.ints@, d.fracs@);
                    lemma_dval_concat(a, b);
                    assert(dval(d.ints@) == dval(a));
                    assert(d.fracs@ == b);
                    assert(dval(d.ints@ + d.fracs@) == dval(a + b));
                }
                Some(d)
            } else {
                None
            }
        },
    }
}

/// The first position of an exponent letter.
pub open spec fn spec_find_exp(s: Seq<u8>, i: int) -> Option<int>
    decreases s.len() - i,
{
    if i < 0 || i >= s.len() {
        None
    } else if s[i] == 101 || s[i] == 69 {
        Some(i)
    } else {
        spec_find_exp(s, i + 1)
    }
}

/// Finds the first exponent letter.
pub(crate) fn find_exp(s: &Vec<u8>, i: usize) -> (r: Option<usize>)
    requires
        i <= s@.len(),
    ensures
        match r {
            Some(k) => i <= k < s@.len() && spec_find_exp(s@, i as int) == Some(k as int),
            None => spec_find_exp(s@, i as int) is None,
        },
    decreases s@.len() - i,
{
    if i >= s.len() {
        return None;
    }
    if s[i] == 101 || s[i] == 69 {
        Some(i)
    } else {
        find_exp(s, i + 1)
    }
}

/// What an exponent suffix denotes: an optional sign, then digits; a
/// magnitude above one hundred thousand denotes nothing.
pub open spec fn spec_parse_exp(t: Seq<u8>) -> Option<int> {
    let signed = t.len() >= 1 && (t[0] == MINUS || t[0] == 43);
    let neg = t.len() >= 1 && t[0] == MINUS;
    let u = if signed {
        t.skip(1)
    } else {
        t
    };
    if u.len() >= 1 && all_digits(u) && dval(u) <= 100000 {
        Some(
            if neg {
                -(dval(u) as int)
            } else {
                dval(u) as int
            },
        )
    } else {
        None
    }
}

/// The decimal shifted by a power of ten: the digits stand, only the
/// decimal point moves.
pub open spec fn spec_apply_exp(m: DecModel, x: int) -> DecModel {
    if x >= m.scale {
        DecModel { neg: m.neg, mant: m.mant * pow10((x - m.scale) as nat), scale: 0 }
    } else {
        DecModel { neg: m.neg, mant: m.mant, scale: (m.scale - x) as nat }
    }
}

/// What a byte string denotes as a decimal number: a plain decimal,
/// optionally followed by an exponent letter and a whole exponent of
/// magnitude at most one hundred thousand, as numeric data sources
/// write large and small values.
#[verifier::opaque]
pub open spec fn spec_parse_dec(s: Seq<u8>) -> Option<DecModel> {
    match spec_find_exp(s, 0) {
        None => spec_parse_plain(s),
        Some(i) => {
            let head = s.subrange(0, i);
            let tail = s.subrange(i + 1, s.len() as int);
            match spec_parse_plain(head) {
                None => None,
                Some(m) => match spec_parse_exp(tail) {
                    None => None,
                    Some(x) => if m.scale - x >= usize::MAX {
                        None
                    } else {
                        Some(spec_apply_exp(m, x))
                    },
                },
            }
        },
    }
}

/// Reads an exponent suffix.
fn parse_exp(t: &Vec<u8>) -> (r: Option<i64>)
    ensures
        match r {
            Some(x) => spec_parse_exp(t@) == Some(x as int) && -100000 <= x <= 100000,
            None => spec_parse_exp(t@) is None,
        },
{
    let signed = t.len() >= 1 && (t[0] == MINUS || t[0] == 43);
    let neg = t.len() >= 1 && t[0] == MINUS;
    let start: usize = if signed {
        1
    } else {
        0
    };
    let n = t.len();
    let u = copy_range(t, start, n);
    proof {
        assert(u@ =~= if signed { t@.skip(1) } else { t@ });
    }
    if u.len() < 1 || !digits_only(&u, 0, u.len()) {
        proof {
            if u@.len() >= 1 {
                assert(u@.subrange(0, u@.len() as int) =~= u@);
            }
        }
        return None;
    }
    proof {
        assert(u@.subrange(0, u@.len() as int) =~= u@);
    }
    let stripped = digits_stripped(&u, 0, u.len());
    if stripped.len() > 6 {
        proof {
            lemma_dval_lower_bound(stripped@);
            lemma_pow10_10();
            lemma_pow10_mono(6, (stripped@.len() - 1) as nat);
        }
        return None;
    }
    let mut acc: u64 = 0;
    let mut j: usize = 0;
    proof {
        lemma_pow10_10();
    }
    while j < stripped.len()
        invariant
            j <= stripped@.len() <= 6,
            all_digits(stripped@),
            acc == dval(stripped@.subrange(0, j as int)),
            acc < pow10(j as nat),
            pow10(10) == 10_000_000_000,
        decreases stripped@.len() - j,
    {
        proof {
            lemma_pow10_mono(j as nat, 6);
            lemma_pow10_mono(6, 10);
            assert(pow10((j + 1) as nat) == 10 * pow10(j as nat));
            lemma_pow10_mono((j + 1) as nat, 10);
            assert(stripped@.subrange(0, (j + 1) as int).drop_last() =~= stripped@.subrange(
                0,
                j as int,
            ));
        }
        acc = acc * 10 + ((stripped[j] - D0) as u64);
        j += 1;
    }
    proof {
        assert(stripped@.subrange(0, stripped@.len() as int) =~= stripped@);
    }
    if acc > 100000 {
        return None;
    }
    if neg {
        Some(-(acc as i64))
    } else {
        Some(acc as i64)
    }
}

/// Reads a byte string as an exact decimal number.
pub fn parse_dec(s: &Vec<u8>) -> (r: Option<Dec>)
    ensures
        match r {
            Some(d) => d.wf() && spec_parse_dec(s@) == Some(d@),
            None => spec_parse_dec(s@) is None,
        },
{
    proof {
        reveal(spec_parse_dec);
    }
    let n = s.len();
    match find_exp(s, 0) {
        None => parse_plain(s),
        Some(i) => {
            let head = copy_range(s, 0, i);
            let tail = copy_range(s, i + 1, n);
            let d = match parse_plain(&head) {
                Some(d) => d,
                None => {
                    return None;
                },
            };
            let x = match parse_exp(&tail) {
                Some(x) => x,
                None => {
                    return None;
                },
            };
            let flen = d.fracs.len();
            let over = if x >= 0 {
                x == 0 && flen == usize::MAX
            } else {
                flen >= usize::MAX - ((-x) as usize)
            };
            if over {
                return None;
            }
            Some(apply_exp(d, x))
        },
    }
}

/// Moves a decimal's point by `x` places to the right.
#[verifier::rlimit(100)]
#[verifier::spinoff_prover]
fn apply_exp(d: Dec, x: i64) -> (r: Dec)
    requires
        d.wf(),
        -100000 <= x <= 100000,
        d.fracs@.len() - x < usize::MAX,
    ensures
        r.wf(),
        r@ == spec_apply_exp(d@, x as int),
{
    let ghost m = d@;
    let scale = d.fracs.len();
    // All digits in one string, integer part first.
    let mut whole = copy_bytes(&d.ints);
    let fcopy = copy_bytes(&d.fracs);
    whole.extend_from_slice(fcopy.as_slice());
    proof {
        byte_copy_exact(whole@);
        assert(whole@ =~= d.ints@ + d.fracs@);
        lemma_dval_concat(d.ints@, d.fracs@);
    }
    if x >= 0 && x as usize >= scale {
        // The point moves past every fractional digit: append zeros.
        let zeros = (x as usize) - scale;
        proof {
            assert(whole@.subrange(0, whole@.len() as int) =~= whole@);
        }
        let mut ints2 = digits_stripped(&whole, 0, whole.len());
        let mut j: usize = 0;
        proof {
            assert(pow10(0) == 1);
            assert(m.mant * pow10(0) == m.mant) by (nonlinear_arith)
                requires pow10(0) == 1,
            ;
        }
        while j < zeros
            invariant
                j <= zeros,
                all_digits(ints2@),
                no_leading_zero(ints2@),
                dval(ints2@) == m.mant * pow10(j as nat),
            decreases zeros - j,
        {
            let ghost pre = ints2@;
            if ints2.len() == 1 && ints2[0] == D0 {
                // Zero stays zero however far the point moves.
                proof {
                    lemma_dval_empty();
                    assert(pre.drop_last() =~= Seq::<u8>::empty());
                    assert(dval(pre) == 0);
                    assert(m.mant * pow10(j as nat) == 0);
                    assert(m.mant * pow10((j + 1) as nat) == 0) by (nonlinear_arith)
                        requires m.mant * pow10(j as nat) == 0,
                            pow10((j + 1) as nat) == 10 * pow10(j as nat),
                    ;
                }
            } else {
                ints2.push(D0);
                proof {
                    assert(ints2@.drop_last() =~= pre);
                    assert(dval(ints2@) == dval(pre) * 10);
                    assert(m.mant * pow10(j as nat) * 10 == m.mant * pow10((j + 1) as nat))
                        by (nonlinear_arith)
                        requires pow10((j + 1) as nat) == 10 * pow10(j as nat),
                    ;
                }
            }
            j += 1;
        }
        let r = Dec { neg: d.neg, ints: ints2, fracs: Vec::new() };
        proof {
            assert(r.ints@ + r.fracs@ =~= r.ints@);
        }
        r
    } else {
        // The point lands inside or left of the digits: left-pad and
        // split.
        let s2 = if x >= 0 {
            scale - (x as usize)
        } else {
            scale + ((-x) as usize)
        };
        proof {
            assert(s2 == m.scale - x);
        }
        let mut padded: Vec<u8> = Vec::new();
        let mut j: usize = 0;
        let need = if whole.len() > s2 {
            0
        } else {
            s2 + 1 - whole.len()
        };
        while j < need
            invariant
                j <= need,
                padded@.len() == j,
                all_zeros(padded@),
            decreases need - j,
        {
            padded.push(D0);
            j += 1;
        }
        let ghost zeros = padded@;
        padded.extend_from_slice(whole.as_slice());
        proof {
            byte_copy_exact(padded@);
            assert(padded@ =~= zeros + whole@);
            lemma_all_zeros_val(zeros);
            lemma_dval_concat(zeros, whole@);
            assert(dval(padded@) == m.mant);
            assert(all_digits(padded@)) by {
                assert forall|k: int| 0 <= k < padded@.len()
                    implies D0 <= #[trigger] padded@[k] <= D9 by {
                    if k < zeros.len() {
                        assert(padded@[k] == D0);
                    } else {
                        assert(padded@[k] == whole@[k - zeros.len()]);
                    }
                }
            }
        }
        let cut = padded.len() - s2;
        proof {
            assert(padded@.subrange(0, cut as int).len() >= 1);
        }
        let ints2 = digits_stripped(&padded, 0, cut);
        let fracs2 = copy_range(&padded, cut, padded.len());
        let r = Dec { neg: d.neg, ints: ints2, fracs: fracs2 };
        proof {
            let a = padded@.subrange(0, cut as int);
            let b = padded@.subrange(cut as int, padded@.len() as int);
            assert(padded@ =~= a + b);
            lemma_dval_concat(a, b);
            lemma_dval_concat(r.ints@, r.fracs@);
            assert(r.fracs@ == b);
            assert(dval(r.ints@) == dval(a));
        }
        r
    }
}

proof fn lemma_pow10_10()
    ensures
        pow10(10) == 10_000_000_000,
        pow10(6) == 1000000,
{
    assert(pow10(0) == 1);
    assert(pow10(1) == 10);
    assert(pow10(2) == 100);
    assert(pow10(3) == 1000);
    assert(pow10(4) == 10000);
    assert(pow10(5) == 100000);
    assert(pow10(6) == 1000000);
    assert(pow10(7) == 10000000);
    assert(pow10(8) == 100000000);
    assert(pow10(9) == 1000000000);
    assert(pow10(10) == 10_000_000_000);
}

/// The signed integer a decimal denotes, when its canonical form has no
/// fractional digits.
pub open spec fn spec_dec_int(v: DecModel) -> Option<int> {
    let c = canon_model(v.neg, v.mant, v.scale);
    if c.scale != 0 {
        None
    } else if c.neg {
        Some(-(c.mant as int))
    } else {
        Some(c.mant as int)
    }
}

/// Saturation into the 32-bit signed range.
pub open spec fn spec_clamp_i32(x: int) -> int {
    if x < -0x8000_0000 {
        -0x8000_0000
    } else if x > 0x7fff_ffff {
        0x7fff_ffff
    } else {
        x
    }
}

/// Reads a decimal as a 32-bit integer, saturating on overflow; a
/// decimal with fractional digits in canonical form is no integer.
pub fn dec_to_i32(d: &Dec) -> (r: Option<i32>)
    requires
        d.wf(),
    ensures
        match r {
            Some(k) => spec_dec_int(d@) matches Some(x) && k == spec_clamp_i32(x),
            None => spec_dec_int(d@) is None,
        },
{
    let copy = Dec { neg: d.neg, ints: copy_bytes(&d.ints), fracs: copy_bytes(&d.fracs) };
    proof {
        assert(copy@ == d@);
    }
    let c = canonize(copy);
    if c.fracs.len() > 0 {
        return None;
    }
    proof {
        assert(c.ints@ + c.fracs@ =~= c.ints@);
    }
    if c.ints.len() > 10 {
        proof {
            lemma_dval_lower_bound(c.ints@);
            lemma_pow10_10();
            lemma_pow10_mono(10, (c.ints@.len() - 1) as nat);
        }
        if c.neg {
            return Some(i32::MIN);
        } else {
            return Some(i32::MAX);
        }
    }
    let mut acc: u64 = 0;
    let mut j: usize = 0;
    proof {
        lemma_pow10_10();
    }
    while j < c.ints.len()
        invariant
            j <= c.ints@.len() <= 10,
            all_digits(c.ints@),
            acc == dval(c.ints@.subrange(0, j as int)),
            acc < pow10(j as nat),
            pow10(10) == 10_000_000_000,
        decreases c.ints@.len() - j,
    {
        proof {
            lemma_pow10_mono(j as nat, 10);
            assert(pow10((j + 1) as nat) == 10 * pow10(j as nat));
            lemma_pow10_mono((j + 1) as nat, 10);
            assert(c.ints@.subrange(0, (j + 1) as int).drop_last() =~= c.ints@.subrange(
                0,
                j as int,
            ));
        }
        acc = acc * 10 + ((c.ints[j] - D0) as u64);
        j += 1;
    }
    proof {
        assert(c.ints@.subrange(0, c.ints@.len() as int) =~= c.ints@);
        assert(acc == c@.mant);
    }
    if c.neg {
        if acc > 0x8000_0000 {
            Some(i32::MIN)
        } else {
            Some(-(acc as i64) as i32)
        }
    } else {
        if acc > 0x7fff_ffff {
            Some(i32::MAX)
        } else {
            Some(acc as i32)
        }
    }
}

/// Writes a machine integer in decimal.
pub fn format_u64(n: u64) -> (r: Vec<u8>)
    ensures
        r@ == spec_udec(n as nat),
    decreases n,
{
    if n < 10 {
        let mut v: Vec<u8> = Vec::new();
        v.push(D0 + (n as u8));
        proof {
            assert(v@ =~= seq![(D0 + n as nat) as u8]);
        }
        v
    } else {
        let mut v = format_u64(n / 10);
        v.push(D0 + ((n % 10) as u8));
        proof {
            assert(v@ =~= spec_udec((n / 10) as nat).push((D0 + (n as nat) % 10) as u8));
        }
        v
    }
}

/// Writes a wide machine integer in decimal.
pub fn format_u128(n: u128) -> (r: Vec<u8>)
    ensures
        r@ == spec_udec(n as nat),
    decreases n,
{
    if n < 10 {
        let mut v: Vec<u8> = Vec::new();
        v.push(D0 + (n as u8));
        proof {
            assert(v@ =~= seq![(D0 + n as nat) as u8]);
        }
        v
    } else {
        let mut v = format_u128(n / 10);
        v.push(D0 + ((n % 10) as u8));
        proof {
            assert(v@ =~= spec_udec((n / 10) as nat).push((D0 + (n as nat) % 10) as u8));
        }
        v
    }
}

} // verus!
