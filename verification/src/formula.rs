//! The expression evaluator.
//!
//! A formula is the small arithmetic language of the data context:
//! decimal numbers, identifiers naming context values by dotted key
//! path, the four arithmetic operators with the usual precedence,
//! parentheses, and the one built-in rounding function. Values are
//! exact decimals with a bounded mantissa; an operation whose exact
//! result cannot be carried errs instead of losing digits, and
//! division rounds to a fixed count of fractional places. A value
//! keeps a whole-number or fractional character: sums, differences and
//! products of whole numbers stay whole, division always yields a
//! fractional value, and a fractional value that lands on a whole
//! number is still written with a trailing zero place.
use vstd::prelude::*;

use crate::numeric::{
    all_digits, canon_model, dval, format_u128, lemma_all_zeros_val, lemma_canon_model_zero,
    lemma_dval_concat, lemma_dval_lower_bound, lemma_pow10_mono, lemma_pow10_pos, lemma_udec_val,
    parse_dec, pow10, round_away, spec_clamp_i32, spec_model_bytes, spec_parse_dec,
    spec_round_model, Dec, DecModel, D0, D9,
};
use crate::textutil::{ascii_bytes, copy_range, is_ws, lit_bytes, spec_find_from};
use crate::value::{lookup, path_view, spec_lookup, spec_split_dots, split_dots, Val, Value};

verus! {

/// An engine value: `(-1)^neg * mant / 10^scale`, with `float` marking
/// a fractional character.
pub struct ENum {
    pub neg: bool,
    pub mant: u128,
    pub scale: u32,
    pub float: bool,
}

/// The mantissa bound of the engine: ten to the thirty-sixth.
pub const MANT_CAP: u128 = 1_000_000_000_000_000_000_000_000_000_000_000_000;

/// The staging bound for aligned mantissas: ten to the thirty-seventh.
pub const ALIGN_CAP: u128 = 10_000_000_000_000_000_000_000_000_000_000_000_000;

/// How many fractional places a quotient carries.
pub const DIV_PLACES: u32 = 15;

/// A value the engine can carry.
pub open spec fn enum_wf(v: ENum) -> bool {
    &&& v.mant < MANT_CAP
    &&& v.scale <= 36
    &&& (v.neg ==> v.mant != 0)
}

/// Concrete powers of ten the engine's bounds rest on.
pub proof fn lemma_pow10_vals()
    ensures
        pow10(15) == 1_000_000_000_000_000,
        pow10(36) == MANT_CAP as nat,
        pow10(37) == ALIGN_CAP as nat,
        pow10(38) == 10 * (ALIGN_CAP as nat),
{
    assert(pow10(0) == 1);
    assert(pow10(1) == 10);
    assert(pow10(2) == 100);
    assert(pow10(3) == 1000);
    assert(pow10(4) == 10000);
    assert(pow10(5) == 100000);
    assert(pow10(6) == 1000000);
    assert(pow10(7) == 10000000);
    assert(pow10(8) == 100000000);
    assert(pow10(9) == 1000000000);
    assert(pow10(10) == 10_000_000_000);
    assert(pow10(11) == 100_000_000_000);
    assert(pow10(12) == 1_000_000_000_000);
    assert(pow10(13) == 10_000_000_000_000);
    assert(pow10(14) == 100_000_000_000_000);
    assert(pow10(15) == 1_000_000_000_000_000);
    assert(pow10(16) == 10_000_000_000_000_000);
    assert(pow10(17) == 100_000_000_000_000_000);
    assert(pow10(18) == 1_000_000_000_000_000_000);
    assert(pow10(19) == 10_000_000_000_000_000_000);
    assert(pow10(20) == 100_000_000_000_000_000_000);
    assert(pow10(21) == 1_000_000_000_000_000_000_000);
    assert(pow10(22) == 10_000_000_000_000_000_000_000);
    assert(pow10(23) == 100_000_000_000_000_000_000_000);
    assert(pow10(24) == 1_000_000_000_000_000_000_000_000);
    assert(pow10(25) == 10_000_000_000_000_000_000_000_000);
    assert(pow10(26) == 100_000_000_000_000_000_000_000_000);
    assert(pow10(27) == 1_000_000_000_000_000_000_000_000_000);
    assert(pow10(28) == 10_000_000_000_000_000_000_000_000_000);
    assert(pow10(29) == 100_000_000_000_000_000_000_000_000_000);
    assert(pow10(30) == 1_000_000_000_000_000_000_000_000_000_000);
    assert(pow10(31) == 10_000_000_000_000_000_000_000_000_000_000);
    assert(pow10(32) == 100_000_000_000_000_000_000_000_000_000_000);
    assert(pow10(33) == 1_000_000_000_000_000_000_000_000_000_000_000);
    assert(pow10(34) == 10_000_000_000_000_000_000_000_000_000_000_000);
    assert(pow10(35) == 100_000_000_000_000_000_000_000_000_000_000_000);
    assert(pow10(36) == MANT_CAP as nat);
    assert(pow10(37) == ALIGN_CAP as nat);
    assert(pow10(38) == 10 * (ALIGN_CAP as nat));
}

/// Ten to the `n`, as a wide machine integer.
pub fn pow10_u128(n: u32) -> (r: u128)
    requires
        n <= 37,
    ensures
        r as nat == pow10(n as nat),
{
    proof {
        lemma_pow10_vals();
    }
    let mut acc: u128 = 1;
    let mut i: u32 = 0;
    while i < n
        invariant
            i <= n <= 37,
            acc as nat == pow10(i as nat),
            pow10(37) == ALIGN_CAP as nat,
        decreases n - i,
    {
        proof {
            lemma_pow10_mono((i + 1) as nat, 37);
            assert(pow10((i + 1) as nat) == 10 * pow10(i as nat));
        }
        acc = acc * 10;
        i += 1;
    }
    acc
}

/// The error text for a value the engine cannot carry.
pub open spec fn msg_overflow() -> Seq<u8> {
    ascii_bytes("Numeric range of the expression engine exceeded"@)
}

/// The error text for a division by zero.
pub open spec fn msg_div_zero() -> Seq<u8> {
    ascii_bytes("Division by zero"@)
}

/// Builds the overflow error text.
fn msg_overflow_bytes() -> (r: Vec<u8>)
    ensures
        r@ == msg_overflow(),
{
    proof {
        reveal_strlit("Numeric range of the expression engine exceeded");
    }
    lit_bytes("Numeric range of the expression engine exceeded")
}

/// A value formed from a sign, mantissa and scale: trailing zero
/// places are dropped, zero is never negative, and a mantissa or scale
/// beyond the engine's bound is an error.
pub open spec fn spec_enum_ok(neg: bool, m: nat, s: nat, f: bool) -> Result<ENum, Seq<u8>> {
    let c = canon_model(neg, m, s);
    if c.mant < MANT_CAP as nat && c.scale <= 36 {
        Ok(ENum { neg: c.neg, mant: c.mant as u128, scale: c.scale as u32, float: f })
    } else {
        Err(msg_overflow())
    }
}

/// Normalizes a staged value into an engine value.
fn enum_ok(neg: bool, m: u128, s: u32, f: bool) -> (r: Result<ENum, Vec<u8>>)
    ensures
        match r {
            Ok(v) => spec_enum_ok(neg, m as nat, s as nat, f) == Ok::<ENum, Seq<u8>>(v)
                && enum_wf(v),
            Err(e) => spec_enum_ok(neg, m as nat, s as nat, f) matches Err(me) && e@ == me,
        },
{
    let mut m = m;
    let mut s = s;
    let ghost m0 = m as nat;
    let ghost s0 = s as nat;
    while s > 0 && m % 10 == 0
        invariant
            canon_model(neg, m0, s0) == canon_model(neg, m as nat, s as nat),
        decreases s,
    {
        m = m / 10;
        s = s - 1;
    }
    proof {
        assert(canon_model(neg, m as nat, s as nat) == (DecModel {
            neg: neg && m as nat != 0,
            mant: m as nat,
            scale: s as nat,
        }));
    }
    if m < MANT_CAP && s <= 36 {
        Ok(ENum { neg: neg && m != 0, mant: m, scale: s, float: f })
    } else {
        Err(msg_overflow_bytes())
    }
}

/// Multiplying within a bound, decided without overflow: for a
/// positive divisor, `x * d <= c` exactly when `x <= c / d`.
proof fn lemma_le_div(x: nat, d: nat, c: nat)
    requires
        d >= 1,
    ensures
        (x * d <= c) <==> (x <= c / d),
{
    vstd::arithmetic::div_mod::lemma_fundamental_div_mod(c as int, d as int);
    if x * d <= c {
        assert(x <= c / d) by (nonlinear_arith)
            requires
                x * d <= c,
                d >= 1,
                c == d * (c / d) + c % d,
                0 <= c % d < d,
        ;
    }
    if x <= c / d {
        assert(x * d <= c) by (nonlinear_arith)
            requires
                x <= c / d,
                d >= 1,
                c == d * (c / d) + c % d,
                0 <= c % d,
        ;
    }
}

/// The sum or difference of two engine values: exact, on a common
/// scale, within the engine's bounds.
pub open spec fn spec_add_e(a: ENum, b: ENum, sub: bool) -> Result<ENum, Seq<u8>> {
    let s = if a.scale >= b.scale {
        a.scale
    } else {
        b.scale
    };
    let ma = (a.mant as nat) * pow10((s - a.scale) as nat);
    let mb = (b.mant as nat) * pow10((s - b.scale) as nat);
    if ma > ALIGN_CAP as nat || mb > ALIGN_CAP as nat {
        Err(msg_overflow())
    } else {
        let ia: int = if a.neg {
            -(ma as int)
        } else {
            ma as int
        };
        let ib0: int = if b.neg {
            -(mb as int)
        } else {
            mb as int
        };
        let ib: int = if sub {
            -ib0
        } else {
            ib0
        };
        let sum = ia + ib;
        spec_enum_ok(sum < 0, (if sum < 0 { -sum } else { sum }) as nat, s as nat,
            a.float || b.float)
    }
}

/// Brings a mantissa onto a larger scale, within the staging bound.
fn align_mant(m: u128, diff: u32) -> (r: Result<u128, Vec<u8>>)
    requires
        diff <= 37,
    ensures
        match r {
            Ok(x) => x as nat == (m as nat) * pow10(diff as nat) && x <= ALIGN_CAP,
            Err(e) => (m as nat) * pow10(diff as nat) > ALIGN_CAP as nat && e@ == msg_overflow(),
        },
{
    let p = pow10_u128(diff);
    proof {
        lemma_pow10_pos(diff as nat);
        lemma_le_div(m as nat, p as nat, ALIGN_CAP as nat);
    }
    if m > ALIGN_CAP / p {
        return Err(msg_overflow_bytes());
    }
    proof {
        lemma_pow10_vals();
        assert((m as nat) * (p as nat) <= ALIGN_CAP as nat);
    }
    Ok(m * p)
}

/// Adds or subtracts two engine values.
pub fn add_e(a: &ENum, b: &ENum, sub: bool) -> (r: Result<ENum, Vec<u8>>)
    requires
        enum_wf(*a),
        enum_wf(*b),
    ensures
        match r {
            Ok(v) => spec_add_e(*a, *b, sub) == Ok::<ENum, Seq<u8>>(v) && enum_wf(v),
            Err(e) => spec_add_e(*a, *b, sub) matches Err(me) && e@ == me,
        },
{
    let s = if a.scale >= b.scale {
        a.scale
    } else {
        b.scale
    };
    let ma = match align_mant(a.mant, s - a.scale) {
        Ok(x) => x,
        Err(e) => {
            return Err(e);
        },
    };
    let mb = match align_mant(b.mant, s - b.scale) {
        Ok(x) => x,
        Err(e) => {
            return Err(e);
        },
    };
    let bneg = if sub {
        !b.neg
    } else {
        b.neg
    };
    let f = a.float || b.float;
    proof {
        lemma_pow10_pos((s - a.scale) as nat);
        lemma_pow10_pos((s - b.scale) as nat);
        if a.neg {
            assert((a.mant as nat) * pow10((s - a.scale) as nat) >= 1) by (nonlinear_arith)
                requires a.mant >= 1, pow10((s - a.scale) as nat) >= 1,
            ;
        }
        if b.neg {
            assert((b.mant as nat) * pow10((s - b.scale) as nat) >= 1) by (nonlinear_arith)
                requires b.mant >= 1, pow10((s - b.scale) as nat) >= 1,
            ;
        }
    }
    if a.neg == bneg {
        enum_ok(a.neg, ma + mb, s, f)
    } else if ma > mb {
        enum_ok(a.neg, ma - mb, s, f)
    } else if mb > ma {
        enum_ok(bneg, mb - ma, s, f)
    } else {
        enum_ok(false, 0, s, f)
    }
}

/// The product of two engine values: exact, within the bounds.
pub open spec fn spec_mul_e(a: ENum, b: ENum) -> Result<ENum, Seq<u8>> {
    let p = (a.mant as nat) * (b.mant as nat);
    if p > u128::MAX as nat {
        Err(msg_overflow())
    } else {
        spec_enum_ok(a.neg != b.neg, p, a.scale as nat + b.scale as nat, a.float || b.float)
    }
}

/// Multiplies two engine values.
pub fn mul_e(a: &ENum, b: &ENum) -> (r: Result<ENum, Vec<u8>>)
    requires
        enum_wf(*a),
        enum_wf(*b),
    ensures
        match r {
            Ok(v) => spec_mul_e(*a, *b) == Ok::<ENum, Seq<u8>>(v) && enum_wf(v),
            Err(e) => spec_mul_e(*a, *b) matches Err(me) && e@ == me,
        },
{
    if b.mant != 0 {
        proof {
            lemma_le_div(a.mant as nat, b.mant as nat, u128::MAX as nat);
        }
        if a.mant > u128::MAX / b.mant {
            return Err(msg_overflow_bytes());
        }
    }
    let p = a.mant * b.mant;
    enum_ok(a.neg != b.neg, p, a.scale + b.scale, a.float || b.float)
}

/// The quotient of two engine values: the exact ratio, rounded half
/// away from zero to a fixed count of fractional places, always of
/// fractional character; the zero divisor and the staging bounds err.
pub open spec fn spec_div_e(a: ENum, b: ENum) -> Result<ENum, Seq<u8>> {
    if b.mant == 0 {
        Err(msg_div_zero())
    } else if a.mant == 0 {
        spec_enum_ok(false, 0, DIV_PLACES as nat, true)
    } else {
        let e: int = b.scale + DIV_PLACES - a.scale;
        if e > 37 {
            Err(msg_overflow())
        } else {
            let n: nat = if e >= 0 {
                (a.mant as nat) * pow10(e as nat)
            } else {
                a.mant as nat
            };
            let d: nat = if e >= 0 {
                b.mant as nat
            } else {
                (b.mant as nat) * pow10((-e) as nat)
            };
            if n > ALIGN_CAP as nat || d > ALIGN_CAP as nat {
                Err(msg_overflow())
            } else {
                let q = (2 * n + d) / (2 * d);
                spec_enum_ok(a.neg != b.neg, q, DIV_PLACES as nat, true)
            }
        }
    }
}

/// Divides two engine values.
pub fn div_e(a: &ENum, b: &ENum) -> (r: Result<ENum, Vec<u8>>)
    requires
        enum_wf(*a),
        enum_wf(*b),
    ensures
        match r {
            Ok(v) => spec_div_e(*a, *b) == Ok::<ENum, Seq<u8>>(v) && enum_wf(v),
            Err(e) => spec_div_e(*a, *b) matches Err(me) && e@ == me,
        },
{
    if b.mant == 0 {
        proof {
            reveal_strlit("Division by zero");
        }
        return Err(lit_bytes("Division by zero"));
    }
    if a.mant == 0 {
        return enum_ok(false, 0, DIV_PLACES, true);
    }
    let e: i64 = b.scale as i64 + DIV_PLACES as i64 - a.scale as i64;
    if e > 37 {
        return Err(msg_overflow_bytes());
    }
    let (n, d) = if e >= 0 {
        let n = match align_mant(a.mant, e as u32) {
            Ok(x) => x,
            Err(er) => {
                return Err(er);
            },
        };
        (n, b.mant)
    } else {
        let d = match align_mant(b.mant, (-e) as u32) {
            Ok(x) => x,
            Err(er) => {
                return Err(er);
            },
        };
        (a.mant, d)
    };
    if n > ALIGN_CAP || d > ALIGN_CAP {
        return Err(msg_overflow_bytes());
    }
    proof {
        lemma_pow10_vals();
        if e < 0 {
            lemma_pow10_pos((-(e as int)) as nat);
            assert((b.mant as nat) * pow10((-(e as int)) as nat) >= 1) by (nonlinear_arith)
                requires b.mant >= 1, pow10((-(e as int)) as nat) >= 1,
            ;
        }
        assert(d >= 1);
    }
    let q = (2 * n + d) / (2 * d);
    enum_ok(a.neg != b.neg, q, DIV_PLACES, true)
}

/// Whether a number's text marks a fractional value: a decimal point
/// or an exponent letter does.
pub open spec fn spec_is_float_text(t: Seq<u8>) -> bool {
    ||| spec_find_from(t, seq![46u8], 0) is Some
    ||| crate::numeric::spec_find_exp(t, 0) is Some
}

/// Whether a number's text marks a fractional value.
fn is_float_text(t: &Vec<u8>) -> (r: bool)
    ensures
        r == spec_is_float_text(t@),
{
    let mut dot: Vec<u8> = Vec::new();
    dot.push(46);
    proof {
        assert(dot@ =~= seq![46u8]);
    }
    crate::textutil::find_sub_from(t, &dot, 0).is_some() || crate::numeric::find_exp(
        t,
        0,
    ).is_some()
}

/// An engine value made of a parsed decimal, within the bounds.
pub open spec fn spec_enum_of_dec(m: DecModel, f: bool) -> Result<ENum, Seq<u8>> {
    if m.mant < MANT_CAP as nat && m.scale <= 36 {
        Ok(
            ENum {
                neg: m.neg && m.mant != 0,
                mant: m.mant as u128,
                scale: m.scale as u32,
                float: f,
            },
        )
    } else {
        Err(msg_overflow())
    }
}

/// Reads a parsed decimal into an engine value.
fn enum_of_dec(d: &Dec, f: bool) -> (r: Result<ENum, Vec<u8>>)
    requires
        d.wf(),
    ensures
        match r {
            Ok(v) => spec_enum_of_dec(d@, f) == Ok::<ENum, Seq<u8>>(v) && enum_wf(v),
            Err(e) => spec_enum_of_dec(d@, f) matches Err(me) && e@ == me,
        },
{
    proof {
        lemma_pow10_vals();
    }
    if d.fracs.len() > 36 {
        return Err(msg_overflow_bytes());
    }
    let mut whole = crate::numeric::copy_bytes(&d.ints);
    let fcopy = crate::numeric::copy_bytes(&d.fracs);
    whole.extend_from_slice(fcopy.as_slice());
    proof {
        crate::numeric::byte_copy_exact(whole@);
        assert(whole@ =~= d.ints@ + d.fracs@);
        lemma_dval_concat(d.ints@, d.fracs@);
        assert(whole@.subrange(0, whole@.len() as int) =~= whole@);
    }
    let ds = crate::numeric::digits_stripped(&whole, 0, whole.len());
    if ds.len() > 36 {
        proof {
            lemma_dval_lower_bound(ds@);
            lemma_pow10_mono(36, (ds@.len() - 1) as nat);
        }
        return Err(msg_overflow_bytes());
    }
    let mut acc: u128 = 0;
    let mut j: usize = 0;
    while j < ds.len()
        invariant
            j <= ds@.len() <= 36,
            all_digits(ds@),
            acc as nat == dval(ds@.subrange(0, j as int)),
            (acc as nat) < pow10(j as nat),
            pow10(36) == MANT_CAP as nat,
        decreases ds@.len() - j,
    {
        proof {
            lemma_pow10_mono(j as nat, 36);
            assert(pow10((j + 1) as nat) == 10 * pow10(j as nat));
            lemma_pow10_mono((j + 1) as nat, 36);
            assert(ds@.subrange(0, (j + 1) as int).drop_last() =~= ds@.subrange(0, j as int));
        }
        acc = acc * 10 + ((ds[j] - D0) as u128);
        j += 1;
    }
    proof {
        assert(ds@.subrange(0, ds@.len() as int) =~= ds@);
        lemma_pow10_mono(ds@.len() as nat, 36);
    }
    Ok(
        ENum {
            neg: d.neg && acc != 0,
            mant: acc,
            scale: d.fracs.len() as u32,
            float: f,
        },
    )
}

/// The error text for an identifier that leads nowhere.
pub open spec fn msg_null_ident(w: Seq<u8>) -> Seq<u8> {
    ascii_bytes("Null value for '"@) + w + ascii_bytes("'"@)
}

/// The error text for an identifier whose number cannot be read.
pub open spec fn msg_bad_value(w: Seq<u8>) -> Seq<u8> {
    ascii_bytes("Unreadable number for '"@) + w + ascii_bytes("'"@)
}

/// The error text for an identifier naming a non-numeric value.
pub open spec fn msg_not_numeric(w: Seq<u8>) -> Seq<u8> {
    ascii_bytes("Value of '"@) + w + ascii_bytes("' is not a number"@)
}

/// What an identifier stands for: the number its dotted key path leads
/// to. A path that leads nowhere or to a null names a null value —
/// usually a misspelled key — and anything non-numeric is an error.
pub open spec fn spec_ident_value(data: Val, w: Seq<u8>) -> Result<ENum, Seq<u8>> {
    match spec_lookup(data, spec_split_dots(w)) {
        None => Err(msg_null_ident(w)),
        Some(v) => if v is Number {
            match spec_parse_dec(v->Number_0) {
                None => Err(msg_bad_value(w)),
                Some(m) => spec_enum_of_dec(m, spec_is_float_text(v->Number_0)),
            }
        } else if v is Null {
            Err(msg_null_ident(w))
        } else {
            Err(msg_not_numeric(w))
        },
    }
}

/// Appends `mid` to `out`.
fn push_f(out: &mut Vec<u8>, mid: &Vec<u8>)
    ensures
        final(out)@ == old(out)@ + mid@,
{
    out.extend_from_slice(mid.as_slice());
    proof {
        crate::numeric::byte_copy_exact(out@);
        assert(out@ =~= old(out)@ + mid@);
    }
}

/// Builds the null-identifier error text.
fn msg_null_ident_bytes(w: &Vec<u8>) -> (r: Vec<u8>)
    ensures
        r@ == msg_null_ident(w@),
{
    proof {
        reveal_strlit("Null value for '");
        reveal_strlit("'");
    }
    let mut m = lit_bytes("Null value for '");
    push_f(&mut m, w);
    let tail = lit_bytes("'");
    push_f(&mut m, &tail);
    m
}

/// Resolves an identifier against the context.
fn ident_value(data: &Value, w: &Vec<u8>) -> (r: Result<ENum, Vec<u8>>)
    ensures
        match r {
            Ok(v) => spec_ident_value(data@, w@) == Ok::<ENum, Seq<u8>>(v) && enum_wf(v),
            Err(e) => spec_ident_value(data@, w@) matches Err(me) && e@ == me,
        },
{
    let path = split_dots(w);
    proof {
        assert(path_view(path@).skip(0) =~= path_view(path@));
    }
    let found = match lookup(data, &path, 0) {
        Some(v) => v,
        None => {
            return Err(msg_null_ident_bytes(w));
        },
    };
    match found {
        Value::Number(t) => {
            match parse_dec(t) {
                Some(d) => enum_of_dec(&d, is_float_text(t)),
                None => {
                    proof {
                        reveal_strlit("Unreadable number for '");
                        reveal_strlit("'");
                    }
                    let mut m = lit_bytes("Unreadable number for '");
                    push_f(&mut m, w);
                    let tail = lit_bytes("'");
                    push_f(&mut m, &tail);
                    Err(m)
                },
            }
        },
        Value::Null => Err(msg_null_ident_bytes(w)),
        _ => {
            proof {
                reveal_strlit("Value of '");
                reveal_strlit("' is not a number");
            }
            let mut m = lit_bytes("Value of '");
            push_f(&mut m, w);
            let tail = lit_bytes("' is not a number");
            push_f(&mut m, &tail);
            Err(m)
        },
    }
}

/// The text an engine value is written as: its canonical decimal, with
/// one trailing zero place kept when a fractional value lands on a
/// whole number.
pub open spec fn spec_enum_bytes(v: ENum) -> Seq<u8> {
    let c = canon_model(v.neg, v.mant as nat, v.scale as nat);
    spec_model_bytes(c) + if v.float && c.scale == 0 {
        ascii_bytes(".0"@)
    } else {
        Seq::<u8>::empty()
    }
}

/// Writes an engine value as text.
pub fn enum_to_bytes(v: &ENum) -> (r: Vec<u8>)
    requires
        enum_wf(*v),
    ensures
        r@ == spec_enum_bytes(*v),
{
    let ghost c = canon_model(v.neg, v.mant as nat, v.scale as nat);
    let mut m = v.mant;
    let mut s = v.scale;
    while s > 0 && m % 10 == 0
        invariant
            s <= v.scale,
            c == canon_model(v.neg, m as nat, s as nat),
        decreases s,
    {
        m = m / 10;
        s = s - 1;
    }
    proof {
        assert(c == (DecModel { neg: v.neg && m as nat != 0, mant: m as nat, scale: s as nat }));
    }
    let neg = v.neg && m != 0;
    let digits = format_u128(m);
    proof {
        lemma_udec_val(m as nat);
    }
    if s == 0 {
        let mut out: Vec<u8> = Vec::new();
        if neg {
            out.push(45);
        }
        push_f(&mut out, &digits);
        proof {
            assert(pow10(0) == 1);
            assert((m as nat) / pow10(0) == m as nat) by {
                assert(pow10(0) == 1);
                assert((m as nat) / 1 == m as nat);
            }
            assert(out@ =~= spec_model_bytes(c));
        }
        if v.float {
            proof {
                reveal_strlit(".0");
            }
            let dotzero = lit_bytes(".0");
            push_f(&mut out, &dotzero);
            proof {
                assert(out@ =~= spec_model_bytes(c) + ascii_bytes(".0"@));
            }
        }
        out
    } else {
        // Split the digits at the decimal point, left-padding with
        // zeros when the value is below one.
        let su = s as usize;
        let mut padded: Vec<u8> = Vec::new();
        let need = if digits.len() > su {
            0
        } else {
            su + 1 - digits.len()
        };
        let mut j: usize = 0;
        while j < need
            invariant
                j <= need,
                padded@.len() == j,
                crate::numeric::all_zeros(padded@),
            decreases need - j,
        {
            padded.push(D0);
            j += 1;
        }
        let ghost zeros = padded@;
        push_f(&mut padded, &digits);
        proof {
            assert(padded@ =~= zeros + digits@);
            lemma_all_zeros_val(zeros);
            lemma_dval_concat(zeros, digits@);
            assert(dval(padded@) == m as nat);
            assert(all_digits(padded@)) by {
                assert forall|k: int| 0 <= k < padded@.len()
                    implies D0 <= #[trigger] padded@[k] <= D9 by {
                    if k < zeros.len() {
                        assert(padded@[k] == D0);
                    } else {
                        assert(padded@[k] == digits@[k - zeros.len()]);
                    }
                }
            }
        }
        let cut = padded.len() - su;
        let ints = crate::numeric::digits_stripped(&padded, 0, cut);
        let fracs = copy_range(&padded, cut, padded.len());
        let d = Dec { neg, ints, fracs };
        proof {
            let a = padded@.subrange(0, cut as int);
            let b = padded@.subrange(cut as int, padded@.len() as int);
            assert(padded@ =~= a + b);
            lemma_dval_concat(a, b);
            lemma_dval_concat(d.ints@, d.fracs@);
            assert(d.fracs@ == b);
            assert(d@ == c);
        }
        crate::numeric::dec_to_bytes(&d)
    }
}

/// The error text for a fractional rounding count, naming the value.
pub open spec fn msg_round_int(t: Seq<u8>) -> Seq<u8> {
    ascii_bytes("Second rounding argument must be an integer. Given value: "@) + t
}

/// The built-in rounding of the engine: the exact rounding rule of the
/// helpers, applied to an engine value; the written form decides the
/// whole-or-fractional character of the result.
pub open spec fn spec_round_e(x: ENum, k: int) -> Result<ENum, Seq<u8>> {
    let rm = spec_round_model(
        DecModel { neg: x.neg, mant: x.mant as nat, scale: x.scale as nat },
        k,
    );
    if rm.mant < MANT_CAP as nat && rm.scale <= 36 {
        Ok(
            ENum {
                neg: rm.neg,
                mant: rm.mant as u128,
                scale: rm.scale as u32,
                float: rm.scale > 0,
            },
        )
    } else {
        Err(msg_overflow())
    }
}

/// Rounds an engine value to `k` decimal places.
#[verifier::rlimit(100)]
pub fn round_e(x: &ENum, k: i32) -> (r: Result<ENum, Vec<u8>>)
    requires
        enum_wf(*x),
    ensures
        match r {
            Ok(v) => spec_round_e(*x, k as int) == Ok::<ENum, Seq<u8>>(v) && enum_wf(v),
            Err(e) => spec_round_e(*x, k as int) matches Err(me) && e@ == me,
        },
{
    proof {
        lemma_pow10_vals();
    }
    let ghost xm = DecModel { neg: x.neg, mant: x.mant as nat, scale: x.scale as nat };
    if k >= 0 && (k as u32) >= x.scale {
        let v = match enum_ok(x.neg, x.mant, x.scale, false) {
            Ok(v) => v,
            Err(e) => {
                return Err(e);
            },
        };
        return Ok(ENum { neg: v.neg, mant: v.mant, scale: v.scale, float: v.scale > 0 });
    }
    let p64: i64 = x.scale as i64 - k as i64;
    proof {
        assert(p64 >= 1);
    }
    if p64 > 37 {
        // The rounding grid lies far above the value: everything
        // rounds to zero.
        proof {
            let p = (xm.scale - k) as nat;
            lemma_pow10_mono(37, (p - 1) as nat);
            lemma_pow10_mono((p - 1) as nat, p);
            assert(pow10(p) == 10 * pow10((p - 1) as nat));
            assert(xm.mant < pow10(p)) by {
                lemma_pow10_mono(36, (p - 1) as nat);
                lemma_pow10_pos((p - 1) as nat);
            }
            vstd::arithmetic::div_mod::lemma_basic_div(xm.mant as int, pow10(p) as int);
            vstd::arithmetic::div_mod::lemma_small_mod(xm.mant, pow10(p));
            assert(2 * xm.mant < pow10(p)) by {
                assert(xm.mant < pow10(36));
                assert(2 * pow10(36) <= pow10(37)) by {
                    lemma_pow10_vals();
                }
                lemma_pow10_mono(37, p);
            }
            assert(round_away(xm.mant, p) == 0);
            if k >= 0 {
                lemma_canon_model_zero(xm.neg, k as nat);
            } else {
                assert(0 * pow10((-(k as int)) as nat) == 0) by (nonlinear_arith);
                lemma_canon_model_zero(xm.neg, 0);
            }
        }
        return Ok(ENum { neg: false, mant: 0, scale: 0, float: false });
    }
    let p = p64 as u32;
    let p10 = pow10_u128(p);
    proof {
        lemma_pow10_pos(p as nat);
        lemma_pow10_mono(p as nat, 37);
        lemma_pow10_vals();
    }
    let q = x.mant / p10 + (if 2 * (x.mant % p10) >= p10 {
        1
    } else {
        0
    });
    proof {
        assert(q as nat == round_away(xm.mant, (xm.scale - k) as nat));
    }
    if k >= 0 {
        let v = match enum_ok(x.neg, q, k as u32, false) {
            Ok(v) => v,
            Err(e) => {
                return Err(e);
            },
        };
        Ok(ENum { neg: v.neg, mant: v.mant, scale: v.scale, float: v.scale > 0 })
    } else {
        if q == 0 {
            proof {
                assert(0 * pow10((-(k as int)) as nat) == 0) by (nonlinear_arith);
                lemma_canon_model_zero(x.neg, 0);
            }
            return Ok(ENum { neg: false, mant: 0, scale: 0, float: false });
        }
        let nk64: i64 = -(k as i64);
        if nk64 > 36 {
            proof {
                lemma_pow10_mono(37, nk64 as nat);
                lemma_pow10_pos(nk64 as nat);
                assert((q as nat) * pow10(nk64 as nat) >= 1 * pow10(37)) by (nonlinear_arith)
                    requires q >= 1, pow10(nk64 as nat) >= pow10(37), pow10(37) >= 1,
                ;
                assert(canon_model(x.neg, (q as nat) * pow10(nk64 as nat), 0) == (DecModel {
                    neg: x.neg && (q as nat) * pow10(nk64 as nat) != 0,
                    mant: (q as nat) * pow10(nk64 as nat),
                    scale: 0,
                }));
            }
            return Err(msg_overflow_bytes());
        }
        let nk = nk64 as u32;
        let pk = pow10_u128(nk);
        proof {
            lemma_pow10_pos(nk as nat);
            lemma_le_div(q as nat, pk as nat, (MANT_CAP - 1) as nat);
        }
        if q > (MANT_CAP - 1) / pk {
            proof {
                assert((q as nat) * (pk as nat) > (MANT_CAP - 1) as nat);
                assert(canon_model(x.neg, (q as nat) * (pk as nat), 0) == (DecModel {
                    neg: x.neg && (q as nat) * (pk as nat) != 0,
                    mant: (q as nat) * (pk as nat),
                    scale: 0,
                }));
            }
            return Err(msg_overflow_bytes());
        }
        proof {
            assert((q as nat) * (pk as nat) <= (MANT_CAP - 1) as nat);
        }
        let m3 = q * pk;
        proof {
            assert((q as nat) * (pk as nat) >= 1 * 1) by (nonlinear_arith)
                requires q >= 1, pk >= 1,
            ;
            assert(canon_model(x.neg, m3 as nat, 0) == (DecModel {
                neg: x.neg && m3 as nat != 0,
                mant: m3 as nat,
                scale: 0,
            }));
        }
        Ok(ENum { neg: x.neg, mant: m3, scale: 0, float: false })
    }
}

/// Canonicalizing never grows the mantissa or the scale.
proof fn lemma_canon_le(neg: bool, m: nat, s: nat)
    ensures
        canon_model(neg, m, s).mant <= m,
        canon_model(neg, m, s).scale <= s,
    decreases s,
{
    if s > 0 && m % 10 == 0 {
        lemma_canon_le(neg, m / 10, (s - 1) as nat);
    }
}

/// The position after any leading whitespace.
pub open spec fn spec_skip_ws(s: Seq<u8>, pos: int) -> int
    decreases s.len() - pos,
{
    if pos < 0 || pos >= s.len() || !is_ws(s[pos]) {
        pos
    } else {
        spec_skip_ws(s, pos + 1)
    }
}

/// Skips leading whitespace.
fn skip_ws(s: &Vec<u8>, pos: usize) -> (r: usize)
    requires
        pos <= s@.len(),
    ensures
        pos <= r <= s@.len(),
        r == spec_skip_ws(s@, pos as int),
        r < s@.len() ==> !is_ws(s@[r as int]),
    decreases s@.len() - pos,
{
    if pos >= s.len() {
        return pos;
    }
    let b = s[pos];
    if b == 32 || (9 <= b && b <= 13) {
        skip_ws(s, pos + 1)
    } else {
        pos
    }
}

/// An identifier byte: a letter, a digit, an underscore, or the point
/// of a dotted path.
pub open spec fn is_ident_byte(b: u8) -> bool {
    ||| 65 <= b <= 90
    ||| 97 <= b <= 122
    ||| 48 <= b <= 57
    ||| b == 95
    ||| b == 46
}

/// An identifier's first byte: a letter or an underscore.
pub open spec fn is_ident_start(b: u8) -> bool {
    ||| 65 <= b <= 90
    ||| 97 <= b <= 122
    ||| b == 95
}

/// A digit or point byte, forming a number token.
pub open spec fn is_num_byte(b: u8) -> bool {
    48 <= b <= 57 || b == 46
}

/// Where the identifier starting at `pos` ends.
pub open spec fn spec_ident_end(s: Seq<u8>, pos: int) -> int
    decreases s.len() - pos,
{
    if pos < 0 || pos >= s.len() || !is_ident_byte(s[pos]) {
        pos
    } else {
        spec_ident_end(s, pos + 1)
    }
}

/// Finds the identifier's end.
fn ident_end(s: &Vec<u8>, pos: usize) -> (r: usize)
    requires
        pos <= s@.len(),
    ensures
        pos <= r <= s@.len(),
        r == spec_ident_end(s@, pos as int),
        pos < s@.len() && is_ident_byte(s@[pos as int]) ==> r > pos,
    decreases s@.len() - pos,
{
    if pos >= s.len() {
        return pos;
    }
    let b = s[pos];
    if (65 <= b && b <= 90) || (97 <= b && b <= 122) || (48 <= b && b <= 57) || b == 95 || b
        == 46 {
        ident_end(s, pos + 1)
    } else {
        pos
    }
}

/// Where the number token starting at `pos` ends.
pub open spec fn spec_num_end(s: Seq<u8>, pos: int) -> int
    decreases s.len() - pos,
{
    if pos < 0 || pos >= s.len() || !is_num_byte(s[pos]) {
        pos
    } else {
        spec_num_end(s, pos + 1)
    }
}

/// Finds the number token's end.
fn num_end(s: &Vec<u8>, pos: usize) -> (r: usize)
    requires
        pos <= s@.len(),
    ensures
        pos <= r <= s@.len(),
        r == spec_num_end(s@, pos as int),
        pos < s@.len() && is_num_byte(s@[pos as int]) ==> r > pos,
    decreases s@.len() - pos,
{
    if pos >= s.len() {
        return pos;
    }
    let b = s[pos];
    if (48 <= b && b <= 57) || b == 46 {
        num_end(s, pos + 1)
    } else {
        pos
    }
}

/// The error text for a formula the parser cannot finish.
pub open spec fn msg_fuel() -> Seq<u8> {
    ascii_bytes("Unreadable formula"@)
}

/// The error text where a value was expected.
pub open spec fn msg_expected_value() -> Seq<u8> {
    ascii_bytes("Expected a value"@)
}

/// The error text for a missing closing parenthesis.
pub open spec fn msg_expected_close() -> Seq<u8> {
    ascii_bytes("Expected a closing parenthesis"@)
}

/// The error text for a byte no formula holds.
pub open spec fn msg_unexpected() -> Seq<u8> {
    ascii_bytes("Unexpected character in formula"@)
}

/// The error text for a number token that is no number.
pub open spec fn msg_bad_number(tok: Seq<u8>) -> Seq<u8> {
    ascii_bytes("Malformed number: "@) + tok
}

/// A sum: terms joined by plus and minus.
pub open spec fn spec_p_expr(s: Seq<u8>, pos: int, data: Val, fuel: nat) -> Result<
    (ENum, int),
    Seq<u8>,
>
    decreases fuel, 5int,
{
    if fuel == 0 {
        Err(msg_fuel())
    } else {
        match spec_p_term(s, pos, data, fuel) {
            Err(e) => Err(e),
            Ok((v, p)) => spec_p_expr_rest(s, v, p, data, fuel),
        }
    }
}

/// The remaining additive steps of a sum.
pub open spec fn spec_p_expr_rest(s: Seq<u8>, acc: ENum, pos: int, data: Val, fuel: nat) -> Result<
    (ENum, int),
    Seq<u8>,
>
    decreases fuel, 4int,
{
    if fuel == 0 {
        Err(msg_fuel())
    } else {
        let p = spec_skip_ws(s, pos);
        if 0 <= p < s.len() && (s[p] == 43 || s[p] == 45) {
            match spec_p_term(s, p + 1, data, fuel) {
                Err(e) => Err(e),
                Ok((v, p2)) => match spec_add_e(acc, v, s[p] == 45) {
                    Err(e) => Err(e),
                    Ok(w) => spec_p_expr_rest(s, w, p2, data, (fuel - 1) as nat),
                },
            }
        } else {
            Ok((acc, p))
        }
    }
}

/// A product: factors joined by times and divide.
pub open spec fn spec_p_term(s: Seq<u8>, pos: int, data: Val, fuel: nat) -> Result<
    (ENum, int),
    Seq<u8>,
>
    decreases fuel, 3int,
{
    if fuel == 0 {
        Err(msg_fuel())
    } else {
        match spec_p_factor(s, pos, data, fuel) {
            Err(e) => Err(e),
            Ok((v, p)) => spec_p_term_rest(s, v, p, data, fuel),
        }
    }
}

/// The remaining multiplicative steps of a product.
pub open spec fn spec_p_term_rest(s: Seq<u8>, acc: ENum, pos: int, data: Val, fuel: nat) -> Result<
    (ENum, int),
    Seq<u8>,
>
    decreases fuel, 2int,
{
    if fuel == 0 {
        Err(msg_fuel())
    } else {
        let p = spec_skip_ws(s, pos);
        if 0 <= p < s.len() && (s[p] == 42 || s[p] == 47) {
            match spec_p_factor(s, p + 1, data, fuel) {
                Err(e) => Err(e),
                Ok((v, p2)) => match (if s[p] == 42 {
                    spec_mul_e(acc, v)
                } else {
                    spec_div_e(acc, v)
                }) {
                    Err(e) => Err(e),
                    Ok(w) => spec_p_term_rest(s, w, p2, data, (fuel - 1) as nat),
                },
            }
        } else {
            Ok((acc, p))
        }
    }
}

/// One value: a number, an identifier, a parenthesized sum, or the
/// built-in rounding call.
pub open spec fn spec_p_factor(s: Seq<u8>, pos: int, data: Val, fuel: nat) -> Result<
    (ENum, int),
    Seq<u8>,
>
    decreases fuel, 1int,
{
    if fuel == 0 {
        Err(msg_fuel())
    } else {
        let p = spec_skip_ws(s, pos);
        if p >= s.len() {
            Err(msg_expected_value())
        } else if s[p] == 40 {
            match spec_p_expr(s, p + 1, data, (fuel - 1) as nat) {
                Err(e) => Err(e),
                Ok((v, p2)) => {
                    let p3 = spec_skip_ws(s, p2);
                    if p3 < s.len() && s[p3] == 41 {
                        Ok((v, p3 + 1))
                    } else {
                        Err(msg_expected_close())
                    }
                },
            }
        } else if 48 <= s[p] <= 57 {
            let e = spec_num_end(s, p);
            let tok = s.subrange(p, e);
            match crate::numeric::spec_parse_plain(tok) {
                None => Err(msg_bad_number(tok)),
                Some(m) => match spec_enum_of_dec(m, spec_find_from(tok, seq![46u8], 0) is Some) {
                    Err(er) => Err(er),
                    Ok(v) => Ok((v, e)),
                },
            }
        } else if is_ident_start(s[p]) {
            let e = spec_ident_end(s, p);
            let w = s.subrange(p, e);
            let p2 = spec_skip_ws(s, e);
            if w == ascii_bytes("round"@) && p2 < s.len() && s[p2] == 40 {
                spec_p_round(s, p2 + 1, data, (fuel - 1) as nat)
            } else {
                match spec_ident_value(data, w) {
                    Err(e2) => Err(e2),
                    Ok(v) => Ok((v, e)),
                }
            }
        } else {
            Err(msg_unexpected())
        }
    }
}

/// The arguments of the built-in rounding call, after its opening
/// parenthesis: the value, an optional whole count of places, and the
/// closing parenthesis.
pub open spec fn spec_p_round(s: Seq<u8>, pos: int, data: Val, fuel: nat) -> Result<
    (ENum, int),
    Seq<u8>,
>
    decreases fuel, 6int,
{
    match spec_p_expr(s, pos, data, fuel) {
        Err(e) => Err(e),
        Ok((x, p)) => {
            let p2 = spec_skip_ws(s, p);
            if p2 < s.len() && s[p2] == 44 {
                match spec_p_expr(s, p2 + 1, data, fuel) {
                    Err(e) => Err(e),
                    Ok((kv, p3)) => {
                        let p4 = spec_skip_ws(s, p3);
                        if p4 < s.len() && s[p4] == 41 {
                            let ck = canon_model(kv.neg, kv.mant as nat, kv.scale as nat);
                            if ck.scale != 0 {
                                Err(msg_round_int(spec_enum_bytes(kv)))
                            } else {
                                let ki: int = if ck.neg {
                                    -(ck.mant as int)
                                } else {
                                    ck.mant as int
                                };
                                match spec_round_e(x, spec_clamp_i32(ki)) {
                                    Err(e) => Err(e),
                                    Ok(v) => Ok((v, p4 + 1)),
                                }
                            }
                        } else {
                            Err(msg_expected_close())
                        }
                    },
                }
            } else if p2 < s.len() && s[p2] == 41 {
                match spec_round_e(x, 0) {
                    Err(e) => Err(e),
                    Ok(v) => Ok((v, p2 + 1)),
                }
            } else {
                Err(msg_expected_close())
            }
        },
    }
}

/// What a whole formula evaluates to: one sum, with nothing but
/// whitespace after it, written as its result's text.
pub open spec fn spec_eval_formula(s: Seq<u8>, data: Val) -> Result<Seq<u8>, Seq<u8>> {
    match spec_p_expr(s, 0, data, (s.len() + 1) as nat) {
        Err(e) => Err(e),
        Ok((v, p)) => {
            let p2 = spec_skip_ws(s, p);
            if p2 == s.len() {
                Ok(spec_enum_bytes(v))
            } else {
                Err(msg_unexpected())
            }
        },
    }
}

/// Parses and evaluates a sum.
fn p_expr(s: &Vec<u8>, pos: usize, data: &Value, fuel: Ghost<nat>) -> (r: Result<
    (ENum, usize),
    Vec<u8>,
>)
    requires
        pos <= s@.len(),
        fuel@ >= s@.len() - pos + 1,
    ensures
        match r {
            Ok(v) => spec_p_expr(s@, pos as int, data@, fuel@) == Ok::<(ENum, int), Seq<u8>>(
                (v.0, v.1 as int),
            ) && enum_wf(v.0) && pos < v.1 <= s@.len(),
            Err(e) => spec_p_expr(s@, pos as int, data@, fuel@) matches Err(me) && e@ == me,
        },
    decreases s@.len() - pos, 5int,
{
    let (v, p) = match p_term(s, pos, data, fuel) {
        Ok(x) => x,
        Err(e) => {
            return Err(e);
        },
    };
    p_expr_rest(s, v, p, pos, data, fuel)
}

/// Parses and evaluates the additive continuation of a sum.
fn p_expr_rest(s: &Vec<u8>, acc: ENum, pos: usize, lo: usize, data: &Value, fuel: Ghost<nat>) -> (r:
    Result<(ENum, usize), Vec<u8>>)
    requires
        lo < pos <= s@.len(),
        enum_wf(acc),
        fuel@ >= s@.len() - pos + 2,
    ensures
        match r {
            Ok(v) => spec_p_expr_rest(s@, acc, pos as int, data@, fuel@) == Ok::<
                (ENum, int),
                Seq<u8>,
            >((v.0, v.1 as int)) && enum_wf(v.0) && lo < v.1 <= s@.len(),
            Err(e) => spec_p_expr_rest(s@, acc, pos as int, data@, fuel@) matches Err(me) && e@
                == me,
        },
    decreases s@.len() - pos, 4int,
{
    let p = skip_ws(s, pos);
    if p < s.len() && (s[p] == 43 || s[p] == 45) {
        let (v, p2) = match p_term(s, p + 1, data, fuel) {
            Ok(x) => x,
            Err(e) => {
                return Err(e);
            },
        };
        let w = match add_e(&acc, &v, s[p] == 45) {
            Ok(x) => x,
            Err(e) => {
                return Err(e);
            },
        };
        p_expr_rest(s, w, p2, lo, data, Ghost((fuel@ - 1) as nat))
    } else {
        Ok((acc, p))
    }
}

/// Parses and evaluates a product.
fn p_term(s: &Vec<u8>, pos: usize, data: &Value, fuel: Ghost<nat>) -> (r: Result<
    (ENum, usize),
    Vec<u8>,
>)
    requires
        pos <= s@.len(),
        fuel@ >= s@.len() - pos + 1,
    ensures
        match r {
            Ok(v) => spec_p_term(s@, pos as int, data@, fuel@) == Ok::<(ENum, int), Seq<u8>>(
                (v.0, v.1 as int),
            ) && enum_wf(v.0) && pos < v.1 <= s@.len(),
            Err(e) => spec_p_term(s@, pos as int, data@, fuel@) matches Err(me) && e@ == me,
        },
    decreases s@.len() - pos, 3int,
{
    let (v, p) = match p_factor(s, pos, data, fuel) {
        Ok(x) => x,
        Err(e) => {
            return Err(e);
        },
    };
    p_term_rest(s, v, p, pos, data, fuel)
}

/// Parses and evaluates the multiplicative continuation of a product.
fn p_term_rest(s: &Vec<u8>, acc: ENum, pos: usize, lo: usize, data: &Value, fuel: Ghost<nat>) -> (r:
    Result<(ENum, usize), Vec<u8>>)
    requires
        lo < pos <= s@.len(),
        enum_wf(acc),
        fuel@ >= s@.len() - pos + 2,
    ensures
        match r {
            Ok(v) => spec_p_term_rest(s@, acc, pos as int, data@, fuel@) == Ok::<
                (ENum, int),
                Seq<u8>,
            >((v.0, v.1 as int)) && enum_wf(v.0) && lo < v.1 <= s@.len(),
            Err(e) => spec_p_term_rest(s@, acc, pos as int, data@, fuel@) matches Err(me) && e@
                == me,
        },
    decreases s@.len() - pos, 2int,
{
    let p = skip_ws(s, pos);
    if p < s.len() && (s[p] == 42 || s[p] == 47) {
        let (v, p2) = match p_factor(s, p + 1, data, fuel) {
            Ok(x) => x,
            Err(e) => {
                return Err(e);
            },
        };
        let mul = s[p] == 42;
        let w = match (if mul {
            mul_e(&acc, &v)
        } else {
            div_e(&acc, &v)
        }) {
            Ok(x) => x,
            Err(e) => {
                return Err(e);
            },
        };
        p_term_rest(s, w, p2, lo, data, Ghost((fuel@ - 1) as nat))
    } else {
        Ok((acc, p))
    }
}

/// Parses and evaluates one value.
#[verifier::rlimit(100)]
fn p_factor(s: &Vec<u8>, pos: usize, data: &Value, fuel: Ghost<nat>) -> (r: Result<
    (ENum, usize),
    Vec<u8>,
>)
    requires
        pos <= s@.len(),
        fuel@ >= s@.len() - pos + 1,
    ensures
        match r {
            Ok(v) => spec_p_factor(s@, pos as int, data@, fuel@) == Ok::<(ENum, int), Seq<u8>>(
                (v.0, v.1 as int),
            ) && enum_wf(v.0) && pos < v.1 <= s@.len(),
            Err(e) => spec_p_factor(s@, pos as int, data@, fuel@) matches Err(me) && e@ == me,
        },
    decreases s@.len() - pos, 1int,
{
    proof {
        reveal_strlit("Expected a value");
        reveal_strlit("Expected a closing parenthesis");
        reveal_strlit("Unexpected character in formula");
        reveal_strlit("round");
    }
    let p = skip_ws(s, pos);
    if p >= s.len() {
        return Err(lit_bytes("Expected a value"));
    }
    let b = s[p];
    if b == 40 {
        let (v, p2) = match p_expr(s, p + 1, data, Ghost((fuel@ - 1) as nat)) {
            Ok(x) => x,
            Err(e) => {
                return Err(e);
            },
        };
        let p3 = skip_ws(s, p2);
        if p3 < s.len() && s[p3] == 41 {
            Ok((v, p3 + 1))
        } else {
            Err(lit_bytes("Expected a closing parenthesis"))
        }
    } else if 48 <= b && b <= 57 {
        let e = num_end(s, p);
        let tok = copy_range(s, p, e);
        let d = match crate::numeric::parse_plain(&tok) {
            Some(d) => d,
            None => {
                proof {
                    reveal_strlit("Malformed number: ");
                }
                let mut m = lit_bytes("Malformed number: ");
                push_f(&mut m, &tok);
                return Err(m);
            },
        };
        let mut dot: Vec<u8> = Vec::new();
        dot.push(46);
        proof {
            assert(dot@ =~= seq![46u8]);
        }
        let isf = crate::textutil::find_sub_from(&tok, &dot, 0).is_some();
        match enum_of_dec(&d, isf) {
            Ok(v) => Ok((v, e)),
            Err(er) => Err(er),
        }
    } else if (65 <= b && b <= 90) || (97 <= b && b <= 122) || b == 95 {
        let e = ident_end(s, p);
        let w = copy_range(s, p, e);
        let p2 = skip_ws(s, e);
        let is_round = crate::textutil::bytes_eq(&w, &lit_bytes("round"));
        if is_round && p2 < s.len() && s[p2] == 40 {
            p_round(s, p2 + 1, pos, data, Ghost((fuel@ - 1) as nat))
        } else {
            match ident_value(data, &w) {
                Ok(v) => Ok((v, e)),
                Err(e2) => Err(e2),
            }
        }
    } else {
        Err(lit_bytes("Unexpected character in formula"))
    }
}

/// Parses and evaluates the rounding call's arguments.
#[verifier::rlimit(100)]
fn p_round(s: &Vec<u8>, pos: usize, lo: usize, data: &Value, fuel: Ghost<nat>) -> (r: Result<
    (ENum, usize),
    Vec<u8>,
>)
    requires
        lo < pos <= s@.len(),
        fuel@ >= s@.len() - pos + 1,
    ensures
        match r {
            Ok(v) => spec_p_round(s@, pos as int, data@, fuel@) == Ok::<(ENum, int), Seq<u8>>(
                (v.0, v.1 as int),
            ) && enum_wf(v.0) && lo < v.1 <= s@.len(),
            Err(e) => spec_p_round(s@, pos as int, data@, fuel@) matches Err(me) && e@ == me,
        },
    decreases s@.len() - pos, 6int,
{
    proof {
        reveal_strlit("Expected a closing parenthesis");
    }
    let (x, p) = match p_expr(s, pos, data, fuel) {
        Ok(v) => v,
        Err(e) => {
            return Err(e);
        },
    };
    let p2 = skip_ws(s, p);
    if p2 < s.len() && s[p2] == 44 {
        let (kv, p3) = match p_expr(s, p2 + 1, data, fuel) {
            Ok(v) => v,
            Err(e) => {
                return Err(e);
            },
        };
        let p4 = skip_ws(s, p3);
        if p4 < s.len() && s[p4] == 41 {
            let ck = match enum_ok(kv.neg, kv.mant, kv.scale, kv.float) {
                Ok(v) => v,
                Err(e) => {
                    proof {
                        lemma_canon_le(kv.neg, kv.mant as nat, kv.scale as nat);
                        assert(false);
                    }
                    return Err(e);
                },
            };
            if ck.scale != 0 {
                proof {
                    reveal_strlit("Second rounding argument must be an integer. Given value: ");
                }
                let mut m = lit_bytes(
                    "Second rounding argument must be an integer. Given value: ",
                );
                let t = enum_to_bytes(&kv);
                push_f(&mut m, &t);
                return Err(m);
            }
            let ki: i32 = if ck.mant > 0x7fff_ffff {
                if ck.neg {
                    i32::MIN
                } else {
                    i32::MAX
                }
            } else {
                if ck.neg {
                    -(ck.mant as i32)
                } else {
                    ck.mant as i32
                }
            };
            proof {
                if ck.neg && ck.mant > 0x7fff_ffff {
                    assert(spec_clamp_i32(-(ck.mant as int)) == -0x8000_0000);
                }
            }
            match round_e(&x, ki) {
                Ok(v) => Ok((v, p4 + 1)),
                Err(e) => Err(e),
            }
        } else {
            Err(lit_bytes("Expected a closing parenthesis"))
        }
    } else if p2 < s.len() && s[p2] == 41 {
        match round_e(&x, 0) {
            Ok(v) => Ok((v, p2 + 1)),
            Err(e) => Err(e),
        }
    } else {
        Err(lit_bytes("Expected a closing parenthesis"))
    }
}

/// Evaluates a whole formula against the context and writes the
/// numeric result.
pub fn eval_formula(s: &Vec<u8>, data: &Value) -> (r: Result<Vec<u8>, Vec<u8>>)
    ensures
        match r {
            Ok(t) => spec_eval_formula(s@, data@) == Ok::<Seq<u8>, Seq<u8>>(t@),
            Err(e) => spec_eval_formula(s@, data@) matches Err(me) && e@ == me,
        },
{
    proof {
        reveal_strlit("Unexpected character in formula");
    }
    let (v, p) = match p_expr(s, 0, data, Ghost((s@.len() + 1) as nat)) {
        Ok(x) => x,
        Err(e) => {
            return Err(e);
        },
    };
    let p2 = skip_ws(s, p);
    if p2 == s.len() {
        Ok(enum_to_bytes(&v))
    } else {
        Err(lit_bytes("Unexpected character in formula"))
    }
}

} // verus!
