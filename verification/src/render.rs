//! Template rendering.
//!
//! Each line of the assembled document is rendered independently
//! against the resolved data context. A placeholder `{{...}}` holds
//! either a dotted path, substituted by the value it leads to, or a
//! helper invocation with positional arguments; an argument is a
//! literal, a dotted path, or a parenthesized inner invocation whose
//! rendered text becomes the argument. Lookups are strict: a path that
//! leads nowhere is an error. A failing placeholder fails only its own
//! line: the line is kept unrendered and one warning naming the line
//! is collected, while every other line renders normally.
use vstd::prelude::*;

use crate::numeric::{
    canon_model, copy_bytes, dec_to_bytes, parse_dec, round_value, spec_clamp_i32, spec_dec_int,
    spec_model_bytes, spec_parse_dec, spec_round_model, spec_sep_bytes, spec_udec, add_separators,
    dec_to_i32, format_u64, Dec, DecModel,
};
use crate::textutil::{
    ascii_bytes, bytes_eq, copy_range, find_sub_from, is_ws, lit_bytes, spec_find_from, trim,
};
use crate::value::{
    clone_value, entry_vals_of, lookup, obj_get, path_view, spec_json_bytes, spec_lookup,
    spec_obj_get, spec_split_dots, split_dots, to_json_bytes, Val, Value,
};
use crate::exprs::{evaluate_all_expressions, spec_resolve};

verus! {

/// One parsed piece of a placeholder: a bare word, or a parenthesized
/// inner invocation.
pub enum Tok {
    Word(Vec<u8>),
    Group(Vec<u8>),
}

/// The model of a token.
pub enum TokS {
    Word(Seq<u8>),
    Group(Seq<u8>),
}

impl View for Tok {
    type V = TokS;

    open spec fn view(&self) -> TokS {
        match self {
            Tok::Word(w) => TokS::Word(w@),
            Tok::Group(g) => TokS::Group(g@),
        }
    }
}

/// The model of a token sequence.
pub open spec fn toks_view(ts: Seq<Tok>) -> Seq<TokS> {
    Seq::new(ts.len(), |i: int| ts[i]@)
}

/// Where the group opened at `j - 1` closes: the position of the
/// matching close parenthesis.
pub open spec fn spec_group_end(s: Seq<u8>, j: int, depth: int) -> Option<int>
    decreases s.len() - j,
{
    if j < 0 || j >= s.len() {
        None
    } else if s[j] == 40 {
        spec_group_end(s, j + 1, depth + 1)
    } else if s[j] == 41 {
        if depth == 0 {
            Some(j)
        } else {
            spec_group_end(s, j + 1, depth - 1)
        }
    } else {
        spec_group_end(s, j + 1, depth)
    }
}

/// Where the word starting at `pos` ends: before the next whitespace
/// or parenthesis.
pub open spec fn spec_word_end(s: Seq<u8>, pos: int) -> int
    decreases s.len() - pos,
{
    if pos < 0 || pos >= s.len() || is_ws(s[pos]) || s[pos] == 40 || s[pos] == 41 {
        pos
    } else {
        spec_word_end(s, pos + 1)
    }
}

/// The tokens of a placeholder's inside, from `pos` on: words split at
/// whitespace, parenthesized stretches kept whole. An unclosed
/// parenthesis tokenizes to nothing.
pub open spec fn spec_tokenize(s: Seq<u8>, pos: int, fuel: nat) -> Option<Seq<TokS>>
    decreases fuel,
{
    if fuel == 0 {
        None
    } else if pos < 0 || pos >= s.len() {
        Some(Seq::<TokS>::empty())
    } else if is_ws(s[pos]) {
        spec_tokenize(s, pos + 1, (fuel - 1) as nat)
    } else if s[pos] == 40 {
        match spec_group_end(s, pos + 1, 0) {
            None => None,
            Some(j) => match spec_tokenize(s, j + 1, (fuel - 1) as nat) {
                None => None,
                Some(rest) => Some(seq![TokS::Group(s.subrange(pos + 1, j))] + rest),
            },
        }
    } else {
        let e = spec_word_end(s, pos);
        match spec_tokenize(s, e, (fuel - 1) as nat) {
            None => None,
            Some(rest) => Some(seq![TokS::Word(s.subrange(pos, e))] + rest),
        }
    }
}

/// Finds the matching close parenthesis.
fn group_end(s: &Vec<u8>, j: usize, depth: usize) -> (r: Option<usize>)
    requires
        depth <= j <= s@.len(),
    ensures
        match r {
            Some(k) => j <= k < s@.len() && spec_group_end(s@, j as int, depth as int) == Some(
                k as int,
            ),
            None => spec_group_end(s@, j as int, depth as int) is None,
        },
    decreases s@.len() - j,
{
    if j >= s.len() {
        return None;
    }
    if s[j] == 40 {
        group_end(s, j + 1, depth + 1)
    } else if s[j] == 41 {
        if depth == 0 {
            Some(j)
        } else {
            group_end(s, j + 1, depth - 1)
        }
    } else {
        group_end(s, j + 1, depth)
    }
}

/// Finds the end of the word starting at `pos`.
fn word_end(s: &Vec<u8>, pos: usize) -> (r: usize)
    requires
        pos <= s@.len(),
    ensures
        pos <= r <= s@.len(),
        r == spec_word_end(s@, pos as int),
        pos < s@.len() && !is_ws(s@[pos as int]) && s@[pos as int] != 40 && s@[pos as int] != 41
            ==> r > pos,
    decreases s@.len() - pos,
{
    if pos >= s.len() {
        return pos;
    }
    let b = s[pos];
    if b == 32 || (9 <= b && b <= 13) || b == 40 || b == 41 {
        pos
    } else {
        word_end(s, pos + 1)
    }
}

/// A stray close parenthesis never tokenizes: the scan cannot move
/// past it.
proof fn lemma_tokenize_stuck(s: Seq<u8>, pos: int, fuel: nat)
    requires
        0 <= pos < s.len(),
        !is_ws(s[pos]),
        s[pos] != 40,
        spec_word_end(s, pos) == pos,
    ensures
        spec_tokenize(s, pos, fuel) is None,
    decreases fuel,
{
    if fuel > 0 {
        lemma_tokenize_stuck(s, pos, (fuel - 1) as nat);
    }
}

/// Splits a placeholder's inside into tokens.
fn tokenize(s: &Vec<u8>, pos: usize, fuel: Ghost<nat>) -> (r: Option<Vec<Tok>>)
    requires
        pos <= s@.len(),
        fuel@ >= s@.len() - pos + 1,
    ensures
        match r {
            Some(ts) => spec_tokenize(s@, pos as int, fuel@) == Some(toks_view(ts@)),
            None => spec_tokenize(s@, pos as int, fuel@) is None,
        },
    decreases s@.len() - pos,
{
    if pos >= s.len() {
        let r: Vec<Tok> = Vec::new();
        proof {
            assert(toks_view(r@) =~= Seq::<TokS>::empty());
        }
        return Some(r);
    }
    let b = s[pos];
    if b == 32 || (9 <= b && b <= 13) {
        tokenize(s, pos + 1, Ghost((fuel@ - 1) as nat))
    } else if b == 40 {
        match group_end(s, pos + 1, 0) {
            None => None,
            Some(j) => {
                let g = copy_range(s, pos + 1, j);
                match tokenize(s, j + 1, Ghost((fuel@ - 1) as nat)) {
                    None => None,
                    Some(rest) => {
                        let mut ts: Vec<Tok> = Vec::new();
                        ts.push(Tok::Group(g));
                        let mut rest = rest;
                        let ghost restv = toks_view(rest@);
                        append_toks(&mut ts, &mut rest);
                        proof {
                            assert(toks_view(ts@) =~= seq![
                                TokS::Group(s@.subrange(pos + 1, j as int)),
                            ] + restv);
                        }
                        Some(ts)
                    },
                }
            },
        }
    } else {
        let e = word_end(s, pos);
        if e == pos {
            proof {
                lemma_tokenize_stuck(s@, pos as int, fuel@);
            }
            return None;
        }
        let w = copy_range(s, pos, e);
        match tokenize(s, e, Ghost((fuel@ - 1) as nat)) {
            None => None,
            Some(rest) => {
                let mut ts: Vec<Tok> = Vec::new();
                ts.push(Tok::Word(w));
                let mut rest = rest;
                let ghost restv = toks_view(rest@);
                append_toks(&mut ts, &mut rest);
                proof {
                    assert(toks_view(ts@) =~= seq![TokS::Word(s@.subrange(pos as int, e as int))]
                        + restv);
                }
                Some(ts)
            },
        }
    }
}

/// Appends the tokens of `src` onto `dst`.
fn append_toks(dst: &mut Vec<Tok>, src: &mut Vec<Tok>)
    ensures
        toks_view(final(dst)@) == toks_view(old(dst)@) + toks_view(old(src)@),
{
    let ghost a = toks_view(dst@);
    let ghost b = toks_view(src@);
    dst.append(src);
    proof {
        assert(toks_view(dst@) =~= a + b);
    }
}

/// The direct text of a value: nothing for null, the words `true` and
/// `false`, a number's or a text's own bytes, and the JSON text of a
/// list or map.
pub open spec fn spec_value_text(v: Val) -> Seq<u8> {
    if v is Null {
        Seq::<u8>::empty()
    } else if v is Number {
        v->Number_0
    } else if v is Text {
        v->Text_0
    } else {
        spec_json_bytes(v)
    }
}

/// Writes a value as direct text.
fn value_text(v: &Value) -> (r: Vec<u8>)
    ensures
        r@ == spec_value_text(v@),
{
    match v {
        Value::Null => Vec::new(),
        Value::Number(t) => copy_bytes(t),
        Value::Text(t) => copy_bytes(t),
        _ => to_json_bytes(v),
    }
}

/// The literal a bare word denotes, if any: the words `true`, `false`
/// and `null`, a number, or a quoted text. Any other word is a path.
pub open spec fn spec_word_lit(w: Seq<u8>) -> Option<Val> {
    if w == ascii_bytes("true"@) {
        Some(Val::Bool(true))
    } else if w == ascii_bytes("false"@) {
        Some(Val::Bool(false))
    } else if w == ascii_bytes("null"@) {
        Some(Val::Null)
    } else if spec_parse_dec(w) is Some {
        Some(Val::Number(w))
    } else if w.len() >= 2 && (w[0] == 34 && w.last() == 34 || w[0] == 39 && w.last() == 39) {
        Some(Val::Text(w.subrange(1, w.len() - 1)))
    } else {
        None
    }
}

/// Reads a bare word as a literal, if it is one.
fn word_lit(w: &Vec<u8>) -> (r: Option<Value>)
    ensures
        match r {
            Some(v) => spec_word_lit(w@) == Some(v@),
            None => spec_word_lit(w@) is None,
        },
{
    proof {
        reveal_strlit("true");
        reveal_strlit("false");
        reveal_strlit("null");
    }
    let t = lit_bytes("true");
    let f = lit_bytes("false");
    let nl = lit_bytes("null");
    if bytes_eq(w, &t) {
        return Some(Value::Bool(true));
    }
    if bytes_eq(w, &f) {
        return Some(Value::Bool(false));
    }
    if bytes_eq(w, &nl) {
        return Some(Value::Null);
    }
    match parse_dec(w) {
        Some(_) => {
            return Some(Value::Number(copy_bytes(w)));
        },
        None => {},
    }
    let n = w.len();
    if n >= 2 && (w[0] == 34 && w[n - 1] == 34 || w[0] == 39 && w[n - 1] == 39) {
        return Some(Value::Text(copy_range(w, 1, n - 1)));
    }
    None
}

/// The error text for a path that leads nowhere.
pub open spec fn msg_var_not_found(w: Seq<u8>) -> Seq<u8> {
    ascii_bytes("Variable \""@) + w + ascii_bytes("\" not found"@)
}

/// Builds the missing-variable error text.
fn msg_var_not_found_bytes(w: &Vec<u8>) -> (r: Vec<u8>)
    ensures
        r@ == msg_var_not_found(w@),
{
    proof {
        reveal_strlit("Variable \"");
        reveal_strlit("\" not found");
    }
    let mut m = lit_bytes("Variable \"");
    push_text(&mut m, w);
    let tail = lit_bytes("\" not found");
    push_text(&mut m, &tail);
    m
}

/// Appends `mid` to `out`.
fn push_text(out: &mut Vec<u8>, mid: &Vec<u8>)
    ensures
        final(out)@ == old(out)@ + mid@,
{
    out.extend_from_slice(mid.as_slice());
    proof {
        crate::numeric::byte_copy_exact(out@);
        assert(out@ =~= old(out)@ + mid@);
    }
}

/// What a bare word renders to: its literal's text, or the text of the
/// value its dotted path leads to; strict, so a missing path is an
/// error.
pub open spec fn spec_path_render(w: Seq<u8>, data: Val) -> Result<Seq<u8>, Seq<u8>> {
    match spec_word_lit(w) {
        Some(v) => Ok(spec_value_text(v)),
        None => match spec_lookup(data, spec_split_dots(w)) {
            Some(v) => Ok(spec_value_text(v)),
            None => Err(msg_var_not_found(w)),
        },
    }
}

/// Renders a bare word.
fn path_render(w: &Vec<u8>, data: &Value) -> (r: Result<Vec<u8>, Vec<u8>>)
    ensures
        match r {
            Ok(t) => spec_path_render(w@, data@) == Ok::<_, Seq<u8>>(t@),
            Err(m) => spec_path_render(w@, data@) == Err::<Seq<u8>, _>(m@),
        },
{
    match word_lit(w) {
        Some(v) => Ok(value_text(&v)),
        None => {
            let path = split_dots(w);
            proof {
                assert(path_view(path@).skip(0) =~= path_view(path@));
            }
            match lookup(data, &path, 0) {
                Some(v) => Ok(value_text(v)),
                None => Err(msg_var_not_found_bytes(w)),
            }
        },
    }
}

/// What upper-casing a text returns. Relies on str::to_uppercase,
/// whose result depends on the characters alone.
pub uninterp spec fn upper_of(s: Seq<u8>) -> Seq<u8>;

/// What lower-casing a text returns. Relies on str::to_lowercase,
/// whose result depends on the characters alone.
pub uninterp spec fn lower_of(s: Seq<u8>) -> Seq<u8>;

/// Relies on str::to_uppercase: the Unicode upper-case form of the
/// text.
#[verifier::external_body]
fn upper_bytes(v: &Vec<u8>) -> (r: Vec<u8>)
    ensures
        r@ == upper_of(v@),
{
    String::from_utf8_lossy(v).to_uppercase().into_bytes()
}

/// Relies on str::to_lowercase: the Unicode lower-case form of the
/// text.
#[verifier::external_body]
fn lower_bytes(v: &Vec<u8>) -> (r: Vec<u8>)
    ensures
        r@ == lower_of(v@),
{
    String::from_utf8_lossy(v).to_lowercase().into_bytes()
}

/// The raw text a token stood for.
pub open spec fn spec_tok_text(tok: TokS) -> Seq<u8> {
    match tok {
        TokS::Word(w) => w,
        TokS::Group(g) => seq![40u8] + g + seq![41u8],
    }
}

/// A decimal read out of a numeric or textual value.
pub open spec fn spec_val_dec(v: Val) -> Option<DecModel> {
    if v is Number {
        spec_parse_dec(v->Number_0)
    } else if v is Text {
        spec_parse_dec(v->Text_0)
    } else {
        None
    }
}

/// A 32-bit integer read out of a value: its decimal must be a whole
/// number; an out-of-range value saturates.
pub open spec fn spec_val_i32(v: Val) -> Option<int> {
    match spec_val_dec(v) {
        Some(m) => match spec_dec_int(m) {
            Some(x) => Some(spec_clamp_i32(x)),
            None => None,
        },
        None => None,
    }
}

/// Reads a value as an exact decimal.
fn val_dec(v: &Value) -> (r: Option<Dec>)
    ensures
        match r {
            Some(d) => d.wf() && spec_val_dec(v@) == Some(d@),
            None => spec_val_dec(v@) is None,
        },
{
    match v {
        Value::Number(t) => parse_dec(t),
        Value::Text(t) => parse_dec(t),
        _ => None,
    }
}

/// Reads a value as a 32-bit integer.
fn val_i32(v: &Value) -> (r: Option<i32>)
    ensures
        match r {
            Some(k) => spec_val_i32(v@) == Some(k as int),
            None => spec_val_i32(v@) is None,
        },
{
    match val_dec(v) {
        Some(d) => dec_to_i32(&d),
        None => None,
    }
}

/// The error text for the nesting ceiling of subexpressions.
pub open spec fn msg_nested() -> Seq<u8> {
    ascii_bytes("Subexpressions nest too deeply"@)
}

/// The error text for an unreadable placeholder.
pub open spec fn msg_invalid() -> Seq<u8> {
    ascii_bytes("Invalid placeholder syntax"@)
}

/// The error text for an empty placeholder.
pub open spec fn msg_empty_ph() -> Seq<u8> {
    ascii_bytes("Empty placeholder"@)
}

/// The error text for a call of an unknown helper.
pub open spec fn msg_unknown_helper(w: Seq<u8>) -> Seq<u8> {
    ascii_bytes("Helper not defined: "@) + w
}

/// The error text for a case helper without its text argument.
pub open spec fn msg_case_arg(name: Seq<u8>) -> Seq<u8> {
    name + ascii_bytes(" takes one string argument"@)
}

/// The error text for an argument that is no whole number.
pub open spec fn msg_not_integer(j: Seq<u8>) -> Seq<u8> {
    ascii_bytes("Could not parse "@) + j + ascii_bytes(" as an integer."@)
}

/// The error text for an argument that is no number at all.
pub open spec fn msg_not_float(j: Seq<u8>) -> Seq<u8> {
    ascii_bytes("Could not parse "@) + j + ascii_bytes(" as a floating point value."@)
}

/// What one helper argument evaluates to: a literal stands for itself,
/// a path for the value it leads to (strictly), and a parenthesized
/// invocation for its rendered text.
pub open spec fn spec_arg_val(tok: TokS, data: Val, fuel: nat) -> Result<Val, Seq<u8>>
    decreases fuel, 0int,
{
    match tok {
        TokS::Word(w) => match spec_word_lit(w) {
            Some(v) => Ok(v),
            None => match spec_lookup(data, spec_split_dots(w)) {
                Some(v) => Ok(v),
                None => Err(msg_var_not_found(w)),
            },
        },
        TokS::Group(g) => if fuel == 0 {
            Err(msg_nested())
        } else {
            match spec_invoke(g, data, (fuel - 1) as nat) {
                Ok(t) => Ok(Val::Text(t)),
                Err(e) => Err(e),
            }
        },
    }
}

/// What a case helper returns: the case-folded text of its single
/// string argument.
pub open spec fn spec_case_helper(upper: bool, args: Seq<TokS>, data: Val, fuel: nat) -> Result<
    Seq<u8>,
    Seq<u8>,
>
    decreases fuel, 3int,
{
    let name = if upper {
        ascii_bytes("upper"@)
    } else {
        ascii_bytes("lower"@)
    };
    if args.len() < 1 {
        Err(msg_case_arg(name))
    } else {
        match spec_arg_val(args[0], data, fuel) {
            Err(e) => Err(e),
            Ok(v) => if v is Text {
                Ok(
                    if upper {
                        upper_of(v->Text_0)
                    } else {
                        lower_of(v->Text_0)
                    },
                )
            } else {
                Err(msg_case_arg(name))
            },
        }
    }
}

/// What the rounding helper returns: its value argument rounded to the
/// given count of decimals (none given: to a whole number), written
/// canonically.
pub open spec fn spec_round_helper(args: Seq<TokS>, data: Val, fuel: nat) -> Result<
    Seq<u8>,
    Seq<u8>,
>
    decreases fuel, 3int,
{
    if args.len() >= 2 {
        match spec_arg_val(args[0], data, fuel) {
            Err(e) => Err(e),
            Ok(a0) => match spec_val_i32(a0) {
                None => Err(msg_not_integer(spec_json_bytes(a0))),
                Some(k) => match spec_arg_val(args[1], data, fuel) {
                    Err(e) => Err(e),
                    Ok(a1) => match spec_val_dec(a1) {
                        None => Err(msg_not_float(spec_json_bytes(a1))),
                        Some(d) => Ok(spec_model_bytes(spec_round_model(d, k))),
                    },
                },
            },
        }
    } else if args.len() == 1 {
        match spec_arg_val(args[0], data, fuel) {
            Err(e) => Err(e),
            Ok(a0) => match spec_val_dec(a0) {
                None => Err(msg_not_float(spec_json_bytes(a0))),
                Some(d) => Ok(spec_model_bytes(spec_round_model(d, 0))),
            },
        }
    } else {
        Err(ascii_bytes("Could not read the first argument."@))
    }
}

/// What the power-of-ten rounding helper returns: as rounding, with
/// the sign of the count inverted.
pub open spec fn spec_roundup_helper(args: Seq<TokS>, data: Val, fuel: nat) -> Result<
    Seq<u8>,
    Seq<u8>,
>
    decreases fuel, 3int,
{
    if args.len() < 1 {
        Err(ascii_bytes("No arguments provided."@))
    } else {
        match spec_arg_val(args[0], data, fuel) {
            Err(e) => Err(e),
            Ok(a0) => match spec_val_i32(a0) {
                None => Err(msg_not_integer(spec_json_bytes(a0))),
                Some(k) => if args.len() < 2 {
                    Err(ascii_bytes("Only one argument provided. Requires: 'power' 'value'"@))
                } else {
                    match spec_arg_val(args[1], data, fuel) {
                        Err(e) => Err(e),
                        Ok(a1) => match spec_val_dec(a1) {
                            None => Err(msg_not_float(spec_json_bytes(a1))),
                            Some(d) => Ok(
                                spec_model_bytes(spec_round_model(d, spec_clamp_i32(-k))),
                            ),
                        },
                    }
                },
            },
        }
    }
}

/// A decimal read out of a strictly numeric value, as the paired-value
/// helper demands.
pub open spec fn spec_pm_dec(v: Val) -> Option<DecModel> {
    if v is Number {
        spec_parse_dec(v->Number_0)
    } else {
        None
    }
}

/// What the paired-value helper returns: the number at its path and
/// the number at the sibling key ending `_pm`, both rounded when a
/// count is given, joined by the plus-minus sign.
pub open spec fn spec_pm_helper(args: Seq<TokS>, data: Val, fuel: nat) -> Result<Seq<u8>, Seq<u8>>
    decreases fuel, 3int,
{
    if args.len() > 2 {
        Err(ascii_bytes("pm only takes two arguments. More were given."@))
    } else if args.len() == 0 {
        Err(ascii_bytes("No argument was given for pm"@))
    } else {
        let keytok = if args.len() == 2 {
            args[1]
        } else {
            args[0]
        };
        match keytok {
            TokS::Word(w) => if spec_word_lit(w) is Some {
                Err(msg_pm_not_path(spec_tok_text(keytok)))
            } else {
                spec_pm_lookup(w, args, data, fuel)
            },
            TokS::Group(_) => Err(msg_pm_not_path(spec_tok_text(keytok))),
        }
    }
}

/// The error text for a paired-value argument that names no path.
pub open spec fn msg_pm_not_path(t: Seq<u8>) -> Seq<u8> {
    ascii_bytes("pm argument: "@) + t + ascii_bytes(" is not a valid data path."@)
}

/// The path part of the paired-value helper.
pub open spec fn spec_pm_lookup(w: Seq<u8>, args: Seq<TokS>, data: Val, fuel: nat) -> Result<
    Seq<u8>,
    Seq<u8>,
>
    decreases fuel, 2int,
{
    let segs = spec_split_dots(w);
    let parent_path = segs.subrange(0, segs.len() - 1);
    let key = segs[segs.len() - 1];
    match spec_lookup(data, parent_path) {
        None => Err(msg_var_not_found(w)),
        Some(parent) => if !(parent is Object) {
            Err(msg_var_not_found(w))
        } else {
            match spec_obj_get(parent->Object_0, key) {
                None => Err(msg_var_not_found(w)),
                Some(v) => match spec_pm_dec(v) {
                    None => Err(
                        ascii_bytes("Could not parse value "@) + spec_json_bytes(v)
                            + ascii_bytes(" as float"@),
                    ),
                    Some(d1) => match spec_obj_get(
                        parent->Object_0,
                        key + ascii_bytes("_pm"@),
                    ) {
                        None => Err(key + ascii_bytes("_pm key not found"@)),
                        Some(pv) => match spec_pm_dec(pv) {
                            None => Err(
                                ascii_bytes("Could not parse pm value "@) + spec_json_bytes(pv)
                                    + ascii_bytes(" as float"@),
                            ),
                            Some(d2) => spec_pm_round(d1, d2, args, data, fuel),
                        },
                    },
                },
            }
        },
    }
}

/// The rounding and joining part of the paired-value helper.
pub open spec fn spec_pm_round(
    d1: DecModel,
    d2: DecModel,
    args: Seq<TokS>,
    data: Val,
    fuel: nat,
) -> Result<Seq<u8>, Seq<u8>>
    decreases fuel, 1int,
{
    if args.len() == 2 {
        match spec_arg_val(args[0], data, fuel) {
            Err(e) => Err(e),
            Ok(a0) => match spec_val_i32(a0) {
                None => Err(msg_not_integer(spec_json_bytes(a0))),
                Some(k) => Ok(
                    spec_model_bytes(spec_round_model(d1, k)) + ascii_bytes("$\\pm$"@)
                        + spec_model_bytes(spec_round_model(d2, k)),
                ),
            },
        }
    } else {
        Ok(
            spec_model_bytes(canon_model(d1.neg, d1.mant, d1.scale)) + ascii_bytes("$\\pm$"@)
                + spec_model_bytes(canon_model(d2.neg, d2.mant, d2.scale)),
        )
    }
}

/// The state of the separator scan: finished text, the digit run
/// being gathered, whether the scan stands inside a run, how many
/// consecutive points it just saw, and whether any run failed to
/// parse.
pub struct SepSt {
    pub out: Seq<u8>,
    pub buf: Seq<u8>,
    pub in_digit: bool,
    pub n_periods: int,
    pub failed: bool,
}

/// The scan's starting state.
pub open spec fn sep_init() -> SepSt {
    SepSt { out: Seq::<u8>::empty(), buf: Seq::<u8>::empty(), in_digit: false, n_periods: 0, failed: false }
}

/// Ends the gathered run: the run is read as a number and written
/// grouped; an unreadable run marks the scan failed.
pub open spec fn sep_flush(st: SepSt, sep: Seq<u8>) -> SepSt {
    if st.buf.len() == 0 {
        st
    } else {
        match spec_parse_dec(st.buf) {
            None => SepSt {
                out: st.out,
                buf: Seq::<u8>::empty(),
                in_digit: st.in_digit,
                n_periods: st.n_periods,
                failed: true,
            },
            Some(m) => SepSt {
                out: st.out + spec_sep_bytes(canon_model(m.neg, m.mant, m.scale), sep),
                buf: Seq::<u8>::empty(),
                in_digit: st.in_digit,
                n_periods: st.n_periods,
                failed: st.failed,
            },
        }
    }
}

/// One byte of the scan: a digit, or a first point following a run,
/// extends the run; anything else ends the run and is copied through.
pub open spec fn sep_step(st: SepSt, c: u8, sep: Seq<u8>) -> SepSt {
    let np: int = if c == 46 {
        st.n_periods + 1
    } else {
        0
    };
    let ind = (48 <= c <= 57) || (st.in_digit && np == 1);
    if ind {
        SepSt { out: st.out, buf: st.buf.push(c), in_digit: true, n_periods: np, failed: st.failed }
    } else {
        let f = sep_flush(st, sep);
        SepSt {
            out: f.out.push(c),
            buf: Seq::<u8>::empty(),
            in_digit: false,
            n_periods: np,
            failed: f.failed,
        }
    }
}

/// The scan state after the first `i` bytes.
pub open spec fn sep_scan(text: Seq<u8>, i: int, sep: Seq<u8>) -> SepSt
    decreases i,
{
    if i <= 0 {
        sep_init()
    } else {
        sep_step(sep_scan(text, i - 1, sep), text[i - 1], sep)
    }
}

/// The error text for a digit run that is no number.
pub open spec fn msg_sep_parse() -> Seq<u8> {
    ascii_bytes("Could not parse a numeric run inside the text."@)
}

/// What grouping a free text yields: every maximal run of digits and
/// single points is written as a grouped number, everything else is
/// copied through.
pub open spec fn spec_sep_text(text: Seq<u8>, sep: Seq<u8>) -> Result<Seq<u8>, Seq<u8>> {
    let f = sep_flush(sep_scan(text, text.len() as int, sep), sep);
    if f.failed {
        Err(msg_sep_parse())
    } else {
        Ok(f.out)
    }
}

/// What the separator helper returns: its argument's text with every
/// embedded number grouped by the context's `separator` key.
pub open spec fn spec_sep_helper(args: Seq<TokS>, data: Val, fuel: nat) -> Result<Seq<u8>, Seq<u8>>
    decreases fuel, 3int,
{
    if args.len() > 1 {
        Err(ascii_bytes("sep only takes one argument. More were given."@))
    } else if args.len() == 0 {
        Err(ascii_bytes("Could not read the argument of sep."@))
    } else if !(data is Object) {
        Err(msg_sep_missing())
    } else {
        match spec_obj_get(data->Object_0, ascii_bytes("separator"@)) {
            None => Err(msg_sep_missing()),
            Some(sv) => if !(sv is Text) {
                Err(ascii_bytes("The \"separator\" key must be a string."@))
            } else {
                match spec_arg_val(args[0], data, fuel) {
                    Err(e) => Err(e),
                    Ok(v) => spec_sep_text(
                        if v is Text {
                            v->Text_0
                        } else {
                            spec_json_bytes(v)
                        },
                        sv->Text_0,
                    ),
                }
            },
        }
    }
}

/// The error text for a missing `separator` key.
pub open spec fn msg_sep_missing() -> Seq<u8> {
    ascii_bytes("Could not find the \"separator\" key in the data file. Please add it."@)
}

/// What a placeholder's inside renders to: a lone word is a value
/// substitution, a leading helper name a helper call with the
/// remaining tokens as arguments.
pub open spec fn spec_invoke(inner: Seq<u8>, data: Val, fuel: nat) -> Result<Seq<u8>, Seq<u8>>
    decreases fuel, 4int,
{
    match spec_tokenize(inner, 0, (inner.len() + 1) as nat) {
        None => Err(msg_invalid()),
        Some(tokens) => if tokens.len() == 0 {
            Err(msg_empty_ph())
        } else {
            match tokens[0] {
                TokS::Word(w) => {
                    let args = tokens.subrange(1, tokens.len() as int);
                    if w == ascii_bytes("upper"@) {
                        spec_case_helper(true, args, data, fuel)
                    } else if w == ascii_bytes("lower"@) {
                        spec_case_helper(false, args, data, fuel)
                    } else if w == ascii_bytes("round"@) {
                        spec_round_helper(args, data, fuel)
                    } else if w == ascii_bytes("roundup"@) {
                        spec_roundup_helper(args, data, fuel)
                    } else if w == ascii_bytes("pm"@) {
                        spec_pm_helper(args, data, fuel)
                    } else if w == ascii_bytes("sep"@) {
                        spec_sep_helper(args, data, fuel)
                    } else if tokens.len() == 1 {
                        spec_path_render(w, data)
                    } else {
                        Err(msg_unknown_helper(w))
                    }
                },
                TokS::Group(_) => Err(msg_invalid()),
            }
        },
    }
}

/// Evaluates one helper argument.
#[verifier::spinoff_prover]
fn arg_val(tok: &Tok, data: &Value, fuel: usize) -> (r: Result<Value, Vec<u8>>)
    ensures
        match r {
            Ok(v) => spec_arg_val(tok@, data@, fuel as nat) matches Ok(sv) && v@ == sv,
            Err(e) => spec_arg_val(tok@, data@, fuel as nat) matches Err(m) && e@ == m,
        },
    decreases fuel, 0int,
{
    match tok {
        Tok::Word(w) => {
            match word_lit(w) {
                Some(v) => Ok(v),
                None => {
                    let path = split_dots(w);
                    proof {
                        assert(path_view(path@).skip(0) =~= path_view(path@));
                    }
                    match lookup(data, &path, 0) {
                        Some(v) => Ok(clone_value(v)),
                        None => Err(msg_var_not_found_bytes(w)),
                    }
                },
            }
        },
        Tok::Group(g) => {
            if fuel == 0 {
                proof {
                    reveal_strlit("Subexpressions nest too deeply");
                }
                Err(lit_bytes("Subexpressions nest too deeply"))
            } else {
                match invoke(g, data, fuel - 1) {
                    Ok(t) => Ok(Value::Text(t)),
                    Err(e) => Err(e),
                }
            }
        },
    }
}

/// The arguments of a helper call: every token after the name.
pub open spec fn helper_args(tokens: Seq<Tok>) -> Seq<TokS> {
    toks_view(tokens).subrange(1, tokens.len() as int)
}

/// Case-folds the single string argument.
#[verifier::spinoff_prover]
fn case_helper(upper: bool, tokens: &Vec<Tok>, data: &Value, fuel: usize) -> (r: Result<
    Vec<u8>,
    Vec<u8>,
>)
    requires
        tokens@.len() >= 1,
    ensures
        match r {
            Ok(t) => spec_case_helper(upper, helper_args(tokens@), data@, fuel as nat) matches Ok(
                st,
            ) && t@ == st,
            Err(e) => spec_case_helper(upper, helper_args(tokens@), data@, fuel as nat) matches
                Err(m) && e@ == m,
        },
    decreases fuel, 3int,
{
    proof {
        reveal_strlit("upper");
        reveal_strlit("lower");
        reveal_strlit(" takes one string argument");
    }
    let ghost args = helper_args(tokens@);
    let mut name = if upper {
        lit_bytes("upper")
    } else {
        lit_bytes("lower")
    };
    if tokens.len() < 2 {
        let tail = lit_bytes(" takes one string argument");
        push_text(&mut name, &tail);
        return Err(name);
    }
    proof {
        assert(args[0] == tokens@[1]@);
    }
    match arg_val(&tokens[1], data, fuel) {
        Err(e) => Err(e),
        Ok(v) => match v {
            Value::Text(t) => Ok(
                if upper {
                    upper_bytes(&t)
                } else {
                    lower_bytes(&t)
                },
            ),
            _ => {
                let tail = lit_bytes(" takes one string argument");
                push_text(&mut name, &tail);
                Err(name)
            },
        },
    }
}

/// Builds the not-an-integer error text.
fn msg_not_integer_bytes(v: &Value) -> (r: Vec<u8>)
    ensures
        r@ == msg_not_integer(spec_json_bytes(v@)),
{
    proof {
        reveal_strlit("Could not parse ");
        reveal_strlit(" as an integer.");
    }
    let mut m = lit_bytes("Could not parse ");
    let j = to_json_bytes(v);
    push_text(&mut m, &j);
    let tail = lit_bytes(" as an integer.");
    push_text(&mut m, &tail);
    m
}

/// Builds the not-a-number error text.
fn msg_not_float_bytes(v: &Value) -> (r: Vec<u8>)
    ensures
        r@ == msg_not_float(spec_json_bytes(v@)),
{
    proof {
        reveal_strlit("Could not parse ");
        reveal_strlit(" as a floating point value.");
    }
    let mut m = lit_bytes("Could not parse ");
    let j = to_json_bytes(v);
    push_text(&mut m, &j);
    let tail = lit_bytes(" as a floating point value.");
    push_text(&mut m, &tail);
    m
}

/// Rounds the value argument to the given count of decimals.
#[verifier::spinoff_prover]
fn round_helper(tokens: &Vec<Tok>, data: &Value, fuel: usize) -> (r: Result<Vec<u8>, Vec<u8>>)
    requires
        tokens@.len() >= 1,
    ensures
        match r {
            Ok(t) => spec_round_helper(helper_args(tokens@), data@, fuel as nat) matches Ok(st)
                && t@ == st,
            Err(e) => spec_round_helper(helper_args(tokens@), data@, fuel as nat) matches Err(m)
                && e@ == m,
        },
    decreases fuel, 3int,
{
    let ghost args = helper_args(tokens@);
    if tokens.len() >= 3 {
        proof {
            assert(args[0] == tokens@[1]@);
            assert(args[1] == tokens@[2]@);
        }
        let a0 = match arg_val(&tokens[1], data, fuel) {
            Ok(v) => v,
            Err(e) => {
                return Err(e);
            },
        };
        let k = match val_i32(&a0) {
            Some(k) => k,
            None => {
                return Err(msg_not_integer_bytes(&a0));
            },
        };
        let a1 = match arg_val(&tokens[2], data, fuel) {
            Ok(v) => v,
            Err(e) => {
                return Err(e);
            },
        };
        let d = match val_dec(&a1) {
            Some(d) => d,
            None => {
                return Err(msg_not_float_bytes(&a1));
            },
        };
        Ok(dec_to_bytes(&round_value(&d, k)))
    } else if tokens.len() == 2 {
        proof {
            assert(args[0] == tokens@[1]@);
        }
        let a0 = match arg_val(&tokens[1], data, fuel) {
            Ok(v) => v,
            Err(e) => {
                return Err(e);
            },
        };
        let d = match val_dec(&a0) {
            Some(d) => d,
            None => {
                return Err(msg_not_float_bytes(&a0));
            },
        };
        Ok(dec_to_bytes(&round_value(&d, 0)))
    } else {
        proof {
            reveal_strlit("Could not read the first argument.");
        }
        Err(lit_bytes("Could not read the first argument."))
    }
}

/// Rounds the value argument to the given power of ten.
#[verifier::rlimit(100)]
#[verifier::spinoff_prover]
fn roundup_helper(tokens: &Vec<Tok>, data: &Value, fuel: usize) -> (r: Result<Vec<u8>, Vec<u8>>)
    requires
        tokens@.len() >= 1,
    ensures
        match r {
            Ok(t) => spec_roundup_helper(helper_args(tokens@), data@, fuel as nat) matches Ok(st)
                && t@ == st,
            Err(e) => spec_roundup_helper(helper_args(tokens@), data@, fuel as nat) matches Err(
                m,
            ) && e@ == m,
        },
    decreases fuel, 3int,
{
    let ghost args = helper_args(tokens@);
    if tokens.len() < 2 {
        proof {
            reveal_strlit("No arguments provided.");
        }
        return Err(lit_bytes("No arguments provided."));
    }
    proof {
        assert(args[0] == tokens@[1]@);
    }
    let a0 = match arg_val(&tokens[1], data, fuel) {
        Ok(v) => v,
        Err(e) => {
            return Err(e);
        },
    };
    let k = match val_i32(&a0) {
        Some(k) => k,
        None => {
            return Err(msg_not_integer_bytes(&a0));
        },
    };
    if tokens.len() < 3 {
        proof {
            reveal_strlit("Only one argument provided. Requires: 'power' 'value'");
        }
        return Err(lit_bytes("Only one argument provided. Requires: 'power' 'value'"));
    }
    proof {
        assert(args[1] == tokens@[2]@);
    }
    let a1 = match arg_val(&tokens[2], data, fuel) {
        Ok(v) => v,
        Err(e) => {
            return Err(e);
        },
    };
    let d = match val_dec(&a1) {
        Some(d) => d,
        None => {
            return Err(msg_not_float_bytes(&a1));
        },
    };
    let neg_k: i32 = if k == i32::MIN {
        i32::MAX
    } else {
        -k
    };
    proof {
        assert(neg_k as int == spec_clamp_i32(-(k as int)));
    }
    Ok(dec_to_bytes(&round_value(&d, neg_k)))
}

/// Looks a value and its paired uncertainty up and writes them joined.
#[verifier::rlimit(100)]
#[verifier::spinoff_prover]
fn pm_helper(tokens: &Vec<Tok>, data: &Value, fuel: usize) -> (r: Result<Vec<u8>, Vec<u8>>)
    requires
        tokens@.len() >= 1,
    ensures
        match r {
            Ok(t) => spec_pm_helper(helper_args(tokens@), data@, fuel as nat) matches Ok(st) && t@
                == st,
            Err(e) => spec_pm_helper(helper_args(tokens@), data@, fuel as nat) matches Err(m)
                && e@ == m,
        },
    decreases fuel, 3int,
{
    let ghost args = helper_args(tokens@);
    if tokens.len() > 3 {
        proof {
            reveal_strlit("pm only takes two arguments. More were given.");
        }
        return Err(lit_bytes("pm only takes two arguments. More were given."));
    }
    if tokens.len() < 2 {
        proof {
            reveal_strlit("No argument was given for pm");
        }
        return Err(lit_bytes("No argument was given for pm"));
    }
    let two = tokens.len() == 3;
    let keytok = if two {
        &tokens[2]
    } else {
        &tokens[1]
    };
    proof {
        if two {
            assert(args[1] == tokens@[2]@);
        } else {
            assert(args[0] == tokens@[1]@);
        }
    }
    let w = match keytok {
        Tok::Word(w) => {
            match word_lit(w) {
                Some(_) => {
                    return Err(msg_pm_not_path_bytes(keytok));
                },
                None => w,
            }
        },
        Tok::Group(_) => {
            return Err(msg_pm_not_path_bytes(keytok));
        },
    };
    // Split the dotted path; the last segment names the value, the
    // rest its parent.
    let segs = split_dots(w);
    proof {
        assert(spec_split_dots(w@).len() >= 1);
        assert(path_view(segs@).len() == segs@.len());
    }
    let mut parent_path: Vec<Vec<u8>> = Vec::new();
    let mut si: usize = 0;
    while si < segs.len() - 1
        invariant
            segs@.len() >= 1,
            si <= segs@.len() - 1,
            parent_path@.len() == si,
            forall|k: int| 0 <= k < si ==> #[trigger] parent_path@[k]@ == segs@[k]@,
        decreases segs@.len() - si,
    {
        parent_path.push(copy_bytes(&segs[si]));
        si += 1;
    }
    let key = copy_bytes(&segs[segs.len() - 1]);
    proof {
        assert(path_view(parent_path@) =~= path_view(segs@).subrange(
            0,
            path_view(segs@).len() - 1,
        ));
        assert(key@ == path_view(segs@)[path_view(segs@).len() - 1]);
        assert(path_view(parent_path@).skip(0) =~= path_view(parent_path@));
    }
    let parent = match lookup(data, &parent_path, 0) {
        Some(p) => p,
        None => {
            return Err(msg_var_not_found_bytes(w));
        },
    };
    let entries = match parent {
        Value::Object(entries) => entries,
        _ => {
            return Err(msg_var_not_found_bytes(w));
        },
    };
    let value = match obj_get(entries, &key) {
        Some(v) => v,
        None => {
            return Err(msg_var_not_found_bytes(w));
        },
    };
    let d1 = match value {
        Value::Number(t) => match parse_dec(t) {
            Some(d) => d,
            None => {
                return Err(msg_pm_value_bytes(value));
            },
        },
        _ => {
            return Err(msg_pm_value_bytes(value));
        },
    };
    let mut pm_key = copy_bytes(&key);
    proof {
        reveal_strlit("_pm");
    }
    let pm_suffix = lit_bytes("_pm");
    push_text(&mut pm_key, &pm_suffix);
    let pm_value = match obj_get(entries, &pm_key) {
        Some(v) => v,
        None => {
            proof {
                reveal_strlit("_pm key not found");
            }
            let mut m = copy_bytes(&key);
            let tail = lit_bytes("_pm key not found");
            push_text(&mut m, &tail);
            return Err(m);
        },
    };
    let d2 = match pm_value {
        Value::Number(t) => match parse_dec(t) {
            Some(d) => d,
            None => {
                return Err(msg_pm_pm_bytes(pm_value));
            },
        },
        _ => {
            return Err(msg_pm_pm_bytes(pm_value));
        },
    };
    proof {
        reveal_strlit("$\\pm$");
    }
    let joiner = lit_bytes("$\\pm$");
    if two {
        proof {
            assert(args[0] == tokens@[1]@);
        }
        let a0 = match arg_val(&tokens[1], data, fuel) {
            Ok(v) => v,
            Err(e) => {
                return Err(e);
            },
        };
        let k = match val_i32(&a0) {
            Some(k) => k,
            None => {
                return Err(msg_not_integer_bytes(&a0));
            },
        };
        let mut out = dec_to_bytes(&round_value(&d1, k));
        push_text(&mut out, &joiner);
        let second = dec_to_bytes(&round_value(&d2, k));
        push_text(&mut out, &second);
        Ok(out)
    } else {
        let c1 = crate::numeric::canonize(d1);
        let c2 = crate::numeric::canonize(d2);
        let mut out = dec_to_bytes(&c1);
        push_text(&mut out, &joiner);
        let second = dec_to_bytes(&c2);
        push_text(&mut out, &second);
        Ok(out)
    }
}

/// Builds the not-a-path error text of the paired-value helper.
fn msg_pm_not_path_bytes(tok: &Tok) -> (r: Vec<u8>)
    ensures
        r@ == msg_pm_not_path(spec_tok_text(tok@)),
{
    proof {
        reveal_strlit("pm argument: ");
        reveal_strlit(" is not a valid data path.");
    }
    let mut m = lit_bytes("pm argument: ");
    match tok {
        Tok::Word(w) => {
            push_text(&mut m, w);
        },
        Tok::Group(g) => {
            m.push(40);
            push_text(&mut m, g);
            m.push(41);
            proof {
                assert(m@ =~= ascii_bytes("pm argument: "@) + (seq![40u8] + g@ + seq![41u8]));
            }
        },
    }
    let tail = lit_bytes(" is not a valid data path.");
    push_text(&mut m, &tail);
    m
}

/// Builds the unreadable-value error text of the paired-value helper.
fn msg_pm_value_bytes(v: &Value) -> (r: Vec<u8>)
    ensures
        r@ == ascii_bytes("Could not parse value "@) + spec_json_bytes(v@) + ascii_bytes(
            " as float"@,
        ),
{
    proof {
        reveal_strlit("Could not parse value ");
        reveal_strlit(" as float");
    }
    let mut m = lit_bytes("Could not parse value ");
    let j = to_json_bytes(v);
    push_text(&mut m, &j);
    let tail = lit_bytes(" as float");
    push_text(&mut m, &tail);
    m
}

/// Builds the unreadable-uncertainty error text of the paired-value
/// helper.
fn msg_pm_pm_bytes(v: &Value) -> (r: Vec<u8>)
    ensures
        r@ == ascii_bytes("Could not parse pm value "@) + spec_json_bytes(v@) + ascii_bytes(
            " as float"@,
        ),
{
    proof {
        reveal_strlit("Could not parse pm value ");
        reveal_strlit(" as float");
    }
    let mut m = lit_bytes("Could not parse pm value ");
    let j = to_json_bytes(v);
    push_text(&mut m, &j);
    let tail = lit_bytes(" as float");
    push_text(&mut m, &tail);
    m
}

/// Groups every number embedded in the argument's text.
#[verifier::rlimit(100)]
#[verifier::spinoff_prover]
fn sep_helper(tokens: &Vec<Tok>, data: &Value, fuel: usize) -> (r: Result<Vec<u8>, Vec<u8>>)
    requires
        tokens@.len() >= 1,
    ensures
        match r {
            Ok(t) => spec_sep_helper(helper_args(tokens@), data@, fuel as nat) matches Ok(st)
                && t@ == st,
            Err(e) => spec_sep_helper(helper_args(tokens@), data@, fuel as nat) matches Err(m)
                && e@ == m,
        },
    decreases fuel, 3int,
{
    let ghost args = helper_args(tokens@);
    if tokens.len() > 2 {
        proof {
            reveal_strlit("sep only takes one argument. More were given.");
        }
        return Err(lit_bytes("sep only takes one argument. More were given."));
    }
    if tokens.len() < 2 {
        proof {
            reveal_strlit("Could not read the argument of sep.");
        }
        return Err(lit_bytes("Could not read the argument of sep."));
    }
    let entries = match data {
        Value::Object(entries) => entries,
        _ => {
            return Err(msg_sep_missing_bytes());
        },
    };
    proof {
        reveal_strlit("separator");
    }
    let sep_key = lit_bytes("separator");
    let sep = match obj_get(entries, &sep_key) {
        Some(Value::Text(t)) => copy_bytes(t),
        Some(_) => {
            proof {
                reveal_strlit("The \"separator\" key must be a string.");
            }
            return Err(lit_bytes("The \"separator\" key must be a string."));
        },
        None => {
            return Err(msg_sep_missing_bytes());
        },
    };
    proof {
        assert(args[0] == tokens@[1]@);
    }
    let v = match arg_val(&tokens[1], data, fuel) {
        Ok(v) => v,
        Err(e) => {
            return Err(e);
        },
    };
    let text = match &v {
        Value::Text(t) => copy_bytes(t),
        _ => to_json_bytes(&v),
    };
    // Scan the text: gather maximal runs of digits and single points,
    // group each run, copy everything else through.
    let mut out: Vec<u8> = Vec::new();
    let mut buf: Vec<u8> = Vec::new();
    let mut in_digit = false;
    let mut n_periods: usize = 0;
    let mut failed = false;
    let mut i: usize = 0;
    while i < text.len()
        invariant
            i <= text@.len(),
            n_periods <= i,
            ({
                let st = sep_scan(text@, i as int, sep@);
                out@ == st.out && buf@ == st.buf && in_digit == st.in_digit && n_periods as int
                    == st.n_periods && failed == st.failed
            }),
        decreases text@.len() - i,
    {
        let ghost st = sep_scan(text@, i as int, sep@);
        let c = text[i];
        let np: usize = if c == 46 {
            n_periods + 1
        } else {
            0
        };
        let ind = (48 <= c && c <= 57) || (in_digit && np == 1);
        if ind {
            buf.push(c);
            in_digit = true;
            n_periods = np;
        } else {
            if buf.len() > 0 {
                match parse_dec(&buf) {
                    None => {
                        failed = true;
                    },
                    Some(d) => {
                        let grouped = add_separators(&d, &sep);
                        push_text(&mut out, &grouped);
                    },
                }
            }
            out.push(c);
            buf.clear();
            in_digit = false;
            n_periods = np;
        }
        proof {
            assert(sep_scan(text@, (i + 1) as int, sep@) == sep_step(st, text@[i as int], sep@));
        }
        i += 1;
    }
    let ghost st = sep_scan(text@, text@.len() as int, sep@);
    if buf.len() > 0 {
        match parse_dec(&buf) {
            None => {
                failed = true;
            },
            Some(d) => {
                let grouped = add_separators(&d, &sep);
                push_text(&mut out, &grouped);
            },
        }
    }
    if failed {
        proof {
            reveal_strlit("Could not parse a numeric run inside the text.");
        }
        Err(lit_bytes("Could not parse a numeric run inside the text."))
    } else {
        Ok(out)
    }
}

/// Builds the missing-separator error text.
fn msg_sep_missing_bytes() -> (r: Vec<u8>)
    ensures
        r@ == msg_sep_missing(),
{
    proof {
        reveal_strlit("Could not find the \"separator\" key in the data file. Please add it.");
    }
    lit_bytes("Could not find the \"separator\" key in the data file. Please add it.")
}

/// Renders a placeholder's inside.
#[verifier::rlimit(100)]
#[verifier::spinoff_prover]
fn invoke(inner: &Vec<u8>, data: &Value, fuel: usize) -> (r: Result<Vec<u8>, Vec<u8>>)
    ensures
        match r {
            Ok(t) => spec_invoke(inner@, data@, fuel as nat) matches Ok(st) && t@ == st,
            Err(e) => spec_invoke(inner@, data@, fuel as nat) matches Err(m) && e@ == m,
        },
    decreases fuel, 4int,
{
    proof {
        reveal_strlit("Invalid placeholder syntax");
        reveal_strlit("Empty placeholder");
        reveal_strlit("upper");
        reveal_strlit("lower");
        reveal_strlit("round");
        reveal_strlit("roundup");
        reveal_strlit("pm");
        reveal_strlit("sep");
    }
    let tokens = match tokenize(inner, 0, Ghost((inner@.len() + 1) as nat)) {
        None => {
            return Err(lit_bytes("Invalid placeholder syntax"));
        },
        Some(ts) => ts,
    };
    if tokens.len() == 0 {
        return Err(lit_bytes("Empty placeholder"));
    }
    proof {
        assert(toks_view(tokens@)[0] == tokens@[0]@);
    }
    match &tokens[0] {
        Tok::Word(w) => {
            if bytes_eq(w, &lit_bytes("upper")) {
                case_helper(true, &tokens, data, fuel)
            } else if bytes_eq(w, &lit_bytes("lower")) {
                case_helper(false, &tokens, data, fuel)
            } else if bytes_eq(w, &lit_bytes("round")) {
                round_helper(&tokens, data, fuel)
            } else if bytes_eq(w, &lit_bytes("roundup")) {
                roundup_helper(&tokens, data, fuel)
            } else if bytes_eq(w, &lit_bytes("pm")) {
                pm_helper(&tokens, data, fuel)
            } else if bytes_eq(w, &lit_bytes("sep")) {
                sep_helper(&tokens, data, fuel)
            } else if tokens.len() == 1 {
                path_render(w, data)
            } else {
                proof {
                    reveal_strlit("Helper not defined: ");
                }
                let mut m = lit_bytes("Helper not defined: ");
                push_text(&mut m, w);
                Err(m)
            }
        },
        Tok::Group(_) => Err(lit_bytes("Invalid placeholder syntax")),
    }
}

/// A placeholder's opening delimiter.
pub open spec fn open_braces() -> Seq<u8> {
    ascii_bytes("{{"@)
}

/// A placeholder's closing delimiter.
pub open spec fn close_braces() -> Seq<u8> {
    ascii_bytes("}}"@)
}

/// The error text for a placeholder without its closing delimiter.
pub open spec fn msg_unclosed_ph() -> Seq<u8> {
    ascii_bytes("Unclosed placeholder"@)
}

/// How deep inner invocations may nest.
pub open spec fn sub_fuel() -> nat {
    16
}

/// What a line renders to, from position `pos` on: the text around
/// every placeholder is kept, each placeholder becomes what its inside
/// renders to, and the first failing placeholder fails the line with
/// its one-based column and message.
pub open spec fn spec_render_from(line: Seq<u8>, pos: int, data: Val, fuel: nat) -> Result<
    Seq<u8>,
    (int, Seq<u8>),
>
    decreases fuel,
{
    if fuel == 0 || pos < 0 || pos > line.len() {
        Err((0, msg_invalid()))
    } else {
        match spec_find_from(line, open_braces(), pos) {
            None => Ok(line.subrange(pos, line.len() as int)),
            Some(a) => match spec_find_from(line, close_braces(), a + 2) {
                None => Err((a + 1, msg_unclosed_ph())),
                Some(b) => {
                    let inner = line.subrange(a + 2, b);
                    match spec_invoke(inner, data, sub_fuel()) {
                        Err(m) => Err((a + 1, m)),
                        Ok(t) => match spec_render_from(line, b + 2, data, (fuel - 1) as nat) {
                            Err(e) => Err(e),
                            Ok(rest) => Ok(line.subrange(pos, a) + t + rest),
                        },
                    }
                },
            },
        }
    }
}

/// What one whole line renders to.
pub open spec fn spec_render_line(line: Seq<u8>, data: Val) -> Result<Seq<u8>, (int, Seq<u8>)> {
    spec_render_from(line, 0, data, (line.len() + 1) as nat)
}

/// The exec mirror of [`spec_render_from`].
fn render_from(line: &Vec<u8>, pos: usize, data: &Value, fuel: Ghost<nat>) -> (r: Result<
    Vec<u8>,
    (usize, Vec<u8>),
>)
    requires
        pos <= line@.len(),
        fuel@ >= line@.len() - pos + 1,
    ensures
        match r {
            Ok(t) => spec_render_from(line@, pos as int, data@, fuel@) matches Ok(st) && t@ == st,
            Err(e) => spec_render_from(line@, pos as int, data@, fuel@) matches Err(m) && e.0
                == m.0 && e.1@ == m.1,
        },
    decreases line@.len() - pos,
{
    proof {
        reveal_strlit("{{");
        reveal_strlit("}}");
        reveal_strlit("Unclosed placeholder");
    }
    let open = lit_bytes("{{");
    let close = lit_bytes("}}");
    let n = line.len();
    match find_sub_from(line, &open, pos) {
        None => Ok(copy_range(line, pos, n)),
        Some(a) => {
            proof {
                crate::textutil::lemma_find_is_match(line@, open@, pos as int, a as int);
            }
            match find_sub_from(line, &close, a + 2) {
                None => Err((a + 1, lit_bytes("Unclosed placeholder"))),
                Some(b) => {
                    proof {
                        crate::textutil::lemma_find_is_match(
                            line@,
                            close@,
                            (a + 2) as int,
                            b as int,
                        );
                    }
                    let inner = copy_range(line, a + 2, b);
                    match invoke(&inner, data, 16) {
                        Err(m) => Err((a + 1, m)),
                        Ok(t) => {
                            match render_from(line, b + 2, data, Ghost((fuel@ - 1) as nat)) {
                                Err(e) => Err(e),
                                Ok(rest) => {
                                    let mut out = copy_range(line, pos, a);
                                    push_text(&mut out, &t);
                                    push_text(&mut out, &rest);
                                    proof {
                                        assert(out@ =~= line@.subrange(pos as int, a as int) + t@
                                            + rest@);
                                    }
                                    Ok(out)
                                },
                            }
                        },
                    }
                },
            }
        },
    }
}

/// Renders one line against the resolved context.
pub fn render_line(line: &Vec<u8>, data: &Value) -> (r: Result<Vec<u8>, (usize, Vec<u8>)>)
    ensures
        match r {
            Ok(t) => spec_render_line(line@, data@) matches Ok(st) && t@ == st,
            Err(e) => spec_render_line(line@, data@) matches Err(m) && e.0 == m.0 && e.1@ == m.1,
        },
{
    render_from(line, 0, data, Ghost((line@.len() + 1) as nat))
}

/// One warning line: the failing line's one-based number, the column,
/// and the message.
pub open spec fn spec_warning(i: int, col: int, m: Seq<u8>) -> Seq<u8> {
    ascii_bytes("WARNING L"@) + spec_udec((i + 1) as nat) + ascii_bytes("C"@) + spec_udec(
        col as nat,
    ) + ascii_bytes(": "@) + m
}

/// What rendering a whole document yields, from line `i` on: the
/// rendered lines, each failing line kept as it was, and one warning
/// for each failing line, in line order.
pub open spec fn spec_fill(lines: Seq<Seq<u8>>, ctx: Val, i: int) -> (Seq<Seq<u8>>, Seq<Seq<u8>>)
    decreases lines.len() - i,
{
    if i < 0 || i >= lines.len() {
        (Seq::<Seq<u8>>::empty(), Seq::<Seq<u8>>::empty())
    } else {
        let rest = spec_fill(lines, ctx, i + 1);
        match spec_render_line(lines[i], ctx) {
            Ok(t) => (seq![t] + rest.0, rest.1),
            Err(e) => (seq![lines[i]] + rest.0, seq![spec_warning(i, e.0, e.1)] + rest.1),
        }
    }
}

/// Rendering a document keeps its line count.
pub proof fn lemma_fill_line_count(lines: Seq<Seq<u8>>, ctx: Val, i: int)
    requires
        0 <= i <= lines.len(),
    ensures
        spec_fill(lines, ctx, i).0.len() == lines.len() - i,
    decreases lines.len() - i,
{
    if i < lines.len() {
        lemma_fill_line_count(lines, ctx, i + 1);
    }
}

/// How many lines from `i` on fail to render.
pub open spec fn spec_fail_count(lines: Seq<Seq<u8>>, ctx: Val, i: int) -> int
    decreases lines.len() - i,
{
    if i < 0 || i >= lines.len() {
        0
    } else {
        (if spec_render_line(lines[i], ctx) is Err {
            1int
        } else {
            0int
        }) + spec_fail_count(lines, ctx, i + 1)
    }
}

/// A rendered document carries exactly one warning for each line that
/// failed to render, and none for any other.
pub proof fn lemma_fill_warning_count(lines: Seq<Seq<u8>>, ctx: Val, i: int)
    requires
        0 <= i <= lines.len(),
    ensures
        spec_fill(lines, ctx, i).1.len() == spec_fail_count(lines, ctx, i),
    decreases lines.len() - i,
{
    if i < lines.len() {
        lemma_fill_warning_count(lines, ctx, i + 1);
    }
}

/// A rendered document: the lines, and one warning for each line that
/// failed to render.
pub struct Rendered {
    pub lines: Vec<Vec<u8>>,
    pub warnings: Vec<Vec<u8>>,
}

/// The model of a sequence of byte strings.
pub open spec fn texts_view(lines: Seq<Vec<u8>>) -> Seq<Seq<u8>> {
    Seq::new(lines.len(), |i: int| lines[i]@)
}

/// Builds one warning line.
fn warning_bytes(i: usize, col: usize, m: &Vec<u8>) -> (r: Vec<u8>)
    requires
        i < usize::MAX,
    ensures
        r@ == spec_warning(i as int, col as int, m@),
{
    proof {
        reveal_strlit("WARNING L");
        reveal_strlit("C");
        reveal_strlit(": ");
    }
    let mut out = lit_bytes("WARNING L");
    let num = format_u64((i + 1) as u64);
    push_text(&mut out, &num);
    let c = lit_bytes("C");
    push_text(&mut out, &c);
    let coln = format_u64(col as u64);
    push_text(&mut out, &coln);
    let colon = lit_bytes(": ");
    push_text(&mut out, &colon);
    push_text(&mut out, m);
    out
}

/// Fills a document with data: the context is resolved once, then
/// every line is rendered independently against it. A line whose
/// rendering fails is kept as it was and yields exactly one warning
/// naming its one-based number; all other lines are unaffected. Only a
/// failure of the context resolution itself fails the whole run.
#[verifier::rlimit(100)]
pub fn fill_data(lines: &Vec<Vec<u8>>, data: &Value) -> (r: Result<Rendered, Vec<u8>>)
    ensures
        match r {
            Ok(out) => spec_resolve(data@) matches Ok(ctx) && (
            texts_view(out.lines@),
            texts_view(out.warnings@),
            ) == spec_fill(texts_view(lines@), ctx, 0) && out.lines@.len() == lines@.len()
                && out.warnings@.len() == spec_fail_count(texts_view(lines@), ctx, 0),
            Err(e) => spec_resolve(data@) matches Err(m) && e@ == m,
        },
{
    let parsed_data = match evaluate_all_expressions(data) {
        Ok(v) => v,
        Err(e) => {
            return Err(e);
        },
    };
    let ghost ctx = parsed_data@;
    let ghost lv = texts_view(lines@);
    let mut new_lines: Vec<Vec<u8>> = Vec::new();
    let mut warnings: Vec<Vec<u8>> = Vec::new();
    let mut i: usize = 0;
    #[verifier::loop_isolation(false)]
    while i < lines.len()
        invariant
            i <= lines@.len(),
            spec_fill(lv, ctx, 0).0 == texts_view(new_lines@) + spec_fill(lv, ctx, i as int).0,
            spec_fill(lv, ctx, 0).1 == texts_view(warnings@) + spec_fill(lv, ctx, i as int).1,
        decreases lines@.len() - i,
    {
        proof {
            assert(lv[i as int] == lines@[i as int]@);
        }
        let ghost pre_l = texts_view(new_lines@);
        let ghost pre_w = texts_view(warnings@);
        match render_line(&lines[i], &parsed_data) {
            Ok(t) => {
                new_lines.push(t);
            },
            Err((col, m)) => {
                new_lines.push(copy_bytes(&lines[i]));
                warnings.push(warning_bytes(i, col, &m));
            },
        }
        proof {
            let step = spec_fill(lv, ctx, i as int);
            let rest = spec_fill(lv, ctx, (i + 1) as int);
            match spec_render_line(lv[i as int], ctx) {
                Ok(t) => {
                    assert(texts_view(new_lines@) =~= pre_l.push(t));
                    assert(pre_l.push(t) =~= pre_l + seq![t]);
                    assert(pre_l + (seq![t] + rest.0) =~= (pre_l + seq![t]) + rest.0);
                },
                Err(e) => {
                    assert(texts_view(new_lines@) =~= pre_l.push(lv[i as int]));
                    assert(texts_view(warnings@) =~= pre_w.push(
                        spec_warning(i as int, e.0, e.1),
                    ));
                    assert(pre_l + (seq![lv[i as int]] + rest.0) =~= (pre_l + seq![
                        lv[i as int],
                    ]) + rest.0);
                    assert(pre_w + (seq![spec_warning(i as int, e.0, e.1)] + rest.1) =~= (pre_w
                        + seq![spec_warning(i as int, e.0, e.1)]) + rest.1);
                },
            }
        }
        i += 1;
    }
    proof {
        assert(spec_fill(lv, ctx, i as int).0 =~= Seq::<Seq<u8>>::empty());
        assert(spec_fill(lv, ctx, i as int).1 =~= Seq::<Seq<u8>>::empty());
        assert(texts_view(new_lines@) =~= texts_view(new_lines@) + spec_fill(
            lv,
            ctx,
            i as int,
        ).0);
        assert(texts_view(warnings@) =~= texts_view(warnings@) + spec_fill(lv, ctx, i as int).1);
        lemma_fill_line_count(lv, ctx, 0);
        lemma_fill_warning_count(lv, ctx, 0);
    }
    Ok(Rendered { lines: new_lines, warnings })
}

} // verus!
