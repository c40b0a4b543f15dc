//! Expression evaluation and context resolution.
//!
//! A formula is evaluated against the data context: first every other
//! expression whose dotted path occurs in the formula text is evaluated
//! (recursively, guarded by a depth ceiling that catches circular
//! references) and substituted; then the remaining arithmetic runs on
//! the expression engine against the context's values. The context
//! resolver walks all located expressions in order and writes each
//! result back into a copy of the tree.
use vstd::prelude::*;

use crate::formula::{eval_formula, spec_eval_formula};
use crate::textutil::{
    ascii_bytes, contains_sub, copy_range, find_sub_from, join_dotted, lit_bytes, replace_all,
    spec_contains_sub, spec_find_from, spec_join_dotted, spec_replace_all, spec_trim, trim,
};
use crate::value::{
    clone_value, expr_marker, exprs_view, find_expressions, keys_unique,
    lemma_no_located_no_exprs, lemma_replace_exprs, lemma_replace_keys_unique, marker_bytes,
    msg_key_not_found, no_exprs, path_view, replace_value_in_data, spec_exprs, spec_replace,
    Val, Value,
};

verus! {

/// The maximum depth of recursive expression references.
pub const MAX_DEPTH: usize = 1000;

/// The error text when a formula's run fails: the engine's message,
/// with a spelling hint when a null value was involved, since a null
/// usually means a reference to a key that does not exist.
pub open spec fn msg_eval_error(expr: Seq<u8>, err: Seq<u8>) -> Seq<u8> {
    let hint: Seq<u8> = if spec_contains_sub(err, ascii_bytes("Null"@)) {
        ascii_bytes(". Perhaps a key is misspelled?"@)
    } else {
        Seq::<u8>::empty()
    };
    ascii_bytes("Error in expression: '"@) + expr + ascii_bytes("': "@) + err + hint
}

/// The error text when the depth ceiling is crossed.
pub open spec fn msg_recursion(expr: Seq<u8>) -> Seq<u8> {
    ascii_bytes("Max recursion depth reached for expression: '"@) + expr + ascii_bytes(
        "'. Maybe due to a circular expression?"@,
    )
}

/// What running one already-substituted formula against the context
/// yields: the numeric result's text, or the engine's error wrapped
/// with the formula.
pub open spec fn spec_run_eval(formula: Seq<u8>, data: Val) -> Result<Seq<u8>, Seq<u8>> {
    match spec_eval_formula(formula, data) {
        Ok(t) => Ok(t),
        Err(m) => Err(msg_eval_error(formula, m)),
    }
}

/// The formula text without its first expression marker, trimmed.
pub open spec fn spec_strip_marker(s: Seq<u8>) -> Seq<u8> {
    match spec_find_from(s, expr_marker(), 0) {
        Some(i) => spec_trim(
            s.subrange(0, i) + s.subrange(i + expr_marker().len(), s.len() as int),
        ),
        None => spec_trim(s),
    }
}

/// The remaining recursion budget, used as a termination measure.
pub open spec fn depth_left(depth: int) -> int {
    if depth > 1000 {
        0
    } else {
        1001 - depth
    }
}

/// What evaluating an expression yields: beyond the depth ceiling, a
/// recursion error; otherwise the marker is stripped and every located
/// expression of the context whose dotted path occurs in the text is
/// evaluated first and substituted, before the result runs on the
/// engine.
pub open spec fn spec_evaluate(expression: Seq<u8>, data: Val, depth: int) -> Result<
    Seq<u8>,
    Seq<u8>,
>
    decreases depth_left(depth), 1int, 0int,
{
    if depth > 1000 {
        Err(msg_recursion(expression))
    } else {
        spec_eval_subst(
            spec_strip_marker(expression),
            spec_exprs(data, Seq::<Seq<u8>>::empty()),
            0,
            data,
            depth,
        )
    }
}

/// The substitution pass from position `idx` on, ending in the
/// engine's run.
pub open spec fn spec_eval_subst(
    cur: Seq<u8>,
    exprs: Seq<(Seq<Seq<u8>>, Seq<u8>)>,
    idx: int,
    data: Val,
    depth: int,
) -> Result<Seq<u8>, Seq<u8>>
    decreases depth_left(depth), 0int, exprs.len() - idx,
{
    if depth > 1000 {
        Err(msg_recursion(cur))
    } else if idx < 0 || idx >= exprs.len() {
        spec_run_eval(cur, data)
    } else {
        let dotted = spec_join_dotted(exprs[idx].0);
        if spec_contains_sub(cur, dotted) {
            match spec_evaluate(exprs[idx].1, data, depth + 1) {
                Err(e) => Err(e),
                Ok(t) => spec_eval_subst(
                    spec_replace_all(cur, dotted, t),
                    exprs,
                    idx + 1,
                    data,
                    depth,
                ),
            }
        } else {
            spec_eval_subst(cur, exprs, idx + 1, data, depth)
        }
    }
}

/// Appends `mid` to `out`.
fn push_all(out: &mut Vec<u8>, mid: &Vec<u8>)
    ensures
        final(out)@ == old(out)@ + mid@,
{
    out.extend_from_slice(mid.as_slice());
    proof {
        crate::numeric::byte_copy_exact(out@);
        assert(out@ =~= old(out)@ + mid@);
    }
}

/// Builds the recursion error text.
fn msg_recursion_bytes(expr: &Vec<u8>) -> (r: Vec<u8>)
    ensures
        r@ == msg_recursion(expr@),
{
    proof {
        reveal_strlit("Max recursion depth reached for expression: '");
        reveal_strlit("'. Maybe due to a circular expression?");
    }
    let mut out = lit_bytes("Max recursion depth reached for expression: '");
    push_all(&mut out, expr);
    let tail = lit_bytes("'. Maybe due to a circular expression?");
    push_all(&mut out, &tail);
    out
}

/// Evaluates a formula against the context on the expression engine,
/// and wraps any failure in a descriptive error naming the formula.
pub fn run_eval(expr_string: &Vec<u8>, data: &Value) -> (r: Result<Value, Vec<u8>>)
    ensures
        match r {
            Ok(v) => spec_run_eval(expr_string@, data@) matches Ok(t) && v@ == Val::Number(t),
            Err(e) => spec_run_eval(expr_string@, data@) matches Err(m) && e@ == m,
        },
{
    match eval_formula(expr_string, data) {
        Ok(t) => Ok(Value::Number(t)),
        Err(errtext) => {
            proof {
                reveal_strlit("Error in expression: '");
                reveal_strlit("': ");
                reveal_strlit("Null");
                reveal_strlit(". Perhaps a key is misspelled?");
            }
            let mut m = lit_bytes("Error in expression: '");
            push_all(&mut m, expr_string);
            let mid = lit_bytes("': ");
            push_all(&mut m, &mid);
            push_all(&mut m, &errtext);
            let null_word = lit_bytes("Null");
            if contains_sub(&errtext, &null_word) {
                let hint = lit_bytes(". Perhaps a key is misspelled?");
                push_all(&mut m, &hint);
            }
            Err(m)
        },
    }
}

/// Evaluates an expression; other expressions it refers to by dotted
/// path are recursively evaluated first and substituted into the
/// formula text. A depth beyond the ceiling fails with a recursion
/// error, which is how circular references surface.
pub fn evaluate_expression(expression: &Vec<u8>, data: &Value, recursion_depth: usize) -> (r:
    Result<Value, Vec<u8>>)
    ensures
        match r {
            Ok(v) => spec_evaluate(expression@, data@, recursion_depth as int) matches Ok(t) && v@
                == Val::Number(t),
            Err(e) => spec_evaluate(expression@, data@, recursion_depth as int) matches Err(m)
                && e@ == m,
        },
    decreases 1001 - recursion_depth,
{
    if recursion_depth > MAX_DEPTH {
        return Err(msg_recursion_bytes(expression));
    }
    // Strip the first expression marker and the surrounding space.
    let marker = marker_bytes();
    let mut cur: Vec<u8>;
    match find_sub_from(expression, &marker, 0) {
        Some(i) => {
            proof {
                crate::textutil::lemma_find_is_match(expression@, marker@, 0, i as int);
            }
            let n = expression.len();
            let mut head = copy_range(expression, 0, i);
            let tail = copy_range(expression, i + marker.len(), n);
            push_all(&mut head, &tail);
            cur = trim(&head);
        },
        None => {
            cur = trim(expression);
        },
    }
    let ghost stripped = spec_strip_marker(expression@);
    proof {
        assert(cur@ == stripped);
    }
    let exprs = find_expressions(data, None);
    let ghost exprs_spec = spec_exprs(data@, Seq::<Seq<u8>>::empty());
    proof {
        assert(exprs_view(exprs@) == exprs_spec);
        assert(exprs_view(exprs@).len() == exprs@.len());
    }
    let mut idx: usize = 0;
    while idx < exprs.len()
        invariant
            idx <= exprs@.len(),
            recursion_depth <= 1000,
            *data == *data,
            exprs_spec == spec_exprs(data@, Seq::<Seq<u8>>::empty()),
            exprs_view(exprs@) == exprs_spec,
            exprs_spec.len() == exprs@.len(),
            spec_evaluate(expression@, data@, recursion_depth as int) == spec_eval_subst(
                cur@,
                exprs_spec,
                idx as int,
                data@,
                recursion_depth as int,
            ),
        decreases exprs@.len() - idx,
    {
        proof {
            assert(exprs_spec[idx as int] == (path_view(exprs@[idx as int].0@),
                exprs@[idx as int].1@));
        }
        let dotted = join_dotted(&exprs[idx].0);
        if contains_sub(&cur, &dotted) {
            match evaluate_expression(&exprs[idx].1, data, recursion_depth + 1) {
                Ok(v) => {
                    match v {
                        Value::Number(t) => {
                            cur = replace_all(&cur, &dotted, &t);
                        },
                        _ => {
                            proof {
                                assert(false);
                            }
                            return Err(Vec::new());
                        },
                    }
                },
                Err(e) => {
                    return Err(e);
                },
            }
        }
        idx += 1;
    }
    let r = run_eval(&cur, data);
    proof {
        assert(spec_eval_subst(cur@, exprs_spec, idx as int, data@, recursion_depth as int)
            == spec_run_eval(cur@, data@));
    }
    r
}

/// The error text for a failed expression, named by its dotted path
/// and its original formula text.
pub open spec fn msg_expr_error(dotted: Seq<u8>, expr: Seq<u8>, e: Seq<u8>) -> Seq<u8> {
    ascii_bytes("Error for expression in '"@) + dotted + ascii_bytes("' ('"@) + expr + ascii_bytes(
        "'): "@,
    ) + e
}

/// The error text for a write to a missing path.
pub open spec fn msg_set_error(dotted: Seq<u8>, e: Seq<u8>) -> Seq<u8> {
    ascii_bytes("Error setting key '"@) + dotted + ascii_bytes("': "@) + e
}

/// What resolving a context yields: each expression located in the
/// original tree is evaluated against the evolving tree, in order, and
/// its numeric result written at its path; the first failure aborts the
/// run.
pub open spec fn spec_resolve(data: Val) -> Result<Val, Seq<u8>> {
    spec_resolve_from(data, spec_exprs(data, Seq::<Seq<u8>>::empty()), 0)
}

/// The resolution pass from position `idx` on.
pub open spec fn spec_resolve_from(
    cur: Val,
    exprs: Seq<(Seq<Seq<u8>>, Seq<u8>)>,
    idx: int,
) -> Result<Val, Seq<u8>>
    decreases exprs.len() - idx,
{
    if idx < 0 || idx >= exprs.len() {
        Ok(cur)
    } else {
        match spec_evaluate(exprs[idx].1, cur, 0) {
            Err(e) => Err(msg_expr_error(spec_join_dotted(exprs[idx].0), exprs[idx].1, e)),
            Ok(t) => match spec_replace(cur, exprs[idx].0, Val::Number(t)) {
                None => Err(
                    msg_set_error(spec_join_dotted(exprs[idx].0), msg_key_not_found()),
                ),
                Some(c) => spec_resolve_from(c, exprs, idx + 1),
            },
        }
    }
}

/// Resolves the context: evaluates every expression in the tree, in
/// declaration order, against the evolving copy, and replaces each
/// with its numeric result. The input tree is left untouched; any
/// evaluation or write failure aborts the whole resolution.
pub fn evaluate_all_expressions(data: &Value) -> (r: Result<Value, Vec<u8>>)
    ensures
        match r {
            Ok(out) => spec_resolve(data@) matches Ok(v) && out@ == v,
            Err(e) => spec_resolve(data@) matches Err(m) && e@ == m,
        },
{
    let mut new_data = clone_value(data);
    let exprs = find_expressions(data, None);
    let ghost exprs_spec = spec_exprs(data@, Seq::<Seq<u8>>::empty());
    proof {
        assert(exprs_view(exprs@) == exprs_spec);
        assert(exprs_view(exprs@).len() == exprs@.len());
    }
    let mut idx: usize = 0;
    while idx < exprs.len()
        invariant
            idx <= exprs@.len(),
            exprs_view(exprs@) == exprs_spec,
            exprs_spec.len() == exprs@.len(),
            spec_resolve(data@) == spec_resolve_from(new_data@, exprs_spec, idx as int),
        decreases exprs@.len() - idx,
    {
        proof {
            assert(exprs_spec[idx as int] == (path_view(exprs@[idx as int].0@),
                exprs@[idx as int].1@));
        }
        let new_value = match evaluate_expression(&exprs[idx].1, &new_data, 0) {
            Ok(v) => v,
            Err(e) => {
                proof {
                    reveal_strlit("Error for expression in '");
                    reveal_strlit("' ('");
                    reveal_strlit("'): ");
                }
                let dotted = join_dotted(&exprs[idx].0);
                let mut m = lit_bytes("Error for expression in '");
                push_all(&mut m, &dotted);
                let mid = lit_bytes("' ('");
                push_all(&mut m, &mid);
                push_all(&mut m, &exprs[idx].1);
                let mid2 = lit_bytes("'): ");
                push_all(&mut m, &mid2);
                push_all(&mut m, &e);
                return Err(m);
            },
        };
        new_data = match replace_value_in_data(&new_data, &exprs[idx].0, new_value) {
            Ok(out) => out,
            Err(e) => {
                proof {
                    reveal_strlit("Error setting key '");
                    reveal_strlit("': ");
                }
                let dotted = join_dotted(&exprs[idx].0);
                let mut m = lit_bytes("Error setting key '");
                push_all(&mut m, &dotted);
                let mid = lit_bytes("': ");
                push_all(&mut m, &mid);
                push_all(&mut m, &e);
                return Err(m);
            },
        };
        idx += 1;
    }
    Ok(new_data)
}

/// While resolution runs, every expression still located in the
/// evolving tree lies at a path the remaining work list names; once
/// the list is done, nothing is located any more.
proof fn lemma_resolve_clears(
    cur: Val,
    exprs: Seq<(Seq<Seq<u8>>, Seq<u8>)>,
    idx: int,
    r: Val,
)
    requires
        0 <= idx,
        keys_unique(cur),
        spec_resolve_from(cur, exprs, idx) == Ok::<Val, Seq<u8>>(r),
        forall|e: (Seq<Seq<u8>>, Seq<u8>)|
            #[trigger] spec_exprs(cur, Seq::<Seq<u8>>::empty()).contains(e) ==> exists|j: int|
                idx <= j < exprs.len() && (#[trigger] exprs[j]).0 == e.0,
    ensures
        spec_exprs(r, Seq::<Seq<u8>>::empty()).len() == 0,
    decreases exprs.len() - idx,
{
    let empty_path = Seq::<Seq<u8>>::empty();
    if idx < 0 || idx >= exprs.len() {
        assert(r == cur);
        if spec_exprs(cur, empty_path).len() > 0 {
            let e = spec_exprs(cur, empty_path)[0];
            assert(spec_exprs(cur, empty_path).contains(e));
            assert(exists|j: int| idx <= j < exprs.len() && (#[trigger] exprs[j]).0 == e.0);
            let j = choose|j: int| idx <= j < exprs.len() && (#[trigger] exprs[j]).0 == e.0;
            assert(false);
        }
    } else {
        let t = spec_evaluate(exprs[idx].1, cur, 0)->Ok_0;
        let path = exprs[idx].0;
        assert(path.len() >= 1) by {
            if path.len() == 0 {
                assert(spec_replace(cur, path, Val::Number(t)) is None);
            }
        }
        let c = spec_replace(cur, path, Val::Number(t)).unwrap();
        lemma_replace_exprs(cur, path, t, c, empty_path);
        lemma_replace_keys_unique(cur, path, Val::Number(t), c);
        assert forall|e: (Seq<Seq<u8>>, Seq<u8>)|
            #[trigger] spec_exprs(c, empty_path).contains(e) implies exists|j: int|
                idx + 1 <= j < exprs.len() && (#[trigger] exprs[j]).0 == e.0 by {
            assert(spec_exprs(cur, empty_path).contains(e) && e.0 != empty_path + path);
            assert(empty_path + path =~= path);
            let j = choose|j: int| idx <= j < exprs.len() && (#[trigger] exprs[j]).0 == e.0;
            assert(j != idx);
            assert(idx + 1 <= j < exprs.len() && exprs[j].0 == e.0);
        }
        lemma_resolve_clears(c, exprs, idx + 1, r);
    }
}

/// For every context whose maps carry unique keys, a resolution that
/// succeeds leaves no text beginning with the expression marker
/// anywhere in its result: each located expression has been replaced
/// by its numeric value, replacement reaches every one of them, and a
/// number can hide none.
pub proof fn lemma_resolved_no_exprs(data: Val, r: Val)
    requires
        keys_unique(data),
        spec_resolve(data) == Ok::<Val, Seq<u8>>(r),
    ensures
        no_exprs(r),
{
    let empty_path = Seq::<Seq<u8>>::empty();
    let exprs = spec_exprs(data, empty_path);
    assert forall|e: (Seq<Seq<u8>>, Seq<u8>)| #[trigger] spec_exprs(data, empty_path).contains(e)
        implies exists|j: int| 0 <= j < exprs.len() && (#[trigger] exprs[j]).0 == e.0 by {
        let m = choose|m: int| 0 <= m < exprs.len() && exprs[m] == e;
        assert(exprs[m].0 == e.0);
    }
    lemma_resolve_clears(data, exprs, 0, r);
    lemma_no_located_no_exprs(r, empty_path);
}

} // verus!
