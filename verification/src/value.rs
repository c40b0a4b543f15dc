//! The data-context tree.
//!
//! A tagged, recursive value: null, boolean, number (held as its
//! decimal text), text, list, or map with insertion-ordered keys. The
//! tree mirrors a JSON- or TOML-like document; a text leaf whose
//! trimmed content starts with the expression marker is a computed
//! value, evaluated by the context resolver before rendering.
use vstd::prelude::*;

use crate::numeric::copy_bytes;
use crate::textutil::{
    ascii_bytes, copy_range, find_sub_from, lit_bytes, spec_find_from, spec_starts_with,
    spec_trim, starts_with, trim,
};

verus! {

/// An exec data-context value.
#[derive(Debug, PartialEq, Eq)]
pub enum Value {
    Null,
    Bool(bool),
    /// A number, held exactly as its decimal text.
    Number(Vec<u8>),
    Text(Vec<u8>),
    List(Vec<Value>),
    /// Insertion-ordered key-value pairs.
    Object(Vec<(Vec<u8>, Value)>),
}

/// The mathematical shape of a data-context value.
pub enum Val {
    Null,
    Bool(bool),
    Number(Seq<u8>),
    Text(Seq<u8>),
    List(Seq<Val>),
    Object(Seq<(Seq<u8>, Val)>),
}

/// The model of an exec value.
pub open spec fn val_of(v: Value) -> Val
    decreases v,
{
    if v is Bool {
        Val::Bool(v->Bool_0)
    } else if v is Number {
        Val::Number(v->Number_0@)
    } else if v is Text {
        Val::Text(v->Text_0@)
    } else if v is List {
        Val::List(vals_of(v->List_0@))
    } else if v is Object {
        Val::Object(entry_vals_of(v->Object_0@))
    } else {
        Val::Null
    }
}

/// The models of a sequence of values.
pub open spec fn vals_of(items: Seq<Value>) -> Seq<Val>
    decreases items,
{
    if items.len() == 0 {
        Seq::<Val>::empty()
    } else {
        seq![val_of(items[0])] + vals_of(items.subrange(1, items.len() as int))
    }
}

/// The models of a sequence of key-value entries.
pub open spec fn entry_vals_of(entries: Seq<(Vec<u8>, Value)>) -> Seq<(Seq<u8>, Val)>
    decreases entries,
{
    if entries.len() == 0 {
        Seq::<(Seq<u8>, Val)>::empty()
    } else {
        seq![(entries[0].0@, val_of(entries[0].1))] + entry_vals_of(
            entries.subrange(1, entries.len() as int),
        )
    }
}

/// How the element models line up with the elements.
pub proof fn lemma_vals_of(items: Seq<Value>)
    ensures
        vals_of(items).len() == items.len(),
        forall|i: int| 0 <= i < items.len() ==> vals_of(items)[i] == val_of(#[trigger] items[i]),
    decreases items.len(),
{
    if items.len() > 0 {
        let tail = items.subrange(1, items.len() as int);
        lemma_vals_of(tail);
        assert forall|i: int| 0 <= i < items.len()
            implies vals_of(items)[i] == val_of(#[trigger] items[i]) by {
            if i == 0 {
                assert(vals_of(items)[0] == val_of(items[0]));
            } else {
                assert(vals_of(items)[i] == vals_of(tail)[i - 1]);
                assert(tail[i - 1] == items[i]);
            }
        }
    }
}

/// How the entry models line up with the entries.
pub proof fn lemma_entry_vals_of(entries: Seq<(Vec<u8>, Value)>)
    ensures
        entry_vals_of(entries).len() == entries.len(),
        forall|i: int| 0 <= i < entries.len() ==> entry_vals_of(entries)[i] == (
            #[trigger] entries[i].0@,
            val_of(entries[i].1),
        ),
    decreases entries.len(),
{
    if entries.len() > 0 {
        let tail = entries.subrange(1, entries.len() as int);
        lemma_entry_vals_of(tail);
        assert forall|i: int| 0 <= i < entries.len()
            implies entry_vals_of(entries)[i] == (#[trigger] entries[i].0@, val_of(entries[i].1))
            by {
            if i == 0 {
                assert(entry_vals_of(entries)[0] == (entries[0].0@, val_of(entries[0].1)));
            } else {
                assert(entry_vals_of(entries)[i] == entry_vals_of(tail)[i - 1]);
                assert(tail[i - 1] == entries[i]);
            }
        }
    }
}

impl View for Value {
    type V = Val;

    open spec fn view(&self) -> Val {
        val_of(*self)
    }
}

/// An exact copy of a value tree.
pub fn clone_value(v: &Value) -> (r: Value)
    ensures
        r@ == v@,
    decreases v,
{
    match v {
        Value::Null => Value::Null,
        Value::Bool(b) => Value::Bool(*b),
        Value::Number(t) => Value::Number(copy_bytes(t)),
        Value::Text(t) => Value::Text(copy_bytes(t)),
        Value::List(items) => {
            let mut out: Vec<Value> = Vec::new();
            let mut i: usize = 0;
            while i < items.len()
                invariant
                    i <= items@.len(),
                    *v == Value::List(*items),
                    out@.len() == i,
                    forall|k: int| 0 <= k < i ==> out@[k]@ == items@[k]@,
                decreases items@.len() - i,
            {
                proof {
                    assert(decreases_to!(v => items@[i as int])) by {
                        assert(decreases_to!(*v => v->List_0));
                        assert(decreases_to!(v->List_0 => v->List_0@));
                        assert(decreases_to!(v->List_0@ => v->List_0@[i as int]));
                    }
                }
                let c = clone_value(&items[i]);
                out.push(c);
                i += 1;
            }
            let r = Value::List(out);
            proof {
                lemma_vals_of(out@);
                lemma_vals_of(items@);
                assert forall|k: int| 0 <= k < out@.len()
                    implies vals_of(out@)[k] == vals_of(items@)[k] by {
                    assert(out@[k]@ == items@[k]@);
                }
                assert(vals_of(out@) =~= vals_of(items@));
            }
            r
        },
        Value::Object(entries) => {
            let mut out: Vec<(Vec<u8>, Value)> = Vec::new();
            let mut i: usize = 0;
            while i < entries.len()
                invariant
                    i <= entries@.len(),
                    *v == Value::Object(*entries),
                    out@.len() == i,
                    forall|k: int| 0 <= k < i ==> #[trigger] out@[k].0@ == entries@[k].0@
                        && out@[k].1@ == entries@[k].1@,
                decreases entries@.len() - i,
            {
                proof {
                    assert(decreases_to!(v => entries@[i as int].1)) by {
                        assert(decreases_to!(*v => v->Object_0));
                        assert(decreases_to!(v->Object_0 => v->Object_0@));
                        assert(decreases_to!(v->Object_0@ => v->Object_0@[i as int]));
                        assert(decreases_to!(v->Object_0@[i as int] => v->Object_0@[i as int].1));
                    }
                }
                let k = copy_bytes(&entries[i].0);
                let c = clone_value(&entries[i].1);
                out.push((k, c));
                i += 1;
            }
            let r = Value::Object(out);
            proof {
                lemma_entry_vals_of(out@);
                lemma_entry_vals_of(entries@);
                assert forall|k: int| 0 <= k < out@.len()
                    implies entry_vals_of(out@)[k] == entry_vals_of(entries@)[k] by {
                    assert(out@[k].0@ == entries@[k].0@ && out@[k].1@ == entries@[k].1@);
                }
                assert(entry_vals_of(out@) =~= entry_vals_of(entries@));
            }
            r
        },
    }
}

/// The prefix that marks a text leaf as a computed expression.
pub open spec fn expr_marker() -> Seq<u8> {
    ascii_bytes("expr:"@)
}

/// The expression marker as bytes.
pub fn marker_bytes() -> (r: Vec<u8>)
    ensures
        r@ == expr_marker(),
{
    proof {
        reveal_strlit("expr:");
    }
    lit_bytes("expr:")
}

/// A text leaf is an expression when its trimmed content begins with
/// the marker.
pub open spec fn is_expression(t: Seq<u8>) -> bool {
    spec_starts_with(spec_trim(t), expr_marker())
}

/// The model of a dotted path: the byte string of each segment.
pub open spec fn path_view(p: Seq<Vec<u8>>) -> Seq<Seq<u8>> {
    Seq::new(p.len(), |i: int| p[i]@)
}

/// The value under `key` in an entry sequence: the first entry with
/// that key.
pub open spec fn spec_obj_get(entries: Seq<(Seq<u8>, Val)>, key: Seq<u8>) -> Option<Val>
    decreases entries.len(),
{
    if entries.len() == 0 {
        None
    } else if entries[0].0 == key {
        Some(entries[0].1)
    } else {
        spec_obj_get(entries.subrange(1, entries.len() as int), key)
    }
}

/// The value a dotted path leads to: each step reads one map key.
pub open spec fn spec_lookup(v: Val, path: Seq<Seq<u8>>) -> Option<Val>
    decreases path.len(),
{
    if path.len() == 0 {
        Some(v)
    } else if v is Object {
        match spec_obj_get(v->Object_0, path[0]) {
            Some(child) => spec_lookup(child, path.subrange(1, path.len() as int)),
            None => None,
        }
    } else {
        None
    }
}

/// Finds the first entry with the given key.
pub fn obj_get<'a>(entries: &'a Vec<(Vec<u8>, Value)>, key: &Vec<u8>) -> (r: Option<&'a Value>)
    ensures
        match r {
            Some(c) => spec_obj_get(entry_vals_of(entries@), key@) == Some(c@),
            None => spec_obj_get(entry_vals_of(entries@), key@) is None,
        },
{
    let ghost evs = entry_vals_of(entries@);
    proof {
        lemma_entry_vals_of(entries@);
        assert(evs.subrange(0, evs.len() as int) =~= evs);
    }
    let mut i: usize = 0;
    while i < entries.len()
        invariant
            i <= entries@.len(),
            evs == entry_vals_of(entries@),
            evs.len() == entries@.len(),
            forall|k: int| 0 <= k < entries@.len() ==> evs[k] == (
                #[trigger] entries@[k].0@,
                val_of(entries@[k].1),
            ),
            spec_obj_get(evs, key@) == spec_obj_get(
                evs.subrange(i as int, evs.len() as int),
                key@,
            ),
        decreases entries@.len() - i,
    {
        let ghost rest = evs.subrange(i as int, evs.len() as int);
        if crate::textutil::bytes_eq(&entries[i].0, key) {
            proof {
                assert(rest[0] == (entries@[i as int].0@, val_of(entries@[i as int].1)));
            }
            return Some(&entries[i].1);
        }
        proof {
            assert(rest[0] == (entries@[i as int].0@, val_of(entries@[i as int].1)));
            assert(rest.subrange(1, rest.len() as int) =~= evs.subrange(
                (i + 1) as int,
                evs.len() as int,
            ));
        }
        i += 1;
    }
    proof {
        assert(evs.subrange(i as int, evs.len() as int) =~= Seq::<(Seq<u8>, Val)>::empty());
    }
    None
}

/// Follows a dotted path into the tree.
pub fn lookup<'a>(v: &'a Value, path: &Vec<Vec<u8>>, from: usize) -> (r: Option<&'a Value>)
    requires
        from <= path@.len(),
    ensures
        match r {
            Some(c) => spec_lookup(v@, path_view(path@).skip(from as int)) == Some(c@),
            None => spec_lookup(v@, path_view(path@).skip(from as int)) is None,
        },
    decreases path@.len() - from,
{
    let ghost p = path_view(path@).skip(from as int);
    if from == path.len() {
        proof {
            assert(p.len() == 0);
        }
        return Some(v);
    }
    proof {
        assert(p[0] == path@[from as int]@);
    }
    match v {
        Value::Object(entries) => {
            match obj_get(entries, &path[from]) {
                Some(child) => {
                    let r = lookup(child, path, from + 1);
                    proof {
                        assert(p.subrange(1, p.len() as int) =~= path_view(path@).skip(
                            (from + 1) as int,
                        ));
                    }
                    r
                },
                None => None,
            }
        },
        _ => None,
    }
}

/// The located expressions of a value: every expression text leaf,
/// paired with the dotted path of map keys above it, in declaration
/// order. List membership does not extend the path.
pub open spec fn spec_exprs(v: Val, parent: Seq<Seq<u8>>) -> Seq<(Seq<Seq<u8>>, Seq<u8>)>
    decreases v,
{
    if v is List {
        spec_exprs_list(v->List_0, parent)
    } else if v is Object {
        spec_exprs_obj(v->Object_0, parent)
    } else if v is Text && is_expression(v->Text_0) {
        seq![(parent, v->Text_0)]
    } else {
        Seq::<(Seq<Seq<u8>>, Seq<u8>)>::empty()
    }
}

/// The located expressions of the members of a list, in order.
pub open spec fn spec_exprs_list(items: Seq<Val>, parent: Seq<Seq<u8>>) -> Seq<
    (Seq<Seq<u8>>, Seq<u8>),
>
    decreases items,
{
    if items.len() == 0 {
        Seq::<(Seq<Seq<u8>>, Seq<u8>)>::empty()
    } else {
        spec_exprs(items[0], parent) + spec_exprs_list(
            items.subrange(1, items.len() as int),
            parent,
        )
    }
}

/// The located expressions of the entries of a map, in order; each key
/// extends the path.
pub open spec fn spec_exprs_obj(entries: Seq<(Seq<u8>, Val)>, parent: Seq<Seq<u8>>) -> Seq<
    (Seq<Seq<u8>>, Seq<u8>),
>
    decreases entries,
{
    if entries.len() == 0 {
        Seq::<(Seq<Seq<u8>>, Seq<u8>)>::empty()
    } else {
        spec_exprs(entries[0].1, parent.push(entries[0].0)) + spec_exprs_obj(
            entries.subrange(1, entries.len() as int),
            parent,
        )
    }
}

proof fn lemma_exprs_list_snoc(items: Seq<Val>, x: Val, parent: Seq<Seq<u8>>)
    ensures
        spec_exprs_list(items.push(x), parent) == spec_exprs_list(items, parent) + spec_exprs(
            x,
            parent,
        ),
    decreases items.len(),
{
    let whole = items.push(x);
    if items.len() == 0 {
        assert(whole[0] == x);
        assert(whole.subrange(1, whole.len() as int) =~= Seq::<Val>::empty());
        assert(spec_exprs_list(Seq::<Val>::empty(), parent)
            == Seq::<(Seq<Seq<u8>>, Seq<u8>)>::empty());
        assert(spec_exprs_list(whole, parent) =~= spec_exprs(x, parent));
        assert(spec_exprs_list(items, parent) + spec_exprs(x, parent) =~= spec_exprs(x, parent));
    } else {
        assert(whole[0] == items[0]);
        assert(whole.subrange(1, whole.len() as int) =~= items.subrange(
            1,
            items.len() as int,
        ).push(x));
        lemma_exprs_list_snoc(items.subrange(1, items.len() as int), x, parent);
        assert(spec_exprs_list(whole, parent) =~= spec_exprs_list(items, parent) + spec_exprs(
            x,
            parent,
        ));
    }
}

proof fn lemma_exprs_obj_snoc(entries: Seq<(Seq<u8>, Val)>, x: (Seq<u8>, Val), parent: Seq<Seq<u8>>)
    ensures
        spec_exprs_obj(entries.push(x), parent) == spec_exprs_obj(entries, parent) + spec_exprs(
            x.1,
            parent.push(x.0),
        ),
    decreases entries.len(),
{
    let whole = entries.push(x);
    if entries.len() == 0 {
        assert(whole[0] == x);
        assert(whole.subrange(1, whole.len() as int) =~= Seq::<(Seq<u8>, Val)>::empty());
        assert(spec_exprs_obj(Seq::<(Seq<u8>, Val)>::empty(), parent)
            == Seq::<(Seq<Seq<u8>>, Seq<u8>)>::empty());
        assert(spec_exprs_obj(whole, parent) =~= spec_exprs(x.1, parent.push(x.0)));
        assert(spec_exprs_obj(entries, parent) + spec_exprs(x.1, parent.push(x.0)) =~= spec_exprs(
            x.1,
            parent.push(x.0),
        ));
    } else {
        assert(whole[0] == entries[0]);
        assert(whole.subrange(1, whole.len() as int) =~= entries.subrange(
            1,
            entries.len() as int,
        ).push(x));
        lemma_exprs_obj_snoc(entries.subrange(1, entries.len() as int), x, parent);
        assert(spec_exprs_obj(whole, parent) =~= spec_exprs_obj(entries, parent) + spec_exprs(
            x.1,
            parent.push(x.0),
        ));
    }
}

/// The model of a list of located expressions.
pub open spec fn exprs_view(out: Seq<(Vec<Vec<u8>>, Vec<u8>)>) -> Seq<(Seq<Seq<u8>>, Seq<u8>)> {
    Seq::new(out.len(), |i: int| (path_view(out[i].0@), out[i].1@))
}

/// Copies a dotted path.
pub fn clone_path(p: &Vec<Vec<u8>>) -> (r: Vec<Vec<u8>>)
    ensures
        path_view(r@) == path_view(p@),
        r@.len() == p@.len(),
{
    let mut r: Vec<Vec<u8>> = Vec::new();
    let mut i: usize = 0;
    while i < p.len()
        invariant
            i <= p@.len(),
            r@.len() == i,
            forall|k: int| 0 <= k < i ==> #[trigger] r@[k]@ == p@[k]@,
        decreases p@.len() - i,
    {
        r.push(copy_bytes(&p[i]));
        i += 1;
    }
    proof {
        assert(path_view(r@) =~= path_view(p@));
    }
    r
}

/// Recursively finds every expression in the tree: each is returned as
/// its dotted key path and its full text, in declaration order.
pub fn find_expressions(data: &Value, parent: Option<&Vec<Vec<u8>>>) -> (r: Vec<
    (Vec<Vec<u8>>, Vec<u8>),
>)
    ensures
        exprs_view(r@) == spec_exprs(
            data@,
            match parent {
                Some(p) => path_view(p@),
                None => Seq::<Seq<u8>>::empty(),
            },
        ),
    decreases data,
{
    let relative_parent: Vec<Vec<u8>> = match parent {
        Some(p) => clone_path(p),
        None => Vec::new(),
    };
    let ghost pv = path_view(relative_parent@);
    proof {
        match parent {
            Some(p) => {
                assert(pv == path_view(p@));
            },
            None => {
                assert(pv =~= Seq::<Seq<u8>>::empty());
            },
        }
    }
    let mut output: Vec<(Vec<Vec<u8>>, Vec<u8>)> = Vec::new();
    match data {
        Value::List(items) => {
            let ghost ivals = vals_of(items@);
            proof {
                lemma_vals_of(items@);
            }
            let mut i: usize = 0;
            while i < items.len()
                invariant
                    i <= items@.len(),
                    *data == Value::List(*items),
                    pv == path_view(relative_parent@),
                    ivals == vals_of(items@),
                    ivals.len() == items@.len(),
                    forall|k: int| 0 <= k < items@.len() ==> ivals[k] == val_of(
                        #[trigger] items@[k],
                    ),
                    exprs_view(output@) == spec_exprs_list(ivals.subrange(0, i as int), pv),
                decreases items@.len() - i,
            {
                proof {
                    assert(decreases_to!(data => items@[i as int])) by {
                        assert(decreases_to!(*data => data->List_0));
                        assert(decreases_to!(data->List_0 => data->List_0@));
                        assert(decreases_to!(data->List_0@ => data->List_0@[i as int]));
                    }
                }
                let ghost pre = output@;
                let mut sub = find_expressions(&items[i], Some(&relative_parent));
                let ghost subv = sub@;
                output.append(&mut sub);
                proof {
                    assert(output@ =~= pre + subv);
                    assert forall|k: int| 0 <= k < pre.len() + subv.len()
                        implies exprs_view(pre + subv)[k] == (exprs_view(pre) + exprs_view(
                        subv,
                    ))[k] by {
                        if k < pre.len() {
                            assert((pre + subv)[k] == pre[k]);
                        } else {
                            assert((pre + subv)[k] == subv[k - pre.len()]);
                        }
                    }
                    assert(exprs_view(pre + subv) =~= exprs_view(pre) + exprs_view(subv));
                    assert(ivals[i as int] == val_of(items@[i as int]));
                    assert(exprs_view(subv) == spec_exprs(ivals[i as int], pv));
                    assert(ivals.subrange(0, (i + 1) as int) =~= ivals.subrange(
                        0,
                        i as int,
                    ).push(ivals[i as int]));
                    lemma_exprs_list_snoc(ivals.subrange(0, i as int), ivals[i as int], pv);
                }
                i += 1;
            }
            proof {
                assert(ivals.subrange(0, ivals.len() as int) =~= ivals);
            }
        },
        Value::Object(entries) => {
            let ghost evals = entry_vals_of(entries@);
            proof {
                lemma_entry_vals_of(entries@);
            }
            let mut i: usize = 0;
            while i < entries.len()
                invariant
                    i <= entries@.len(),
                    *data == Value::Object(*entries),
                    evals == entry_vals_of(entries@),
                    evals.len() == entries@.len(),
                    pv == path_view(relative_parent@),
                    forall|k: int| 0 <= k < entries@.len() ==> evals[k] == (
                        #[trigger] entries@[k].0@,
                        val_of(entries@[k].1),
                    ),
                    exprs_view(output@) == spec_exprs_obj(evals.subrange(0, i as int), pv),
                decreases entries@.len() - i,
            {
                proof {
                    assert(decreases_to!(data => entries@[i as int].1)) by {
                        assert(decreases_to!(*data => data->Object_0));
                        assert(decreases_to!(data->Object_0 => data->Object_0@));
                        assert(decreases_to!(data->Object_0@ => data->Object_0@[i as int]));
                        assert(decreases_to!(
                            data->Object_0@[i as int] => data->Object_0@[i as int].1));
                    }
                }
                let mut relative_parent2 = clone_path(&relative_parent);
                relative_parent2.push(copy_bytes(&entries[i].0));
                proof {
                    assert(path_view(relative_parent2@) =~= pv.push(entries@[i as int].0@));
                }
                let ghost pre = output@;
                let mut sub = find_expressions(&entries[i].1, Some(&relative_parent2));
                let ghost subv = sub@;
                output.append(&mut sub);
                proof {
                    assert(output@ =~= pre + subv);
                    assert forall|k: int| 0 <= k < pre.len() + subv.len()
                        implies exprs_view(pre + subv)[k] == (exprs_view(pre) + exprs_view(
                        subv,
                    ))[k] by {
                        if k < pre.len() {
                            assert((pre + subv)[k] == pre[k]);
                        } else {
                            assert((pre + subv)[k] == subv[k - pre.len()]);
                        }
                    }
                    assert(exprs_view(pre + subv) =~= exprs_view(pre) + exprs_view(subv));
                    assert(evals[i as int] == (entries@[i as int].0@, val_of(entries@[i as int].1)));
                    assert(exprs_view(subv) == spec_exprs(
                        evals[i as int].1,
                        pv.push(evals[i as int].0),
                    ));
                    assert(evals.subrange(0, (i + 1) as int) =~= evals.subrange(
                        0,
                        i as int,
                    ).push(evals[i as int]));
                    lemma_exprs_obj_snoc(evals.subrange(0, i as int), evals[i as int], pv);
                }
                i += 1;
            }
            proof {
                assert(evals.subrange(0, evals.len() as int) =~= evals);
            }
        },
        Value::Text(t) => {
            let trimmed = trim(t);
            let marker = marker_bytes();
            if starts_with(&trimmed, &marker) {
                output.push((relative_parent, copy_bytes(t)));
                proof {
                    assert(exprs_view(output@) =~= seq![(pv, t@)]);
                }
            } else {
                proof {
                    assert(exprs_view(output@) =~= Seq::<(Seq<Seq<u8>>, Seq<u8>)>::empty());
                }
            }
        },
        _ => {
            proof {
                assert(exprs_view(output@) =~= Seq::<(Seq<Seq<u8>>, Seq<u8>)>::empty());
            }
        },
    }
    output
}

/// A dotted word split into path segments.
pub open spec fn spec_split_dots(w: Seq<u8>) -> Seq<Seq<u8>>
    decreases w.len(),
{
    match spec_find_from(w, seq![46u8], 0) {
        None => seq![w],
        Some(i) => if 0 <= i < w.len() {
            seq![w.subrange(0, i)] + spec_split_dots(w.subrange(i + 1, w.len() as int))
        } else {
            seq![w]
        },
    }
}

/// Splits a dotted word into its path segments.
pub fn split_dots(w: &Vec<u8>) -> (r: Vec<Vec<u8>>)
    ensures
        path_view(r@) == spec_split_dots(w@),
    decreases w@.len(),
{
    let mut dot: Vec<u8> = Vec::new();
    dot.push(46);
    proof {
        assert(dot@ =~= seq![46u8]);
    }
    match find_sub_from(w, &dot, 0) {
        None => {
            let mut r: Vec<Vec<u8>> = Vec::new();
            r.push(copy_bytes(w));
            proof {
                assert(path_view(r@) =~= seq![w@]);
            }
            r
        },
        Some(i) => {
            proof {
                crate::textutil::lemma_find_is_match(w@, dot@, 0, i as int);
            }
            let n = w.len();
            let head = copy_range(w, 0, i);
            let tail = copy_range(w, i + 1, n);
            let rest = split_dots(&tail);
            let mut r: Vec<Vec<u8>> = Vec::new();
            r.push(head);
            let mut j: usize = 0;
            while j < rest.len()
                invariant
                    j <= rest@.len(),
                    i < w@.len(),
                    r@.len() == j + 1,
                    r@[0]@ == w@.subrange(0, i as int),
                    forall|k: int| 0 <= k < j ==> #[trigger] r@[k + 1]@ == rest@[k]@,
                decreases rest@.len() - j,
            {
                r.push(copy_bytes(&rest[j]));
                j += 1;
            }
            proof {
                let target = seq![w@.subrange(0, i as int)] + path_view(rest@);
                assert forall|m: int| 0 <= m < r@.len()
                    implies path_view(r@)[m] == target[m] by {
                    if m >= 1 {
                        assert(r@[(m - 1) + 1]@ == rest@[m - 1]@);
                    }
                }
                assert(path_view(r@) =~= target);
            }
            r
        },
    }
}

/// The position of the first entry with the given key.
pub open spec fn spec_obj_index(entries: Seq<(Seq<u8>, Val)>, key: Seq<u8>) -> Option<int>
    decreases entries.len(),
{
    if entries.len() == 0 {
        None
    } else if entries[0].0 == key {
        Some(0int)
    } else {
        match spec_obj_index(entries.subrange(1, entries.len() as int), key) {
            Some(j) => Some(j + 1),
            None => None,
        }
    }
}

/// The tree with the value at `path` replaced. Replacement never
/// creates structure: a missing key, a non-map on the way, or an empty
/// path is a failure.
pub open spec fn spec_replace(v: Val, path: Seq<Seq<u8>>, nv: Val) -> Option<Val>
    decreases path.len(),
{
    if path.len() == 0 || !(v is Object) {
        None
    } else {
        let entries = v->Object_0;
        match spec_obj_index(entries, path[0]) {
            None => None,
            Some(i) => if path.len() == 1 {
                Some(Val::Object(entries.update(i, (path[0], nv))))
            } else {
                match spec_replace(entries[i].1, path.subrange(1, path.len() as int), nv) {
                    None => None,
                    Some(c) => Some(Val::Object(entries.update(i, (entries[i].0, c)))),
                }
            },
        }
    }
}

/// The error text for a write to a missing path.
pub open spec fn msg_key_not_found() -> Seq<u8> {
    ascii_bytes("Key not found"@)
}

/// Finds the position of the first entry with the given key.
fn obj_index(entries: &Vec<(Vec<u8>, Value)>, key: &Vec<u8>) -> (r: Option<usize>)
    ensures
        match r {
            Some(i) => i < entries@.len() && spec_obj_index(entry_vals_of(entries@), key@)
                == Some(i as int),
            None => spec_obj_index(entry_vals_of(entries@), key@) is None,
        },
{
    let ghost evs = entry_vals_of(entries@);
    proof {
        lemma_entry_vals_of(entries@);
    }
    let mut i: usize = 0;
    while i < entries.len()
        invariant
            i <= entries@.len(),
            evs == entry_vals_of(entries@),
            evs.len() == entries@.len(),
            forall|k: int| 0 <= k < entries@.len() ==> evs[k] == (
                #[trigger] entries@[k].0@,
                val_of(entries@[k].1),
            ),
            forall|k: int| 0 <= k < i ==> #[trigger] evs[k].0 != key@,
        decreases entries@.len() - i,
    {
        if crate::textutil::bytes_eq(&entries[i].0, key) {
            proof {
                lemma_obj_index_at(evs, key@, i as int);
            }
            return Some(i);
        }
        i += 1;
    }
    proof {
        if spec_obj_index(evs, key@) is Some {
            lemma_obj_index_found(evs, key@);
            let j = spec_obj_index(evs, key@).unwrap();
            assert(evs[j].0 != key@);
        }
    }
    None
}

/// An index result points at the key it was sought for.
proof fn lemma_obj_index_found(entries: Seq<(Seq<u8>, Val)>, key: Seq<u8>)
    requires
        spec_obj_index(entries, key) is Some,
    ensures
        0 <= spec_obj_index(entries, key).unwrap() < entries.len(),
        entries[spec_obj_index(entries, key).unwrap()].0 == key,
    decreases entries.len(),
{
    if entries.len() > 0 && entries[0].0 != key {
        lemma_obj_index_found(entries.subrange(1, entries.len() as int), key);
    }
}

/// The first position with the key, given no earlier position has it.
proof fn lemma_obj_index_at(entries: Seq<(Seq<u8>, Val)>, key: Seq<u8>, i: int)
    requires
        0 <= i < entries.len(),
        entries[i].0 == key,
        forall|k: int| 0 <= k < i ==> entries[k].0 != key,
    ensures
        spec_obj_index(entries, key) == Some(i),
    decreases entries.len(),
{
    if i > 0 {
        let tail = entries.subrange(1, entries.len() as int);
        assert forall|k: int| 0 <= k < i - 1 implies tail[k].0 != key by {
            assert(tail[k] == entries[k + 1]);
        }
        assert(tail[i - 1] == entries[i]);
        lemma_obj_index_at(tail, key, i - 1);
    }
}

/// Sets the value at a dotted path in the tree, leaving everything
/// else unchanged. It replaces the content of an existing key only: a
/// missing key or an empty path fails with a key-not-found error.
pub fn replace_value_in_data(data: &Value, keys: &Vec<Vec<u8>>, value: Value) -> (r: Result<
    Value,
    Vec<u8>,
>)
    ensures
        match r {
            Ok(out) => spec_replace(data@, path_view(keys@), value@) == Some(out@),
            Err(e) => spec_replace(data@, path_view(keys@), value@) is None && e@
                == msg_key_not_found(),
        },
{
    match replace_at(data, keys, 0, value) {
        Ok(out) => {
            proof {
                assert(path_view(keys@).skip(0) =~= path_view(keys@));
            }
            Ok(out)
        },
        Err(()) => {
            proof {
                assert(path_view(keys@).skip(0) =~= path_view(keys@));
                reveal_strlit("Key not found");
            }
            Err(lit_bytes("Key not found"))
        },
    }
}

/// The recursive step of [`replace_value_in_data`], from segment
/// `from` on.
fn replace_at(data: &Value, keys: &Vec<Vec<u8>>, from: usize, value: Value) -> (r: Result<
    Value,
    (),
>)
    requires
        from <= keys@.len(),
    ensures
        match r {
            Ok(out) => spec_replace(data@, path_view(keys@).skip(from as int), value@) == Some(
                out@,
            ),
            Err(()) => spec_replace(data@, path_view(keys@).skip(from as int), value@) is None,
        },
    decreases keys@.len() - from,
{
    let ghost p = path_view(keys@).skip(from as int);
    if from == keys.len() {
        proof {
            assert(p.len() == 0);
        }
        return Err(());
    }
    proof {
        assert(p[0] == keys@[from as int]@);
    }
    match data {
        Value::Object(entries) => {
            let ghost evs = entry_vals_of(entries@);
            proof {
                lemma_entry_vals_of(entries@);
            }
            let i = match obj_index(entries, &keys[from]) {
                Some(i) => i,
                None => {
                    return Err(());
                },
            };
            proof {
                assert(evs[i as int] == (entries@[i as int].0@, val_of(entries@[i as int].1)));
            }
            let new_child: Value = if from + 1 == keys.len() {
                value
            } else {
                proof {
                    assert(decreases_to!(data => entries@[i as int].1)) by {
                        assert(decreases_to!(*data => data->Object_0));
                        assert(decreases_to!(data->Object_0 => data->Object_0@));
                        assert(decreases_to!(data->Object_0@ => data->Object_0@[i as int]));
                        assert(decreases_to!(
                            data->Object_0@[i as int] => data->Object_0@[i as int].1));
                    }
                    assert(p.subrange(1, p.len() as int) =~= path_view(keys@).skip(
                        (from + 1) as int,
                    ));
                }
                match replace_at(&entries[i].1, keys, from + 1, value) {
                    Ok(c) => c,
                    Err(()) => {
                        return Err(());
                    },
                }
            };
            // Rebuild the map with the one entry changed.
            let mut out: Vec<(Vec<u8>, Value)> = Vec::new();
            let mut j: usize = 0;
            while j < entries.len()
                invariant
                    j <= entries@.len(),
                    i < entries@.len(),
                    out@.len() == j,
                    forall|k: int| 0 <= k < j && k != i ==> (#[trigger] out@[k]).0@
                        == entries@[k].0@,
                    forall|k: int| 0 <= k < j && k != i ==> (#[trigger] out@[k]).1@
                        == entries@[k].1@,
                    j > i ==> out@[i as int].0@ == entries@[i as int].0@ && out@[i as int].1@
                        == new_child@,
                decreases entries@.len() - j,
            {
                let ghost prev = out@;
                if j == i {
                    out.push((copy_bytes(&entries[j].0), clone_value(&new_child)));
                } else {
                    out.push((copy_bytes(&entries[j].0), clone_value(&entries[j].1)));
                }
                proof {
                    assert forall|k: int| 0 <= k < j + 1 && k != i
                        implies (#[trigger] out@[k]).0@ == entries@[k].0@ && (out@[k]).1@
                        == entries@[k].1@ by {
                        if k < j {
                            assert(out@[k] == prev[k]);
                            assert(prev[k].0@ == entries@[k].0@ && prev[k].1@ == entries@[k].1@);
                        } else {
                            assert(out@[k] == out@.last());
                        }
                    }
                    if j >= i {
                        if j > i {
                            assert(out@[i as int] == prev[i as int]);
                        }
                        assert(out@[i as int].0@ == entries@[i as int].0@ && out@[i as int].1@
                            == new_child@);
                    }
                }
                j += 1;
            }
            let result = Value::Object(out);
            proof {
                lemma_entry_vals_of(out@);
                let target = if p.len() == 1 {
                    evs.update(i as int, (p[0], value@))
                } else {
                    evs.update(i as int, (evs[i as int].0, new_child@))
                };
                lemma_obj_index_found(evs, p[0]);
                assert forall|k: int| 0 <= k < out@.len()
                    implies entry_vals_of(out@)[k] == target[k] by {
                    assert(entry_vals_of(out@)[k] == (out@[k].0@, val_of(out@[k].1)));
                    if k != i {
                        assert(evs[k] == (entries@[k].0@, val_of(entries@[k].1)));
                    }
                }
                assert(entry_vals_of(out@) =~= target);
            }
            Ok(result)
        },
        _ => Err(()),
    }
}

/// The lowercase hexadecimal digit for `n`.
pub open spec fn hex_digit(n: nat) -> u8 {
    if n < 10 {
        (48 + n) as u8
    } else {
        (87 + n) as u8
    }
}

/// How one byte of a text is written inside a JSON string: quote and
/// backslash get a backslash, the common controls get their short
/// escapes, other control bytes a four-digit escape, and every other
/// byte stands as itself.
pub open spec fn spec_escape_byte(b: u8) -> Seq<u8> {
    if b == 34 {
        seq![92u8, 34u8]
    } else if b == 92 {
        seq![92u8, 92u8]
    } else if b == 8 {
        seq![92u8, 98u8]
    } else if b == 9 {
        seq![92u8, 116u8]
    } else if b == 10 {
        seq![92u8, 110u8]
    } else if b == 12 {
        seq![92u8, 102u8]
    } else if b == 13 {
        seq![92u8, 114u8]
    } else if b < 32 {
        seq![92u8, 117u8, 48u8, 48u8, hex_digit((b / 16) as nat), hex_digit((b % 16) as nat)]
    } else {
        seq![b]
    }
}

/// A text escaped for a JSON string, byte by byte.
pub open spec fn spec_escape(t: Seq<u8>) -> Seq<u8>
    decreases t.len(),
{
    if t.len() == 0 {
        Seq::<u8>::empty()
    } else {
        spec_escape_byte(t[0]) + spec_escape(t.skip(1))
    }
}

proof fn lemma_escape_snoc(s: Seq<u8>, x: u8)
    ensures
        spec_escape(s.push(x)) == spec_escape(s) + spec_escape_byte(x),
    decreases s.len(),
{
    let whole = s.push(x);
    if s.len() == 0 {
        assert(whole[0] == x);
        assert(whole.skip(1) =~= Seq::<u8>::empty());
        assert(spec_escape(Seq::<u8>::empty()) == Seq::<u8>::empty());
        assert(spec_escape(whole) =~= spec_escape_byte(x));
        assert(spec_escape(s) + spec_escape_byte(x) =~= spec_escape_byte(x));
    } else {
        assert(whole[0] == s[0]);
        assert(whole.skip(1) =~= s.skip(1).push(x));
        lemma_escape_snoc(s.skip(1), x);
        assert(spec_escape(whole) =~= spec_escape(s) + spec_escape_byte(x));
    }
}

/// The JSON text of a value: `null`, `true`/`false`, the number's own
/// text, a quoted and escaped string, or the bracketed, comma-joined
/// members of a list or map.
pub open spec fn spec_json_bytes(v: Val) -> Seq<u8>
    decreases v,
{
    if v is Bool {
        if v->Bool_0 {
            ascii_bytes("true"@)
        } else {
            ascii_bytes("false"@)
        }
    } else if v is Number {
        v->Number_0
    } else if v is Text {
        seq![34u8] + spec_escape(v->Text_0) + seq![34u8]
    } else if v is List {
        seq![91u8] + spec_json_items(v->List_0) + seq![93u8]
    } else if v is Object {
        seq![123u8] + spec_json_entries(v->Object_0) + seq![125u8]
    } else {
        ascii_bytes("null"@)
    }
}

/// The comma-joined JSON texts of list members.
pub open spec fn spec_json_items(items: Seq<Val>) -> Seq<u8>
    decreases items, 1int,
{
    if items.len() == 0 {
        Seq::<u8>::empty()
    } else {
        spec_json_bytes(items[0]) + spec_json_items_rest(items.subrange(1, items.len() as int))
    }
}

/// The remaining list members, each preceded by a comma.
pub open spec fn spec_json_items_rest(items: Seq<Val>) -> Seq<u8>
    decreases items, 0int,
{
    if items.len() == 0 {
        Seq::<u8>::empty()
    } else {
        seq![44u8] + spec_json_bytes(items[0]) + spec_json_items_rest(
            items.subrange(1, items.len() as int),
        )
    }
}

/// The JSON text of one map entry.
pub open spec fn spec_json_entry(e: (Seq<u8>, Val)) -> Seq<u8>
    decreases e,
{
    seq![34u8] + spec_escape(e.0) + seq![34u8, 58u8] + spec_json_bytes(e.1)
}

/// The comma-joined JSON texts of map entries.
pub open spec fn spec_json_entries(entries: Seq<(Seq<u8>, Val)>) -> Seq<u8>
    decreases entries, 1int,
{
    if entries.len() == 0 {
        Seq::<u8>::empty()
    } else {
        spec_json_entry(entries[0]) + spec_json_entries_rest(
            entries.subrange(1, entries.len() as int),
        )
    }
}

/// The remaining map entries, each preceded by a comma.
pub open spec fn spec_json_entries_rest(entries: Seq<(Seq<u8>, Val)>) -> Seq<u8>
    decreases entries, 0int,
{
    if entries.len() == 0 {
        Seq::<u8>::empty()
    } else {
        seq![44u8] + spec_json_entry(entries[0]) + spec_json_entries_rest(
            entries.subrange(1, entries.len() as int),
        )
    }
}

/// Appends `t` escaped for the inside of a JSON string.
fn escape_into(out: &mut Vec<u8>, t: &Vec<u8>)
    ensures
        final(out)@ == old(out)@ + spec_escape(t@),
{
    let ghost base = out@;
    let mut i: usize = 0;
    while i < t.len()
        invariant
            i <= t@.len(),
            out@ == base + spec_escape(t@.subrange(0, i as int)),
        decreases t@.len() - i,
    {
        let ghost pre = t@.subrange(0, i as int);
        let b = t[i];
        if b == 34 {
            out.push(92);
            out.push(34);
        } else if b == 92 {
            out.push(92);
            out.push(92);
        } else if b == 8 {
            out.push(92);
            out.push(98);
        } else if b == 9 {
            out.push(92);
            out.push(116);
        } else if b == 10 {
            out.push(92);
            out.push(110);
        } else if b == 12 {
            out.push(92);
            out.push(102);
        } else if b == 13 {
            out.push(92);
            out.push(114);
        } else if b < 32 {
            out.push(92);
            out.push(117);
            out.push(48);
            out.push(48);
            let hi = b / 16;
            let lo = b % 16;
            out.push(if hi < 10 { 48 + hi } else { 87 + hi });
            out.push(if lo < 10 { 48 + lo } else { 87 + lo });
        } else {
            out.push(b);
        }
        proof {
            assert(out@ =~= base + (spec_escape(pre) + spec_escape_byte(b)));
            lemma_escape_snoc(pre, b);
            assert(pre.push(b) =~= t@.subrange(0, (i + 1) as int));
        }
        i += 1;
    }
    proof {
        assert(t@.subrange(0, t@.len() as int) =~= t@);
    }
}

/// Writes a value as JSON text.
pub fn to_json_bytes(v: &Value) -> (r: Vec<u8>)
    ensures
        r@ == spec_json_bytes(v@),
    decreases v,
{
    let mut out: Vec<u8> = Vec::new();
    match v {
        Value::Null => {
            proof {
                reveal_strlit("null");
            }
            let mut lit = lit_bytes("null");
            out.append(&mut lit);
            proof {
                assert(out@ =~= ascii_bytes("null"@));
            }
        },
        Value::Bool(b) => {
            proof {
                reveal_strlit("true");
                reveal_strlit("false");
            }
            let mut lit = if *b {
                lit_bytes("true")
            } else {
                lit_bytes("false")
            };
            out.append(&mut lit);
            proof {
                if *b {
                    assert(out@ =~= ascii_bytes("true"@));
                } else {
                    assert(out@ =~= ascii_bytes("false"@));
                }
            }
        },
        Value::Number(t) => {
            let mut c = copy_bytes(t);
            out.append(&mut c);
            proof {
                assert(out@ =~= t@);
            }
        },
        Value::Text(t) => {
            out.push(34);
            escape_into(&mut out, t);
            out.push(34);
            proof {
                assert(out@ =~= seq![34u8] + spec_escape(t@) + seq![34u8]);
            }
        },
        Value::List(items) => {
            let ghost ivals = vals_of(items@);
            proof {
                lemma_vals_of(items@);
            }
            out.push(91);
            let mut i: usize = 0;
            while i < items.len()
                invariant
                    i <= items@.len(),
                    *v == Value::List(*items),
                    ivals == vals_of(items@),
                    ivals.len() == items@.len(),
                    forall|k: int| 0 <= k < items@.len() ==> ivals[k] == val_of(
                        #[trigger] items@[k],
                    ),
                    i == 0 ==> out@ == seq![91u8],
                    i >= 1 ==> out@ + spec_json_items_rest(ivals.subrange(
                        i as int,
                        ivals.len() as int,
                    )) == seq![91u8] + spec_json_items(ivals),
                decreases items@.len() - i,
            {
                proof {
                    assert(decreases_to!(v => items@[i as int])) by {
                        assert(decreases_to!(*v => v->List_0));
                        assert(decreases_to!(v->List_0 => v->List_0@));
                        assert(decreases_to!(v->List_0@ => v->List_0@[i as int]));
                    }
                }
                let ghost pre = out@;
                if i > 0 {
                    out.push(44);
                }
                let mut sub = to_json_bytes(&items[i]);
                let ghost subv = sub@;
                out.append(&mut sub);
                proof {
                    let rest = ivals.subrange(i as int, ivals.len() as int);
                    assert(rest[0] == ivals[i as int]);
                    assert(rest.subrange(1, rest.len() as int) =~= ivals.subrange(
                        (i + 1) as int,
                        ivals.len() as int,
                    ));
                    assert(subv == spec_json_bytes(ivals[i as int]));
                    if i == 0 {
                        assert(out@ =~= seq![91u8] + subv);
                        assert(spec_json_items(ivals) == spec_json_bytes(ivals[0])
                            + spec_json_items_rest(ivals.subrange(1, ivals.len() as int)));
                        assert(ivals.subrange(0, ivals.len() as int) =~= ivals);
                        assert(out@ + spec_json_items_rest(ivals.subrange(1, ivals.len() as int))
                            =~= seq![91u8] + spec_json_items(ivals));
                    } else {
                        assert(out@ =~= pre + (seq![44u8] + subv));
                        assert(spec_json_items_rest(rest) == seq![44u8] + spec_json_bytes(rest[0])
                            + spec_json_items_rest(rest.subrange(1, rest.len() as int)));
                        assert(out@ + spec_json_items_rest(ivals.subrange(
                            (i + 1) as int,
                            ivals.len() as int,
                        )) =~= pre + spec_json_items_rest(rest));
                    }
                }
                i += 1;
            }
            proof {
                if items@.len() == 0 {
                    assert(spec_json_items(ivals) == Seq::<u8>::empty());
                    assert(out@ =~= seq![91u8] + spec_json_items(ivals));
                } else {
                    assert(ivals.subrange(i as int, ivals.len() as int) =~= Seq::<Val>::empty());
                    assert(spec_json_items_rest(Seq::<Val>::empty()) == Seq::<u8>::empty());
                    assert(out@ =~= out@ + spec_json_items_rest(ivals.subrange(
                        i as int,
                        ivals.len() as int,
                    )));
                }
            }
            out.push(93);
            proof {
                assert(out@ =~= seq![91u8] + spec_json_items(ivals) + seq![93u8]);
            }
        },
        Value::Object(entries) => {
            let ghost evals = entry_vals_of(entries@);
            proof {
                lemma_entry_vals_of(entries@);
            }
            out.push(123);
            let mut i: usize = 0;
            while i < entries.len()
                invariant
                    i <= entries@.len(),
                    *v == Value::Object(*entries),
                    evals == entry_vals_of(entries@),
                    evals.len() == entries@.len(),
                    forall|k: int| 0 <= k < entries@.len() ==> evals[k] == (
                        #[trigger] entries@[k].0@,
                        val_of(entries@[k].1),
                    ),
                    i == 0 ==> out@ == seq![123u8],
                    i >= 1 ==> out@ + spec_json_entries_rest(evals.subrange(
                        i as int,
                        evals.len() as int,
                    )) == seq![123u8] + spec_json_entries(evals),
                decreases entries@.len() - i,
            {
                proof {
                    assert(decreases_to!(v => entries@[i as int].1)) by {
                        assert(decreases_to!(*v => v->Object_0));
                        assert(decreases_to!(v->Object_0 => v->Object_0@));
                        assert(decreases_to!(v->Object_0@ => v->Object_0@[i as int]));
                        assert(decreases_to!(v->Object_0@[i as int] => v->Object_0@[i as int].1));
                    }
                }
                let ghost pre = out@;
                if i > 0 {
                    out.push(44);
                }
                let ghost mid = out@;
                out.push(34);
                escape_into(&mut out, &entries[i].0);
                out.push(34);
                out.push(58);
                let mut sub = to_json_bytes(&entries[i].1);
                let ghost subv = sub@;
                out.append(&mut sub);
                proof {
                    let rest = evals.subrange(i as int, evals.len() as int);
                    assert(rest[0] == evals[i as int]);
                    assert(rest.subrange(1, rest.len() as int) =~= evals.subrange(
                        (i + 1) as int,
                        evals.len() as int,
                    ));
                    assert(evals[i as int] == (entries@[i as int].0@, val_of(
                        entries@[i as int].1,
                    )));
                    assert(subv == spec_json_bytes(evals[i as int].1));
                    assert(out@ =~= mid + spec_json_entry(evals[i as int]));
                    if i == 0 {
                        assert(spec_json_entries(evals) == spec_json_entry(evals[0])
                            + spec_json_entries_rest(evals.subrange(1, evals.len() as int)));
                        assert(out@ + spec_json_entries_rest(evals.subrange(1, evals.len() as int))
                            =~= seq![123u8] + spec_json_entries(evals));
                    } else {
                        assert(spec_json_entries_rest(rest) == seq![44u8] + spec_json_entry(
                            rest[0],
                        ) + spec_json_entries_rest(rest.subrange(1, rest.len() as int)));
                        assert(out@ + spec_json_entries_rest(evals.subrange(
                            (i + 1) as int,
                            evals.len() as int,
                        )) =~= pre + spec_json_entries_rest(rest));
                    }
                }
                i += 1;
            }
            proof {
                if entries@.len() == 0 {
                    assert(spec_json_entries(evals) == Seq::<u8>::empty());
                    assert(out@ =~= seq![123u8] + spec_json_entries(evals));
                } else {
                    assert(evals.subrange(i as int, evals.len() as int) =~= Seq::<
                        (Seq<u8>, Val),
                    >::empty());
                    assert(spec_json_entries_rest(Seq::<(Seq<u8>, Val)>::empty())
                        == Seq::<u8>::empty());
                    assert(out@ =~= out@ + spec_json_entries_rest(evals.subrange(
                        i as int,
                        evals.len() as int,
                    )));
                }
            }
            out.push(125);
            proof {
                assert(out@ =~= seq![123u8] + spec_json_entries(evals) + seq![125u8]);
            }
        },
    }
    out
}

/// No expression leaf remains anywhere in the tree.
pub open spec fn no_exprs(v: Val) -> bool
    decreases v,
{
    if v is Text {
        !is_expression(v->Text_0)
    } else if v is List {
        no_exprs_list(v->List_0)
    } else if v is Object {
        no_exprs_obj(v->Object_0)
    } else {
        true
    }
}

/// No expression leaf remains in any list member.
pub open spec fn no_exprs_list(items: Seq<Val>) -> bool
    decreases items,
{
    if items.len() == 0 {
        true
    } else {
        no_exprs(items[0]) && no_exprs_list(items.subrange(1, items.len() as int))
    }
}

/// No expression leaf remains under any map entry.
pub open spec fn no_exprs_obj(entries: Seq<(Seq<u8>, Val)>) -> bool
    decreases entries,
{
    if entries.len() == 0 {
        true
    } else {
        no_exprs(entries[0].1) && no_exprs_obj(entries.subrange(1, entries.len() as int))
    }
}

/// Map keys are unique at every level of the tree, as the data model
/// demands of a well-formed context.
pub open spec fn keys_unique(v: Val) -> bool
    decreases v,
{
    if v is List {
        keys_unique_list(v->List_0)
    } else if v is Object {
        &&& (forall|i: int, j: int|
            0 <= i < j < v->Object_0.len() ==> (#[trigger] v->Object_0[i].0) != (
            #[trigger] v->Object_0[j].0))
        &&& keys_unique_obj(v->Object_0)
    } else {
        true
    }
}

/// Key uniqueness of every list member.
pub open spec fn keys_unique_list(items: Seq<Val>) -> bool
    decreases items,
{
    if items.len() == 0 {
        true
    } else {
        keys_unique(items[0]) && keys_unique_list(items.subrange(1, items.len() as int))
    }
}

/// Key uniqueness under every map entry.
pub open spec fn keys_unique_obj(entries: Seq<(Seq<u8>, Val)>) -> bool
    decreases entries,
{
    if entries.len() == 0 {
        true
    } else {
        keys_unique(entries[0].1) && keys_unique_obj(entries.subrange(1, entries.len() as int))
    }
}

/// A tree in which the locator finds nothing holds no expression leaf.
pub proof fn lemma_no_located_no_exprs(v: Val, parent: Seq<Seq<u8>>)
    requires
        spec_exprs(v, parent).len() == 0,
    ensures
        no_exprs(v),
    decreases v,
{
    if v is List {
        lemma_no_located_no_exprs_list(v->List_0, parent);
    } else if v is Object {
        lemma_no_located_no_exprs_obj(v->Object_0, parent);
    }
}

proof fn lemma_no_located_no_exprs_list(items: Seq<Val>, parent: Seq<Seq<u8>>)
    requires
        spec_exprs_list(items, parent).len() == 0,
    ensures
        no_exprs_list(items),
    decreases items,
{
    if items.len() > 0 {
        lemma_no_located_no_exprs(items[0], parent);
        lemma_no_located_no_exprs_list(items.subrange(1, items.len() as int), parent);
    }
}

proof fn lemma_no_located_no_exprs_obj(entries: Seq<(Seq<u8>, Val)>, parent: Seq<Seq<u8>>)
    requires
        spec_exprs_obj(entries, parent).len() == 0,
    ensures
        no_exprs_obj(entries),
    decreases entries,
{
    if entries.len() > 0 {
        lemma_no_located_no_exprs(entries[0].1, parent.push(entries[0].0));
        lemma_no_located_no_exprs_obj(entries.subrange(1, entries.len() as int), parent);
    }
}

/// Every located expression's path starts with the parent path.
pub proof fn lemma_exprs_prefix(v: Val, parent: Seq<Seq<u8>>)
    ensures
        forall|e: (Seq<Seq<u8>>, Seq<u8>)| #[trigger] spec_exprs(v, parent).contains(e)
            ==> parent.is_prefix_of(e.0),
    decreases v,
{
    if v is List {
        lemma_exprs_prefix_list(v->List_0, parent);
        assert forall|e: (Seq<Seq<u8>>, Seq<u8>)| #[trigger] spec_exprs(v, parent).contains(e)
            implies parent.is_prefix_of(e.0) by {
            assert(spec_exprs_list(v->List_0, parent).contains(e));
        }
    } else if v is Object {
        lemma_exprs_prefix_obj(v->Object_0, parent);
        assert forall|e: (Seq<Seq<u8>>, Seq<u8>)| #[trigger] spec_exprs(v, parent).contains(e)
            implies parent.is_prefix_of(e.0) by {
            assert(spec_exprs_obj(v->Object_0, parent).contains(e));
        }
    } else if v is Text && is_expression(v->Text_0) {
        assert forall|e: (Seq<Seq<u8>>, Seq<u8>)| #[trigger] spec_exprs(v, parent).contains(e)
            implies parent.is_prefix_of(e.0) by {
            assert(spec_exprs(v, parent)[0] == (parent, v->Text_0));
            assert(e == (parent, v->Text_0));
            assert(parent.is_prefix_of(parent));
        }
    }
}

proof fn lemma_exprs_prefix_list(items: Seq<Val>, parent: Seq<Seq<u8>>)
    ensures
        forall|e: (Seq<Seq<u8>>, Seq<u8>)| #[trigger] spec_exprs_list(items, parent).contains(e)
            ==> parent.is_prefix_of(e.0),
    decreases items,
{
    if items.len() > 0 {
        lemma_exprs_prefix(items[0], parent);
        lemma_exprs_prefix_list(items.subrange(1, items.len() as int), parent);
        assert forall|e: (Seq<Seq<u8>>, Seq<u8>)|
            #[trigger] spec_exprs_list(items, parent).contains(e)
            implies parent.is_prefix_of(e.0) by {
            lemma_concat_mem(
                spec_exprs(items[0], parent),
                spec_exprs_list(items.subrange(1, items.len() as int), parent),
                e,
            );
        }
    }
}

proof fn lemma_exprs_prefix_obj(entries: Seq<(Seq<u8>, Val)>, parent: Seq<Seq<u8>>)
    ensures
        forall|e: (Seq<Seq<u8>>, Seq<u8>)| #[trigger] spec_exprs_obj(entries, parent).contains(e)
            ==> parent.is_prefix_of(e.0),
    decreases entries,
{
    if entries.len() > 0 {
        let sub = parent.push(entries[0].0);
        lemma_exprs_prefix(entries[0].1, sub);
        lemma_exprs_prefix_obj(entries.subrange(1, entries.len() as int), parent);
        assert forall|e: (Seq<Seq<u8>>, Seq<u8>)|
            #[trigger] spec_exprs_obj(entries, parent).contains(e)
            implies parent.is_prefix_of(e.0) by {
            lemma_concat_mem(
                spec_exprs(entries[0].1, sub),
                spec_exprs_obj(entries.subrange(1, entries.len() as int), parent),
                e,
            );
            if spec_exprs(entries[0].1, sub).contains(e) {
                assert(sub.is_prefix_of(e.0));
                assert(parent =~= sub.subrange(0, parent.len() as int));
                assert(parent =~= e.0.subrange(0, parent.len() as int));
            }
        }
    }
}

/// Membership in a concatenation comes from one of the parts.
proof fn lemma_concat_mem<T>(a: Seq<T>, b: Seq<T>, e: T)
    requires
        (a + b).contains(e),
    ensures
        a.contains(e) || b.contains(e),
{
    let m = choose|m: int| 0 <= m < (a + b).len() && (a + b)[m] == e;
    if m < a.len() {
        assert(a[m] == e);
    } else {
        assert(b[m - a.len()] == e);
    }
}

/// Membership in a part gives membership in the concatenation.
proof fn lemma_concat_mem_left<T>(a: Seq<T>, b: Seq<T>, e: T)
    requires
        a.contains(e),
    ensures
        (a + b).contains(e),
{
    let m = choose|m: int| 0 <= m < a.len() && a[m] == e;
    assert((a + b)[m] == e);
}

/// Membership in a part gives membership in the concatenation.
proof fn lemma_concat_mem_right<T>(a: Seq<T>, b: Seq<T>, e: T)
    requires
        b.contains(e),
    ensures
        (a + b).contains(e),
{
    let m = choose|m: int| 0 <= m < b.len() && b[m] == e;
    assert((a + b)[a.len() + m] == e);
}

/// A located expression of a map comes from one of its entries.
proof fn lemma_exprs_obj_mem(
    entries: Seq<(Seq<u8>, Val)>,
    parent: Seq<Seq<u8>>,
    e: (Seq<Seq<u8>>, Seq<u8>),
)
    requires
        spec_exprs_obj(entries, parent).contains(e),
    ensures
        exists|k: int| 0 <= k < entries.len() && #[trigger] spec_exprs(
            entries[k].1,
            parent.push(entries[k].0),
        ).contains(e),
    decreases entries,
{
    let rest = entries.subrange(1, entries.len() as int);
    lemma_concat_mem(
        spec_exprs(entries[0].1, parent.push(entries[0].0)),
        spec_exprs_obj(rest, parent),
        e,
    );
    if spec_exprs(entries[0].1, parent.push(entries[0].0)).contains(e) {
        assert(spec_exprs(entries[0].1, parent.push(entries[0].0)).contains(e));
    } else {
        lemma_exprs_obj_mem(rest, parent, e);
        let k = choose|k: int| 0 <= k < rest.len() && #[trigger] spec_exprs(
            rest[k].1,
            parent.push(rest[k].0),
        ).contains(e);
        assert(rest[k] == entries[k + 1]);
        assert(spec_exprs(entries[k + 1].1, parent.push(entries[k + 1].0)).contains(e));
    }
}

/// A located expression of an entry is located in the map.
proof fn lemma_exprs_obj_mem_rev(
    entries: Seq<(Seq<u8>, Val)>,
    parent: Seq<Seq<u8>>,
    k: int,
    e: (Seq<Seq<u8>>, Seq<u8>),
)
    requires
        0 <= k < entries.len(),
        spec_exprs(entries[k].1, parent.push(entries[k].0)).contains(e),
    ensures
        spec_exprs_obj(entries, parent).contains(e),
    decreases entries,
{
    let rest = entries.subrange(1, entries.len() as int);
    if k == 0 {
        lemma_concat_mem_left(
            spec_exprs(entries[0].1, parent.push(entries[0].0)),
            spec_exprs_obj(rest, parent),
            e,
        );
    } else {
        assert(rest[k - 1] == entries[k]);
        lemma_exprs_obj_mem_rev(rest, parent, k - 1, e);
        lemma_concat_mem_right(
            spec_exprs(entries[0].1, parent.push(entries[0].0)),
            spec_exprs_obj(rest, parent),
            e,
        );
    }
}

/// Key uniqueness of a map passes to each entry's value.
proof fn lemma_ku_obj_index(entries: Seq<(Seq<u8>, Val)>, i: int)
    requires
        keys_unique_obj(entries),
        0 <= i < entries.len(),
    ensures
        keys_unique(entries[i].1),
    decreases entries.len(),
{
    if i > 0 {
        let rest = entries.subrange(1, entries.len() as int);
        assert(rest[i - 1] == entries[i]);
        lemma_ku_obj_index(rest, i - 1);
    }
}

/// Updating one entry with a key-unique value keeps the entry values
/// key-unique.
proof fn lemma_ku_obj_update(entries: Seq<(Seq<u8>, Val)>, i: int, ne: (Seq<u8>, Val))
    requires
        keys_unique_obj(entries),
        keys_unique(ne.1),
        0 <= i < entries.len(),
    ensures
        keys_unique_obj(entries.update(i, ne)),
    decreases entries.len(),
{
    let upd = entries.update(i, ne);
    let rest = entries.subrange(1, entries.len() as int);
    if i == 0 {
        assert(upd.subrange(1, upd.len() as int) =~= rest);
        assert(upd[0].1 == ne.1);
    } else {
        lemma_ku_obj_update(rest, i - 1, ne);
        assert(upd.subrange(1, upd.len() as int) =~= rest.update(i - 1, ne));
        assert(upd[0] == entries[0]);
    }
}

/// Replacing a value at a path keeps every map's keys unique.
pub proof fn lemma_replace_keys_unique(v: Val, path: Seq<Seq<u8>>, nv: Val, v2: Val)
    requires
        keys_unique(v),
        keys_unique(nv),
        spec_replace(v, path, nv) == Some(v2),
    ensures
        keys_unique(v2),
    decreases path.len(),
{
    let entries = v->Object_0;
    let i = spec_obj_index(entries, path[0]).unwrap();
    lemma_obj_index_found(entries, path[0]);
    if path.len() == 1 {
        let entries2 = entries.update(i, (path[0], nv));
        assert(v2 == Val::Object(entries2));
        assert((path[0], nv).0 == entries[i].0);
        lemma_ku_obj_update(entries, i, (path[0], nv));
        assert forall|a: int, b: int| 0 <= a < b < entries2.len()
            implies (#[trigger] entries2[a].0) != (#[trigger] entries2[b].0) by {
            assert(entries2[a].0 == entries[a].0);
            assert(entries2[b].0 == entries[b].0);
        }
    } else {
        let sub = path.subrange(1, path.len() as int);
        let child2 = spec_replace(entries[i].1, sub, nv).unwrap();
        let entries2 = entries.update(i, (entries[i].0, child2));
        assert(v2 == Val::Object(entries2));
        lemma_ku_obj_index(entries, i);
        lemma_replace_keys_unique(entries[i].1, sub, nv, child2);
        lemma_ku_obj_update(entries, i, (entries[i].0, child2));
        assert forall|a: int, b: int| 0 <= a < b < entries2.len()
            implies (#[trigger] entries2[a].0) != (#[trigger] entries2[b].0) by {
            assert(entries2[a].0 == entries[a].0);
            assert(entries2[b].0 == entries[b].0);
        }
    }
}

/// Replacing a path with a number removes every located expression at
/// that path and introduces none: whatever the locator finds in the
/// new tree it found in the old one, and never at the replaced path.
pub proof fn lemma_replace_exprs(
    v: Val,
    path: Seq<Seq<u8>>,
    t: Seq<u8>,
    v2: Val,
    parent: Seq<Seq<u8>>,
)
    requires
        keys_unique(v),
        path.len() >= 1,
        spec_replace(v, path, Val::Number(t)) == Some(v2),
    ensures
        forall|e: (Seq<Seq<u8>>, Seq<u8>)| #[trigger] spec_exprs(v2, parent).contains(e)
            ==> spec_exprs(v, parent).contains(e) && e.0 != parent + path,
    decreases path.len(),
{
    let entries = v->Object_0;
    let i = spec_obj_index(entries, path[0]).unwrap();
    lemma_obj_index_found(entries, path[0]);
    let entries2 = v2->Object_0;
    assert forall|e: (Seq<Seq<u8>>, Seq<u8>)| #[trigger] spec_exprs(v2, parent).contains(e)
        implies spec_exprs(v, parent).contains(e) && e.0 != parent + path by {
        assert(spec_exprs_obj(entries2, parent).contains(e));
        lemma_exprs_obj_mem(entries2, parent, e);
        let k = choose|k: int| 0 <= k < entries2.len() && #[trigger] spec_exprs(
            entries2[k].1,
            parent.push(entries2[k].0),
        ).contains(e);
        if k != i {
            assert(entries2[k] == entries[k]);
            lemma_exprs_obj_mem_rev(entries, parent, k, e);
            lemma_exprs_prefix(entries[k].1, parent.push(entries[k].0));
            assert(parent.push(entries[k].0).is_prefix_of(e.0));
            assert(e.0.subrange(0, parent.len() + 1 as int) == parent.push(entries[k].0));
            assert(e.0[parent.len() as int] == parent.push(entries[k].0)[parent.len() as int]);
            assert(e.0[parent.len() as int] == entries[k].0);
            assert(entries[k].0 != path[0]);
            if e.0 == parent + path {
                assert((parent + path)[parent.len() as int] == path[0]);
                assert(false);
            }
        } else {
            if path.len() == 1 {
                assert(entries2[i] == (path[0], Val::Number(t)));
                assert(spec_exprs(Val::Number(t), parent.push(path[0])).len() == 0);
                assert(false);
            } else {
                let sub = path.subrange(1, path.len() as int);
                let child2 = spec_replace(entries[i].1, sub, Val::Number(t)).unwrap();
                assert(entries2[i] == (entries[i].0, child2));
                lemma_ku_obj_index(entries, i);
                lemma_replace_exprs(
                    entries[i].1,
                    sub,
                    t,
                    child2,
                    parent.push(entries[i].0),
                );
                assert(spec_exprs(entries[i].1, parent.push(entries[i].0)).contains(e));
                lemma_exprs_obj_mem_rev(entries, parent, i, e);
                assert(e.0 != parent.push(entries[i].0) + sub);
                assert(parent.push(entries[i].0) + sub =~= parent + path);
            }
        }
    }
}

} // verus!
