//! The mathematical model of a configuration tree.
//!
//! A tree level is a sequence of key/value pairs in insertion order, with the
//! value either a scalar or a nested level. `model_add` is the dotted-key
//! insertion that the executable tree implements, and `model_get` the
//! matching dotted-key lookup.

use vstd::prelude::*;
use crate::text::idx_of_char;
use crate::text::lemma_idx_of_char_concat;
use crate::text::lemma_idx_of_char_props;

verus! {

/// The value stored at one key of a tree level: a string, a boolean, the
/// text of a validated number, or a nested level.
pub enum ModelValue {
    StrV(Seq<char>),
    BoolV(bool),
    NumV(Seq<char>),
    TableV(Seq<(Seq<char>, ModelValue)>),
}

/// One tree level: key/value pairs, oldest entry first.
pub type ConfModel = Seq<(Seq<char>, ModelValue)>;

/// Whether some entry of `t` has key `k`.
pub open spec fn model_contains(t: ConfModel, k: Seq<char>) -> bool {
    exists|i: int| 0 <= i < t.len() && t[i].0 == k
}

/// The index of the first entry of `t` with key `k`, or `t.len()` when no
/// entry has that key.
pub open spec fn model_idx(t: ConfModel, k: Seq<char>) -> int
    decreases t.len(),
{
    if t.len() == 0 {
        0
    } else if t[0].0 == k {
        0
    } else {
        1 + model_idx(t.subrange(1, t.len() as int), k)
    }
}

pub proof fn lemma_model_idx_props(t: ConfModel, k: Seq<char>)
    ensures
        0 <= model_idx(t, k) <= t.len(),
        model_idx(t, k) < t.len() <==> model_contains(t, k),
        model_idx(t, k) < t.len() ==> t[model_idx(t, k)].0 == k,
        forall|j: int| 0 <= j < model_idx(t, k) ==> t[j].0 != k,
    decreases t.len(),
{
    let i = model_idx(t, k);
    if t.len() == 0 {
    } else if t[0].0 == k {
    } else {
        let t1 = t.subrange(1, t.len() as int);
        lemma_model_idx_props(t1, k);
        assert forall|j: int| 0 <= j < i implies t[j].0 != k by {
            if j > 0 {
                assert(t1[j - 1].0 != k);
            }
        }
        if model_idx(t1, k) < t1.len() {
            assert(t[i].0 == t1[i - 1].0);
        } else {
            if model_contains(t, k) {
                let w = choose|w: int| 0 <= w < t.len() && t[w].0 == k;
                assert(t1[w - 1].0 == k);
            }
        }
    }
}

/// The value of the entry of `t` with key `k`, if any.
pub open spec fn model_lookup(t: ConfModel, k: Seq<char>) -> Option<ModelValue> {
    if model_contains(t, k) {
        Some(t[model_idx(t, k)].1)
    } else {
        None
    }
}

/// `t` with the entry at key `k` set to `v`: replaced in place when the key
/// is present, appended otherwise.
pub open spec fn set_entry(t: ConfModel, k: Seq<char>, v: ModelValue) -> ConfModel {
    if model_contains(t, k) {
        t.update(model_idx(t, k), (k, v))
    } else {
        t.push((k, v))
    }
}

/// The nested level stored under key `k` of `t`, or the empty level when `k`
/// is absent or holds a scalar.
pub open spec fn sub_of(t: ConfModel, k: Seq<char>) -> ConfModel {
    match model_lookup(t, k) {
        Some(ModelValue::TableV(s)) => s,
        _ => Seq::empty(),
    }
}

/// Dotted-key insertion. The key is split at its first `.`; a leaf key sets
/// the entry directly, and a nested key descends into the level stored under
/// the head segment, replacing a scalar there by a fresh level.
pub open spec fn model_add(t: ConfModel, key: Seq<char>, v: ModelValue) -> ConfModel
    decreases key.len(),
{
    let i = idx_of_char(key, '.');
    if 0 <= i && i < key.len() {
        let head = key.subrange(0, i);
        let rest = key.subrange(i + 1, key.len() as int);
        set_entry(t, head, ModelValue::TableV(model_add(sub_of(t, head), rest, v)))
    } else {
        set_entry(t, key, v)
    }
}

/// Dotted-key lookup along the same decomposition as `model_add`.
pub open spec fn model_get(t: ConfModel, key: Seq<char>) -> Option<ModelValue>
    decreases key.len(),
{
    let i = idx_of_char(key, '.');
    if 0 <= i && i < key.len() {
        match model_lookup(t, key.subrange(0, i)) {
            Some(ModelValue::TableV(s)) => model_get(s, key.subrange(i + 1, key.len() as int)),
            _ => None,
        }
    } else {
        model_lookup(t, key)
    }
}

/// Setting an entry leaves it retrievable: lookup after `set_entry` yields
/// the new value, and other keys are untouched.
pub proof fn lemma_set_entry_lookup(t: ConfModel, k: Seq<char>, v: ModelValue)
    ensures
        model_lookup(set_entry(t, k, v), k) == Some(v),
        forall|k2: Seq<char>|
            k2 != k ==> model_lookup(set_entry(t, k, v), k2) == model_lookup(t, k2),
        forall|k2: Seq<char>|
            model_contains(set_entry(t, k, v), k2) <==> (model_contains(t, k2) || k2 == k),
{
    lemma_model_idx_props(t, k);
    let t2 = set_entry(t, k, v);
    assert forall|k2: Seq<char>|
        model_contains(t2, k2) <==> (model_contains(t, k2) || k2 == k) by {
        lemma_contains_set_entry(t, k, v, k2);
    }
    assert(model_lookup(t2, k) == Some(v)) by {
        lemma_idx_after_set(t, k, v, k);
    }
    assert forall|k2: Seq<char>| k2 != k implies model_lookup(t2, k2) == model_lookup(t, k2) by {
        lemma_idx_after_set(t, k, v, k2);
    }
}

proof fn lemma_contains_set_entry(t: ConfModel, k: Seq<char>, v: ModelValue, k2: Seq<char>)
    ensures
        model_contains(set_entry(t, k, v), k2) <==> (model_contains(t, k2) || k2 == k),
{
    lemma_model_idx_props(t, k);
    let t2 = set_entry(t, k, v);
    if model_contains(t, k) {
        let i = model_idx(t, k);
        if model_contains(t, k2) {
            let w = choose|w: int| 0 <= w < t.len() && t[w].0 == k2;
            if w == i {
                assert(t2[i].0 == k2);
            } else {
                assert(t2[w].0 == k2);
            }
        }
        if k2 == k {
            assert(t2[i].0 == k2);
        }
        if model_contains(t2, k2) {
            let w = choose|w: int| 0 <= w < t2.len() && t2[w].0 == k2;
            if w == i {
                assert(k2 == k);
            } else {
                assert(t[w].0 == k2);
            }
        }
    } else {
        if model_contains(t, k2) {
            let w = choose|w: int| 0 <= w < t.len() && t[w].0 == k2;
            assert(t2[w].0 == k2);
        }
        if k2 == k {
            assert(t2[t.len() as int].0 == k2);
        }
        if model_contains(t2, k2) {
            let w = choose|w: int| 0 <= w < t2.len() && t2[w].0 == k2;
            if w == t.len() {
                assert(k2 == k);
            } else {
                assert(t[w].0 == k2);
            }
        }
    }
}

proof fn lemma_idx_eq_when_keys_eq(t1: ConfModel, t2: ConfModel, k: Seq<char>)
    requires
        t1.len() == t2.len(),
        forall|j: int| 0 <= j < t1.len() ==> t1[j].0 == t2[j].0,
    ensures
        model_idx(t1, k) == model_idx(t2, k),
    decreases t1.len(),
{
    if t1.len() > 0 {
        if t1[0].0 == k {
        } else {
            let s1 = t1.subrange(1, t1.len() as int);
            let s2 = t2.subrange(1, t2.len() as int);
            lemma_idx_eq_when_keys_eq(s1, s2, k);
        }
    }
}

proof fn lemma_idx_after_set(t: ConfModel, k: Seq<char>, v: ModelValue, k2: Seq<char>)
    ensures
        model_lookup(set_entry(t, k, v), k2) == (if k2 == k {
            Some(v)
        } else {
            model_lookup(t, k2)
        }),
{
    lemma_model_idx_props(t, k);
    lemma_model_idx_props(t, k2);
    let t2 = set_entry(t, k, v);
    lemma_model_idx_props(t2, k2);
    lemma_contains_set_entry(t, k, v, k2);
    if model_contains(t, k) {
        let i = model_idx(t, k);
        assert forall|j: int| 0 <= j < t.len() implies t[j].0 == t2[j].0 by {
            if j == i {
                assert(t[i].0 == k);
            }
        }
        lemma_idx_eq_when_keys_eq(t, t2, k2);
        if k2 == k {
            assert(model_idx(t2, k2) == i);
        }
    } else {
        let i2 = model_idx(t2, k2);
        if k2 == k {
            assert(forall|j: int| 0 <= j < t.len() ==> t[j].0 != k);
            assert(forall|j: int| 0 <= j < t.len() ==> t2[j].0 != k);
            assert(t2[t.len() as int].0 == k);
            assert(model_contains(t2, k));
            if i2 < t.len() {
                assert(t2[i2].0 == k2);
                assert(false);
            }
            assert(t2[i2].1 == v);
        } else {
            if model_contains(t, k2) {
                lemma_idx_eq_when_keys_eq(t, t2.subrange(0, t.len() as int), k2);
                assert(t2.subrange(0, t.len() as int) =~= t);
                let i = model_idx(t, k2);
                assert(t2[i].0 == k2);
                assert(forall|j: int| 0 <= j < i ==> t2[j].0 != k2);
                lemma_idx_at(t2, k2, i);
            }
        }
    }
}

/// How appending an entry affects key membership.
pub proof fn lemma_contains_push(t: ConfModel, p: (Seq<char>, ModelValue), k: Seq<char>)
    ensures
        model_contains(t.push(p), k) <==> (model_contains(t, k) || p.0 == k),
{
    let t2 = t.push(p);
    if model_contains(t, k) {
        let w = choose|w: int| 0 <= w < t.len() && t[w].0 == k;
        assert(t2[w].0 == k);
    }
    if p.0 == k {
        assert(t2[t.len() as int].0 == k);
    }
    if model_contains(t2, k) {
        let w = choose|w: int| 0 <= w < t2.len() && t2[w].0 == k;
        if w < t.len() {
            assert(t[w].0 == k);
        }
    }
}

/// Appending an entry leaves lookups of other keys unchanged.
pub proof fn lemma_lookup_push_other(t: ConfModel, p: (Seq<char>, ModelValue), k: Seq<char>)
    requires
        k != p.0,
    ensures
        model_contains(t.push(p), k) == model_contains(t, k),
        model_lookup(t.push(p), k) == model_lookup(t, k),
{
    lemma_contains_push(t, p, k);
    lemma_model_idx_props(t, k);
    let t2 = t.push(p);
    if model_contains(t, k) {
        let i = model_idx(t, k);
        lemma_idx_at(t2, k, i);
    }
}

/// When the appended entry carries a key that was absent, setting that key
/// afterwards rewrites the appended entry, and looking it up finds it.
pub proof fn lemma_set_entry_at_last(t: ConfModel, p: (Seq<char>, ModelValue), v: ModelValue)
    requires
        !model_contains(t, p.0),
    ensures
        model_lookup(t.push(p), p.0) == Some(p.1),
        set_entry(t.push(p), p.0, v) == t.push((p.0, v)),
{
    lemma_contains_push(t, p, p.0);
    lemma_model_idx_props(t, p.0);
    let t2 = t.push(p);
    lemma_idx_at(t2, p.0, t.len() as int);
    assert(t2.update(t.len() as int, (p.0, v)) =~= t.push((p.0, v)));
}

/// Setting a key that lives before an appended entry commutes with the
/// append.
pub proof fn lemma_set_entry_push_other(
    t: ConfModel,
    p: (Seq<char>, ModelValue),
    k: Seq<char>,
    v: ModelValue,
)
    requires
        k != p.0,
        model_contains(t, k),
    ensures
        set_entry(t.push(p), k, v) == set_entry(t, k, v).push(p),
{
    lemma_contains_push(t, p, k);
    lemma_model_idx_props(t, k);
    let t2 = t.push(p);
    let i = model_idx(t, k);
    lemma_idx_at(t2, k, i);
    assert(t2.update(i, (k, v)) =~= t.update(i, (k, v)).push(p));
}

/// A dotted key `p`, a `.`, then a dotted key `s`.
pub open spec fn dotted(p: Seq<char>, s: Seq<char>) -> Seq<char> {
    p + seq!['.'] + s
}

/// Round trip: after inserting `v` at a dotted key, looking the same key up
/// yields exactly `v`. Stated for every dotted key, the non-empty ones in
/// particular.
pub proof fn lemma_add_then_get(t: ConfModel, key: Seq<char>, v: ModelValue)
    ensures
        model_get(model_add(t, key, v), key) == Some(v),
    decreases key.len(),
{
    lemma_idx_of_char_props(key, '.');
    let i = idx_of_char(key, '.');
    if 0 <= i && i < key.len() {
        let head = key.subrange(0, i);
        let rest = key.subrange(i + 1, key.len() as int);
        let inner = model_add(sub_of(t, head), rest, v);
        lemma_set_entry_lookup(t, head, ModelValue::TableV(inner));
        lemma_add_then_get(sub_of(t, head), rest, v);
    } else {
        lemma_set_entry_lookup(t, key, v);
    }
}

proof fn lemma_set_entry_twice(t: ConfModel, k: Seq<char>, x: ModelValue, y: ModelValue)
    ensures
        set_entry(set_entry(t, k, x), k, y) == set_entry(t, k, y),
{
    lemma_model_idx_props(t, k);
    let t1 = set_entry(t, k, x);
    lemma_set_entry_lookup(t, k, x);
    lemma_model_idx_props(t1, k);
    if model_contains(t, k) {
        let i = model_idx(t, k);
        assert forall|j: int| 0 <= j < t.len() implies t[j].0 == t1[j].0 by {
            if j == i {
                assert(t[i].0 == k);
            }
        }
        lemma_idx_eq_when_keys_eq(t, t1, k);
        assert(set_entry(t1, k, y) =~= set_entry(t, k, y));
    } else {
        lemma_idx_at(t1, k, t.len() as int);
        assert(set_entry(t1, k, y) =~= t.push((k, y)));
    }
}

/// Re-insertion at the same dotted key replaces the earlier value: inserting
/// twice leaves exactly the tree of the second insertion alone, so no level
/// ever accumulates a duplicate entry for the key.
pub proof fn lemma_readd_overwrites(t: ConfModel, key: Seq<char>, v1: ModelValue, v2: ModelValue)
    ensures
        model_add(model_add(t, key, v1), key, v2) == model_add(t, key, v2),
    decreases key.len(),
{
    lemma_idx_of_char_props(key, '.');
    let i = idx_of_char(key, '.');
    if 0 <= i && i < key.len() {
        let head = key.subrange(0, i);
        let rest = key.subrange(i + 1, key.len() as int);
        let sub = sub_of(t, head);
        let m1 = model_add(sub, rest, v1);
        let t1 = set_entry(t, head, ModelValue::TableV(m1));
        lemma_set_entry_lookup(t, head, ModelValue::TableV(m1));
        lemma_readd_overwrites(sub, rest, v1, v2);
        lemma_set_entry_twice(t, head, ModelValue::TableV(m1),
            ModelValue::TableV(model_add(sub, rest, v2)));
    } else {
        lemma_set_entry_twice(t, key, v1, v2);
    }
}

/// Inserting under a longer dotted key discards whatever the shorter prefix
/// key held before, a scalar in particular: after inserting `x` at `p` and
/// then `y` at `p.s`, the key `p` holds a nested level, and `p.s` holds `y`.
pub proof fn lemma_deeper_add_wins(
    t: ConfModel,
    p: Seq<char>,
    s: Seq<char>,
    x: ModelValue,
    y: ModelValue,
)
    ensures
        model_get(model_add(model_add(t, p, x), dotted(p, s), y), p) matches Some(
            ModelValue::TableV(_),
        ),
        model_get(model_add(model_add(t, p, x), dotted(p, s), y), dotted(p, s)) == Some(y),
    decreases p.len(),
{
    let k = dotted(p, s);
    let t1 = model_add(t, p, x);
    lemma_add_then_get(t1, k, y);
    lemma_idx_of_char_props(p, '.');
    lemma_idx_of_char_props(s, '.');
    let ip = idx_of_char(p, '.');
    assert(idx_of_char(seq!['.'] + s, '.') == 0);
    lemma_idx_of_char_concat(p, seq!['.'] + s, '.');
    assert(p + (seq!['.'] + s) =~= k);
    let ik = idx_of_char(k, '.');
    if ip < p.len() {
        assert(ik == ip);
        let head = p.subrange(0, ip);
        let rest_p = p.subrange(ip + 1, p.len() as int);
        assert(k.subrange(0, ik) =~= head);
        assert(k.subrange(ik + 1, k.len() as int) =~= dotted(rest_p, s));
        let sub = sub_of(t, head);
        let m1 = model_add(sub, rest_p, x);
        lemma_set_entry_lookup(t, head, ModelValue::TableV(m1));
        let inner = model_add(m1, dotted(rest_p, s), y);
        let t2 = set_entry(t1, head, ModelValue::TableV(inner));
        lemma_set_entry_lookup(t1, head, ModelValue::TableV(inner));
        lemma_deeper_add_wins(sub, rest_p, s, x, y);
        assert(model_get(t2, p) == model_get(inner, rest_p));
    } else {
        assert(ip == p.len());
        assert(ik == p.len());
        assert(ik < k.len());
        assert(k.subrange(0, ik) =~= p);
        assert(k.subrange(ik + 1, k.len() as int) =~= s);
        assert(t1 == set_entry(t, p, x));
        let inner = model_add(sub_of(t1, p), s, y);
        let t2 = set_entry(t1, p, ModelValue::TableV(inner));
        lemma_set_entry_lookup(t1, p, ModelValue::TableV(inner));
        assert(model_get(t2, p) == Some(ModelValue::TableV(inner)));
    }
}

proof fn lemma_idx_at(t: ConfModel, k: Seq<char>, i: int)
    requires
        0 <= i <= t.len(),
        forall|j: int| 0 <= j < i ==> t[j].0 != k,
        i < t.len() ==> t[i].0 == k,
    ensures
        model_idx(t, k) == i,
    decreases i,
{
    if i > 0 {
        let t1 = t.subrange(1, t.len() as int);
        lemma_idx_at(t1, k, i - 1);
    }
}

} // verus!
