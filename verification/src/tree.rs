//! The configuration tree: a nested, insertion-ordered mapping from key
//! segments to values, built by dotted-key insertion.
//!
//! A tree level is a singly linked list with the newest entry at the head;
//! its view is the level of the mathematical model (`crate::model`) with the
//! oldest entry first. Setting an existing segment replaces its value in
//! place, so no level ever holds two entries with the same segment.

use vstd::prelude::*;
use vstd::string::StrSliceExecFns;
use crate::model::ConfModel;
use crate::model::ModelValue;
use crate::model::model_add;
use crate::model::model_contains;
use crate::model::model_lookup;
use crate::model::set_entry;
use crate::model::sub_of;
use crate::model::lemma_contains_push;
use crate::model::lemma_lookup_push_other;
use crate::model::lemma_set_entry_at_last;
use crate::model::lemma_set_entry_push_other;
use crate::model::lemma_set_entry_lookup;
use crate::text::find_char;
use crate::text::lemma_idx_of_char_props;
use crate::text::str_eq;

verus! {

/// The error of the typed accessors: the stored value is of another variant
/// than the requested one.
#[derive(Debug)]
pub struct TypeMismatchError;

/// One configuration value: a string, a boolean, the text of a validated
/// number, or a nested tree.
#[derive(Debug)]
pub enum ConfValue {
    StrValue(String),
    BoolValue(bool),
    /// The raw text of a value that number validation accepted. The text,
    /// not a float, is stored, so that the tree stays within what the
    /// verifier can reason about; callers parse it when they need the value.
    NumberValue(String),
    Conf(Box<ConfList>),
}

#[derive(Debug)]
struct Node {
    key: String,
    value: ConfValue,
    next: Option<Box<Node>>,
}

/// One level of the configuration tree.
#[derive(Debug)]
pub struct ConfList {
    head: Option<Box<Node>>,
}

spec fn val_model(v: ConfValue) -> ModelValue
    decreases v,
{
    match v {
        ConfValue::StrValue(s) => ModelValue::StrV(s@),
        ConfValue::BoolValue(b) => ModelValue::BoolV(b),
        ConfValue::NumberValue(s) => ModelValue::NumV(s@),
        ConfValue::Conf(l) => ModelValue::TableV(node_view(l.head)),
    }
}

spec fn node_view(n: Option<Box<Node>>) -> ConfModel
    decreases n,
{
    match n {
        None => Seq::empty(),
        Some(b) => node_view(b.next).push((b.key@, val_model(b.value))),
    }
}

/// The model value that `v` stands for.
pub closed spec fn value_view(v: ConfValue) -> ModelValue {
    val_model(v)
}

spec fn wf_val(v: ConfValue) -> bool
    decreases v,
{
    match v {
        ConfValue::Conf(l) => wf_nodes(l.head),
        _ => true,
    }
}

spec fn wf_nodes(n: Option<Box<Node>>) -> bool
    decreases n,
{
    match n {
        None => true,
        Some(b) => {
            &&& !model_contains(node_view(b.next), b.key@)
            &&& wf_val(b.value)
            &&& wf_nodes(b.next)
        },
    }
}

/// Well-formedness of a value: every level of every nested tree holds at
/// most one entry per key segment.
pub closed spec fn wf_value(v: ConfValue) -> bool {
    wf_val(v)
}

/// The views and well-formedness of the scalar variants, spelled out for
/// modules that build scalar values directly.
pub proof fn lemma_scalar_views(v: ConfValue)
    ensures
        v matches ConfValue::StrValue(s) ==> value_view(v) == ModelValue::StrV(s@)
            && wf_value(v),
        v matches ConfValue::BoolValue(b) ==> value_view(v) == ModelValue::BoolV(b)
            && wf_value(v),
        v matches ConfValue::NumberValue(s) ==> value_view(v) == ModelValue::NumV(s@)
            && wf_value(v),
{
}

impl ConfValue {
    /// Returns the stored string, or `TypeMismatchError` when the value is
    /// of another variant.
    pub fn as_str(&self) -> (r: Result<&String, TypeMismatchError>)
        ensures
            match r {
                Ok(s) => value_view(*self) == ModelValue::StrV(s@),
                Err(_) => !(value_view(*self) is StrV),
            },
    {
        match self {
            ConfValue::StrValue(s) => Ok(s),
            _ => Err(TypeMismatchError),
        }
    }

    /// Returns the stored boolean, or `TypeMismatchError` when the value is
    /// of another variant.
    pub fn as_bool(&self) -> (r: Result<bool, TypeMismatchError>)
        ensures
            match r {
                Ok(b) => value_view(*self) == ModelValue::BoolV(b),
                Err(_) => !(value_view(*self) is BoolV),
            },
    {
        match self {
            ConfValue::BoolValue(b) => Ok(*b),
            _ => Err(TypeMismatchError),
        }
    }

    /// Returns the text of the stored number, or `TypeMismatchError` when
    /// the value is of another variant. The text is what number validation
    /// accepted; parse it to obtain the numeric value.
    pub fn as_number(&self) -> (r: Result<&String, TypeMismatchError>)
        ensures
            match r {
                Ok(s) => value_view(*self) == ModelValue::NumV(s@),
                Err(_) => !(value_view(*self) is NumV),
            },
    {
        match self {
            ConfValue::NumberValue(s) => Ok(s),
            _ => Err(TypeMismatchError),
        }
    }

    /// Returns the nested tree, or `TypeMismatchError` when the value is a
    /// scalar.
    pub fn as_conf(&self) -> (r: Result<&ConfList, TypeMismatchError>)
        ensures
            match r {
                Ok(c) => value_view(*self) == ModelValue::TableV(c@) && (wf_value(*self)
                    ==> c.wf()),
                Err(_) => !(value_view(*self) is TableV),
            },
    {
        match self {
            ConfValue::Conf(c) => Ok(c),
            _ => Err(TypeMismatchError),
        }
    }

    /// This value in the flattened form.
    fn to_vec_value(&self) -> (r: ConfVecValue)
        ensures
            vec_value_view(r) == value_view(*self),
        decreases self,
    {
        match self {
            ConfValue::StrValue(s) => ConfVecValue::StrValue(s.clone()),
            ConfValue::BoolValue(b) => ConfVecValue::BoolValue(*b),
            ConfValue::NumberValue(s) => ConfVecValue::NumberValue(s.clone()),
            ConfValue::Conf(c) => ConfVecValue::Conf((&**c).to_vec()),
        }
    }
}

/// The flattened, comparable form of one tree level, oldest entry first.
pub type ConfVec = Vec<(String, ConfVecValue)>;

/// The value of one `ConfVec` entry.
#[derive(Debug, PartialEq)]
pub enum ConfVecValue {
    StrValue(String),
    BoolValue(bool),
    NumberValue(String),
    Conf(ConfVec),
}

/// The model value that a `ConfVecValue` stands for.
pub open spec fn vec_value_view(v: ConfVecValue) -> ModelValue
    decreases v,
{
    match v {
        ConfVecValue::StrValue(s) => ModelValue::StrV(s@),
        ConfVecValue::BoolValue(b) => ModelValue::BoolV(b),
        ConfVecValue::NumberValue(s) => ModelValue::NumV(s@),
        ConfVecValue::Conf(c) => ModelValue::TableV(conf_vec_view(c@)),
    }
}

/// The model level that a `ConfVec` stands for.
pub open spec fn conf_vec_view(s: Seq<(String, ConfVecValue)>) -> ConfModel
    decreases s,
{
    if s.len() == 0 {
        Seq::empty()
    } else {
        seq![(s[0].0@, vec_value_view(s[0].1))] + conf_vec_view(s.subrange(1, s.len() as int))
    }
}

impl View for ConfList {
    type V = ConfModel;

    closed spec fn view(&self) -> ConfModel {
        node_view(self.head)
    }
}

impl ConfList {
    /// Well-formedness: every level of the tree holds at most one entry per
    /// key segment.
    pub closed spec fn wf(&self) -> bool {
        wf_nodes(self.head)
    }

    /// Returns an empty tree level.
    pub fn new() -> (r: ConfList)
        ensures
            r@ == Seq::<(Seq<char>, ModelValue)>::empty(),
            r.wf(),
    {
        ConfList { head: None }
    }

    /// Whether this level holds an entry with key segment `key`.
    pub fn contains_key(&self, key: &str) -> (b: bool)
        ensures
            b == model_contains(self@, key@),
    {
        Self::contains_in_nodes(&self.head, key)
    }

    fn contains_in_nodes(n: &Option<Box<Node>>, key: &str) -> (b: bool)
        ensures
            b == model_contains(node_view(*n), key@),
        decreases n,
    {
        match n {
            None => false,
            Some(b) => {
                proof {
                    lemma_contains_push(node_view(b.next), (b.key@, val_model(b.value)), key@);
                }
                if str_eq(b.key.as_str(), key) {
                    true
                } else {
                    Self::contains_in_nodes(&b.next, key)
                }
            },
        }
    }

    /// The value at key segment `key` of this level, if any.
    pub fn get(&self, key: &str) -> (r: Option<&ConfValue>)
        requires
            self.wf(),
        ensures
            match r {
                Some(v) => model_lookup(self@, key@) == Some(value_view(*v)) && wf_value(*v),
                None => model_lookup(self@, key@) is None,
            },
    {
        Self::get_in_nodes(&self.head, key)
    }

    fn get_in_nodes<'a>(n: &'a Option<Box<Node>>, key: &str) -> (r: Option<&'a ConfValue>)
        requires
            wf_nodes(*n),
        ensures
            match r {
                Some(v) => model_lookup(node_view(*n), key@) == Some(val_model(*v)) && wf_val(
                    *v,
                ),
                None => model_lookup(node_view(*n), key@) is None,
            },
        decreases n,
    {
        match n {
            None => None,
            Some(b) => {
                let ghost t = node_view(b.next);
                let ghost p = (b.key@, val_model(b.value));
                if str_eq(b.key.as_str(), key) {
                    proof {
                        lemma_set_entry_at_last(t, p, p.1);
                    }
                    Some(&b.value)
                } else {
                    proof {
                        lemma_lookup_push_other(t, p, key@);
                    }
                    Self::get_in_nodes(&b.next, key)
                }
            },
        }
    }

    /// Sets the entry at the (undotted) key segment `key` to `value`:
    /// replaced in place when the segment is present, appended otherwise.
    pub fn insert(&mut self, key: String, value: ConfValue)
        requires
            old(self).wf(),
            wf_value(value),
        ensures
            final(self).wf(),
            final(self)@ == set_entry(old(self)@, key@, value_view(value)),
    {
        if self.contains_key(key.as_str()) {
            Self::replace_in_nodes(&mut self.head, key, value);
        } else {
            let next = self.head.take();
            self.head = Some(Box::new(Node { key, value, next }));
        }
    }

    fn replace_in_nodes(n: &mut Option<Box<Node>>, key: String, value: ConfValue)
        requires
            wf_nodes(*old(n)),
            wf_val(value),
            model_contains(node_view(*old(n)), key@),
        ensures
            wf_nodes(*final(n)),
            node_view(*final(n)) == set_entry(node_view(*old(n)), key@, val_model(value)),
        decreases *old(n),
    {
        match n.take() {
            None => {
                proof {
                    assert(false);
                }
            },
            Some(mut b) => {
                let ghost t = node_view(b.next);
                let ghost p = (b.key@, val_model(b.value));
                if str_eq(b.key.as_str(), key.as_str()) {
                    proof {
                        lemma_set_entry_at_last(t, p, val_model(value));
                    }
                    b.value = value;
                    *n = Some(b);
                } else {
                    proof {
                        lemma_contains_push(t, p, key@);
                        lemma_set_entry_push_other(t, p, key@, val_model(value));
                        lemma_set_entry_lookup(t, key@, val_model(value));
                    }
                    Self::replace_in_nodes(&mut b.next, key, value);
                    *n = Some(b);
                }
            },
        }
    }

    /// Dotted-key path insertion: the key is split at its first `.`; a leaf
    /// key sets the entry of this level directly, and a nested key descends
    /// into the level stored under the head segment, creating it when it is
    /// missing and replacing a scalar met on the way, so that the final
    /// segment ends up holding `value`.
    pub fn add_value(&mut self, key: &str, value: ConfValue)
        requires
            old(self).wf(),
            wf_value(value),
        ensures
            final(self).wf(),
            final(self)@ == model_add(old(self)@, key@, value_view(value)),
        decreases key@.len(), 0int, 0int,
    {
        proof {
            lemma_idx_of_char_props(key@, '.');
        }
        match find_char(key, '.') {
            None => {
                self.insert(key.to_owned(), value);
            },
            Some(i) => {
                let n = key.unicode_len();
                let head = key.substring_char(0, i);
                let rest = key.substring_char(i + 1, n);
                if self.contains_key(head) {
                    Self::add_nested(&mut self.head, head, rest, value);
                } else {
                    let mut child = ConfList::new();
                    child.add_value(rest, value);
                    self.insert(head.to_owned(), ConfValue::Conf(Box::new(child)));
                }
            },
        }
    }

    /// The tree flattened level by level into vectors, oldest entry first.
    pub fn to_vec(&self) -> (r: ConfVec)
        ensures
            conf_vec_view(r@) == self@,
        decreases self,
    {
        let mut out: ConfVec = Vec::new();
        Self::collect_nodes(&self.head, &mut out);
        out
    }

    fn collect_nodes(n: &Option<Box<Node>>, out: &mut ConfVec)
        ensures
            conf_vec_view(final(out)@) == node_view(*n) + conf_vec_view(old(out)@),
        decreases n,
    {
        let ghost out0 = out@;
        match n {
            None => {
                proof {
                    assert(node_view(*n) + conf_vec_view(out0) =~= conf_vec_view(out0));
                }
            },
            Some(b) => {
                let ghost pm = (b.key@, val_model(b.value));
                let item = (b.key.clone(), b.value.to_vec_value());
                out.insert(0, item);
                let ghost out1 = out@;
                proof {
                    assert(out1 =~= seq![item] + out0);
                    assert(out1.subrange(1, out1.len() as int) =~= out0);
                    assert(conf_vec_view(out1) == seq![pm] + conf_vec_view(out0));
                }
                Self::collect_nodes(&b.next, out);
                proof {
                    assert(node_view(*n) == node_view(b.next).push(pm));
                    assert(node_view(b.next) + (seq![pm] + conf_vec_view(out0)) =~= node_view(
                        b.next,
                    ).push(pm) + conf_vec_view(out0));
                }
            },
        }
    }

    fn add_nested(n: &mut Option<Box<Node>>, head: &str, rest: &str, value: ConfValue)
        requires
            wf_nodes(*old(n)),
            wf_val(value),
            model_contains(node_view(*old(n)), head@),
        ensures
            wf_nodes(*final(n)),
            node_view(*final(n)) == set_entry(
                node_view(*old(n)),
                head@,
                ModelValue::TableV(
                    model_add(sub_of(node_view(*old(n)), head@), rest@, val_model(value)),
                ),
            ),
        decreases rest@.len(), 1int, node_view(*old(n)).len() as int,
    {
        match n.take() {
            None => {
                proof {
                    assert(false);
                }
            },
            Some(mut b) => {
                let ghost t = node_view(b.next);
                let ghost p = (b.key@, val_model(b.value));
                proof {
                    assert(*old(n) == Some(b));
                    assert(node_view(*old(n)) == t.push(p));
                    assert(!model_contains(t, p.0));
                    assert(wf_val(b.value));
                    assert(wf_nodes(b.next));
                }
                if str_eq(b.key.as_str(), head) {
                    proof {
                        lemma_set_entry_at_last(t, p, p.1);
                    }
                    let Node { key, value: old_value, next } = *b;
                    proof {
                        assert(key@ == p.0);
                        assert(node_view(next) == t);
                        assert(val_model(old_value) == p.1);
                    }
                    let new_value = match old_value {
                        ConfValue::Conf(mut child) => {
                            (&mut *child).add_value(rest, value);
                            ConfValue::Conf(child)
                        },
                        _ => {
                            let mut child = ConfList::new();
                            child.add_value(rest, value);
                            ConfValue::Conf(Box::new(child))
                        },
                    };
                    proof {
                        assert(wf_val(new_value));
                        lemma_set_entry_at_last(t, p, val_model(new_value));
                    }
                    *n = Some(Box::new(Node { key, value: new_value, next }));
                } else {
                    proof {
                        lemma_contains_push(t, p, head@);
                        lemma_lookup_push_other(t, p, head@);
                    }
                    Self::add_nested(&mut b.next, head, rest, value);
                    proof {
                        let x = ModelValue::TableV(
                            model_add(sub_of(t, head@), rest@, val_model(value)),
                        );
                        lemma_set_entry_push_other(t, p, head@, x);
                        lemma_set_entry_lookup(t, head@, x);
                    }
                    *n = Some(b);
                }
            },
        }
    }
}

} // verus!
