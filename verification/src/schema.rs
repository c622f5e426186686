//! The schema: declared types for fully qualified keys, and the coercion of
//! raw values under a declared type.

use vstd::prelude::*;
use crate::model::ModelValue;
use crate::number::is_float_text;
use crate::number::is_number_text;
use crate::text::str_eq;
use crate::tree::ConfValue;
use crate::tree::lemma_scalar_views;
use crate::tree::value_view;
use crate::tree::wf_value;

verus! {

/// A failure while loading a configuration.
#[derive(Debug, PartialEq, Eq, Clone, Copy)]
pub enum ConfError {
    /// A source could not be read. Only the unverified I/O layer produces
    /// this variant.
    IoFailure,
    /// A schema line declares a type outside `string`, `bool` and `number`.
    UnknownSchemaType,
    /// A value under a `bool` schema entry is neither `true` nor `false`.
    InvalidBoolean,
    /// A value under a `number` schema entry is not a number.
    InvalidNumber,
}

/// A type that a schema line can declare.
#[derive(Debug, PartialEq, Eq, Clone, Copy)]
pub enum SchemaType {
    Str,
    Bool,
    Number,
}

/// The schema type that the type name `s` declares, or `UnknownSchemaType`.
pub open spec fn spec_schema_type(s: Seq<char>) -> Result<SchemaType, ConfError> {
    if s == "string"@ {
        Ok(SchemaType::Str)
    } else if s == "bool"@ {
        Ok(SchemaType::Bool)
    } else if s == "number"@ {
        Ok(SchemaType::Number)
    } else {
        Err(ConfError::UnknownSchemaType)
    }
}

impl SchemaType {
    /// Parses a type name: `string`, `bool` or `number`.
    pub fn from_str(s: &str) -> (r: Result<SchemaType, ConfError>)
        ensures
            r == spec_schema_type(s@),
    {
        if str_eq(s, "string") {
            Ok(SchemaType::Str)
        } else if str_eq(s, "bool") {
            Ok(SchemaType::Bool)
        } else if str_eq(s, "number") {
            Ok(SchemaType::Number)
        } else {
            Err(ConfError::UnknownSchemaType)
        }
    }
}

/// The coercion of the raw value `s` under the declared type `t`: `string`
/// always succeeds verbatim, `bool` accepts exactly `true` and `false`, and
/// `number` accepts exactly what `is_float_text` describes.
pub open spec fn spec_validate(s: Seq<char>, t: SchemaType) -> Result<ModelValue, ConfError> {
    match t {
        SchemaType::Str => Ok(ModelValue::StrV(s)),
        SchemaType::Bool => if s == "true"@ {
            Ok(ModelValue::BoolV(true))
        } else if s == "false"@ {
            Ok(ModelValue::BoolV(false))
        } else {
            Err(ConfError::InvalidBoolean)
        },
        SchemaType::Number => if is_float_text(s) {
            Ok(ModelValue::NumV(s))
        } else {
            Err(ConfError::InvalidNumber)
        },
    }
}

/// Coerces the raw value `s` under the declared type `t`, or reports why it
/// is rejected.
pub fn validate(s: &str, t: &SchemaType) -> (r: Result<ConfValue, ConfError>)
    ensures
        match r {
            Ok(v) => spec_validate(s@, *t) == Ok::<ModelValue, ConfError>(value_view(v))
                && wf_value(v),
            Err(e) => spec_validate(s@, *t) == Err::<ModelValue, ConfError>(e),
        },
{
    match t {
        SchemaType::Str => {
            let v = ConfValue::StrValue(s.to_owned());
            proof {
                lemma_scalar_views(v);
            }
            Ok(v)
        },
        SchemaType::Bool => {
            if str_eq(s, "true") {
                let v = ConfValue::BoolValue(true);
                proof {
                    lemma_scalar_views(v);
                }
                Ok(v)
            } else if str_eq(s, "false") {
                let v = ConfValue::BoolValue(false);
                proof {
                    lemma_scalar_views(v);
                }
                Ok(v)
            } else {
                Err(ConfError::InvalidBoolean)
            }
        },
        SchemaType::Number => {
            if is_number_text(s) {
                let v = ConfValue::NumberValue(s.to_owned());
                proof {
                    lemma_scalar_views(v);
                }
                Ok(v)
            } else {
                Err(ConfError::InvalidNumber)
            }
        },
    }
}

/// The schema table: a mapping from fully qualified dotted key to declared
/// type, built once from the schema source and read-only afterwards.
pub struct SchemaTable {
    entries: Vec<(String, SchemaType)>,
}

spec fn schema_map_of(s: Seq<(String, SchemaType)>) -> Map<Seq<char>, SchemaType>
    decreases s.len(),
{
    if s.len() == 0 {
        Map::empty()
    } else {
        schema_map_of(s.drop_last()).insert(s.last().0@, s.last().1)
    }
}

impl View for SchemaTable {
    type V = Map<Seq<char>, SchemaType>;

    closed spec fn view(&self) -> Map<Seq<char>, SchemaType> {
        schema_map_of(self.entries@)
    }
}

proof fn lemma_schema_map_skip(s: Seq<(String, SchemaType)>, k: Seq<char>, i: int)
    requires
        0 <= i <= s.len(),
        forall|j: int| i <= j < s.len() ==> s[j].0@ != k,
    ensures
        schema_map_of(s).dom().contains(k) == schema_map_of(s.subrange(0, i)).dom().contains(k),
        schema_map_of(s).dom().contains(k) ==> schema_map_of(s)[k] == schema_map_of(
            s.subrange(0, i),
        )[k],
    decreases s.len() - i,
{
    if i == s.len() {
        assert(s.subrange(0, i) =~= s);
    } else {
        let s1 = s.drop_last();
        assert(s.last().0@ != k);
        assert forall|j: int| i <= j < s1.len() implies s1[j].0@ != k by {
            assert(s1[j] == s[j]);
        }
        lemma_schema_map_skip(s1, k, i);
        assert(s1.subrange(0, i) =~= s.subrange(0, i));
    }
}

impl SchemaTable {
    /// Returns an empty schema table.
    pub fn new() -> (r: SchemaTable)
        ensures
            r@ == Map::<Seq<char>, SchemaType>::empty(),
    {
        SchemaTable { entries: Vec::new() }
    }

    /// Declares the type of `key`, replacing any earlier declaration.
    pub fn insert(&mut self, key: String, t: SchemaType)
        ensures
            final(self)@ == old(self)@.insert(key@, t),
    {
        self.entries.push((key, t));
        proof {
            assert(self.entries@.drop_last() =~= old(self).entries@);
        }
    }

    /// The declared type of `key`, if the schema declares one.
    pub fn get(&self, key: &str) -> (r: Option<SchemaType>)
        ensures
            self@.dom().contains(key@) ==> r == Some(self@[key@]),
            !self@.dom().contains(key@) ==> r is None,
    {
        let n = self.entries.len();
        let mut i: usize = n;
        while i > 0
            invariant
                0 <= i <= n,
                n == self.entries@.len(),
                forall|j: int| i <= j < n ==> self.entries@[j].0@ != key@,
            decreases i,
        {
            i = i - 1;
            if str_eq(self.entries[i].0.as_str(), key) {
                proof {
                    let s = self.entries@;
                    lemma_schema_map_skip(s, key@, i + 1);
                    assert(s.subrange(0, i + 1).drop_last() =~= s.subrange(0, i as int));
                    assert(s.subrange(0, i + 1).last() == s[i as int]);
                    lemma_schema_map_skip(s.subrange(0, i + 1), key@, i + 1);
                    assert(s.subrange(0, i + 1).subrange(0, i + 1) =~= s.subrange(0, i + 1));
                }
                return Some(self.entries[i].1);
            }
        }
        proof {
            lemma_schema_map_skip(self.entries@, key@, 0);
            assert(self.entries@.subrange(0, 0) =~= Seq::<(String, SchemaType)>::empty());
        }
        None
    }
}

} // verus!
