//! The tokenizers and the parser: config lines and schema lines are
//! tokenized one by one, values of schema-declared keys are coerced, and
//! the pairs are inserted into the configuration tree by dotted-key
//! insertion.

use vstd::prelude::*;
use vstd::string::StrSliceExecFns;
use crate::model::ConfModel;
use crate::model::ModelValue;
use crate::model::model_add;
use crate::schema::ConfError;
use crate::schema::SchemaTable;
use crate::schema::SchemaType;
use crate::schema::spec_schema_type;
use crate::schema::spec_validate;
use crate::schema::validate;
use crate::text::find_char;
use crate::text::find_sub;
use crate::text::idx_of_char;
use crate::text::idx_of_seq;
use crate::text::lemma_idx_of_seq_props;
use crate::text::spec_trim;
use crate::text::trim;
use crate::tree::ConfList;
use crate::tree::ConfValue;
use crate::tree::lemma_scalar_views;

verus! {

/// A key paired with what follows it on the line: the raw value of a config
/// line, or the type name of a schema line.
pub type KeyValue<'a> = (&'a str, &'a str);

/// The tokenizing of one config line: trim, drop blank and comment lines,
/// split at the first `=`, trim both pieces, and drop the line unless both
/// are non-empty.
pub open spec fn spec_line_token(line: Seq<char>) -> Option<(Seq<char>, Seq<char>)> {
    let t = spec_trim(line);
    if t.len() == 0 {
        None
    } else if t[0] == '#' || t[0] == ';' {
        None
    } else {
        let i = idx_of_char(t, '=');
        if !(0 <= i && i < t.len()) {
            None
        } else {
            let k = spec_trim(t.subrange(0, i));
            let v = spec_trim(t.subrange(i + 1, t.len() as int));
            if k.len() == 0 || v.len() == 0 {
                None
            } else {
                Some((k, v))
            }
        }
    }
}

/// The arrow that separates a schema key from its type name.
pub open spec fn arrow() -> Seq<char> {
    seq!['-', '>']
}

/// The tokenizing of one schema line: trim, drop blank lines, split at the
/// first `->`, trim both pieces, and drop the line unless both are
/// non-empty. Unlike config lines, schema lines have no comment syntax: a
/// leading `#` or `;` is part of the key.
pub open spec fn spec_schema_token(line: Seq<char>) -> Option<(Seq<char>, Seq<char>)> {
    let t = spec_trim(line);
    if t.len() == 0 {
        None
    } else {
        let i = idx_of_seq(t, arrow());
        if !(0 <= i && i < t.len()) {
            None
        } else {
            let k = spec_trim(t.subrange(0, i));
            let v = spec_trim(t.subrange(i + 2, t.len() as int));
            if k.len() == 0 || v.len() == 0 {
                None
            } else {
                Some((k, v))
            }
        }
    }
}

/// Tokenizes one config line; `None` stands for a line without content: a
/// blank line, a comment, or a line without `=` or with an empty key or
/// value.
pub fn parse_line<'a>(line: &'a str) -> (r: Option<KeyValue<'a>>)
    ensures
        match r {
            Some(kv) => spec_line_token(line@) == Some((kv.0@, kv.1@)),
            None => spec_line_token(line@) is None,
        },
{
    let l = trim(line);
    let n = l.unicode_len();
    if n == 0 {
        return None;
    }
    let c0 = l.get_char(0);
    if c0 == '#' || c0 == ';' {
        return None;
    }
    match find_char(l, '=') {
        None => None,
        Some(i) => {
            let key = trim(l.substring_char(0, i));
            let value = trim(l.substring_char(i + 1, n));
            if key.unicode_len() == 0 || value.unicode_len() == 0 {
                None
            } else {
                Some((key, value))
            }
        },
    }
}

/// Splits `s` at the first occurrence of `delim` into the pieces before and
/// after it, or returns `None` when `delim` does not occur.
pub fn split_by_str<'a>(s: &'a str, delim: &str) -> (r: Option<(&'a str, &'a str)>)
    requires
        delim@.len() > 0,
    ensures
        ({
            let i = idx_of_seq(s@, delim@);
            match r {
                Some(parts) => i < s@.len() && parts.0@ == s@.subrange(0, i) && parts.1@
                    == s@.subrange(i + delim@.len(), s@.len() as int),
                None => i == s@.len(),
            }
        }),
{
    match find_sub(s, delim) {
        None => None,
        Some(i) => {
            let n = s.unicode_len();
            let dn = delim.unicode_len();
            Some((s.substring_char(0, i), s.substring_char(i + dn, n)))
        },
    }
}

/// Tokenizes one schema line; `None` stands for a line without content.
pub fn parse_schema_line<'a>(line: &'a str) -> (r: Option<KeyValue<'a>>)
    ensures
        match r {
            Some(kv) => spec_schema_token(line@) == Some((kv.0@, kv.1@)),
            None => spec_schema_token(line@) is None,
        },
{
    let l = trim(line);
    let n = l.unicode_len();
    if n == 0 {
        return None;
    }
    proof {
        reveal_strlit("->");
        assert("->"@ =~= arrow());
        lemma_idx_of_seq_props(l@, "->"@);
    }
    match split_by_str(l, "->") {
        None => None,
        Some((k0, v0)) => {
            let key = trim(k0);
            let value = trim(v0);
            if key.unicode_len() == 0 || value.unicode_len() == 0 {
                None
            } else {
                Some((key, value))
            }
        },
    }
}

/// The schema source folded into a key-to-type mapping, starting from
/// `acc`: lines without content are skipped, and an unknown type name fails
/// the whole fold.
pub open spec fn spec_schema_fold(
    lines: Seq<Seq<char>>,
    acc: Map<Seq<char>, SchemaType>,
) -> Result<Map<Seq<char>, SchemaType>, ConfError>
    decreases lines.len(),
{
    if lines.len() == 0 {
        Ok(acc)
    } else {
        match spec_schema_token(lines[0]) {
            None => spec_schema_fold(lines.drop_first(), acc),
            Some(kv) => match spec_schema_type(kv.1) {
                Err(e) => Err(e),
                Ok(t) => spec_schema_fold(lines.drop_first(), acc.insert(kv.0, t)),
            },
        }
    }
}

/// The mapping that a schema source declares, or the error that aborts it.
pub open spec fn spec_parse_schema(lines: Seq<Seq<char>>) -> Result<
    Map<Seq<char>, SchemaType>,
    ConfError,
> {
    spec_schema_fold(lines, Map::empty())
}

/// The config source folded into a tree model, starting from `acc`: lines
/// without content are skipped, values of schema-declared keys are coerced
/// (a coercion failure fails the whole fold), undeclared keys are stored as
/// strings, and each pair is inserted by dotted-key insertion.
pub open spec fn spec_config_fold(
    lines: Seq<Seq<char>>,
    schema: Map<Seq<char>, SchemaType>,
    acc: ConfModel,
) -> Result<ConfModel, ConfError>
    decreases lines.len(),
{
    if lines.len() == 0 {
        Ok(acc)
    } else {
        match spec_line_token(lines[0]) {
            None => spec_config_fold(lines.drop_first(), schema, acc),
            Some(kv) => {
                let tv = if schema.dom().contains(kv.0) {
                    spec_validate(kv.1, schema[kv.0])
                } else {
                    Ok(ModelValue::StrV(kv.1))
                };
                match tv {
                    Err(e) => Err(e),
                    Ok(m) => spec_config_fold(lines.drop_first(), schema, model_add(acc, kv.0, m)),
                }
            },
        }
    }
}

/// The tree model that a config source parses to under `schema`, or the
/// error that aborts the parse.
pub open spec fn spec_parse_config(
    lines: Seq<Seq<char>>,
    schema: Map<Seq<char>, SchemaType>,
) -> Result<ConfModel, ConfError> {
    spec_config_fold(lines, schema, Seq::empty())
}

/// The whole parse: the schema source, when one is given, is consumed
/// first, and its error aborts the parse before any config line counts.
pub open spec fn spec_parse(config: Seq<Seq<char>>, schema: Option<Seq<Seq<char>>>) -> Result<
    ConfModel,
    ConfError,
> {
    match schema {
        None => spec_parse_config(config, Map::empty()),
        Some(sl) => match spec_parse_schema(sl) {
            Err(e) => Err(e),
            Ok(m) => spec_parse_config(config, m),
        },
    }
}

/// Builds the schema table from schema source lines; an unknown type name
/// aborts with `UnknownSchemaType` and no partial schema is used.
pub fn parse_schema(lines: &Vec<String>) -> (r: Result<SchemaTable, ConfError>)
    ensures
        match r {
            Ok(table) => spec_parse_schema(lines.deep_view()) == Ok::<
                Map<Seq<char>, SchemaType>,
                ConfError,
            >(table@),
            Err(e) => spec_parse_schema(lines.deep_view()) == Err::<
                Map<Seq<char>, SchemaType>,
                ConfError,
            >(e),
        },
{
    let ghost lv = lines.deep_view();
    let mut table = SchemaTable::new();
    let n = lines.len();
    let mut idx: usize = 0;
    proof {
        assert(lv.skip(0) =~= lv);
    }
    while idx < n
        invariant
            0 <= idx <= n,
            n == lines.len(),
            lv == lines.deep_view(),
            spec_schema_fold(lv.skip(idx as int), table@) == spec_parse_schema(lv),
        decreases n - idx,
    {
        let line = &lines[idx];
        proof {
            assert(lv.skip(idx as int)[0] == line@);
            assert(lv.skip(idx as int).drop_first() =~= lv.skip(idx + 1));
        }
        match parse_schema_line(line.as_str()) {
            None => {},
            Some((k, t)) => {
                match SchemaType::from_str(t) {
                    Err(e) => {
                        return Err(e);
                    },
                    Ok(ty) => {
                        table.insert(k.to_owned(), ty);
                    },
                }
            },
        }
        idx = idx + 1;
    }
    proof {
        assert(lv.skip(n as int) =~= Seq::<Seq<char>>::empty());
    }
    Ok(table)
}

/// Parses config source lines under an already-built schema table; a
/// coercion failure aborts the parse and no partial tree is returned.
pub fn parse_conf(lines: &Vec<String>, schema: &SchemaTable) -> (r: Result<ConfList, ConfError>)
    ensures
        match r {
            Ok(tree) => spec_parse_config(lines.deep_view(), schema@) == Ok::<
                ConfModel,
                ConfError,
            >(tree@) && tree.wf(),
            Err(e) => spec_parse_config(lines.deep_view(), schema@) == Err::<
                ConfModel,
                ConfError,
            >(e),
        },
{
    let ghost lv = lines.deep_view();
    let mut map = ConfList::new();
    let n = lines.len();
    let mut idx: usize = 0;
    proof {
        assert(lv.skip(0) =~= lv);
    }
    while idx < n
        invariant
            0 <= idx <= n,
            n == lines.len(),
            lv == lines.deep_view(),
            map.wf(),
            spec_config_fold(lv.skip(idx as int), schema@, map@) == spec_parse_config(lv, schema@),
        decreases n - idx,
    {
        let line = &lines[idx];
        proof {
            assert(lv.skip(idx as int)[0] == line@);
            assert(lv.skip(idx as int).drop_first() =~= lv.skip(idx + 1));
        }
        match parse_line(line.as_str()) {
            None => {},
            Some((key, value)) => {
                let typed = match schema.get(key) {
                    Some(t) => {
                        match validate(value, &t) {
                            Ok(v) => v,
                            Err(e) => {
                                return Err(e);
                            },
                        }
                    },
                    None => {
                        let v = ConfValue::StrValue(value.to_owned());
                        proof {
                            lemma_scalar_views(v);
                        }
                        v
                    },
                };
                map.add_value(key, typed);
            },
        }
        idx = idx + 1;
    }
    proof {
        assert(lv.skip(n as int) =~= Seq::<Seq<char>>::empty());
    }
    Ok(map)
}

/// Parses a configuration: the schema source is consumed first when one is
/// given (no schema means every value stays a string), then the config
/// lines, and the finished tree is returned only when nothing aborted.
pub fn parse(lines: &Vec<String>, schema_lines: Option<&Vec<String>>) -> (r: Result<
    ConfList,
    ConfError,
>)
    ensures
        ({
            let sl = match schema_lines {
                Some(v) => Some(v.deep_view()),
                None => None,
            };
            match r {
                Ok(tree) => spec_parse(lines.deep_view(), sl) == Ok::<ConfModel, ConfError>(tree@)
                    && tree.wf(),
                Err(e) => spec_parse(lines.deep_view(), sl) == Err::<ConfModel, ConfError>(e),
            }
        }),
{
    let schema = match schema_lines {
        Some(sl) => {
            match parse_schema(sl) {
                Ok(t) => t,
                Err(e) => {
                    return Err(e);
                },
            }
        },
        None => SchemaTable::new(),
    };
    parse_conf(lines, &schema)
}

/// Comment lines and blank lines contribute no entries: a line whose
/// trimmed text is empty or starts with `#` or `;` can be dropped from a
/// config source without changing what the source parses to.
pub proof fn lemma_inert_line_dropped(
    before: Seq<Seq<char>>,
    l: Seq<char>,
    after: Seq<Seq<char>>,
    schema: Map<Seq<char>, SchemaType>,
    acc: ConfModel,
)
    requires
        spec_trim(l).len() == 0 || spec_trim(l)[0] == '#' || spec_trim(l)[0] == ';',
    ensures
        spec_config_fold(before + seq![l] + after, schema, acc) == spec_config_fold(
            before + after,
            schema,
            acc,
        ),
    decreases before.len(),
{
    assert(spec_line_token(l) is None);
    if before.len() == 0 {
        assert(before + seq![l] + after =~= seq![l] + after);
        assert((seq![l] + after)[0] == l);
        assert((seq![l] + after).drop_first() =~= after);
        assert(before + after =~= after);
    } else {
        let b1 = before.drop_first();
        let whole = before + seq![l] + after;
        let without = before + after;
        assert(whole[0] == before[0]);
        assert(without[0] == before[0]);
        assert(whole.drop_first() =~= b1 + seq![l] + after);
        assert(without.drop_first() =~= b1 + after);
        match spec_line_token(before[0]) {
            None => {
                lemma_inert_line_dropped(b1, l, after, schema, acc);
            },
            Some(kv) => {
                let tv = if schema.dom().contains(kv.0) {
                    spec_validate(kv.1, schema[kv.0])
                } else {
                    Ok(ModelValue::StrV(kv.1))
                };
                match tv {
                    Err(e) => {
                    },
                    Ok(m) => {
                        lemma_inert_line_dropped(b1, l, after, schema, model_add(acc, kv.0, m));
                    },
                }
            },
        }
    }
}

} // verus!
