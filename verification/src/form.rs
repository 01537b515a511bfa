//! The schema and form model: how a configuration object is shaped and
//! what a populated form holds before it is flattened into store mutations.

use vstd::prelude::*;
use crate::text::is_internal_key;

verus! {

/// How a select field obtains its choices. Only a static table can be
/// rendered without consulting the backend.
#[derive(Debug, Clone, PartialEq, Eq)]
pub enum Source {
    Static(Vec<(String, String)>),
    Dynamic,
}

#[derive(Debug, Clone, PartialEq, Eq)]
pub enum SelectType {
    Single,
    Many,
}

/// The type of a declared field, directing both flattening and display.
#[derive(Debug, Clone, PartialEq, Eq)]
pub enum FieldType {
    Text,
    Boolean,
    Array,
    Duration,
    Rate,
    Size,
    Expression,
    Select { source: Source, typ: SelectType },
}

/// A declared field: its key, its type, and whether its values are
/// flattened into several index-suffixed keys.
#[derive(Debug, Clone, PartialEq, Eq)]
pub struct Field {
    pub id: String,
    pub typ: FieldType,
    pub multivalue: bool,
}

impl Field {
    pub fn is_multivalue(&self) -> (r: bool)
        ensures
            r == self.multivalue,
    {
        self.multivalue
    }
}

/// The shape of a configuration object.
#[derive(Debug, Clone, PartialEq, Eq)]
pub enum SchemaType {
    Record { prefix: String },
    Entry { prefix: String },
    List,
}

/// A schema: its shape plus its field declarations, iterated in
/// declaration order.
#[derive(Debug, Clone, PartialEq, Eq)]
pub struct Schema {
    pub typ: SchemaType,
    pub fields: Vec<Field>,
}

/// One if/then arm of an expression value.
#[derive(Debug, Clone, PartialEq, Eq)]
pub struct IfThen {
    pub if_: String,
    pub then_: String,
}

#[derive(Debug, Clone, PartialEq, Eq)]
pub struct ExpressionValue {
    pub if_thens: Vec<IfThen>,
    pub else_: String,
}

/// A value held by the form under one key.
#[derive(Debug, Clone, PartialEq, Eq)]
pub enum FormValue {
    Value(String),
    Array(Vec<String>),
    Expression(ExpressionValue),
}

/// A value with nothing in it is dropped by the builder.
pub open spec fn form_value_is_empty(v: FormValue) -> bool {
    match v {
        FormValue::Value(s) => s@.len() == 0,
        FormValue::Array(a) => a@.len() == 0,
        FormValue::Expression(e) => e.if_thens@.len() == 0 && e.else_@.len() == 0,
    }
}

/// A populated form: its schema, whether it edits an existing object,
/// and its values in stored order.
#[derive(Debug, Clone, PartialEq, Eq)]
pub struct FormData {
    pub schema: Schema,
    pub is_update: bool,
    pub values: Vec<(String, FormValue)>,
}

/// The first value stored under `key`, if any.
pub open spec fn lookup_value(values: Seq<(String, FormValue)>, key: Seq<char>) -> Option<
    FormValue,
>
    decreases values.len(),
{
    if values.len() == 0 {
        None
    } else if values[0].0@ == key {
        Some(values[0].1)
    } else {
        lookup_value(values.drop_first(), key)
    }
}

/// The string stored under `key`, when the value there is a plain string.
pub open spec fn spec_value_as_str(values: Seq<(String, FormValue)>, key: Seq<char>) -> Option<
    Seq<char>,
> {
    match lookup_value(values, key) {
        Some(FormValue::Value(s)) => Some(s@),
        _ => None,
    }
}

/// Absent values count as empty, as do present but contentless ones.
pub open spec fn spec_value_is_empty(values: Seq<(String, FormValue)>, key: Seq<char>) -> bool {
    match lookup_value(values, key) {
        None => true,
        Some(v) => form_value_is_empty(v),
    }
}

proof fn lookup_value_match(values: Seq<(String, FormValue)>, key: Seq<char>, i: int)
    requires
        0 <= i < values.len(),
        values[i].0@ == key,
        forall|j: int| 0 <= j < i ==> values[j].0@ != key,
    ensures
        lookup_value(values, key) == Some(values[i].1),
    decreases i,
{
    if i == 0 {
    } else {
        assert(values.drop_first()[i - 1] == values[i]);
        assert(forall|j: int| 0 <= j < i - 1 ==> values.drop_first()[j] == values[j + 1]);
        lookup_value_match(values.drop_first(), key, i - 1);
    }
}

proof fn lookup_value_no_match(values: Seq<(String, FormValue)>, key: Seq<char>)
    requires
        forall|j: int| 0 <= j < values.len() ==> values[j].0@ != key,
    ensures
        lookup_value(values, key) is None,
    decreases values.len(),
{
    if values.len() == 0 {
    } else {
        assert(forall|j: int|
            0 <= j < values.len() - 1 ==> values.drop_first()[j] == values[j + 1]);
        lookup_value_no_match(values.drop_first(), key);
    }
}

impl FormData {
    /// Finds the first value stored under `key`.
    pub fn value_of(&self, key: &str) -> (r: Option<&FormValue>)
        ensures
            match r {
                Some(v) => lookup_value(self.values@, key@) == Some(*v),
                None => lookup_value(self.values@, key@) is None,
            },
    {
        let n = self.values.len();
        let mut i: usize = 0;
        while i < n
            invariant
                0 <= i <= n,
                n == self.values@.len(),
                forall|j: int| 0 <= j < i ==> self.values@[j].0@ != key@,
            decreases n - i,
        {
            if crate::text::str_eq(self.values[i].0.as_str(), key) {
                proof {
                    lookup_value_match(self.values@, key@, i as int);
                }
                return Some(&self.values[i].1);
            }
            i += 1;
        }
        proof {
            lookup_value_no_match(self.values@, key@);
        }
        None
    }

    /// The string stored under `key`, when the value there is a plain string.
    pub fn value_as_str(&self, key: &str) -> (r: Option<&String>)
        ensures
            match r {
                Some(s) => spec_value_as_str(self.values@, key@) == Some(s@),
                None => spec_value_as_str(self.values@, key@) is None,
            },
    {
        match self.value_of(key) {
            Some(FormValue::Value(s)) => Some(s),
            _ => None,
        }
    }

    /// True when nothing usable is stored under `key`.
    pub fn value_is_empty(&self, key: &str) -> (r: bool)
        ensures
            r == spec_value_is_empty(self.values@, key@),
    {
        match self.value_of(key) {
            None => true,
            Some(FormValue::Value(s)) => s.as_str().unicode_len() == 0,
            Some(FormValue::Array(a)) => a.len() == 0,
            Some(FormValue::Expression(e)) => e.if_thens.len() == 0 && e.else_.as_str().unicode_len()
                == 0,
        }
    }
}

} // verus!
