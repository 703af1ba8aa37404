//! Result values: the tree a query execution produces.

use vstd::prelude::*;
use vstd::pervasive::VecAdditionalExecFns;
use crate::keyed::{assoc_insert, lemma_assoc_find_bounds, lemma_assoc_has_iff};

verus! {

/// A scalar leaf of a result tree.
#[derive(Debug)]
pub enum DefaultScalarValue {
    Int(i64),
    Boolean(bool),
    Str(String),
}

impl Clone for DefaultScalarValue {
    fn clone(&self) -> (r: Self)
        ensures
            r == *self,
    {
        match self {
            DefaultScalarValue::Int(i) => DefaultScalarValue::Int(*i),
            DefaultScalarValue::Boolean(b) => DefaultScalarValue::Boolean(*b),
            DefaultScalarValue::Str(s) => DefaultScalarValue::Str(s.clone()),
        }
    }
}

/// The mathematical shape of a scalar: string content is its character
/// sequence.
pub enum ScalarModel {
    Int(int),
    Boolean(bool),
    Str(Seq<char>),
}

pub open spec fn scalar_model(s: DefaultScalarValue) -> ScalarModel {
    match s {
        DefaultScalarValue::Int(i) => ScalarModel::Int(i as int),
        DefaultScalarValue::Boolean(b) => ScalarModel::Boolean(b),
        DefaultScalarValue::Str(t) => ScalarModel::Str(t@),
    }
}

/// A resolved value: `Null`, a scalar, an ordered list, or an ordered
/// response object.
#[derive(Debug)]
pub enum Value {
    Null,
    Scalar(DefaultScalarValue),
    List(Vec<Value>),
    Object(Object),
}

/// An ordered response object: response names with their values, in the
/// order first seen. Keys may repeat only transiently; `add_field` keeps
/// them effectively unique.
#[derive(Debug)]
pub struct Object {
    pub key_value_list: Vec<(String, Value)>,
}

/// The mathematical shape of a result value.
pub enum ValueModel {
    Null,
    Scalar(ScalarModel),
    List(Seq<ValueModel>),
    Object(Seq<(Seq<char>, ValueModel)>),
}

pub open spec fn value_model(v: Value) -> ValueModel
    decreases v,
{
    match v {
        Value::Null => ValueModel::Null,
        Value::Scalar(s) => ValueModel::Scalar(scalar_model(s)),
        Value::List(items) => ValueModel::List(values_model(items@)),
        Value::Object(o) => ValueModel::Object(entries_model(o.key_value_list@)),
    }
}

pub open spec fn values_model(s: Seq<Value>) -> Seq<ValueModel>
    decreases s,
{
    if s.len() == 0 {
        Seq::empty()
    } else {
        values_model(s.drop_last()).push(value_model(s.last()))
    }
}

pub open spec fn entries_model(s: Seq<(String, Value)>) -> Seq<(Seq<char>, ValueModel)>
    decreases s,
{
    if s.len() == 0 {
        Seq::empty()
    } else {
        entries_model(s.drop_last()).push((s.last().0@, value_model(s.last().1)))
    }
}

pub open spec fn object_model(o: Object) -> Seq<(Seq<char>, ValueModel)> {
    entries_model(o.key_value_list@)
}

pub proof fn lemma_entries_model(s: Seq<(String, Value)>)
    ensures
        entries_model(s).len() == s.len(),
        forall|i: int|
            0 <= i < s.len() ==> entries_model(s)[i] == (s[i].0@, value_model(s[i].1)),
    decreases s.len(),
{
    if s.len() > 0 {
        lemma_entries_model(s.drop_last());
    }
}

pub proof fn lemma_entries_model_push(s: Seq<(String, Value)>, p: (String, Value))
    ensures
        entries_model(s.push(p)) == entries_model(s).push((p.0@, value_model(p.1))),
{
    assert(s.push(p).drop_last() =~= s);
    assert(s.push(p).last() == p);
}

pub proof fn lemma_entries_model_update(s: Seq<(String, Value)>, i: int, p: (String, Value))
    requires
        0 <= i < s.len(),
    ensures
        entries_model(s.update(i, p)) == entries_model(s).update(
            i,
            (p.0@, value_model(p.1)),
        ),
{
    lemma_entries_model(s);
    lemma_entries_model(s.update(i, p));
    assert(entries_model(s.update(i, p)) =~= entries_model(s).update(
        i,
        (p.0@, value_model(p.1)),
    ));
}

impl Value {
    /// Builds a scalar value, as resolvers for leaves do.
    pub fn scalar(s: DefaultScalarValue) -> (r: Value)
        ensures
            value_model(r) == ValueModel::Scalar(scalar_model(s)),
    {
        Value::Scalar(s)
    }

    /// The canonical null value.
    pub fn null() -> (r: Value)
        ensures
            value_model(r) == ValueModel::Null,
    {
        Value::Null
    }

    /// Whether this value is `Null`.
    pub fn is_null(&self) -> (r: bool)
        ensures
            r == (value_model(*self) is Null),
    {
        match self {
            Value::Null => true,
            _ => false,
        }
    }
}

impl Object {
    /// An empty response object ready to receive about `size` fields.
    pub fn with_capacity(size: usize) -> (r: Object)
        ensures
            object_model(r) == Seq::<(Seq<char>, ValueModel)>::empty(),
    {
        let _ = size;
        Object { key_value_list: Vec::new() }
    }

    /// Number of fields currently present.
    pub fn field_count(&self) -> (r: usize)
        ensures
            r == object_model(*self).len(),
    {
        proof {
            lemma_entries_model(self.key_value_list@);
        }
        self.key_value_list.len()
    }

    /// Inserts or overwrites the entry for `k`, keeping the first-seen
    /// position of an existing key and appending a new key last.
    pub fn add_field(&mut self, k: String, value: Value)
        ensures
            object_model(*final(self)) == assoc_insert(
                object_model(*old(self)),
                k@,
                value_model(value),
            ),
    {
        proof {
            lemma_entries_model(self.key_value_list@);
            lemma_assoc_find_bounds(object_model(*self), k@);
            lemma_assoc_has_iff(object_model(*self), k@);
        }
        let ghost s0 = self.key_value_list@;
        let mut i: usize = 0;
        let n = self.key_value_list.len();
        while i < n
            invariant
                n == self.key_value_list.len(),
                i <= n,
                self.key_value_list@ == s0,
                old(self).key_value_list@ == s0,
                forall|j: int| 0 <= j < i ==> s0[j].0@ != k@,
            decreases n - i,
        {
            if str_eq_strings(&self.key_value_list[i].0, &k) {
                proof {
                    lemma_entries_model(s0);
                    lemma_assoc_find_bounds(entries_model(s0), k@);
                    lemma_assoc_has_iff(entries_model(s0), k@);
                    assert(entries_model(s0)[i as int].0 == k@);
                    match crate::keyed::assoc_find(entries_model(s0), k@) {
                        Some(f) => {
                            assert(f == i as int) by {
                                if f < i as int {
                                    assert(s0[f].0@ != k@);
                                    assert(entries_model(s0)[f].0 == s0[f].0@);
                                }
                            }
                        },
                        None => {
                            assert(false);
                        },
                    }
                }
                proof {
                    assert(assoc_insert(entries_model(s0), k@, value_model(value))
                        == entries_model(s0).update(i as int, (k@, value_model(value))));
                }
                vec_set_pair(&mut self.key_value_list, i, (k, value));
                proof {
                    lemma_entries_model_update(s0, i as int, (k, value));
                }
                return ;
            }
            i = i + 1;
        }
        proof {
            lemma_entries_model(s0);
            assert(forall|j: int| 0 <= j < entries_model(s0).len() ==> entries_model(s0)[j].0
                != k@);
            lemma_assoc_has_iff(entries_model(s0), k@);
        }
        self.key_value_list.push((k, value));
        proof {
            lemma_entries_model_push(s0, (k, value));
        }
    }
}

/// Replaces one pair of the list in place.
fn vec_set_pair(v: &mut Vec<(String, Value)>, i: usize, p: (String, Value))
    requires
        i < old(v).len(),
    ensures
        final(v)@ == old(v)@.update(i as int, p),
{
    v.set(i, p);
}

/// Compares two owned strings by content.
fn str_eq_strings(a: &String, b: &String) -> (r: bool)
    ensures
        r == (a@ == b@),
{
    crate::keyed::str_eq(a.as_str(), b.as_str())
}

} // verus!
