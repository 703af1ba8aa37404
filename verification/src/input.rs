//! Input values: argument literals as they appear in a query, and their
//! resolution against variable bindings.

use vstd::prelude::*;
use crate::keyed::{assoc_get, assoc_has};
use crate::value::{scalar_model, DefaultScalarValue, ScalarModel};
use crate::executor::Variables;

verus! {

/// An argument literal: a constant, a variable use, or a nested list or
/// input object.
pub enum InputValue {
    Null,
    Scalar(DefaultScalarValue),
    Enum(String),
    Variable(String),
    List(Vec<InputValue>),
    Object(Vec<(String, InputValue)>),
}

/// The mathematical shape of an input value.
pub enum InputModel {
    Null,
    Scalar(ScalarModel),
    Enum(Seq<char>),
    Variable(Seq<char>),
    List(Seq<InputModel>),
    Object(Seq<(Seq<char>, InputModel)>),
}

pub open spec fn input_model(v: InputValue) -> InputModel
    decreases v,
{
    match v {
        InputValue::Null => InputModel::Null,
        InputValue::Scalar(s) => InputModel::Scalar(scalar_model(s)),
        InputValue::Enum(n) => InputModel::Enum(n@),
        InputValue::Variable(n) => InputModel::Variable(n@),
        InputValue::List(items) => InputModel::List(inputs_model(items@)),
        InputValue::Object(fields) => InputModel::Object(input_pairs_model(fields@)),
    }
}

pub open spec fn inputs_model(s: Seq<InputValue>) -> Seq<InputModel>
    decreases s,
{
    if s.len() == 0 {
        Seq::empty()
    } else {
        inputs_model(s.drop_last()).push(input_model(s.last()))
    }
}

pub open spec fn input_pairs_model(s: Seq<(String, InputValue)>) -> Seq<(Seq<char>, InputModel)>
    decreases s,
{
    if s.len() == 0 {
        Seq::empty()
    } else {
        input_pairs_model(s.drop_last()).push((s.last().0@, input_model(s.last().1)))
    }
}

pub proof fn lemma_inputs_model(s: Seq<InputValue>)
    ensures
        inputs_model(s).len() == s.len(),
        forall|i: int| 0 <= i < s.len() ==> inputs_model(s)[i] == input_model(s[i]),
    decreases s.len(),
{
    if s.len() > 0 {
        lemma_inputs_model(s.drop_last());
    }
}

pub proof fn lemma_input_pairs_model(s: Seq<(String, InputValue)>)
    ensures
        input_pairs_model(s).len() == s.len(),
        forall|i: int|
            0 <= i < s.len() ==> input_pairs_model(s)[i] == (s[i].0@, input_model(s[i].1)),
    decreases s.len(),
{
    if s.len() > 0 {
        lemma_input_pairs_model(s.drop_last());
    }
}

/// Resolving an input model against variable bindings: a variable use is
/// replaced by its binding (or `Null` when unbound), lists and objects are
/// resolved element by element, constants stay.
pub open spec fn spec_into_const(m: InputModel, vars: Seq<(Seq<char>, InputModel)>) -> InputModel
    decreases m,
{
    match m {
        InputModel::Variable(n) => if assoc_has(vars, n) {
            assoc_get(vars, n)
        } else {
            InputModel::Null
        },
        InputModel::List(items) => InputModel::List(spec_into_const_seq(items, vars)),
        InputModel::Object(fields) => InputModel::Object(spec_into_const_pairs(fields, vars)),
        other => other,
    }
}

pub open spec fn spec_into_const_seq(
    s: Seq<InputModel>,
    vars: Seq<(Seq<char>, InputModel)>,
) -> Seq<InputModel>
    decreases s,
{
    if s.len() == 0 {
        Seq::empty()
    } else {
        spec_into_const_seq(s.drop_last(), vars).push(spec_into_const(s.last(), vars))
    }
}

pub open spec fn spec_into_const_pairs(
    s: Seq<(Seq<char>, InputModel)>,
    vars: Seq<(Seq<char>, InputModel)>,
) -> Seq<(Seq<char>, InputModel)>
    decreases s,
{
    if s.len() == 0 {
        Seq::empty()
    } else {
        spec_into_const_pairs(s.drop_last(), vars).push(
            (s.last().0, spec_into_const(s.last().1, vars)),
        )
    }
}

pub proof fn lemma_spec_into_const_seq(s: Seq<InputModel>, vars: Seq<(Seq<char>, InputModel)>)
    ensures
        spec_into_const_seq(s, vars).len() == s.len(),
        forall|i: int|
            0 <= i < s.len() ==> spec_into_const_seq(s, vars)[i] == spec_into_const(s[i], vars),
    decreases s.len(),
{
    if s.len() > 0 {
        lemma_spec_into_const_seq(s.drop_last(), vars);
    }
}

pub proof fn lemma_spec_into_const_pairs(
    s: Seq<(Seq<char>, InputModel)>,
    vars: Seq<(Seq<char>, InputModel)>,
)
    ensures
        spec_into_const_pairs(s, vars).len() == s.len(),
        forall|i: int|
            0 <= i < s.len() ==> spec_into_const_pairs(s, vars)[i] == (
                s[i].0,
                spec_into_const(s[i].1, vars),
            ),
    decreases s.len(),
{
    if s.len() > 0 {
        lemma_spec_into_const_pairs(s.drop_last(), vars);
    }
}

impl InputValue {
    /// Whether this literal is the explicit `Null` constant.
    pub fn is_null(&self) -> (r: bool)
        ensures
            r == (input_model(*self) is Null),
    {
        match self {
            InputValue::Null => true,
            _ => false,
        }
    }

    /// Resolves this literal against the given variable bindings, replacing
    /// every variable use by its bound value (or `Null` when unbound).
    pub fn into_const(&self, vars: &Variables) -> (r: InputValue)
        ensures
            input_model(r) == spec_into_const(input_model(*self), vars.model()),
    {
        resolve_input(self, vars)
    }
}

impl Clone for InputValue {
    fn clone(&self) -> (r: Self)
        ensures
            input_model(r) == input_model(*self),
    {
        clone_input(self)
    }
}

fn clone_input(v: &InputValue) -> (r: InputValue)
    ensures
        input_model(r) == input_model(*v),
    decreases *v,
{
    match v {
        InputValue::Null => InputValue::Null,
        InputValue::Scalar(s) => InputValue::Scalar(s.clone()),
        InputValue::Enum(n) => InputValue::Enum(n.clone()),
        InputValue::Variable(n) => InputValue::Variable(n.clone()),
        InputValue::List(items) => {
            let n = items.len();
            let mut out: Vec<InputValue> = Vec::new();
            let mut i: usize = 0;
            while i < n
                invariant
                    i <= n,
                    n == items.len(),
                    out@.len() == i,
                    *v == InputValue::List(*items),
                    forall|j: int| 0 <= j < i ==> input_model(out@[j]) == input_model(items@[j]),
                decreases n - i,
            {
                proof {
                    assert(decreases_to!(*v => (*v)->List_0));
                    assert((*v)->List_0 == *items);
                    assert(decreases_to!(*items => items@));
                    assert(decreases_to!(items@ => items@[i as int]));
                }
                let c = clone_input(&items[i]);
                out.push(c);
                i = i + 1;
            }
            proof {
                lemma_inputs_model(out@);
                lemma_inputs_model(items@);
                assert(inputs_model(out@) =~= inputs_model(items@));
            }
            InputValue::List(out)
        },
        InputValue::Object(fields) => {
            let n = fields.len();
            let mut out: Vec<(String, InputValue)> = Vec::new();
            let mut i: usize = 0;
            while i < n
                invariant
                    i <= n,
                    n == fields.len(),
                    out@.len() == i,
                    *v == InputValue::Object(*fields),
                    forall|j: int|
                        0 <= j < i ==> out@[j].0@ == fields@[j].0@ && input_model(out@[j].1)
                            == input_model(fields@[j].1),
                decreases n - i,
            {
                let key = fields[i].0.clone();
                proof {
                    assert(decreases_to!(*v => (*v)->Object_0));
                    assert((*v)->Object_0 == *fields);
                    assert(decreases_to!(*fields => fields@));
                    assert(decreases_to!(fields@ => fields@[i as int]));
                    assert(decreases_to!(fields@[i as int] => fields@[i as int].1));
                }
                let c = clone_input(&fields[i].1);
                out.push((key, c));
                i = i + 1;
            }
            proof {
                lemma_input_pairs_model(out@);
                lemma_input_pairs_model(fields@);
                assert(input_pairs_model(out@) =~= input_pairs_model(fields@));
            }
            InputValue::Object(out)
        },
    }
}

fn resolve_input(v: &InputValue, vars: &Variables) -> (r: InputValue)
    ensures
        input_model(r) == spec_into_const(input_model(*v), vars.model()),
    decreases *v,
{
    match v {
        InputValue::Null => InputValue::Null,
        InputValue::Scalar(s) => InputValue::Scalar(s.clone()),
        InputValue::Enum(n) => InputValue::Enum(n.clone()),
        InputValue::Variable(n) => {
            match vars.get(n.as_str()) {
                Some(bound) => bound.clone(),
                None => InputValue::Null,
            }
        },
        InputValue::List(items) => {
            let n = items.len();
            let mut out: Vec<InputValue> = Vec::new();
            let mut i: usize = 0;
            while i < n
                invariant
                    i <= n,
                    n == items.len(),
                    out@.len() == i,
                    *v == InputValue::List(*items),
                    forall|j: int|
                        0 <= j < i ==> input_model(out@[j]) == spec_into_const(
                            input_model(items@[j]),
                            vars.model(),
                        ),
                decreases n - i,
            {
                proof {
                    assert(decreases_to!(*v => (*v)->List_0));
                    assert((*v)->List_0 == *items);
                    assert(decreases_to!(*items => items@));
                    assert(decreases_to!(items@ => items@[i as int]));
                }
                let c = resolve_input(&items[i], vars);
                out.push(c);
                i = i + 1;
            }
            proof {
                lemma_inputs_model(out@);
                lemma_inputs_model(items@);
                lemma_spec_into_const_seq(inputs_model(items@), vars.model());
                assert(inputs_model(out@) =~= spec_into_const_seq(
                    inputs_model(items@),
                    vars.model(),
                ));
            }
            InputValue::List(out)
        },
        InputValue::Object(fields) => {
            let n = fields.len();
            let mut out: Vec<(String, InputValue)> = Vec::new();
            let mut i: usize = 0;
            while i < n
                invariant
                    i <= n,
                    n == fields.len(),
                    out@.len() == i,
                    *v == InputValue::Object(*fields),
                    forall|j: int|
                        0 <= j < i ==> out@[j].0@ == fields@[j].0@ && input_model(out@[j].1)
                            == spec_into_const(input_model(fields@[j].1), vars.model()),
                decreases n - i,
            {
                let key = fields[i].0.clone();
                proof {
                    assert(decreases_to!(*v => (*v)->Object_0));
                    assert((*v)->Object_0 == *fields);
                    assert(decreases_to!(*fields => fields@));
                    assert(decreases_to!(fields@ => fields@[i as int]));
                    assert(decreases_to!(fields@[i as int] => fields@[i as int].1));
                }
                let c = resolve_input(&fields[i].1, vars);
                out.push((key, c));
                i = i + 1;
            }
            proof {
                lemma_input_pairs_model(out@);
                lemma_input_pairs_model(fields@);
                lemma_spec_into_const_pairs(input_pairs_model(fields@), vars.model());
                assert(input_pairs_model(out@) =~= spec_into_const_pairs(
                    input_pairs_model(fields@),
                    vars.model(),
                ));
            }
            InputValue::Object(out)
        },
    }
}

/// Conversion from a resolved input value into a plain Rust value, the
/// typed read access arguments expose.
pub trait FromInputValue: Sized {
    /// What the conversion yields on each input shape.
    spec fn convert_spec(m: InputModel) -> Option<Self>;

    /// Converts a resolved input value, yielding `None` when the shape does
    /// not fit.
    fn from_input_value(v: &InputValue) -> (r: Option<Self>)
        ensures
            r == Self::convert_spec(input_model(*v)),
    ;
}

impl FromInputValue for bool {
    open spec fn convert_spec(m: InputModel) -> Option<bool> {
        match m {
            InputModel::Scalar(ScalarModel::Boolean(b)) => Some(b),
            _ => None,
        }
    }

    fn from_input_value(v: &InputValue) -> (r: Option<bool>) {
        match v {
            InputValue::Scalar(DefaultScalarValue::Boolean(b)) => Some(*b),
            _ => None,
        }
    }
}

impl FromInputValue for i64 {
    open spec fn convert_spec(m: InputModel) -> Option<i64> {
        match m {
            InputModel::Scalar(ScalarModel::Int(i)) => if i64::MIN <= i <= i64::MAX {
                Some(i as i64)
            } else {
                None
            },
            _ => None,
        }
    }

    fn from_input_value(v: &InputValue) -> (r: Option<i64>) {
        match v {
            InputValue::Scalar(DefaultScalarValue::Int(i)) => Some(*i),
            _ => None,
        }
    }
}

} // verus!
