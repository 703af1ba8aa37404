//! Field argument containers: the ordered argument map built once per field
//! invocation, with schema defaults filled in.
//!
//! The map itself is indexmap's `IndexMap`, used through trusted wrappers
//! whose contracts state what its documentation promises about insertion
//! order.

use vstd::prelude::*;
use indexmap::IndexMap;
use crate::input::{input_model, input_pairs_model, FromInputValue, InputModel, InputValue};
use crate::keyed::{assoc_get, assoc_has, assoc_insert, lemma_assoc_find_bounds};
use crate::meta::Argument;

verus! {

#[verifier::external_type_specification]
#[verifier::external_body]
#[verifier::reject_recursive_types(K)]
#[verifier::reject_recursive_types(V)]
#[verifier::reject_recursive_types(S)]
pub struct ExIndexMap<K, V, S>(IndexMap<K, V, S>);

/// What an argument map holds: its entries in order, each key as its
/// character sequence and each value by its input model.
pub uninterp spec fn arg_map_entries(m: IndexMap<String, InputValue>) -> Seq<
    (Seq<char>, InputModel),
>;

/// Relies on indexmap's IndexMap::new: the created map has no entries.
#[verifier::external_body]
pub(crate) fn arg_map_new() -> (r: IndexMap<String, InputValue>)
    ensures
        arg_map_entries(r) == Seq::<(Seq<char>, InputModel)>::empty(),
{
    IndexMap::new()
}

/// Relies on indexmap's IndexMap::insert: an existing key keeps its place in
/// the order and its value is updated; a new key is appended last.
#[verifier::external_body]
pub(crate) fn arg_map_insert(m: &mut IndexMap<String, InputValue>, key: String, value: InputValue)
    ensures
        arg_map_entries(*final(m)) == assoc_insert(
            arg_map_entries(*old(m)),
            key@,
            input_model(value),
        ),
{
    m.insert(key, value);
}

/// Relies on indexmap's IndexMap::get: the value stored for an equivalent
/// key, if one is present.
#[verifier::external_body]
pub(crate) fn arg_map_get<'a>(m: &'a IndexMap<String, InputValue>, key: &str) -> (r: Option<
    &'a InputValue,
>)
    ensures
        match r {
            Some(v) => assoc_has(arg_map_entries(*m), key@) && input_model(*v) == assoc_get(
                arg_map_entries(*m),
                key@,
            ),
            None => !assoc_has(arg_map_entries(*m), key@),
        },
{
    m.get(key)
}

/// Relies on indexmap's IndexMap::iter: the entries come out in order, first
/// inserted first.
#[verifier::external_body]
pub(crate) fn arg_map_pairs(m: &IndexMap<String, InputValue>) -> (r: Vec<(String, InputValue)>)
    ensures
        input_pairs_model(r@) == arg_map_entries(*m),
{
    m.iter().map(|(k, v)| (k.clone(), v.clone())).collect()
}

/// Declared argument metadata by name and optional default model.
pub open spec fn metas_model(ms: Seq<Argument>) -> Seq<(Seq<char>, Option<InputModel>)> {
    ms.map(
        |i: int, a: Argument|
            (
                a.name@,
                match a.default_value {
                    Some(d) => Some(input_model(d)),
                    None => None,
                },
            ),
    )
}

/// One default-filling step: when the key is absent or explicitly `Null` and
/// a default is declared, the default is inserted; otherwise nothing moves.
pub open spec fn spec_fill_one(
    e: Seq<(Seq<char>, InputModel)>,
    m: (Seq<char>, Option<InputModel>),
) -> Seq<(Seq<char>, InputModel)> {
    match m.1 {
        Some(d) => if !assoc_has(e, m.0) || assoc_get(e, m.0) is Null {
            assoc_insert(e, m.0, d)
        } else {
            e
        },
        None => e,
    }
}

/// Filling every declared default, in declaration order.
pub open spec fn spec_fill_defaults(
    e: Seq<(Seq<char>, InputModel)>,
    ms: Seq<(Seq<char>, Option<InputModel>)>,
) -> Seq<(Seq<char>, InputModel)>
    decreases ms.len(),
{
    if ms.len() == 0 {
        e
    } else {
        spec_fill_defaults(spec_fill_one(e, ms[0]), ms.drop_first())
    }
}

/// What building an argument container yields: with declared arguments the
/// supplied entries (or none) are default-filled, without them the supplied
/// entries pass through untouched.
pub open spec fn spec_new_arguments(
    e: Option<Seq<(Seq<char>, InputModel)>>,
    ms: Option<Seq<(Seq<char>, Option<InputModel>)>>,
) -> Option<Seq<(Seq<char>, InputModel)>> {
    match ms {
        None => e,
        Some(ms) => Some(
            spec_fill_defaults(
                match e {
                    Some(x) => x,
                    None => Seq::empty(),
                },
                ms,
            ),
        ),
    }
}

pub proof fn lemma_fill_defaults_push(
    e: Seq<(Seq<char>, InputModel)>,
    ms: Seq<(Seq<char>, Option<InputModel>)>,
    m: (Seq<char>, Option<InputModel>),
)
    ensures
        spec_fill_defaults(e, ms.push(m)) == spec_fill_one(spec_fill_defaults(e, ms), m),
    decreases ms.len(),
{
    let extended = ms.push(m);
    assert(extended.len() == ms.len() + 1);
    if ms.len() == 0 {
        assert(extended[0] == m);
        assert(extended.drop_first() =~= Seq::<(Seq<char>, Option<InputModel>)>::empty());
        assert(spec_fill_defaults(e, extended) == spec_fill_defaults(
            spec_fill_one(e, m),
            extended.drop_first(),
        ));
        assert(spec_fill_defaults(spec_fill_one(e, m), extended.drop_first()) == spec_fill_one(
            e,
            m,
        ));
        assert(spec_fill_defaults(e, ms) == e);
    } else {
        assert(extended[0] == ms[0]);
        assert(extended.drop_first() =~= ms.drop_first().push(m));
        assert(spec_fill_defaults(e, extended) == spec_fill_defaults(
            spec_fill_one(e, ms[0]),
            ms.drop_first().push(m),
        ));
        lemma_fill_defaults_push(spec_fill_one(e, ms[0]), ms.drop_first(), m);
        assert(spec_fill_defaults(e, ms) == spec_fill_defaults(
            spec_fill_one(e, ms[0]),
            ms.drop_first(),
        ));
    }
}

/// Field argument container: the supplied argument literals, resolved, with
/// schema-declared defaults filled in — or nothing when the field declares
/// no arguments and the query supplied none.
pub struct Arguments {
    pub args: Option<IndexMap<String, InputValue>>,
}

impl Arguments {
    /// The ordered entries of this container, if it holds any map at all.
    pub open spec fn model(self) -> Option<Seq<(Seq<char>, InputModel)>> {
        match self.args {
            Some(m) => Some(arg_map_entries(m)),
            None => None,
        }
    }

    /// Builds the container for one field invocation: if the field declares
    /// arguments, defaults are filled into the supplied map (starting from an
    /// empty one when none was supplied); a supplied `Null` counts as absent.
    pub fn new(args: Option<IndexMap<String, InputValue>>, meta_args: &Option<Vec<Argument>>) -> (r:
        Arguments)
        ensures
            r.model() == spec_new_arguments(
                match args {
                    Some(m) => Some(arg_map_entries(m)),
                    None => None,
                },
                match *meta_args {
                    Some(ms) => Some(metas_model(ms@)),
                    None => None,
                },
            ),
    {
        match meta_args {
            None => Arguments { args },
            Some(metas) => {
                let mut m: IndexMap<String, InputValue> = match args {
                    Some(m0) => m0,
                    None => arg_map_new(),
                };
                let ghost e0 = arg_map_entries(m);
                let n = metas.len();
                let mut i: usize = 0;
                while i < n
                    invariant
                        i <= n,
                        n == metas.len(),
                        arg_map_entries(m) == spec_fill_defaults(
                            e0,
                            metas_model(metas@).take(i as int),
                        ),
                    decreases n - i,
                {
                    let ghost done = metas_model(metas@).take(i as int);
                    let meta = &metas[i];
                    let needs = match arg_map_get(&m, meta.name.as_str()) {
                        None => true,
                        Some(v) => v.is_null(),
                    };
                    if needs {
                        match &meta.default_value {
                            Some(d) => {
                                arg_map_insert(&mut m, meta.name.clone(), d.clone());
                            },
                            None => {},
                        }
                    }
                    proof {
                        let mm = metas_model(metas@)[i as int];
                        assert(arg_map_entries(m) == spec_fill_one(
                            spec_fill_defaults(e0, done),
                            mm,
                        ));
                        lemma_fill_defaults_push(e0, done, mm);
                        assert(metas_model(metas@).take(i + 1) =~= done.push(mm));
                    }
                    i = i + 1;
                }
                proof {
                    assert(metas_model(metas@).take(n as int) =~= metas_model(metas@));
                }
                Arguments { args: Some(m) }
            },
        }
    }

    /// Typed read access: the stored value for `key`, converted. Yields
    /// `None` both when the key is absent and when the conversion fails;
    /// the two cases are indistinguishable here by design.
    pub fn get<T: FromInputValue>(&self, key: &str) -> (r: Option<T>)
        ensures
            match self.model() {
                None => r is None,
                Some(e) => r == (if assoc_has(e, key@) {
                    T::convert_spec(assoc_get(e, key@))
                } else {
                    None
                }),
            },
    {
        match &self.args {
            None => None,
            Some(m) => match arg_map_get(m, key) {
                None => None,
                Some(v) => T::from_input_value(v),
            },
        }
    }

    /// All (name, value) pairs in insertion order, or `None` when the field
    /// takes no arguments at all.
    pub fn iter(&self) -> (r: Option<Vec<(String, InputValue)>>)
        ensures
            match self.model() {
                None => r is None,
                Some(e) => r matches Some(v) && input_pairs_model(v@) == e,
            },
    {
        match &self.args {
            None => None,
            Some(m) => Some(arg_map_pairs(m)),
        }
    }
}

/// How one key fares under an insert at another key: nothing about it moves.
pub proof fn lemma_assoc_insert_other(
    s: Seq<(Seq<char>, InputModel)>,
    k1: Seq<char>,
    v: InputModel,
    k2: Seq<char>,
)
    requires
        k1 != k2,
    ensures
        assoc_has(assoc_insert(s, k1, v), k2) == assoc_has(s, k2),
        assoc_has(s, k2) ==> assoc_get(assoc_insert(s, k1, v), k2) == assoc_get(s, k2),
{
    lemma_assoc_find_bounds(s, k1);
    lemma_assoc_find_bounds(s, k2);
    let s1 = assoc_insert(s, k1, v);
    lemma_assoc_find_bounds(s1, k2);
    match crate::keyed::assoc_find(s, k2) {
        Some(i) => {
            assert(s1[i].0 == k2);
            match crate::keyed::assoc_find(s1, k2) {
                Some(j) => {
                    if j < i {
                        assert(s[j].0 != k2);
                        assert(s1[j] == s[j] || s1[j].0 == k1);
                    }
                    if i < j {
                        assert(s1[i].0 != k2);
                    }
                    assert(j == i);
                    assert(s1[i] == s[i]);
                },
                None => {
                    assert(s1[i].0 != k2);
                },
            }
        },
        None => {
            match crate::keyed::assoc_find(s1, k2) {
                Some(j) => {
                    if j < s.len() {
                        assert(s1[j] == s[j] || s1[j].0 == k1);
                        assert(s[j].0 != k2);
                    } else {
                        assert(s1[j].0 == k1);
                    }
                    assert(false);
                },
                None => {},
            }
        },
    }
}

/// Filling defaults for other names leaves a name alone.
pub proof fn lemma_fill_defaults_skips_other(
    e: Seq<(Seq<char>, InputModel)>,
    ms: Seq<(Seq<char>, Option<InputModel>)>,
    k: Seq<char>,
)
    requires
        forall|j: int| 0 <= j < ms.len() ==> ms[j].0 != k,
    ensures
        assoc_has(spec_fill_defaults(e, ms), k) == assoc_has(e, k),
        assoc_has(e, k) ==> assoc_get(spec_fill_defaults(e, ms), k) == assoc_get(e, k),
    decreases ms.len(),
{
    if ms.len() > 0 {
        match ms[0].1 {
            Some(d) => {
                if !assoc_has(e, ms[0].0) || assoc_get(e, ms[0].0) is Null {
                    lemma_assoc_insert_other(e, ms[0].0, d, k);
                }
            },
            None => {},
        }
        assert(forall|j: int| 0 <= j < ms.drop_first().len() ==> ms.drop_first()[j].0 != k);
        lemma_fill_defaults_skips_other(spec_fill_one(e, ms[0]), ms.drop_first(), k);
    }
}

/// Default argument filling: for a declared argument whose name occurs once,
/// a missing or `Null` supplied value becomes the declared default, and a
/// supplied non-null value is never overwritten.
pub proof fn lemma_default_argument_filling(
    e: Seq<(Seq<char>, InputModel)>,
    ms: Seq<(Seq<char>, Option<InputModel>)>,
    i: int,
)
    requires
        0 <= i < ms.len(),
        ms[i].1 is Some,
        forall|j: int| 0 <= j < ms.len() && j != i ==> ms[j].0 != ms[i].0,
    ensures
        assoc_has(spec_fill_defaults(e, ms), ms[i].0),
        assoc_get(spec_fill_defaults(e, ms), ms[i].0) == if !assoc_has(e, ms[i].0) || assoc_get(
            e,
            ms[i].0,
        ) is Null {
            ms[i].1->0
        } else {
            assoc_get(e, ms[i].0)
        },
    decreases ms.len(),
{
    let k = ms[i].0;
    if i == 0 {
        let d = ms[0].1->0;
        let e1 = spec_fill_one(e, ms[0]);
        lemma_assoc_find_bounds(e, k);
        if !assoc_has(e, k) || assoc_get(e, k) is Null {
            crate::keyed::lemma_keys_of_insert(e, k, d);
            lemma_assoc_find_bounds(assoc_insert(e, k, d), k);
            lemma_insert_found(e, k, d);
        }
        assert(forall|j: int|
            0 <= j < ms.drop_first().len() ==> ms.drop_first()[j].0 != k);
        lemma_fill_defaults_skips_other(e1, ms.drop_first(), k);
    } else {
        assert(ms[0].0 != k);
        match ms[0].1 {
            Some(d0) => {
                if !assoc_has(e, ms[0].0) || assoc_get(e, ms[0].0) is Null {
                    lemma_assoc_insert_other(e, ms[0].0, d0, k);
                }
            },
            None => {},
        }
        assert(ms.drop_first()[i - 1] == ms[i]);
        assert(forall|j: int|
            0 <= j < ms.drop_first().len() && j != i - 1 ==> ms.drop_first()[j].0 != k) by {
            assert(forall|j: int|
                0 <= j < ms.drop_first().len() ==> ms.drop_first()[j] == ms[j + 1]);
        }
        lemma_default_argument_filling(spec_fill_one(e, ms[0]), ms.drop_first(), i - 1);
    }
}

/// After inserting `k`, looking `k` up finds the inserted value.
proof fn lemma_insert_found(s: Seq<(Seq<char>, InputModel)>, k: Seq<char>, v: InputModel)
    ensures
        assoc_has(assoc_insert(s, k, v), k),
        assoc_get(assoc_insert(s, k, v), k) == v,
{
    lemma_assoc_find_bounds(s, k);
    let s1 = assoc_insert(s, k, v);
    match crate::keyed::assoc_find(s, k) {
        Some(i) => {
            crate::keyed::lemma_assoc_find_at(s1, k, i);
        },
        None => {
            crate::keyed::lemma_assoc_find_at(s1, k, s.len() as int);
        },
    }
}

} // verus!
