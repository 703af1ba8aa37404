//! The selection-set resolution core: the recursive walk over a selection
//! tree, the directive evaluator, the per-field outcome rule and the
//! result-object merge.

use vstd::prelude::*;
use vstd::string::StringExecFns;
use crate::arguments::{arg_map_entries, arg_map_insert, arg_map_new, Arguments};
use crate::ast::{
    lemma_selections_size_element, response_name_of, selections_size, Directive, Selection,
    SourcePosition,
};
use crate::executor::{
    errors_model, ExecutionError, ExecutionResult, Executor, FatalError, FieldError, ResolveError,
};
use crate::input::{
    input_model, input_pairs_model, lemma_input_pairs_model, spec_into_const, FromInputValue,
    InputModel, InputValue,
};
use crate::keyed::{
    assoc_get, assoc_has, assoc_insert, keys_of, lemma_assoc_find_at, lemma_assoc_has_iff,
    lemma_keys_of_contains, lemma_keys_of_insert, lemma_prefix_push, lemma_prefix_reflexive,
    lemma_prefix_transitive, str_eq,
};
use crate::meta::{types_assoc, MetaType};
use crate::value::{
    entries_model, lemma_entries_model, object_model, value_model, DefaultScalarValue, Object,
    Value, ValueModel,
};
use crate::executor::Variables;

verus! {

/// The kind of a schema type: the meta type of a type.
#[derive(Clone, Copy, PartialEq, Eq, Structural, Debug)]
pub enum TypeKind {
    /// Scalar types: the leaf nodes of a query.
    Scalar,
    /// Object types: types with fields, the most common kind.
    Object,
    /// Interface types: overlapping fields between several types.
    Interface,
    /// Union types: like interfaces, but without fields of their own.
    Union,
    /// Enum types: leaf nodes with a closed set of names.
    Enum,
    /// Input objects: structured values flowing into the system.
    InputObject,
    /// List types: ordered collections of another type.
    List,
    /// Non-null types: a type whose values may not be `Null`.
    NonNull,
}

/// The argument literals of a directive, by name.
pub open spec fn directive_args_model(d: Directive) -> Option<Seq<(Seq<char>, InputModel)>> {
    match d.arguments {
        Some(items) => Some(input_pairs_model(items@)),
        None => None,
    }
}

/// The boolean condition of one directive: its `if` argument, resolved
/// against the variables and converted; `None` when missing or not boolean.
pub open spec fn spec_directive_condition(d: Directive, vars: Seq<(Seq<char>, InputModel)>) -> Option<
    bool,
> {
    match directive_args_model(d) {
        None => None,
        Some(args) => if assoc_has(args, "if"@) {
            <bool as FromInputValue>::convert_spec(spec_into_const(assoc_get(args, "if"@), vars))
        } else {
            None
        },
    }
}

/// Whether one directive, with its condition, excludes its selection:
/// `skip` excludes on true, `include` excludes on false, other names never.
pub open spec fn spec_directive_excludes(name: Seq<char>, c: bool) -> bool {
    (name == "skip"@ && c) || (name == "include"@ && !c)
}

/// Running the directives of one selection in order: the first exclusion
/// reason wins; an ill-formed condition is fatal and named.
pub open spec fn spec_run_directives(ds: Seq<Directive>, vars: Seq<(Seq<char>, InputModel)>) -> Result<
    bool,
    Seq<char>,
>
    decreases ds.len(),
{
    if ds.len() == 0 {
        Ok(false)
    } else {
        match spec_directive_condition(ds[0], vars) {
            None => Err(ds[0].name@),
            Some(c) => if spec_directive_excludes(ds[0].name@, c) {
                Ok(true)
            } else {
                spec_run_directives(ds.drop_first(), vars)
            },
        }
    }
}

pub open spec fn directives_seq(dso: Option<Vec<Directive>>) -> Seq<Directive> {
    match dso {
        Some(v) => v@,
        None => Seq::empty(),
    }
}

/// The directives attached to a selection.
pub open spec fn selection_directives(s: Selection) -> Seq<Directive> {
    match s {
        Selection::Field(f) => directives_seq(f.directives),
        Selection::FragmentSpread(sp) => directives_seq(sp.directives),
        Selection::InlineFragment(il) => directives_seq(il.directives),
    }
}

pub open spec fn spec_selection_excluded(s: Selection, vars: Seq<(Seq<char>, InputModel)>) -> Result<
    bool,
    Seq<char>,
> {
    spec_run_directives(selection_directives(s), vars)
}

pub open spec fn spec_all_excluded(ss: Seq<Selection>, vars: Seq<(Seq<char>, InputModel)>) -> bool {
    forall|i: int|
        0 <= i < ss.len() ==> spec_selection_excluded(ss[i], vars) == Ok::<bool, Seq<char>>(true)
}

pub open spec fn fields_only(ss: Seq<Selection>) -> bool {
    forall|i: int| 0 <= i < ss.len() ==> ss[i] is Field
}

/// Whether a selection can never trigger the abort signal itself: fragment
/// spreads and type-conditioned inline fragments contribute entries or
/// record errors, but only a plain field or a condition-less inline
/// fragment can force the enclosing object to `Null`.
pub open spec fn selection_cannot_abort(s: Selection) -> bool {
    match s {
        Selection::FragmentSpread(_) => true,
        Selection::InlineFragment(f) => f.type_condition is Some,
        Selection::Field(_) => false,
    }
}

pub open spec fn only_conditioned_fragments(ss: Seq<Selection>) -> bool {
    forall|i: int| 0 <= i < ss.len() ==> selection_cannot_abort(ss[i])
}

/// Response names of the plain fields a walk includes, in declaration order.
pub open spec fn spec_included_response_names(
    ss: Seq<Selection>,
    vars: Seq<(Seq<char>, InputModel)>,
) -> Seq<Seq<char>>
    decreases ss.len(),
{
    if ss.len() == 0 {
        Seq::empty()
    } else {
        spec_included_response_names(ss.drop_last(), vars) + (match ss.last() {
            Selection::Field(f) => if spec_selection_excluded(ss.last(), vars) == Ok::<
                bool,
                Seq<char>,
            >(false) {
                seq![response_name_of(f)]
            } else {
                Seq::empty()
            },
            _ => Seq::empty(),
        })
    }
}

/// Merging one response name into an ordered key sequence: an existing key
/// keeps its first-seen position, a new one is appended.
pub open spec fn spec_merge_one(keys: Seq<Seq<char>>, k: Seq<char>) -> Seq<Seq<char>> {
    if keys.contains(k) {
        keys
    } else {
        keys.push(k)
    }
}

/// Merging a sequence of response names, left to right.
pub open spec fn spec_merge_keys(keys: Seq<Seq<char>>, names: Seq<Seq<char>>) -> Seq<Seq<char>>
    decreases names.len(),
{
    if names.len() == 0 {
        keys
    } else {
        spec_merge_keys(spec_merge_one(keys, names[0]), names.drop_first())
    }
}

pub proof fn lemma_merge_keys_push(keys: Seq<Seq<char>>, names: Seq<Seq<char>>, k: Seq<char>)
    ensures
        spec_merge_keys(keys, names.push(k)) == spec_merge_one(spec_merge_keys(keys, names), k),
    decreases names.len(),
{
    let extended = names.push(k);
    if names.len() == 0 {
        assert(extended[0] == k);
        assert(extended.drop_first() =~= Seq::<Seq<char>>::empty());
        assert(spec_merge_keys(keys, extended) == spec_merge_keys(
            spec_merge_one(keys, k),
            extended.drop_first(),
        ));
        assert(spec_merge_keys(keys, names) == keys);
    } else {
        assert(extended[0] == names[0]);
        assert(extended.drop_first() =~= names.drop_first().push(k));
        assert(spec_merge_keys(keys, extended) == spec_merge_keys(
            spec_merge_one(keys, names[0]),
            names.drop_first().push(k),
        ));
        lemma_merge_keys_push(spec_merge_one(keys, names[0]), names.drop_first(), k);
        assert(spec_merge_keys(keys, names) == spec_merge_keys(
            spec_merge_one(keys, names[0]),
            names.drop_first(),
        ));
    }
}

/// Evaluates the directives of one selection: `Ok(true)` when some `skip` or
/// `include` excludes it, `Ok(false)` when none does, and a fatal error when
/// a directive's `if` argument is missing or not boolean.
pub fn is_excluded(directives: &Option<Vec<Directive>>, vars: &Variables) -> (r: Result<
    bool,
    FatalError,
>)
    ensures
        match r {
            Ok(b) => spec_run_directives(directives_seq(*directives), vars.model()) == Ok::<
                bool,
                Seq<char>,
            >(b),
            Err(f) => f matches FatalError::InvalidDirectiveArgument(n)
                && spec_run_directives(directives_seq(*directives), vars.model()) == Err::<
                bool,
                Seq<char>,
            >(n@),
        },
{
    match directives {
        None => Ok(false),
        Some(ds) => {
            proof {
                assert(ds@.skip(0) =~= ds@);
            }
            let n = ds.len();
            let mut i: usize = 0;
            while i < n
                invariant
                    i <= n,
                    n == ds.len(),
                    directives_seq(*directives) == ds@,
                    spec_run_directives(ds@, vars.model()) == spec_run_directives(
                        ds@.skip(i as int),
                        vars.model(),
                    ),
                decreases n - i,
            {
                let ghost rest = ds@.skip(i as int);
                proof {
                    assert(rest.len() > 0);
                    assert(rest[0] == ds@[i as int]);
                }
                let d = &ds[i];
                match directive_condition(d, vars) {
                    None => {
                        return Err(FatalError::InvalidDirectiveArgument(d.name.clone()));
                    },
                    Some(c) => {
                        let is_skip = str_eq(d.name.as_str(), "skip");
                        let is_include = str_eq(d.name.as_str(), "include");
                        if (is_skip && c) || (is_include && !c) {
                            proof {
                                assert(spec_directive_excludes(d.name@, c));
                            }
                            return Ok(true);
                        }
                        proof {
                            assert(!spec_directive_excludes(d.name@, c));
                            assert(rest.drop_first() =~= ds@.skip(i + 1));
                        }
                    },
                }
                i = i + 1;
            }
            proof {
                assert(ds@.skip(n as int) =~= Seq::<Directive>::empty());
                assert(spec_run_directives(ds@.skip(n as int), vars.model()) == Ok::<
                    bool,
                    Seq<char>,
                >(false));
            }
            Ok(false)
        },
    }
}

/// Evaluates the `if` condition of one directive.
fn directive_condition(d: &Directive, vars: &Variables) -> (r: Option<bool>)
    ensures
        r == spec_directive_condition(*d, vars.model()),
{
    match &d.arguments {
        None => None,
        Some(items) => {
            let n = items.len();
            let mut i: usize = 0;
            while i < n
                invariant
                    i <= n,
                    n == items.len(),
                    directive_args_model(*d) == Some(input_pairs_model(items@)),
                    forall|j: int| 0 <= j < i ==> items@[j].0@ != "if"@,
                decreases n - i,
            {
                if str_eq(items[i].0.as_str(), "if") {
                    proof {
                        lemma_input_pairs_model(items@);
                        lemma_assoc_find_at(input_pairs_model(items@), "if"@, i as int);
                    }
                    let resolved = items[i].1.into_const(vars);
                    return <bool as FromInputValue>::from_input_value(&resolved);
                }
                i = i + 1;
            }
            proof {
                lemma_input_pairs_model(items@);
                lemma_assoc_has_iff(input_pairs_model(items@), "if"@);
            }
            None
        },
    }
}

/// What the walk does with one field's resolution outcome. This makes the
/// null-propagation rule visible in a type: only a non-null field that came
/// back `Null` or failed aborts the enclosing selection set.
pub enum FieldAction {
    /// A non-null field resolved to `Null`: the enclosing object becomes
    /// `Null`, silently.
    Abort,
    /// A non-null field failed: record the error, then the enclosing object
    /// becomes `Null`.
    AbortRecord(FieldError),
    /// The value is merged under the field's response name.
    Merge(Value),
    /// A nullable field failed: record the error and merge `Null`.
    RecordMergeNull(FieldError),
    /// The resolver reported a contract violation: the walk aborts.
    Fatal(FatalError),
}

/// The per-field outcome rule: how a field's resolution result and its
/// declared nullability decide between merging, recording, and aborting.
pub fn classify_field_result(field_result: ExecutionResult, non_null: bool) -> (r: FieldAction)
    ensures
        match field_result {
            Ok(v) => if non_null && value_model(v) is Null {
                r is Abort
            } else {
                r == FieldAction::Merge(v)
            },
            Err(ResolveError::Field(e)) => if non_null {
                r == FieldAction::AbortRecord(e)
            } else {
                r == FieldAction::RecordMergeNull(e)
            },
            Err(ResolveError::Fatal(f)) => r == FieldAction::Fatal(f),
        },
{
    match field_result {
        Ok(v) => {
            if non_null && v.is_null() {
                FieldAction::Abort
            } else {
                FieldAction::Merge(v)
            }
        },
        Err(ResolveError::Field(e)) => {
            if non_null {
                FieldAction::AbortRecord(e)
            } else {
                FieldAction::RecordMergeNull(e)
            }
        },
        Err(ResolveError::Fatal(f)) => FieldAction::Fatal(f),
    }
}

/// Merges a `response_name`/`value` pair into `result`, overwriting the
/// value of an existing key in place and appending a new key last.
pub fn merge_key_into(result: &mut Object, response_name: &str, value: Value)
    ensures
        object_model(*final(result)) == assoc_insert(
            object_model(*old(result)),
            response_name@,
            value_model(value),
        ),
{
    result.add_field(String::from_str(response_name), value);
}

/// Merging a sequence of response entries into an object model, first to
/// last: each entry lands under its own key, an existing key keeps its
/// first-seen position and last write wins.
pub open spec fn spec_merge_entries(
    base: Seq<(Seq<char>, ValueModel)>,
    entries: Seq<(Seq<char>, ValueModel)>,
) -> Seq<(Seq<char>, ValueModel)>
    decreases entries.len(),
{
    if entries.len() == 0 {
        base
    } else {
        spec_merge_entries(assoc_insert(base, entries[0].0, entries[0].1), entries.drop_first())
    }
}

/// Merging entries never moves or drops a key already present.
pub proof fn lemma_merge_entries_prefix(
    base: Seq<(Seq<char>, ValueModel)>,
    entries: Seq<(Seq<char>, ValueModel)>,
)
    ensures
        keys_of(base).is_prefix_of(keys_of(spec_merge_entries(base, entries))),
    decreases entries.len(),
{
    if entries.len() == 0 {
        lemma_prefix_reflexive(keys_of(base));
    } else {
        let grown = assoc_insert(base, entries[0].0, entries[0].1);
        lemma_keys_of_insert(base, entries[0].0, entries[0].1);
        lemma_keys_of_contains(base, entries[0].0);
        if !assoc_has(base, entries[0].0) {
            lemma_prefix_reflexive(keys_of(base));
            lemma_prefix_push(keys_of(base), keys_of(base), entries[0].0);
        } else {
            lemma_prefix_reflexive(keys_of(base));
        }
        lemma_merge_entries_prefix(grown, entries.drop_first());
        lemma_prefix_transitive(
            keys_of(base),
            keys_of(grown),
            keys_of(spec_merge_entries(grown, entries.drop_first())),
        );
    }
}

/// Merges every entry of a response object into `result`, in order; existing
/// keys keep their place, last write wins.
fn merge_object_into(result: &mut Object, obj: Object)
    ensures
        object_model(*final(result)) == spec_merge_entries(
            object_model(*old(result)),
            object_model(obj),
        ),
{
    let ghost all = object_model(obj);
    let mut rest = obj;
    while rest.key_value_list.len() > 0
        invariant
            spec_merge_entries(object_model(*old(result)), all) == spec_merge_entries(
                object_model(*result),
                entries_model(rest.key_value_list@),
            ),
        decreases rest.key_value_list.len(),
    {
        let ghost rs = rest.key_value_list@;
        proof {
            lemma_entries_model(rs);
        }
        let pair = rest.key_value_list.remove(0);
        proof {
            assert(rest.key_value_list@ =~= rs.drop_first());
            lemma_entries_model(rs.drop_first());
            assert(entries_model(rs.drop_first()) =~= entries_model(rs).drop_first());
            assert(entries_model(rs)[0] == (pair.0@, value_model(pair.1)));
        }
        let ghost before = object_model(*result);
        result.add_field(pair.0, pair.1);
        proof {
            assert(spec_merge_entries(before, entries_model(rs)) == spec_merge_entries(
                assoc_insert(before, pair.0@, value_model(pair.1)),
                entries_model(rs).drop_first(),
            ));
        }
    }
    proof {
        assert(entries_model(rest.key_value_list@) =~= Seq::<(Seq<char>, ValueModel)>::empty());
    }
}

/// Applies the outcome of a matched fragment to the result: a returned
/// object has its entries merged in order with last write wins, a field
/// error is recorded at the fragment's source position, any other value —
/// a `Null` from a non-null violation inside the fragment included —
/// contributes nothing, and a fatal error aborts the walk unchanged.
pub fn merge_fragment_result<C>(
    executor: &Executor<C>,
    result: &mut Object,
    errors: &mut Vec<ExecutionError>,
    sub_result: ExecutionResult,
    position: SourcePosition,
) -> (r: Result<(), FatalError>)
    ensures
        match sub_result {
            Ok(v) => r is Ok && errors_model(final(errors)@) == errors_model(old(errors)@)
                && object_model(*final(result)) == (match value_model(v) {
                ValueModel::Object(entries) => spec_merge_entries(
                    object_model(*old(result)),
                    entries,
                ),
                _ => object_model(*old(result)),
            }),
            Err(ResolveError::Field(e)) => r is Ok && object_model(*final(result)) == object_model(
                *old(result),
            ) && errors_model(final(errors)@) == errors_model(old(errors)@).push(
                (e.message@, position),
            ),
            Err(ResolveError::Fatal(f)) => r == Err::<(), FatalError>(f) && object_model(
                *final(result),
            ) == object_model(*old(result)) && errors_model(final(errors)@) == errors_model(
                old(errors)@,
            ),
        },
{
    match sub_result {
        Ok(v) => {
            match v {
                Value::Object(obj) => {
                    merge_object_into(result, obj);
                },
                _ => {},
            }
            Ok(())
        },
        Err(ResolveError::Field(e)) => {
            executor.push_error_at(errors, e, position);
            Ok(())
        },
        Err(ResolveError::Fatal(f)) => Err(f),
    }
}


/// The capability set every node of the object graph exposes, callable by
/// the engine without knowing the concrete type. Application types
/// implement it; methods given the error sink may only append to it.
/// Provided method bodies report a missing capability as
/// `FatalError::Unsupported` instead of succeeding vacuously.
pub trait GraphQLValue {
    /// Application data threaded through the execution.
    type Context;

    /// Schema information for this value, fixed per execution.
    type TypeInfo;

    /// The schema name of the type this value exposes. Must be stable and
    /// side-effect-free; it keys the registry lookup that starts each walk.
    fn schema_type_name(&self, info: &Self::TypeInfo) -> Option<String>;

    /// Resolves the value of a single field on this value. Object and
    /// interface types provide this; the `arguments` container already has
    /// schema defaults filled in.
    fn resolve_field(
        &self,
        _info: &Self::TypeInfo,
        _field_name: &str,
        _arguments: &Arguments,
        _executor: &Executor<Self::Context>,
        _position: SourcePosition,
        _selection_set: Option<&Vec<Selection>>,
        errors: &mut Vec<ExecutionError>,
    ) -> (r: ExecutionResult)
        ensures
            errors_model(old(errors)@).is_prefix_of(errors_model(final(errors)@)),
    {
        proof {
            lemma_prefix_reflexive(errors_model(errors@));
        }
        Err(ResolveError::Fatal(FatalError::Unsupported))
    }

    /// Resolves this value (an interface or union) into a concrete
    /// downstream object type. Interface and union types provide this,
    /// usually through [`resolve_into_type_by_name`]; the provided behavior
    /// reports the capability as missing.
    fn resolve_into_type(
        &self,
        _info: &Self::TypeInfo,
        _schema_type_name: &str,
        _selection_set: Option<&Vec<Selection>>,
        _executor: &Executor<Self::Context>,
        errors: &mut Vec<ExecutionError>,
    ) -> (r: ExecutionResult)
        ensures
            errors_model(old(errors)@).is_prefix_of(errors_model(final(errors)@)),
    {
        proof {
            lemma_prefix_reflexive(errors_model(errors@));
        }
        Err(ResolveError::Fatal(FatalError::Unsupported))
    }

    /// The concrete type name of this value, used for fragment
    /// type-condition checks; required of objects, interfaces and unions.
    fn concrete_type_name(&self, _context: &Self::Context, _info: &Self::TypeInfo) -> Option<
        String,
    > {
        None
    }

    /// Resolves the provided selection set against this value. Leaf types
    /// ignore the selection set and return their value; composite types
    /// usually delegate to [`resolve_value_with_selections`], which walks
    /// the selections into one ordered object, or `Null` when a non-null
    /// field inside failed. The provided behavior reports the capability as
    /// missing.
    fn resolve(
        &self,
        _info: &Self::TypeInfo,
        _selection_set: Option<&Vec<Selection>>,
        _executor: &Executor<Self::Context>,
        errors: &mut Vec<ExecutionError>,
    ) -> (r: ExecutionResult)
        ensures
            errors_model(old(errors)@).is_prefix_of(errors_model(final(errors)@)),
    {
        proof {
            lemma_prefix_reflexive(errors_model(errors@));
        }
        Err(ResolveError::Fatal(FatalError::Unsupported))
    }
}


/// The usual `resolve_into_type` behavior for a value that exposes one
/// concrete type: when the value's own type name matches the target type
/// name, the selection set is resolved against it; a mismatch, like a value
/// that cannot name its type, is a missing capability.
pub fn resolve_into_type_by_name<T: GraphQLValue>(
    instance: &T,
    info: &T::TypeInfo,
    target_type_name: &str,
    selection_set: Option<&Vec<Selection>>,
    executor: &Executor<T::Context>,
    errors: &mut Vec<ExecutionError>,
) -> (r: ExecutionResult)
    ensures
        errors_model(old(errors)@).is_prefix_of(errors_model(final(errors)@)),
{
    match instance.schema_type_name(info) {
        Some(own) => {
            if str_eq(own.as_str(), target_type_name) {
                instance.resolve(info, selection_set, executor, errors)
            } else {
                proof {
                    lemma_prefix_reflexive(errors_model(errors@));
                }
                Err(ResolveError::Fatal(FatalError::Unsupported))
            }
        },
        None => {
            proof {
                lemma_prefix_reflexive(errors_model(errors@));
            }
            Err(ResolveError::Fatal(FatalError::Unsupported))
        },
    }
}

/// The trait a type implements to be exposed in a schema: its name and its
/// field table.
pub trait GraphQLType: GraphQLValue {
    /// The exposed name of this type; stable across calls.
    fn name(info: &Self::TypeInfo) -> Option<String>;

    /// The field table describing this type to the registry.
    fn meta(info: &Self::TypeInfo) -> MetaType;
}

/// The argument map one field invocation starts from: the query-supplied
/// literal pairs in order, each value resolved against the variables; a
/// repeated name keeps its first position and the last value wins.
pub open spec fn spec_literal_arg_map(
    lits: Seq<(String, InputValue)>,
    vars: Seq<(Seq<char>, InputModel)>,
) -> Seq<(Seq<char>, InputModel)>
    decreases lits.len(),
{
    if lits.len() == 0 {
        Seq::empty()
    } else {
        assoc_insert(
            spec_literal_arg_map(lits.drop_last(), vars),
            lits.last().0@,
            spec_into_const(input_model(lits.last().1), vars),
        )
    }
}

/// Builds the map of query-supplied argument literals for one field
/// invocation, resolving each value against the variables.
fn build_literal_arguments(
    lits: &Vec<(String, InputValue)>,
    vars: &Variables,
) -> (r: indexmap::IndexMap<String, InputValue>)
    ensures
        arg_map_entries(r) == spec_literal_arg_map(lits@, vars.model()),
{
    let mut m = arg_map_new();
    let n = lits.len();
    let mut j: usize = 0;
    while j < n
        invariant
            j <= n,
            n == lits.len(),
            arg_map_entries(m) == spec_literal_arg_map(lits@.take(j as int), vars.model()),
        decreases n - j,
    {
        let key = lits[j].0.clone();
        let val = lits[j].1.into_const(vars);
        arg_map_insert(&mut m, key, val);
        proof {
            assert(lits@.take(j + 1).drop_last() =~= lits@.take(j as int));
            assert(lits@.take(j + 1).last() == lits@[j as int]);
        }
        j = j + 1;
    }
    proof {
        assert(lits@.take(n as int) =~= lits@);
    }
    m
}

/// Resolves a selection set against an instance: an ordered object when the
/// walk completes, `Null` when a non-null field inside forced the enclosing
/// object to null, and the fatal error when the walk aborted. On a
/// fields-only selection set the object's keys are exactly the included
/// response names, in declaration order.
pub fn resolve_value_with_selections<T: GraphQLValue>(
    instance: &T,
    info: &T::TypeInfo,
    selection_set: &Vec<Selection>,
    executor: &Executor<T::Context>,
    errors: &mut Vec<ExecutionError>,
) -> (r: ExecutionResult)
    ensures
        errors_model(old(errors)@).is_prefix_of(errors_model(final(errors)@)),
        match r {
            Ok(v) => match value_model(v) {
                ValueModel::Object(entries) => fields_only(selection_set@) ==> keys_of(entries)
                    == spec_merge_keys(
                    Seq::empty(),
                    spec_included_response_names(selection_set@, executor.variables.model()),
                ),
                ValueModel::Null => true,
                _ => false,
            },
            Err(e) => e is Fatal,
        },
        spec_all_excluded(selection_set@, executor.variables.model()) ==> (errors_model(
            final(errors)@,
        ) == errors_model(old(errors)@) && match r {
            Ok(v) => value_model(v) == ValueModel::Object(Seq::empty()),
            Err(e) => e matches ResolveError::Fatal(f) && (f is MissingTypeName || (
            f matches FatalError::TypeNotFound(n) && !assoc_has(
                types_assoc(executor.schema.types@),
                n@,
            ))),
        }),
{
    let mut res = Object::with_capacity(selection_set.len());
    let ghost empty_entries = Seq::<(Seq<char>, ValueModel)>::empty();
    proof {
        assert(keys_of(empty_entries) =~= Seq::<Seq<char>>::empty());
    }
    match resolve_selection_set_into(instance, info, selection_set, executor, errors, &mut res) {
        Ok(true) => {
            let out = Value::Object(res);
            proof {
                assert(value_model(out) == ValueModel::Object(object_model(res)));
            }
            Ok(out)
        },
        Ok(false) => Ok(Value::null()),
        Err(f) => Err(ResolveError::Fatal(f)),
    }
}

/// The selection-set walk. Processes each selection in declaration order:
/// plain fields are resolved and merged (or skipped, or they abort, per the
/// per-field rule), fragments are matched against the instance's concrete
/// type and their entries merged, inline fragments without a type condition
/// recurse into the same result object.
///
/// Returns `Ok(true)` on a complete walk, `Ok(false)` when a non-null field
/// forces the enclosing object to become `Null`, and a fatal error when the
/// schema and the resolvers disagree. The error sink only grows, result keys
/// already present keep their order, and excluded selections contribute
/// neither entries nor errors.
pub fn resolve_selection_set_into<T: GraphQLValue>(
    instance: &T,
    info: &T::TypeInfo,
    selection_set: &Vec<Selection>,
    executor: &Executor<T::Context>,
    errors: &mut Vec<ExecutionError>,
    result: &mut Object,
) -> (r: Result<bool, FatalError>)
    ensures
        errors_model(old(errors)@).is_prefix_of(errors_model(final(errors)@)),
        keys_of(object_model(*old(result))).is_prefix_of(keys_of(object_model(*final(result)))),
        (r == Ok::<bool, FatalError>(true) && fields_only(selection_set@)) ==> keys_of(
            object_model(*final(result)),
        ) == spec_merge_keys(
            keys_of(object_model(*old(result))),
            spec_included_response_names(selection_set@, executor.variables.model()),
        ),
        spec_all_excluded(selection_set@, executor.variables.model()) ==> (errors_model(
            final(errors)@,
        ) == errors_model(old(errors)@) && object_model(*final(result)) == object_model(
            *old(result),
        ) && (match r {
            Ok(b) => b == true,
            Err(f) => f is MissingTypeName || (f matches FatalError::TypeNotFound(n)
                && !assoc_has(types_assoc(executor.schema.types@), n@)),
        })),
        only_conditioned_fragments(selection_set@) ==> !(r == Ok::<bool, FatalError>(false)),
    decreases selections_size(selection_set@),
{
    let ghost whole = selection_set@;
    let ghost vbind = executor.variables.model();
    let ghost keys0 = keys_of(object_model(*result));
    let ghost errs0 = errors_model(errors@);
    proof {
        lemma_prefix_reflexive(errs0);
        lemma_prefix_reflexive(keys0);
    }

    let schema_type_name = match instance.schema_type_name(info) {
        Some(n) => n,
        None => {
            return Err(FatalError::MissingTypeName);
        },
    };
    let meta_type = match executor.schema.concrete_type_by_name(schema_type_name.as_str()) {
        Some(t) => t,
        None => {
            return Err(FatalError::TypeNotFound(schema_type_name));
        },
    };

    let n = selection_set.len();
    let mut i: usize = 0;
    proof {
        assert(whole.take(0) =~= Seq::<Selection>::empty());
    }
    while i < n
        invariant
            i <= n,
            n == selection_set.len(),
            whole == selection_set@,
            vbind == executor.variables.model(),
            keys0 == keys_of(object_model(*old(result))),
            errs0 == errors_model(old(errors)@),
            errs0.is_prefix_of(errors_model(errors@)),
            keys0.is_prefix_of(keys_of(object_model(*result))),
            fields_only(whole.take(i as int)) ==> keys_of(object_model(*result))
                == spec_merge_keys(
                keys0,
                spec_included_response_names(whole.take(i as int), vbind),
            ),
            spec_all_excluded(whole.take(i as int), vbind) ==> (errors_model(errors@) == errs0
                && object_model(*result) == object_model(*old(result))),
        decreases n - i,
    {
        let ghost prefix = whole.take(i as int);
        let ghost extended = whole.take(i + 1);
        proof {
            assert(extended.drop_last() =~= prefix);
            assert(extended.last() == whole[i as int]);
            assert(forall|j: int| 0 <= j < extended.len() ==> extended[j] == whole[j]);
            assert(forall|j: int| 0 <= j < prefix.len() ==> prefix[j] == whole[j]);
        }
        match &selection_set[i] {
            Selection::Field(f) => {
                let excluded = match is_excluded(&f.directives, &executor.variables) {
                    Ok(b) => b,
                    Err(fatal) => {
                        proof {
                            if spec_all_excluded(whole, vbind) {
                                assert(spec_selection_excluded(whole[i as int], vbind) == Ok::<
                                    bool,
                                    Seq<char>,
                                >(true));
                            }
                        }
                        return Err(fatal);
                    },
                };
                if excluded {
                    proof {
                        assert(spec_selection_excluded(whole[i as int], vbind) == Ok::<
                            bool,
                            Seq<char>,
                        >(true));
                        assert(spec_included_response_names(extended, vbind)
                            =~= spec_included_response_names(prefix, vbind));
                        if spec_all_excluded(extended, vbind) {
                            assert(spec_all_excluded(prefix, vbind));
                        }
                    }
                } else {
                    proof {
                        assert(spec_selection_excluded(whole[i as int], vbind) == Ok::<
                            bool,
                            Seq<char>,
                        >(false));
                        assert(!spec_all_excluded(whole, vbind));
                        assert(!spec_all_excluded(extended, vbind)) by {
                            assert(extended[i as int] == whole[i as int]);
                        }
                    }
                    let response_name = match &f.alias {
                        Some(a) => a,
                        None => &f.name,
                    };
                    proof {
                        assert(response_name@ == response_name_of(*f));
                        assert(spec_included_response_names(extended, vbind)
                            =~= spec_included_response_names(prefix, vbind).push(
                            response_name_of(*f),
                        ));
                    }
                    if str_eq(f.name.as_str(), "__typename") {
                        match instance.concrete_type_name(&executor.context, info) {
                            Some(concrete) => {
                                let ghost before = object_model(*result);
                                merge_key_into(
                                    result,
                                    response_name.as_str(),
                                    Value::scalar(DefaultScalarValue::Str(concrete)),
                                );
                                proof {
                                    lemma_field_merge_step(
                                        before,
                                        response_name@,
                                        object_model(*result),
                                        keys0,
                                        prefix,
                                        extended,
                                        response_name_of(*f),
                                        vbind,
                                    );
                                }
                            },
                            None => {
                                return Err(FatalError::Unsupported);
                            },
                        }
                    } else {
                        let meta_field = match meta_type.field_by_name(f.name.as_str()) {
                            Some(mf) => mf,
                            None => {
                                return Err(FatalError::FieldNotFound(f.name.clone()));
                            },
                        };
                        let literal_args = match &f.arguments {
                            Some(lits) => Some(
                                build_literal_arguments(lits, &executor.variables),
                            ),
                            None => None,
                        };
                        let args = Arguments::new(literal_args, &meta_field.arguments);
                        let ghost errs_before = errors_model(errors@);
                        let field_result = instance.resolve_field(
                            info,
                            f.name.as_str(),
                            &args,
                            executor,
                            f.position,
                            f.selection_set.as_ref(),
                            errors,
                        );
                        proof {
                            lemma_prefix_transitive(errs0, errs_before, errors_model(errors@));
                        }
                        match classify_field_result(field_result, meta_field.non_null) {
                            FieldAction::Abort => {
                                proof {
                                    assert(!selection_cannot_abort(whole[i as int]));
                                }
                                return Ok(false);
                            },
                            FieldAction::AbortRecord(e) => {
                                executor.push_error_at(errors, e, f.position);
                                proof {
                                    lemma_prefix_push(
                                        errs0,
                                        errors_model(errors@).drop_last(),
                                        errors_model(errors@).last(),
                                    );
                                    assert(!selection_cannot_abort(whole[i as int]));
                                }
                                return Ok(false);
                            },
                            FieldAction::Merge(v) => {
                                let ghost before = object_model(*result);
                                merge_key_into(result, response_name.as_str(), v);
                                proof {
                                    lemma_field_merge_step(
                                        before,
                                        response_name@,
                                        object_model(*result),
                                        keys0,
                                        prefix,
                                        extended,
                                        response_name_of(*f),
                                        vbind,
                                    );
                                }
                            },
                            FieldAction::RecordMergeNull(e) => {
                                executor.push_error_at(errors, e, f.position);
                                proof {
                                    lemma_prefix_push(
                                        errs0,
                                        errors_model(errors@).drop_last(),
                                        errors_model(errors@).last(),
                                    );
                                }
                                let ghost before = object_model(*result);
                                merge_key_into(result, response_name.as_str(), Value::null());
                                proof {
                                    lemma_field_merge_step(
                                        before,
                                        response_name@,
                                        object_model(*result),
                                        keys0,
                                        prefix,
                                        extended,
                                        response_name_of(*f),
                                        vbind,
                                    );
                                }
                            },
                            FieldAction::Fatal(fatal) => {
                                return Err(fatal);
                            },
                        }
                    }
                }
            },
            Selection::FragmentSpread(spread) => {
                let excluded = match is_excluded(&spread.directives, &executor.variables) {
                    Ok(b) => b,
                    Err(fatal) => {
                        proof {
                            if spec_all_excluded(whole, vbind) {
                                assert(spec_selection_excluded(whole[i as int], vbind) == Ok::<
                                    bool,
                                    Seq<char>,
                                >(true));
                            }
                        }
                        return Err(fatal);
                    },
                };
                proof {
                    assert(!(whole[i as int] is Field));
                    assert(!fields_only(extended)) by {
                        assert(extended[i as int] == whole[i as int]);
                    }
                    assert(spec_included_response_names(extended, vbind)
                        =~= spec_included_response_names(prefix, vbind));
                }
                if excluded {
                    proof {
                        assert(spec_selection_excluded(whole[i as int], vbind) == Ok::<
                            bool,
                            Seq<char>,
                        >(true));
                        if spec_all_excluded(extended, vbind) {
                            assert(spec_all_excluded(prefix, vbind));
                        }
                    }
                } else {
                    proof {
                        assert(spec_selection_excluded(whole[i as int], vbind) == Ok::<
                            bool,
                            Seq<char>,
                        >(false));
                        assert(!spec_all_excluded(whole, vbind));
                        assert(!spec_all_excluded(extended, vbind)) by {
                            assert(extended[i as int] == whole[i as int]);
                        }
                    }
                    let fragment = match executor.fragment_by_name(spread.name.as_str()) {
                        Some(fr) => fr,
                        None => {
                            return Err(FatalError::FragmentNotFound(spread.name.clone()));
                        },
                    };
                    let concrete = match instance.concrete_type_name(&executor.context, info) {
                        Some(c) => c,
                        None => {
                            return Err(FatalError::Unsupported);
                        },
                    };
                    if str_eq(fragment.type_condition.as_str(), concrete.as_str()) {
                        let ghost errs_before = errors_model(errors@);
                        let sub_result = instance.resolve_into_type(
                            info,
                            fragment.type_condition.as_str(),
                            Some(&fragment.selection_set),
                            executor,
                            errors,
                        );
                        proof {
                            lemma_prefix_transitive(errs0, errs_before, errors_model(errors@));
                        }
                        let ghost sub_snapshot = sub_result;
                        let ghost keys_before = keys_of(object_model(*result));
                        let ghost model_before = object_model(*result);
                        let ghost errs_mid = errors_model(errors@);
                        match merge_fragment_result(
                            executor,
                            result,
                            errors,
                            sub_result,
                            spread.position,
                        ) {
                            Ok(_) => {
                                proof {
                                    match sub_snapshot {
                                        Ok(v) => {
                                            match value_model(v) {
                                                ValueModel::Object(entries) => {
                                                    lemma_merge_entries_prefix(
                                                        model_before,
                                                        entries,
                                                    );
                                                    lemma_prefix_transitive(
                                                        keys0,
                                                        keys_before,
                                                        keys_of(object_model(*result)),
                                                    );
                                                },
                                                _ => {},
                                            }
                                        },
                                        Err(ResolveError::Field(e)) => {
                                            lemma_prefix_push(
                                                errs0,
                                                errs_mid,
                                                (e.message@, spread.position),
                                            );
                                        },
                                        Err(ResolveError::Fatal(_)) => {},
                                    }
                                }
                            },
                            Err(fatal) => {
                                return Err(fatal);
                            },
                        }
                    }
                }
            },
            Selection::InlineFragment(frag) => {
                let excluded = match is_excluded(&frag.directives, &executor.variables) {
                    Ok(b) => b,
                    Err(fatal) => {
                        proof {
                            if spec_all_excluded(whole, vbind) {
                                assert(spec_selection_excluded(whole[i as int], vbind) == Ok::<
                                    bool,
                                    Seq<char>,
                                >(true));
                            }
                        }
                        return Err(fatal);
                    },
                };
                proof {
                    assert(!(whole[i as int] is Field));
                    assert(!fields_only(extended)) by {
                        assert(extended[i as int] == whole[i as int]);
                    }
                    assert(spec_included_response_names(extended, vbind)
                        =~= spec_included_response_names(prefix, vbind));
                }
                if excluded {
                    proof {
                        assert(spec_selection_excluded(whole[i as int], vbind) == Ok::<
                            bool,
                            Seq<char>,
                        >(true));
                        if spec_all_excluded(extended, vbind) {
                            assert(spec_all_excluded(prefix, vbind));
                        }
                    }
                } else {
                    proof {
                        assert(spec_selection_excluded(whole[i as int], vbind) == Ok::<
                            bool,
                            Seq<char>,
                        >(false));
                        assert(!spec_all_excluded(whole, vbind));
                        assert(!spec_all_excluded(extended, vbind)) by {
                            assert(extended[i as int] == whole[i as int]);
                        }
                    }
                    match &frag.type_condition {
                        Some(cond) => {
                            let concrete = match instance.concrete_type_name(
                                &executor.context,
                                info,
                            ) {
                                Some(c) => c,
                                None => {
                                    return Err(FatalError::Unsupported);
                                },
                            };
                            if str_eq(cond.as_str(), concrete.as_str()) {
                                let ghost errs_before = errors_model(errors@);
                                let sub_result = instance.resolve_into_type(
                                    info,
                                    cond.as_str(),
                                    Some(&frag.selection_set),
                                    executor,
                                    errors,
                                );
                                proof {
                                    lemma_prefix_transitive(
                                        errs0,
                                        errs_before,
                                        errors_model(errors@),
                                    );
                                }
                                let ghost sub_snapshot = sub_result;
                                let ghost keys_before = keys_of(object_model(*result));
                                let ghost model_before = object_model(*result);
                                let ghost errs_mid = errors_model(errors@);
                                match merge_fragment_result(
                                    executor,
                                    result,
                                    errors,
                                    sub_result,
                                    frag.position,
                                ) {
                                    Ok(_) => {
                                        proof {
                                            match sub_snapshot {
                                                Ok(v) => {
                                                    match value_model(v) {
                                                        ValueModel::Object(entries) => {
                                                            lemma_merge_entries_prefix(
                                                                model_before,
                                                                entries,
                                                            );
                                                            lemma_prefix_transitive(
                                                                keys0,
                                                                keys_before,
                                                                keys_of(object_model(*result)),
                                                            );
                                                        },
                                                        _ => {},
                                                    }
                                                },
                                                Err(ResolveError::Field(e)) => {
                                                    lemma_prefix_push(
                                                        errs0,
                                                        errs_mid,
                                                        (e.message@, frag.position),
                                                    );
                                                },
                                                Err(ResolveError::Fatal(_)) => {},
                                            }
                                        }
                                    },
                                    Err(fatal) => {
                                        return Err(fatal);
                                    },
                                }
                            }
                        },
                        None => {
                            proof {
                                lemma_selections_size_element(whole, i as int);
                                assert(whole[i as int] == Selection::InlineFragment(*frag));
                                assert(selections_size(frag.selection_set@) < selections_size(
                                    whole,
                                ));
                            }
                            let ghost errs_before = errors_model(errors@);
                            let ghost keys_before = keys_of(object_model(*result));
                            match resolve_selection_set_into(
                                instance,
                                info,
                                &frag.selection_set,
                                executor,
                                errors,
                                result,
                            ) {
                                Ok(true) => {
                                    proof {
                                        lemma_prefix_transitive(
                                            errs0,
                                            errs_before,
                                            errors_model(errors@),
                                        );
                                        lemma_prefix_transitive(
                                            keys0,
                                            keys_before,
                                            keys_of(object_model(*result)),
                                        );
                                    }
                                },
                                Ok(false) => {
                                    proof {
                                        lemma_prefix_transitive(
                                            errs0,
                                            errs_before,
                                            errors_model(errors@),
                                        );
                                        lemma_prefix_transitive(
                                            keys0,
                                            keys_before,
                                            keys_of(object_model(*result)),
                                        );
                                        assert(!selection_cannot_abort(whole[i as int]));
                                    }
                                    return Ok(false);
                                },
                                Err(fatal) => {
                                    proof {
                                        lemma_prefix_transitive(
                                            errs0,
                                            errs_before,
                                            errors_model(errors@),
                                        );
                                        lemma_prefix_transitive(
                                            keys0,
                                            keys_before,
                                            keys_of(object_model(*result)),
                                        );
                                    }
                                    return Err(fatal);
                                },
                            }
                        },
                    }
                }
            },
        }
        i = i + 1;
    }
    proof {
        assert(whole.take(n as int) =~= whole);
    }
    Ok(true)
}

/// One field merge, at the model level: how the result keys and the two key
/// invariants move when a field's value lands under its response name.
proof fn lemma_field_merge_step(
    before: Seq<(Seq<char>, ValueModel)>,
    key: Seq<char>,
    after: Seq<(Seq<char>, ValueModel)>,
    keys0: Seq<Seq<char>>,
    prefix: Seq<Selection>,
    extended: Seq<Selection>,
    name: Seq<char>,
    vbind: Seq<(Seq<char>, InputModel)>,
)
    requires
        key == name,
        exists|v: ValueModel| after == assoc_insert(before, key, v),
        keys0.is_prefix_of(keys_of(before)),
        spec_included_response_names(extended, vbind) == spec_included_response_names(
            prefix,
            vbind,
        ).push(name),
    ensures
        keys0.is_prefix_of(keys_of(after)),
        fields_only(prefix) && keys_of(before) == spec_merge_keys(
            keys0,
            spec_included_response_names(prefix, vbind),
        ) ==> keys_of(after) == spec_merge_keys(
            keys0,
            spec_included_response_names(extended, vbind),
        ),
{
    let v = choose|v: ValueModel| after == assoc_insert(before, key, v);
    lemma_keys_of_insert(before, key, v);
    lemma_keys_of_contains(before, key);
    if !assoc_has(before, key) {
        lemma_prefix_push(keys0, keys_of(before), key);
    }
    lemma_merge_keys_push(keys0, spec_included_response_names(prefix, vbind), name);
}



/// Directive exclusion, for well-formed directives: a selection is excluded
/// exactly when some directive gives an exclusion reason — `skip` with a
/// true condition or `include` with a false one. In particular a lone
/// `skip(if: true)` or `include(if: false)` excludes, and a selection with
/// only `skip(if: false)` and `include(if: true)` is included.
pub proof fn lemma_directive_exclusion(ds: Seq<Directive>, vars: Seq<(Seq<char>, InputModel)>)
    requires
        forall|i: int| 0 <= i < ds.len() ==> spec_directive_condition(ds[i], vars) is Some,
    ensures
        spec_run_directives(ds, vars) == Ok::<bool, Seq<char>>(
            exists|i: int|
                0 <= i < ds.len() && spec_directive_excludes(
                    ds[i].name@,
                    spec_directive_condition(ds[i], vars)->0,
                ),
        ),
    decreases ds.len(),
{
    if ds.len() == 0 {
    } else {
        let c = spec_directive_condition(ds[0], vars)->0;
        if spec_directive_excludes(ds[0].name@, c) {
            assert(exists|i: int|
                0 <= i < ds.len() && spec_directive_excludes(
                    ds[i].name@,
                    spec_directive_condition(ds[i], vars)->0,
                )) by {
                assert(spec_directive_excludes(
                    ds[0].name@,
                    spec_directive_condition(ds[0], vars)->0,
                ));
            }
        } else {
            let rest = ds.drop_first();
            assert(forall|j: int| 0 <= j < rest.len() ==> rest[j] == ds[j + 1]);
            lemma_directive_exclusion(rest, vars);
            let on_rest = exists|i: int|
                0 <= i < rest.len() && spec_directive_excludes(
                    rest[i].name@,
                    spec_directive_condition(rest[i], vars)->0,
                );
            let on_all = exists|i: int|
                0 <= i < ds.len() && spec_directive_excludes(
                    ds[i].name@,
                    spec_directive_condition(ds[i], vars)->0,
                );
            if on_rest {
                let i = choose|i: int|
                    0 <= i < rest.len() && spec_directive_excludes(
                        rest[i].name@,
                        spec_directive_condition(rest[i], vars)->0,
                    );
                assert(rest[i] == ds[i + 1]);
                assert(spec_directive_excludes(
                    ds[i + 1].name@,
                    spec_directive_condition(ds[i + 1], vars)->0,
                ));
            }
            if on_all {
                let i = choose|i: int|
                    0 <= i < ds.len() && spec_directive_excludes(
                        ds[i].name@,
                        spec_directive_condition(ds[i], vars)->0,
                    );
                assert(i != 0);
                assert(rest[i - 1] == ds[i]);
                assert(spec_directive_excludes(
                    rest[i - 1].name@,
                    spec_directive_condition(rest[i - 1], vars)->0,
                ));
            }
        }
    }
}

/// Ordering: merging pairwise-distinct, fresh response names appends them in
/// declaration order, whatever else the result object already holds.
pub proof fn lemma_merge_keys_fresh(keys: Seq<Seq<char>>, names: Seq<Seq<char>>)
    requires
        forall|i: int, j: int| 0 <= i < j < names.len() ==> names[i] != names[j],
        forall|i: int| 0 <= i < names.len() ==> !keys.contains(names[i]),
    ensures
        spec_merge_keys(keys, names) == keys + names,
    decreases names.len(),
{
    if names.len() == 0 {
        assert(keys + names =~= keys);
    } else {
        assert(!keys.contains(names[0]));
        let grown = keys.push(names[0]);
        let rest = names.drop_first();
        assert(forall|j: int| 0 <= j < rest.len() ==> rest[j] == names[j + 1]);
        assert forall|j: int| 0 <= j < rest.len() implies !grown.contains(rest[j]) by {
            assert(rest[j] == names[j + 1]);
            assert(!keys.contains(names[j + 1]));
            assert(names[0] != names[j + 1]);
            if grown.contains(rest[j]) {
                let w = choose|w: int| 0 <= w < grown.len() && grown[w] == rest[j];
                if w < keys.len() {
                    assert(keys[w] == rest[j]);
                } else {
                    assert(grown[w] == names[0]);
                }
            }
        }
        lemma_merge_keys_fresh(grown, rest);
        assert(grown + rest =~= keys + names);
    }
}


} // verus!
