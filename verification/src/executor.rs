//! The read-only execution context handed down the walk: variable bindings,
//! fragment definitions, the schema registry and the application context —
//! plus the error types and the append-only error sink.

use vstd::prelude::*;
use crate::ast::{Fragment, SourcePosition};
use crate::input::{input_model, input_pairs_model, lemma_input_pairs_model, InputModel, InputValue};
use crate::keyed::{assoc_get, assoc_has, lemma_assoc_find_at, lemma_assoc_has_iff, str_eq};
use crate::meta::SchemaRegistry;

verus! {

/// Read-only variable bindings: names with their resolved values, looked up
/// by first match.
pub struct Variables {
    pub pairs: Vec<(String, InputValue)>,
}

impl Variables {
    pub open spec fn model(self) -> Seq<(Seq<char>, InputModel)> {
        input_pairs_model(self.pairs@)
    }

    pub fn new(pairs: Vec<(String, InputValue)>) -> (r: Variables)
        ensures
            r.model() == input_pairs_model(pairs@),
    {
        Variables { pairs }
    }

    /// The value bound to `name`, if any.
    pub fn get(&self, name: &str) -> (r: Option<&InputValue>)
        ensures
            match r {
                Some(v) => assoc_has(self.model(), name@) && input_model(*v) == assoc_get(
                    self.model(),
                    name@,
                ),
                None => !assoc_has(self.model(), name@),
            },
    {
        proof {
            lemma_input_pairs_model(self.pairs@);
        }
        let n = self.pairs.len();
        let mut i: usize = 0;
        while i < n
            invariant
                i <= n,
                n == self.pairs.len(),
                forall|j: int| 0 <= j < i ==> self.pairs@[j].0@ != name@,
            decreases n - i,
        {
            if str_eq(self.pairs[i].0.as_str(), name) {
                proof {
                    lemma_input_pairs_model(self.pairs@);
                    lemma_assoc_find_at(self.model(), name@, i as int);
                }
                return Some(&self.pairs[i].1);
            }
            i = i + 1;
        }
        proof {
            lemma_input_pairs_model(self.pairs@);
            lemma_assoc_has_iff(self.model(), name@);
        }
        None
    }
}

/// An application-level failure a field resolver reports.
#[derive(Debug)]
pub struct FieldError {
    pub message: String,
}

/// A recorded field error: the message with the source position of the
/// selection it belongs to.
#[derive(Debug)]
pub struct ExecutionError {
    pub position: SourcePosition,
    pub message: String,
}

pub open spec fn errors_model(s: Seq<ExecutionError>) -> Seq<(Seq<char>, SourcePosition)> {
    s.map(|i: int, e: ExecutionError| (e.message@, e.position))
}

/// A schema/resolver contract violation: the executed document and the
/// resolver implementation disagree. Execution aborts; this is never turned
/// into a `Null` field.
#[derive(Debug)]
pub enum FatalError {
    /// The instance could not name its own type at the start of a walk.
    MissingTypeName,
    /// A type name has no entry in the registry.
    TypeNotFound(String),
    /// A selected field is missing from its type's field table.
    FieldNotFound(String),
    /// A fragment spread names an unknown fragment.
    FragmentNotFound(String),
    /// A directive's `if` argument is missing or not boolean.
    InvalidDirectiveArgument(String),
    /// A capability required here is not provided by the value's resolver.
    Unsupported,
}

/// What a resolver call can report: a recoverable field error, or a fatal
/// contract violation that aborts the walk.
#[derive(Debug)]
pub enum ResolveError {
    Field(FieldError),
    Fatal(FatalError),
}

/// What resolving one value yields.
pub type ExecutionResult = Result<crate::value::Value, ResolveError>;

/// Fragment definitions as an ordered name/definition sequence.
pub open spec fn fragments_assoc(s: Seq<Fragment>) -> Seq<(Seq<char>, Fragment)> {
    s.map(|i: int, f: Fragment| (f.name@, f))
}

/// The read-only context of one execution.
pub struct Executor<C> {
    pub context: C,
    pub schema: SchemaRegistry,
    pub variables: Variables,
    pub fragments: Vec<Fragment>,
}

impl<C> Executor<C> {
    /// The current variable bindings.
    pub fn variables(&self) -> (r: &Variables)
        ensures
            *r == self.variables,
    {
        &self.variables
    }

    /// The application context.
    pub fn context(&self) -> (r: &C)
        ensures
            *r == self.context,
    {
        &self.context
    }

    /// The schema registry.
    pub fn schema(&self) -> (r: &SchemaRegistry)
        ensures
            *r == self.schema,
    {
        &self.schema
    }

    /// Finds the definition of the named fragment.
    pub fn fragment_by_name(&self, name: &str) -> (r: Option<&Fragment>)
        ensures
            match r {
                Some(f) => assoc_has(fragments_assoc(self.fragments@), name@) && *f == assoc_get(
                    fragments_assoc(self.fragments@),
                    name@,
                ),
                None => !assoc_has(fragments_assoc(self.fragments@), name@),
            },
    {
        let n = self.fragments.len();
        let mut i: usize = 0;
        while i < n
            invariant
                i <= n,
                n == self.fragments.len(),
                forall|j: int| 0 <= j < i ==> self.fragments@[j].name@ != name@,
            decreases n - i,
        {
            if str_eq(self.fragments[i].name.as_str(), name) {
                proof {
                    lemma_assoc_find_at(fragments_assoc(self.fragments@), name@, i as int);
                }
                return Some(&self.fragments[i]);
            }
            i = i + 1;
        }
        proof {
            lemma_assoc_has_iff(fragments_assoc(self.fragments@), name@);
        }
        None
    }

    /// Records a field error against a source position; the sink only grows.
    pub fn push_error_at(&self, errors: &mut Vec<ExecutionError>, error: FieldError, position: SourcePosition)
        ensures
            errors_model(final(errors)@) == errors_model(old(errors)@).push(
                (error.message@, position),
            ),
    {
        let ghost before = errors@;
        errors.push(ExecutionError { position, message: error.message });
        proof {
            assert(errors_model(errors@) =~= errors_model(before).push(
                (error.message@, position),
            ));
        }
    }
}

} // verus!
