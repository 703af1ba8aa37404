//! Read-only schema metadata the engine consults: per-field argument
//! declarations, nullability, and the registry mapping concrete type names
//! to their field tables.

use vstd::prelude::*;
use crate::input::InputValue;
use crate::keyed::{assoc_get, assoc_has, lemma_assoc_find_at, lemma_assoc_has_iff, str_eq};

verus! {

/// A declared field argument: its name and an optional default value.
pub struct Argument {
    pub name: String,
    pub default_value: Option<InputValue>,
}

/// Schema metadata for one field: its declared arguments (absent when the
/// field takes none at all) and whether its declared type is non-nullable.
pub struct FieldMeta {
    pub name: String,
    pub arguments: Option<Vec<Argument>>,
    pub non_null: bool,
}

/// The field table of one concrete type.
pub struct MetaType {
    pub name: String,
    pub fields: Vec<FieldMeta>,
}

/// The read-only type registry: concrete type name to field table.
pub struct SchemaRegistry {
    pub types: Vec<MetaType>,
}

/// Field tables as an ordered name/field sequence.
pub open spec fn fields_assoc(s: Seq<FieldMeta>) -> Seq<(Seq<char>, FieldMeta)> {
    s.map(|i: int, f: FieldMeta| (f.name@, f))
}

/// The registry as an ordered name/type sequence.
pub open spec fn types_assoc(s: Seq<MetaType>) -> Seq<(Seq<char>, MetaType)> {
    s.map(|i: int, t: MetaType| (t.name@, t))
}

impl MetaType {
    /// Finds the metadata of the first field declared under `name`.
    pub fn field_by_name(&self, name: &str) -> (r: Option<&FieldMeta>)
        ensures
            match r {
                Some(f) => assoc_has(fields_assoc(self.fields@), name@) && *f == assoc_get(
                    fields_assoc(self.fields@),
                    name@,
                ),
                None => !assoc_has(fields_assoc(self.fields@), name@),
            },
    {
        let n = self.fields.len();
        let mut i: usize = 0;
        while i < n
            invariant
                i <= n,
                n == self.fields.len(),
                forall|j: int| 0 <= j < i ==> self.fields@[j].name@ != name@,
            decreases n - i,
        {
            if str_eq(self.fields[i].name.as_str(), name) {
                proof {
                    lemma_assoc_find_at(fields_assoc(self.fields@), name@, i as int);
                }
                return Some(&self.fields[i]);
            }
            i = i + 1;
        }
        proof {
            lemma_assoc_has_iff(fields_assoc(self.fields@), name@);
        }
        None
    }
}

impl SchemaRegistry {
    /// Finds the field table registered for a concrete type name.
    pub fn concrete_type_by_name(&self, name: &str) -> (r: Option<&MetaType>)
        ensures
            match r {
                Some(t) => assoc_has(types_assoc(self.types@), name@) && *t == assoc_get(
                    types_assoc(self.types@),
                    name@,
                ),
                None => !assoc_has(types_assoc(self.types@), name@),
            },
    {
        let n = self.types.len();
        let mut i: usize = 0;
        while i < n
            invariant
                i <= n,
                n == self.types.len(),
                forall|j: int| 0 <= j < i ==> self.types@[j].name@ != name@,
            decreases n - i,
        {
            if str_eq(self.types[i].name.as_str(), name) {
                proof {
                    lemma_assoc_find_at(types_assoc(self.types@), name@, i as int);
                }
                return Some(&self.types[i]);
            }
            i = i + 1;
        }
        proof {
            lemma_assoc_has_iff(types_assoc(self.types@), name@);
        }
        None
    }
}

} // verus!
