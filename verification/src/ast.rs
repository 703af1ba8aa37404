//! The parsed query fragments the engine consumes: selections, directives
//! and fragment definitions. The tree is immutable during one execution.

use vstd::prelude::*;
use crate::input::InputValue;

verus! {

/// A position in the query source, used for error attribution.
#[derive(Clone, Copy, PartialEq, Eq, Structural, Debug)]
pub struct SourcePosition {
    pub index: usize,
    pub line: usize,
    pub col: usize,
}

impl SourcePosition {
    pub fn new(index: usize, line: usize, col: usize) -> (r: SourcePosition)
        ensures
            r == (SourcePosition { index, line, col }),
    {
        SourcePosition { index, line, col }
    }
}

/// A directive attached to a selection, such as `skip` or `include`, with
/// its argument literals in query order.
pub struct Directive {
    pub name: String,
    pub arguments: Option<Vec<(String, InputValue)>>,
}

/// A plain field selection.
pub struct Field {
    pub position: SourcePosition,
    pub name: String,
    pub alias: Option<String>,
    pub arguments: Option<Vec<(String, InputValue)>>,
    pub directives: Option<Vec<Directive>>,
    pub selection_set: Option<Vec<Selection>>,
}

/// A use of a named fragment.
pub struct FragmentSpread {
    pub position: SourcePosition,
    pub name: String,
    pub directives: Option<Vec<Directive>>,
}

/// An inline fragment, with an optional type condition.
pub struct InlineFragment {
    pub position: SourcePosition,
    pub type_condition: Option<String>,
    pub directives: Option<Vec<Directive>>,
    pub selection_set: Vec<Selection>,
}

/// One selection of a selection set.
pub enum Selection {
    Field(Field),
    FragmentSpread(FragmentSpread),
    InlineFragment(InlineFragment),
}

/// A named fragment definition from the query document.
pub struct Fragment {
    pub name: String,
    pub type_condition: String,
    pub selection_set: Vec<Selection>,
}

/// The response name a field contributes: its alias when present, else its
/// name.
pub open spec fn response_name_of(f: Field) -> Seq<char> {
    match f.alias {
        Some(a) => a@,
        None => f.name@,
    }
}

/// Size measure for the walk's recursion: only inline fragments are walked
/// recursively by the resolver itself.
pub open spec fn selection_size(s: Selection) -> nat
    decreases s,
{
    match s {
        Selection::InlineFragment(f) => 1 + selections_size(f.selection_set@),
        _ => 1,
    }
}

pub open spec fn selections_size(ss: Seq<Selection>) -> nat
    decreases ss,
{
    if ss.len() == 0 {
        0
    } else {
        selection_size(ss.first()) + selections_size(ss.drop_first())
    }
}

pub proof fn lemma_selections_size_element(ss: Seq<Selection>, i: int)
    requires
        0 <= i < ss.len(),
    ensures
        selection_size(ss[i]) <= selections_size(ss),
    decreases ss.len(),
{
    if i > 0 {
        lemma_selections_size_element(ss.drop_first(), i - 1);
        assert(ss.drop_first()[i - 1] == ss[i]);
    }
}

} // verus!
