//! What the blocks of a document must say of one another: no two variables
//! share a name, every variable that a probability block names is declared,
//! and every table has one row for each combination of its parents' states.

use vstd::prelude::*;
use crate::error::{ErrorKind, ErrorKindView, ParseError, ParseErrorView, fault};
use crate::model::{Bif, BifView, Probability, ProbabilityView, Variable, VariableView};
use crate::table::{
    all_fit, all_hold, combinations, count_combinations, has_duplicate, in_range, rows_fit,
    rows_hold, rows_repeat, states_at,
};

verus! {

/// The names of `variables`, in their order.
pub open spec fn names_of(variables: Seq<VariableView>) -> Seq<Seq<char>> {
    Seq::new(variables.len(), |i: int| variables[i].name)
}

/// Whether a variable named `name` is among `variables`.
pub open spec fn declared(variables: Seq<VariableView>, name: Seq<char>) -> bool {
    names_of(variables).contains(name)
}

/// The index of the first of `names` at or behind the index `from` that is
/// `name`; the number of names where there is none.
pub open spec fn index_from(names: Seq<Seq<char>>, name: Seq<char>, from: int) -> int
    decreases names.len() - from,
{
    if from < 0 || from >= names.len() {
        names.len() as int
    } else if names[from] == name {
        from
    } else {
        index_from(names, name, from + 1)
    }
}

/// The index of the first of `names` that is `name`; the number of names
/// where there is none.
pub open spec fn index_of(names: Seq<Seq<char>>, name: Seq<char>) -> int {
    index_from(names, name, 0)
}

/// The first of `names` at or behind `from` that is `name` is `name`, and
/// none between the two is.
pub proof fn lemma_index_from(names: Seq<Seq<char>>, name: Seq<char>, from: int)
    requires
        0 <= from <= names.len(),
    ensures
        from <= index_from(names, name, from) <= names.len(),
        index_from(names, name, from) < names.len() ==> names[index_from(names, name, from)]
            == name,
        forall|i: int| from <= i < index_from(names, name, from) ==> #[trigger] names[i] != name,
    decreases names.len() - from,
{
    if from < names.len() && names[from] != name {
        lemma_index_from(names, name, from + 1);
    }
}

/// A name is among `names` exactly where a first one is found.
pub proof fn lemma_index_of(names: Seq<Seq<char>>, name: Seq<char>)
    ensures
        0 <= index_of(names, name) <= names.len(),
        names.contains(name) <==> index_of(names, name) < names.len(),
        index_of(names, name) < names.len() ==> names[index_of(names, name)] == name,
        forall|i: int| 0 <= i < index_of(names, name) ==> #[trigger] names[i] != name,
{
    lemma_index_from(names, name, 0);
}

/// The index of the first of `names` that is `name`; the number of names
/// where there is none.
pub fn find_name(names: &Vec<String>, name: &String) -> (r: usize)
    ensures
        r == index_of(names.deep_view(), name@),
        r <= names.len(),
{
    let ghost views = names.deep_view();
    let mut i: usize = 0;
    while i < names.len()
        invariant
            i <= names.len(),
            views == names.deep_view(),
            index_of(views, name@) == index_from(views, name@, i as int),
        decreases names.len() - i,
    {
        assert(views[i as int] == names@[i as int]@);
        if names[i] == *name {
            return i;
        }
        i += 1;
    }
    i
}

/// The index of the first variable named `name`; the number of variables
/// where there is none.
pub fn find_variable(variables: &Vec<Variable>, name: &String) -> (r: usize)
    ensures
        r == index_of(names_of(variables.deep_view()), name@),
        r <= variables.len(),
{
    let ghost names = names_of(variables.deep_view());
    let mut i: usize = 0;
    while i < variables.len()
        invariant
            i <= variables.len(),
            names == names_of(variables.deep_view()),
            index_of(names, name@) == index_from(names, name@, i as int),
        decreases variables.len() - i,
    {
        assert(names[i as int] == variables@[i as int].name@);
        if variables[i].name == *name {
            return i;
        }
        i += 1;
    }
    i
}

/// Whether the variable at the index `j` has the name of one before it.
pub open spec fn repeats(variables: Seq<VariableView>, j: int) -> bool {
    exists|i: int| 0 <= i < j && #[trigger] names_of(variables)[i] == variables[j].name
}

/// The error for the first variable at or behind the index `j` that has the
/// name of one before it, if there is such a variable.
pub open spec fn duplicate_from(variables: Seq<VariableView>, j: int) -> Option<ParseErrorView>
    decreases variables.len() - j,
{
    if j < 0 || j >= variables.len() {
        None
    } else if repeats(variables, j) {
        Some(fault(ErrorKindView::DuplicateVariableName, variables[j].position))
    } else {
        duplicate_from(variables, j + 1)
    }
}

/// Looks for two variables of one name.
pub fn check_names(variables: &Vec<Variable>) -> (r: Option<ParseError>)
    ensures
        r.deep_view() == duplicate_from(variables.deep_view(), 0),
{
    let ghost views = variables.deep_view();
    let mut j: usize = 0;
    while j < variables.len()
        invariant
            j <= variables.len(),
            views == variables.deep_view(),
            duplicate_from(views, 0) == duplicate_from(views, j as int),
        decreases variables.len() - j,
    {
        let first = find_variable(variables, &variables[j].name);
        proof {
            lemma_index_of(names_of(views), views[j as int].name);
            assert(views[j as int].name == variables@[j as int].name@);
            assert(names_of(views)[j as int] == views[j as int].name);
        }
        if first < j {
            assert(names_of(views)[first as int] == views[j as int].name);
            return Some(
                ParseError {
                    kind: ErrorKind::DuplicateVariableName,
                    position: variables[j].position,
                },
            );
        }
        j += 1;
    }
    None
}

/// Whether every variable that the probability block `p` names is among
/// `variables`.
pub open spec fn resolved(variables: Seq<VariableView>, p: ProbabilityView) -> bool {
    &&& declared(variables, p.variable)
    &&& forall|k: int| 0 <= k < p.parents.len() ==> declared(variables, #[trigger] p.parents[k])
}

/// The error for the first probability block at or behind the index `j`
/// that names a variable which is not declared, if there is such a block.
pub open spec fn unresolved_from(
    variables: Seq<VariableView>,
    probabilities: Seq<ProbabilityView>,
    j: int,
) -> Option<ParseErrorView>
    decreases probabilities.len() - j,
{
    if j < 0 || j >= probabilities.len() {
        None
    } else if !resolved(variables, probabilities[j]) {
        Some(fault(ErrorKindView::UnresolvedVariableReference, probabilities[j].position))
    } else {
        unresolved_from(variables, probabilities, j + 1)
    }
}

/// Whether every variable that `p` names is among `variables`.
pub fn is_resolved(variables: &Vec<Variable>, p: &Probability) -> (r: bool)
    ensures
        r == resolved(variables.deep_view(), p.deep_view()),
{
    let ghost views = variables.deep_view();
    let ghost parents = p.parents.deep_view();
    proof {
        lemma_index_of(names_of(views), p.variable@);
    }
    if find_variable(variables, &p.variable) >= variables.len() {
        return false;
    }
    let mut k: usize = 0;
    while k < p.parents.len()
        invariant
            k <= p.parents.len(),
            views == variables.deep_view(),
            parents == p.parents.deep_view(),
            parents == p.deep_view().parents,
            forall|l: int| 0 <= l < k ==> declared(views, #[trigger] parents[l]),
        decreases p.parents.len() - k,
    {
        proof {
            lemma_index_of(names_of(views), parents[k as int]);
            assert(parents[k as int] == p.parents@[k as int]@);
        }
        if find_variable(variables, &p.parents[k]) >= variables.len() {
            return false;
        }
        k += 1;
    }
    true
}

/// Looks for a probability block that names a variable which is not
/// declared.
pub fn check_references(variables: &Vec<Variable>, probabilities: &Vec<Probability>) -> (r:
    Option<ParseError>)
    ensures
        r.deep_view() == unresolved_from(variables.deep_view(), probabilities.deep_view(), 0),
{
    let ghost views = variables.deep_view();
    let ghost blocks = probabilities.deep_view();
    let mut j: usize = 0;
    while j < probabilities.len()
        invariant
            j <= probabilities.len(),
            views == variables.deep_view(),
            blocks == probabilities.deep_view(),
            unresolved_from(views, blocks, 0) == unresolved_from(views, blocks, j as int),
        decreases probabilities.len() - j,
    {
        assert(blocks[j as int] == probabilities@[j as int].deep_view());
        if !is_resolved(variables, &probabilities[j]) {
            return Some(
                ParseError {
                    kind: ErrorKind::UnresolvedVariableReference,
                    position: probabilities[j].position,
                },
            );
        }
        j += 1;
    }
    None
}

/// Where no probability block at or behind the index `j` is found
/// unresolved, each of them is resolved.
pub proof fn lemma_all_resolved(
    variables: Seq<VariableView>,
    probabilities: Seq<ProbabilityView>,
    j: int,
)
    requires
        0 <= j,
        unresolved_from(variables, probabilities, j) is None,
    ensures
        forall|k: int|
            j <= k < probabilities.len() ==> resolved(variables, #[trigger] probabilities[k]),
    decreases probabilities.len() - j,
{
    if j < probabilities.len() {
        lemma_all_resolved(variables, probabilities, j + 1);
    }
}

/// The first variable named `name`.
pub open spec fn variable_named(variables: Seq<VariableView>, name: Seq<char>) -> VariableView {
    variables[index_of(names_of(variables), name)]
}

/// The state labels of the parents of `p`, parent by parent.
pub open spec fn parent_states(variables: Seq<VariableView>, p: ProbabilityView) -> Seq<
    Seq<Seq<char>>,
> {
    Seq::new(p.parents.len(), |k: int| variable_named(variables, p.parents[k]).states)
}

/// What is wrong with the table of `p`, if anything is. A row whose key
/// does not pick one state of each parent makes the table malformed. A
/// table of such rows is incomplete if it has fewer rows than the states of
/// the parents have combinations. If it has as many, no two rows may have
/// one key. Each row holds one value for each state of the target.
pub open spec fn table_fault(variables: Seq<VariableView>, p: ProbabilityView) -> Option<
    ErrorKindView,
> {
    let states = parent_states(variables, p);
    if !all_fit(p.table, states) {
        Some(ErrorKindView::MalformedTable)
    } else if p.table.len() < combinations(states) {
        Some(ErrorKindView::IncompleteTable)
    } else if has_duplicate(p.table) {
        Some(ErrorKindView::DuplicateTableRow)
    } else if !all_hold(
        p.table,
        variable_named(variables, p.variable).node_type.spec_cardinality(),
    ) {
        Some(ErrorKindView::ValueCountMismatch)
    } else {
        None
    }
}

/// The indices of the parents of `p` among `variables`.
fn parent_indices(variables: &Vec<Variable>, p: &Probability) -> (at: Vec<usize>)
    requires
        resolved(variables.deep_view(), p.deep_view()),
    ensures
        in_range(variables.deep_view(), at@),
        states_at(variables.deep_view(), at@) == parent_states(
            variables.deep_view(),
            p.deep_view(),
        ),
{
    let ghost views = variables.deep_view();
    let ghost parents = p.deep_view().parents;
    let mut at: Vec<usize> = Vec::new();
    let mut k: usize = 0;
    while k < p.parents.len()
        invariant
            k <= p.parents.len(),
            at.len() == k,
            views == variables.deep_view(),
            parents == p.parents.deep_view(),
            resolved(views, p.deep_view()),
            parents == p.deep_view().parents,
            forall|l: int|
                0 <= l < k ==> (#[trigger] at@[l]) == index_of(names_of(views), parents[l])
                    && at@[l] < views.len(),
        decreases p.parents.len() - k,
    {
        let found = find_variable(variables, &p.parents[k]);
        proof {
            assert(parents[k as int] == p.parents@[k as int]@);
            assert(declared(views, parents[k as int]));
            lemma_index_of(names_of(views), parents[k as int]);
        }
        at.push(found);
        k += 1;
    }
    proof {
        assert(states_at(views, at@) =~= parent_states(views, p.deep_view()));
    }
    at
}

/// Looks for what is wrong with the table of `p`.
pub(crate) fn check_table(variables: &Vec<Variable>, p: &Probability) -> (r: Option<ErrorKind>)
    requires
        resolved(variables.deep_view(), p.deep_view()),
    ensures
        r.deep_view() == table_fault(variables.deep_view(), p.deep_view()),
{
    let ghost views = variables.deep_view();
    let at = parent_indices(variables, p);
    if !rows_fit(variables, &at, &p.table) {
        return Some(ErrorKind::MalformedTable);
    }
    let count = match count_combinations(variables, &at, p.table.len()) {
        Some(count) => count,
        None => {
            return Some(ErrorKind::IncompleteTable);
        },
    };
    if p.table.len() < count {
        return Some(ErrorKind::IncompleteTable);
    }
    if rows_repeat(variables, &at, &p.table, count) {
        return Some(ErrorKind::DuplicateTableRow);
    }
    let target = find_variable(variables, &p.variable);
    proof {
        lemma_index_of(names_of(views), p.variable@);
        assert(views[target as int].node_type == variables@[target as int].node_type);
    }
    if !rows_hold(&p.table, variables[target].node_type.cardinality() as usize) {
        return Some(ErrorKind::ValueCountMismatch);
    }
    None
}

/// The error for the first probability block at or behind the index `j`
/// with whose table something is wrong, if there is such a block.
pub open spec fn tables_from(
    variables: Seq<VariableView>,
    probabilities: Seq<ProbabilityView>,
    j: int,
) -> Option<ParseErrorView>
    decreases probabilities.len() - j,
{
    if j < 0 || j >= probabilities.len() {
        None
    } else {
        match table_fault(variables, probabilities[j]) {
            Some(kind) => Some(fault(kind, probabilities[j].position)),
            None => tables_from(variables, probabilities, j + 1),
        }
    }
}

/// Looks for a probability block with whose table something is wrong.
pub(crate) fn check_tables(
    variables: &Vec<Variable>,
    probabilities: &Vec<Probability>,
) -> (r: Option<ParseError>)
    requires
        unresolved_from(variables.deep_view(), probabilities.deep_view(), 0) is None,
    ensures
        r.deep_view() == tables_from(variables.deep_view(), probabilities.deep_view(), 0),
{
    let ghost views = variables.deep_view();
    let ghost blocks = probabilities.deep_view();
    proof {
        lemma_all_resolved(views, blocks, 0);
    }
    let mut j: usize = 0;
    while j < probabilities.len()
        invariant
            j <= probabilities.len(),
            views == variables.deep_view(),
            blocks == probabilities.deep_view(),
            forall|k: int| 0 <= k < blocks.len() ==> resolved(views, #[trigger] blocks[k]),
            tables_from(views, blocks, 0) == tables_from(views, blocks, j as int),
        decreases probabilities.len() - j,
    {
        assert(blocks[j as int] == probabilities@[j as int].deep_view());
        if let Some(kind) = check_table(variables, &probabilities[j]) {
            return Some(ParseError { kind, position: probabilities[j].position });
        }
        j += 1;
    }
    None
}

/// The first thing that is wrong with what the blocks of `document` say of
/// one another, if anything is: two variables of one name; else a
/// probability block that names a variable which is not declared; else a
/// probability block with a wrong table.
pub open spec fn spec_fault(document: BifView) -> Option<ParseErrorView> {
    match duplicate_from(document.variables, 0) {
        Some(e) => Some(e),
        None => match unresolved_from(document.variables, document.probabilities, 0) {
            Some(e) => Some(e),
            None => tables_from(document.variables, document.probabilities, 0),
        },
    }
}

/// Looks for what is wrong with what the blocks of `document` say of one
/// another.
pub fn find_fault(document: &Bif) -> (r: Option<ParseError>)
    ensures
        r.deep_view() == spec_fault(document@),
{
    if let Some(e) = check_names(&document.variables) {
        return Some(e);
    }
    if let Some(e) = check_references(&document.variables, &document.probabilities) {
        return Some(e);
    }
    check_tables(&document.variables, &document.probabilities)
}

} // verus!
