//! What holds of every document that parsing hands out, and of every text
//! that it refuses.

use vstd::prelude::*;
use vstd::set_lib::{lemma_int_range, lemma_len_subset, lemma_subset_equality, set_int_range};
use crate::document::{spec_blocks, spec_document, spec_syntax};
use crate::error::{ErrorKindView, ParseErrorView, fault};
use crate::lexical::{
    is_decimal, lemma_advance_onward, lemma_f64_advances, lemma_f64_decimal,
    lemma_separators_shrink, shrinks, spec_f64, spec_lexeme, spec_separator1, spec_separators,
    spec_string, spec_token,
};
use crate::model::{BifView, ProbabilityView, TableRowView, VariableView};
use crate::network::{lemma_network_advances, spec_network, spec_opening};
use crate::list::{spec_more_numbers, spec_names, spec_probabilities};
use crate::probability::{
    lemma_probability_advances, lemma_row_advances, spec_header, spec_probability, spec_row,
    spec_rows, spec_table, spec_unconditional,
};
use crate::property::spec_properties;
use crate::scan::Input;
use crate::table::{
    all_fit, all_hold, cell, combinations, fits, has_duplicate, lemma_cell_bounds,
    lemma_cell_injective,
};
use crate::text::{CharClass, lemma_run_is, utf8_len};
use crate::validate::{
    declared, duplicate_from, index_of, lemma_all_resolved, lemma_index_of, names_of, parent_states, repeats, resolved, spec_fault,
    table_fault, tables_from, unresolved_from, variable_named,
};
use crate::variable::{
    lemma_variable_advances, spec_declaration, spec_discrete, spec_node_type, spec_variable,
};

verus! {

/// Whether the variable lists as many states as its type says, and at
/// least one.
pub open spec fn sound_variable(v: VariableView) -> bool {
    1 <= v.node_type.spec_cardinality() == v.states.len()
}

/// Whether the table of `p` has exactly one row for each combination of
/// the states of the parents of `p`, and in each row one value for each
/// state of the target.
pub open spec fn complete(variables: Seq<VariableView>, p: ProbabilityView) -> bool {
    let states = parent_states(variables, p);
    &&& p.table.len() == combinations(states)
    &&& all_fit(p.table, states)
    &&& !has_duplicate(p.table)
    &&& forall|key: Seq<Seq<char>>| #[trigger]
        fits(key, states) ==> exists|r: int|
            0 <= r < p.table.len() && (#[trigger] p.table[r]).key == key
    &&& all_hold(p.table, variable_named(variables, p.variable).node_type.spec_cardinality())
}

/// Whether each of `values` writes a decimal number.
pub open spec fn all_decimal(values: Seq<Seq<char>>) -> bool {
    forall|k: int| 0 <= k < values.len() ==> is_decimal(#[trigger] values[k])
}

/// Whether every value of every row of `table` writes a decimal number.
pub open spec fn numeric(table: Seq<TableRowView>) -> bool {
    forall|r: int| 0 <= r < table.len() ==> all_decimal((#[trigger] table[r]).values)
}

/// Whether the blocks of the document agree with one another: every
/// variable is sound, no two variables share a name, and every probability
/// block names declared variables only and has a complete table, whose
/// values write decimal numbers.
pub open spec fn consistent(document: BifView) -> bool {
    &&& forall|k: int|
        0 <= k < document.variables.len() ==> sound_variable(#[trigger] document.variables[k])
    &&& forall|k: int|
        0 <= k < document.probabilities.len() ==> numeric(
            (#[trigger] document.probabilities[k]).table,
        )
    &&& forall|a: int, b: int|
        0 <= a < b < document.variables.len() ==> (#[trigger] document.variables[a]).name != (
        #[trigger] document.variables[b]).name
    &&& forall|k: int|
        0 <= k < document.probabilities.len() ==> resolved(
            document.variables,
            #[trigger] document.probabilities[k],
        ) && complete(document.variables, document.probabilities[k])
}

/// A variable block that is read lists as many states as its type clause
/// says, and at least one.
pub proof fn law_variable_sound(i: Input)
    ensures
        spec_variable(i) matches Ok((_, v)) ==> sound_variable(v) && v.position == i.offset,
{
    reveal(spec_variable);
    reveal(spec_declaration);
    reveal(spec_node_type);
    reveal(spec_discrete);
}

/// A variable block whose every part is as the grammar asks, but which
/// lists a number of states other than its type clause says, is refused as
/// a mismatch of the two numbers.
pub proof fn law_state_count_mismatch(i: Input)
    requires
        spec_opening(i, "variable"@) matches Ok((a, _)) && spec_declaration(a) matches Ok(
            (b, (node_type, states)),
        ) && spec_properties(b) matches Ok((c, _)) && spec_lexeme(c, "}"@) is Ok && states.len()
            != node_type.spec_cardinality(),
    ensures
        spec_variable(i) matches Err(e) && e.position == i.offset
            && e.kind is StateCountMismatch,
        spec_opening(i, "variable"@) matches Ok((a, name)) && spec_declaration(a) matches Ok(
            (_, (node_type, states)),
        ) && spec_variable(i) == Err::<(Input, VariableView), ParseErrorView>(
            fault(
                ErrorKindView::StateCountMismatch {
                    variable: name,
                    expected: node_type.spec_cardinality(),
                    actual: states.len(),
                },
                i.offset,
            ),
        ),
{
    reveal(spec_variable);
}

/// The numbers behind the first one of a list write decimal numbers.
pub proof fn lemma_more_numbers_decimal(i: Input)
    ensures
        spec_more_numbers(i) matches Ok((_, values)) ==> all_decimal(values),
    decreases i.rest.len(),
{
    let j = spec_separators(i);
    lemma_separators_shrink(i);
    if j.starts_with(","@) {
        reveal_strlit(",");
        lemma_advance_onward(j, 1);
        let at = spec_separators(j.advance(1));
        lemma_separators_shrink(j.advance(1));
        lemma_f64_advances(at);
        lemma_f64_decimal(at);
        if let Ok((k, number)) = spec_f64(at) {
            lemma_more_numbers_decimal(k);
            if let Ok((_, tail)) = spec_more_numbers(k) {
                let values = seq![number] + tail;
                assert forall|n: int| 0 <= n < values.len() implies is_decimal(
                    #[trigger] values[n],
                ) by {
                    if n > 0 {
                        assert(values[n] == tail[n - 1]);
                    }
                }
            }
        }
    }
}

/// The probabilities of a row write decimal numbers.
pub proof fn lemma_probabilities_decimal(i: Input)
    ensures
        spec_probabilities(i) matches Ok((_, values)) ==> all_decimal(values),
{
    reveal(spec_probabilities);
    let at = spec_separators(i);
    lemma_f64_decimal(at);
    if let Ok((a, number)) = spec_f64(at) {
        lemma_more_numbers_decimal(a);
        if let Ok((_, tail)) = spec_more_numbers(a) {
            let values = seq![number] + tail;
            assert forall|n: int| 0 <= n < values.len() implies is_decimal(
                #[trigger] values[n],
            ) by {
                if n > 0 {
                    assert(values[n] == tail[n - 1]);
                }
            }
        }
    }
}

/// The values of the rows of a table with parents write decimal numbers.
pub proof fn lemma_rows_numeric(i: Input, parents: nat)
    ensures
        spec_rows(i, parents) matches Ok((_, rows)) ==> numeric(rows),
    decreases i.rest.len(),
{
    let j = spec_separators(i);
    lemma_separators_shrink(i);
    if j.starts_with("("@) {
        lemma_row_advances(j, parents);
        lemma_row_numeric(j, parents);
        if let Ok((k, row)) = spec_row(j, parents) {
            lemma_rows_numeric(k, parents);
            if let Ok((_, tail)) = spec_rows(k, parents) {
                let rows = seq![row] + tail;
                assert forall|r: int| 0 <= r < rows.len() implies all_decimal(
                    (#[trigger] rows[r]).values,
                ) by {
                    if r > 0 {
                        assert(rows[r] == tail[r - 1]);
                    }
                }
            }
        }
    }
}

/// The values of a row write decimal numbers.
pub proof fn lemma_row_numeric(i: Input, parents: nat)
    ensures
        spec_row(i, parents) matches Ok((_, row)) ==> all_decimal(row.values),
{
    reveal(spec_row);
    if let Ok(a) = spec_token(i, "("@) {
        if let Ok((b, _)) = spec_names(a) {
            if let Ok(c) = spec_lexeme(b, ")"@) {
                if let Ok(d) = spec_separator1(c) {
                    lemma_probabilities_decimal(d);
                }
            }
        }
    }
}

/// The values of a table write decimal numbers.
pub proof fn lemma_table_numeric(i: Input, parents: nat)
    ensures
        spec_table(i, parents) matches Ok((_, rows)) ==> numeric(rows),
{
    reveal(spec_table);
    reveal(spec_unconditional);
    let j = spec_separators(i);
    lemma_rows_numeric(i, parents);
    if let Ok(a) = spec_token(j, "table"@) {
        if let Ok(b) = spec_separator1(a) {
            lemma_probabilities_decimal(b);
        }
    }
}

/// The values of the table of a probability block that is read write
/// decimal numbers.
pub proof fn lemma_probability_numeric(i: Input)
    ensures
        spec_probability(i) matches Ok((_, p)) ==> numeric(p.table),
{
    reveal(spec_probability);
    if let Ok((a, (_, parents))) = spec_header(i) {
        if let Ok(b) = spec_lexeme(a, "{"@) {
            lemma_table_numeric(b, parents.len());
        }
    }
}

/// Every variable among the blocks that are read is sound, and the values
/// of every table among them write decimal numbers.
pub proof fn lemma_blocks_sound(i: Input)
    ensures
        spec_blocks(i) matches Ok((_, blocks)) ==> (forall|k: int|
            0 <= k < blocks.0.len() ==> sound_variable(#[trigger] blocks.0[k])) && (forall|k: int|
            0 <= k < blocks.1.len() ==> numeric((#[trigger] blocks.1[k]).table)),
    decreases i.rest.len(),
{
    let j = spec_separators(i);
    lemma_separators_shrink(i);
    if j.starts_with("variable"@) {
        law_variable_sound(j);
        lemma_variable_advances(j);
        if let Ok((k, _)) = spec_variable(j) {
            lemma_blocks_sound(k);
            if let Ok((_, tail)) = spec_blocks(k) {
                assert(Seq::<ProbabilityView>::empty() + tail.1 =~= tail.1);
            }
        }
    } else if j.starts_with("probability"@) {
        lemma_probability_advances(j);
        lemma_probability_numeric(j);
        if let Ok((k, _)) = spec_probability(j) {
            lemma_blocks_sound(k);
            if let Ok((_, tail)) = spec_blocks(k) {
                assert(Seq::<VariableView>::empty() + tail.0 =~= tail.0);
            }
        }
    }
}

/// Where no variable at or behind the index `j` is found to repeat a name,
/// none of them does.
pub proof fn lemma_no_repeat(variables: Seq<VariableView>, j: int)
    requires
        0 <= j,
        duplicate_from(variables, j) is None,
    ensures
        forall|k: int| j <= k < variables.len() ==> !repeats(variables, k),
    decreases variables.len() - j,
{
    if j < variables.len() {
        lemma_no_repeat(variables, j + 1);
    }
}

/// Where no probability block at or behind the index `j` is found to have
/// a wrong table, none of them has.
pub proof fn lemma_no_table_fault(
    variables: Seq<VariableView>,
    probabilities: Seq<ProbabilityView>,
    j: int,
)
    requires
        0 <= j,
        tables_from(variables, probabilities, j) is None,
    ensures
        forall|k: int|
            j <= k < probabilities.len() ==> table_fault(variables, #[trigger] probabilities[k])
                is None,
    decreases probabilities.len() - j,
{
    if j < probabilities.len() {
        lemma_no_table_fault(variables, probabilities, j + 1);
    }
}

/// The places of the first `i` rows of `table` among the combinations of
/// `states`.
pub open spec fn places(table: Seq<TableRowView>, states: Seq<Seq<Seq<char>>>, i: int) -> Set<int> {
    Set::new(|m: int| exists|r: int| 0 <= r < i && cell((#[trigger] table[r]).key, states) == m)
}

/// Rows with keys that fit and differ have as many places as there are
/// rows, each of them one of the combinations.
proof fn lemma_places(table: Seq<TableRowView>, states: Seq<Seq<Seq<char>>>, i: int)
    requires
        0 <= i <= table.len(),
        all_fit(table, states),
        !has_duplicate(table),
    ensures
        places(table, states, i).finite(),
        places(table, states, i).len() == i,
        places(table, states, i).subset_of(set_int_range(0, combinations(states) as int)),
    decreases i,
{
    let all = set_int_range(0, combinations(states) as int);
    if i == 0 {
        assert(places(table, states, 0) =~= Set::<int>::empty());
    } else {
        lemma_places(table, states, i - 1);
        let before = places(table, states, i - 1);
        let place = cell(table[i - 1].key, states);
        lemma_cell_bounds(table[i - 1].key, states);
        if before.contains(place) {
            let r = choose|r: int|
                0 <= r < i - 1 && cell((#[trigger] table[r]).key, states) == place;
            lemma_cell_injective(table[r].key, table[i - 1].key, states);
            assert(table[r].key == table[i - 1].key);
            assert(false);
        }
        assert(places(table, states, i) =~= before.insert(place)) by {
            assert forall|m: int| places(table, states, i).contains(m) implies before.insert(
                place,
            ).contains(m) by {
                let r = choose|r: int| 0 <= r < i && cell((#[trigger] table[r]).key, states) == m;
                if r < i - 1 {
                    assert(before.contains(m));
                }
            }
            assert forall|m: int| before.insert(place).contains(m) implies places(
                table,
                states,
                i,
            ).contains(m) by {
                if m == place {
                    assert(cell(table[i - 1].key, states) == m);
                } else {
                    let r = choose|r: int|
                        0 <= r < i - 1 && cell((#[trigger] table[r]).key, states) == m;
                    assert(0 <= r < i && cell(table[r].key, states) == m);
                }
            }
        }
        assert(before.insert(place).subset_of(all));
    }
}

/// A table whose keys fit and differ, and which has at least as many rows
/// as the states of the parents have combinations, has exactly as many,
/// and every combination has its row.
pub proof fn law_table_complete(table: Seq<TableRowView>, states: Seq<Seq<Seq<char>>>)
    requires
        all_fit(table, states),
        !has_duplicate(table),
        table.len() >= combinations(states),
    ensures
        table.len() == combinations(states),
        forall|key: Seq<Seq<char>>| #[trigger]
            fits(key, states) ==> exists|r: int|
                0 <= r < table.len() && (#[trigger] table[r]).key == key,
{
    let count = combinations(states) as int;
    let all = set_int_range(0, count);
    let taken = places(table, states, table.len() as int);
    lemma_places(table, states, table.len() as int);
    lemma_int_range(0, count);
    lemma_len_subset(taken, all);
    lemma_subset_equality(taken, all);
    assert forall|key: Seq<Seq<char>>| #[trigger] fits(key, states) implies exists|r: int|
        0 <= r < table.len() && (#[trigger] table[r]).key == key by {
        lemma_cell_bounds(key, states);
        assert(all.contains(cell(key, states)));
        assert(taken.contains(cell(key, states)));
        let r = choose|r: int|
            0 <= r < table.len() && cell((#[trigger] table[r]).key, states) == cell(key, states);
        lemma_cell_injective(table[r].key, key, states);
    }
}

/// A document in which nothing is found wrong is consistent, where its
/// variables are sound and the values of its tables write decimal numbers.
pub proof fn law_no_fault_consistent(document: BifView)
    requires
        spec_fault(document) is None,
        forall|k: int|
            0 <= k < document.variables.len() ==> sound_variable(#[trigger] document.variables[k]),
        forall|k: int|
            0 <= k < document.probabilities.len() ==> numeric(
                (#[trigger] document.probabilities[k]).table,
            ),
    ensures
        consistent(document),
{
    let variables = document.variables;
    let probabilities = document.probabilities;
    lemma_no_repeat(variables, 0);
    lemma_all_resolved(variables, probabilities, 0);
    lemma_no_table_fault(variables, probabilities, 0);
    assert forall|a: int, b: int| 0 <= a < b < variables.len() implies (
    #[trigger] variables[a]).name != (#[trigger] variables[b]).name by {
        if variables[a].name == variables[b].name {
            assert(names_of(variables)[a] == variables[b].name);
            assert(repeats(variables, b));
        }
    }
    assert forall|k: int| 0 <= k < probabilities.len() implies complete(
        variables,
        #[trigger] probabilities[k],
    ) by {
        let p = probabilities[k];
        assert(table_fault(variables, p) is None);
        law_table_complete(p.table, parent_states(variables, p));
    }
}

/// Every document that is read is consistent.
pub proof fn law_document_consistent(text: Seq<char>)
    ensures
        spec_document(text) matches Ok(document) ==> consistent(document),
{
    if let Ok(document) = spec_document(text) {
        let j = spec_separators(Input::start(text));
        if let Ok((a, _)) = spec_network(j) {
            lemma_blocks_sound(a);
        }
        law_no_fault_consistent(document);
    }
}

/// The names of a list are at least one.
pub proof fn lemma_names_some(i: Input)
    ensures
        spec_names(i) matches Ok((_, names)) ==> names.len() >= 1,
{
    reveal(spec_names);
}

/// The table of a probability block whose header names no parent has
/// exactly one row, and the key of that row is empty.
pub proof fn law_table_without_parents(i: Input)
    ensures
        spec_table(i, 0) matches Ok((_, rows)) ==> rows.len() == 1 && rows[0].key.len() == 0,
{
    reveal(spec_table);
    reveal(spec_unconditional);
    reveal(spec_row);
    let j = spec_separators(i);
    if !j.starts_with("table"@) && j.starts_with("("@) {
        if let Ok(a) = spec_token(j, "("@) {
            lemma_names_some(a);
        }
        assert(spec_row(j, 0) is Err);
    }
}

/// The product of `factors`.
pub open spec fn product(factors: Seq<nat>) -> nat
    decreases factors.len(),
{
    if factors.len() == 0 {
        1
    } else {
        product(factors.drop_last()) * factors.last()
    }
}

/// The cardinalities of the parents of `p`, parent by parent.
pub open spec fn parent_cardinalities(variables: Seq<VariableView>, p: ProbabilityView) -> Seq<
    nat,
> {
    Seq::new(
        p.parents.len(),
        |k: int| variable_named(variables, p.parents[k]).node_type.spec_cardinality(),
    )
}

/// Lists of given lengths have as many combinations as the product of the
/// lengths.
pub proof fn lemma_combinations_product(states: Seq<Seq<Seq<char>>>, factors: Seq<nat>)
    requires
        states.len() == factors.len(),
        forall|k: int| 0 <= k < states.len() ==> (#[trigger] states[k]).len() == factors[k],
    ensures
        combinations(states) == product(factors),
    decreases states.len(),
{
    if states.len() > 0 {
        assert(states[states.len() - 1].len() == factors[factors.len() - 1]);
        assert forall|k: int| 0 <= k < states.drop_last().len() implies (
        #[trigger] states.drop_last()[k]).len() == factors.drop_last()[k] by {
            assert(states[k].len() == factors[k]);
        }
        lemma_combinations_product(states.drop_last(), factors.drop_last());
    }
}

/// In a document that is read, the table of a probability block without
/// parents has exactly one row, whose key is empty and which holds one value
/// for each state of the target.
pub proof fn law_unconditional_table(text: Seq<char>, k: int)
    requires
        spec_document(text) matches Ok(document) && 0 <= k < document.probabilities.len()
            && document.probabilities[k].parents.len() == 0,
    ensures
        spec_document(text) matches Ok(document) && document.probabilities[k].table.len() == 1
            && document.probabilities[k].table[0].key.len() == 0
            && document.probabilities[k].table[0].values.len() == variable_named(
            document.variables,
            document.probabilities[k].variable,
        ).node_type.spec_cardinality(),
{
    law_document_consistent(text);
    let document = spec_document(text)->Ok_0;
    let p = document.probabilities[k];
    let states = parent_states(document.variables, p);
    assert(complete(document.variables, p));
    assert(states.len() == 0);
    assert(fits(p.table[0].key, states));
}

/// In a document that is read, the table of a probability block has
/// exactly as many rows as the product of the cardinalities of its parents,
/// no two rows have one key, every key picks one state of each parent, in
/// the order of the header, and every such pick is the key of a row.
pub proof fn law_conditional_table(text: Seq<char>, k: int)
    requires
        spec_document(text) matches Ok(document) && 0 <= k < document.probabilities.len(),
    ensures
        spec_document(text) matches Ok(document) && ({
            let p = document.probabilities[k];
            let states = parent_states(document.variables, p);
            &&& p.table.len() == product(parent_cardinalities(document.variables, p))
            &&& !has_duplicate(p.table)
            &&& all_fit(p.table, states)
            &&& forall|key: Seq<Seq<char>>| #[trigger]
                fits(key, states) ==> exists|r: int|
                    0 <= r < p.table.len() && (#[trigger] p.table[r]).key == key
        }),
{
    law_document_consistent(text);
    let document = spec_document(text)->Ok_0;
    let variables = document.variables;
    let p = document.probabilities[k];
    let states = parent_states(variables, p);
    let factors = parent_cardinalities(variables, p);
    assert(resolved(variables, p) && complete(variables, p));
    assert forall|l: int| 0 <= l < states.len() implies (#[trigger] states[l]).len()
        == factors[l] by {
        assert(declared(variables, p.parents[l]));
        lemma_index_of(names_of(variables), p.parents[l]);
        assert(sound_variable(variables[index_of(names_of(variables), p.parents[l])]));
    }
    lemma_combinations_product(states, factors);
}

/// Where a probability block at or behind the index `j` names a variable
/// that is not declared, such a block is found.
pub proof fn lemma_unresolved_found(
    variables: Seq<VariableView>,
    probabilities: Seq<ProbabilityView>,
    j: int,
    k: int,
)
    requires
        0 <= j <= k < probabilities.len(),
        !resolved(variables, probabilities[k]),
    ensures
        unresolved_from(variables, probabilities, j) matches Some(e) && e.kind
            == ErrorKindView::UnresolvedVariableReference,
    decreases probabilities.len() - j,
{
    if resolved(variables, probabilities[j]) {
        lemma_unresolved_found(variables, probabilities, j + 1, k);
    }
}

/// A text that the grammar accepts and in which no two variables share a
/// name, but in which the header of a probability block names a variable
/// that is declared nowhere, is refused as an unresolved reference.
pub proof fn law_unresolved_reference(text: Seq<char>, k: int)
    requires
        spec_syntax(text) matches Ok(document) && duplicate_from(document.variables, 0) is None
            && 0 <= k < document.probabilities.len() && !resolved(
            document.variables,
            document.probabilities[k],
        ),
    ensures
        spec_document(text) matches Err(e) && e.kind
            == ErrorKindView::UnresolvedVariableReference,
{
    let document = spec_syntax(text)->Ok_0;
    lemma_unresolved_found(document.variables, document.probabilities, 0, k);
}

/// A text in which the network block and the blocks behind it are as the
/// grammar asks, and in which something other than separators is left
/// behind the last of them, is refused for that text, at its offset.
pub proof fn law_trailing_input(text: Seq<char>)
    requires
        spec_separators(Input::start(text)).starts_with("network"@),
        spec_network(spec_separators(Input::start(text))) matches Ok((a, _)) && spec_blocks(
            a,
        ) matches Ok((b, _)) && spec_separators(b).rest.len() > 0,
    ensures
        spec_network(spec_separators(Input::start(text))) matches Ok((a, _)) && spec_blocks(
            a,
        ) matches Ok((b, _)) && spec_document(text) == Err::<BifView, ParseErrorView>(
            fault(ErrorKindView::TrailingInput, spec_separators(b).offset),
        ),
{
}

/// A quoted string is read as exactly what stands between its quotes,
/// whatever that is and whatever follows the closing quote.
pub proof fn law_quoted_string(body: Seq<char>, tail: Seq<char>, offset: nat)
    requires
        forall|i: int| 0 <= i < body.len() ==> body[i] != '"',
    ensures
        spec_string(Input { rest: seq!['"'] + body + seq!['"'] + tail, offset }) == Ok::<
            (Input, Seq<char>),
            ParseErrorView,
        >((Input { rest: tail, offset: offset + utf8_len(body) + 2 }, body)),
{
    reveal_strlit("\"");
    let quote = seq!['"'];
    let i = Input { rest: quote + body + quote + tail, offset };
    assert("\""@ =~= quote);
    assert(i.rest[0] == '"');
    let inside = i.advance(1);
    assert(i.rest.take(1) =~= quote);
    assert(inside.rest =~= body + quote + tail);
    assert(inside.rest[body.len() as int] == '"');
    assert forall|l: int| 0 <= l < body.len() implies CharClass::Quoted.has(
        #[trigger] inside.rest[l],
    ) by {
        assert(inside.rest[l] == body[l]);
    }
    lemma_run_is(inside.rest, CharClass::Quoted, body.len() as int);
    let end = inside.skip_run(CharClass::Quoted);
    assert(inside.rest.take(body.len() as int) =~= body);
    assert(end.rest =~= quote + tail);
    assert(end.rest.take(1) =~= quote);
    assert(end.advance(1).rest =~= tail);
    vstd::utf8::is_ascii_chars_encode_utf8(quote);
}

/// The value of a quoted string is shorter than the text it is read from:
/// the two quotes are not part of it.
pub proof fn law_string_shorter(i: Input)
    ensures
        spec_string(i) matches Ok((j, value)) ==> value.len() + 2 + j.rest.len() == i.rest.len(),
{
    reveal_strlit("\"");
    if i.starts_with("\""@) {
        crate::text::lemma_run_len(i.advance(1).rest, CharClass::Quoted);
    }
}

/// Whether each block of `blocks` begins at an offset that is at most
/// `end`.
pub open spec fn placed(
    variables: Seq<VariableView>,
    probabilities: Seq<ProbabilityView>,
    end: nat,
) -> bool {
    &&& forall|k: int| 0 <= k < variables.len() ==> (#[trigger] variables[k]).position <= end
    &&& forall|k: int|
        0 <= k < probabilities.len() ==> (#[trigger] probabilities[k]).position <= end
}

/// A probability block that is read begins where the reading began.
pub proof fn lemma_probability_position(i: Input)
    ensures
        spec_probability(i) matches Ok((_, p)) ==> p.position == i.offset,
{
    reveal(spec_probability);
}

/// The blocks are read forward, fail at an offset of the document if they
/// fail, and each of them begins at an offset of the document.
pub proof fn lemma_blocks_shrink(i: Input)
    ensures
        shrinks(i, spec_blocks(i)),
        spec_blocks(i) matches Ok((_, blocks)) ==> placed(blocks.0, blocks.1, i.end()),
    decreases i.rest.len(),
{
    let j = spec_separators(i);
    lemma_separators_shrink(i);
    if j.starts_with("variable"@) {
        law_variable_sound(j);
        lemma_variable_advances(j);
        if let Ok((k, v)) = spec_variable(j) {
            lemma_blocks_shrink(k);
            if let Ok((_, tail)) = spec_blocks(k) {
                let variables = seq![v] + tail.0;
                let probabilities = Seq::<ProbabilityView>::empty() + tail.1;
                assert(placed(variables, probabilities, i.end())) by {
                    assert forall|n: int| 0 <= n < variables.len() implies (
                    #[trigger] variables[n]).position <= i.end() by {
                        if n > 0 {
                            assert(variables[n] == tail.0[n - 1]);
                        }
                    }
                    assert(probabilities =~= tail.1);
                }
            }
        }
    } else if j.starts_with("probability"@) {
        lemma_probability_position(j);
        lemma_probability_advances(j);
        if let Ok((k, p)) = spec_probability(j) {
            lemma_blocks_shrink(k);
            if let Ok((_, tail)) = spec_blocks(k) {
                let variables = Seq::<VariableView>::empty() + tail.0;
                let probabilities = seq![p] + tail.1;
                assert(placed(variables, probabilities, i.end())) by {
                    assert forall|n: int| 0 <= n < probabilities.len() implies (
                    #[trigger] probabilities[n]).position <= i.end() by {
                        if n > 0 {
                            assert(probabilities[n] == tail.1[n - 1]);
                        }
                    }
                    assert(variables =~= tail.0);
                }
            }
        }
    }
}

/// What is found wrong with blocks that begin at offsets of the document
/// is reported at an offset of the document.
pub proof fn lemma_fault_placed(document: BifView, end: nat)
    requires
        placed(document.variables, document.probabilities, end),
    ensures
        spec_fault(document) matches Some(e) ==> e.position <= end,
{
    lemma_duplicate_placed(document.variables, 0, end);
    lemma_unresolved_placed(document.variables, document.probabilities, 0, end);
    lemma_tables_placed(document.variables, document.probabilities, 0, end);
}

/// The error for two variables of one name lies at one of the variables.
proof fn lemma_duplicate_placed(variables: Seq<VariableView>, j: int, end: nat)
    requires
        0 <= j,
        forall|k: int| 0 <= k < variables.len() ==> (#[trigger] variables[k]).position <= end,
    ensures
        duplicate_from(variables, j) matches Some(e) ==> e.position <= end,
    decreases variables.len() - j,
{
    if j < variables.len() {
        lemma_duplicate_placed(variables, j + 1, end);
    }
}

/// The error for an unresolved reference lies at one of the probability
/// blocks.
proof fn lemma_unresolved_placed(
    variables: Seq<VariableView>,
    probabilities: Seq<ProbabilityView>,
    j: int,
    end: nat,
)
    requires
        0 <= j,
        forall|k: int|
            0 <= k < probabilities.len() ==> (#[trigger] probabilities[k]).position <= end,
    ensures
        unresolved_from(variables, probabilities, j) matches Some(e) ==> e.position <= end,
    decreases probabilities.len() - j,
{
    if j < probabilities.len() {
        lemma_unresolved_placed(variables, probabilities, j + 1, end);
    }
}

/// The error for a wrong table lies at one of the probability blocks.
proof fn lemma_tables_placed(
    variables: Seq<VariableView>,
    probabilities: Seq<ProbabilityView>,
    j: int,
    end: nat,
)
    requires
        0 <= j,
        forall|k: int|
            0 <= k < probabilities.len() ==> (#[trigger] probabilities[k]).position <= end,
    ensures
        tables_from(variables, probabilities, j) matches Some(e) ==> e.position <= end,
    decreases probabilities.len() - j,
{
    if j < probabilities.len() {
        lemma_tables_placed(variables, probabilities, j + 1, end);
    }
}

/// Whatever a text is read as, the offsets that are handed out lie in the
/// text: that of the error where it is refused, and those of the blocks
/// where it is read.
pub proof fn law_positions_in_text(text: Seq<char>)
    ensures
        match spec_syntax(text) {
            Ok(document) => placed(document.variables, document.probabilities, utf8_len(text)),
            Err(e) => e.position <= utf8_len(text),
        },
        match spec_document(text) {
            Ok(document) => placed(document.variables, document.probabilities, utf8_len(text)),
            Err(e) => e.position <= utf8_len(text),
        },
{
    let start = Input::start(text);
    let j = spec_separators(start);
    lemma_separators_shrink(start);
    lemma_network_advances(j);
    if let Ok((a, _)) = spec_network(j) {
        lemma_blocks_shrink(a);
        if let Ok((b, _)) = spec_blocks(a) {
            lemma_separators_shrink(b);
        }
    }
    if let Ok(document) = spec_syntax(text) {
        lemma_fault_placed(document, utf8_len(text));
    }
}

} // verus!
