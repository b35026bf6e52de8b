//! The rows of a table against the states of the parents: which rows name
//! a combination of states, how many combinations there are, and which
//! place a combination has among them.

use vstd::prelude::*;
use crate::model::{TableRow, TableRowView, Variable, VariableView};
use crate::validate::{find_name, index_of, lemma_index_of};

verus! {

/// The number of ways to pick one label from each list of `states`.
pub open spec fn combinations(states: Seq<Seq<Seq<char>>>) -> nat
    decreases states.len(),
{
    if states.len() == 0 {
        1
    } else {
        combinations(states.drop_last()) * states.last().len()
    }
}

/// Whether `key` picks one label from each list of `states`, in their
/// order.
pub open spec fn fits(key: Seq<Seq<char>>, states: Seq<Seq<Seq<char>>>) -> bool {
    &&& key.len() == states.len()
    &&& forall|k: int| 0 <= k < key.len() ==> (#[trigger] states[k]).contains(key[k])
}

/// The place of `key` among the combinations of `states`, where the label
/// picked from the last list changes fastest.
pub open spec fn cell(key: Seq<Seq<char>>, states: Seq<Seq<Seq<char>>>) -> int
    decreases states.len(),
{
    if states.len() == 0 {
        0
    } else {
        cell(key.drop_last(), states.drop_last()) * states.last().len() + index_of(
            states.last(),
            key.last(),
        )
    }
}

/// A key that fits, fits without its last label what is left without the
/// last list, and its last label has a place in the last list.
pub proof fn lemma_fits_last(key: Seq<Seq<char>>, states: Seq<Seq<Seq<char>>>)
    requires
        fits(key, states),
        states.len() > 0,
    ensures
        fits(key.drop_last(), states.drop_last()),
        0 <= index_of(states.last(), key.last()) < states.last().len(),
        states.last()[index_of(states.last(), key.last())] == key.last(),
{
    let shorter = states.drop_last();
    assert forall|k: int| 0 <= k < key.drop_last().len() implies (#[trigger] shorter[k]).contains(
        key.drop_last()[k],
    ) by {
        assert(states[k].contains(key[k]));
    }
    assert(states[states.len() - 1].contains(key[key.len() - 1]));
    lemma_index_of(states.last(), key.last());
}

/// The place of a key that fits is one of the combinations.
pub proof fn lemma_cell_bounds(key: Seq<Seq<char>>, states: Seq<Seq<Seq<char>>>)
    requires
        fits(key, states),
    ensures
        0 <= cell(key, states) < combinations(states),
    decreases states.len(),
{
    if states.len() > 0 {
        lemma_fits_last(key, states);
        lemma_cell_bounds(key.drop_last(), states.drop_last());
        let before = cell(key.drop_last(), states.drop_last());
        let count = combinations(states.drop_last()) as int;
        let width = states.last().len() as int;
        let place = index_of(states.last(), key.last());
        assert(0 <= before * width + place < count * width) by (nonlinear_arith)
            requires
                0 <= before < count,
                0 <= place < width,
        ;
    }
}

/// Two keys that fit and have one place are one key.
pub proof fn lemma_cell_injective(
    a: Seq<Seq<char>>,
    b: Seq<Seq<char>>,
    states: Seq<Seq<Seq<char>>>,
)
    requires
        fits(a, states),
        fits(b, states),
        cell(a, states) == cell(b, states),
    ensures
        a == b,
    decreases states.len(),
{
    if states.len() > 0 {
        lemma_fits_last(a, states);
        lemma_fits_last(b, states);
        lemma_cell_bounds(a.drop_last(), states.drop_last());
        lemma_cell_bounds(b.drop_last(), states.drop_last());
        let before_a = cell(a.drop_last(), states.drop_last());
        let before_b = cell(b.drop_last(), states.drop_last());
        let width = states.last().len() as int;
        let place_a = index_of(states.last(), a.last());
        let place_b = index_of(states.last(), b.last());
        assert(before_a == before_b && place_a == place_b) by (nonlinear_arith)
            requires
                before_a * width + place_a == before_b * width + place_b,
                0 <= place_a < width,
                0 <= place_b < width,
        ;
        lemma_cell_injective(a.drop_last(), b.drop_last(), states.drop_last());
        assert(a =~= a.drop_last().push(a.last()));
        assert(b =~= b.drop_last().push(b.last()));
    } else {
        assert(a =~= b);
    }
}

/// Where one of the lists is empty there is no combination.
pub proof fn lemma_combinations_none(states: Seq<Seq<Seq<char>>>, k: int)
    requires
        0 <= k < states.len(),
        states[k].len() == 0,
    ensures
        combinations(states) == 0,
    decreases states.len(),
{
    if k < states.len() - 1 {
        lemma_combinations_none(states.drop_last(), k);
        assert(combinations(states.drop_last()) * states.last().len() == 0) by (nonlinear_arith)
            requires
                combinations(states.drop_last()) == 0,
        ;
    } else {
        assert(combinations(states.drop_last()) * states.last().len() == 0) by (nonlinear_arith)
            requires
                states.last().len() == 0,
        ;
    }
}

/// Where no list is empty, the first lists alone have no more combinations
/// than all of them, and at least one.
pub proof fn lemma_combinations_grow(states: Seq<Seq<Seq<char>>>, j: int)
    requires
        0 <= j <= states.len(),
        forall|k: int| 0 <= k < states.len() ==> (#[trigger] states[k]).len() > 0,
    ensures
        1 <= combinations(states.take(j)) <= combinations(states),
    decreases states.len() - j,
{
    if j < states.len() {
        lemma_combinations_grow(states, j + 1);
        assert(states.take(j + 1).drop_last() =~= states.take(j));
        let count = combinations(states.take(j)) as int;
        let width = states[j].len() as int;
        assert(states.take(j + 1).last() == states[j]);
        assert(count <= count * width) by (nonlinear_arith)
            requires
                0 <= count,
                1 <= width,
        ;
        lemma_combinations_one(states, j);
    } else {
        assert(states.take(j) =~= states);
        lemma_combinations_one(states, j);
    }
}

/// Where no list is empty, the first lists have at least one combination.
proof fn lemma_combinations_one(states: Seq<Seq<Seq<char>>>, j: int)
    requires
        0 <= j <= states.len(),
        forall|k: int| 0 <= k < states.len() ==> (#[trigger] states[k]).len() > 0,
    ensures
        1 <= combinations(states.take(j)),
    decreases j,
{
    if j > 0 {
        lemma_combinations_one(states, j - 1);
        assert(states.take(j).drop_last() =~= states.take(j - 1));
        assert(states.take(j).last() == states[j - 1]);
        let count = combinations(states.take(j - 1)) as int;
        let width = states[j - 1].len() as int;
        assert(1 <= count * width) by (nonlinear_arith)
            requires
                1 <= count,
                1 <= width,
        ;
    }
}

/// Whether each of `at` is the index of one of `variables`.
pub open spec fn in_range(variables: Seq<VariableView>, at: Seq<usize>) -> bool {
    forall|k: int| 0 <= k < at.len() ==> (#[trigger] at[k]) < variables.len()
}

/// The state labels of the variables at the indices `at`, list by list.
pub open spec fn states_at(variables: Seq<VariableView>, at: Seq<usize>) -> Seq<
    Seq<Seq<char>>,
> {
    Seq::new(at.len(), |k: int| variables[at[k] as int].states)
}

/// Whether `key` picks one state of each of the variables at the indices
/// `at`.
pub(crate) fn key_fits(variables: &Vec<Variable>, at: &Vec<usize>, key: &Vec<String>) -> (r: bool)
    requires
        in_range(variables.deep_view(), at@),
    ensures
        r == fits(key.deep_view(), states_at(variables.deep_view(), at@)),
{
    if key.len() != at.len() {
        return false;
    }
    let ghost states = states_at(variables.deep_view(), at@);
    let ghost labels = key.deep_view();
    let mut j: usize = 0;
    while j < key.len()
        invariant
            j <= key.len() == at.len(),
            in_range(variables.deep_view(), at@),
            states == states_at(variables.deep_view(), at@),
            labels == key.deep_view(),
            forall|l: int| 0 <= l < j ==> (#[trigger] states[l]).contains(labels[l]),
        decreases key.len() - j,
    {
        let list = &variables[at[j]].states;
        proof {
            assert(states[j as int] == list.deep_view());
            assert(labels[j as int] == key@[j as int]@);
            lemma_index_of(states[j as int], labels[j as int]);
        }
        if find_name(list, &key[j]) >= list.len() {
            return false;
        }
        j += 1;
    }
    true
}

/// The number of combinations of the states of the variables at the
/// indices `at`, where it is at most `cap`.
pub(crate) fn count_combinations(
    variables: &Vec<Variable>,
    at: &Vec<usize>,
    cap: usize,
) -> (r: Option<usize>)
    requires
        in_range(variables.deep_view(), at@),
    ensures
        match r {
            Some(n) => n == combinations(states_at(variables.deep_view(), at@)) && n <= cap,
            None => combinations(states_at(variables.deep_view(), at@)) > cap,
        },
{
    let ghost states = states_at(variables.deep_view(), at@);
    let mut j: usize = 0;
    while j < at.len()
        invariant
            j <= at.len(),
            in_range(variables.deep_view(), at@),
            states == states_at(variables.deep_view(), at@),
            forall|l: int| 0 <= l < j ==> (#[trigger] states[l]).len() > 0,
        decreases at.len() - j,
    {
        assert(states[j as int] == variables@[at@[j as int] as int].states.deep_view());
        if variables[at[j]].states.len() == 0 {
            proof {
                lemma_combinations_none(states, j as int);
            }
            return Some(0);
        }
        j += 1;
    }
    if cap == 0 {
        proof {
            lemma_combinations_grow(states, 0);
        }
        return None;
    }
    let mut count: usize = 1;
    let mut j: usize = 0;
    assert(states.take(0) =~= Seq::<Seq<Seq<char>>>::empty());
    while j < at.len()
        invariant
            j <= at.len(),
            in_range(variables.deep_view(), at@),
            states == states_at(variables.deep_view(), at@),
            forall|l: int| 0 <= l < states.len() ==> (#[trigger] states[l]).len() > 0,
            count == combinations(states.take(j as int)),
            1 <= count <= cap,
        decreases at.len() - j,
    {
        let width = variables[at[j]].states.len();
        proof {
            assert(states[j as int] == variables@[at@[j as int] as int].states.deep_view());
            assert(states.take(j + 1).drop_last() =~= states.take(j as int));
            assert(states.take(j + 1).last() == states[j as int]);
            lemma_combinations_grow(states, j + 1);
            assert(count * width <= usize::MAX * usize::MAX) by (nonlinear_arith)
                requires
                    0 <= count <= usize::MAX,
                    0 <= width <= usize::MAX,
            ;
            assert(usize::MAX * usize::MAX <= u128::MAX) by (nonlinear_arith)
                requires
                    usize::MAX <= 0xffff_ffff_ffff_ffff,
            ;
        }
        let wide: u128 = count as u128 * width as u128;
        if wide > cap as u128 {
            return None;
        }
        count = wide as usize;
        j += 1;
    }
    proof {
        assert(states.take(j as int) =~= states);
    }
    Some(count)
}

/// The place of `key` among the combinations of the states of the
/// variables at the indices `at`.
pub(crate) fn row_cell(variables: &Vec<Variable>, at: &Vec<usize>, key: &Vec<String>) -> (r: usize)
    requires
        in_range(variables.deep_view(), at@),
        fits(key.deep_view(), states_at(variables.deep_view(), at@)),
        combinations(states_at(variables.deep_view(), at@)) <= usize::MAX,
    ensures
        r == cell(key.deep_view(), states_at(variables.deep_view(), at@)),
{
    let ghost states = states_at(variables.deep_view(), at@);
    let ghost labels = key.deep_view();
    let mut place: usize = 0;
    let mut j: usize = 0;
    proof {
        assert forall|l: int| 0 <= l < states.len() implies (#[trigger] states[l]).len() > 0 by {
            assert(states[l].contains(labels[l]));
        }
        assert(states.take(0) =~= Seq::<Seq<Seq<char>>>::empty());
    }
    while j < at.len()
        invariant
            j <= at.len() == key.len(),
            in_range(variables.deep_view(), at@),
            states == states_at(variables.deep_view(), at@),
            labels == key.deep_view(),
            fits(labels, states),
            forall|l: int| 0 <= l < states.len() ==> (#[trigger] states[l]).len() > 0,
            combinations(states) <= usize::MAX,
            place == cell(labels.take(j as int), states.take(j as int)),
        decreases at.len() - j,
    {
        let list = &variables[at[j]].states;
        let found = find_name(list, &key[j]);
        proof {
            let next_labels = labels.take(j + 1);
            let next_states = states.take(j + 1);
            assert(states[j as int] == list.deep_view());
            assert(labels[j as int] == key@[j as int]@);
            assert(next_labels.drop_last() =~= labels.take(j as int));
            assert(next_states.drop_last() =~= states.take(j as int));
            assert(next_labels.last() == labels[j as int]);
            assert(next_states.last() == states[j as int]);
            assert forall|l: int| 0 <= l < next_labels.len() implies (
            #[trigger] next_states[l]).contains(next_labels[l]) by {
                assert(states[l].contains(labels[l]));
            }
            lemma_cell_bounds(next_labels, next_states);
            lemma_combinations_grow(states, j + 1);
            assert(place * list.len() <= place * list.len() + found) by (nonlinear_arith)
                requires
                    0 <= found,
            ;
        }
        place = place * list.len() + found;
        j += 1;
    }
    proof {
        assert(labels.take(j as int) =~= labels);
        assert(states.take(j as int) =~= states);
    }
    place
}

/// Whether the key of each row of `table` picks one label from each list
/// of `states`.
pub open spec fn all_fit(table: Seq<TableRowView>, states: Seq<Seq<Seq<char>>>) -> bool {
    forall|r: int| 0 <= r < table.len() ==> fits((#[trigger] table[r]).key, states)
}

/// Whether two rows of `table` have one key.
pub open spec fn has_duplicate(table: Seq<TableRowView>) -> bool {
    exists|a: int, b: int|
        0 <= a < b < table.len() && (#[trigger] table[a]).key == (#[trigger] table[b]).key
}

/// Whether each row of `table` holds `expected` values.
pub open spec fn all_hold(table: Seq<TableRowView>, expected: nat) -> bool {
    forall|r: int| 0 <= r < table.len() ==> (#[trigger] table[r]).values.len() == expected
}

/// Whether the key of each row of `table` picks one state of each of the
/// variables at the indices `at`.
pub(crate) fn rows_fit(
    variables: &Vec<Variable>,
    at: &Vec<usize>,
    table: &Vec<TableRow>,
) -> (r: bool)
    requires
        in_range(variables.deep_view(), at@),
    ensures
        r == all_fit(table.deep_view(), states_at(variables.deep_view(), at@)),
{
    let ghost rows = table.deep_view();
    let ghost states = states_at(variables.deep_view(), at@);
    let mut i: usize = 0;
    while i < table.len()
        invariant
            i <= table.len(),
            in_range(variables.deep_view(), at@),
            rows == table.deep_view(),
            states == states_at(variables.deep_view(), at@),
            forall|r: int| 0 <= r < i ==> fits((#[trigger] rows[r]).key, states),
        decreases table.len() - i,
    {
        assert(rows[i as int].key == table@[i as int].key.deep_view());
        if !key_fits(variables, at, &table[i].key) {
            return false;
        }
        i += 1;
    }
    true
}

/// Whether each row of `table` holds `expected` values.
pub fn rows_hold(table: &Vec<TableRow>, expected: usize) -> (r: bool)
    ensures
        r == all_hold(table.deep_view(), expected as nat),
{
    let ghost rows = table.deep_view();
    let mut i: usize = 0;
    while i < table.len()
        invariant
            i <= table.len(),
            rows == table.deep_view(),
            forall|r: int| 0 <= r < i ==> (#[trigger] rows[r]).values.len() == expected,
        decreases table.len() - i,
    {
        assert(rows[i as int].values == table@[i as int].values.deep_view());
        if table[i].values.len() != expected {
            return false;
        }
        i += 1;
    }
    true
}

/// Whether two rows of `table` have one key, where every key picks one
/// state of each of the variables at the indices `at`, and `count` is the
/// number of combinations of their states.
pub(crate) fn rows_repeat(
    variables: &Vec<Variable>,
    at: &Vec<usize>,
    table: &Vec<TableRow>,
    count: usize,
) -> (r: bool)
    requires
        in_range(variables.deep_view(), at@),
        all_fit(table.deep_view(), states_at(variables.deep_view(), at@)),
        count == combinations(states_at(variables.deep_view(), at@)),
    ensures
        r == has_duplicate(table.deep_view()),
{
    let ghost rows = table.deep_view();
    let ghost states = states_at(variables.deep_view(), at@);
    let mut seen: Vec<bool> = Vec::new();
    let mut n: usize = 0;
    while n < count
        invariant
            n <= count,
            seen.len() == n,
            forall|m: int| 0 <= m < n ==> !seen@[m],
        decreases count - n,
    {
        seen.push(false);
        n += 1;
    }
    let mut i: usize = 0;
    while i < table.len()
        invariant
            i <= table.len(),
            seen.len() == count,
            in_range(variables.deep_view(), at@),
            rows == table.deep_view(),
            states == states_at(variables.deep_view(), at@),
            all_fit(rows, states),
            count == combinations(states),
            forall|m: int|
                0 <= m < count ==> (#[trigger] seen@[m] <==> exists|r: int|
                    0 <= r < i && cell((#[trigger] rows[r]).key, states) == m),
            forall|a: int, b: int|
                0 <= a < b < i ==> (#[trigger] rows[a]).key != (#[trigger] rows[b]).key,
        decreases table.len() - i,
    {
        let ghost key = rows[i as int].key;
        assert(key == table@[i as int].key.deep_view());
        let place = row_cell(variables, at, &table[i].key);
        proof {
            lemma_cell_bounds(key, states);
        }
        if seen[place] {
            proof {
                let r = choose|r: int|
                    0 <= r < i && cell((#[trigger] rows[r]).key, states) == place;
                lemma_cell_injective(rows[r].key, key, states);
                assert(rows[r].key == rows[i as int].key);
            }
            return true;
        }
        let ghost before = seen@;
        seen.set(place, true);
        proof {
            assert forall|m: int| 0 <= m < count implies (#[trigger] seen@[m] <==> exists|r: int|
                0 <= r < i + 1 && cell((#[trigger] rows[r]).key, states) == m) by {
                if m == place {
                    assert(cell(rows[i as int].key, states) == m);
                } else {
                    assert(seen@[m] == before[m]);
                    if seen@[m] {
                        let r = choose|r: int|
                            0 <= r < i && cell((#[trigger] rows[r]).key, states) == m;
                        assert(0 <= r < i + 1 && cell(rows[r].key, states) == m);
                    }
                }
            }
            assert forall|a: int, b: int| 0 <= a < b < i + 1 implies (#[trigger] rows[a]).key != (
            #[trigger] rows[b]).key by {
                if b == i && rows[a].key == rows[b].key {
                    assert(cell(rows[a].key, states) == place);
                    assert(before[place as int]);
                }
            }
        }
        i += 1;
    }
    false
}

} // verus!
