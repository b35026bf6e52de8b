//! Lists whose items are set apart by commas: names and numbers.

use vstd::prelude::*;
use crate::error::ParseError;
use crate::lexical::{
    Parsed, advances, agrees, lemma_advance_onward, lemma_f64_advances, lemma_name_advances,
    lemma_separators_shrink, parse_f64, parse_name, shrinks, skip_separators, spec_f64, spec_name,
    spec_separators,
};
use crate::model::{lemma_deep_view_empty, lemma_deep_view_push};
use crate::property::{lemma_prepend_end, lemma_prepend_push, prepend};
use crate::scan::{Cursor, Input};
use crate::text::CharClass;

verus! {

/// The names that follow the first name of a list, each behind a comma.
/// Separators may stand on either side of a comma. The list ends before the
/// separators that no comma follows.
pub open spec fn spec_more_names(i: Input) -> Parsed<Seq<Seq<char>>>
    decreases i.rest.len(),
{
    let j = spec_separators(i);
    if j.starts_with(","@) {
        match spec_name(spec_separators(j.advance(1))) {
            Err(e) => Err(e),
            Ok((k, name)) => {
                proof {
                    reveal_strlit(",");
                    lemma_separators_shrink(i);
                    lemma_advance_onward(j, 1);
                    lemma_separators_shrink(j.advance(1));
                    lemma_name_advances(spec_separators(j.advance(1)));
                }
                prepend(seq![name], spec_more_names(k))
            },
        }
    } else {
        Ok((i, Seq::empty()))
    }
}

/// A list of one or more names, with separators or none before the first.
#[verifier::opaque]
pub open spec fn spec_names(i: Input) -> Parsed<Seq<Seq<char>>> {
    match spec_name(spec_separators(i)) {
        Err(e) => Err(e),
        Ok((a, first)) => prepend(seq![first], spec_more_names(a)),
    }
}

/// Reads a list of one or more names.
pub fn parse_names<'a>(cur: Cursor<'a>) -> (r: Result<(Cursor<'a>, Vec<String>), ParseError>)
    ensures
        agrees(r, spec_names(cur@)),
{
    proof {
        reveal(spec_names);
    }
    let (first_end, first) = match parse_name(skip_separators(cur)) {
        Ok(found) => found,
        Err(e) => {
            return Err(e);
        },
    };
    let mut list: Vec<String> = Vec::new();
    let ghost empty = list;
    list.push(first);
    let mut at = first_end;
    proof {
        lemma_deep_view_empty(empty);
        lemma_deep_view_push(empty, list, first);
        assert(list.deep_view() =~= seq![first@]);
    }
    loop
        invariant
            spec_names(cur@) == prepend(list.deep_view(), spec_more_names(at@)),
        decreases at@.rest.len(),
    {
        let j = skip_separators(at);
        let k = match j.tag(",") {
            Some(k) => k,
            None => {
                proof {
                    lemma_prepend_end(list.deep_view(), at@);
                }
                return Ok((at, list));
            },
        };
        proof {
            reveal_strlit(",");
            lemma_separators_shrink(at@);
            lemma_advance_onward(j@, 1);
            lemma_separators_shrink(k@);
            lemma_name_advances(spec_separators(k@));
        }
        match parse_name(skip_separators(k)) {
            Err(e) => {
                return Err(e);
            },
            Ok((l, name)) => {
                let ghost before = list;
                list.push(name);
                proof {
                    lemma_deep_view_push(before, list, name);
                    lemma_prepend_push(before.deep_view(), name@, spec_more_names(l@));
                }
                at = l;
            },
        }
    }
}

/// The labels of a variable's states: a list of names if a name follows the
/// separators that begin at `i`, and no label otherwise.
#[verifier::opaque]
pub open spec fn spec_states(i: Input) -> Parsed<Seq<Seq<char>>> {
    if spec_separators(i).starts_in(CharClass::Name) {
        spec_names(i)
    } else {
        Ok((i, Seq::empty()))
    }
}

/// Reads the labels of a variable's states, of which there may be none.
pub fn parse_states<'a>(cur: Cursor<'a>) -> (r: Result<(Cursor<'a>, Vec<String>), ParseError>)
    ensures
        agrees(r, spec_states(cur@)),
{
    proof {
        reveal(spec_states);
    }
    if skip_separators(cur).starts_in(CharClass::Name) {
        parse_names(cur)
    } else {
        let none: Vec<String> = Vec::new();
        proof {
            lemma_deep_view_empty(none);
        }
        Ok((cur, none))
    }
}

/// The numbers that follow the first number of a list, each behind a comma.
pub open spec fn spec_more_numbers(i: Input) -> Parsed<Seq<Seq<char>>>
    decreases i.rest.len(),
{
    let j = spec_separators(i);
    if j.starts_with(","@) {
        match spec_f64(spec_separators(j.advance(1))) {
            Err(e) => Err(e),
            Ok((k, number)) => {
                proof {
                    reveal_strlit(",");
                    lemma_separators_shrink(i);
                    lemma_advance_onward(j, 1);
                    lemma_separators_shrink(j.advance(1));
                    lemma_f64_advances(spec_separators(j.advance(1)));
                }
                prepend(seq![number], spec_more_numbers(k))
            },
        }
    } else {
        Ok((i, Seq::empty()))
    }
}

/// The probabilities of one table row: a list of one or more decimal
/// numbers, with separators or none before the first.
#[verifier::opaque]
pub open spec fn spec_probabilities(i: Input) -> Parsed<Seq<Seq<char>>> {
    match spec_f64(spec_separators(i)) {
        Err(e) => Err(e),
        Ok((a, first)) => prepend(seq![first], spec_more_numbers(a)),
    }
}

/// Reads the probabilities of one table row.
pub fn parse_probabilities<'a>(cur: Cursor<'a>) -> (r: Result<
    (Cursor<'a>, Vec<String>),
    ParseError,
>)
    ensures
        agrees(r, spec_probabilities(cur@)),
{
    proof {
        reveal(spec_probabilities);
    }
    let (first_end, first) = match parse_f64(skip_separators(cur)) {
        Ok(found) => found,
        Err(e) => {
            return Err(e);
        },
    };
    let mut list: Vec<String> = Vec::new();
    let ghost empty = list;
    list.push(first);
    let mut at = first_end;
    proof {
        lemma_deep_view_empty(empty);
        lemma_deep_view_push(empty, list, first);
        assert(list.deep_view() =~= seq![first@]);
    }
    loop
        invariant
            spec_probabilities(cur@) == prepend(list.deep_view(), spec_more_numbers(at@)),
        decreases at@.rest.len(),
    {
        let j = skip_separators(at);
        let k = match j.tag(",") {
            Some(k) => k,
            None => {
                proof {
                    lemma_prepend_end(list.deep_view(), at@);
                }
                return Ok((at, list));
            },
        };
        proof {
            reveal_strlit(",");
            lemma_separators_shrink(at@);
            lemma_advance_onward(j@, 1);
            lemma_separators_shrink(k@);
            lemma_f64_advances(spec_separators(k@));
        }
        match parse_f64(skip_separators(k)) {
            Err(e) => {
                return Err(e);
            },
            Ok((l, number)) => {
                let ghost before = list;
                list.push(number);
                proof {
                    lemma_deep_view_push(before, list, number);
                    lemma_prepend_push(before.deep_view(), number@, spec_more_numbers(l@));
                }
                at = l;
            },
        }
    }
}

/// The names behind the first one of a list may be none.
pub proof fn lemma_more_names_shrink(i: Input)
    ensures
        shrinks(i, spec_more_names(i)),
    decreases i.rest.len(),
{
    let j = spec_separators(i);
    lemma_separators_shrink(i);
    if j.starts_with(","@) {
        reveal_strlit(",");
        lemma_advance_onward(j, 1);
        lemma_separators_shrink(j.advance(1));
        lemma_name_advances(spec_separators(j.advance(1)));
        if let Ok((k, _)) = spec_name(spec_separators(j.advance(1))) {
            lemma_more_names_shrink(k);
        }
    }
}

/// A list of names is not empty; the labels of the states may be none.
pub proof fn lemma_names_advance(i: Input)
    ensures
        advances(i, spec_names(i)),
        shrinks(i, spec_states(i)),
{
    reveal(spec_names);
    reveal(spec_states);
    lemma_separators_shrink(i);
    lemma_name_advances(spec_separators(i));
    if let Ok((a, _)) = spec_name(spec_separators(i)) {
        lemma_more_names_shrink(a);
    }
}

/// The numbers behind the first one of a list may be none.
pub proof fn lemma_more_numbers_shrink(i: Input)
    ensures
        shrinks(i, spec_more_numbers(i)),
    decreases i.rest.len(),
{
    let j = spec_separators(i);
    lemma_separators_shrink(i);
    if j.starts_with(","@) {
        reveal_strlit(",");
        lemma_advance_onward(j, 1);
        lemma_separators_shrink(j.advance(1));
        lemma_f64_advances(spec_separators(j.advance(1)));
        if let Ok((k, _)) = spec_f64(spec_separators(j.advance(1))) {
            lemma_more_numbers_shrink(k);
        }
    }
}

/// A list of numbers is not empty.
pub proof fn lemma_probabilities_advance(i: Input)
    ensures
        advances(i, spec_probabilities(i)),
{
    reveal(spec_probabilities);
    lemma_separators_shrink(i);
    lemma_f64_advances(spec_separators(i));
    if let Ok((a, _)) = spec_f64(spec_separators(i)) {
        lemma_more_numbers_shrink(a);
    }
}

} // verus!
