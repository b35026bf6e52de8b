//! Annotations: `key "value"`, alone and in lists.

use vstd::prelude::*;
use crate::error::{ParseError, ParseErrorView};
use crate::lexical::{
    Parsed, advances, agrees, lemma_name_advances, lemma_separators_shrink, lemma_string_advances,
    parse_name, parse_string, shrinks, skip_separators, spec_name, spec_separators, spec_string,
};
use crate::model::{Property, PropertyView, lemma_deep_view_empty, lemma_deep_view_push};
use crate::scan::{Cursor, Input};
use crate::text::CharClass;

verus! {

/// The list `r` with `head` put before it.
pub open spec fn prepend<V>(head: Seq<V>, r: Parsed<Seq<V>>) -> Parsed<Seq<V>> {
    match r {
        Ok((j, tail)) => Ok((j, head + tail)),
        Err(e) => Err(e),
    }
}

/// Putting `head` and then `next` before a list is putting `head` with
/// `next` at its end before it.
pub proof fn lemma_prepend_push<V>(head: Seq<V>, next: V, r: Parsed<Seq<V>>)
    ensures
        prepend(head, prepend(seq![next], r)) == prepend(head.push(next), r),
{
    if let Ok((j, tail)) = r {
        assert(head + (seq![next] + tail) =~= head.push(next) + tail);
    }
}

/// Putting a list before the empty list gives the list.
pub proof fn lemma_prepend_end<V>(head: Seq<V>, at: Input)
    ensures
        prepend(head, Ok((at, Seq::<V>::empty()))) == Ok::<(Input, Seq<V>), ParseErrorView>(
            (at, head),
        ),
{
    assert(head + Seq::<V>::empty() =~= head);
}

/// An annotation: a name, separators or none, and a quoted string.
#[verifier::opaque]
pub open spec fn spec_property(i: Input) -> Parsed<PropertyView> {
    match spec_name(i) {
        Err(e) => Err(e),
        Ok((a, key)) => match spec_string(spec_separators(a)) {
            Err(e) => Err(e),
            Ok((b, value)) => Ok((b, PropertyView { key, value })),
        },
    }
}

/// An annotation is not empty.
pub proof fn lemma_property_advances(i: Input)
    ensures
        advances(i, spec_property(i)),
{
    reveal(spec_property);
    lemma_name_advances(i);
    if let Ok((a, _)) = spec_name(i) {
        lemma_separators_shrink(a);
        lemma_string_advances(spec_separators(a));
    }
}

/// Reads one annotation.
pub fn parse_property<'a>(cur: Cursor<'a>) -> (r: Result<(Cursor<'a>, Property), ParseError>)
    ensures
        agrees(r, spec_property(cur@)),
{
    proof {
        reveal(spec_property);
    }
    let (a, key) = match parse_name(cur) {
        Ok(found) => found,
        Err(e) => {
            return Err(e);
        },
    };
    let (b, value) = match parse_string(skip_separators(a)) {
        Ok(found) => found,
        Err(e) => {
            return Err(e);
        },
    };
    Ok((b, Property { key, value }))
}

/// A list of annotations, each with at least one separator before it. The
/// list goes on for as long as a name follows the separators, and ends
/// before the separators that nothing of it follows.
pub open spec fn spec_properties(i: Input) -> Parsed<Seq<PropertyView>>
    decreases i.rest.len(),
{
    let j = spec_separators(i);
    if (i.starts_in(CharClass::Space) || i.starts_with("//"@)) && j.starts_in(CharClass::Name) {
        match spec_property(j) {
            Err(e) => Err(e),
            Ok((k, p)) => {
                proof {
                    lemma_separators_shrink(i);
                    lemma_property_advances(j);
                }
                prepend(seq![p], spec_properties(k))
            },
        }
    } else {
        Ok((i, Seq::empty()))
    }
}

/// Reads a list of annotations.
pub fn parse_properties<'a>(cur: Cursor<'a>) -> (r: Result<
    (Cursor<'a>, Vec<Property>),
    ParseError,
>)
    ensures
        agrees(r, spec_properties(cur@)),
{
    let mut list: Vec<Property> = Vec::new();
    let mut at = cur;
    proof {
        lemma_deep_view_empty(list);
        assert(Seq::<PropertyView>::empty() + Seq::<PropertyView>::empty() =~= Seq::<
            PropertyView,
        >::empty());
        match spec_properties(cur@) {
            Ok((j, tail)) => {
                assert(list.deep_view() + tail =~= tail);
            },
            Err(e) => {},
        }
    }
    loop
        invariant
            spec_properties(cur@) == prepend(list.deep_view(), spec_properties(at@)),
        decreases at@.rest.len(),
    {
        let spaced = at.starts_in(CharClass::Space) || at.tag("//").is_some();
        let j = skip_separators(at);
        if !(spaced && j.starts_in(CharClass::Name)) {
            proof {
                lemma_prepend_end(list.deep_view(), at@);
            }
            return Ok((at, list));
        }
        proof {
            lemma_separators_shrink(at@);
            lemma_property_advances(j@);
        }
        match parse_property(j) {
            Err(e) => {
                return Err(e);
            },
            Ok((k, p)) => {
                let ghost before = list;
                list.push(p);
                proof {
                    lemma_deep_view_push(before, list, p);
                    lemma_prepend_push(before.deep_view(), p.deep_view(), spec_properties(k@));
                }
                at = k;
            },
        }
    }
}

/// A list of annotations may be empty.
pub proof fn lemma_properties_shrink(i: Input)
    ensures
        shrinks(i, spec_properties(i)),
    decreases i.rest.len(),
{
    let j = spec_separators(i);
    lemma_separators_shrink(i);
    lemma_property_advances(j);
    if let Ok((k, _)) = spec_property(j) {
        lemma_properties_shrink(k);
    }
}

} // verus!
