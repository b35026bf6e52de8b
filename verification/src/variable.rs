//! Variable blocks: a name, a type with its cardinality, the labels of the
//! states, and annotations.

use vstd::prelude::*;
use crate::error::{ErrorKind, ErrorKindView, ParseError, fault};
use crate::lexical::{
    Parsed, advances, agrees, fail, lemma_advance_onward, lemma_run_onward, lemma_separators_shrink,
    lemma_token_shrinks, lemma_u32_advances, lexeme, parse_u32, separator1, shrinks,
    skip_separators, spec_lexeme, spec_separator1, spec_separators, spec_token, spec_u32, token,
};
use crate::list::{lemma_names_advance, parse_states, spec_states};
use crate::model::{Variable, VariableType, VariableView};
use crate::network::{lemma_opening_advances, parse_opening, spec_opening};
use crate::property::{lemma_properties_shrink, parse_properties, spec_properties};
use crate::scan::{Cursor, Input};
use crate::text::{CharClass, same_text};

verus! {

/// What follows the keyword `discrete`: between `[` and `]` the number of
/// states, which is at least 1. Separators may stand around each of the
/// three.
#[verifier::opaque]
pub open spec fn spec_discrete(i: Input) -> Parsed<VariableType> {
    match spec_lexeme(i, "["@) {
        Err(e) => Err(e),
        Ok(a) => match spec_u32(spec_separators(a)) {
            Err(e) => Err(e),
            Ok((b, n)) => if n == 0 {
                Err(fault(ErrorKindView::InvalidNumber, spec_separators(a).offset))
            } else {
                match spec_lexeme(b, "]"@) {
                    Err(e) => Err(e),
                    Ok(c) => Ok((c, VariableType::Discrete(n))),
                }
            },
        },
    }
}

/// Reads what follows the keyword `discrete`.
fn parse_discrete<'a>(cur: Cursor<'a>) -> (r: Result<(Cursor<'a>, VariableType), ParseError>)
    ensures
        agrees(r, spec_discrete(cur@)),
{
    proof {
        reveal(spec_discrete);
    }
    let a = match lexeme(cur, "[") {
        Ok(a) => a,
        Err(e) => {
            return Err(e);
        },
    };
    let number_at = skip_separators(a);
    let (b, n) = match parse_u32(number_at) {
        Ok(found) => found,
        Err(e) => {
            return Err(e);
        },
    };
    if n == 0 {
        return Err(fail(ErrorKind::InvalidNumber, number_at));
    }
    match lexeme(b, "]") {
        Ok(c) => Ok((c, VariableType::Discrete(n))),
        Err(e) => Err(e),
    }
}

/// The type clause of a variable: `type`, at least one separator, a type
/// keyword, which is a run of letters, and what that keyword calls for. The
/// one keyword there is is `discrete`.
#[verifier::opaque]
pub open spec fn spec_node_type(i: Input) -> Parsed<VariableType> {
    match spec_token(i, "type"@) {
        Err(e) => Err(e),
        Ok(a) => match spec_separator1(a) {
            Err(e) => Err(e),
            Ok(b) => if !b.starts_in(CharClass::Letter) {
                Err(fault(ErrorKindView::UnexpectedToken, b.offset))
            } else if b.run(CharClass::Letter) != "discrete"@ {
                Err(fault(ErrorKindView::UnknownVariableType, b.offset))
            } else {
                spec_discrete(b.skip_run(CharClass::Letter))
            },
        },
    }
}

/// Reads the type clause of a variable.
pub fn parse_node_type<'a>(cur: Cursor<'a>) -> (r: Result<
    (Cursor<'a>, VariableType),
    ParseError,
>)
    ensures
        agrees(r, spec_node_type(cur@)),
{
    proof {
        reveal(spec_node_type);
    }
    let a = match token(cur, "type") {
        Ok(a) => a,
        Err(e) => {
            return Err(e);
        },
    };
    let b = match separator1(a) {
        Ok(b) => b,
        Err(e) => {
            return Err(e);
        },
    };
    match b.take_while1(CharClass::Letter) {
        None => Err(fail(ErrorKind::UnexpectedToken, b)),
        Some((c, keyword)) => {
            if same_text(keyword, "discrete") {
                parse_discrete(c)
            } else {
                Err(fail(ErrorKind::UnknownVariableType, b))
            }
        },
    }
}

/// The position behind the semicolon that may follow the separators that
/// begin at `i`; `i` itself where none does.
pub open spec fn spec_semicolon(i: Input) -> Input {
    if spec_separators(i).starts_with(";"@) {
        spec_separators(i).advance(1)
    } else {
        i
    }
}

/// The inside of a variable block up to its annotations: the type clause,
/// at least one separator, and between `{` and `};` the labels of the
/// states. One more semicolon may follow.
#[verifier::opaque]
pub open spec fn spec_declaration(i: Input) -> Parsed<(VariableType, Seq<Seq<char>>)> {
    match spec_node_type(spec_separators(i)) {
        Err(e) => Err(e),
        Ok((a, node_type)) => match spec_separator1(a) {
            Err(e) => Err(e),
            Ok(b) => match spec_token(b, "{"@) {
                Err(e) => Err(e),
                Ok(c) => match spec_states(c) {
                    Err(e) => Err(e),
                    Ok((d, states)) => match spec_lexeme(d, "};"@) {
                        Err(e) => Err(e),
                        Ok(f) => Ok((spec_semicolon(f), (node_type, states))),
                    },
                },
            },
        },
    }
}

/// Reads the inside of a variable block up to its annotations.
fn parse_declaration<'a>(cur: Cursor<'a>) -> (r: Result<
    (Cursor<'a>, (VariableType, Vec<String>)),
    ParseError,
>)
    ensures
        agrees(r, spec_declaration(cur@)),
{
    proof {
        reveal(spec_declaration);
    }
    let (a, node_type) = match parse_node_type(skip_separators(cur)) {
        Ok(found) => found,
        Err(e) => {
            return Err(e);
        },
    };
    let b = match separator1(a) {
        Ok(b) => b,
        Err(e) => {
            return Err(e);
        },
    };
    let c = match token(b, "{") {
        Ok(c) => c,
        Err(e) => {
            return Err(e);
        },
    };
    let (d, states) = match parse_states(c) {
        Ok(found) => found,
        Err(e) => {
            return Err(e);
        },
    };
    let f = match lexeme(d, "};") {
        Ok(f) => f,
        Err(e) => {
            return Err(e);
        },
    };
    let end = match skip_separators(f).tag(";") {
        Some(g) => g,
        None => f,
    };
    proof {
        reveal_strlit(";");
    }
    Ok((end, (node_type, states)))
}

/// A variable block: `variable`, its name, and between `{` and `}` the
/// declaration and a list of annotations. The block is well formed only if
/// it lists as many states as the type clause says.
#[verifier::opaque]
pub open spec fn spec_variable(i: Input) -> Parsed<VariableView> {
    match spec_opening(i, "variable"@) {
        Err(e) => Err(e),
        Ok((a, name)) => match spec_declaration(a) {
            Err(e) => Err(e),
            Ok((b, (node_type, states))) => match spec_properties(b) {
                Err(e) => Err(e),
                Ok((c, properties)) => match spec_lexeme(c, "}"@) {
                    Err(e) => Err(e),
                    Ok(d) => if states.len() != node_type.spec_cardinality() {
                        Err(
                            fault(
                                ErrorKindView::StateCountMismatch {
                                    variable: name,
                                    expected: node_type.spec_cardinality(),
                                    actual: states.len(),
                                },
                                i.offset,
                            ),
                        )
                    } else {
                        Ok(
                            (
                                d,
                                VariableView {
                                    name,
                                    node_type,
                                    states,
                                    properties,
                                    position: i.offset,
                                },
                            ),
                        )
                    },
                },
            },
        },
    }
}

/// Reads a variable block.
pub fn parse_variable<'a>(cur: Cursor<'a>) -> (r: Result<(Cursor<'a>, Variable), ParseError>)
    ensures
        agrees(r, spec_variable(cur@)),
{
    proof {
        reveal(spec_variable);
    }
    let (a, name) = match parse_opening(cur, "variable") {
        Ok(found) => found,
        Err(e) => {
            return Err(e);
        },
    };
    let (b, (node_type, states)) = match parse_declaration(a) {
        Ok(found) => found,
        Err(e) => {
            return Err(e);
        },
    };
    let (c, properties) = match parse_properties(b) {
        Ok(found) => found,
        Err(e) => {
            return Err(e);
        },
    };
    let d = match lexeme(c, "}") {
        Ok(d) => d,
        Err(e) => {
            return Err(e);
        },
    };
    let expected = node_type.cardinality();
    if states.len() != expected as usize {
        return Err(
            ParseError {
                kind: ErrorKind::StateCountMismatch {
                    variable: name,
                    expected,
                    actual: states.len(),
                },
                position: cur.offset(),
            },
        );
    }
    Ok((d, Variable { name, node_type, states, properties, position: cur.offset() }))
}

/// What follows `discrete` may be read only forward.
pub proof fn lemma_discrete_shrinks(i: Input)
    ensures
        shrinks(i, spec_discrete(i)),
{
    reveal(spec_discrete);
    lemma_token_shrinks(i, "["@);
    if let Ok(a) = spec_lexeme(i, "["@) {
        lemma_separators_shrink(a);
        lemma_u32_advances(spec_separators(a));
        if let Ok((b, _)) = spec_u32(spec_separators(a)) {
            lemma_token_shrinks(b, "]"@);
        }
    }
}

/// A type clause may be read only forward.
pub proof fn lemma_node_type_shrinks(i: Input)
    ensures
        shrinks(i, spec_node_type(i)),
{
    reveal(spec_node_type);
    lemma_token_shrinks(i, "type"@);
    if let Ok(a) = spec_token(i, "type"@) {
        lemma_token_shrinks(a, "type"@);
        if let Ok(b) = spec_separator1(a) {
            lemma_run_onward(b, CharClass::Letter);
            lemma_discrete_shrinks(b.skip_run(CharClass::Letter));
        }
    }
}

/// A declaration may be read only forward.
pub proof fn lemma_declaration_shrinks(i: Input)
    ensures
        shrinks(i, spec_declaration(i)),
{
    reveal(spec_declaration);
    lemma_separators_shrink(i);
    lemma_node_type_shrinks(spec_separators(i));
    if let Ok((a, _)) = spec_node_type(spec_separators(i)) {
        lemma_token_shrinks(a, "{"@);
        if let Ok(b) = spec_separator1(a) {
            lemma_token_shrinks(b, "{"@);
            if let Ok(c) = spec_token(b, "{"@) {
                lemma_names_advance(c);
                if let Ok((d, _)) = spec_states(c) {
                    lemma_token_shrinks(d, "};"@);
                    if let Ok(f) = spec_lexeme(d, "};"@) {
                        reveal_strlit(";");
                        lemma_separators_shrink(f);
                        if spec_separators(f).rest.len() > 0 {
                            lemma_advance_onward(spec_separators(f), 1);
                        }
                    }
                }
            }
        }
    }
}

/// A variable block is not empty.
pub proof fn lemma_variable_advances(i: Input)
    ensures
        advances(i, spec_variable(i)),
{
    reveal(spec_variable);
    lemma_opening_advances(i, "variable"@);
    if let Ok((a, _)) = spec_opening(i, "variable"@) {
        lemma_declaration_shrinks(a);
        if let Ok((b, _)) = spec_declaration(a) {
            lemma_properties_shrink(b);
            if let Ok((c, _)) = spec_properties(b) {
                lemma_token_shrinks(c, "}"@);
            }
        }
    }
}

} // verus!
