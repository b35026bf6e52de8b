//! The document: one network block, then variable blocks and probability
//! blocks in any order, and nothing behind them.

use vstd::prelude::*;
use crate::error::{ErrorKind, ErrorKindView, ParseError, ParseErrorView, fault};
use crate::lexical::{
    Parsed, agrees, fail, lemma_separators_shrink, skip_separators, spec_separators,
};
use crate::model::{
    Bif, BifView, Probability, ProbabilityView, Variable, VariableView, lemma_deep_view_empty,
    lemma_deep_view_push,
};
use crate::network::{parse_network, spec_network};
use crate::probability::{lemma_probability_advances, parse_probability, spec_probability};
use crate::laws::{consistent, law_document_consistent, law_positions_in_text, placed};
use crate::text::utf8_len;
use crate::scan::{Cursor, Input};
use crate::validate::{find_fault, spec_fault};
use crate::variable::{lemma_variable_advances, parse_variable, spec_variable};

verus! {

/// The variable blocks and the probability blocks of a document, each kind
/// in the order written.
pub type Blocks = (Seq<VariableView>, Seq<ProbabilityView>);

/// The blocks `r` with the blocks `head` put before them.
pub open spec fn join(head: Blocks, r: Parsed<Blocks>) -> Parsed<Blocks> {
    match r {
        Ok((j, tail)) => Ok((j, (head.0 + tail.0, head.1 + tail.1))),
        Err(e) => Err(e),
    }
}

/// The blocks of a document: for as long as `variable` or `probability`
/// follows the separators, one more block of that kind. The blocks end
/// before the separators that neither keyword follows.
pub open spec fn spec_blocks(i: Input) -> Parsed<Blocks>
    decreases i.rest.len(),
{
    let j = spec_separators(i);
    if j.starts_with("variable"@) {
        match spec_variable(j) {
            Err(e) => Err(e),
            Ok((k, variable)) => {
                proof {
                    lemma_separators_shrink(i);
                    lemma_variable_advances(j);
                }
                join((seq![variable], Seq::empty()), spec_blocks(k))
            },
        }
    } else if j.starts_with("probability"@) {
        match spec_probability(j) {
            Err(e) => Err(e),
            Ok((k, probability)) => {
                proof {
                    lemma_separators_shrink(i);
                    lemma_probability_advances(j);
                }
                join((Seq::empty(), seq![probability]), spec_blocks(k))
            },
        }
    } else {
        Ok((i, (Seq::empty(), Seq::empty())))
    }
}

/// Putting blocks and then one more variable before `r` is putting the
/// blocks with that variable at their end before `r`.
proof fn lemma_join_variable(head: Blocks, variable: VariableView, r: Parsed<Blocks>)
    ensures
        join(head, join((seq![variable], Seq::empty()), r)) == join(
            (head.0.push(variable), head.1),
            r,
        ),
{
    if let Ok((j, tail)) = r {
        assert(head.0 + (seq![variable] + tail.0) =~= head.0.push(variable) + tail.0);
        assert(head.1 + (Seq::<ProbabilityView>::empty() + tail.1) =~= head.1 + tail.1);
    }
}

/// Putting blocks and then one more probability before `r` is putting the
/// blocks with that probability at their end before `r`.
proof fn lemma_join_probability(head: Blocks, probability: ProbabilityView, r: Parsed<Blocks>)
    ensures
        join(head, join((Seq::empty(), seq![probability]), r)) == join(
            (head.0, head.1.push(probability)),
            r,
        ),
{
    if let Ok((j, tail)) = r {
        assert(head.0 + (Seq::<VariableView>::empty() + tail.0) =~= head.0 + tail.0);
        assert(head.1 + (seq![probability] + tail.1) =~= head.1.push(probability) + tail.1);
    }
}

/// Reads the blocks of a document.
pub fn parse_blocks<'a>(cur: Cursor<'a>) -> (r: Result<
    (Cursor<'a>, (Vec<Variable>, Vec<Probability>)),
    ParseError,
>)
    ensures
        agrees(r, spec_blocks(cur@)),
{
    let mut variables: Vec<Variable> = Vec::new();
    let mut probabilities: Vec<Probability> = Vec::new();
    let mut at = cur;
    proof {
        lemma_deep_view_empty(variables);
        lemma_deep_view_empty(probabilities);
        if let Ok((j, tail)) = spec_blocks(cur@) {
            assert(variables.deep_view() + tail.0 =~= tail.0);
            assert(probabilities.deep_view() + tail.1 =~= tail.1);
        }
    }
    loop
        invariant
            spec_blocks(cur@) == join(
                (variables.deep_view(), probabilities.deep_view()),
                spec_blocks(at@),
            ),
        decreases at@.rest.len(),
    {
        let j = skip_separators(at);
        proof {
            lemma_separators_shrink(at@);
            lemma_variable_advances(j@);
            lemma_probability_advances(j@);
        }
        if j.tag("variable").is_some() {
            match parse_variable(j) {
                Err(e) => {
                    return Err(e);
                },
                Ok((k, variable)) => {
                    let ghost before = variables;
                    variables.push(variable);
                    proof {
                        lemma_deep_view_push(before, variables, variable);
                        lemma_join_variable(
                            (before.deep_view(), probabilities.deep_view()),
                            variable.deep_view(),
                            spec_blocks(k@),
                        );
                    }
                    at = k;
                },
            }
        } else if j.tag("probability").is_some() {
            match parse_probability(j) {
                Err(e) => {
                    return Err(e);
                },
                Ok((k, probability)) => {
                    let ghost before = probabilities;
                    probabilities.push(probability);
                    proof {
                        lemma_deep_view_push(before, probabilities, probability);
                        lemma_join_probability(
                            (variables.deep_view(), before.deep_view()),
                            probability.deep_view(),
                            spec_blocks(k@),
                        );
                    }
                    at = k;
                },
            }
        } else {
            proof {
                assert(variables.deep_view() + Seq::<VariableView>::empty()
                    =~= variables.deep_view());
                assert(probabilities.deep_view() + Seq::<ProbabilityView>::empty()
                    =~= probabilities.deep_view());
            }
            return Ok((at, (variables, probabilities)));
        }
    }
}

/// What the grammar makes of a whole text: separators or none, the network
/// block, the blocks, separators or none, and the end of the text.
pub open spec fn spec_syntax(text: Seq<char>) -> Result<BifView, ParseErrorView> {
    let j = spec_separators(Input::start(text));
    if !j.starts_with("network"@) {
        Err(fault(ErrorKindView::MissingNetworkDeclaration, j.offset))
    } else {
        match spec_network(j) {
            Err(e) => Err(e),
            Ok((a, network)) => match spec_blocks(a) {
                Err(e) => Err(e),
                Ok((b, (variables, probabilities))) => if spec_separators(b).rest.len() > 0 {
                    Err(fault(ErrorKindView::TrailingInput, spec_separators(b).offset))
                } else {
                    Ok(BifView { network, variables, probabilities })
                },
            },
        }
    }
}

/// Whether the outcome `r` of reading a text is the outcome `s` that is
/// described for it.
pub open spec fn yields(r: Result<Bif, ParseError>, s: Result<BifView, ParseErrorView>) -> bool {
    match r {
        Ok(document) => s == Ok::<BifView, ParseErrorView>(document@),
        Err(e) => s == Err::<BifView, ParseErrorView>(e@),
    }
}

/// Reads a whole text by the grammar. What the blocks say of one another is
/// not looked at.
pub fn parse_syntax(text: &str) -> (r: Result<Bif, ParseError>)
    ensures
        yields(r, spec_syntax(text@)),
        r matches Err(e) ==> e.position <= utf8_len(text@),
        r matches Ok(document) ==> placed(
            document@.variables,
            document@.probabilities,
            utf8_len(text@),
        ),
{
    proof {
        law_positions_in_text(text@);
    }
    let j = skip_separators(Cursor::new(text));
    if j.tag("network").is_none() {
        return Err(fail(ErrorKind::MissingNetworkDeclaration, j));
    }
    let (a, network) = match parse_network(j) {
        Ok(found) => found,
        Err(e) => {
            return Err(e);
        },
    };
    let (b, (variables, probabilities)) = match parse_blocks(a) {
        Ok(found) => found,
        Err(e) => {
            return Err(e);
        },
    };
    let end = skip_separators(b);
    if !end.at_end() {
        return Err(fail(ErrorKind::TrailingInput, end));
    }
    Ok(Bif { network, variables, probabilities })
}

/// What a text is read as: what the grammar makes of it, where nothing is
/// wrong with what its blocks say of one another.
pub open spec fn spec_document(text: Seq<char>) -> Result<BifView, ParseErrorView> {
    match spec_syntax(text) {
        Err(e) => Err(e),
        Ok(document) => match spec_fault(document) {
            Some(e) => Err(e),
            None => Ok(document),
        },
    }
}

/// Reads a document: the text by the grammar, and then what its blocks say
/// of one another. The first error of either ends the reading. A document
/// that is handed out is consistent.
pub fn parse_bif(text: &str) -> (r: Result<Bif, ParseError>)
    ensures
        yields(r, spec_document(text@)),
        r matches Ok(document) ==> consistent(document@) && placed(
            document@.variables,
            document@.probabilities,
            utf8_len(text@),
        ),
        r matches Err(e) ==> e.position <= utf8_len(text@),
{
    proof {
        law_document_consistent(text@);
        law_positions_in_text(text@);
    }
    let document = match parse_syntax(text) {
        Ok(document) => document,
        Err(e) => {
            return Err(e);
        },
    };
    match find_fault(&document) {
        Some(e) => Err(e),
        None => Ok(document),
    }
}

} // verus!
