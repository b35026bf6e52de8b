//! The network block, and the opening that it shares with variable blocks.

use vstd::prelude::*;
use crate::error::ParseError;
use crate::lexical::{
    Parsed, advances, agrees, lemma_name_advances, lemma_token_shrinks, lexeme, parse_name,
    separator1, spec_lexeme, spec_name, spec_separator1, spec_token, token,
};
use crate::model::{Network, NetworkView};
use crate::property::{lemma_properties_shrink, parse_properties, spec_properties};
use crate::scan::{Cursor, Input};

verus! {

/// The opening of a block: `keyword`, at least one separator, the block's
/// name, separators or none, and `{`. Its value is the name.
#[verifier::opaque]
pub open spec fn spec_opening(i: Input, keyword: Seq<char>) -> Parsed<Seq<char>> {
    match spec_token(i, keyword) {
        Err(e) => Err(e),
        Ok(a) => match spec_separator1(a) {
            Err(e) => Err(e),
            Ok(b) => match spec_name(b) {
                Err(e) => Err(e),
                Ok((c, name)) => match spec_lexeme(c, "{"@) {
                    Err(e) => Err(e),
                    Ok(d) => Ok((d, name)),
                },
            },
        },
    }
}

/// Reads the opening of a block and hands back the block's name.
pub fn parse_opening<'a>(cur: Cursor<'a>, keyword: &str) -> (r: Result<
    (Cursor<'a>, String),
    ParseError,
>)
    ensures
        agrees(r, spec_opening(cur@, keyword@)),
{
    proof {
        reveal(spec_opening);
    }
    let a = match token(cur, keyword) {
        Ok(a) => a,
        Err(e) => {
            return Err(e);
        },
    };
    let b = match separator1(a) {
        Ok(b) => b,
        Err(e) => {
            return Err(e);
        },
    };
    let (c, name) = match parse_name(b) {
        Ok(found) => found,
        Err(e) => {
            return Err(e);
        },
    };
    match lexeme(c, "{") {
        Ok(d) => Ok((d, name)),
        Err(e) => Err(e),
    }
}

/// The network block: `network`, its name, and between `{` and `}` a list
/// of annotations.
#[verifier::opaque]
pub open spec fn spec_network(i: Input) -> Parsed<NetworkView> {
    match spec_opening(i, "network"@) {
        Err(e) => Err(e),
        Ok((a, name)) => match spec_properties(a) {
            Err(e) => Err(e),
            Ok((b, properties)) => match spec_lexeme(b, "}"@) {
                Err(e) => Err(e),
                Ok(c) => Ok((c, NetworkView { name, properties })),
            },
        },
    }
}

/// Reads the network block.
pub fn parse_network<'a>(cur: Cursor<'a>) -> (r: Result<(Cursor<'a>, Network), ParseError>)
    ensures
        agrees(r, spec_network(cur@)),
{
    proof {
        reveal(spec_network);
    }
    let (a, name) = match parse_opening(cur, "network") {
        Ok(found) => found,
        Err(e) => {
            return Err(e);
        },
    };
    let (b, properties) = match parse_properties(a) {
        Ok(found) => found,
        Err(e) => {
            return Err(e);
        },
    };
    match lexeme(b, "}") {
        Ok(c) => Ok((c, Network { name, properties })),
        Err(e) => Err(e),
    }
}

/// The opening of a block is not empty.
pub proof fn lemma_opening_advances(i: Input, keyword: Seq<char>)
    ensures
        advances(i, spec_opening(i, keyword)),
{
    reveal(spec_opening);
    lemma_token_shrinks(i, keyword);
    if let Ok(a) = spec_token(i, keyword) {
        lemma_token_shrinks(a, keyword);
        if let Ok(b) = spec_separator1(a) {
            lemma_name_advances(b);
            if let Ok((c, _)) = spec_name(b) {
                lemma_token_shrinks(c, "{"@);
            }
        }
    }
}

/// A network block is not empty.
pub proof fn lemma_network_advances(i: Input)
    ensures
        advances(i, spec_network(i)),
{
    reveal(spec_network);
    lemma_opening_advances(i, "network"@);
    if let Ok((a, _)) = spec_opening(i, "network"@) {
        lemma_properties_shrink(a);
        if let Ok((b, _)) = spec_properties(a) {
            lemma_token_shrinks(b, "}"@);
        }
    }
}

} // verus!
