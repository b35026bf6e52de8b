//! Probability blocks: a header that names the target and its parents, and
//! a table in one of two forms.

use vstd::prelude::*;
use crate::error::{ErrorKind, ErrorKindView, ParseError, fault};
use crate::lexical::{
    Parsed, advances, agrees, fail, lemma_advance_onward, lemma_name_advances,
    lemma_separators_shrink, lemma_token_shrinks, lexeme, parse_name, separator1, shrinks,
    skip_separators, spec_lexeme, spec_name, spec_separator1, spec_separators, spec_token, token,
};
use crate::list::{
    lemma_names_advance, lemma_probabilities_advance, parse_names, parse_probabilities, spec_names,
    spec_probabilities,
};
use crate::model::{
    Probability, ProbabilityView, Property, TableRow, TableRowView, lemma_deep_view_empty,
    lemma_deep_view_push,
};
use crate::property::{lemma_prepend_end, lemma_prepend_push, prepend};
use crate::scan::{Cursor, Input};

verus! {

/// The parents in a header: behind `|`, which separators may stand before,
/// a list of names; no parent where no `|` follows.
#[verifier::opaque]
pub open spec fn spec_parents(i: Input) -> Parsed<Seq<Seq<char>>> {
    let j = spec_separators(i);
    if j.starts_with("|"@) {
        spec_names(j.advance(1))
    } else {
        Ok((i, Seq::empty()))
    }
}

/// Reads the parents in a header.
fn parse_parents<'a>(cur: Cursor<'a>) -> (r: Result<(Cursor<'a>, Vec<String>), ParseError>)
    ensures
        agrees(r, spec_parents(cur@)),
{
    proof {
        reveal(spec_parents);
        reveal_strlit("|");
    }
    match skip_separators(cur).tag("|") {
        Some(a) => parse_names(a),
        None => {
            let none: Vec<String> = Vec::new();
            proof {
                lemma_deep_view_empty(none);
            }
            Ok((cur, none))
        },
    }
}

/// The header of a probability block: `probability`, and between `(` and
/// `)` the name of the target and its parents. Its value is the two.
#[verifier::opaque]
pub open spec fn spec_header(i: Input) -> Parsed<(Seq<char>, Seq<Seq<char>>)> {
    match spec_token(i, "probability"@) {
        Err(e) => Err(e),
        Ok(a) => match spec_lexeme(a, "("@) {
            Err(e) => Err(e),
            Ok(b) => match spec_name(spec_separators(b)) {
                Err(e) => Err(e),
                Ok((c, variable)) => match spec_parents(c) {
                    Err(e) => Err(e),
                    Ok((d, parents)) => match spec_lexeme(d, ")"@) {
                        Err(e) => Err(e),
                        Ok(f) => Ok((f, (variable, parents))),
                    },
                },
            },
        },
    }
}

/// Reads the header of a probability block.
pub fn parse_header<'a>(cur: Cursor<'a>) -> (r: Result<
    (Cursor<'a>, (String, Vec<String>)),
    ParseError,
>)
    ensures
        agrees(r, spec_header(cur@)),
{
    proof {
        reveal(spec_header);
    }
    let a = match token(cur, "probability") {
        Ok(a) => a,
        Err(e) => {
            return Err(e);
        },
    };
    let b = match lexeme(a, "(") {
        Ok(b) => b,
        Err(e) => {
            return Err(e);
        },
    };
    let (c, variable) = match parse_name(skip_separators(b)) {
        Ok(found) => found,
        Err(e) => {
            return Err(e);
        },
    };
    let (d, parents) = match parse_parents(c) {
        Ok(found) => found,
        Err(e) => {
            return Err(e);
        },
    };
    match lexeme(d, ")") {
        Ok(f) => Ok((f, (variable, parents))),
        Err(e) => Err(e),
    }
}

/// The one row of a table without parents: `table`, at least one
/// separator, the probabilities, and `;`.
#[verifier::opaque]
pub open spec fn spec_unconditional(i: Input) -> Parsed<Seq<TableRowView>> {
    match spec_token(i, "table"@) {
        Err(e) => Err(e),
        Ok(a) => match spec_separator1(a) {
            Err(e) => Err(e),
            Ok(b) => match spec_probabilities(b) {
                Err(e) => Err(e),
                Ok((c, values)) => match spec_lexeme(c, ";"@) {
                    Err(e) => Err(e),
                    Ok(d) => Ok((d, seq![TableRowView { key: Seq::empty(), values }])),
                },
            },
        },
    }
}

/// Reads the one row of a table without parents.
fn parse_unconditional<'a>(cur: Cursor<'a>) -> (r: Result<
    (Cursor<'a>, Vec<TableRow>),
    ParseError,
>)
    ensures
        agrees(r, spec_unconditional(cur@)),
{
    proof {
        reveal(spec_unconditional);
    }
    let a = match token(cur, "table") {
        Ok(a) => a,
        Err(e) => {
            return Err(e);
        },
    };
    let b = match separator1(a) {
        Ok(b) => b,
        Err(e) => {
            return Err(e);
        },
    };
    let (c, values) = match parse_probabilities(b) {
        Ok(found) => found,
        Err(e) => {
            return Err(e);
        },
    };
    let d = match lexeme(c, ";") {
        Ok(d) => d,
        Err(e) => {
            return Err(e);
        },
    };
    let key: Vec<String> = Vec::new();
    let row = TableRow { key, values };
    let mut rows: Vec<TableRow> = Vec::new();
    let ghost empty = rows;
    rows.push(row);
    proof {
        lemma_deep_view_empty(key);
        lemma_deep_view_empty(empty);
        lemma_deep_view_push(empty, rows, row);
        assert(rows.deep_view() =~= seq![row.deep_view()]);
    }
    Ok((d, rows))
}

/// One row of a table with parents: between `(` and `)` one state label
/// for each of the `parents`, at least one separator, the probabilities,
/// and `;`.
#[verifier::opaque]
pub open spec fn spec_row(i: Input, parents: nat) -> Parsed<TableRowView> {
    match spec_token(i, "("@) {
        Err(e) => Err(e),
        Ok(a) => match spec_names(a) {
            Err(e) => Err(e),
            Ok((b, key)) => match spec_lexeme(b, ")"@) {
                Err(e) => Err(e),
                Ok(c) => if key.len() != parents {
                    Err(fault(ErrorKindView::MalformedTable, i.offset))
                } else {
                    match spec_separator1(c) {
                        Err(e) => Err(e),
                        Ok(d) => match spec_probabilities(d) {
                            Err(e) => Err(e),
                            Ok((f, values)) => match spec_lexeme(f, ";"@) {
                                Err(e) => Err(e),
                                Ok(g) => Ok((g, TableRowView { key, values })),
                            },
                        },
                    }
                },
            },
        },
    }
}

/// Reads one row of a table with parents.
pub fn parse_row<'a>(cur: Cursor<'a>, parents: usize) -> (r: Result<
    (Cursor<'a>, TableRow),
    ParseError,
>)
    ensures
        agrees(r, spec_row(cur@, parents as nat)),
{
    proof {
        reveal(spec_row);
    }
    let a = match token(cur, "(") {
        Ok(a) => a,
        Err(e) => {
            return Err(e);
        },
    };
    let (b, key) = match parse_names(a) {
        Ok(found) => found,
        Err(e) => {
            return Err(e);
        },
    };
    let c = match lexeme(b, ")") {
        Ok(c) => c,
        Err(e) => {
            return Err(e);
        },
    };
    if key.len() != parents {
        return Err(fail(ErrorKind::MalformedTable, cur));
    }
    let d = match separator1(c) {
        Ok(d) => d,
        Err(e) => {
            return Err(e);
        },
    };
    let (f, values) = match parse_probabilities(d) {
        Ok(found) => found,
        Err(e) => {
            return Err(e);
        },
    };
    match lexeme(f, ";") {
        Ok(g) => Ok((g, TableRow { key, values })),
        Err(e) => Err(e),
    }
}

/// A row is not empty.
pub proof fn lemma_row_advances(i: Input, parents: nat)
    ensures
        advances(i, spec_row(i, parents)),
{
    reveal(spec_row);
    reveal_strlit("(");
    lemma_token_shrinks(i, "("@);
    if let Ok(a) = spec_token(i, "("@) {
        lemma_names_advance(a);
        if let Ok((b, _)) = spec_names(a) {
            lemma_token_shrinks(b, ")"@);
            if let Ok(c) = spec_lexeme(b, ")"@) {
                lemma_token_shrinks(c, ")"@);
                if let Ok(d) = spec_separator1(c) {
                    lemma_probabilities_advance(d);
                    if let Ok((f, _)) = spec_probabilities(d) {
                        lemma_token_shrinks(f, ";"@);
                    }
                }
            }
        }
    }
}

/// The rows of a table with parents: for as long as `(` follows the
/// separators, one more row. The rows end before the separators that no
/// `(` follows.
pub open spec fn spec_rows(i: Input, parents: nat) -> Parsed<Seq<TableRowView>>
    decreases i.rest.len(),
{
    let j = spec_separators(i);
    if j.starts_with("("@) {
        match spec_row(j, parents) {
            Err(e) => Err(e),
            Ok((k, row)) => {
                proof {
                    lemma_separators_shrink(i);
                    lemma_row_advances(j, parents);
                }
                prepend(seq![row], spec_rows(k, parents))
            },
        }
    } else {
        Ok((i, Seq::empty()))
    }
}

/// Reads the rows of a table with parents.
pub fn parse_rows<'a>(cur: Cursor<'a>, parents: usize) -> (r: Result<
    (Cursor<'a>, Vec<TableRow>),
    ParseError,
>)
    ensures
        agrees(r, spec_rows(cur@, parents as nat)),
{
    let mut rows: Vec<TableRow> = Vec::new();
    let mut at = cur;
    proof {
        lemma_deep_view_empty(rows);
        match spec_rows(cur@, parents as nat) {
            Ok((j, tail)) => {
                assert(rows.deep_view() + tail =~= tail);
            },
            Err(e) => {},
        }
    }
    loop
        invariant
            spec_rows(cur@, parents as nat) == prepend(
                rows.deep_view(),
                spec_rows(at@, parents as nat),
            ),
        decreases at@.rest.len(),
    {
        let j = skip_separators(at);
        if j.tag("(").is_none() {
            proof {
                lemma_prepend_end(rows.deep_view(), at@);
            }
            return Ok((at, rows));
        }
        proof {
            lemma_separators_shrink(at@);
            lemma_row_advances(j@, parents as nat);
        }
        match parse_row(j, parents) {
            Err(e) => {
                return Err(e);
            },
            Ok((k, row)) => {
                let ghost before = rows;
                rows.push(row);
                proof {
                    lemma_deep_view_push(before, rows, row);
                    lemma_prepend_push(
                        before.deep_view(),
                        row.deep_view(),
                        spec_rows(k@, parents as nat),
                    );
                }
                at = k;
            },
        }
    }
}

/// The rows may be none.
pub proof fn lemma_rows_shrink(i: Input, parents: nat)
    ensures
        shrinks(i, spec_rows(i, parents)),
    decreases i.rest.len(),
{
    let j = spec_separators(i);
    lemma_separators_shrink(i);
    lemma_row_advances(j, parents);
    if j.starts_with("("@) {
        if let Ok((k, _)) = spec_row(j, parents) {
            lemma_rows_shrink(k, parents);
        }
    }
}

/// The table of a probability block whose header names `parents` parents.
/// Where `table` follows the separators, the table has the form without
/// parents, which is in order only where there are none. Where `(` follows
/// them, it has the form with parents. Nothing else is a table.
#[verifier::opaque]
pub open spec fn spec_table(i: Input, parents: nat) -> Parsed<Seq<TableRowView>> {
    let j = spec_separators(i);
    if j.starts_with("table"@) {
        if parents != 0 {
            Err(fault(ErrorKindView::MalformedTable, j.offset))
        } else {
            spec_unconditional(j)
        }
    } else if j.starts_with("("@) {
        spec_rows(i, parents)
    } else {
        Err(fault(ErrorKindView::MalformedTable, j.offset))
    }
}

/// Reads the table of a probability block.
pub fn parse_table<'a>(cur: Cursor<'a>, parents: usize) -> (r: Result<
    (Cursor<'a>, Vec<TableRow>),
    ParseError,
>)
    ensures
        agrees(r, spec_table(cur@, parents as nat)),
{
    proof {
        reveal(spec_table);
    }
    let j = skip_separators(cur);
    if j.tag("table").is_some() {
        if parents != 0 {
            Err(fail(ErrorKind::MalformedTable, j))
        } else {
            parse_unconditional(j)
        }
    } else if j.tag("(").is_some() {
        parse_rows(cur, parents)
    } else {
        Err(fail(ErrorKind::MalformedTable, j))
    }
}

/// A probability block: the header, and between `{` and `}` the table.
#[verifier::opaque]
pub open spec fn spec_probability(i: Input) -> Parsed<ProbabilityView> {
    match spec_header(i) {
        Err(e) => Err(e),
        Ok((a, (variable, parents))) => match spec_lexeme(a, "{"@) {
            Err(e) => Err(e),
            Ok(b) => match spec_table(b, parents.len()) {
                Err(e) => Err(e),
                Ok((c, table)) => match spec_lexeme(c, "}"@) {
                    Err(e) => Err(e),
                    Ok(d) => Ok(
                        (
                            d,
                            ProbabilityView {
                                variable,
                                parents,
                                table,
                                properties: Seq::empty(),
                                position: i.offset,
                            },
                        ),
                    ),
                },
            },
        },
    }
}

/// Reads a probability block.
pub fn parse_probability<'a>(cur: Cursor<'a>) -> (r: Result<
    (Cursor<'a>, Probability),
    ParseError,
>)
    ensures
        agrees(r, spec_probability(cur@)),
{
    proof {
        reveal(spec_probability);
    }
    let (a, (variable, parents)) = match parse_header(cur) {
        Ok(found) => found,
        Err(e) => {
            return Err(e);
        },
    };
    let b = match lexeme(a, "{") {
        Ok(b) => b,
        Err(e) => {
            return Err(e);
        },
    };
    let (c, table) = match parse_table(b, parents.len()) {
        Ok(found) => found,
        Err(e) => {
            return Err(e);
        },
    };
    let d = match lexeme(c, "}") {
        Ok(d) => d,
        Err(e) => {
            return Err(e);
        },
    };
    let properties: Vec<Property> = Vec::new();
    proof {
        lemma_deep_view_empty(properties);
    }
    Ok((d, Probability { variable, parents, table, properties, position: cur.offset() }))
}

/// The parents in a header may be none.
pub proof fn lemma_parents_shrink(i: Input)
    ensures
        shrinks(i, spec_parents(i)),
{
    reveal(spec_parents);
    reveal_strlit("|");
    let j = spec_separators(i);
    lemma_separators_shrink(i);
    if j.starts_with("|"@) {
        lemma_advance_onward(j, 1);
        lemma_names_advance(j.advance(1));
    }
}

/// A header is not empty.
pub proof fn lemma_header_advances(i: Input)
    ensures
        advances(i, spec_header(i)),
{
    reveal(spec_header);
    lemma_token_shrinks(i, "probability"@);
    if let Ok(a) = spec_token(i, "probability"@) {
        lemma_token_shrinks(a, "("@);
        if let Ok(b) = spec_lexeme(a, "("@) {
            lemma_separators_shrink(b);
            lemma_name_advances(spec_separators(b));
            if let Ok((c, _)) = spec_name(spec_separators(b)) {
                lemma_parents_shrink(c);
                if let Ok((d, _)) = spec_parents(c) {
                    lemma_token_shrinks(d, ")"@);
                }
            }
        }
    }
}

/// The one row of a table without parents is not empty.
pub proof fn lemma_unconditional_advances(i: Input)
    ensures
        advances(i, spec_unconditional(i)),
{
    reveal(spec_unconditional);
    lemma_token_shrinks(i, "table"@);
    if let Ok(a) = spec_token(i, "table"@) {
        lemma_token_shrinks(a, "table"@);
        if let Ok(b) = spec_separator1(a) {
            lemma_probabilities_advance(b);
            if let Ok((c, _)) = spec_probabilities(b) {
                lemma_token_shrinks(c, ";"@);
            }
        }
    }
}

/// A table is read forward.
pub proof fn lemma_table_shrinks(i: Input, parents: nat)
    ensures
        shrinks(i, spec_table(i, parents)),
{
    reveal(spec_table);
    lemma_separators_shrink(i);
    lemma_unconditional_advances(spec_separators(i));
    lemma_rows_shrink(i, parents);
}

/// A probability block is not empty.
pub proof fn lemma_probability_advances(i: Input)
    ensures
        advances(i, spec_probability(i)),
{
    reveal(spec_probability);
    lemma_header_advances(i);
    if let Ok((a, (_, parents))) = spec_header(i) {
        lemma_token_shrinks(a, "{"@);
        if let Ok(b) = spec_lexeme(a, "{"@) {
            lemma_table_shrinks(b, parents.len());
            if let Ok((c, _)) = spec_table(b, parents.len()) {
                lemma_token_shrinks(c, "}"@);
            }
        }
    }
}

} // verus!
