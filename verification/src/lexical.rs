//! The tokens of the grammar: separators, literals, names, quoted strings
//! and numbers.

use vstd::prelude::*;
use vstd::string::StringExecFns;
use vstd::utf8::is_ascii_chars_encode_utf8;
use crate::error::{ErrorKind, ErrorKindView, ParseError, ParseErrorView, fault};
use crate::scan::{Cursor, Input};
use crate::text::{CharClass, lemma_run_len, lemma_utf8_len_split, run_len};

verus! {

/// What a rule of the grammar makes of a position: the position behind what
/// it recognised and the value it built, or an error.
pub type Parsed<V> = Result<(Input, V), ParseErrorView>;

/// What a rule that builds no value makes of a position.
pub type Moved = Result<Input, ParseErrorView>;

/// Whether the outcome `r` of a rule is the outcome `s` that the grammar
/// describes.
pub open spec fn agrees<'a, T: DeepView>(
    r: Result<(Cursor<'a>, T), ParseError>,
    s: Parsed<T::V>,
) -> bool {
    match r {
        Ok((c, v)) => s == Ok::<(Input, T::V), ParseErrorView>((c@, v.deep_view())),
        Err(e) => s == Err::<(Input, T::V), ParseErrorView>(e@),
    }
}

/// Whether the outcome `r` of a rule that builds no value is the outcome `s`
/// that the grammar describes.
pub open spec fn reaches<'a>(r: Result<Cursor<'a>, ParseError>, s: Moved) -> bool {
    match r {
        Ok(c) => s == Ok::<Input, ParseErrorView>(c@),
        Err(e) => s == Err::<Input, ParseErrorView>(e@),
    }
}

/// The error of kind `kind` at the position `at`.
pub fn fail<'a>(kind: ErrorKind, at: Cursor<'a>) -> (e: ParseError)
    ensures
        e@ == fault(kind@, at@.offset),
{
    ParseError { kind, position: at.offset() }
}

/// The position behind the separators that begin at `i`: white space and
/// comments, each of which runs from `//` to the end of its line.
pub open spec fn spec_separators(i: Input) -> Input
    decreases i.rest.len(),
{
    let j = i.skip_run(CharClass::Space);
    if j.starts_with("//"@) {
        proof {
            reveal_strlit("//");
            lemma_run_len(i.rest, CharClass::Space);
            lemma_run_len(j.advance(2).rest, CharClass::Comment);
        }
        spec_separators(j.advance(2).skip_run(CharClass::Comment))
    } else {
        j
    }
}

/// Whether the position `j` lies at or behind the position `i` of one
/// document: no more text is left at `j` than at `i`, and the document ends
/// where it ended.
pub open spec fn onward(i: Input, j: Input) -> bool {
    j.rest.len() <= i.rest.len() && j.end() == i.end()
}

/// A step forward leaves the end of the document where it is.
pub proof fn lemma_advance_onward(i: Input, n: int)
    requires
        0 <= n <= i.rest.len(),
    ensures
        onward(i, i.advance(n)),
        i.advance(n).rest.len() == i.rest.len() - n,
{
    lemma_utf8_len_split(i.rest, n);
}

/// A step over a run leaves the end of the document where it is, and is a
/// step forward where the run is not empty.
pub proof fn lemma_run_onward(i: Input, class: CharClass)
    ensures
        onward(i, i.skip_run(class)),
        i.starts_in(class) ==> i.skip_run(class).rest.len() < i.rest.len(),
{
    lemma_run_len(i.rest, class);
    lemma_advance_onward(i, run_len(i.rest, class) as int);
}

/// Separators consume text and leave the end of the document where it is.
pub proof fn lemma_separators_shrink(i: Input)
    ensures
        onward(i, spec_separators(i)),
    decreases i.rest.len(),
{
    let j = i.skip_run(CharClass::Space);
    lemma_run_onward(i, CharClass::Space);
    if j.starts_with("//"@) {
        reveal_strlit("//");
        lemma_advance_onward(j, 2);
        lemma_run_onward(j.advance(2), CharClass::Comment);
        lemma_separators_shrink(j.advance(2).skip_run(CharClass::Comment));
    }
}

/// Steps over white space and comments.
pub fn skip_separators<'a>(cur: Cursor<'a>) -> (c: Cursor<'a>)
    ensures
        c@ == spec_separators(cur@),
{
    let mut c = cur;
    loop
        invariant
            spec_separators(c@) == spec_separators(cur@),
        decreases c@.rest.len(),
    {
        let j = c.skip_spaces();
        proof {
            reveal_strlit("//");
            lemma_run_len(c@.rest, CharClass::Space);
        }
        match j.tag("//") {
            Some(k) => {
                let (l, _) = k.take_while(CharClass::Comment);
                proof {
                    lemma_run_len(k@.rest, CharClass::Comment);
                }
                c = l;
            },
            None => {
                return j;
            },
        }
    }
}

/// At least one separator: the position behind the separators that begin at
/// `i`, where white space or a comment begins there.
pub open spec fn spec_separator1(i: Input) -> Moved {
    if i.starts_in(CharClass::Space) || i.starts_with("//"@) {
        Ok(spec_separators(i))
    } else {
        Err(fault(ErrorKindView::UnexpectedToken, i.offset))
    }
}

/// Steps over white space and comments, of which there must be some.
pub fn separator1<'a>(cur: Cursor<'a>) -> (r: Result<Cursor<'a>, ParseError>)
    ensures
        reaches(r, spec_separator1(cur@)),
{
    if cur.starts_in(CharClass::Space) || cur.tag("//").is_some() {
        Ok(skip_separators(cur))
    } else {
        Err(fail(ErrorKind::UnexpectedToken, cur))
    }
}

/// The position behind `literal`, which must begin at `i`.
pub open spec fn spec_token(i: Input, literal: Seq<char>) -> Moved {
    if i.starts_with(literal) {
        Ok(i.advance(literal.len() as int))
    } else {
        Err(fault(ErrorKindView::UnexpectedToken, i.offset))
    }
}

/// Steps over `literal`, which must begin at `cur`.
pub fn token<'a>(cur: Cursor<'a>, literal: &str) -> (r: Result<Cursor<'a>, ParseError>)
    ensures
        reaches(r, spec_token(cur@, literal@)),
{
    match cur.tag(literal) {
        Some(c) => Ok(c),
        None => Err(fail(ErrorKind::UnexpectedToken, cur)),
    }
}

/// The position behind `literal`, which must follow the separators, if any,
/// that begin at `i`.
pub open spec fn spec_lexeme(i: Input, literal: Seq<char>) -> Moved {
    spec_token(spec_separators(i), literal)
}

/// Steps over separators, if there are any, and then over `literal`.
pub fn lexeme<'a>(cur: Cursor<'a>, literal: &str) -> (r: Result<Cursor<'a>, ParseError>)
    ensures
        reaches(r, spec_lexeme(cur@, literal@)),
{
    token(skip_separators(cur), literal)
}

/// A name: the run of alphanumeric characters and underscores that begins at
/// `i`, which must not be empty.
pub open spec fn spec_name(i: Input) -> Parsed<Seq<char>> {
    if i.starts_in(CharClass::Name) {
        Ok((i.skip_run(CharClass::Name), i.run(CharClass::Name)))
    } else {
        Err(fault(ErrorKindView::UnexpectedToken, i.offset))
    }
}

/// Reads a name. No separator is skipped before it.
pub fn parse_name<'a>(cur: Cursor<'a>) -> (r: Result<(Cursor<'a>, String), ParseError>)
    ensures
        agrees(r, spec_name(cur@)),
{
    match cur.take_while1(CharClass::Name) {
        Some((c, run)) => Ok((c, String::from_str(run))),
        None => Err(fail(ErrorKind::UnexpectedToken, cur)),
    }
}

/// A quoted string: a double quote, the characters up to the next double
/// quote, which are its value, and that double quote.
pub open spec fn spec_string(i: Input) -> Parsed<Seq<char>> {
    if !i.starts_with("\""@) {
        Err(fault(ErrorKindView::UnexpectedToken, i.offset))
    } else {
        let body = i.advance(1);
        let end = body.skip_run(CharClass::Quoted);
        if end.rest.len() == 0 {
            Err(fault(ErrorKindView::UnterminatedString, i.offset))
        } else {
            Ok((end.advance(1), body.run(CharClass::Quoted)))
        }
    }
}

/// Reads a quoted string and hands back what stands between the quotes.
pub fn parse_string<'a>(cur: Cursor<'a>) -> (r: Result<(Cursor<'a>, String), ParseError>)
    ensures
        agrees(r, spec_string(cur@)),
{
    proof {
        reveal_strlit("\"");
    }
    match cur.tag("\"") {
        None => Err(fail(ErrorKind::UnexpectedToken, cur)),
        Some(body) => {
            let (end, run) = body.take_while(CharClass::Quoted);
            proof {
                lemma_run_len(body@.rest, CharClass::Quoted);
            }
            match end.tag("\"") {
                None => {
                    assert(end@.rest.len() > 0 ==> end@.rest[0] == '"');
                    assert(end@.rest.len() > 0 ==> "\""@.is_prefix_of(end@.rest));
                    Err(fail(ErrorKind::UnterminatedString, cur))
                },
                Some(after) => Ok((after, String::from_str(run))),
            }
        },
    }
}

/// The number that the decimal digits `s` write.
pub open spec fn decimal_value(s: Seq<char>) -> nat
    decreases s.len(),
{
    if s.len() == 0 {
        0
    } else {
        decimal_value(s.drop_last()) * 10 + (s.last() as nat - '0' as nat) as nat
    }
}

/// Digits written behind a number do not make it smaller.
pub proof fn lemma_decimal_prefix(s: Seq<char>, k: int)
    requires
        0 <= k <= s.len(),
        forall|j: int| 0 <= j < s.len() ==> CharClass::Digit.has(#[trigger] s[j]),
    ensures
        decimal_value(s.take(k)) <= decimal_value(s),
    decreases s.len() - k,
{
    if k < s.len() {
        assert(s.take(k + 1).drop_last() =~= s.take(k));
        lemma_decimal_prefix(s, k + 1);
    } else {
        assert(s.take(k) =~= s);
    }
}

/// An unsigned integer: the run of decimal digits that begins at `i`, which
/// must not be empty and must write a number that a `u32` holds.
pub open spec fn spec_u32(i: Input) -> Parsed<u32> {
    if !i.starts_in(CharClass::Digit) || decimal_value(i.run(CharClass::Digit)) > u32::MAX {
        Err(fault(ErrorKindView::InvalidNumber, i.offset))
    } else {
        Ok((i.skip_run(CharClass::Digit), decimal_value(i.run(CharClass::Digit)) as u32))
    }
}

/// Reads an unsigned integer.
pub fn parse_u32<'a>(cur: Cursor<'a>) -> (r: Result<(Cursor<'a>, u32), ParseError>)
    ensures
        agrees(r, spec_u32(cur@)),
{
    match cur.take_while1(CharClass::Digit) {
        None => Err(fail(ErrorKind::InvalidNumber, cur)),
        Some((c, run)) => {
            let bytes = run.as_bytes();
            proof {
                lemma_run_len(cur@.rest, CharClass::Digit);
                is_ascii_chars_encode_utf8(run@);
            }
            let mut value: u32 = 0;
            let mut k: usize = 0;
            while k < bytes.len()
                invariant
                    cur@.starts_in(CharClass::Digit),
                    run@ == cur@.run(CharClass::Digit),
                    k <= bytes@.len() == run@.len(),
                    forall|j: int| 0 <= j < run@.len() ==> CharClass::Digit.has(#[trigger] run@[j]),
                    forall|j: int| 0 <= j < run@.len() ==> run@[j] as u8 == #[trigger] bytes@[j],
                    value == decimal_value(run@.take(k as int)),
                decreases bytes@.len() - k,
            {
                let digit: u64 = (bytes[k] - 48) as u64;
                let next: u64 = value as u64 * 10 + digit;
                proof {
                    assert(CharClass::Digit.has(run@[k as int]));
                    assert(run@.take(k + 1).drop_last() =~= run@.take(k as int));
                    assert(next == decimal_value(run@.take(k + 1)));
                    lemma_decimal_prefix(run@, k + 1);
                }
                if next > u32::MAX as u64 {
                    return Err(fail(ErrorKind::InvalidNumber, cur));
                }
                value = next as u32;
                k += 1;
            }
            proof {
                assert(run@.take(k as int) =~= run@);
            }
            Ok((c, value))
        },
    }
}

/// The text that lies between the position `from` and the later position
/// `to` of one document.
pub open spec fn text_between(from: Input, to: Input) -> Seq<char> {
    from.rest.take(from.rest.len() - to.rest.len())
}

/// The position behind the minus sign that may begin at `i`.
pub open spec fn spec_sign(i: Input) -> Input {
    if i.starts_with("-"@) {
        i.advance(1)
    } else {
        i
    }
}

/// The position behind the fraction that may begin at `i`: a point and at
/// least one digit.
pub open spec fn spec_fraction(i: Input) -> Input {
    if i.starts_with("."@) && i.advance(1).starts_in(CharClass::Digit) {
        i.advance(1).skip_run(CharClass::Digit)
    } else {
        i
    }
}

/// The position behind the exponent that may begin at `i`: `e` or `E`, a
/// sign or none, and at least one digit.
pub open spec fn spec_exponent(i: Input) -> Input {
    if i.starts_with("e"@) || i.starts_with("E"@) {
        let s = i.advance(1);
        let t = if s.starts_with("+"@) || s.starts_with("-"@) {
            s.advance(1)
        } else {
            s
        };
        if t.starts_in(CharClass::Digit) {
            t.skip_run(CharClass::Digit)
        } else {
            i
        }
    } else {
        i
    }
}

/// A decimal number: a minus sign or none, at least one digit, a fraction or
/// none, an exponent or none. Its value is the text as it is written.
pub open spec fn spec_f64(i: Input) -> Parsed<Seq<char>> {
    if !spec_sign(i).starts_in(CharClass::Digit) {
        Err(fault(ErrorKindView::InvalidNumber, i.offset))
    } else {
        let end = spec_exponent(spec_fraction(spec_sign(i).skip_run(CharClass::Digit)));
        Ok((end, text_between(i, end)))
    }
}

/// Whether the position `to` lies at or behind the position `from` of one
/// document.
pub open spec fn follows(from: Input, to: Input) -> bool {
    &&& to.rest.len() <= from.rest.len()
    &&& to.rest == from.rest.skip(from.rest.len() - to.rest.len())
}

/// A step forward leads to a later position, and the text between the two
/// is what was stepped over.
pub proof fn lemma_follows_step(from: Input, m: int)
    requires
        0 <= m <= from.rest.len(),
    ensures
        follows(from, from.advance(m)),
        text_between(from, from.advance(m)) == from.rest.take(m),
{
}

/// A position lies at itself, and no text lies between.
pub proof fn lemma_follows_self(at: Input)
    ensures
        follows(at, at),
        text_between(at, at) == Seq::<char>::empty(),
{
    assert(at.rest.skip(0) =~= at.rest);
    assert(at.rest.take(0) =~= Seq::<char>::empty());
}

/// Later positions line up, and the texts between them join.
pub proof fn lemma_follows_chain(a: Input, b: Input, c: Input)
    requires
        follows(a, b),
        follows(b, c),
    ensures
        follows(a, c),
        text_between(a, c) == text_between(a, b) + text_between(b, c),
{
    let k = a.rest.len() - b.rest.len();
    let m = b.rest.len() - c.rest.len();
    assert(a.rest.skip(k).skip(m) =~= a.rest.skip(k + m));
    assert(a.rest.take(k) + a.rest.skip(k).take(m) =~= a.rest.take(k + m));
}

/// Steps over a minus sign, if one begins at `at`, and writes it to `text`.
fn read_sign<'a>(at: Cursor<'a>, text: &mut String) -> (c: Cursor<'a>)
    ensures
        c@ == spec_sign(at@),
        follows(at@, c@),
        final(text)@ == old(text)@ + text_between(at@, c@),
{
    proof {
        reveal_strlit("-");
        lemma_follows_self(at@);
        assert(text@ + Seq::<char>::empty() =~= text@);
    }
    match at.tag("-") {
        Some(c) => {
            proof {
                lemma_follows_step(at@, 1);
                assert(at@.rest.take(1) =~= "-"@);
            }
            text.append("-");
            c
        },
        None => at,
    }
}

/// Steps over a fraction, if one begins at `at`, and writes it to `text`.
fn read_fraction<'a>(at: Cursor<'a>, text: &mut String) -> (c: Cursor<'a>)
    ensures
        c@ == spec_fraction(at@),
        follows(at@, c@),
        final(text)@ == old(text)@ + text_between(at@, c@),
{
    proof {
        reveal_strlit(".");
        lemma_follows_self(at@);
        assert(text@ + Seq::<char>::empty() =~= text@);
    }
    if let Some(point) = at.tag(".") {
        if let Some((c, digits)) = point.take_while1(CharClass::Digit) {
            proof {
                lemma_run_len(point@.rest, CharClass::Digit);
                lemma_follows_step(at@, 1);
                lemma_follows_step(point@, digits@.len() as int);
                lemma_follows_chain(at@, point@, c@);
                assert(at@.rest.take(1) =~= "."@);
                assert(old(text)@ + ("."@ + digits@) =~= old(text)@ + "."@ + digits@);
            }
            text.append(".");
            text.append(digits);
            return c;
        }
    }
    at
}

/// Steps over an exponent, if one begins at `at`, and writes it to `text`.
fn read_exponent<'a>(at: Cursor<'a>, text: &mut String) -> (c: Cursor<'a>)
    ensures
        c@ == spec_exponent(at@),
        follows(at@, c@),
        final(text)@ == old(text)@ + text_between(at@, c@),
{
    proof {
        reveal_strlit("e");
        reveal_strlit("E");
        lemma_follows_self(at@);
        assert(text@ + Seq::<char>::empty() =~= text@);
    }
    let (marker, letter) = match at.tag("e") {
        Some(c) => (c, "e"),
        None => match at.tag("E") {
            Some(c) => (c, "E"),
            None => {
                return at;
            },
        },
    };
    assert(at@.rest.take(1) =~= letter@);
    let mut sign = String::new();
    let digits_at = read_exponent_sign(marker, &mut sign);
    assert(sign@ =~= text_between(marker@, digits_at@));
    if let Some((c, digits)) = digits_at.take_while1(CharClass::Digit) {
        proof {
            lemma_run_len(digits_at@.rest, CharClass::Digit);
            lemma_follows_step(at@, 1);
            lemma_follows_step(digits_at@, digits@.len() as int);
            lemma_follows_chain(at@, marker@, digits_at@);
            lemma_follows_chain(at@, digits_at@, c@);
            assert(old(text)@ + (letter@ + sign@ + digits@) =~= old(text)@ + letter@ + sign@
                + digits@);
        }
        text.append(letter);
        text.append(sign.as_str());
        text.append(digits);
        return c;
    }
    at
}

/// Steps over the sign of an exponent, if one begins at `at`, and writes it
/// to `text`.
fn read_exponent_sign<'a>(at: Cursor<'a>, text: &mut String) -> (c: Cursor<'a>)
    ensures
        c@ == (if at@.starts_with("+"@) || at@.starts_with("-"@) {
            at@.advance(1)
        } else {
            at@
        }),
        follows(at@, c@),
        final(text)@ == old(text)@ + text_between(at@, c@),
{
    proof {
        reveal_strlit("+");
        reveal_strlit("-");
        lemma_follows_self(at@);
        assert(text@ + Seq::<char>::empty() =~= text@);
    }
    if let Some(c) = at.tag("+") {
        proof {
            lemma_follows_step(at@, 1);
            assert(at@.rest.take(1) =~= "+"@);
        }
        text.append("+");
        return c;
    }
    if let Some(c) = at.tag("-") {
        proof {
            lemma_follows_step(at@, 1);
            assert(at@.rest.take(1) =~= "-"@);
        }
        text.append("-");
        return c;
    }
    at
}

/// Reads a decimal number and hands back its text.
pub fn parse_f64<'a>(cur: Cursor<'a>) -> (r: Result<(Cursor<'a>, String), ParseError>)
    ensures
        agrees(r, spec_f64(cur@)),
{
    let mut text = String::new();
    let signed = read_sign(cur, &mut text);
    let (whole, digits) = match signed.take_while1(CharClass::Digit) {
        None => {
            return Err(fail(ErrorKind::InvalidNumber, cur));
        },
        Some(found) => found,
    };
    text.append(digits);
    let fraction = read_fraction(whole, &mut text);
    let end = read_exponent(fraction, &mut text);
    proof {
        lemma_run_len(signed@.rest, CharClass::Digit);
        lemma_follows_step(signed@, digits@.len() as int);
        lemma_follows_chain(cur@, signed@, whole@);
        lemma_follows_chain(cur@, whole@, fraction@);
        lemma_follows_chain(cur@, fraction@, end@);
        assert(text@ =~= text_between(cur@, end@));
    }
    Ok((end, text))
}

/// Whether a rule with the outcome `r` at `i` has stayed in the document:
/// it has read on or stayed where it was, or has failed at an offset of
/// the document.
pub open spec fn shrinks<V>(i: Input, r: Parsed<V>) -> bool {
    match r {
        Ok((j, _)) => onward(i, j),
        Err(e) => e.position <= i.end(),
    }
}

/// Whether a rule with the outcome `r` at `i` has read on, or has failed
/// at an offset of the document.
pub open spec fn advances<V>(i: Input, r: Parsed<V>) -> bool {
    match r {
        Ok((j, _)) => onward(i, j) && j.rest.len() < i.rest.len(),
        Err(e) => e.position <= i.end(),
    }
}

/// Whether a rule that builds no value, with the outcome `r` at `i`, has
/// stayed in the document.
pub open spec fn moves(i: Input, r: Moved) -> bool {
    match r {
        Ok(j) => onward(i, j),
        Err(e) => e.position <= i.end(),
    }
}

/// A literal is read off the front of the text.
pub proof fn lemma_token_shrinks(i: Input, literal: Seq<char>)
    ensures
        moves(i, spec_token(i, literal)),
        moves(i, spec_lexeme(i, literal)),
        moves(i, spec_separator1(i)),
        spec_token(i, literal) matches Ok(j) ==> j.rest.len() + literal.len() == i.rest.len(),
        spec_lexeme(i, literal) matches Ok(j) ==> j.rest.len() + literal.len() <= i.rest.len(),
{
    let j = spec_separators(i);
    lemma_separators_shrink(i);
    if i.starts_with(literal) {
        lemma_advance_onward(i, literal.len() as int);
    }
    if j.starts_with(literal) {
        lemma_advance_onward(j, literal.len() as int);
    }
}

/// A name is not empty.
pub proof fn lemma_name_advances(i: Input)
    ensures
        advances(i, spec_name(i)),
{
    lemma_run_onward(i, CharClass::Name);
}

/// A quoted string is not empty.
pub proof fn lemma_string_advances(i: Input)
    ensures
        advances(i, spec_string(i)),
{
    reveal_strlit("\"");
    if i.starts_with("\""@) {
        let body = i.advance(1);
        let end = body.skip_run(CharClass::Quoted);
        lemma_advance_onward(i, 1);
        lemma_run_onward(body, CharClass::Quoted);
        if end.rest.len() > 0 {
            lemma_advance_onward(end, 1);
        }
    }
}

/// An unsigned integer is not empty.
pub proof fn lemma_u32_advances(i: Input)
    ensures
        advances(i, spec_u32(i)),
{
    lemma_run_onward(i, CharClass::Digit);
}

/// The parts of a number that may be missing are read forward, if at all.
pub proof fn lemma_number_parts_onward(i: Input)
    ensures
        onward(i, spec_sign(i)),
        onward(i, spec_fraction(i)),
        onward(i, spec_exponent(i)),
{
    reveal_strlit("-");
    reveal_strlit("+");
    reveal_strlit(".");
    reveal_strlit("e");
    reveal_strlit("E");
    if i.rest.len() > 0 {
        let s = i.advance(1);
        lemma_advance_onward(i, 1);
        lemma_run_onward(s, CharClass::Digit);
        if s.rest.len() > 0 {
            lemma_advance_onward(s, 1);
            lemma_run_onward(s.advance(1), CharClass::Digit);
        }
    }
}

/// A number is not empty.
pub proof fn lemma_f64_advances(i: Input)
    ensures
        advances(i, spec_f64(i)),
{
    let a = spec_sign(i);
    let b = a.skip_run(CharClass::Digit);
    let c = spec_fraction(b);
    lemma_number_parts_onward(i);
    lemma_run_onward(a, CharClass::Digit);
    lemma_number_parts_onward(b);
    lemma_number_parts_onward(c);
}

/// Whether `s` is a minus sign or nothing.
pub open spec fn is_sign(s: Seq<char>) -> bool {
    s.len() == 0 || s == seq!['-']
}

/// Whether `s` is one or more decimal digits.
pub open spec fn is_digits(s: Seq<char>) -> bool {
    s.len() > 0 && forall|k: int| 0 <= k < s.len() ==> CharClass::Digit.has(#[trigger] s[k])
}

/// Whether `s` is a point with digits behind it, or nothing.
pub open spec fn is_fraction(s: Seq<char>) -> bool {
    s.len() == 0 || (s[0] == '.' && is_digits(s.skip(1)))
}

/// Whether `s` is `e` or `E` with digits behind it, a sign or none before
/// the digits, or nothing.
pub open spec fn is_exponent(s: Seq<char>) -> bool {
    s.len() == 0 || ((s[0] == 'e' || s[0] == 'E') && (is_digits(s.skip(1)) || (s.len() > 1 && (s[1]
        == '+' || s[1] == '-') && is_digits(s.skip(2)))))
}

/// Whether `s` writes a decimal number: a minus sign or none, digits, a
/// fraction or none, an exponent or none.
pub open spec fn is_decimal(s: Seq<char>) -> bool {
    exists|sign: Seq<char>, whole: Seq<char>, fraction: Seq<char>, exponent: Seq<char>|
        #![trigger is_sign(sign), is_digits(whole), is_fraction(fraction), is_exponent(exponent)]
        s == sign + whole + fraction + exponent && is_sign(sign) && is_digits(whole)
            && is_fraction(fraction) && is_exponent(exponent)
}

/// The run of digits that begins at `i` is digits, where it is not empty.
proof fn lemma_digits_text(i: Input)
    requires
        i.starts_in(CharClass::Digit),
    ensures
        follows(i, i.skip_run(CharClass::Digit)),
        is_digits(text_between(i, i.skip_run(CharClass::Digit))),
{
    lemma_run_len(i.rest, CharClass::Digit);
    lemma_follows_step(i, run_len(i.rest, CharClass::Digit) as int);
}

/// What is read as the sign of a number is a sign.
proof fn lemma_sign_text(i: Input)
    ensures
        follows(i, spec_sign(i)),
        is_sign(text_between(i, spec_sign(i))),
{
    reveal_strlit("-");
    lemma_follows_self(i);
    if i.starts_with("-"@) {
        lemma_follows_step(i, 1);
        assert(i.rest.take(1) =~= seq!['-']);
    }
}

/// What is read as the fraction of a number is a fraction.
proof fn lemma_fraction_text(i: Input)
    ensures
        follows(i, spec_fraction(i)),
        is_fraction(text_between(i, spec_fraction(i))),
{
    reveal_strlit(".");
    lemma_follows_self(i);
    if i.starts_with("."@) && i.advance(1).starts_in(CharClass::Digit) {
        let point = i.advance(1);
        let end = point.skip_run(CharClass::Digit);
        lemma_follows_step(i, 1);
        lemma_digits_text(point);
        lemma_follows_chain(i, point, end);
        let text = text_between(i, end);
        assert(text == i.rest.take(1) + text_between(point, end));
        assert(text.skip(1) =~= text_between(point, end));
        assert(text[0] == i.rest.take(1)[0]);
    }
}

/// What is read as the exponent of a number is an exponent.
proof fn lemma_exponent_text(i: Input)
    ensures
        follows(i, spec_exponent(i)),
        is_exponent(text_between(i, spec_exponent(i))),
{
    reveal_strlit("e");
    reveal_strlit("E");
    reveal_strlit("+");
    reveal_strlit("-");
    lemma_follows_self(i);
    if i.starts_with("e"@) || i.starts_with("E"@) {
        let marker = i.advance(1);
        lemma_follows_step(i, 1);
        if marker.starts_with("+"@) || marker.starts_with("-"@) {
            let digits = marker.advance(1);
            if digits.starts_in(CharClass::Digit) {
                let end = digits.skip_run(CharClass::Digit);
                lemma_follows_step(marker, 1);
                lemma_digits_text(digits);
                lemma_follows_chain(marker, digits, end);
                lemma_follows_chain(i, marker, end);
                let text = text_between(i, end);
                assert(text == i.rest.take(1) + (marker.rest.take(1) + text_between(digits, end)));
                assert(text.skip(2) =~= text_between(digits, end));
                assert(text[0] == i.rest.take(1)[0]);
                assert(text[1] == marker.rest.take(1)[0]);
            }
        } else if marker.starts_in(CharClass::Digit) {
            let end = marker.skip_run(CharClass::Digit);
            lemma_digits_text(marker);
            lemma_follows_chain(i, marker, end);
            let text = text_between(i, end);
            assert(text == i.rest.take(1) + text_between(marker, end));
            assert(text.skip(1) =~= text_between(marker, end));
            assert(text[0] == i.rest.take(1)[0]);
        }
    }
}

/// What is read as a number writes a decimal number.
pub proof fn lemma_f64_decimal(i: Input)
    ensures
        spec_f64(i) matches Ok((_, text)) ==> is_decimal(text),
{
    let a = spec_sign(i);
    if a.starts_in(CharClass::Digit) {
        let b = a.skip_run(CharClass::Digit);
        let c = spec_fraction(b);
        let d = spec_exponent(c);
        lemma_sign_text(i);
        lemma_digits_text(a);
        lemma_fraction_text(b);
        lemma_exponent_text(c);
        lemma_follows_chain(i, a, b);
        lemma_follows_chain(i, b, c);
        lemma_follows_chain(i, c, d);
        let sign = text_between(i, a);
        let whole = text_between(a, b);
        let fraction = text_between(b, c);
        let exponent = text_between(c, d);
        assert(text_between(i, d) == sign + whole + fraction + exponent);
        assert(is_sign(sign) && is_digits(whole) && is_fraction(fraction) && is_exponent(exponent));
    }
}

} // verus!
