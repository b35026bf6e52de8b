//! A position in a document, and the steps that move it forward.
//!
//! The steps are `nom`'s recognisers for a literal, for a run of characters
//! and for white space. Their contracts say what each of them splits off the
//! front of the text; everything built on them is proved from that.

use vstd::prelude::*;
use vstd::slice::group_slice_axioms;
use vstd::string::StrSliceExecFns;
use crate::text::{CharClass, lemma_run_len, lemma_utf8_len_split, run_len, utf8_len};

verus! {

broadcast use group_slice_axioms;

/// A position in a document, as the grammar sees it: the text that is still
/// to be read, and the byte offset at which that text begins.
pub struct Input {
    pub rest: Seq<char>,
    pub offset: nat,
}

impl Input {
    /// The beginning of `text`.
    pub open spec fn start(text: Seq<char>) -> Input {
        Input { rest: text, offset: 0 }
    }

    /// The position `n` characters further on.
    pub open spec fn advance(self, n: int) -> Input {
        Input { rest: self.rest.skip(n), offset: self.offset + utf8_len(self.rest.take(n)) }
    }

    /// The byte offset at which the document ends.
    pub open spec fn end(self) -> nat {
        self.offset + utf8_len(self.rest)
    }

    /// Whether the text to be read begins with `literal`.
    pub open spec fn starts_with(self, literal: Seq<char>) -> bool {
        literal.is_prefix_of(self.rest)
    }

    /// Whether the text to be read begins with a character of `class`.
    pub open spec fn starts_in(self, class: CharClass) -> bool {
        self.rest.len() > 0 && class.has(self.rest[0])
    }

    /// The position behind the run of characters of `class` that begins here.
    pub open spec fn skip_run(self, class: CharClass) -> Input {
        self.advance(run_len(self.rest, class) as int)
    }

    /// The run of characters of `class` that begins here.
    pub open spec fn run(self, class: CharClass) -> Seq<char> {
        self.rest.take(run_len(self.rest, class) as int)
    }
}

/// `nom::bytes::complete::tag` on `&str`. It succeeds exactly where `input`
/// begins with `literal`, and then hands back what follows the literal.
#[verifier::external_body]
fn tag<'a>(literal: &str, input: &'a str) -> (r: Option<&'a str>)
    ensures
        r is Some <==> literal@.is_prefix_of(input@),
        r matches Some(rest) ==> rest@ == input@.skip(literal@.len() as int),
{
    let r: nom::IResult<&str, &str> = nom::bytes::complete::tag(literal)(input);
    match r {
        Ok((rest, _)) => Some(rest),
        Err(_) => None,
    }
}

/// `nom::bytes::complete::take_while` on `&str`, with membership in `class`
/// as the predicate. It never fails: it splits `input` behind the longest
/// prefix made of characters of the class, and hands back what follows and
/// that prefix.
#[verifier::external_body]
fn take_while<'a>(class: CharClass, input: &'a str) -> (r: Option<(&'a str, &'a str)>)
    ensures
        r is Some,
        r matches Some((rest, run)) ==> run@ == input@.take(run_len(input@, class) as int) && rest@
            == input@.skip(run_len(input@, class) as int),
{
    let r: nom::IResult<&str, &str> = nom::bytes::complete::take_while(
        |c: char| class.contains(c),
    )(input);
    match r {
        Ok(split) => Some(split),
        Err(_) => None,
    }
}

/// `nom::bytes::complete::take_while1` on `&str`, with membership in `class`
/// as the predicate. It fails exactly where `input` does not begin with a
/// character of the class; otherwise it splits as `take_while` does.
#[verifier::external_body]
fn take_while1<'a>(class: CharClass, input: &'a str) -> (r: Option<(&'a str, &'a str)>)
    ensures
        r is Some <==> run_len(input@, class) > 0,
        r matches Some((rest, run)) ==> run@ == input@.take(run_len(input@, class) as int) && rest@
            == input@.skip(run_len(input@, class) as int),
{
    let r: nom::IResult<&str, &str> = nom::bytes::complete::take_while1(
        |c: char| class.contains(c),
    )(input);
    match r {
        Ok(split) => Some(split),
        Err(_) => None,
    }
}

/// `nom::character::complete::multispace0` on `&str`. It never fails: it
/// hands back what follows the longest prefix made of spaces, tabs, carriage
/// returns and line feeds.
#[verifier::external_body]
fn multispace0<'a>(input: &'a str) -> (r: Option<&'a str>)
    ensures
        r is Some,
        r matches Some(rest) ==> rest@ == input@.skip(run_len(input@, CharClass::Space) as int),
{
    let r: nom::IResult<&str, &str> = nom::character::complete::multispace0(input);
    match r {
        Ok((rest, _)) => Some(rest),
        Err(_) => None,
    }
}

/// A position in a document: the text that is still to be read, and the byte
/// offset at which it begins.
#[derive(Clone, Copy, Debug)]
pub struct Cursor<'a> {
    rest: &'a str,
    offset: usize,
}

impl<'a> View for Cursor<'a> {
    type V = Input;

    closed spec fn view(&self) -> Input {
        Input { rest: self.rest@, offset: self.offset as nat }
    }
}

impl<'a> Cursor<'a> {
    /// The offset of the end of the document is a `usize`.
    #[verifier::type_invariant]
    spec fn fits(self) -> bool {
        self.offset + utf8_len(self.rest@) <= usize::MAX
    }

    /// The beginning of `text`.
    pub fn new(text: &'a str) -> (c: Self)
        ensures
            c@ == Input::start(text@),
    {
        // The bytes of a text are a slice, and so no more than a `usize` counts.
        let bytes = text.as_bytes();
        assert(utf8_len(text@) == bytes@.len() <= usize::MAX) by {
            let n = bytes.len();
        }
        Cursor { rest: text, offset: 0 }
    }

    /// The text that is still to be read.
    pub fn rest(&self) -> (r: &'a str)
        ensures
            r@ == self@.rest,
    {
        self.rest
    }

    /// The byte offset in the document at which the text to be read begins.
    pub fn offset(&self) -> (r: usize)
        ensures
            r == self@.offset,
    {
        self.offset
    }

    /// Whether the document has been read to its end.
    pub fn at_end(&self) -> (r: bool)
        ensures
            r == (self@.rest.len() == 0),
    {
        self.rest.is_empty()
    }

    /// Whether the text to be read begins with a character of `class`.
    pub fn starts_in(&self, class: CharClass) -> (r: bool)
        ensures
            r == self@.starts_in(class),
    {
        !self.rest.is_empty() && class.contains(self.rest.get_char(0))
    }

    /// The position at which `rest` begins, where `rest` is what is left of
    /// the text to be read after its first `n` characters.
    fn moved(self, rest: &'a str, Ghost(n): Ghost<int>) -> (c: Self)
        requires
            0 <= n <= self@.rest.len(),
            rest@ == self@.rest.skip(n),
        ensures
            c@ == self@.advance(n),
    {
        proof {
            use_type_invariant(&self);
            lemma_utf8_len_split(self.rest@, n);
        }
        let before = self.rest.as_bytes().len();
        let after = rest.as_bytes().len();
        Cursor { rest, offset: self.offset + (before - after) }
    }

    /// Steps over `literal` if the text to be read begins with it.
    pub fn tag(self, literal: &str) -> (r: Option<Self>)
        ensures
            r is Some <==> self@.starts_with(literal@),
            r matches Some(c) ==> c@ == self@.advance(literal@.len() as int),
    {
        match tag(literal, self.rest) {
            Some(rest) => Some(self.moved(rest, Ghost(literal@.len() as int))),
            None => None,
        }
    }

    /// Steps over the run of characters of `class` that begins here, and
    /// hands back the run.
    pub fn take_while(self, class: CharClass) -> (r: (Self, &'a str))
        ensures
            r.0@ == self@.skip_run(class),
            r.1@ == self@.run(class),
    {
        proof {
            lemma_run_len(self.rest@, class);
        }
        match take_while(class, self.rest) {
            Some((rest, run)) => (self.moved(rest, Ghost(run_len(self.rest@, class) as int)), run),
            None => (self, self.rest),
        }
    }

    /// As [`Cursor::take_while`], where the run is not empty.
    pub fn take_while1(self, class: CharClass) -> (r: Option<(Self, &'a str)>)
        ensures
            r is Some <==> self@.starts_in(class),
            r matches Some((c, run)) ==> c@ == self@.skip_run(class) && run@ == self@.run(class),
    {
        proof {
            lemma_run_len(self.rest@, class);
        }
        match take_while1(class, self.rest) {
            Some((rest, run)) => Some(
                (self.moved(rest, Ghost(run_len(self.rest@, class) as int)), run),
            ),
            None => None,
        }
    }

    /// Steps over spaces, tabs, carriage returns and line feeds.
    pub fn skip_spaces(self) -> (c: Self)
        ensures
            c@ == self@.skip_run(CharClass::Space),
    {
        proof {
            lemma_run_len(self.rest@, CharClass::Space);
        }
        match multispace0(self.rest) {
            Some(rest) => self.moved(rest, Ghost(run_len(self.rest@, CharClass::Space) as int)),
            None => self,
        }
    }
}

} // verus!
