//! The invocation parser: reads `name in A..B { body }` from a forest.
//!
//! An invocation is seven tokens: the name of the loop variable, the keyword `in`, an
//! integer literal, two dots of which the first is joint, a second integer literal and
//! a group in braces. The forest is read from left to right, and the first token that
//! does not fit is reported with its position; where the forest ends too early, the
//! position is that of its last token.
//!
//! Which texts name a variable, and which are integer literals of which digits, is for
//! `syn` to say. [`SeqParse::parse`] asks it and states what holds whatever it
//! answers; [`SeqParse::with_readings`] does the rest, and says exactly what, for each
//! answer. A text that holds an opening bracket is no name and no literal, and `syn` is
//! not asked about it.

use crate::decimal::read_number;
use crate::error::{fault, Error, ErrorKind, Fault};
use crate::expand::{is_var, MAX_DEPTH};
use crate::token::{
    check_depth, copy_forest, depth_fault, forest, lemma_fault_iff_depth, within_depth,
    Delimiter, Position, Spacing, Tok, Token,
};
use vstd::prelude::*;
use vstd::string::StringExecFns;
use vstd::string::StringSliceAdditionalSpecFns;
use vstd::utf8::encode_utf8;

verus! {

/// The byte `b` is `(`, `[` or `{`.
pub open spec fn opens(b: u8) -> bool {
    b == 0x28 || b == 0x5b || b == 0x7b
}

/// No byte of `text`, written in UTF-8, is an opening bracket. In UTF-8 a byte below
/// 128 stands only for the character of that number, so a plain text holds no opening
/// bracket, and what is read from it holds no group.
pub open spec fn plain(text: Seq<char>) -> bool {
    forall|i: int| 0 <= i < encode_utf8(text).len() ==> !opens(#[trigger] encode_utf8(text)[i])
}

/// Whether `text` is plain.
fn is_plain(text: &str) -> (b: bool)
    ensures
        b == plain(text@),
{
    let bytes = text.as_bytes();
    let mut i: usize = 0;
    while i < bytes.len()
        invariant
            i <= bytes.len(),
            bytes@ == encode_utf8(text@),
            forall|j: int| 0 <= j < i ==> !opens(#[trigger] bytes@[j]),
        decreases bytes.len() - i,
    {
        let b = bytes[i];
        if b == 0x28 || b == 0x5b || b == 0x7b {
            return false;
        }
        i = i + 1;
    }
    true
}

/// `syn::LitInt`, an integer literal as `syn` holds it. Nothing is known of what is
/// inside; a value of it is only carried from [`read_literal`] to [`literal_digits`].
#[verifier::external_type_specification]
#[verifier::external_body]
pub struct ExLitInt(syn::LitInt);

/// Calls `syn::parse_str::<syn::Ident>` on `text`, and says whether it returned an
/// identifier.
///
/// Trusted, not proved: that the call returns on a plain text. A text with brackets is
/// kept from it because `syn` descends once for each bracket that the text opens.
/// Nothing is claimed of the answer: `syn` has the text read by the lexer of
/// `proc-macro2` or by that of the compiler, whichever runs.
#[verifier::external_body]
fn read_identifier(text: &str) -> (r: bool)
    requires
        plain(text@),
{
    syn::parse_str::<syn::Ident>(text).is_ok()
}

/// Calls `syn::parse_str::<syn::LitInt>` on `text`, and hands out the literal that it
/// returned, if it returned one.
///
/// Trusted, not proved: that the call returns on a plain text. Nothing is claimed of
/// the answer, for the same reasons as for an identifier.
#[verifier::external_body]
fn read_literal(text: &str) -> (r: Option<syn::LitInt>)
    requires
        plain(text@),
{
    syn::parse_str::<syn::LitInt>(text).ok()
}

/// Calls `LitInt::base10_digits` on `literal`, and hands out a copy of the digits.
///
/// Trusted, not proved: that the call returns. Nothing is claimed of the digits; what
/// number they write is for [`read_number`] to say.
#[verifier::external_body]
fn literal_digits(literal: &syn::LitInt) -> (r: String) {
    literal.base10_digits().to_owned()
}

/// What `syn` reads from the texts of three tokens of an invocation.
#[derive(Clone, Copy, Debug, PartialEq, Eq, Structural)]
pub struct Readings {
    /// Whether the text of the first token names a variable.
    pub named: bool,
    /// The value of the first bound, where its text is an integer literal.
    pub start: Option<u64>,
    /// The value of the second bound, where its text is an integer literal.
    pub end: Option<u64>,
}

/// An invocation that was read: the loop variable, the range of indices from
/// `start_int` up to, not including, `end_int`, and the body.
#[derive(Debug, PartialEq, Eq)]
pub struct SeqParse {
    /// The name of the loop variable.
    pub variable_ident: String,
    /// The first index.
    pub start_int: u64,
    /// The index after the last one.
    pub end_int: u64,
    /// The forest between the braces.
    pub body: Vec<Token>,
}

/// The mathematical value of a [`SeqParse`].
pub struct Invocation {
    /// The name of the loop variable.
    pub variable: Seq<char>,
    /// The first index.
    pub start: int,
    /// The index after the last one.
    pub end: int,
    /// The forest between the braces.
    pub body: Seq<Tok>,
}

impl View for SeqParse {
    type V = Invocation;

    open spec fn view(&self) -> Invocation {
        Invocation {
            variable: self.variable_ident@,
            start: self.start_int as int,
            end: self.end_int as int,
            body: forest(self.body@),
        }
    }
}

impl Invocation {
    /// The range is not inverted, and the body can be rewritten.
    pub open spec fn wf(self) -> bool {
        &&& self.start <= self.end
        &&& within_depth(self.body, MAX_DEPTH as nat)
    }
}

/// The position of the token at index `k`; of the last token where the forest ends
/// before `k`; unknown where the forest is empty.
pub open spec fn position_at(ts: Seq<Tok>, k: int) -> Position {
    if 0 <= k < ts.len() {
        ts[k].pos()
    } else if ts.len() > 0 {
        ts[ts.len() - 1].pos()
    } else {
        Position::unknown()
    }
}

/// The token at index `k` is the punctuation mark `ch`.
pub open spec fn punct_at(ts: Seq<Tok>, k: int, ch: char) -> bool {
    0 <= k < ts.len() && ts[k] is Punct && ts[k]->Punct_ch == ch
}

/// The index of the first token of `ts` that does not fit an invocation, where `syn`
/// reads `read` from its name and its bounds, with what is wrong there; `None` where
/// all fit.
pub open spec fn misfit(ts: Seq<Tok>, read: Readings) -> Option<(int, ErrorKind)> {
    if !(ts.len() > 0 && ts[0] is Ident && read.named) {
        Some((0, ErrorKind::ExpectedIdent))
    } else if !(ts.len() > 1 && is_var(ts[1], "in"@)) {
        Some((1, ErrorKind::ExpectedIn))
    } else if !(ts.len() > 2 && ts[2] is Literal && read.start is Some) {
        Some((2, ErrorKind::InvalidBound))
    } else if !(punct_at(ts, 3, '.') && ts[3]->Punct_spacing == Spacing::Joint) {
        Some((3, ErrorKind::ExpectedDotDot))
    } else if !punct_at(ts, 4, '.') {
        Some((4, ErrorKind::ExpectedDotDot))
    } else if !(ts.len() > 5 && ts[5] is Literal && read.end is Some) {
        Some((5, ErrorKind::InvalidBound))
    } else if !(ts.len() > 6 && ts[6] is Group && ts[6]->Group_delimiter == Delimiter::Brace) {
        Some((6, ErrorKind::ExpectedBraces))
    } else if ts.len() > 7 {
        Some((7, ErrorKind::UnexpectedToken))
    } else {
        None
    }
}

/// What reading `ts` gives, where `syn` reads `read` from its name and its bounds.
///
/// The first token that does not fit is reported. Where every token fits, a body in
/// which groups nest deeper than [`MAX_DEPTH`] is reported. A range whose end lies
/// below its start is read as the empty range at its start.
pub open spec fn read_invocation(ts: Seq<Tok>, read: Readings) -> Result<Invocation, Fault> {
    match misfit(ts, read) {
        Some((k, kind)) => Err(fault(kind, position_at(ts, k))),
        None => match depth_fault(ts[6]->Group_inner, MAX_DEPTH as nat) {
            Some(pos) => Err(fault(ErrorKind::NestingTooDeep, pos)),
            None => Ok(
                Invocation {
                    variable: ts[0]->Ident_text,
                    start: read.start->0 as int,
                    end: if read.end->0 < read.start->0 {
                        read.start->0 as int
                    } else {
                        read.end->0 as int
                    },
                    body: ts[6]->Group_inner,
                },
            ),
        },
    }
}

/// What holds of what is read from the texts of `ts`, whatever `syn` answers: a name
/// was read only from the text of an identifier at the front, a bound only from the
/// text of a literal in its place, and both only from a plain text.
pub open spec fn may_read(ts: Seq<Tok>, read: Readings) -> bool {
    &&& read.named ==> ts.len() > 0 && ts[0] is Ident && plain(ts[0]->Ident_text)
    &&& read.start is Some ==> ts.len() > 2 && ts[2] is Literal && plain(ts[2]->Literal_text)
    &&& read.end is Some ==> ts.len() > 5 && ts[5] is Literal && plain(ts[5]->Literal_text)
}

/// The value of what a reading returned.
pub open spec fn reading(r: Result<SeqParse, Error>) -> Result<Invocation, Fault> {
    match r {
        Ok(p) => Ok(p@),
        Err(e) => Err(e@),
    }
}

/// The position of the token at index `k`, or of the last token.
pub(crate) fn position_of(input: &Vec<Token>, k: usize) -> (r: Position)
    ensures
        r == position_at(forest(input@), k as int),
{
    if k < input.len() {
        input[k].position()
    } else if input.len() > 0 {
        input[input.len() - 1].position()
    } else {
        Position { line: 0, column: 0, iteration: None }
    }
}

/// Whether `syn` reads the name of a variable from the token at index 0.
fn named(input: &Vec<Token>) -> (r: bool)
    ensures
        r ==> input.len() > 0 && forest(input@)[0] is Ident && plain(
            forest(input@)[0]->Ident_text,
        ),
{
    if input.len() > 0 {
        match &input[0] {
            Token::Ident { text, .. } => is_plain(text.as_str()) && read_identifier(
                text.as_str(),
            ),
            _ => false,
        }
    } else {
        false
    }
}

/// The value of the bound that `syn` reads from the token at index `k`.
fn bound(input: &Vec<Token>, k: usize) -> (r: Option<u64>)
    ensures
        r is Some ==> k < input.len() && forest(input@)[k as int] is Literal && plain(
            forest(input@)[k as int]->Literal_text,
        ),
{
    if k < input.len() {
        match &input[k] {
            Token::Literal { text, .. } => {
                if is_plain(text.as_str()) {
                    match read_literal(text.as_str()) {
                        Some(literal) => read_number(literal_digits(&literal).as_str()),
                        None => None,
                    }
                } else {
                    None
                }
            },
            _ => None,
        }
    } else {
        None
    }
}

/// Asks `syn` about the name and the two bounds of `input`.
pub fn read_texts(input: &Vec<Token>) -> (read: Readings)
    ensures
        may_read(forest(input@), read),
{
    Readings { named: named(input), start: bound(input, 2), end: bound(input, 5) }
}

/// Whether the punctuation mark `ch` stands at index `k`.
fn punct_here(input: &Vec<Token>, k: usize, ch: char) -> (b: bool)
    ensures
        b == punct_at(forest(input@), k as int, ch),
{
    if k < input.len() {
        match &input[k] {
            Token::Punct { ch: c, .. } => *c == ch,
            _ => false,
        }
    } else {
        false
    }
}

/// The first token that does not fit, and what is wrong there.
pub(crate) fn find_misfit(input: &Vec<Token>, read: Readings) -> (r: Option<(usize, ErrorKind)>)
    ensures
        match r {
            Some((k, kind)) => misfit(forest(input@), read) == Some((k as int, kind)),
            None => misfit(forest(input@), read) is None,
        },
{
    let ghost ts = forest(input@);
    let n = input.len();
    let name = n > 0 && read.named && match &input[0] {
        Token::Ident { .. } => true,
        _ => false,
    };
    if !name {
        return Some((0, ErrorKind::ExpectedIdent));
    }
    let keyword = String::from_str("in");
    let keyword_here = n > 1 && match &input[1] {
        Token::Ident { text, .. } => *text == keyword,
        _ => false,
    };
    if !keyword_here {
        return Some((1, ErrorKind::ExpectedIn));
    }
    let first = n > 2 && read.start.is_some() && match &input[2] {
        Token::Literal { .. } => true,
        _ => false,
    };
    if !first {
        return Some((2, ErrorKind::InvalidBound));
    }
    let joint = punct_here(input, 3, '.') && match &input[3] {
        Token::Punct { spacing, .. } => *spacing == Spacing::Joint,
        _ => false,
    };
    if !joint {
        return Some((3, ErrorKind::ExpectedDotDot));
    }
    if !punct_here(input, 4, '.') {
        return Some((4, ErrorKind::ExpectedDotDot));
    }
    let second = n > 5 && read.end.is_some() && match &input[5] {
        Token::Literal { .. } => true,
        _ => false,
    };
    if !second {
        return Some((5, ErrorKind::InvalidBound));
    }
    let braces = n > 6 && match &input[6] {
        Token::Group { delimiter, .. } => *delimiter == Delimiter::Brace,
        _ => false,
    };
    if !braces {
        return Some((6, ErrorKind::ExpectedBraces));
    }
    if n > 7 {
        return Some((7, ErrorKind::UnexpectedToken));
    }
    None
}

impl SeqParse {
    /// The invocation parser: reads an invocation from `input`.
    ///
    /// Whether the first token names a variable, and the digits of the two bounds, are
    /// what `syn` reads from the texts of those tokens. So the result is what
    /// [`SeqParse::with_readings`] gives for one reading that `syn` may have made.
    pub fn parse(input: &Vec<Token>) -> (r: Result<SeqParse, Error>)
        ensures
            exists|read: Readings| #[trigger]
                may_read(forest(input@), read) && reading(r) == read_invocation(
                    forest(input@),
                    read,
                ),
            r matches Ok(p) ==> p@.wf(),
    {
        let read = read_texts(input);
        let r = SeqParse::with_readings(input, read);
        assert(may_read(forest(input@), read) && reading(r) == read_invocation(
            forest(input@),
            read,
        ));
        r
    }

    /// Reads an invocation from `input`, given what was read from the texts of its
    /// name and its bounds.
    pub fn with_readings(input: &Vec<Token>, read: Readings) -> (r: Result<SeqParse, Error>)
        ensures
            reading(r) == read_invocation(forest(input@), read),
            r matches Ok(p) ==> p@.wf(),
    {
        let ghost ts = forest(input@);
        match find_misfit(input, read) {
            Some((k, kind)) => {
                return Err(Error::new(kind, position_of(input, k)));
            },
            None => {},
        }
        assert(ts[6] == input@[6]@);
        match (&input[0], &input[6], read.start, read.end) {
            (Token::Ident { text, .. }, Token::Group { inner, .. }, Some(first), Some(last)) => {
                proof {
                    lemma_fault_iff_depth(forest(inner@), MAX_DEPTH as nat);
                }
                match check_depth(inner, MAX_DEPTH) {
                    Some(pos) => Err(Error::new(ErrorKind::NestingTooDeep, pos)),
                    None => Ok(
                        SeqParse {
                            variable_ident: text.clone(),
                            start_int: first,
                            end_int: if last < first {
                                first
                            } else {
                                last
                            },
                            body: copy_forest(inner),
                        },
                    ),
                }
            },
            _ => {
                proof {
                    assert(false);
                }
                Err(Error::new(ErrorKind::ExpectedIdent, position_of(input, 0)))
            },
        }
    }
}

} // verus!
