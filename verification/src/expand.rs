//! The substitution expander: one copy of a forest, rewritten for one index.
//!
//! Reading a forest from left to right, three tokens `prefix ~ var` become the one
//! identifier `prefix` followed by the index in base ten; the variable alone becomes
//! the index as a literal; a group is rewritten inside; every other token is copied.
//! Every token that comes out carries the index in its position.

use crate::decimal::{decimal, decimal_string};
use crate::error::{fault, Error, ErrorKind, Fault};
use crate::token::{
    check_depth, depth_fault, forest, lemma_fault_iff_depth, lemma_forest_empty,
    lemma_forest_push, within_depth, Spacing, Tok, Token,
};
use vstd::prelude::*;
use vstd::string::StringExecFns;

verus! {

/// How deep groups may nest in a forest that is to be rewritten.
pub const MAX_DEPTH: usize = 128;

/// `t` is the identifier `var`.
pub open spec fn is_var(t: Tok, var: Seq<char>) -> bool {
    t matches Tok::Ident { text, .. } && text == var
}

/// At index `k` of `ts` stand an identifier, a joint `~` and the variable.
pub open spec fn pastes_at(ts: Seq<Tok>, var: Seq<char>, k: int) -> bool {
    &&& 0 <= k
    &&& k + 2 < ts.len()
    &&& ts[k] is Ident
    &&& ts[k + 1] matches Tok::Punct { ch, spacing, .. } && ch == '~' && spacing == Spacing::Joint
    &&& is_var(ts[k + 2], var)
}

/// The identifier that `prefix ~ var` becomes for index `n`.
pub open spec fn pasted(prefix: Tok, n: u64) -> Tok
    recommends
        prefix is Ident,
{
    Tok::Ident { text: prefix->Ident_text + decimal(n as nat), pos: prefix.pos().tagged(n) }
}

/// What one token that is not the head of a pasting becomes for index `n`.
pub open spec fn expand_token(t: Tok, var: Seq<char>, n: u64) -> Tok
    decreases t, 0int,
{
    match t {
        Tok::Ident { text, pos } => if text == var {
            Tok::Literal { text: decimal(n as nat), pos: pos.tagged(n) }
        } else {
            Tok::Ident { text, pos: pos.tagged(n) }
        },
        Tok::Punct { ch, spacing, pos } => Tok::Punct { ch, spacing, pos: pos.tagged(n) },
        Tok::Literal { text, pos } => Tok::Literal { text, pos: pos.tagged(n) },
        Tok::Group { delimiter, inner, pos } => Tok::Group {
            delimiter,
            inner: expand_from(inner, var, n, 0),
            pos: pos.tagged(n),
        },
    }
}

/// What the tokens of `ts` from index `k` on become for index `n`.
pub open spec fn expand_from(ts: Seq<Tok>, var: Seq<char>, n: u64, k: int) -> Seq<Tok>
    decreases ts, ts.len() - k,
{
    if k < 0 || k >= ts.len() {
        Seq::empty()
    } else if pastes_at(ts, var, k) {
        seq![pasted(ts[k], n)] + expand_from(ts, var, n, k + 3)
    } else {
        seq![expand_token(ts[k], var, n)] + expand_from(ts, var, n, k + 1)
    }
}

/// What the forest `ts` becomes for index `n` of the variable `var`.
pub open spec fn expansion(ts: Seq<Tok>, var: Seq<char>, n: u64) -> Seq<Tok> {
    expand_from(ts, var, n, 0)
}

/// Whether an identifier, a joint `~` and the variable stand at index `idx`.
fn pastes_here(ts: &Vec<Token>, var: &String, idx: usize) -> (b: bool)
    requires
        idx < ts.len(),
    ensures
        b == pastes_at(forest(ts@), var@, idx as int),
{
    if ts.len() - idx <= 2 {
        return false;
    }
    let head = match &ts[idx] {
        Token::Ident { .. } => true,
        _ => false,
    };
    let tilde = match &ts[idx + 1] {
        Token::Punct { ch, spacing, .. } => *ch == '~' && *spacing == Spacing::Joint,
        _ => false,
    };
    let variable = match &ts[idx + 2] {
        Token::Ident { text, .. } => *text == *var,
        _ => false,
    };
    head && tilde && variable
}

/// Rewrites `ts` for index `n`, whose digits are `digits`.
pub(crate) fn expand_forest(
    ts: &Vec<Token>,
    var: &String,
    n: u64,
    digits: &String,
    limit: usize,
) -> (out: Vec<Token>)
    requires
        within_depth(forest(ts@), limit as nat),
        digits@ == decimal(n as nat),
    ensures
        forest(out@) == expansion(forest(ts@), var@, n),
    decreases limit,
{
    let ghost whole = forest(ts@);
    let mut out: Vec<Token> = Vec::new();
    let mut idx: usize = 0;
    proof {
        lemma_forest_empty();
        assert(forest(out@) + expand_from(whole, var@, n, 0) =~= expand_from(whole, var@, n, 0));
    }
    while idx < ts.len()
        invariant
            idx <= ts.len(),
            whole == forest(ts@),
            within_depth(whole, limit as nat),
            digits@ == decimal(n as nat),
            forest(out@) + expand_from(whole, var@, n, idx as int) == expand_from(
                whole,
                var@,
                n,
                0,
            ),
        decreases ts.len() - idx,
    {
        let ghost before = out@;
        let ghost here = whole[idx as int];
        assert(here == ts@[idx as int]@);
        let step: usize = if pastes_here(ts, var, idx) {
            3
        } else {
            1
        };
        let made = match &ts[idx] {
            Token::Ident { text, pos } => {
                if step == 3 {
                    let mut name = text.clone();
                    name.append(digits.as_str());
                    Token::Ident { text: name, pos: pos.tag(n) }
                } else if *text == *var {
                    Token::Literal { text: digits.clone(), pos: pos.tag(n) }
                } else {
                    Token::Ident { text: text.clone(), pos: pos.tag(n) }
                }
            },
            Token::Punct { ch, spacing, pos } => Token::Punct {
                ch: *ch,
                spacing: *spacing,
                pos: pos.tag(n),
            },
            Token::Literal { text, pos } => Token::Literal { text: text.clone(), pos: pos.tag(n) },
            Token::Group { delimiter, inner, pos } => {
                assert(here matches Tok::Group { inner: i, .. } && i == forest(inner@));
                let inside = expand_forest(inner, var, n, digits, limit - 1);
                Token::Group { delimiter: *delimiter, inner: inside, pos: pos.tag(n) }
            },
        };
        proof {
            let rest = expand_from(whole, var@, n, idx + step);
            if pastes_at(whole, var@, idx as int) {
                assert(made@ == pasted(here, n));
            } else {
                assert(made@ == expand_token(here, var@, n));
            }
            assert(expand_from(whole, var@, n, idx as int) == seq![made@] + rest);
            lemma_forest_push(before, made);
            assert(forest(before).push(made@) + rest =~= forest(before) + (seq![made@] + rest));
        }
        out.push(made);
        idx = idx + step;
    }
    proof {
        assert(forest(out@) + Seq::<Tok>::empty() =~= forest(out@));
    }
    out
}

/// The value of what a rewriting returned.
pub open spec fn outcome(r: Result<Vec<Token>, Error>) -> Result<Seq<Tok>, Fault> {
    match r {
        Ok(out) => Ok(forest(out@)),
        Err(e) => Err(e@),
    }
}

/// What rewriting the forest `ts` gives: the rewritten forest, unless groups nest
/// deeper in `ts` than [`MAX_DEPTH`].
pub open spec fn rewritten(ts: Seq<Tok>, var: Seq<char>, n: u64) -> Result<Seq<Tok>, Fault> {
    match depth_fault(ts, MAX_DEPTH as nat) {
        Some(pos) => Err(fault(ErrorKind::NestingTooDeep, pos)),
        None => Ok(expansion(ts, var, n)),
    }
}

/// The substitution expander: rewrites the forest `ts` for index `n` of the variable
/// `var`.
///
/// A forest in which groups nest deeper than [`MAX_DEPTH`] is refused, with the
/// position of the first group that lies too deep; every other forest is rewritten.
pub fn expand_tokens(ts: &Vec<Token>, var: &String, n: u64) -> (r: Result<Vec<Token>, Error>)
    ensures
        outcome(r) == rewritten(forest(ts@), var@, n),
{
    proof {
        lemma_fault_iff_depth(forest(ts@), MAX_DEPTH as nat);
    }
    match check_depth(ts, MAX_DEPTH) {
        Some(pos) => Err(Error::new(ErrorKind::NestingTooDeep, pos)),
        None => {
            let digits = decimal_string(n);
            Ok(expand_forest(ts, var, n, &digits, MAX_DEPTH))
        },
    }
}

} // verus!
