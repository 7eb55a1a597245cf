//! The expansion driver: repeats the body, or the marked region of it, once for every
//! index of the range, in increasing order.
//!
//! Where the range is empty, nothing comes out, whatever the body holds and however deep
//! it nests: this is so of [`SeqParse::expand_all`] and of [`seq`] alike. Where the body
//! holds no mark, the whole body is repeated. Where it holds one, the template comes
//! out once, as it is, and in the place of the mark stand the copies of the region.

use crate::decimal::decimal_string;
use crate::error::{fault, Error, ErrorKind, Fault};
use crate::expand::{expand_forest, expand_tokens, expansion, outcome, rewritten, MAX_DEPTH};
use crate::parse::{
    find_misfit, may_read, misfit, position_at, position_of, read_invocation, read_texts,
    Invocation, Readings, SeqParse,
};
use crate::scope::{
    detect, detected, lemma_cut_depth, lemma_cut_placed, lemma_locate_occurs, lemma_region_depth, scope_of,
    splice, splice_at, Scope,
};
use crate::token::{
    copy_forest, depth_fault, forest, lemma_fault_iff_depth, lemma_forest_add,
    lemma_forest_empty, within_depth, Tok, Token,
};
use vstd::prelude::*;

verus! {

/// The copies of `ts` for the indices from `start` up to, not including, `end`: one
/// for each index, in increasing order.
pub open spec fn units(ts: Seq<Tok>, var: Seq<char>, start: int, end: int) -> Seq<Seq<Tok>> {
    Seq::new(
        if start <= end {
            (end - start) as nat
        } else {
            0
        },
        |i: int| expansion(ts, var, (start + i) as u64),
    )
}

/// The copies of `ts` for the indices from `start` up to `end`, one after the other.
pub open spec fn repeated(ts: Seq<Tok>, var: Seq<char>, start: int, end: int) -> Seq<Tok> {
    units(ts, var, start, end).flatten()
}

/// What the invocation expands to where its body holds the scope `scope`: the template
/// with the copies of the region in the place of the mark.
pub open spec fn scoped_output(inv: Invocation, scope: Scope) -> Seq<Tok> {
    splice_at(scope.template, scope.path, repeated(scope.region, inv.variable, inv.start, inv.end))
}

/// What the invocation expands to.
pub open spec fn output(inv: Invocation) -> Seq<Tok> {
    if inv.start >= inv.end {
        Seq::empty()
    } else {
        match scope_of(inv.body) {
            Some(scope) => scoped_output(inv, scope),
            None => repeated(inv.body, inv.variable, inv.start, inv.end),
        }
    }
}

/// The copies of `ts` for the indices from `start` up to `end`.
fn repeat(ts: &Vec<Token>, var: &String, start: u64, end: u64) -> (out: Vec<Token>)
    requires
        within_depth(forest(ts@), MAX_DEPTH as nat),
    ensures
        forest(out@) == repeated(forest(ts@), var@, start as int, end as int),
{
    let mut out: Vec<Token> = Vec::new();
    proof {
        lemma_forest_empty();
        assert(units(forest(ts@), var@, start as int, start as int) =~= Seq::empty());
    }
    if start >= end {
        proof {
            assert(units(forest(ts@), var@, start as int, end as int) =~= Seq::empty());
        }
        return out;
    }
    let mut i: u64 = start;
    while i < end
        invariant
            start <= i <= end,
            within_depth(forest(ts@), MAX_DEPTH as nat),
            forest(out@) == repeated(forest(ts@), var@, start as int, i as int),
        decreases end - i,
    {
        let digits = decimal_string(i);
        let mut unit = expand_forest(ts, var, i, &digits, MAX_DEPTH);
        proof {
            let before = units(forest(ts@), var@, start as int, i as int);
            let after = units(forest(ts@), var@, start as int, i + 1);
            assert(after =~= before.push(forest(unit@)));
            before.lemma_flatten_push(forest(unit@));
            lemma_forest_add(out@, unit@);
        }
        out.append(&mut unit);
        i = i + 1;
    }
    out
}

/// What expanding an invocation gives: its output, unless its range holds an index and
/// groups nest deeper in its body than [`MAX_DEPTH`].
pub open spec fn expanded(inv: Invocation) -> Result<Seq<Tok>, Fault> {
    if inv.start >= inv.end {
        Ok(Seq::empty())
    } else {
        match depth_fault(inv.body, MAX_DEPTH as nat) {
            Some(pos) => Err(fault(ErrorKind::NestingTooDeep, pos)),
            None => Ok(output(inv)),
        }
    }
}

/// What looking for the marked region of the body and repeating it in its place
/// gives: the template with the copies of the region, and `true`; where the body holds
/// no mark, the body and `false`.
pub open spec fn found_block(inv: Invocation) -> Result<(Seq<Tok>, bool), Fault> {
    match detected(inv.body) {
        Err(e) => Err(e),
        Ok(Some(scope)) => Ok((scoped_output(inv, scope), true)),
        Ok(None) => Ok((inv.body, false)),
    }
}

/// The value of what the search for the marked region returned.
pub open spec fn block(r: Result<(Vec<Token>, bool), Error>) -> Result<(Seq<Tok>, bool), Fault> {
    match r {
        Ok((out, found)) => Ok((forest(out@), found)),
        Err(e) => Err(e@),
    }
}

impl SeqParse {
    /// The substitution expander, for the variable of this invocation: rewrites the
    /// forest `ts` for index `n`.
    pub fn expand(&self, ts: &Vec<Token>, n: u64) -> (r: Result<Vec<Token>, Error>)
        ensures
            outcome(r) == rewritten(forest(ts@), self@.variable, n),
    {
        expand_tokens(ts, &self.variable_ident, n)
    }

    /// Looks for the marked region of the body and, where there is one, repeats it in
    /// its place: the result is the template with the copies of the region, and `true`.
    /// Where the body holds no mark, the result is a copy of the body, and `false`.
    ///
    /// A body in which groups nest deeper than [`MAX_DEPTH`] is refused, with the
    /// position of the first group that lies too deep.
    pub fn find_block_to_expand_and_do_expand(&self) -> (r: Result<(Vec<Token>, bool), Error>)
        ensures
            block(r) == found_block(self@),
    {
        match detect(&self.body) {
            Err(e) => Err(e),
            Ok(None) => Ok((copy_forest(&self.body), false)),
            Ok(Some(scope)) => {
                proof {
                    lemma_fault_iff_depth(self@.body, MAX_DEPTH as nat);
                    lemma_locate_occurs(self@.body);
                    lemma_region_depth(self@.body, scope@.path, MAX_DEPTH as nat);
                    lemma_cut_placed(self@.body, scope@.path);
                    lemma_cut_depth(self@.body, scope@.path, MAX_DEPTH as nat);
                }
                let filler = repeat(
                    &scope.region,
                    &self.variable_ident,
                    self.start_int,
                    self.end_int,
                );
                match splice(&scope.template, &scope.path, filler) {
                    Some(out) => Ok((out, true)),
                    None => {
                        proof {
                            assert(false);
                        }
                        Ok((Vec::new(), true))
                    },
                }
            },
        }
    }

    /// The expansion driver: what this invocation expands to.
    ///
    /// Where the range is empty, the result is the empty forest. Otherwise a body in
    /// which groups nest deeper than [`MAX_DEPTH`] is refused, with the position of the
    /// first group that lies too deep.
    pub fn expand_all(&self) -> (r: Result<Vec<Token>, Error>)
        ensures
            outcome(r) == expanded(self@),
            self@.start >= self@.end ==> (r matches Ok(out) && out@.len() == 0),
    {
        proof {
            lemma_forest_empty();
            lemma_fault_iff_depth(self@.body, MAX_DEPTH as nat);
        }
        if self.start_int >= self.end_int {
            return Ok(Vec::new());
        }
        match self.find_block_to_expand_and_do_expand() {
            Err(e) => Err(e),
            Ok((out, true)) => Ok(out),
            Ok((_, false)) => Ok(
                repeat(&self.body, &self.variable_ident, self.start_int, self.end_int),
            ),
        }
    }
}

/// What an invocation written as the forest `ts` expands to, where `syn` reads `read`
/// from its name and its bounds.
///
/// The first token that does not fit is reported. Where every token fits and the range
/// holds no index, the result is the empty forest, whatever the body holds. Only where
/// the range holds an index is a body refused in which groups nest deeper than
/// [`MAX_DEPTH`].
pub open spec fn seq_with(ts: Seq<Tok>, read: Readings) -> Result<Seq<Tok>, Fault> {
    match misfit(ts, read) {
        Some((k, kind)) => Err(fault(kind, position_at(ts, k))),
        None => if read.end->0 <= read.start->0 {
            Ok(Seq::empty())
        } else {
            match read_invocation(ts, read) {
                Ok(inv) => expanded(inv),
                Err(e) => Err(e),
            }
        },
    }
}

/// Reads the invocation `name in A..B { body }` from `input` and expands it.
///
/// Whether the first token names a variable, and the digits of the two bounds, are
/// what `syn` reads from the texts of those tokens. So the result is what
/// [`seq_with_readings`] gives for one reading that `syn` may have made.
pub fn seq(input: &Vec<Token>) -> (r: Result<Vec<Token>, Error>)
    ensures
        exists|read: Readings| #[trigger]
            may_read(forest(input@), read) && outcome(r) == seq_with(forest(input@), read),
{
    let read = read_texts(input);
    let r = seq_with_readings(input, read);
    assert(may_read(forest(input@), read) && outcome(r) == seq_with(forest(input@), read));
    r
}

/// Reads the invocation `name in A..B { body }` from `input`, given what was read from
/// the texts of its name and its bounds, and expands it.
pub fn seq_with_readings(input: &Vec<Token>, read: Readings) -> (r: Result<Vec<Token>, Error>)
    ensures
        outcome(r) == seq_with(forest(input@), read),
{
    proof {
        lemma_forest_empty();
    }
    match find_misfit(input, read) {
        Some((k, kind)) => {
            return Err(Error::new(kind, position_of(input, k)));
        },
        None => {},
    }
    match (read.start, read.end) {
        (Some(first), Some(last)) => {
            if last <= first {
                return Ok(Vec::new());
            }
        },
        _ => {},
    }
    match SeqParse::with_readings(input, read) {
        Ok(invocation) => invocation.expand_all(),
        Err(e) => Err(e),
    }
}

} // verus!
