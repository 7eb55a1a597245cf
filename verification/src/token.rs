//! The token forest: the tree of tokens that every other module reads and builds.
//!
//! A forest is a `Vec<Token>`; its mathematical value is a `Seq<Tok>`, given by
//! [`forest`]. Forests are never changed in place: every rewriting builds a new one.

use vstd::prelude::*;

verus! {

/// How a punctuation mark stands against the token that follows it.
#[derive(Clone, Copy, Debug, PartialEq, Eq, Structural)]
pub enum Spacing {
    /// The next token follows directly, with no whitespace between.
    Joint,
    /// Whitespace, or the end of the forest, follows.
    Isolated,
}

/// The bracket pair that encloses a group.
#[derive(Clone, Copy, Debug, PartialEq, Eq, Structural)]
pub enum Delimiter {
    /// `( ... )`
    Parenthesis,
    /// `{ ... }`
    Brace,
    /// `[ ... ]`
    Bracket,
}

/// Where a token begins in the source, and which repetition produced it.
#[derive(Clone, Copy, Debug, PartialEq, Eq, Structural)]
pub struct Position {
    /// Line in the source, counted from 1; 0 when unknown.
    pub line: usize,
    /// Column in the line, counted in characters from 0.
    pub column: usize,
    /// `None` on a token as it was written; `Some(i)` on a token produced for index `i`.
    pub iteration: Option<u64>,
}

impl Spacing {
    /// A mark of one character at `at` stands directly against a token at `next`.
    /// Where the place of either is unknown, nothing shows whitespace between them, and
    /// the mark counts as standing against the token.
    pub open spec fn touching(at: Position, next: Option<Position>) -> bool {
        next matches Some(p) && (at.line == 0 || p.line == 0 || (p.line == at.line && p.column
            == at.column + 1))
    }

    /// The spacing of a punctuation mark at `at`, where `next` is the position of the
    /// token that follows, if one does, and `joint` says that the mark is known to stand
    /// against another mark.
    pub fn of(joint: bool, at: Position, next: Option<Position>) -> (r: Spacing)
        ensures
            r == Spacing::Joint <==> joint || Spacing::touching(at, next),
    {
        let touching = match next {
            Some(p) => at.line == 0 || p.line == 0 || (p.line == at.line && p.column > 0
                && p.column - 1 == at.column),
            None => false,
        };
        if joint || touching {
            Spacing::Joint
        } else {
            Spacing::Isolated
        }
    }
}

impl Position {
    /// This position, marked as produced for index `n`.
    pub open spec fn tagged(self, n: u64) -> Position {
        Position { line: self.line, column: self.column, iteration: Some(n) }
    }

    /// The position that stands where no token is.
    pub open spec fn unknown() -> Position {
        Position { line: 0, column: 0, iteration: None }
    }

    /// A position in the source, as written.
    pub fn new(line: usize, column: usize) -> (r: Position)
        ensures
            r == (Position { line, column, iteration: None }),
    {
        Position { line, column, iteration: None }
    }

    /// Marks this position as produced for index `n`.
    pub fn tag(self, n: u64) -> (r: Position)
        ensures
            r == self.tagged(n),
    {
        Position { line: self.line, column: self.column, iteration: Some(n) }
    }
}

/// One token, or a delimited group with the forest inside it. Every token carries the
/// position at which it begins.
#[derive(Debug, PartialEq, Eq)]
pub enum Token {
    /// A name or a keyword, by its text.
    Ident { text: String, pos: Position },
    /// One punctuation character.
    Punct { ch: char, spacing: Spacing, pos: Position },
    /// A number, a string or a character, as it was written.
    Literal { text: String, pos: Position },
    /// A forest in brackets; `pos` is the position of the opening bracket.
    Group { delimiter: Delimiter, inner: Vec<Token>, pos: Position },
}

/// The mathematical value of a [`Token`]: the same token, with its texts as sequences
/// of characters and the forest inside a group as a sequence of values.
pub enum Tok {
    /// A name or a keyword, by its text.
    Ident { text: Seq<char>, pos: Position },
    /// One punctuation character.
    Punct { ch: char, spacing: Spacing, pos: Position },
    /// A number, a string or a character, as it was written.
    Literal { text: Seq<char>, pos: Position },
    /// A forest in brackets.
    Group { delimiter: Delimiter, inner: Seq<Tok>, pos: Position },
}

impl View for Token {
    type V = Tok;

    open spec fn view(&self) -> Tok
        decreases self,
    {
        match self {
            Token::Ident { text, pos } => Tok::Ident { text: text@, pos: *pos },
            Token::Punct { ch, spacing, pos } => Tok::Punct {
                ch: *ch,
                spacing: *spacing,
                pos: *pos,
            },
            Token::Literal { text, pos } => Tok::Literal { text: text@, pos: *pos },
            Token::Group { delimiter, inner, pos } => Tok::Group {
                delimiter: *delimiter,
                inner: forest(inner@),
                pos: *pos,
            },
        }
    }
}

/// The value of a forest: the values of its tokens, in order.
pub open spec fn forest(ts: Seq<Token>) -> Seq<Tok>
    decreases ts,
{
    Seq::new(ts.len(), |i: int| if 0 <= i < ts.len() { ts[i]@ } else { arbitrary() })
}

/// The value of a forest grows with the forest, token by token.
pub proof fn lemma_forest_push(ts: Seq<Token>, t: Token)
    ensures
        forest(ts.push(t)) == forest(ts).push(t@),
{
    assert(forest(ts.push(t)) =~= forest(ts).push(t@));
}

/// The value of the empty forest is empty.
pub proof fn lemma_forest_empty()
    ensures
        forest(Seq::<Token>::empty()) == Seq::<Tok>::empty(),
{
    assert(forest(Seq::<Token>::empty()) =~= Seq::<Tok>::empty());
}

/// The value of two forests joined is their values joined.
pub proof fn lemma_forest_add(a: Seq<Token>, b: Seq<Token>)
    ensures
        forest(a + b) == forest(a) + forest(b),
{
    assert(forest(a + b) =~= forest(a) + forest(b));
}

/// Groups nest at most `limit` deep in `ts`: a forest without groups has depth 0.
pub open spec fn within_depth(ts: Seq<Tok>, limit: nat) -> bool
    decreases limit,
{
    forall|i: int|
        0 <= i < ts.len() ==> (#[trigger] ts[i] matches Tok::Group { inner, .. } ==> limit > 0
            && within_depth(inner, (limit - 1) as nat))
}

/// The position of the first group, in reading order from index `k` on, that lies
/// deeper than `limit`; `None` when there is none.
pub open spec fn depth_fault_from(ts: Seq<Tok>, limit: nat, k: int) -> Option<Position>
    decreases limit, ts.len() - k,
{
    if k < 0 || k >= ts.len() {
        None
    } else {
        let here = match ts[k] {
            Tok::Group { inner, pos, .. } => if limit == 0 {
                Some(pos)
            } else {
                depth_fault_from(inner, (limit - 1) as nat, 0)
            },
            _ => None,
        };
        if here is Some {
            here
        } else {
            depth_fault_from(ts, limit, k + 1)
        }
    }
}

/// The position of the first group of `ts`, in reading order, that lies deeper than
/// `limit`.
pub open spec fn depth_fault(ts: Seq<Tok>, limit: nat) -> Option<Position> {
    depth_fault_from(ts, limit, 0)
}

/// From `k` on there is no fault exactly when every group from `k` on is within depth.
pub proof fn lemma_fault_from(ts: Seq<Tok>, limit: nat, k: int)
    requires
        0 <= k,
    ensures
        depth_fault_from(ts, limit, k) is None <==> (forall|i: int|
            k <= i < ts.len() ==> (#[trigger] ts[i] matches Tok::Group { inner, .. } ==> limit > 0
                && within_depth(inner, (limit - 1) as nat))),
    decreases limit, ts.len() - k,
{
    if k < ts.len() {
        lemma_fault_from(ts, limit, k + 1);
        match ts[k] {
            Tok::Group { inner, pos, .. } => {
                if limit > 0 {
                    lemma_fault_from(inner, (limit - 1) as nat, 0);
                }
            },
            _ => {},
        }
    }
}

/// A forest has no depth fault exactly when it is within the depth.
pub proof fn lemma_fault_iff_depth(ts: Seq<Tok>, limit: nat)
    ensures
        depth_fault(ts, limit) is None <==> within_depth(ts, limit),
{
    lemma_fault_from(ts, limit, 0);
}

/// What lies within a depth lies within every greater one.
pub proof fn lemma_depth_monotone(ts: Seq<Tok>, small: nat, large: nat)
    requires
        within_depth(ts, small),
        small <= large,
    ensures
        within_depth(ts, large),
    decreases small,
{
    assert forall|i: int| 0 <= i < ts.len() implies (#[trigger] ts[i] matches Tok::Group {
        inner,
        ..
    } ==> large > 0 && within_depth(inner, (large - 1) as nat)) by {
        if let Tok::Group { inner, .. } = ts[i] {
            lemma_depth_monotone(inner, (small - 1) as nat, (large - 1) as nat);
        }
    }
}

/// Finds the first group, in reading order, that lies deeper than `limit`.
pub fn check_depth(ts: &Vec<Token>, limit: usize) -> (r: Option<Position>)
    ensures
        r == depth_fault(forest(ts@), limit as nat),
    decreases limit,
{
    let mut i: usize = 0;
    while i < ts.len()
        invariant
            i <= ts.len(),
            depth_fault_from(forest(ts@), limit as nat, i as int) == depth_fault(
                forest(ts@),
                limit as nat,
            ),
        decreases ts.len() - i,
    {
        match &ts[i] {
            Token::Group { inner, pos, .. } => {
                if limit == 0 {
                    return Some(*pos);
                }
                let fault = check_depth(inner, limit - 1);
                if fault.is_some() {
                    return fault;
                }
            },
            _ => {},
        }
        i = i + 1;
    }
    None
}

/// Appends copies of the tokens of `ts` from index `from` up to `to` to `out`. It
/// descends as deep as `ts` nests, so it is called only on a forest whose depth was
/// tested.
pub(crate) fn copy_range(ts: &Vec<Token>, from: usize, to: usize, out: &mut Vec<Token>)
    requires
        from <= to <= ts.len(),
    ensures
        forest(final(out)@) == forest(old(out)@) + forest(ts@).subrange(from as int, to as int),
{
    let mut i: usize = from;
    proof {
        assert(forest(out@) =~= forest(old(out)@) + forest(ts@).subrange(from as int, i as int));
    }
    while i < to
        invariant
            from <= i <= to <= ts.len(),
            forest(out@) == forest(old(out)@) + forest(ts@).subrange(from as int, i as int),
        decreases to - i,
    {
        let ghost before = out@;
        let copy = ts[i].clone();
        proof {
            lemma_forest_push(before, copy);
            assert(forest(before).push(copy@) =~= forest(old(out)@) + forest(ts@).subrange(
                from as int,
                i + 1,
            ));
        }
        out.push(copy);
        i = i + 1;
    }
}

/// A copy of the forest `ts`. It descends as deep as `ts` nests, so it is called only
/// on a forest whose depth was tested.
pub(crate) fn copy_forest(ts: &Vec<Token>) -> (out: Vec<Token>)
    ensures
        forest(out@) == forest(ts@),
{
    let mut out: Vec<Token> = Vec::new();
    proof {
        lemma_forest_empty();
    }
    copy_range(ts, 0, ts.len(), &mut out);
    assert(forest(out@) =~= forest(ts@));
    out
}

impl Tok {
    /// The position that the token carries.
    pub open spec fn pos(self) -> Position {
        match self {
            Tok::Ident { pos, .. } => pos,
            Tok::Punct { pos, .. } => pos,
            Tok::Literal { pos, .. } => pos,
            Tok::Group { pos, .. } => pos,
        }
    }
}

impl Clone for Token {
    /// A copy with the same value, group by group. Like the comparison and the printing
    /// that are derived for a token, it descends as deep as the token nests.
    fn clone(&self) -> (r: Token)
        ensures
            r@ == self@,
        decreases self,
    {
        match self {
            Token::Ident { text, pos } => Token::Ident { text: text.clone(), pos: *pos },
            Token::Punct { ch, spacing, pos } => Token::Punct {
                ch: *ch,
                spacing: *spacing,
                pos: *pos,
            },
            Token::Literal { text, pos } => Token::Literal { text: text.clone(), pos: *pos },
            Token::Group { delimiter, inner, pos } => {
                let mut copy: Vec<Token> = Vec::new();
                let mut i: usize = 0;
                while i < inner.len()
                    invariant
                        decreases_to!(*self => *inner),
                        i <= inner.len(),
                        copy.len() == i,
                        forall|j: int| 0 <= j < i ==> copy@[j]@ == inner@[j]@,
                    decreases inner.len() - i,
                {
                    proof {
                        vstd::std_specs::vec::axiom_vec_index_decreases(*inner, i as int);
                    }
                    copy.push(inner[i].clone());
                    i = i + 1;
                }
                assert(forest(copy@) =~= forest(inner@));
                Token::Group { delimiter: *delimiter, inner: copy, pos: *pos }
            },
        }
    }
}

impl Token {
    /// The position that the token carries.
    pub fn position(&self) -> (r: Position)
        ensures
            r == self@.pos(),
    {
        match self {
            Token::Ident { pos, .. } => *pos,
            Token::Punct { pos, .. } => *pos,
            Token::Literal { pos, .. } => *pos,
            Token::Group { pos, .. } => *pos,
        }
    }
}

} // verus!
