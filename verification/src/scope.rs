//! The repeat-scope detector: finds the one region `#( ... )*` of a body that is to be
//! repeated in place of the whole body.
//!
//! A mark is the three tokens `#`, a group in parentheses and `*`, side by side. A body
//! may hold marks at several depths and several at one depth. One of them is chosen, and
//! only that one: the mark at the least depth, and among the marks at that depth the
//! first in reading order. Every other mark stays in the template as the tokens it is
//! made of.
//!
//! A place in a forest is written as a path: the indices of the groups to enter, from
//! the outside in, and last the index in the innermost forest.

use crate::error::{fault, Error, ErrorKind, Fault};
use crate::expand::MAX_DEPTH;
use crate::token::{
    check_depth, copy_range, depth_fault, forest, lemma_depth_monotone, lemma_fault_iff_depth,
    lemma_forest_add, lemma_forest_empty, lemma_forest_push, within_depth, Delimiter, Tok,
    Token,
};
use vstd::prelude::*;

verus! {

/// At index `k` of `ts` stand `#`, a group in parentheses and `*`.
pub open spec fn marks_at(ts: Seq<Tok>, k: int) -> bool {
    &&& 0 <= k
    &&& k + 2 < ts.len()
    &&& ts[k] matches Tok::Punct { ch, .. } && ch == '#'
    &&& ts[k + 1] matches Tok::Group { delimiter, .. } && delimiter == Delimiter::Parenthesis
    &&& ts[k + 2] matches Tok::Punct { ch, .. } && ch == '*'
}

/// The least index from `k` on at which a mark stands in `ts`.
pub open spec fn mark_from(ts: Seq<Tok>, k: int) -> Option<int>
    decreases ts.len() - k,
{
    if k < 0 || k + 2 >= ts.len() {
        None
    } else if marks_at(ts, k) {
        Some(k)
    } else {
        mark_from(ts, k + 1)
    }
}

/// Of two paths the shorter; of two of one length the first.
pub open spec fn better(first: Option<Seq<int>>, second: Option<Seq<int>>) -> Option<Seq<int>> {
    match (first, second) {
        (Some(a), Some(b)) => if b.len() < a.len() {
            second
        } else {
            first
        },
        (None, _) => second,
        (_, None) => first,
    }
}

/// The path of the chosen mark of `ts`: a mark of `ts` itself if it has one, else the
/// best of what its groups hold.
pub open spec fn locate(ts: Seq<Tok>) -> Option<Seq<int>>
    decreases ts, ts.len() + 1,
{
    match mark_from(ts, 0) {
        Some(k) => Some(seq![k]),
        None => nested_upto(ts, ts.len() as int),
    }
}

/// The path of the best mark inside the groups that stand before index `k` of `ts`.
pub open spec fn nested_upto(ts: Seq<Tok>, k: int) -> Option<Seq<int>>
    decreases ts, k,
{
    if k <= 0 || k > ts.len() {
        None
    } else {
        better(nested_upto(ts, k - 1), nested_in(ts, k - 1))
    }
}

/// The path of the chosen mark inside the group at index `i` of `ts`, from `ts` on.
pub open spec fn nested_in(ts: Seq<Tok>, i: int) -> Option<Seq<int>>
    recommends
        0 <= i < ts.len(),
    decreases ts, 0int,
    when 0 <= i < ts.len()
{
    match ts[i] {
        Tok::Group { inner, .. } => match locate(inner) {
            Some(p) => Some(seq![i] + p),
            None => None,
        },
        _ => None,
    }
}

/// A mark stands in `ts` at `path`.
pub open spec fn occurs(ts: Seq<Tok>, path: Seq<int>) -> bool
    decreases path.len(),
{
    if path.len() == 0 {
        false
    } else if path.len() == 1 {
        marks_at(ts, path[0])
    } else {
        &&& 0 <= path[0] < ts.len()
        &&& ts[path[0]] matches Tok::Group { inner, .. } && occurs(inner, path.drop_first())
    }
}

/// The forest inside the parentheses of the mark at `path`.
pub open spec fn region_at(ts: Seq<Tok>, path: Seq<int>) -> Seq<Tok>
    recommends
        occurs(ts, path),
    decreases path.len(),
{
    if path.len() == 0 {
        Seq::empty()
    } else if path.len() == 1 {
        ts[path[0] + 1]->Group_inner
    } else {
        region_at(ts[path[0]]->Group_inner, path.drop_first())
    }
}

/// `ts` without the three tokens of the mark at `path`.
pub open spec fn cut_at(ts: Seq<Tok>, path: Seq<int>) -> Seq<Tok>
    recommends
        occurs(ts, path),
    decreases path.len(),
{
    if path.len() == 0 {
        ts
    } else if path.len() == 1 {
        ts.subrange(0, path[0]) + ts.subrange(path[0] + 3, ts.len() as int)
    } else {
        ts.update(
            path[0],
            Tok::Group {
                delimiter: ts[path[0]]->Group_delimiter,
                inner: cut_at(ts[path[0]]->Group_inner, path.drop_first()),
                pos: ts[path[0]].pos(),
            },
        )
    }
}

/// `path` names a place between two tokens of `template`, or at an end of a forest.
pub open spec fn placed(template: Seq<Tok>, path: Seq<int>) -> bool
    decreases path.len(),
{
    if path.len() == 0 {
        false
    } else if path.len() == 1 {
        0 <= path[0] <= template.len()
    } else {
        &&& 0 <= path[0] < template.len()
        &&& template[path[0]] matches Tok::Group { inner, .. } && placed(inner, path.drop_first())
    }
}

/// `template` with `filler` put in at `path`: the tokens of `template` stay as they
/// are, each once, and the groups on the way to the place are built anew around it.
pub open spec fn splice_at(template: Seq<Tok>, path: Seq<int>, filler: Seq<Tok>) -> Seq<Tok>
    recommends
        placed(template, path),
    decreases path.len(),
{
    if path.len() == 0 {
        template
    } else if path.len() == 1 {
        template.subrange(0, path[0]) + filler + template.subrange(
            path[0],
            template.len() as int,
        )
    } else {
        template.update(
            path[0],
            Tok::Group {
                delimiter: template[path[0]]->Group_delimiter,
                inner: splice_at(template[path[0]]->Group_inner, path.drop_first(), filler),
                pos: template[path[0]].pos(),
            },
        )
    }
}

/// What the detector finds in a body.
#[derive(Debug, PartialEq, Eq)]
pub struct RepeatScope {
    /// The body without the three tokens of the chosen mark.
    pub template: Vec<Token>,
    /// The place in the template where the mark stood.
    pub path: Vec<usize>,
    /// The forest that stood inside the parentheses of the mark.
    pub region: Vec<Token>,
}

/// The mathematical value of a [`RepeatScope`].
pub struct Scope {
    /// The body without the three tokens of the chosen mark.
    pub template: Seq<Tok>,
    /// The place in the template where the mark stood.
    pub path: Seq<int>,
    /// The forest that stood inside the parentheses of the mark.
    pub region: Seq<Tok>,
}

/// A path of machine indices as a path of integers.
pub open spec fn indices(path: Seq<usize>) -> Seq<int> {
    Seq::new(path.len(), |i: int| path[i] as int)
}

impl View for RepeatScope {
    type V = Scope;

    open spec fn view(&self) -> Scope {
        Scope {
            template: forest(self.template@),
            path: indices(self.path@),
            region: forest(self.region@),
        }
    }
}

/// The scope of a body: its chosen mark, if it has a mark at all.
pub open spec fn scope_of(body: Seq<Tok>) -> Option<Scope> {
    match locate(body) {
        Some(path) => Some(
            Scope { template: cut_at(body, path), path, region: region_at(body, path) },
        ),
        None => None,
    }
}

/// What `mark_from` finds is the first mark from `k` on.
pub proof fn lemma_mark_from(ts: Seq<Tok>, k: int)
    requires
        0 <= k,
    ensures
        match mark_from(ts, k) {
            Some(j) => k <= j && marks_at(ts, j) && forall|i: int| k <= i < j ==> !marks_at(ts, i),
            None => forall|i: int| k <= i ==> !marks_at(ts, i),
        },
    decreases ts.len() - k,
{
    if k + 2 < ts.len() && !marks_at(ts, k) {
        lemma_mark_from(ts, k + 1);
    }
}

/// The path of a machine-index path from its index `d` on.
spec fn tail(path: Seq<usize>, d: int) -> Seq<int> {
    indices(path).skip(d)
}

proof fn lemma_tail(path: Seq<usize>, d: int)
    requires
        0 <= d < path.len(),
    ensures
        tail(path, d).len() == path.len() - d,
        tail(path, d)[0] == path[d] as int,
        tail(path, d).drop_first() == tail(path, d + 1),
        tail(path, 0) == indices(path),
{
    assert(tail(path, d).drop_first() =~= tail(path, d + 1));
    assert(tail(path, 0) =~= indices(path));
}

/// Whether a mark stands at index `idx`.
fn mark_here(ts: &Vec<Token>, idx: usize) -> (b: bool)
    requires
        idx < ts.len(),
    ensures
        b == marks_at(forest(ts@), idx as int),
{
    if ts.len() - idx <= 2 {
        return false;
    }
    let hash = match &ts[idx] {
        Token::Punct { ch, .. } => *ch == '#',
        _ => false,
    };
    let group = match &ts[idx + 1] {
        Token::Group { delimiter, .. } => *delimiter == Delimiter::Parenthesis,
        _ => false,
    };
    let star = match &ts[idx + 2] {
        Token::Punct { ch, .. } => *ch == '*',
        _ => false,
    };
    hash && group && star
}

/// The index of the first mark among the tokens of `ts` itself.
fn mark_index(ts: &Vec<Token>) -> (r: Option<usize>)
    ensures
        match r {
            Some(k) => k + 2 < ts.len() && mark_from(forest(ts@), 0) == Some(k as int),
            None => mark_from(forest(ts@), 0) is None,
        },
{
    let mut i: usize = 0;
    while i < ts.len()
        invariant
            i <= ts.len(),
            mark_from(forest(ts@), i as int) == mark_from(forest(ts@), 0),
        decreases ts.len() - i,
    {
        if mark_here(ts, i) {
            return Some(i);
        }
        i = i + 1;
    }
    None
}

/// The value of a path that may be there.
spec fn found_path(p: Option<Vec<usize>>) -> Option<Seq<int>> {
    match p {
        Some(path) => Some(indices(path@)),
        None => None,
    }
}

/// The path of the chosen mark of `ts`.
fn locate_in(ts: &Vec<Token>, limit: usize) -> (r: Option<Vec<usize>>)
    requires
        within_depth(forest(ts@), limit as nat),
    ensures
        found_path(r) == locate(forest(ts@)),
    decreases limit,
{
    let ghost whole = forest(ts@);
    match mark_index(ts) {
        Some(k) => {
            let mut path: Vec<usize> = Vec::new();
            path.push(k);
            assert(indices(path@) =~= seq![k as int]);
            return Some(path);
        },
        None => {},
    }
    let mut best: Option<Vec<usize>> = None;
    let mut i: usize = 0;
    while i < ts.len()
        invariant
            i <= ts.len(),
            whole == forest(ts@),
            within_depth(whole, limit as nat),
            found_path(best) == nested_upto(whole, i as int),
        decreases ts.len() - i,
    {
        assert(whole[i as int] == ts@[i as int]@);
        let ghost before = found_path(best);
        match &ts[i] {
            Token::Group { inner, .. } => {
                assert(whole[i as int]->Group_inner == forest(inner@));
                match locate_in(inner, limit - 1) {
                    Some(mut path) => {
                        let ghost below = indices(path@);
                        path.insert(0, i);
                        assert(indices(path@) =~= seq![i as int] + below);
                        assert(nested_in(whole, i as int) == Some(indices(path@)));
                        let shorter = match &best {
                            Some(b) => path.len() < b.len(),
                            None => true,
                        };
                        if shorter {
                            best = Some(path);
                        }
                    },
                    None => {
                        assert(nested_in(whole, i as int) is None);
                    },
                }
            },
            _ => {
                assert(nested_in(whole, i as int) is None);
            },
        }
        assert(found_path(best) == better(before, nested_in(whole, i as int)));
        i = i + 1;
    }
    best
}

/// The path that `locate` gives is the path of a mark.
pub proof fn lemma_locate_occurs(ts: Seq<Tok>)
    ensures
        locate(ts) matches Some(path) ==> occurs(ts, path),
    decreases ts, ts.len() + 1,
{
    match mark_from(ts, 0) {
        Some(k) => {
            lemma_mark_from(ts, 0);
        },
        None => {
            lemma_nested_occurs(ts, ts.len() as int);
        },
    }
}

/// The path that `nested_upto` gives is the path of a mark.
pub proof fn lemma_nested_occurs(ts: Seq<Tok>, k: int)
    ensures
        nested_upto(ts, k) matches Some(path) ==> occurs(ts, path) && path.len() >= 2 && path[0]
            < k,
    decreases ts, k,
{
    if 0 < k <= ts.len() {
        lemma_nested_occurs(ts, k - 1);
        assert(nested_upto(ts, k) == better(nested_upto(ts, k - 1), nested_in(ts, k - 1)));
        if let Tok::Group { inner, .. } = ts[k - 1] {
            lemma_locate_occurs(inner);
            if let Some(below) = locate(inner) {
                let path = seq![k - 1] + below;
                assert(path.drop_first() =~= below);
                assert(below.len() >= 1);
                assert(path[0] == k - 1);
                assert(occurs(ts, path));
            }
        }
    }
}

/// The region of a mark lies within the depth of the forest that holds the mark.
pub proof fn lemma_region_depth(ts: Seq<Tok>, path: Seq<int>, limit: nat)
    requires
        occurs(ts, path),
        within_depth(ts, limit),
    ensures
        within_depth(region_at(ts, path), limit),
    decreases path.len(),
{
    if path.len() == 1 {
        let group = ts[path[0] + 1];
        lemma_depth_monotone(group->Group_inner, (limit - 1) as nat, limit);
    } else {
        let group = ts[path[0]];
        lemma_region_depth(group->Group_inner, path.drop_first(), (limit - 1) as nat);
        lemma_depth_monotone(region_at(ts, path), (limit - 1) as nat, limit);
    }
}

/// What is left where a mark was cut out nests no deeper than what held the mark.
pub proof fn lemma_cut_depth(ts: Seq<Tok>, path: Seq<int>, limit: nat)
    requires
        occurs(ts, path),
        within_depth(ts, limit),
    ensures
        within_depth(cut_at(ts, path), limit),
    decreases path.len(),
{
    let k = path[0];
    let out = cut_at(ts, path);
    if path.len() == 1 {
        assert forall|i: int| 0 <= i < out.len() implies (#[trigger] out[i] matches Tok::Group {
            inner,
            ..
        } ==> limit > 0 && within_depth(inner, (limit - 1) as nat)) by {
            if i < k {
                assert(out[i] == ts[i]);
            } else {
                assert(out[i] == ts[i + 3]);
            }
        }
    } else {
        lemma_cut_depth(ts[k]->Group_inner, path.drop_first(), (limit - 1) as nat);
        assert forall|i: int| 0 <= i < out.len() implies (#[trigger] out[i] matches Tok::Group {
            inner,
            ..
        } ==> limit > 0 && within_depth(inner, (limit - 1) as nat)) by {
            if i != k {
                assert(out[i] == ts[i]);
            }
        }
    }
}

/// Where a mark was cut out, something can be put in.
pub proof fn lemma_cut_placed(ts: Seq<Tok>, path: Seq<int>)
    requires
        occurs(ts, path),
    ensures
        placed(cut_at(ts, path), path),
    decreases path.len(),
{
    if path.len() > 1 {
        lemma_cut_placed(ts[path[0]]->Group_inner, path.drop_first());
    }
}

/// A copy of the forest inside the parentheses of the mark at `path`, from index `d`
/// of the path on.
fn region_of(ts: &Vec<Token>, path: &Vec<usize>, d: usize) -> (out: Vec<Token>)
    requires
        d < path.len(),
        occurs(forest(ts@), tail(path@, d as int)),
    ensures
        forest(out@) == region_at(forest(ts@), tail(path@, d as int)),
    decreases path.len() - d,
{
    proof {
        lemma_tail(path@, d as int);
    }
    let k = path[d];
    let mut out: Vec<Token> = Vec::new();
    proof {
        lemma_forest_empty();
    }
    if d + 1 == path.len() {
        assert(marks_at(forest(ts@), k as int));
        assert(forest(ts@).len() == ts.len());
        assert(forest(ts@)[k + 1] == ts@[k + 1]@);
        match &ts[k + 1] {
            Token::Group { inner, .. } => {
                copy_range(inner, 0, inner.len(), &mut out);
                assert(forest(out@) =~= forest(inner@));
            },
            _ => {},
        }
    } else {
        assert(forest(ts@)[k as int] == ts@[k as int]@);
        match &ts[k] {
            Token::Group { inner, .. } => {
                out = region_of(inner, path, d + 1);
            },
            _ => {},
        }
    }
    out
}

/// A copy of `ts` without the three tokens of the mark at `path`, from index `d` of
/// the path on.
fn cut_mark(ts: &Vec<Token>, path: &Vec<usize>, d: usize) -> (out: Vec<Token>)
    requires
        d < path.len(),
        occurs(forest(ts@), tail(path@, d as int)),
    ensures
        forest(out@) == cut_at(forest(ts@), tail(path@, d as int)),
    decreases path.len() - d,
{
    proof {
        lemma_tail(path@, d as int);
        lemma_forest_empty();
    }
    let ghost whole = forest(ts@);
    let k = path[d];
    proof {
        assert(whole.len() == ts.len());
        if d + 1 == path.len() {
            assert(marks_at(whole, k as int));
        } else {
            assert(0 <= k < whole.len());
        }
    }
    let mut out: Vec<Token> = Vec::new();
    copy_range(ts, 0, k, &mut out);
    if d + 1 == path.len() {
        copy_range(ts, k + 3, ts.len(), &mut out);
        assert(forest(out@) =~= whole.subrange(0, k as int) + whole.subrange(
            k + 3,
            whole.len() as int,
        ));
    } else {
        assert(whole[k as int] == ts@[k as int]@);
        match &ts[k] {
            Token::Group { delimiter, inner, pos } => {
                let inside = cut_mark(inner, path, d + 1);
                let ghost before = out@;
                let group = Token::Group { delimiter: *delimiter, inner: inside, pos: *pos };
                proof {
                    lemma_forest_push(before, group);
                }
                out.push(group);
                copy_range(ts, k + 1, ts.len(), &mut out);
                assert(forest(out@) =~= whole.update(k as int, group@));
            },
            _ => {},
        }
    }
    out
}

/// A copy of `template` with `filler` put in at `path`, from index `d` of the path on;
/// `None` where the path names no place.
fn splice_from(
    template: &Vec<Token>,
    path: &Vec<usize>,
    d: usize,
    filler: Vec<Token>,
) -> (r: Option<Vec<Token>>)
    requires
        d < path.len(),
    ensures
        r is Some <==> placed(forest(template@), tail(path@, d as int)),
        r matches Some(out) ==> forest(out@) == splice_at(
            forest(template@),
            tail(path@, d as int),
            forest(filler@),
        ),
    decreases path.len() - d,
{
    proof {
        lemma_tail(path@, d as int);
        lemma_forest_empty();
    }
    let ghost whole = forest(template@);
    let k = path[d];
    let mut filler = filler;
    let ghost put = forest(filler@);
    let mut out: Vec<Token> = Vec::new();
    if d + 1 == path.len() {
        if k > template.len() {
            return None;
        }
        copy_range(template, 0, k, &mut out);
        proof {
            lemma_forest_add(out@, filler@);
        }
        out.append(&mut filler);
        copy_range(template, k, template.len(), &mut out);
        assert(forest(out@) =~= whole.subrange(0, k as int) + put + whole.subrange(
            k as int,
            whole.len() as int,
        ));
        Some(out)
    } else {
        if k >= template.len() {
            return None;
        }
        assert(whole[k as int] == template@[k as int]@);
        match &template[k] {
            Token::Group { delimiter, inner, pos } => {
                match splice_from(inner, path, d + 1, filler) {
                    Some(inside) => {
                        copy_range(template, 0, k, &mut out);
                        let ghost before = out@;
                        let group = Token::Group {
                            delimiter: *delimiter,
                            inner: inside,
                            pos: *pos,
                        };
                        proof {
                            lemma_forest_push(before, group);
                        }
                        out.push(group);
                        copy_range(template, k + 1, template.len(), &mut out);
                        assert(forest(out@) =~= whole.update(k as int, group@));
                        Some(out)
                    },
                    None => None,
                }
            },
            _ => None,
        }
    }
}

/// Puts `filler` into `template` at the place that `path` names.
///
/// The result is `None` exactly where `path` names no place in `template`, or groups
/// nest deeper in `template` than [`MAX_DEPTH`].
pub fn splice(
    template: &Vec<Token>,
    path: &Vec<usize>,
    filler: Vec<Token>,
) -> (r: Option<Vec<Token>>)
    ensures
        r is Some <==> placed(forest(template@), indices(path@)) && within_depth(
            forest(template@),
            MAX_DEPTH as nat,
        ),
        r matches Some(out) ==> forest(out@) == splice_at(
            forest(template@),
            indices(path@),
            forest(filler@),
        ),
{
    proof {
        lemma_fault_iff_depth(forest(template@), MAX_DEPTH as nat);
    }
    if path.len() == 0 || check_depth(template, MAX_DEPTH).is_some() {
        return None;
    }
    proof {
        lemma_tail(path@, 0);
    }
    splice_from(template, path, 0, filler)
}

/// The value of what the detector returned.
pub open spec fn detection(r: Result<Option<RepeatScope>, Error>) -> Result<Option<Scope>, Fault> {
    match r {
        Ok(Some(scope)) => Ok(Some(scope@)),
        Ok(None) => Ok(None),
        Err(e) => Err(e@),
    }
}

/// What the detector finds in `body`: its scope, unless groups nest deeper in `body`
/// than [`MAX_DEPTH`].
pub open spec fn detected(body: Seq<Tok>) -> Result<Option<Scope>, Fault> {
    match depth_fault(body, MAX_DEPTH as nat) {
        Some(pos) => Err(fault(ErrorKind::NestingTooDeep, pos)),
        None => Ok(scope_of(body)),
    }
}

/// The repeat-scope detector: looks through `body`, at every depth, for the mark
/// `#( ... )*` and hands out the body without the mark, the place where it stood and
/// the forest that it held; `None` when the body holds no mark.
///
/// A body in which groups nest deeper than [`MAX_DEPTH`] is refused, with the position
/// of the first group that lies too deep.
pub fn detect(body: &Vec<Token>) -> (r: Result<Option<RepeatScope>, Error>)
    ensures
        detection(r) == detected(forest(body@)),
{
    match check_depth(body, MAX_DEPTH) {
        Some(pos) => Err(Error::new(ErrorKind::NestingTooDeep, pos)),
        None => {
            proof {
                lemma_fault_iff_depth(forest(body@), MAX_DEPTH as nat);
                lemma_locate_occurs(forest(body@));
            }
            match locate_in(body, MAX_DEPTH) {
                Some(path) => {
                    proof {
                        lemma_tail(path@, 0);
                    }
                    let template = cut_mark(body, &path, 0);
                    let region = region_of(body, &path, 0);
                    Ok(Some(RepeatScope { template, path, region }))
                },
                None => Ok(None),
            }
        },
    }
}

} // verus!
