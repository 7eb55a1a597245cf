//! What holds of every expansion.

use crate::driver::{expanded, output, repeated, scoped_output, seq_with, units};
use crate::expand::{expand_from, expand_token, expansion, is_var, pasted, pastes_at};
use crate::parse::{misfit, Invocation, Readings};
use crate::scope::{
    cut_at, locate, mark_from, marks_at, nested_in, nested_upto, occurs, region_at, scope_of,
    splice_at, Scope,
};
use crate::token::{lemma_depth_monotone, within_depth, Tok};
use vstd::prelude::*;

verus! {

/// An empty range expands to the empty forest, whatever the body holds.
pub proof fn law_empty_range(inv: Invocation)
    requires
        inv.start >= inv.end,
    ensures
        output(inv) == Seq::<Tok>::empty(),
        expanded(inv) == Ok::<Seq<Tok>, crate::error::Fault>(Seq::empty()),
{
}

/// Where the body holds no mark, the output is one copy of the body for each index of
/// the range, in increasing order: as many copies as the range holds indices, and the
/// copy at place `i` is the body rewritten for the index `start + i`.
pub proof fn law_whole_body(inv: Invocation)
    requires
        inv.start <= inv.end,
        scope_of(inv.body) is None,
    ensures
        output(inv) == units(inv.body, inv.variable, inv.start, inv.end).flatten(),
        units(inv.body, inv.variable, inv.start, inv.end).len() == inv.end - inv.start,
        forall|i: int|
            0 <= i < inv.end - inv.start ==> #[trigger] units(
                inv.body,
                inv.variable,
                inv.start,
                inv.end,
            )[i] == expansion(inv.body, inv.variable, (inv.start + i) as u64),
{
    if inv.start == inv.end {
        assert(units(inv.body, inv.variable, inv.start, inv.end) =~= Seq::empty());
    }
}

/// Where the reading stands after the step that begins at index `k`: three tokens on
/// where a pasting begins at `k`, else one.
pub open spec fn next_step(ts: Seq<Tok>, var: Seq<char>, k: int) -> int {
    if pastes_at(ts, var, k) {
        k + 3
    } else {
        k + 1
    }
}

/// Reading `ts` from index `from`, a step begins at index `k`.
pub open spec fn is_step(ts: Seq<Tok>, var: Seq<char>, from: int, k: int) -> bool
    decreases k - from,
{
    if from >= k {
        from == k
    } else {
        next_step(ts, var, from) <= k && is_step(ts, var, next_step(ts, var, from), k)
    }
}

/// The number of steps that reading `ts` from index `from` takes before index `k`.
pub open spec fn steps_before(ts: Seq<Tok>, var: Seq<char>, from: int, k: int) -> nat
    decreases k - from,
{
    if from >= k {
        0
    } else if next_step(ts, var, from) > k {
        1
    } else {
        1 + steps_before(ts, var, next_step(ts, var, from), k)
    }
}

/// The token that the step at index `k` puts out for index `n`.
pub open spec fn step_output(ts: Seq<Tok>, var: Seq<char>, n: u64, k: int) -> Tok {
    if pastes_at(ts, var, k) {
        pasted(ts[k], n)
    } else {
        expand_token(ts[k], var, n)
    }
}

/// The token `t` with the index `n` in its position and nothing else changed.
pub open spec fn retagged(t: Tok, n: u64) -> Tok {
    match t {
        Tok::Ident { text, pos } => Tok::Ident { text, pos: pos.tagged(n) },
        Tok::Punct { ch, spacing, pos } => Tok::Punct { ch, spacing, pos: pos.tagged(n) },
        Tok::Literal { text, pos } => Tok::Literal { text, pos: pos.tagged(n) },
        Tok::Group { delimiter, inner, pos } => Tok::Group { delimiter, inner, pos: pos.tagged(n) },
    }
}

/// The tokens `a` and `b` are of one kind and hold the same, and stand at one place in
/// the source: they differ at most in the index that their positions carry.
pub open spec fn same_but_iteration(a: Tok, b: Tok) -> bool {
    retagged(a, 0) == retagged(b, 0)
}

proof fn lemma_steps(ts: Seq<Tok>, var: Seq<char>, n: u64, from: int, k: int)
    requires
        0 <= from <= k <= ts.len(),
        is_step(ts, var, from, k),
    ensures
        expand_from(ts, var, n, from).len() == steps_before(ts, var, from, k) + expand_from(
            ts,
            var,
            n,
            k,
        ).len(),
        k < ts.len() ==> expand_from(ts, var, n, from)[steps_before(ts, var, from, k) as int]
            == step_output(ts, var, n, k),
        k < ts.len() ==> expand_from(ts, var, n, k).len() >= 1,
    decreases k - from,
{
    if from < k {
        let next = next_step(ts, var, from);
        lemma_steps(ts, var, n, next, k);
    }
}

proof fn lemma_end_is_step(ts: Seq<Tok>, var: Seq<char>, from: int)
    requires
        0 <= from <= ts.len(),
    ensures
        is_step(ts, var, from, ts.len() as int),
    decreases ts.len() - from,
{
    if from < ts.len() {
        lemma_end_is_step(ts, var, next_step(ts, var, from));
    }
}

/// A rewritten forest is the body, step by step. The reading of the body begins a step
/// at index 0 and, after each step, at the index where that step ended. Each step puts
/// out one token, in the order of the steps: the pasted identifier where a pasting
/// begins, the index as a literal where the variable stands, the group rewritten inside
/// where a group stands, and the token itself otherwise. So the rewritten forest has
/// as many tokens as the reading has steps, for every index alike.
pub proof fn law_expansion_by_steps(ts: Seq<Tok>, var: Seq<char>, n: u64, k: int)
    requires
        0 <= k < ts.len(),
        is_step(ts, var, 0, k),
    ensures
        expansion(ts, var, n).len() == steps_before(ts, var, 0, ts.len() as int),
        steps_before(ts, var, 0, k) < expansion(ts, var, n).len(),
        expansion(ts, var, n)[steps_before(ts, var, 0, k) as int] == step_output(ts, var, n, k),
        pastes_at(ts, var, k) ==> step_output(ts, var, n, k) == pasted(ts[k], n),
        !pastes_at(ts, var, k) && is_var(ts[k], var) ==> step_output(ts, var, n, k)
            == (Tok::Literal {
            text: crate::decimal::decimal(n as nat),
            pos: ts[k].pos().tagged(n),
        }),
        ts[k] is Group ==> step_output(ts, var, n, k) == (Tok::Group {
            delimiter: ts[k]->Group_delimiter,
            inner: expansion(ts[k]->Group_inner, var, n),
            pos: ts[k].pos().tagged(n),
        }),
        !pastes_at(ts, var, k) && !is_var(ts[k], var) && !(ts[k] is Group) ==> step_output(
            ts,
            var,
            n,
            k,
        ) == retagged(ts[k], n),
{
    lemma_steps(ts, var, n, 0, k);
    lemma_end_is_step(ts, var, 0);
    lemma_steps(ts, var, n, 0, ts.len() as int);
}

/// A token of the body that is neither the variable, nor part of a pasting, nor a
/// group comes out the same for every index: of the same kind, holding the same, from
/// the same place in the source, and at the same place in the output. (A group comes
/// out as a group of its kind around its rewritten inside, of which the same holds.)
pub proof fn law_unrelated_token(ts: Seq<Tok>, var: Seq<char>, i: u64, j: u64, k: int)
    requires
        0 <= k < ts.len(),
        is_step(ts, var, 0, k),
        !pastes_at(ts, var, k),
        !is_var(ts[k], var),
        !(ts[k] is Group),
    ensures
        steps_before(ts, var, 0, k) < expansion(ts, var, i).len(),
        steps_before(ts, var, 0, k) < expansion(ts, var, j).len(),
        same_but_iteration(expansion(ts, var, i)[steps_before(ts, var, 0, k) as int], ts[k]),
        same_but_iteration(
            expansion(ts, var, i)[steps_before(ts, var, 0, k) as int],
            expansion(ts, var, j)[steps_before(ts, var, 0, k) as int],
        ),
{
    law_expansion_by_steps(ts, var, i, k);
    law_expansion_by_steps(ts, var, j, k);
}

/// The token of `ts` at `path`: the path names the groups to enter, from the outside
/// in, and last the index of the token.
pub open spec fn token_at(ts: Seq<Tok>, path: Seq<int>) -> Tok
    recommends
        path.len() >= 1,
    decreases path.len(),
{
    if path.len() <= 1 {
        ts[path[0]]
    } else {
        token_at(ts[path[0]]->Group_inner, path.drop_first())
    }
}

/// The token of `ts` at `path` is copied by every rewriting: it is neither the
/// variable nor a group, a step that is no pasting begins at it, and the same holds of
/// the step at each group on the way to it.
pub open spec fn copied_at(ts: Seq<Tok>, var: Seq<char>, path: Seq<int>) -> bool
    decreases path.len(),
{
    &&& path.len() >= 1
    &&& 0 <= path[0] < ts.len()
    &&& is_step(ts, var, 0, path[0])
    &&& !pastes_at(ts, var, path[0])
    &&& if path.len() == 1 {
        !is_var(ts[path[0]], var) && !(ts[path[0]] is Group)
    } else {
        ts[path[0]] is Group && copied_at(ts[path[0]]->Group_inner, var, path.drop_first())
    }
}

/// Where the token of `ts` at `path` stands in the rewritten forest.
pub open spec fn output_path(ts: Seq<Tok>, var: Seq<char>, path: Seq<int>) -> Seq<int>
    decreases path.len(),
{
    if path.len() == 0 {
        path
    } else if path.len() == 1 {
        seq![steps_before(ts, var, 0, path[0]) as int]
    } else {
        seq![steps_before(ts, var, 0, path[0]) as int] + output_path(
            ts[path[0]]->Group_inner,
            var,
            path.drop_first(),
        )
    }
}

/// At every depth, a token of the body that is neither the variable, nor part of a
/// pasting, nor a group comes out the same for every index: of the same kind, holding
/// the same, from the same place in the source, and at the same place in the output.
pub proof fn law_unrelated_token_at_depth(
    ts: Seq<Tok>,
    var: Seq<char>,
    i: u64,
    j: u64,
    path: Seq<int>,
)
    requires
        copied_at(ts, var, path),
    ensures
        same_but_iteration(
            token_at(expansion(ts, var, i), output_path(ts, var, path)),
            token_at(ts, path),
        ),
        same_but_iteration(
            token_at(expansion(ts, var, i), output_path(ts, var, path)),
            token_at(expansion(ts, var, j), output_path(ts, var, path)),
        ),
    decreases path.len(),
{
    let k = path[0];
    let m = steps_before(ts, var, 0, k) as int;
    law_expansion_by_steps(ts, var, i, k);
    law_expansion_by_steps(ts, var, j, k);
    let out = output_path(ts, var, path);
    if path.len() == 1 {
        assert(out[0] == m);
    } else {
        let inner = ts[k]->Group_inner;
        let rest = path.drop_first();
        law_unrelated_token_at_depth(inner, var, i, j, rest);
        assert(out[0] == m);
        assert(out.drop_first() =~= output_path(inner, var, rest));
        assert(out.len() >= 2);
        assert(expansion(ts, var, i)[m]->Group_inner == expansion(inner, var, i));
        assert(expansion(ts, var, j)[m]->Group_inner == expansion(inner, var, j));
    }
}

/// `ts` with `filler` in the place of the three tokens of the mark at `path`: every
/// other token of `ts` stays where it is, at every depth.
pub open spec fn replaced(ts: Seq<Tok>, path: Seq<int>, filler: Seq<Tok>) -> Seq<Tok>
    recommends
        occurs(ts, path),
    decreases path.len(),
{
    if path.len() == 0 {
        ts
    } else if path.len() == 1 {
        ts.subrange(0, path[0]) + filler + ts.subrange(path[0] + 3, ts.len() as int)
    } else {
        ts.update(
            path[0],
            Tok::Group {
                delimiter: ts[path[0]]->Group_delimiter,
                inner: replaced(ts[path[0]]->Group_inner, path.drop_first(), filler),
                pos: ts[path[0]].pos(),
            },
        )
    }
}

/// To cut a mark out and put something in where it stood is to put that in the place
/// of the mark.
pub proof fn law_splice_of_cut(ts: Seq<Tok>, path: Seq<int>, filler: Seq<Tok>)
    requires
        occurs(ts, path),
    ensures
        splice_at(cut_at(ts, path), path, filler) == replaced(ts, path, filler),
    decreases path.len(),
{
    if path.len() == 1 {
        let k = path[0];
        let cut = cut_at(ts, path);
        assert(cut.subrange(0, k) =~= ts.subrange(0, k));
        assert(cut.subrange(k, cut.len() as int) =~= ts.subrange(k + 3, ts.len() as int));
    } else {
        let k = path[0];
        law_splice_of_cut(ts[k]->Group_inner, path.drop_first(), filler);
        assert(splice_at(cut_at(ts, path), path, filler) =~= replaced(ts, path, filler));
    }
}

/// Where the body holds a mark and the range holds an index, the output is the body
/// with the copies of the region in the place of the mark. Every token of the body
/// outside the mark comes out once, where it stood and as it was; the region comes out
/// once for each index of the range, in increasing order, rewritten for that index.
pub proof fn law_scoped_output(inv: Invocation, scope: Scope)
    requires
        inv.start < inv.end,
        scope_of(inv.body) == Some(scope),
    ensures
        occurs(inv.body, scope.path),
        scope.region == region_at(inv.body, scope.path),
        output(inv) == replaced(
            inv.body,
            scope.path,
            units(scope.region, inv.variable, inv.start, inv.end).flatten(),
        ),
        units(scope.region, inv.variable, inv.start, inv.end).len() == inv.end - inv.start,
        forall|i: int|
            0 <= i < inv.end - inv.start ==> #[trigger] units(
                scope.region,
                inv.variable,
                inv.start,
                inv.end,
            )[i] == expansion(scope.region, inv.variable, (inv.start + i) as u64),
{
    crate::scope::lemma_locate_occurs(inv.body);
    law_splice_of_cut(
        inv.body,
        scope.path,
        repeated(scope.region, inv.variable, inv.start, inv.end),
    );
}

/// The path `p` comes before the path `q` of the same length in reading order, or is
/// `q`.
pub open spec fn reads_first(p: Seq<int>, q: Seq<int>) -> bool
    recommends
        p.len() == q.len(),
    decreases p.len(),
{
    if p.len() == 0 || q.len() == 0 {
        true
    } else if p[0] != q[0] {
        p[0] < q[0]
    } else {
        reads_first(p.drop_first(), q.drop_first())
    }
}

/// The path `p` is chosen before the path `q`: it is shorter, or of the same length
/// and first in reading order.
pub open spec fn precedes(p: Seq<int>, q: Seq<int>) -> bool {
    p.len() < q.len() || (p.len() == q.len() && reads_first(p, q))
}

proof fn lemma_nested_best(ts: Seq<Tok>, k: int, i: int)
    requires
        0 <= i < k <= ts.len(),
        nested_in(ts, i) is Some,
    ensures
        nested_upto(ts, k) is Some,
        nested_upto(ts, k)->0.len() < nested_in(ts, i)->0.len() || (nested_upto(ts, k)->0.len()
            == nested_in(ts, i)->0.len() && (nested_upto(ts, k)->0[0] < i || nested_upto(ts, k)
            == nested_in(ts, i))),
    decreases k,
{
    crate::scope::lemma_nested_occurs(ts, k - 1);
    if i < k - 1 {
        lemma_nested_best(ts, k - 1, i);
    }
}

/// The chosen mark is the first of all marks: where a mark stands at `q`, a mark is
/// chosen, and no mark at `q` lies at a lesser depth than the chosen one, nor at the
/// same depth before it in reading order. So a body has a scope exactly when it holds a
/// mark.
pub proof fn law_chosen_mark(ts: Seq<Tok>, q: Seq<int>)
    requires
        occurs(ts, q),
    ensures
        locate(ts) is Some,
        occurs(ts, locate(ts)->0),
        precedes(locate(ts)->0, q),
    decreases q.len(),
{
    crate::scope::lemma_locate_occurs(ts);
    crate::scope::lemma_mark_from(ts, 0);
    let p = locate(ts)->0;
    if q.len() == 1 {
        assert(mark_from(ts, 0) is Some);
        assert(p == seq![mark_from(ts, 0)->0]);
        assert(marks_at(ts, q[0]));
        assert(p[0] <= q[0]);
        assert(p.drop_first().len() == 0);
        assert(reads_first(p.drop_first(), q.drop_first()));
        assert(reads_first(p, q));
    } else {
        let i = q[0];
        let inner = ts[i]->Group_inner;
        law_chosen_mark(inner, q.drop_first());
        if mark_from(ts, 0) is None {
            let below = locate(inner)->0;
            let c = seq![i] + below;
            assert(nested_in(ts, i) == Some(c));
            assert(c.drop_first() =~= below);
            lemma_nested_best(ts, ts.len() as int, i);
            assert(p == nested_upto(ts, ts.len() as int)->0);
            assert(c.len() <= q.len());
            if p.len() == q.len() {
                if p == c {
                    assert(below.len() == q.drop_first().len());
                    assert(reads_first(below, q.drop_first()));
                    assert(reads_first(p, q));
                } else {
                    assert(p[0] < i);
                    assert(reads_first(p, q));
                }
            }
        } else {
            assert(p == seq![mark_from(ts, 0)->0]);
        }
    }
}

proof fn lemma_expand_from_depth(ts: Seq<Tok>, var: Seq<char>, n: u64, k: int, limit: nat)
    requires
        within_depth(ts, limit),
        0 <= k,
    ensures
        within_depth(expand_from(ts, var, n, k), limit),
    decreases ts, ts.len() - k,
{
    if k < ts.len() {
        let next = next_step(ts, var, k);
        lemma_expand_from_depth(ts, var, n, next, limit);
        let head = step_output(ts, var, n, k);
        let rest = expand_from(ts, var, n, next);
        let out = expand_from(ts, var, n, k);
        assert(out == seq![head] + rest);
        if let Tok::Group { inner, .. } = ts[k] {
            lemma_expand_from_depth(inner, var, n, 0, (limit - 1) as nat);
        }
        assert forall|i: int| 0 <= i < out.len() implies (#[trigger] out[i] matches Tok::Group {
            inner,
            ..
        } ==> limit > 0 && within_depth(inner, (limit - 1) as nat)) by {
            if i > 0 {
                assert(out[i] == rest[i - 1]);
            }
        }
    }
}

proof fn lemma_concat_depth(a: Seq<Tok>, b: Seq<Tok>, limit: nat)
    requires
        within_depth(a, limit),
        within_depth(b, limit),
    ensures
        within_depth(a + b, limit),
{
    let out = a + b;
    assert forall|i: int| 0 <= i < out.len() implies (#[trigger] out[i] matches Tok::Group {
        inner,
        ..
    } ==> limit > 0 && within_depth(inner, (limit - 1) as nat)) by {
        if i < a.len() {
            assert(out[i] == a[i]);
        } else {
            assert(out[i] == b[i - a.len()]);
        }
    }
}

proof fn lemma_flatten_depth(parts: Seq<Seq<Tok>>, limit: nat)
    requires
        forall|i: int| 0 <= i < parts.len() ==> within_depth(#[trigger] parts[i], limit),
    ensures
        within_depth(parts.flatten(), limit),
    decreases parts.len(),
{
    if parts.len() > 0 {
        let rest = parts.drop_first();
        assert forall|i: int| 0 <= i < rest.len() implies within_depth(
            #[trigger] rest[i],
            limit,
        ) by {
            assert(rest[i] == parts[i + 1]);
        }
        lemma_flatten_depth(rest, limit);
        lemma_concat_depth(parts.first(), rest.flatten(), limit);
    }
}

proof fn lemma_replaced_depth(ts: Seq<Tok>, path: Seq<int>, filler: Seq<Tok>, limit: nat)
    requires
        occurs(ts, path),
        within_depth(ts, limit),
        limit >= path.len() ==> within_depth(filler, (limit - path.len()) as nat),
    ensures
        limit >= path.len(),
        within_depth(region_at(ts, path), (limit - path.len()) as nat),
        within_depth(replaced(ts, path, filler), limit),
    decreases path.len(),
{
    let k = path[0];
    let out = replaced(ts, path, filler);
    if path.len() == 1 {
        assert(ts[k + 1] is Group);
        lemma_depth_monotone(filler, (limit - 1) as nat, limit);
        assert forall|i: int| 0 <= i < out.len() implies (#[trigger] out[i] matches Tok::Group {
            inner,
            ..
        } ==> limit > 0 && within_depth(inner, (limit - 1) as nat)) by {
            if i < k {
                assert(out[i] == ts[i]);
            } else if i < k + filler.len() {
                assert(out[i] == filler[i - k]);
            } else {
                assert(out[i] == ts[i - filler.len() + 3]);
            }
        }
    } else {
        let inner = ts[k]->Group_inner;
        lemma_replaced_depth(inner, path.drop_first(), filler, (limit - 1) as nat);
        assert forall|i: int| 0 <= i < out.len() implies (#[trigger] out[i] matches Tok::Group {
            inner,
            ..
        } ==> limit > 0 && within_depth(inner, (limit - 1) as nat)) by {
            if i != k {
                assert(out[i] == ts[i]);
            }
        }
    }
}

/// An invocation in which every token fits and whose range holds no index expands to
/// the empty forest, whatever its body holds and however deep it nests.
pub proof fn law_seq_empty_range(ts: Seq<Tok>, read: Readings)
    requires
        misfit(ts, read) is None,
        read.end->0 <= read.start->0,
    ensures
        seq_with(ts, read) == Ok::<Seq<Tok>, crate::error::Fault>(Seq::empty()),
{
}

/// What comes out nests no deeper than what went in: the output of an invocation lies
/// within every depth that its body lies within, so it can be read again.
pub proof fn law_output_depth(inv: Invocation, limit: nat)
    requires
        within_depth(inv.body, limit),
    ensures
        within_depth(output(inv), limit),
{
    if inv.start < inv.end {
        match scope_of(inv.body) {
            Some(scope) => {
                law_scoped_output(inv, scope);
                let parts = units(scope.region, inv.variable, inv.start, inv.end);
                lemma_replaced_depth(inv.body, scope.path, Seq::empty(), limit);
                let inside = (limit - scope.path.len()) as nat;
                assert forall|i: int| 0 <= i < parts.len() implies within_depth(
                    #[trigger] parts[i],
                    inside,
                ) by {
                    lemma_expand_from_depth(
                        scope.region,
                        inv.variable,
                        (inv.start + i) as u64,
                        0,
                        inside,
                    );
                }
                lemma_flatten_depth(parts, inside);
                lemma_replaced_depth(inv.body, scope.path, parts.flatten(), limit);
            },
            None => {
                let parts = units(inv.body, inv.variable, inv.start, inv.end);
                assert forall|i: int| 0 <= i < parts.len() implies within_depth(
                    #[trigger] parts[i],
                    limit,
                ) by {
                    lemma_expand_from_depth(
                        inv.body,
                        inv.variable,
                        (inv.start + i) as u64,
                        0,
                        limit,
                    );
                }
                lemma_flatten_depth(parts, limit);
            },
        }
    }
}

} // verus!
