//! The meaning of a run: the walk of an automaton over an input, step by step.
use vstd::prelude::*;
use crate::graph::{AutomatonModel, out_edges};
use crate::context::{Checks, Exhausted};
use crate::transfer_fn::{Pred, eval, lemma_eval_progress};

verus! {

/// The verdict of a run.
#[derive(Clone, Copy, PartialEq, Eq, Debug)]
pub enum AutomatonResult {
    Accepted,
    Rejected,
}

/// Where a walk stands: at a verdict with the context it ended with, or in a
/// state with the current context.
pub enum Walk<C> {
    Accepted(C),
    Rejected(C),
    At(u64, C),
}

/// Tries the edges `edges[i..]` in order, each predicate on the context that the
/// previous one left: the destination of the first that holds, if any, and the
/// context afterwards. The edges after the first that holds are not tried.
pub open spec fn select<C: Exhausted, K: Checks<C>>(edges: Seq<(u64, Pred)>, k: K, c: C, i: nat) -> (Option<u64>, C)
    decreases edges.len() - i,
{
    if i >= edges.len() {
        (None, c)
    } else {
        let t = eval(edges[i as int].1, k, c);
        if t.0 {
            (Some(edges[i as int].0), t.1)
        } else {
            select(edges, k, t.1, i + 1)
        }
    }
}

/// Entering state `d` with context `c`: where the input is used up the walk
/// ends, accepted exactly when `d` is final.
pub open spec fn enter<C: Exhausted>(a: AutomatonModel, d: u64, c: C) -> Walk<C> {
    if c.is_exhausted() {
        if a.finals.contains(d) {
            Walk::Accepted(c)
        } else {
            Walk::Rejected(c)
        }
    } else {
        Walk::At(d, c)
    }
}

/// One step from state `s`: rejected where no edge holds.
pub open spec fn step<C: Exhausted, K: Checks<C>>(a: AutomatonModel, k: K, s: u64, c: C) -> Walk<C> {
    let sel = select(out_edges(a, s), k, c, 0);
    match sel.0 {
        None => Walk::Rejected(sel.1),
        Some(d) => enter(a, d, sel.1),
    }
}

/// The walk one step further; a verdict stays.
pub open spec fn next<C: Exhausted, K: Checks<C>>(a: AutomatonModel, k: K, w: Walk<C>) -> Walk<C> {
    match w {
        Walk::At(s, c) => step(a, k, s, c),
        _ => w,
    }
}

/// The walk `n` steps further.
pub open spec fn walk<C: Exhausted, K: Checks<C>>(a: AutomatonModel, k: K, w: Walk<C>, n: nat) -> Walk<C>
    decreases n,
{
    if n == 0 {
        w
    } else {
        walk(a, k, next(a, k, w), (n - 1) as nat)
    }
}

/// Where a run starts: the initial state entered with context `c`.
pub open spec fn start<C: Exhausted>(a: AutomatonModel, c: C) -> Walk<C> {
    enter(a, a.init, c)
}

/// The walk from context `c` reaches `Accepted`.
pub open spec fn accepts<C: Exhausted, K: Checks<C>>(a: AutomatonModel, k: K, c: C) -> bool {
    exists|n: nat| #[trigger] walk(a, k, start(a, c), n) is Accepted
}

/// The walk position that a verdict and the context it left stand for.
pub open spec fn verdict<C>(r: AutomatonResult, c: C) -> Walk<C> {
    match r {
        AutomatonResult::Accepted => Walk::Accepted(c),
        AutomatonResult::Rejected => Walk::Rejected(c),
    }
}

/// Walking `x` steps and then `y` steps is walking `x + y` steps.
pub proof fn lemma_walk_add<C: Exhausted, K: Checks<C>>(a: AutomatonModel, k: K, w: Walk<C>, x: nat, y: nat)
    ensures
        walk(a, k, w, x + y) == walk(a, k, walk(a, k, w, x), y),
    decreases x,
{
    if x > 0 {
        lemma_walk_add(a, k, next(a, k, w), (x - 1) as nat, y);
        assert((x + y - 1) as nat == (x - 1) as nat + y);
    }
}

/// A verdict stays.
pub proof fn lemma_verdict_stays<C: Exhausted, K: Checks<C>>(a: AutomatonModel, k: K, w: Walk<C>, n: nat)
    requires
        !(w is At),
    ensures
        walk(a, k, w, n) == w,
    decreases n,
{
    if n > 0 {
        lemma_verdict_stays(a, k, w, (n - 1) as nat);
    }
}

/// One step of a walk is `next`.
pub proof fn lemma_walk_one<C: Exhausted, K: Checks<C>>(a: AutomatonModel, k: K, w: Walk<C>, n: nat)
    ensures
        walk(a, k, w, n + 1) == next(a, k, walk(a, k, w, n)),
{
    lemma_walk_add(a, k, w, n, 1);
    assert(walk(a, k, next(a, k, walk(a, k, w, n)), 0) == next(a, k, walk(a, k, w, n)));
}

/// A walk that comes back to where it stood never reaches a verdict.
pub proof fn lemma_cycle<C: Exhausted, K: Checks<C>>(a: AutomatonModel, k: K, w: Walk<C>, x: nat, y: nat, n: nat)
    requires
        x < y,
        walk(a, k, w, x) == walk(a, k, w, y),
        walk(a, k, w, y) is At,
    ensures
        walk(a, k, w, n) is At,
    decreases n,
{
    if n <= y {
        if !(walk(a, k, w, n) is At) {
            lemma_walk_add(a, k, w, n, (y - n) as nat);
            lemma_verdict_stays(a, k, walk(a, k, w, n), (y - n) as nat);
        }
    } else {
        lemma_walk_add(a, k, w, y, (n - y) as nat);
        lemma_walk_add(a, k, w, x, (n - y) as nat);
        lemma_cycle(a, k, w, x, y, (x + n - y) as nat);
    }
}

/// A walk reaches at most one verdict, with one context.
pub proof fn lemma_one_verdict<C: Exhausted, K: Checks<C>>(a: AutomatonModel, k: K, w: Walk<C>, n1: nat, n2: nat)
    requires
        !(walk(a, k, w, n1) is At),
        !(walk(a, k, w, n2) is At),
    ensures
        walk(a, k, w, n1) == walk(a, k, w, n2),
{
    if n1 <= n2 {
        lemma_walk_add(a, k, w, n1, (n2 - n1) as nat);
        lemma_verdict_stays(a, k, walk(a, k, w, n1), (n2 - n1) as nat);
    } else {
        lemma_walk_add(a, k, w, n2, (n1 - n2) as nat);
        lemma_verdict_stays(a, k, walk(a, k, w, n2), (n1 - n2) as nat);
    }
}

/// Selection keeps the limit, never moves the position back nor past the
/// limit, and changes nothing where it does not move the position.
pub proof fn lemma_select_progress<C: Exhausted, K: Checks<C>>(edges: Seq<(u64, Pred)>, k: K, c: C, i: nat)
    requires
        c.position() <= c.limit(),
    ensures
        select(edges, k, c, i).1.limit() == c.limit(),
        c.position() <= select(edges, k, c, i).1.position() <= c.limit(),
        select(edges, k, c, i).1.position() == c.position() ==> select(edges, k, c, i).1 == c,
    decreases edges.len() - i,
{
    if i < edges.len() {
        let t = eval(edges[i as int].1, k, c);
        lemma_eval_progress(edges[i as int].1, k, c);
        lemma_select_progress(edges, k, t.1, i + 1);
    }
}

/// The destination that selection returns is one of the edges'.
pub proof fn lemma_select_in_edges<C: Exhausted, K: Checks<C>>(edges: Seq<(u64, Pred)>, k: K, c: C, i: nat)
    ensures
        select(edges, k, c, i).0 matches Some(d) ==> exists|q: int|
            0 <= q < edges.len() && (#[trigger] edges[q]).0 == d,
    decreases edges.len() - i,
{
    if i < edges.len() {
        lemma_select_in_edges(edges, k, eval(edges[i as int].1, k, c).1, i + 1);
        if eval(edges[i as int].1, k, c).0 {
            assert(edges[i as int].0 == select(edges, k, c, i).0->Some_0);
        }
    }
}

/// Once an edge's predicate holds, the edges declared after it are never
/// tried: appending edges changes neither the chosen destination nor the context.
pub proof fn lemma_later_edges_never_tried<C: Exhausted, K: Checks<C>>(
    edges: Seq<(u64, Pred)>,
    extra: Seq<(u64, Pred)>,
    k: K,
    c: C,
    i: nat,
)
    requires
        select(edges, k, c, i).0 is Some,
    ensures
        select(edges + extra, k, c, i) == select(edges, k, c, i),
    decreases edges.len() - i,
{
    if i < edges.len() {
        let t = eval(edges[i as int].1, k, c);
        assert((edges + extra)[i as int] == edges[i as int]);
        if !t.0 {
            lemma_later_edges_never_tried(edges, extra, k, t.1, i + 1);
        }
    }
}

} // verus!
