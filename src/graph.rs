//! The automaton graph and its construction from parsed rules.
use std::collections::{HashMap, HashSet};
use vstd::prelude::*;
use crate::context::{Checks, Exhausted};
use crate::parse::{Body, BodyModel, RuleModel};
use crate::runtime::{
    AutomatonResult, Walk, accepts, lemma_cycle, lemma_one_verdict, lemma_select_in_edges,
    lemma_select_progress, lemma_walk_one, select, start, verdict, walk,
};
use crate::transfer_fn::{
    Pred, Predicate, compile_transfer, eval, lemma_eval_progress, make_transfer_fn, pred_model,
};

verus! {

broadcast use vstd::std_specs::hash::group_hash_axioms;

/// Whether the rules describe a graph the runtime can walk as it stands.
#[derive(Clone, Copy, PartialEq, Eq, Debug)]
pub enum AutomatonType {
    NFA,
    DFA,
}

/// Why a specification does not give an automaton.
#[derive(Clone, Copy, PartialEq, Eq, Debug)]
pub enum BuildError {
    /// Two rules share a source and a destination.
    DuplicateEdge { from: u64, to: u64 },
    /// A state has both epsilon edges and edges with a predicate.
    Nondeterministic,
}

/// One outgoing edge: its destination and its compiled predicate.
pub struct Edge {
    pub to: u64,
    pub predicate: Predicate,
}

/// A built automaton. The outgoing edges of a state are kept in the order in
/// which they were declared: that order decides which edge the runtime takes.
pub struct Automaton {
    init_state: u64,
    fini_states: HashSet<u64>,
    states: HashSet<u64>,
    relations: HashMap<u64, Vec<Edge>>,
}

/// The mathematical form of an automaton; `out[s]` lists the edges leaving `s`
/// as (destination, predicate) pairs in declaration order.
pub struct AutomatonModel {
    pub init: u64,
    pub finals: Set<u64>,
    pub states: Set<u64>,
    pub out: Map<u64, Seq<(u64, Pred)>>,
}

/// An edge as a (destination, predicate) pair.
pub open spec fn edge_model(e: Edge) -> (u64, Pred) {
    (e.to, pred_model(e.predicate))
}

/// A list of edges as (destination, predicate) pairs.
pub open spec fn edges_model(v: Vec<Edge>) -> Seq<(u64, Pred)> {
    edges_model_seq(v@)
}

impl View for Automaton {
    type V = AutomatonModel;

    closed spec fn view(&self) -> AutomatonModel {
        AutomatonModel {
            init: self.init_state,
            finals: self.fini_states@,
            states: self.states@,
            out: self.relations@.map_values(|v: Vec<Edge>| edges_model(v)),
        }
    }
}

/// The edges leaving `s` in a model; none where `s` has no entry.
pub open spec fn out_edges(a: AutomatonModel, s: u64) -> Seq<(u64, Pred)> {
    if a.out.contains_key(s) {
        a.out[s]
    } else {
        seq![]
    }
}

/// The destinations of the edges out of `s`, in declaration order.
pub open spec fn adjacency(a: AutomatonModel, s: u64) -> Seq<u64> {
    out_edges(a, s).map_values(|e: (u64, Pred)| e.0)
}

impl AutomatonModel {
    /// The invariant of a built automaton: the states are finite and hold the
    /// initial state, the final states and every end of an edge, and no state
    /// has two edges to one destination.
    pub open spec fn wf(self) -> bool {
        &&& self.states.finite()
        &&& self.states.contains(self.init)
        &&& self.finals.subset_of(self.states)
        &&& forall|s: u64| #[trigger] self.out.contains_key(s) ==> self.states.contains(s)
        &&& forall|s: u64, k: int|
            0 <= k < out_edges(self, s).len() ==> self.states.contains(
                #[trigger] out_edges(self, s)[k].0,
            )
        &&& forall|s: u64, k1: int, k2: int|
            0 <= k1 < k2 < out_edges(self, s).len() ==> #[trigger] out_edges(self, s)[k1].0
                != #[trigger] out_edges(self, s)[k2].0
    }
}

/// The predicate that a rule's transfer compiles to.
pub open spec fn rule_pred(r: RuleModel) -> Pred {
    compile_transfer(r.transfer)
}

/// The edges that `rules` declare from `s`, in declaration order.
pub open spec fn edges_from(rules: Seq<RuleModel>, s: u64) -> Seq<(u64, Pred)>
    decreases rules.len(),
{
    if rules.len() == 0 {
        seq![]
    } else {
        let prev = edges_from(rules.drop_last(), s);
        let r = rules.last();
        if r.from == s {
            prev.push((r.to, rule_pred(r)))
        } else {
            prev
        }
    }
}

/// The sources of the rules.
pub open spec fn sources(rules: Seq<RuleModel>) -> Set<u64> {
    Set::new(|s: u64| exists|i: int| 0 <= i < rules.len() && (#[trigger] rules[i]).from == s)
}

/// The states that the rules mention, at either end.
pub open spec fn rule_states(rules: Seq<RuleModel>) -> Set<u64> {
    Set::new(
        |s: u64|
            exists|i: int|
                0 <= i < rules.len() && ((#[trigger] rules[i]).from == s || rules[i].to == s),
    )
}

/// No two rules share a source and a destination.
pub open spec fn no_duplicates(rules: Seq<RuleModel>) -> bool {
    forall|i: int, j: int|
        0 <= i < j < rules.len() ==> !(#[trigger] rules[i].from == #[trigger] rules[j].from
            && rules[i].to == rules[j].to)
}

/// State `s` has an epsilon edge and an edge with a predicate.
pub open spec fn mixes(rules: Seq<RuleModel>, s: u64) -> bool {
    exists|i: int, j: int|
        0 <= i < rules.len() && 0 <= j < rules.len() && (#[trigger] rules[i]).from == s
            && (#[trigger] rules[j]).from == s && rules[i].transfer is None
            && rules[j].transfer is Some
}

/// No state mixes epsilon edges with edges that carry a predicate.
pub open spec fn deterministic(rules: Seq<RuleModel>) -> bool {
    forall|s: u64| !mixes(rules, s)
}

/// A specification gives an automaton: no duplicate edge, and no state mixes
/// epsilon edges with edges with a predicate.
pub open spec fn buildable(b: BodyModel) -> bool {
    no_duplicates(b.rules) && deterministic(b.rules)
}

/// Building `b` fails with `e`: duplicate edges are reported before
/// nondeterminism.
pub open spec fn build_fails_with(b: BodyModel, e: BuildError) -> bool {
    match e {
        BuildError::DuplicateEdge { from, to } => exists|i: int, j: int|
            0 <= i < j < b.rules.len() && (#[trigger] b.rules[i]).from == from
                && (#[trigger] b.rules[j]).from == from && b.rules[i].to == to && b.rules[j].to == to,
        BuildError::Nondeterministic => no_duplicates(b.rules) && !deterministic(b.rules),
    }
}

/// The automaton that a specification describes.
pub open spec fn built(b: BodyModel) -> AutomatonModel {
    model_of(b.init, b.ends, b.rules)
}

/// The automaton that a specification describes.
pub open spec fn model_of(init: u64, ends: Seq<u64>, rules: Seq<RuleModel>) -> AutomatonModel {
    AutomatonModel {
        init: init,
        finals: ends.to_set(),
        states: rule_states(rules).insert(init).union(ends.to_set()),
        out: Map::new(|s: u64| sources(rules).contains(s), |s: u64| edges_from(rules, s)),
    }
}

/// Some rule goes from `s` to `d`.
pub open spec fn has_rule_to(rules: Seq<RuleModel>, s: u64, d: u64) -> bool {
    exists|j: int| 0 <= j < rules.len() && (#[trigger] rules[j]).from == s && rules[j].to == d
}

/// Each edge that `edges_from` lists comes from a rule.
pub proof fn lemma_edges_from_sound(rules: Seq<RuleModel>, s: u64)
    ensures
        forall|k: int|
            0 <= k < edges_from(rules, s).len() ==> #[trigger] has_rule_to(rules, s, edges_from(rules, s)[k].0),
    decreases rules.len(),
{
    if rules.len() > 0 {
        let p = rules.drop_last();
        lemma_edges_from_sound(p, s);
        let n = rules.len() - 1;
        assert forall|k: int| 0 <= k < edges_from(rules, s).len() implies #[trigger] has_rule_to(rules, s, edges_from(rules, s)[k].0) by {
            if k < edges_from(p, s).len() {
                assert(edges_from(rules, s)[k] == edges_from(p, s)[k]);
                assert(has_rule_to(p, s, edges_from(p, s)[k].0));
                let j = choose|j: int| 0 <= j < p.len() && (#[trigger] p[j]).from == s && p[j].to == edges_from(p, s)[k].0;
                assert(rules[j] == p[j]);
            } else {
                assert(rules[n].from == s && edges_from(rules, s)[k].0 == rules[n].to);
            }
        }
    } else {
        assert(edges_from(rules, s).len() == 0);
    }
}

/// Each rule from `s` is listed by `edges_from`.
pub proof fn lemma_edges_from_complete(rules: Seq<RuleModel>, s: u64)
    ensures
        forall|j: int|
            0 <= j < rules.len() && (#[trigger] rules[j]).from == s ==> exists|k: int|
                0 <= k < edges_from(rules, s).len() && (#[trigger] edges_from(rules, s)[k]).0 == rules[j].to,
    decreases rules.len(),
{
    if rules.len() > 0 {
        let p = rules.drop_last();
        lemma_edges_from_complete(p, s);
        let ef = edges_from(rules, s);
        let pf = edges_from(p, s);
        let n = rules.len() - 1;
        assert forall|j: int| 0 <= j < rules.len() && (#[trigger] rules[j]).from == s implies exists|k: int|
            0 <= k < edges_from(rules, s).len() && (#[trigger] edges_from(rules, s)[k]).0 == rules[j].to by {
            if j < n {
                assert(p[j] == rules[j]);
                let k = choose|k: int| 0 <= k < pf.len() && (#[trigger] pf[k]).0 == p[j].to;
                assert(ef[k] == pf[k]);
            } else {
                assert(ef[pf.len() as int].0 == rules[j].to);
            }
        }
    }
}

/// Without duplicate rules, `edges_from` lists no destination twice.
pub proof fn lemma_edges_from_distinct(rules: Seq<RuleModel>, s: u64)
    requires
        no_duplicates(rules),
    ensures
        forall|k1: int, k2: int|
            0 <= k1 < k2 < edges_from(rules, s).len() ==> (#[trigger] edges_from(rules, s)[k1]).0
                != (#[trigger] edges_from(rules, s)[k2]).0,
    decreases rules.len(),
{
    if rules.len() > 0 {
        let p = rules.drop_last();
        let ef = edges_from(rules, s);
        let pf = edges_from(p, s);
        let n = rules.len() - 1;
        assert(no_duplicates(p)) by {
            assert forall|i: int, j: int| 0 <= i < j < p.len() implies !(#[trigger] p[i].from
                == #[trigger] p[j].from && p[i].to == p[j].to) by {
                assert(p[i] == rules[i] && p[j] == rules[j]);
            }
        }
        lemma_edges_from_distinct(p, s);
        lemma_edges_from_sound(p, s);
        assert forall|k1: int, k2: int| 0 <= k1 < k2 < edges_from(rules, s).len() implies (#[trigger] edges_from(rules, s)[k1]).0
            != (#[trigger] edges_from(rules, s)[k2]).0 by {
            if k2 < pf.len() {
                assert(ef[k1] == pf[k1] && ef[k2] == pf[k2]);
            } else {
                assert(ef[k1] == pf[k1]);
                assert(has_rule_to(p, s, pf[k1].0));
                let j = choose|j: int| 0 <= j < p.len() && (#[trigger] p[j]).from == s && p[j].to == pf[k1].0;
                assert(rules[j] == p[j]);
                assert(!(rules[j].from == rules[n].from && rules[j].to == rules[n].to));
            }
        }
    }
}

/// A model built by `model_of` from rules without duplicates is well formed.
pub proof fn lemma_model_wf(init: u64, ends: Seq<u64>, rules: Seq<RuleModel>)
    requires
        no_duplicates(rules),
        rule_states(rules).finite(),
    ensures
        model_of(init, ends, rules).wf(),
{
    let a = model_of(init, ends, rules);
    vstd::seq_lib::seq_to_set_is_finite(ends);
    assert forall|s: u64| #[trigger] a.out.contains_key(s) implies a.states.contains(s) by {
        let i = choose|i: int| 0 <= i < rules.len() && (#[trigger] rules[i]).from == s;
        assert(rule_states(rules).contains(s));
    }
    assert forall|s: u64, k: int| 0 <= k < out_edges(a, s).len() implies a.states.contains(
        #[trigger] out_edges(a, s)[k].0) by {
        lemma_edges_from_sound(rules, s);
        assert(a.out.contains_key(s));
        let d = out_edges(a, s)[k].0;
        assert(out_edges(a, s)[k] == edges_from(rules, s)[k]);
        assert(has_rule_to(rules, s, edges_from(rules, s)[k].0));
        let j = choose|j: int| 0 <= j < rules.len() && (#[trigger] rules[j]).from == s && rules[j].to == edges_from(rules, s)[k].0;
        assert(rule_states(rules).contains(d));
    }
    assert forall|s: u64, k1: int, k2: int| 0 <= k1 < k2 < out_edges(a, s).len() implies
        #[trigger] out_edges(a, s)[k1].0 != #[trigger] out_edges(a, s)[k2].0 by {
        lemma_edges_from_distinct(rules, s);
        assert(a.out.contains_key(s));
        assert(out_edges(a, s)[k1] == edges_from(rules, s)[k1]);
        assert(out_edges(a, s)[k2] == edges_from(rules, s)[k2]);
    }
}

/// Whether `edges` holds an edge to `to`.
fn has_dest(edges: &Vec<Edge>, to: u64) -> (r: bool)
    ensures
        r == exists|k: int| 0 <= k < edges@.len() && (#[trigger] edges@[k]).to == to,
{
    let mut k: usize = 0;
    while k < edges.len()
        invariant
            k <= edges@.len(),
            forall|j: int| 0 <= j < k ==> (#[trigger] edges@[j]).to != to,
        decreases edges@.len() - k,
    {
        if edges[k].to == to {
            return true;
        }
        k = k + 1;
    }
    false
}

impl Body {
    /// `NFA` exactly where some state has both an epsilon edge and an edge with
    /// a predicate: the runtime cannot choose between them, and such a graph is
    /// not reduced to a deterministic one.
    pub fn validate(&self) -> (r: AutomatonType)
        ensures
            (r == AutomatonType::NFA) <==> !deterministic(self@.rules),
    {
        let n = self.rules.len();
        let ghost rules = self@.rules;
        let mut i: usize = 0;
        while i < n
            invariant
                n == self.rules@.len(),
                rules == self@.rules,
                i <= n,
                forall|a: int, b: int|
                    0 <= a < i && 0 <= b < n ==> !((#[trigger] rules[a]).from == (#[trigger] rules[b]).from
                        && rules[a].transfer is None && rules[b].transfer is Some),
            decreases n - i,
        {
            assert(rules[i as int] == self.rules@[i as int]@);
            if self.rules[i].transfer.is_none() {
                let mut j: usize = 0;
                while j < n
                    invariant
                        n == self.rules@.len(),
                        rules == self@.rules,
                        i < n,
                        j <= n,
                        rules[i as int].transfer is None,
                        forall|b: int|
                            0 <= b < j ==> !((#[trigger] rules[b]).from == rules[i as int].from
                                && rules[b].transfer is Some),
                    decreases n - j,
                {
                    assert(rules[j as int] == self.rules@[j as int]@);
                    if self.rules[j].begin_stat == self.rules[i].begin_stat
                        && self.rules[j].transfer.is_some() {
                        assert(mixes(rules, rules[i as int].from));
                        return AutomatonType::NFA;
                    }
                    j = j + 1;
                }
            }
            i = i + 1;
        }
        assert forall|s: u64| !mixes(rules, s) by {
            if mixes(rules, s) {
                let (a, b) = choose|a: int, b: int|
                    0 <= a < rules.len() && 0 <= b < rules.len() && (#[trigger] rules[a]).from == s
                        && (#[trigger] rules[b]).from == s && rules[a].transfer is None
                        && rules[b].transfer is Some;
                assert(rules[a].from == rules[b].from);
            }
        }
        AutomatonType::DFA
    }
}

/// Adding a rule adds its two ends to the states and its source to the sources,
/// and appends its edge to the edges of its source.
proof fn lemma_push_rule(p: Seq<RuleModel>, r: RuleModel)
    ensures
        rule_states(p.push(r)) == rule_states(p).insert(r.from).insert(r.to),
        sources(p.push(r)) == sources(p).insert(r.from),
        edges_from(p.push(r), r.from) == edges_from(p, r.from).push((r.to, rule_pred(r))),
        forall|s: u64| s != r.from ==> #[trigger] edges_from(p.push(r), s) == edges_from(p, s),
{
    let q = p.push(r);
    assert(q.drop_last() =~= p);
    assert(q[p.len() as int] == r);
    assert forall|s: u64| rule_states(q).contains(s) <==> rule_states(p).insert(r.from).insert(r.to).contains(s) by {
        if rule_states(p).contains(s) {
            let i = choose|i: int| 0 <= i < p.len() && ((#[trigger] p[i]).from == s || p[i].to == s);
            assert(q[i] == p[i]);
        }
        if rule_states(q).contains(s) && s != r.from && s != r.to {
            let i = choose|i: int| 0 <= i < q.len() && ((#[trigger] q[i]).from == s || q[i].to == s);
            assert(q[i] == p[i]);
        }
    }
    assert(rule_states(q) =~= rule_states(p).insert(r.from).insert(r.to));
    assert forall|s: u64| sources(q).contains(s) <==> sources(p).insert(r.from).contains(s) by {
        if sources(p).contains(s) {
            let i = choose|i: int| 0 <= i < p.len() && (#[trigger] p[i]).from == s;
            assert(q[i] == p[i]);
        }
        if sources(q).contains(s) && s != r.from {
            let i = choose|i: int| 0 <= i < q.len() && (#[trigger] q[i]).from == s;
            assert(q[i] == p[i]);
        }
    }
    assert(sources(q) =~= sources(p).insert(r.from));
}

impl Automaton {
    /// Builds the automaton that `body` describes. The states are the initial
    /// state, the final states and both ends of every rule; the edges of each
    /// state keep the order of the rules, each with its compiled predicate
    /// (`Always` for an epsilon edge). Fails on two rules with one source and one
    /// destination; else on a state with both epsilon edges and edges with a
    /// predicate.
    pub fn new(body: &Body) -> (r: Result<Automaton, BuildError>)
        ensures
            r is Ok <==> buildable(body@),
            r matches Ok(a) ==> a@ == built(body@) && a@.wf(),
            r matches Err(e) ==> build_fails_with(body@, e),
    {
        let ghost rules = body@.rules;
        let ghost ends = body@.ends;
        let mut states: HashSet<u64> = HashSet::new();
        let mut fini_states: HashSet<u64> = HashSet::new();
        states.insert(body.init_stat);
        let mut e: usize = 0;
        while e < body.fini_stats.len()
            invariant
                e <= ends.len(),
                ends == body.fini_stats@,
                states@ == Set::<u64>::empty().insert(body.init_stat).union(ends.subrange(0, e as int).to_set()),
                fini_states@ == ends.subrange(0, e as int).to_set(),
                states@.finite(),
            decreases ends.len() - e,
        {
            let x = body.fini_stats[e];
            proof {
                let q = ends.subrange(0, e as int);
                assert(ends.subrange(0, e + 1) =~= q.push(x));
                q.lemma_push_to_set_commute(x);
            }
            states.insert(x);
            fini_states.insert(x);
            e = e + 1;
            proof {
                assert(states@ =~= Set::<u64>::empty().insert(body.init_stat).union(ends.subrange(0, e as int).to_set()));
            }
        }
        proof {
            assert(ends.subrange(0, ends.len() as int) =~= ends);
        }
        let mut relations: HashMap<u64, Vec<Edge>> = HashMap::new();
        let n = body.rules.len();
        let mut i: usize = 0;
        while i < n
            invariant
                n == rules.len(),
                rules == body@.rules,
                ends == body@.ends,
                i <= n,
                fini_states@ == ends.to_set(),
                states@ == rule_states(rules.subrange(0, i as int)).insert(body.init_stat).union(ends.to_set()),
                states@.finite(),
                relations@.dom() == sources(rules.subrange(0, i as int)),
                forall|s: u64| #[trigger] relations@.contains_key(s) ==> edges_model(relations@[s])
                    == edges_from(rules.subrange(0, i as int), s),
                no_duplicates(rules.subrange(0, i as int)),
            decreases n - i,
        {
            let ghost p = rules.subrange(0, i as int);
            let rule = &body.rules[i];
            let from = rule.begin_stat;
            let to = rule.end_stat;
            let ghost r = rules[i as int];
            proof {
                assert(r == rule@);
                assert(rules.subrange(0, i + 1) =~= p.push(r));
                lemma_push_rule(p, r);
                lemma_edges_from_sound(p, from);
                lemma_edges_from_complete(p, from);
            }
            let mut list: Vec<Edge> = match relations.remove(&from) {
                Some(v) => v,
                None => Vec::new(),
            };
            proof {
                if !relations@.contains_key(from) && !sources(p).contains(from) {
                    assert(edges_from(p, from) =~= seq![]) by {
                        if edges_from(p, from).len() > 0 {
                            assert(has_rule_to(p, from, edges_from(p, from)[0].0));
                        }
                    }
                }
                assert(edges_model(list) == edges_from(p, from));
            }
            if has_dest(&list, to) {
                proof {
                    let k = choose|k: int| 0 <= k < list@.len() && (#[trigger] list@[k]).to == to;
                    assert(edges_model(list)[k].0 == to);
                    assert(has_rule_to(p, from, edges_from(p, from)[k].0));
                    let j = choose|j: int| 0 <= j < p.len() && (#[trigger] p[j]).from == from && p[j].to == to;
                    assert(p[j] == rules[j]);
                    assert(rules[j].from == rules[i as int].from && rules[j].to == rules[i as int].to);
                }
                return Err(BuildError::DuplicateEdge { from, to });
            }
            proof {
                assert forall|a: int, b: int| 0 <= a < b < i + 1 implies !(#[trigger] rules.subrange(0, i + 1)[a].from
                    == #[trigger] rules.subrange(0, i + 1)[b].from && rules.subrange(0, i + 1)[a].to == rules.subrange(0, i + 1)[b].to) by {
                    if b == i && rules[a].from == from && rules[a].to == to {
                        assert(p[a] == rules[a]);
                        let k = choose|k: int| 0 <= k < edges_from(p, from).len() && (#[trigger] edges_from(p, from)[k]).0 == p[a].to;
                        assert(list@[k].to == edges_model(list)[k].0);
                    }
                    if b < i {
                        assert(p[a] == rules[a] && p[b] == rules[b]);
                    }
                }
            }
            let predicate = make_transfer_fn(&rule.transfer);
            let ghost old_list = list@;
            list.push(Edge { to, predicate });
            proof {
                assert(edges_model(list) =~= edges_model_seq(old_list).push((to, rule_pred(r))));
            }
            relations.insert(from, list);
            states.insert(from);
            states.insert(to);
            i = i + 1;
            proof {
                let q = rules.subrange(0, i as int);
                assert(q == p.push(r));
                assert(relations@.dom() =~= sources(q));
                assert(states@ =~= rule_states(q).insert(body.init_stat).union(ends.to_set()));
                assert(forall|k: int| 0 <= k < p.len() ==> q[k] == p[k]);
                assert(q[i - 1] == r);
            }
        }
        proof {
            assert(rules.subrange(0, n as int) =~= rules);
        }
        if let AutomatonType::NFA = body.validate() {
            return Err(BuildError::Nondeterministic);
        }
        let a = Automaton { init_state: body.init_stat, fini_states, states, relations };
        proof {
            let m = model_of(body@.init, body@.ends, rules);
            assert(a@.out =~= m.out);
            assert(rule_states(rules).finite()) by {
                assert(rule_states(rules).subset_of(states@));
                vstd::set_lib::lemma_len_subset(rule_states(rules), states@);
            }
            lemma_model_wf(body@.init, body@.ends, rules);
        }
        Ok(a)
    }
}

impl Automaton {
    /// Tries the edges out of `state` in declaration order and returns the
    /// destination of the first whose predicate holds; the later ones are not tried.
    fn select_edge<C: Exhausted, K: Checks<C>>(&self, state: u64, checks: &K, context: &mut C) -> (r: Option<u64>)
        requires
            old(context).position() <= old(context).limit(),
        ensures
            (r, *final(context)) == select(out_edges(self@, state), *checks, *old(context), 0),
    {
        let ghost c0 = *context;
        match self.relations.get(&state) {
            None => None,
            Some(edges) => {
                let ghost es = out_edges(self@, state);
                assert(es == edges_model(*edges));
                let mut i: usize = 0;
                while i < edges.len()
                    invariant
                        es == edges_model(*edges),
                        es == out_edges(self@, state),
                        c0 == *old(context),
                        i <= edges@.len(),
                        context.position() <= context.limit(),
                        select(es, *checks, c0, 0) == select(es, *checks, *context, i as nat),
                    decreases edges@.len() - i,
                {
                    let e = &edges[i];
                    assert(es[i as int] == (e.to, e.predicate@));
                    let ghost c = *context;
                    proof {
                        lemma_eval_progress(e.predicate@, *checks, c);
                    }
                    let ok = e.predicate.eval(checks, context);
                    proof {
                        assert(es.len() == edges@.len());
                        assert(eval(es[i as int].1, *checks, c) == (ok, *context));
                    }
                    if ok {
                        return Some(e.to);
                    }
                    i = i + 1;
                }
                None
            },
        }
    }

    /// Runs the automaton on `context` with the checks of `checks`. The walk
    /// starts in the initial state; a state entered with the input used up ends
    /// it, accepted exactly when that state is final. Otherwise the first edge
    /// (in declaration order) whose predicate holds is taken, and a state with
    /// none rejects. Wherever the walk reaches a verdict, that is the result and
    /// the context is left as the walk left it. A walk that comes back to a state
    /// without moving the context would repeat itself forever: it is rejected.
    pub fn run<C: Exhausted, K: Checks<C>>(&self, checks: &K, context: &mut C) -> (r: AutomatonResult)
        requires
            self@.wf(),
            old(context).position() <= old(context).limit(),
        ensures
            (r == AutomatonResult::Accepted) <==> accepts(self@, *checks, *old(context)),
            forall|n: nat|
                !(#[trigger] walk(self@, *checks, start(self@, *old(context)), n) is At) ==> walk(
                    self@,
                    *checks,
                    start(self@, *old(context)),
                    n,
                ) == verdict(r, *final(context)),
            r == AutomatonResult::Accepted ==> final(context).is_exhausted(),
    {
        let ghost a = self@;
        let ghost k0 = *checks;
        let ghost c0 = *context;
        let ghost w0 = start(a, c0);
        if context.exhausted() {
            let r = if self.fini_states.contains(&self.init_state) {
                AutomatonResult::Accepted
            } else {
                AutomatonResult::Rejected
            };
            proof {
                assert(walk(a, k0, w0, 0) == w0);
                assert(w0 == verdict(r, *context));
                assert forall|n: nat| !(#[trigger] walk(a, k0, w0, n) is At) implies walk(a, k0, w0, n)
                    == verdict(r, *context) by {
                    lemma_one_verdict(a, k0, w0, 0, n);
                }
                if r == AutomatonResult::Rejected {
                    assert forall|n: nat| !(#[trigger] walk(a, k0, w0, n) is Accepted) by {
                        if !(walk(a, k0, w0, n) is At) {
                            lemma_one_verdict(a, k0, w0, 0, n);
                        }
                    }
                } else {
                    assert(walk(a, k0, w0, 0) is Accepted);
                }
            }
            return r;
        }
        let mut state = self.init_state;
        let mut visited: HashSet<u64> = HashSet::new();
        let ghost mut n: nat = 0;
        let ghost lim = context.limit();
        loop
            invariant
                a == self@,
                a.wf(),
                k0 == *checks,
                c0 == *old(context),
                w0 == start(a, c0),
                lim == context.limit(),
                context.position() <= lim,
                !context.is_exhausted(),
                walk(a, k0, w0, n) == Walk::At(state, *context),
                a.states.contains(state),
                visited@.finite(),
                visited@.subset_of(a.states),
                forall|v: u64|
                    #[trigger] visited@.contains(v) ==> exists|j: nat|
                        j < n && walk(a, k0, w0, j) == Walk::At(v, *context),
            decreases lim - context.position(), a.states.len() - visited@.len(),
        {
            proof {
                vstd::set_lib::lemma_len_subset(visited@, a.states);
            }
            if visited.contains(&state) {
                proof {
                    let j = choose|j: nat| j < n && walk(a, k0, w0, j) == Walk::At(state, *context);
                    assert forall|m: nat| #[trigger] walk(a, k0, w0, m) is At by {
                        lemma_cycle(a, k0, w0, j, n, m);
                    }
                    assert(!accepts(a, k0, c0));
                }
                return AutomatonResult::Rejected;
            }
            let ghost before = visited@;
            visited.insert(state);
            assert(visited@.len() == before.len() + 1);
            let mark: usize = context.progress();
            let ghost c = *context;
            proof {
                lemma_walk_one(a, k0, w0, n);
                lemma_select_progress(out_edges(a, state), k0, c, 0);
            }
            let chosen = self.select_edge(state, checks, context);
            let ghost n1: nat = n + 1;
            match chosen {
                None => {
                    proof {
                        assert(walk(a, k0, w0, n1) == Walk::Rejected(*context));
                        assert forall|m: nat| !(#[trigger] walk(a, k0, w0, m) is At) implies walk(a, k0, w0, m)
                            == verdict(AutomatonResult::Rejected, *context) by {
                            lemma_one_verdict(a, k0, w0, n1, m);
                        }
                        assert forall|m: nat| !(#[trigger] walk(a, k0, w0, m) is Accepted) by {
                            if !(walk(a, k0, w0, m) is At) {
                                lemma_one_verdict(a, k0, w0, n1, m);
                            }
                        }
                    }
                    return AutomatonResult::Rejected;
                },
                Some(d) => {
                    proof {
                        let es = out_edges(a, state);
                        lemma_select_in_edges(es, k0, c, 0);
                        let q = choose|q: int| 0 <= q < es.len() && es[q].0 == d;
                        assert(a.states.contains(es[q].0));
                    }
                    if context.exhausted() {
                        let r = if self.fini_states.contains(&d) {
                            AutomatonResult::Accepted
                        } else {
                            AutomatonResult::Rejected
                        };
                        proof {
                            assert(walk(a, k0, w0, n1) == verdict(r, *context));
                            assert forall|m: nat| !(#[trigger] walk(a, k0, w0, m) is At) implies walk(a, k0, w0, m)
                                == verdict(r, *context) by {
                                lemma_one_verdict(a, k0, w0, n1, m);
                            }
                            if r == AutomatonResult::Rejected {
                                assert forall|m: nat| !(#[trigger] walk(a, k0, w0, m) is Accepted) by {
                                    if !(walk(a, k0, w0, m) is At) {
                                        lemma_one_verdict(a, k0, w0, n1, m);
                                    }
                                }
                            } else {
                                assert(walk(a, k0, w0, n1) is Accepted);
                            }
                        }
                        return r;
                    }
                    if context.progress() != mark {
                        visited = HashSet::new();
                    }
                    let ghost prev = state;
                    state = d;
                    proof {
                        assert(walk(a, k0, w0, n1) == Walk::At(state, *context));
                        if context.position() == c.position() {
                            assert(*context == c);
                            assert(visited@.subset_of(a.states));
                            vstd::set_lib::lemma_len_subset(visited@, a.states);
                            assert forall|v: u64| #[trigger] visited@.contains(v) implies exists|j: nat|
                                j < n1 && walk(a, k0, w0, j) == Walk::At(v, *context) by {
                                if v == prev {
                                    assert(walk(a, k0, w0, n) == Walk::At(v, *context));
                                }
                            }
                        }
                        n = n1;
                    }
                },
            }
        }
    }
}

impl Automaton {
    /// The initial state.
    pub fn init_state(&self) -> (r: u64)
        ensures
            r == self@.init,
    {
        self.init_state
    }

    /// Whether `s` is a final state.
    pub fn is_final(&self, s: u64) -> (r: bool)
        ensures
            r == self@.finals.contains(s),
    {
        self.fini_states.contains(&s)
    }

    /// Whether `s` is a state of the automaton.
    pub fn has_state(&self, s: u64) -> (r: bool)
        ensures
            r == self@.states.contains(s),
    {
        self.states.contains(&s)
    }

    /// The number of states.
    pub fn state_count(&self) -> (r: usize)
        ensures
            r == self@.states.len(),
    {
        self.states.len()
    }

    /// The compiled predicate of the edge from `from` to `to`, if there is one.
    pub fn predicate(&self, from: u64, to: u64) -> (r: Option<&Predicate>)
        ensures
            match r {
                Some(p) => exists|k: int|
                    0 <= k < out_edges(self@, from).len() && #[trigger] out_edges(self@, from)[k] == (
                    to,
                    p@,
                ),
                None => forall|k: int|
                    0 <= k < out_edges(self@, from).len() ==> #[trigger] out_edges(self@, from)[k].0
                        != to,
            },
    {
        match self.relations.get(&from) {
            None => None,
            Some(edges) => {
                let ghost es = out_edges(self@, from);
                assert(es == edges_model(*edges));
                let mut i: usize = 0;
                while i < edges.len()
                    invariant
                        es == edges_model(*edges),
                        es == out_edges(self@, from),
                        es.len() == edges@.len(),
                        i <= edges@.len(),
                        forall|k: int| 0 <= k < i ==> #[trigger] es[k].0 != to,
                    decreases edges@.len() - i,
                {
                    assert(es[i as int] == (edges@[i as int].to, edges@[i as int].predicate@));
                    if edges[i].to == to {
                        return Some(&edges[i].predicate);
                    }
                    i = i + 1;
                }
                None
            },
        }
    }

    /// The destinations of the edges out of `s`, in declaration order.
    pub fn successors(&self, s: u64) -> (r: Vec<u64>)
        ensures
            r@ == adjacency(self@, s),
    {
        let mut r: Vec<u64> = Vec::new();
        match self.relations.get(&s) {
            None => {
                assert(r@ =~= out_edges(self@, s).map_values(|e: (u64, Pred)| e.0));
            },
            Some(edges) => {
                let ghost es = out_edges(self@, s);
                assert(es == edges_model(*edges));
                let mut i: usize = 0;
                while i < edges.len()
                    invariant
                        es == edges_model(*edges),
                        es.len() == edges@.len(),
                        i <= edges@.len(),
                        r@ == es.subrange(0, i as int).map_values(|e: (u64, Pred)| e.0),
                    decreases edges@.len() - i,
                {
                    r.push(edges[i].to);
                    i = i + 1;
                    assert(r@ =~= es.subrange(0, i as int).map_values(|e: (u64, Pred)| e.0));
                }
                assert(es.subrange(0, i as int) =~= es);
            },
        }
        r
    }
}

/// Building twice from one specification gives the same automaton: the same
/// initial state, states, final states and edges, whatever the order in which
/// the hash tables are walked.
pub proof fn lemma_build_idempotent(body: Body, x: Automaton, y: Automaton)
    requires
        x@ == built(body@),
        y@ == built(body@),
    ensures
        x@.init == y@.init,
        x@.states == y@.states,
        x@.finals == y@.finals,
        x@.out == y@.out,
{
}

/// The edges of a sequence of `Edge`s as pairs.
pub open spec fn edges_model_seq(v: Seq<Edge>) -> Seq<(u64, Pred)> {
    v.map_values(|e: Edge| edge_model(e))
}

} // verus!
