//! Exploration engines over caller-defined state graphs.
//!
//! States are encoded as `u64` values below a caller-chosen bound, which
//! keeps every search space finite. A graph is given by a trait
//! implementation pairing each executable method with the spec function it
//! computes, so the engines' contracts speak purely about the spec-level
//! graph.
//!
//! `shortest_path` explores breadth-first and returns the least number of
//! transitions that reaches a goal state. `evaluate` folds a value bottom-up
//! over an acyclic state graph, caching each state's value; `evaluate_plain`
//! does the same without the cache, and both are pinned to the same spec
//! function `eval`, so memoization cannot change any result.

use std::collections::{HashMap, HashSet};

use vstd::prelude::*;

use crate::errors::EngineError;

verus! {

broadcast use vstd::std_specs::hash::group_hash_axioms, vstd::seq_lib::group_seq_properties;

/// A state graph for breadth-first search: neighbor relation and goal
/// predicate over states below `bound`.
pub trait StateGraph: Sized {
    /// All states of interest lie strictly below this value.
    spec fn bound(&self) -> u64;

    /// The neighbors of `s`.
    spec fn nbrs(&self, s: u64) -> Seq<u64>;

    /// Whether `s` is a goal state.
    spec fn goal(&self, s: u64) -> bool;

    /// Executable neighbor enumeration, in a deterministic order.
    fn neighbors(&self, s: u64) -> (r: Vec<u64>)
        requires
            s < self.bound(),
        ensures
            r@ == self.nbrs(s),
    ;

    /// Executable goal test.
    fn is_goal(&self, s: u64) -> (r: bool)
        requires
            s < self.bound(),
        ensures
            r == self.goal(s),
    ;
}

/// Every neighbor of an in-bounds state is in bounds.
pub open spec fn graph_closed<G: StateGraph>(g: &G) -> bool {
    forall|s: u64, k: int|
        s < g.bound() && 0 <= k < g.nbrs(s).len() ==> #[trigger] g.nbrs(s)[k] < g.bound()
}

/// The states reachable from `start` in at most `k` transitions.
pub open spec fn reach<G: StateGraph>(g: &G, start: u64, k: nat) -> Set<u64>
    decreases k,
{
    if k == 0 {
        Set::<u64>::empty().insert(start)
    } else {
        let prev = reach(g, start, (k - 1) as nat);
        prev.union(
            Set::new(|t: u64| exists|s: u64| #[trigger] prev.contains(s) && g.nbrs(s).contains(t)),
        )
    }
}

/// Whether the set holds a goal state.
pub open spec fn goal_in<G: StateGraph>(g: &G, set: Set<u64>) -> bool {
    exists|s: u64| set.contains(s) && #[trigger] g.goal(s)
}

/// Membership in the exact level `d`: reachable in `d` steps but not fewer.
pub open spec fn layer_mem<G: StateGraph>(g: &G, start: u64, d: nat, y: u64) -> bool {
    reach(g, start, d).contains(y) && (d > 0 ==> !reach(g, start, (d - 1) as nat).contains(y))
}

/// A set of `u64` values bounded by `b` is finite and holds at most `b`
/// elements.
pub proof fn lemma_u64_set_card(s: Set<u64>, b: u64)
    requires
        forall|x: u64| s.contains(x) ==> x < b,
    ensures
        s.finite(),
        s.len() <= b,
    decreases b,
{
    if b == 0 {
        assert(s =~= Set::empty());
    } else {
        let s2 = s.remove((b - 1) as u64);
        lemma_u64_set_card(s2, (b - 1) as u64);
        if s.contains((b - 1) as u64) {
            assert(s =~= s2.insert((b - 1) as u64));
        } else {
            assert(s =~= s2);
        }
    }
}

/// Reachable states stay in bounds.
pub proof fn lemma_reach_bounded<G: StateGraph>(g: &G, start: u64, k: nat)
    requires
        graph_closed(g),
        start < g.bound(),
    ensures
        forall|s: u64| #[trigger] reach(g, start, k).contains(s) ==> s < g.bound(),
    decreases k,
{
    if k > 0 {
        lemma_reach_bounded(g, start, (k - 1) as nat);
        assert forall|t: u64| #[trigger] reach(g, start, k).contains(t) implies t < g.bound() by {
            let prev = reach(g, start, (k - 1) as nat);
            if !prev.contains(t) {
                let s = choose|s: u64| #[trigger] prev.contains(s) && g.nbrs(s).contains(t);
                let j = choose|j: int| 0 <= j < g.nbrs(s).len() && g.nbrs(s)[j] == t;
                assert(g.nbrs(s)[j] < g.bound());
            }
        }
    }
}

/// `reach` grows with the step count.
pub proof fn lemma_reach_monotone<G: StateGraph>(g: &G, start: u64, k1: nat, k2: nat)
    requires
        k1 <= k2,
    ensures
        reach(g, start, k1).subset_of(reach(g, start, k2)),
    decreases k2 - k1,
{
    if k1 < k2 {
        lemma_reach_monotone(g, start, k1, (k2 - 1) as nat);
    }
}

/// Once a level adds nothing, every later level is the same set.
pub proof fn lemma_reach_stable<G: StateGraph>(g: &G, start: u64, d: nat, k: nat)
    requires
        reach(g, start, (d + 1) as nat) == reach(g, start, d),
        k >= d,
    ensures
        reach(g, start, k) == reach(g, start, d),
    decreases k - d,
{
    if k > d {
        lemma_reach_stable(g, start, d, (k - 1) as nat);
        let prevk = (k - 1) as nat;
        assert(reach(g, start, k) =~= reach(g, start, (d + 1) as nat)) by {
            assert(reach(g, start, prevk) == reach(g, start, d));
        }
    }
}

/// Breadth-first search: the least number of transitions from `start` to a
/// goal state.
///
/// `Ok(d)` means a goal is reachable in `d` steps and, when `d > 0`, in no
/// fewer. `Err(NotFound)` means no reachable state at any depth satisfies
/// the goal.
pub fn shortest_path<G: StateGraph>(g: &G, start: u64) -> (r: Result<u64, EngineError>)
    requires
        graph_closed(g),
        start < g.bound(),
    ensures
        match r {
            Ok(d) => goal_in(g, reach(g, start, d as nat)) && (d > 0 ==> !goal_in(
                g,
                reach(g, start, (d - 1) as nat),
            )),
            Err(e) => e == EngineError::NotFound && forall|k: nat| !goal_in(g, reach(g, start, k)),
        },
{
    let mut visited: HashSet<u64> = HashSet::new();
    visited.insert(start);
    let mut frontier: Vec<u64> = Vec::new();
    frontier.push(start);
    let mut d: u64 = 0;

    proof {
        assert(visited@ =~= reach(g, start, 0));
        assert(frontier@[0] == start);
    }

    loop
        invariant
            graph_closed(g),
            start < g.bound(),
            visited@ == reach(g, start, d as nat),
            forall|j: int|
                0 <= j < frontier@.len() ==> layer_mem(g, start, d as nat, #[trigger] frontier@[j]),
            forall|y: u64| layer_mem(g, start, d as nat, y) ==> frontier@.contains(y),
            d > 0 ==> !goal_in(g, reach(g, start, (d - 1) as nat)),
            d < visited@.len(),
        decreases g.bound() - visited@.len(),
    {
        proof {
            lemma_reach_bounded(g, start, d as nat);
            lemma_u64_set_card(visited@, g.bound());
        }

        // Look for a goal on the current level.
        let mut i: usize = 0;
        while i < frontier.len()
            invariant
                graph_closed(g),
                start < g.bound(),
                forall|j: int|
                    0 <= j < frontier@.len() ==> layer_mem(
                        g,
                        start,
                        d as nat,
                        #[trigger] frontier@[j],
                    ),
                forall|j: int| 0 <= j < i ==> !g.goal(#[trigger] frontier@[j]),
                i <= frontier@.len(),
                d > 0 ==> !goal_in(g, reach(g, start, (d - 1) as nat)),
            decreases frontier@.len() - i,
        {
            let s = frontier[i];
            proof {
                lemma_reach_bounded(g, start, d as nat);
                assert(layer_mem(g, start, d as nat, s));
            }
            if g.is_goal(s) {
                proof {
                    assert(reach(g, start, d as nat).contains(s));
                    assert(goal_in(g, reach(g, start, d as nat)));
                }
                return Ok(d);
            }
            i = i + 1;
        }

        proof {
            // No goal anywhere up to depth d.
            assert(!goal_in(g, reach(g, start, d as nat))) by {
                if goal_in(g, reach(g, start, d as nat)) {
                    let w = choose|s: u64|
                        reach(g, start, d as nat).contains(s) && #[trigger] g.goal(s);
                    if d > 0 && reach(g, start, (d - 1) as nat).contains(w) {
                        assert(goal_in(g, reach(g, start, (d - 1) as nat)));
                    } else {
                        assert(layer_mem(g, start, d as nat, w));
                        assert(frontier@.contains(w));
                        let j = choose|j: int| 0 <= j < frontier@.len() && frontier@[j] == w;
                        assert(!g.goal(frontier@[j]));
                    }
                }
            }
        }

        // Expand the level.
        let ghost prevreach = reach(g, start, d as nat);
        let mut next: Vec<u64> = Vec::new();
        let mut i: usize = 0;
        while i < frontier.len()
            invariant
                graph_closed(g),
                start < g.bound(),
                i <= frontier@.len(),
                prevreach == reach(g, start, d as nat),
                forall|j: int|
                    0 <= j < frontier@.len() ==> layer_mem(
                        g,
                        start,
                        d as nat,
                        #[trigger] frontier@[j],
                    ),
                forall|s2: u64| #[trigger] prevreach.contains(s2) ==> visited@.contains(s2),
                forall|s2: u64| #[trigger] visited@.contains(s2) ==> reach(
                    g,
                    start,
                    (d + 1) as nat,
                ).contains(s2),
                forall|a: int, b: int|
                    0 <= a < i && 0 <= b < g.nbrs(frontier@[a]).len() ==> visited@.contains(
                        #[trigger] g.nbrs(frontier@[a])[b],
                    ),
                forall|b: int|
                    0 <= b < next@.len() ==> visited@.contains(#[trigger] next@[b])
                        && !prevreach.contains(next@[b]),
                forall|y: u64| visited@.contains(y) && !prevreach.contains(y) ==> next@.contains(y),
            decreases frontier@.len() - i,
        {
            let s = frontier[i];
            proof {
                lemma_reach_bounded(g, start, d as nat);
                assert(layer_mem(g, start, d as nat, s));
            }
            let ns = g.neighbors(s);
            let mut j: usize = 0;
            while j < ns.len()
                invariant
                    graph_closed(g),
                    start < g.bound(),
                    0 <= i < frontier@.len(),
                    j <= ns@.len(),
                    s == frontier@[i as int],
                    s < g.bound(),
                    ns@ == g.nbrs(s),
                    prevreach == reach(g, start, d as nat),
                    forall|j2: int|
                        0 <= j2 < frontier@.len() ==> layer_mem(
                            g,
                            start,
                            d as nat,
                            #[trigger] frontier@[j2],
                        ),
                    forall|s2: u64| #[trigger] prevreach.contains(s2) ==> visited@.contains(s2),
                    forall|s2: u64| #[trigger] visited@.contains(s2) ==> reach(
                        g,
                        start,
                        (d + 1) as nat,
                    ).contains(s2),
                    forall|a: int, b: int|
                        0 <= a < i && 0 <= b < g.nbrs(frontier@[a]).len() ==> visited@.contains(
                            #[trigger] g.nbrs(frontier@[a])[b],
                        ),
                    forall|b: int| 0 <= b < j ==> visited@.contains(#[trigger] ns@[b]),
                    forall|b: int|
                        0 <= b < next@.len() ==> visited@.contains(#[trigger] next@[b])
                            && !prevreach.contains(next@[b]),
                    forall|y: u64|
                        visited@.contains(y) && !prevreach.contains(y) ==> next@.contains(y),
                decreases ns@.len() - j,
            {
                let t = ns[j];
                proof {
                    assert(prevreach.contains(s));
                    assert(g.nbrs(s).contains(t));
                    assert(reach(g, start, (d + 1) as nat).contains(t));
                }
                if !visited.contains(&t) {
                    let ghost next0 = next@;
                    visited.insert(t);
                    next.push(t);
                    proof {
                        assert(next@ == next0.push(t));
                        assert forall|y: u64|
                            visited@.contains(y) && !prevreach.contains(y) implies next@.contains(
                            y,
                        ) by {
                            if y == t {
                                assert(next@[next@.len() - 1] == t);
                            } else {
                                assert(next0.contains(y));
                                let b = choose|b: int| 0 <= b < next0.len() && next0[b] == y;
                                assert(next@[b] == y);
                            }
                        }
                    }
                }
                j = j + 1;
            }
            i = i + 1;
        }

        // The visited set is now exactly the next level.
        proof {
            assert(visited@ =~= reach(g, start, (d + 1) as nat)) by {
                assert forall|t: u64| reach(g, start, (d + 1) as nat).contains(t) implies visited@
                    .contains(t) by {
                    if !prevreach.contains(t) {
                        let s = choose|s: u64|
                            #[trigger] prevreach.contains(s) && g.nbrs(s).contains(t);
                        if layer_mem(g, start, d as nat, s) {
                            assert(frontier@.contains(s));
                            let a = choose|a: int| 0 <= a < frontier@.len() && frontier@[a] == s;
                            let b = choose|b: int| 0 <= b < g.nbrs(s).len() && g.nbrs(s)[b] == t;
                            assert(visited@.contains(g.nbrs(frontier@[a])[b]));
                        } else {
                            // s was reached a level earlier, so t is already in prevreach.
                            assert(d > 0 && reach(g, start, (d - 1) as nat).contains(s));
                            assert(reach(g, start, d as nat).contains(t));
                        }
                    }
                }
            }
        }

        if next.len() == 0 {
            proof {
                assert(reach(g, start, (d + 1) as nat) =~= prevreach) by {
                    assert forall|t: u64|
                        reach(g, start, (d + 1) as nat).contains(t) implies prevreach.contains(
                        t,
                    ) by {
                        if !prevreach.contains(t) {
                            assert(next@.contains(t));
                        }
                    }
                }
                assert forall|k: nat| !goal_in(g, #[trigger] reach(g, start, k)) by {
                    if k <= d {
                        lemma_reach_monotone(g, start, k, d as nat);
                        if goal_in(g, reach(g, start, k)) {
                            let w = choose|s: u64|
                                reach(g, start, k).contains(s) && #[trigger] g.goal(s);
                            assert(reach(g, start, d as nat).contains(w));
                            assert(goal_in(g, reach(g, start, d as nat)));
                        }
                    } else {
                        lemma_reach_stable(g, start, d as nat, k);
                        if goal_in(g, reach(g, start, k)) {
                            assert(goal_in(g, reach(g, start, d as nat)));
                        }
                    }
                }
            }
            return Err(EngineError::NotFound);
        }

        proof {
            // Progress: the visited set strictly grew, and the new frontier
            // is exactly the next layer.
            let x = next@[0];
            assert(next@.contains(x));
            lemma_reach_bounded(g, start, (d + 1) as nat);
            lemma_u64_set_card(visited@, g.bound());
            assert(prevreach.subset_of(visited@.remove(x)));
            lemma_u64_set_card(visited@.remove(x), g.bound());
            vstd::set_lib::lemma_len_subset(prevreach, visited@.remove(x));
            assert forall|j: int| 0 <= j < next@.len() implies layer_mem(
                g,
                start,
                (d + 1) as nat,
                #[trigger] next@[j],
            ) by {
                assert(visited@.contains(next@[j]) && !prevreach.contains(next@[j]));
            }
        }
        frontier = next;
        d = d + 1;
    }
}

/// A state graph for bottom-up evaluation: each state is either terminal,
/// with a value of its own, or derives its value by folding a combining
/// function over its children's values.
///
/// `rank` is the caller's termination witness: children must rank strictly
/// below their parent, which makes the graph a finite DAG even when the same
/// state is reachable along many paths.
pub trait EvalGraph: Sized {
    /// All states of interest lie strictly below this value.
    spec fn bound(&self) -> u64;

    /// Termination witness: strictly decreases from a state to its children.
    spec fn rank(&self, s: u64) -> nat;

    /// Whether `s` is a base case.
    spec fn terminal(&self, s: u64) -> bool;

    /// The value of a terminal state.
    spec fn terminal_value(&self, s: u64) -> u64;

    /// The children of a non-terminal state.
    spec fn children(&self, s: u64) -> Seq<u64>;

    /// The fold seed for a non-terminal state.
    spec fn base(&self, s: u64) -> u64;

    /// How a child's value folds into the accumulator.
    spec fn combine_spec(&self, s: u64, c: u64, v: u64, acc: u64) -> u64;

    /// Executable base-case test.
    fn is_terminal(&self, s: u64) -> (r: bool)
        requires
            s < self.bound(),
        ensures
            r == self.terminal(s),
    ;

    /// Executable value of a terminal state.
    fn value_of(&self, s: u64) -> (r: u64)
        requires
            s < self.bound(),
            self.terminal(s),
        ensures
            r == self.terminal_value(s),
    ;

    /// Executable child enumeration.
    fn branch(&self, s: u64) -> (r: Vec<u64>)
        requires
            s < self.bound(),
            !self.terminal(s),
        ensures
            r@ == self.children(s),
    ;

    /// Executable fold seed.
    fn base_value(&self, s: u64) -> (r: u64)
        requires
            s < self.bound(),
            !self.terminal(s),
        ensures
            r == self.base(s),
    ;

    /// Executable combining step.
    fn combine(&self, s: u64, c: u64, v: u64, acc: u64) -> (r: u64)
        requires
            s < self.bound(),
            !self.terminal(s),
            self.children(s).contains(c),
        ensures
            r == self.combine_spec(s, c, v, acc),
    ;
}

/// Children stay in bounds and rank strictly below their parent.
pub open spec fn eval_wf<G: EvalGraph>(g: &G) -> bool {
    forall|s: u64, k: int|
        s < g.bound() && !g.terminal(s) && 0 <= k < g.children(s).len() ==> (
        #[trigger] g.children(s)[k]) < g.bound() && g.rank(g.children(s)[k]) < g.rank(s)
}

/// The value of state `s`: its terminal value, or the fold of its children's
/// values.
pub open spec fn eval<G: EvalGraph>(g: &G, s: u64) -> u64
    decreases g.rank(s) + 1, 0nat,
        when eval_wf(g) && s < g.bound()
{
    if g.terminal(s) {
        g.terminal_value(s)
    } else {
        eval_fold(g, s, g.children(s).len() as int)
    }
}

/// The fold of the first `i` children of `s` into the seed `base(s)`.
pub open spec fn eval_fold<G: EvalGraph>(g: &G, s: u64, i: int) -> u64
    decreases g.rank(s), i,
        when eval_wf(g) && s < g.bound() && !g.terminal(s) && 0 <= i <= g.children(s).len()
{
    if i <= 0 {
        g.base(s)
    } else {
        let c = g.children(s)[i - 1];
        g.combine_spec(s, c, eval(g, c), eval_fold(g, s, i - 1))
    }
}

/// Every cached entry equals the state's value.
pub open spec fn memo_ok<G: EvalGraph>(g: &G, m: Map<u64, u64>) -> bool {
    forall|k: u64| #[trigger] m.dom().contains(k) ==> m[k] == eval(g, k)
}

fn evaluate_memo<G: EvalGraph>(g: &G, s: u64, memo: &mut HashMap<u64, u64>) -> (r: u64)
    requires
        eval_wf(g),
        s < g.bound(),
        memo_ok(g, old(memo)@),
    ensures
        r == eval(g, s),
        memo_ok(g, final(memo)@),
    decreases g.rank(s),
{
    if g.is_terminal(s) {
        return g.value_of(s);
    }
    if let Some(v) = memo.get(&s) {
        return *v;
    }
    let cs = g.branch(s);
    let mut acc = g.base_value(s);
    let mut i: usize = 0;
    while i < cs.len()
        invariant
            eval_wf(g),
            s < g.bound(),
            !g.terminal(s),
            cs@ == g.children(s),
            i <= cs@.len(),
            acc == eval_fold(g, s, i as int),
            memo_ok(g, memo@),
        decreases cs@.len() - i,
    {
        let c = cs[i];
        proof {
            assert(g.children(s)[i as int] == c);
        }
        let v = evaluate_memo(g, c, memo);
        acc = g.combine(s, c, v, acc);
        i = i + 1;
    }
    memo.insert(s, acc);
    acc
}

/// The value of `s`, computed depth-first with a cache: each state's value
/// is computed once and reused on every later visit.
pub fn evaluate<G: EvalGraph>(g: &G, s: u64) -> (r: u64)
    requires
        eval_wf(g),
        s < g.bound(),
    ensures
        r == eval(g, s),
{
    let mut memo: HashMap<u64, u64> = HashMap::new();
    evaluate_memo(g, s, &mut memo)
}

/// The value of `s`, computed depth-first with no cache at all.
pub fn evaluate_plain<G: EvalGraph>(g: &G, s: u64) -> (r: u64)
    requires
        eval_wf(g),
        s < g.bound(),
    ensures
        r == eval(g, s),
    decreases g.rank(s),
{
    if g.is_terminal(s) {
        return g.value_of(s);
    }
    let cs = g.branch(s);
    let mut acc = g.base_value(s);
    let mut i: usize = 0;
    while i < cs.len()
        invariant
            eval_wf(g),
            s < g.bound(),
            !g.terminal(s),
            cs@ == g.children(s),
            i <= cs@.len(),
            acc == eval_fold(g, s, i as int),
        decreases cs@.len() - i,
    {
        let c = cs[i];
        proof {
            assert(g.children(s)[i as int] == c);
        }
        let v = evaluate_plain(g, c);
        acc = g.combine(s, c, v, acc);
        i = i + 1;
    }
    acc
}

/// Memoization transparency: the cached engine and the cache-free engine
/// agree on every state of every well-formed graph. Both `evaluate` and
/// `evaluate_plain` return exactly `eval(g, s)`, so a cached result can
/// never differ from a recomputed one.
pub proof fn law_memo_transparency<G: EvalGraph>(g: &G, s: u64, memoized: u64, plain: u64)
    requires
        memoized == eval(g, s),
        plain == eval(g, s),
    ensures
        memoized == plain,
{
}

} // verus!
