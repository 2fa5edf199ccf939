//! Iterative-deepening A*: depth-first passes under a growing bound on
//! `f = g + h`, until a pass reaches the ordered board.

use crate::heuristic::Heuristic;
use crate::state::State;
use crate::successors::{lemma_slide_changes_two_cells, successors};
use vstd::prelude::*;

verus! {

/// The value that stands for "no finite excess".
pub const INF: i32 = i32::MAX;

/// Outcome of one bounded depth-first pass from a state.
#[derive(Debug)]
pub enum SearchResult {
    /// The ordered board was reached; `path` runs from it back to the state
    /// the pass started from.
    Solved { path: Vec<State> },
    /// Nothing was found under the bound; `value` is the least `f` that
    /// exceeded it, or [`INF`].
    Exceeded { value: i32 },
}

/// Whether state `i + 1` of `w` is one slide from state `i`.
pub open spec fn is_step(w: Seq<State>, i: int) -> bool {
    w[i].slides_to(w[i + 1])
}

/// A non-empty sequence of states, each one slide from the one before.
pub open spec fn is_walk(w: Seq<State>) -> bool {
    &&& w.len() >= 1
    &&& forall|i: int| 0 <= i < w.len() ==> (#[trigger] w[i]).wf()
    &&& forall|i: int| 0 <= i < w.len() - 1 ==> #[trigger] is_step(w, i)
}

/// A walk from `start` to the ordered board.
pub open spec fn is_solution(w: Seq<State>, start: State) -> bool {
    &&& is_walk(w)
    &&& w.first() == start
    &&& w.last().is_goal()
}

/// `f` of the last state of `w`, when the first state of `w` has cost `g`.
pub open spec fn last_f<H: Heuristic>(h: &H, w: Seq<State>, g: int) -> int {
    g + (w.len() - 1) + h.value(w.last())
}

/// A walk from `start` along which a pass with this bound descends and at
/// whose end it turns back: every state before the last is within the bound
/// and is not the ordered board, and the last state exceeds the bound.
pub open spec fn is_frontier<H: Heuristic>(
    h: &H,
    w: Seq<State>,
    start: State,
    g: int,
    bound: int,
) -> bool {
    &&& is_walk(w)
    &&& w.first() == start
    &&& forall|i: int|
        0 <= i < w.len() - 1 ==> !(#[trigger] w[i]).is_goal() && g + i + h.value(w[i]) <= bound
    &&& last_f(h, w, g) > bound
}

/// What remains of a walk of two or more states after its first slide.
pub proof fn lemma_tail_walk(w: Seq<State>)
    requires
        is_walk(w),
        w.len() >= 2,
    ensures
        is_walk(w.subrange(1, w.len() as int)),
        w.subrange(1, w.len() as int).first() == w[1],
        w.subrange(1, w.len() as int).last() == w.last(),
        w[0].slides_to(w[1]),
        w[1].wf(),
{
    let t = w.subrange(1, w.len() as int);
    assert(is_step(w, 0));
    assert forall|i: int| 0 <= i < t.len() implies (#[trigger] t[i]).wf() by {
        assert(w[i + 1].wf());
    }
    assert forall|i: int| 0 <= i < t.len() - 1 implies #[trigger] is_step(t, i) by {
        assert(is_step(w, i + 1));
    }
}

/// A walk extended at the front by one slide.
pub proof fn lemma_prepend_walk(s: State, w: Seq<State>)
    requires
        is_walk(w),
        s.wf(),
        s.slides_to(w.first()),
    ensures
        is_walk(seq![s] + w),
        (seq![s] + w).first() == s,
        (seq![s] + w).last() == w.last(),
{
    let e = seq![s] + w;
    assert forall|i: int| 0 <= i < e.len() implies (#[trigger] e[i]).wf() by {
        if i > 0 {
            assert(w[i - 1].wf());
        }
    }
    assert forall|i: int| 0 <= i < e.len() - 1 implies #[trigger] is_step(e, i) by {
        if i > 0 {
            assert(is_step(w, i - 1));
        }
    }
}

/// Admissibility: the estimate never exceeds the number of slides of any
/// walk to the ordered board.
pub proof fn lemma_admissible<H: Heuristic>(h: &H, w: Seq<State>, start: State)
    requires
        is_solution(w, start),
    ensures
        h.value(start) <= w.len() - 1,
    decreases w.len(),
{
    if w.len() == 1 {
        h.lemma_zero_iff_goal(start);
    } else {
        lemma_tail_walk(w);
        let t = w.subrange(1, w.len() as int);
        lemma_admissible(h, t, w[1]);
        h.lemma_consistent(start, w[1]);
    }
}

/// What remains of a frontier walk of two or more states after its first
/// slide is a frontier walk one level deeper, with the same last `f`.
pub proof fn lemma_tail_frontier<H: Heuristic>(
    h: &H,
    w: Seq<State>,
    start: State,
    g: int,
    bound: int,
)
    requires
        is_frontier(h, w, start, g, bound),
        w.len() >= 2,
    ensures
        is_frontier(h, w.subrange(1, w.len() as int), w[1], g + 1, bound),
        last_f(h, w.subrange(1, w.len() as int), g + 1) == last_f(h, w, g),
        w[0].slides_to(w[1]),
{
    lemma_tail_walk(w);
    let t = w.subrange(1, w.len() as int);
    assert forall|i: int| 0 <= i < t.len() - 1 implies !(#[trigger] t[i]).is_goal() && g + 1 + i
        + h.value(t[i]) <= bound by {
        assert(!w[i + 1].is_goal() && g + (i + 1) + h.value(w[i + 1]) <= bound);
    }
}

/// A frontier walk extended at the front by a state that a pass descends
/// from is a frontier walk one level higher, with the same last `f`.
pub proof fn lemma_prepend_frontier<H: Heuristic>(
    h: &H,
    s: State,
    w: Seq<State>,
    g: int,
    bound: int,
)
    requires
        is_frontier(h, w, w.first(), g + 1, bound),
        s.wf(),
        s.slides_to(w.first()),
        !s.is_goal(),
        g + h.value(s) <= bound,
    ensures
        is_frontier(h, seq![s] + w, s, g, bound),
        last_f(h, seq![s] + w, g) == last_f(h, w, g + 1),
{
    lemma_prepend_walk(s, w);
    let e = seq![s] + w;
    assert forall|i: int| 0 <= i < e.len() - 1 implies !(#[trigger] e[i]).is_goal() && g + i
        + h.value(e[i]) <= bound by {
        if i > 0 {
            assert(!w[i - 1].is_goal() && g + 1 + (i - 1) + h.value(w[i - 1]) <= bound);
        }
    }
}

/// Where a pass turns back at its first state: that state alone is the only
/// frontier walk, and no walk to the ordered board is shorter than its
/// estimate.
pub proof fn lemma_turn_back<H: Heuristic>(h: &H, state: State, g: int, bound: int)
    requires
        state.wf(),
        g + h.value(state) > bound,
    ensures
        is_frontier(h, seq![state], state, g, bound),
        last_f(h, seq![state], g) == g + h.value(state),
        forall|w: Seq<State>| #[trigger]
            is_frontier(h, w, state, g, bound) ==> last_f(h, w, g) == g + h.value(state),
        forall|w: Seq<State>| #[trigger]
            is_solution(w, state) ==> g + h.value(state) <= g + w.len() - 1,
{
    assert forall|w: Seq<State>| #[trigger] is_frontier(h, w, state, g, bound) implies last_f(
        h,
        w,
        g,
    ) == g + h.value(state) by {
        if w.len() >= 2 {
            assert(g + 0 + h.value(w[0]) <= bound);
        }
    }
    assert forall|w: Seq<State>| #[trigger] is_solution(w, state) implies g + h.value(state) <= g
        + w.len() - 1 by {
        lemma_admissible(h, w, state);
    }
}

/// One bounded depth-first pass from `state`, which lies `g` slides from
/// where the search began.
///
/// The pass succeeds exactly when some walk from `state` reaches the ordered
/// board with a total cost of at most `bound`; otherwise it reports the
/// least `f` at which it turned back, capped at [`INF`]. The cost `g` is a
/// count of slides, so it is not negative, and `bound` is a finite bound,
/// below [`INF`].
pub fn search<H: Heuristic>(state: State, g: i32, bound: i32, heuristic: &H) -> (res: SearchResult)
    requires
        state.wf(),
        0 <= g,
        bound < INF,
    ensures
        match res {
            SearchResult::Solved { path } => {
                &&& is_solution(path@.reverse(), state)
                &&& g + path@.len() - 1 <= bound
            },
            SearchResult::Exceeded { value } => {
                &&& bound < value <= INF
                &&& forall|w: Seq<State>| #[trigger]
                    is_solution(w, state) ==> value <= g + w.len() - 1
                &&& forall|w: Seq<State>| #[trigger]
                    is_frontier(heuristic, w, state, g as int, bound as int) ==> value <= last_f(
                        heuristic,
                        w,
                        g as int,
                    )
                &&& value < INF ==> exists|w: Seq<State>| #[trigger]
                    is_frontier(heuristic, w, state, g as int, bound as int) && value == last_f(
                        heuristic,
                        w,
                        g as int,
                    )
            },
        },
    decreases bound - g,
{
    let h = heuristic.estimate(&state);
    proof {
        heuristic.lemma_nonnegative(state);
        heuristic.lemma_zero_iff_goal(state);
    }
    let f: i32 = if h > INF - g {
        INF
    } else {
        g + h
    };
    if f > bound {
        proof {
            lemma_turn_back(heuristic, state, g as int, bound as int);
        }
        return SearchResult::Exceeded { value: f };
    }
    if h == 0 {
        let mut path: Vec<State> = Vec::new();
        path.push(state);
        assert(path@.reverse() =~= seq![state]);
        return SearchResult::Solved { path };
    }
    let mut min_t: i32 = INF;
    let succ = successors(&state);
    let mut idx: usize = 0;
    while idx < succ.len()
        invariant
            state.wf(),
            !state.is_goal(),
            0 <= g,
            g + heuristic.value(state) <= bound < INF,
            heuristic.value(state) >= 1,
            idx <= succ@.len(),
            forall|i: int|
                0 <= i < succ@.len() ==> (#[trigger] succ@[i]).wf() && state.slides_to(succ@[i]),
            bound < min_t <= INF,
            forall|j: int, w: Seq<State>|
                0 <= j < idx && #[trigger] is_solution(w, succ@[j]) ==> min_t <= g + w.len(),
            forall|j: int, w: Seq<State>|
                0 <= j < idx && #[trigger] is_frontier(
                    heuristic,
                    w,
                    succ@[j],
                    g + 1,
                    bound as int,
                ) ==> min_t <= last_f(heuristic, w, g + 1),
            min_t < INF ==> exists|w: Seq<State>| #[trigger]
                is_frontier(heuristic, w, state, g as int, bound as int) && min_t == last_f(
                    heuristic,
                    w,
                    g as int,
                ),
        decreases succ@.len() - idx,
    {
        let s = succ[idx];
        if s == state {
            // A slide always changes the board, so no successor is skipped.
            proof {
                lemma_slide_changes_two_cells(state, s);
            }
        } else {
            match search(s, g + 1, bound, heuristic) {
                SearchResult::Solved { path } => {
                    let mut path = path;
                    let ghost below = path@.reverse();
                    path.push(state);
                    proof {
                        lemma_prepend_walk(state, below);
                        assert(path@.reverse() =~= seq![state] + below);
                    }
                    return SearchResult::Solved { path };
                },
                SearchResult::Exceeded { value } => {
                    if value < min_t {
                        proof {
                            let w = choose|w: Seq<State>| #[trigger]
                                is_frontier(heuristic, w, s, g + 1, bound as int) && value
                                    == last_f(heuristic, w, g + 1);
                            lemma_prepend_frontier(heuristic, state, w, g as int, bound as int);
                            assert(is_frontier(
                                heuristic,
                                seq![state] + w,
                                state,
                                g as int,
                                bound as int,
                            ));
                        }
                        min_t = value;
                    }
                },
            }
        }
        idx += 1;
    }
    proof {
        assert forall|w: Seq<State>| #[trigger] is_solution(w, state) implies min_t <= g + w.len()
            - 1 by {
            lemma_tail_walk(w);
            let t = w.subrange(1, w.len() as int);
            assert(succ@.contains(w[1]));
            let j = choose|j: int| 0 <= j < succ@.len() && succ@[j] == w[1];
            assert(is_solution(t, succ@[j]));
        }
        assert forall|w: Seq<State>| #[trigger]
            is_frontier(heuristic, w, state, g as int, bound as int) implies min_t <= last_f(
            heuristic,
            w,
            g as int,
        ) by {
            lemma_tail_frontier(heuristic, w, state, g as int, bound as int);
            let t = w.subrange(1, w.len() as int);
            assert(succ@.contains(w[1]));
            let j = choose|j: int| 0 <= j < succ@.len() && succ@[j] == w[1];
            assert(is_frontier(heuristic, t, succ@[j], g + 1, bound as int));
        }
    }
    SearchResult::Exceeded { value: min_t }
}

/// The elements of `path` in the opposite order.
pub fn reversed(path: Vec<State>) -> (out: Vec<State>)
    ensures
        out@ == path@.reverse(),
{
    let mut out: Vec<State> = Vec::new();
    let mut i: usize = path.len();
    while i > 0
        invariant
            i <= path.len(),
            out@.len() == path.len() - i,
            forall|k: int| 0 <= k < out@.len() ==> out@[k] == path@[path.len() - 1 - k],
        decreases i,
    {
        i -= 1;
        out.push(path[i]);
    }
    assert(out@ =~= path@.reverse());
    out
}

/// Finds a shortest sequence of slides from `initial` to the ordered board.
///
/// The result lists the boards along the way, from `initial` to the ordered
/// board; it is empty when no walk of fewer than [`INF`] slides exists. The
/// first pass is bounded by the estimate for `initial`, and each later pass
/// by the excess that the pass before it reported, so the bounds (kept in
/// `bounds` for the proof) grow from pass to pass.
pub fn ida_star_search<H: Heuristic>(initial: &State, heuristic: &H) -> (solution: Vec<State>)
    requires
        initial.wf(),
    ensures
        solution@.len() > 0 <==> exists|w: Seq<State>| #[trigger]
            is_solution(w, *initial) && w.len() - 1 < INF,
        solution@.len() > 0 ==> is_solution(solution@, *initial),
        forall|w: Seq<State>| #[trigger]
            is_solution(w, *initial) && w.len() - 1 < INF ==> solution@.len() <= w.len(),
{
    let mut bound = heuristic.estimate(initial);
    let ghost mut bounds: Seq<int> = seq![bound as int];
    proof {
        heuristic.lemma_nonnegative(*initial);
        assert forall|w: Seq<State>| #[trigger] is_solution(w, *initial) implies bound <= w.len()
            - 1 by {
            lemma_admissible(heuristic, w, *initial);
        }
    }
    while bound < INF
        invariant
            initial.wf(),
            0 <= bound <= INF,
            forall|w: Seq<State>| #[trigger] is_solution(w, *initial) ==> bound <= w.len() - 1,
            bounds.len() >= 1,
            bounds.first() == heuristic.value(*initial),
            bounds.last() == bound,
            forall|i: int, j: int| 0 <= i < j < bounds.len() ==> bounds[i] < bounds[j],
        decreases INF - bound,
    {
        match search(*initial, 0, bound, heuristic) {
            SearchResult::Solved { path } => {
                let solution = reversed(path);
                assert(solution@.len() == path@.len());
                assert(is_solution(solution@, *initial) && solution@.len() - 1 < INF);
                return solution;
            },
            SearchResult::Exceeded { value } => {
                proof {
                    bounds = bounds.push(value as int);
                }
                bound = value;
            },
        }
    }
    Vec::new()
}

} // verus!
