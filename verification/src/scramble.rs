//! Random scrambling: a solvable board made by sliding at random, starting
//! from the ordered board.

use crate::search::{is_solution, is_step, is_walk};
use crate::state::State;
use crate::successors::{
    blanks, lemma_slide_reversible, lemma_successor_count, neighbour_count, neighbours,
    successors,
};
use rand::Rng;
use vstd::prelude::*;

verus! {

/// `ThreadRng` of the `rand` crate: the generator that draws the slides. Of
/// its inside nothing is known here; it is only handed on.
#[verifier::external_type_specification]
#[verifier::external_body]
pub struct ExThreadRng(rand::rngs::ThreadRng);

/// `Rng::gen_range` of the `rand` crate, on the half-open range `0..n`.
///
/// Believed, not proved: the sampled index lies in the range. The call
/// panics on an empty range, which `n > 0` rules out.
#[verifier::external_body]
fn random_below(rng: &mut rand::rngs::ThreadRng, n: usize) -> (pick: usize)
    requires
        n > 0,
    ensures
        pick < n,
{
    rng.gen_range(0..n)
}

/// Whether `s` is reached from the ordered board by a walk of `moves` slides.
pub open spec fn reachable_in(s: State, moves: int) -> bool {
    exists|w: Seq<State>| #[trigger]
        is_walk(w) && w.first().is_goal() && w.last() == s && w.len() == moves + 1
}

/// A walk extended at the end by one slide.
pub proof fn lemma_append_walk(w: Seq<State>, s: State)
    requires
        is_walk(w),
        s.wf(),
        w.last().slides_to(s),
    ensures
        is_walk(w.push(s)),
        w.push(s).first() == w.first(),
        w.push(s).last() == s,
{
    let e = w.push(s);
    assert forall|i: int| 0 <= i < e.len() implies (#[trigger] e[i]).wf() by {
        if i < w.len() {
            assert(w[i].wf());
        }
    }
    assert forall|i: int| 0 <= i < e.len() - 1 implies #[trigger] is_step(e, i) by {
        if i < w.len() - 1 {
            assert(is_step(w, i));
        }
    }
}

/// A walk taken backwards is a walk.
pub proof fn lemma_reverse_walk(w: Seq<State>)
    requires
        is_walk(w),
    ensures
        is_walk(w.reverse()),
        w.reverse().first() == w.last(),
        w.reverse().last() == w.first(),
{
    let r = w.reverse();
    assert forall|i: int| 0 <= i < r.len() implies (#[trigger] r[i]).wf() by {
        assert(w[w.len() - 1 - i].wf());
    }
    assert forall|i: int| 0 <= i < r.len() - 1 implies #[trigger] is_step(r, i) by {
        let k = w.len() - 2 - i;
        assert(is_step(w, k));
        assert(w[k].wf());
        lemma_slide_reversible(w[k], w[k + 1]);
    }
}

/// A board reached from the ordered board in `moves` slides can be brought
/// back to it in `moves` slides.
pub proof fn lemma_reachable_is_solvable(s: State, moves: int)
    requires
        reachable_in(s, moves),
    ensures
        exists|w: Seq<State>| #[trigger] is_solution(w, s) && w.len() == moves + 1,
{
    let w = choose|w: Seq<State>| #[trigger]
        is_walk(w) && w.first().is_goal() && w.last() == s && w.len() == moves + 1;
    lemma_reverse_walk(w);
    assert(is_solution(w.reverse(), s) && w.reverse().len() == moves + 1);
}

/// The successor of `state` that stands at position `pick` among its
/// successors, in the order blank up, down, left, right.
pub fn pick_successor(state: &State, pick: usize) -> (next: State)
    requires
        state.wf(),
        pick < neighbour_count(state.blank_row(), state.blank_col()),
    ensures
        next.wf(),
        state.slides_to(next),
        (next.blank_row(), next.blank_col()) == neighbours(
            state.blank_row(),
            state.blank_col(),
        )[pick as int],
{
    let succ = successors(state);
    proof {
        lemma_successor_count(state.blank_row(), state.blank_col());
    }
    assert(blanks(succ@)[pick as int] == (
        succ@[pick as int].blank_row(),
        succ@[pick as int].blank_col(),
    ));
    succ[pick]
}

/// The ordered board after `depth` slides, each drawn uniformly from the
/// slides that are legal at that point. Whatever is drawn, the result can be
/// brought back to the ordered board in `depth` slides.
pub fn scramble(rng: &mut rand::rngs::ThreadRng, depth: usize) -> (s: State)
    ensures
        s.wf(),
        reachable_in(s, depth as int),
        exists|w: Seq<State>| #[trigger] is_solution(w, s) && w.len() == depth + 1,
{
    let mut state = State::new();
    let ghost mut trail: Seq<State> = seq![state];
    for done in 0..depth
        invariant
            state.wf(),
            is_walk(trail),
            trail.first().is_goal(),
            trail.last() == state,
            trail.len() == done + 1,
    {
        let count = successors(&state).len();
        let pick = random_below(rng, count);
        let next = pick_successor(&state, pick);
        proof {
            lemma_append_walk(trail, next);
            trail = trail.push(next);
        }
        state = next;
    }
    proof {
        assert(is_walk(trail) && trail.first().is_goal() && trail.last() == state && trail.len()
            == depth + 1);
        lemma_reachable_is_solvable(state, depth as int);
    }
    state
}

} // verus!
