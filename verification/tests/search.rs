use sliding_puzzle::{
    distancia_manhattan, ida_star_search, reversed, search, successors, Manhattan, SearchResult,
    State, INF,
};
use std::collections::{HashSet, VecDeque};

fn walk_from_goal(picks: &[usize]) -> State {
    let mut state = State::new();
    for pick in picks {
        let succ = successors(&state);
        state = succ[pick % succ.len()];
    }
    state
}

fn picks_from_seed(seed: u64, len: usize) -> Vec<usize> {
    let mut x = seed.wrapping_mul(6364136223846793005).wrapping_add(1442695040888963407);
    let mut out = Vec::new();
    for _ in 0..len {
        x = x.wrapping_mul(6364136223846793005).wrapping_add(1442695040888963407);
        out.push((x >> 33) as usize);
    }
    out
}

fn breadth_first_distance(start: &State) -> usize {
    let goal = State::new();
    let mut seen = HashSet::new();
    let mut queue = VecDeque::new();
    seen.insert(*start);
    queue.push_back((*start, 0));
    while let Some((state, depth)) = queue.pop_front() {
        if state == goal {
            return depth;
        }
        for next in successors(&state) {
            if seen.insert(next) {
                queue.push_back((next, depth + 1));
            }
        }
    }
    unreachable!()
}

fn assert_is_solution(path: &[State], initial: &State) {
    assert!(!path.is_empty());
    assert_eq!(path[0], *initial);
    assert_eq!(*path.last().unwrap(), State::new());
    let mut current = *initial;
    for next in &path[1..] {
        assert!(successors(&current).contains(next));
        current = *next;
    }
    assert_eq!(current, State::new());
}

#[test]
fn inf_is_the_largest_i32() {
    assert_eq!(INF, i32::MAX);
    assert_eq!(INF, 2147483647);
}

#[test]
fn solving_the_goal_gives_one_state() {
    let goal = State::new();
    let path = ida_star_search(&goal, &Manhattan);
    assert_eq!(path.len(), 1);
    assert_eq!(path[0], goal);
    assert_eq!(path.len() - 1, 0);
}

#[test]
fn solving_one_slide_gives_two_states() {
    let goal = State::new();
    let scrambled = successors(&goal)[1];
    assert_eq!(scrambled.blank(), (3, 2));
    let path = ida_star_search(&scrambled, &Manhattan);
    assert_eq!(path.len(), 2);
    assert_eq!(path[0], scrambled);
    assert_eq!(path[1], goal);
    assert_eq!(path.len() - 1, 1);
}

#[test]
fn solving_either_first_slide_takes_one_move() {
    for scrambled in successors(&State::new()) {
        let path = ida_star_search(&scrambled, &Manhattan);
        assert_eq!(path, vec![scrambled, State::new()]);
    }
}

#[test]
fn solution_replays_to_the_goal() {
    for seed in 0..40 {
        let initial = walk_from_goal(&picks_from_seed(seed, 10));
        let path = ida_star_search(&initial, &Manhattan);
        assert_is_solution(&path, &initial);
    }
}

#[test]
fn solution_is_as_short_as_breadth_first_search() {
    for depth in 1..=6 {
        for seed in 0..25 {
            let initial = walk_from_goal(&picks_from_seed(seed * 7 + depth as u64, depth));
            let path = ida_star_search(&initial, &Manhattan);
            assert_is_solution(&path, &initial);
            assert_eq!(path.len() - 1, breadth_first_distance(&initial));
            assert!(path.len() - 1 <= depth);
        }
    }
}

#[test]
fn solution_of_a_longer_scramble_is_shortest() {
    for seed in 100..110 {
        let initial = walk_from_goal(&picks_from_seed(seed, 12));
        let path = ida_star_search(&initial, &Manhattan);
        assert_is_solution(&path, &initial);
        assert_eq!(path.len() - 1, breadth_first_distance(&initial));
    }
}

#[test]
fn solution_of_a_turned_block() {
    // Tiles 11, 12 and 15 have gone round the bottom-right block with the
    // blank, six slides from the goal.
    let initial = State::from_board([[1, 2, 3, 4], [5, 6, 7, 8], [9, 10, 0, 15], [13, 14, 12, 11]])
        .unwrap();
    let path = ida_star_search(&initial, &Manhattan);
    assert_is_solution(&path, &initial);
    assert_eq!(path.len() - 1, 6);
    assert_eq!(breadth_first_distance(&initial), 6);
}

#[test]
fn search_at_the_goal_is_solved_at_once() {
    let goal = State::new();
    match search(goal, 0, 0, &Manhattan) {
        SearchResult::Solved { path } => assert_eq!(path, vec![goal]),
        SearchResult::Exceeded { .. } => panic!("the goal is within every bound"),
    }
    match search(goal, 7, 9, &Manhattan) {
        SearchResult::Solved { path } => assert_eq!(path, vec![goal]),
        SearchResult::Exceeded { .. } => panic!("the goal is within every bound"),
    }
}

#[test]
fn search_beyond_the_bound_reports_f() {
    let one_away = successors(&State::new())[0];
    match search(one_away, 0, 0, &Manhattan) {
        SearchResult::Exceeded { value } => assert_eq!(value, 1),
        SearchResult::Solved { .. } => panic!("one slide does not fit a bound of zero"),
    }
    match search(one_away, 4, 4, &Manhattan) {
        SearchResult::Exceeded { value } => assert_eq!(value, 5),
        SearchResult::Solved { .. } => panic!("f is five"),
    }
    match search(State::new(), 3, 2, &Manhattan) {
        SearchResult::Exceeded { value } => assert_eq!(value, 3),
        SearchResult::Solved { .. } => panic!("g alone exceeds the bound"),
    }
    match search(one_away, 0, -5, &Manhattan) {
        SearchResult::Exceeded { value } => assert_eq!(value, 1),
        SearchResult::Solved { .. } => panic!("nothing fits a negative bound"),
    }
}

#[test]
fn search_caps_f_at_inf() {
    let one_away = successors(&State::new())[0];
    match search(one_away, INF, INF - 1, &Manhattan) {
        SearchResult::Exceeded { value } => assert_eq!(value, INF),
        SearchResult::Solved { .. } => panic!("f exceeds the bound"),
    }
    match search(one_away, INF - 1, INF - 1, &Manhattan) {
        SearchResult::Exceeded { value } => assert_eq!(value, INF),
        SearchResult::Solved { .. } => panic!("f exceeds the bound"),
    }
}

#[test]
fn search_returns_the_path_goal_first() {
    let goal = State::new();
    let first = successors(&goal)[1];
    let second = successors(&first)[1];
    assert_eq!(second.blank(), (3, 1));
    assert_eq!(distancia_manhattan(&second), 2);
    match search(second, 0, 2, &Manhattan) {
        SearchResult::Solved { path } => assert_eq!(path, vec![goal, first, second]),
        SearchResult::Exceeded { .. } => panic!("two slides fit a bound of two"),
    }
    match search(second, 0, 1, &Manhattan) {
        SearchResult::Exceeded { value } => assert_eq!(value, 2),
        SearchResult::Solved { .. } => panic!("two slides do not fit a bound of one"),
    }
}

#[test]
fn search_reports_the_least_excess() {
    // Tiles 10, 11 and 14 are out of place: the estimate is 4, the distance 6.
    let initial = State::from_board([[1, 2, 3, 4], [5, 6, 7, 8], [9, 11, 14, 12], [13, 10, 15, 0]])
        .unwrap();
    assert_eq!(distancia_manhattan(&initial), 4);
    match search(initial, 0, 4, &Manhattan) {
        SearchResult::Exceeded { value } => assert_eq!(value, 6),
        SearchResult::Solved { .. } => panic!("six slides do not fit a bound of four"),
    }
    match search(initial, 0, 5, &Manhattan) {
        SearchResult::Exceeded { value } => assert_eq!(value, 6),
        SearchResult::Solved { .. } => panic!("six slides do not fit a bound of five"),
    }
    match search(initial, 0, 3, &Manhattan) {
        SearchResult::Exceeded { value } => assert_eq!(value, 4),
        SearchResult::Solved { .. } => panic!("the estimate exceeds a bound of three"),
    }
    match search(initial, 0, 6, &Manhattan) {
        SearchResult::Solved { path } => {
            assert_eq!(path.len(), 7);
            assert_eq!(path[0], State::new());
            assert_eq!(path[6], initial);
        }
        SearchResult::Exceeded { .. } => panic!("six slides fit a bound of six"),
    }
}

#[test]
fn solution_of_a_board_the_estimate_undershoots() {
    let initial = State::from_board([[1, 2, 3, 4], [5, 6, 7, 8], [9, 15, 11, 0], [13, 10, 14, 12]])
        .unwrap();
    assert_eq!(distancia_manhattan(&initial), 5);
    let path = ida_star_search(&initial, &Manhattan);
    assert_is_solution(&path, &initial);
    assert_eq!(path.len() - 1, 7);
    assert_eq!(breadth_first_distance(&initial), 7);
}

#[test]
fn bounds_start_at_the_estimate_and_grow() {
    let mut deepened = 0;
    for seed in 0..60 {
        let initial = walk_from_goal(&picks_from_seed(seed, 12));
        let mut bounds = vec![distancia_manhattan(&initial)];
        let found = loop {
            let bound = *bounds.last().unwrap();
            match search(initial, 0, bound, &Manhattan) {
                SearchResult::Solved { path } => break path,
                SearchResult::Exceeded { value } => {
                    assert!(value > bound);
                    assert!(value < INF);
                    bounds.push(value);
                }
            }
        };
        assert_eq!(bounds[0], distancia_manhattan(&initial));
        for pair in bounds.windows(2) {
            assert!(pair[0] <= pair[1]);
            assert_eq!(pair[1], pair[0] + 2);
        }
        assert_eq!(found.len() as i32 - 1, *bounds.last().unwrap());
        assert_eq!(ida_star_search(&initial, &Manhattan), reversed(found));
        if bounds.len() > 1 {
            deepened += 1;
        }
    }
    assert!(deepened > 0);
}

#[test]
fn reversed_turns_a_path_round() {
    let goal = State::new();
    let first = successors(&goal)[0];
    let second = successors(&first)[2];
    assert_eq!(reversed(vec![goal, first, second]), vec![second, first, goal]);
    assert_eq!(reversed(vec![goal]), vec![goal]);
    assert_eq!(reversed(Vec::new()), Vec::<State>::new());
}
