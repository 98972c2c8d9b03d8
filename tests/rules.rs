use bevy_utils::HashMap;
use kahuna::cube_grid::CubeGrid;
use kahuna::set_rule::{
    pick_uniform, pick_weighted, ObserveError, SetCollapseObserver, SetCollapseRule, SetCollapseRuleBuilder,
    UniformSetCollapseObserver, WeightedSetCollapseObserver,
};
use kahuna::solver::{collapse, CollapseError};
use kahuna::state::SetState;

const A: u64 = 1;
const B: u64 = 2;
const C: u64 = 3;
const RIGHT: (isize, isize, isize) = (1, 0, 0);
const LEFT: (isize, isize, isize) = (-1, 0, 0);

fn set_of(vals: &[u64]) -> SetState {
    let mut s = SetState::new();
    for v in vals {
        s.insert(*v);
    }
    s
}

fn alternating_rule() -> SetCollapseRule<UniformSetCollapseObserver> {
    SetCollapseRuleBuilder::new(UniformSetCollapseObserver, set_of(&[A, B]))
        .allow(&SetState::new_final(A), &[(RIGHT, set_of(&[B])), (LEFT, set_of(&[B]))])
        .allow(&SetState::new_final(B), &[(RIGHT, set_of(&[A])), (LEFT, set_of(&[A]))])
        .build()
}

#[test]
fn build_keeps_offsets_in_first_seen_order() {
    let rule = SetCollapseRuleBuilder::new(UniformSetCollapseObserver, set_of(&[A, B]))
        .allow(&SetState::new_final(A), &[(LEFT, set_of(&[B])), (RIGHT, set_of(&[B]))])
        .allow(&SetState::new_final(B), &[(RIGHT, set_of(&[A])), ((0, 1, 0), SetState::new())])
        .build();
    assert_eq!(rule.neighbor_offsets(), &vec![LEFT, RIGHT]);
}

#[test]
fn collapse_removes_states_without_allowed_neighbor() {
    let rule = alternating_rule();
    let mut cell = set_of(&[A, B]);
    rule.collapse(&mut cell, &[Some(SetState::new_final(A)), None]);
    assert_eq!(cell.values(), &vec![B]);
}

#[test]
fn collapse_ignores_missing_neighbors() {
    let rule = alternating_rule();
    let mut cell = set_of(&[A, B]);
    rule.collapse(&mut cell, &[None, None]);
    assert_eq!(cell.values(), &vec![A, B]);
}

#[test]
fn undeclared_state_forbids_every_neighbor() {
    let rule = SetCollapseRuleBuilder::new(UniformSetCollapseObserver, set_of(&[A, B, C]))
        .allow(&SetState::new_final(A), &[(RIGHT, set_of(&[A, B, C]))])
        .build();
    let mut cell = set_of(&[A, C]);
    rule.collapse(&mut cell, &[Some(set_of(&[B]))]);
    assert_eq!(cell.values(), &vec![A]);
    let mut alone = set_of(&[A, C]);
    rule.collapse(&mut alone, &[None]);
    assert_eq!(alone.values(), &vec![A, C]);
}

#[test]
fn repeated_allow_unions_neighbors() {
    let rule = SetCollapseRuleBuilder::new(UniformSetCollapseObserver, set_of(&[A, B, C]))
        .allow(&SetState::new_final(A), &[(RIGHT, set_of(&[B]))])
        .allow(&SetState::new_final(A), &[(RIGHT, set_of(&[C]))])
        .build();
    let mut cell = set_of(&[A]);
    rule.collapse(&mut cell, &[Some(set_of(&[C]))]);
    assert_eq!(cell.values(), &vec![A]);
    rule.collapse(&mut cell, &[Some(set_of(&[B]))]);
    assert_eq!(cell.values(), &vec![A]);
    rule.collapse(&mut cell, &[Some(set_of(&[A]))]);
    assert_eq!(cell.len(), 0);
}

#[test]
fn collapse_never_grows_a_cell() {
    let rule = alternating_rule();
    let mut cell = set_of(&[A, B]);
    let mut size = cell.len();
    let neighborhoods = vec![
        vec![None, None],
        vec![Some(set_of(&[A, B])), None],
        vec![Some(set_of(&[A])), None],
        vec![None, Some(set_of(&[B]))],
    ];
    for n in neighborhoods.iter() {
        rule.collapse(&mut cell, n);
        assert!(cell.len() <= size);
        size = cell.len();
    }
    assert_eq!(size, 0);
}

#[test]
fn collapse_twice_changes_nothing_more() {
    let rule = alternating_rule();
    let nbrs = vec![Some(set_of(&[B])), Some(set_of(&[A, B]))];
    let mut cell = set_of(&[A, B]);
    rule.collapse(&mut cell, &nbrs);
    assert_eq!(cell.values(), &vec![A]);
    rule.collapse(&mut cell, &nbrs);
    assert_eq!(cell.values(), &vec![A]);
}

#[test]
fn same_statements_build_same_verdicts() {
    let first = alternating_rule();
    let second = alternating_rule();
    let cases = vec![
        (vec![A, B], vec![Some(set_of(&[A])), None]),
        (vec![A, B], vec![Some(set_of(&[B])), Some(set_of(&[B]))]),
        (vec![A], vec![None, Some(set_of(&[A, B]))]),
    ];
    for (vals, nbrs) in cases {
        let mut x = set_of(&vals);
        let mut y = set_of(&vals);
        first.collapse(&mut x, &nbrs);
        second.collapse(&mut y, &nbrs);
        assert_eq!(x.values(), y.values());
    }
}

#[test]
fn pick_weighted_buckets() {
    let w = vec![0u32, 1, 3];
    let mut counts = [0usize; 3];
    for draw in 0..4u128 {
        counts[pick_weighted(&w, draw).unwrap()] += 1;
    }
    assert_eq!(counts, [0, 1, 3]);
    assert_eq!(pick_weighted(&w, 4), None);
    assert_eq!(pick_weighted(&vec![], 0), None);
}

fn weights(entries: &[(u64, u32)]) -> WeightedSetCollapseObserver {
    let mut map: HashMap<u64, u32> = HashMap::default();
    for (k, w) in entries {
        map.insert(*k, *w);
    }
    WeightedSetCollapseObserver { weights: map }
}

#[test]
fn weighted_observer_skips_zero_weight() {
    let observer = weights(&[(A, 0), (B, 1), (C, 3)]);
    for _ in 0..200 {
        let mut cell = set_of(&[A, B, C]);
        assert_eq!(observer.observe(&mut cell, &[]), Ok(()));
        assert_eq!(cell.len(), 1);
        assert_ne!(cell.get(), Some(A));
    }
}

#[test]
fn weighted_observer_errors() {
    let observer = weights(&[(A, 0), (B, 1)]);
    let mut only_zero = set_of(&[A]);
    assert_eq!(observer.observe(&mut only_zero, &[]), Err(ObserveError::ZeroTotalWeight));
    assert_eq!(only_zero.values(), &vec![A]);
    let mut missing = set_of(&[B, C]);
    assert_eq!(observer.observe(&mut missing, &[]), Err(ObserveError::MissingWeight(C)));
    let mut empty = SetState::new();
    assert_eq!(observer.observe(&mut empty, &[]), Err(ObserveError::NoCandidates));
}

#[test]
fn uniform_observer_picks_a_candidate() {
    for _ in 0..50 {
        let mut cell = set_of(&[A, B, C]);
        assert_eq!(UniformSetCollapseObserver.observe(&mut cell, &[]), Ok(()));
        let v = cell.get().unwrap();
        assert!(v == A || v == B || v == C);
    }
    let mut empty = SetState::new();
    assert_eq!(UniformSetCollapseObserver.observe(&mut empty, &[]), Err(ObserveError::NoCandidates));
}

#[test]
fn single_cell_collapses_to_either_state() {
    let rule = SetCollapseRuleBuilder::new(UniformSetCollapseObserver, set_of(&[A, B]))
        .allow(&SetState::new_final(B), &[(RIGHT, set_of(&[A, B])), (LEFT, set_of(&[A, B]))])
        .build();
    for _ in 0..20 {
        let mut space = CubeGrid::new(1, 1, 1, |_x, _y, _z| set_of(&[A, B]));
        assert_eq!(collapse(&mut space, &rule), Ok(()));
        let v = space.index((0, 0, 0)).get().unwrap();
        assert!(v == A || v == B);
    }
}

#[test]
fn two_cells_alternate() {
    let rule = alternating_rule();
    for _ in 0..50 {
        let mut space = CubeGrid::new(2, 1, 1, |_x, _y, _z| set_of(&[A, B]));
        assert_eq!(collapse(&mut space, &rule), Ok(()));
        let left = space.index((0, 0, 0)).get().unwrap();
        let right = space.index((1, 0, 0)).get().unwrap();
        assert_ne!(left, right);
    }
}

#[test]
fn forced_cell_without_right_neighbor_is_a_contradiction() {
    let rule = SetCollapseRuleBuilder::new(UniformSetCollapseObserver, set_of(&[A, B]))
        .allow(&SetState::new_final(B), &[(RIGHT, set_of(&[A, B])), (LEFT, set_of(&[A, B]))])
        .build();
    let mut space = CubeGrid::new(2, 1, 1, |x, _y, _z| if x == 0 { set_of(&[A]) } else { set_of(&[A, B]) });
    match collapse(&mut space, &rule) {
        Err(CollapseError::Contradiction(c)) => assert_eq!(space.index(c).len(), 0),
        other => panic!("expected a contradiction, got {:?}", other),
    }
}

#[test]
fn empty_start_cell_is_a_contradiction() {
    let rule = alternating_rule();
    let mut space = CubeGrid::new(1, 1, 1, |_x, _y, _z| SetState::new());
    assert_eq!(collapse(&mut space, &rule), Err(CollapseError::Contradiction((0, 0, 0))));
}

#[test]
fn weighted_solve_reports_observer_failure() {
    let observer = weights(&[(A, 0), (B, 0)]);
    let rule = SetCollapseRuleBuilder::new(observer, set_of(&[A, B]))
        .allow(&SetState::new_final(A), &[(RIGHT, set_of(&[A, B]))])
        .allow(&SetState::new_final(B), &[(RIGHT, set_of(&[A, B]))])
        .build();
    let mut space = CubeGrid::new(1, 1, 1, |_x, _y, _z| set_of(&[A, B]));
    assert_eq!(
        collapse(&mut space, &rule),
        Err(CollapseError::Observe((0, 0, 0), ObserveError::ZeroTotalWeight))
    );
}

#[test]
fn pick_uniform_takes_the_drawn_candidate() {
    let cell = set_of(&[C, A, B]);
    assert_eq!(pick_uniform(&cell, 0).values(), &vec![C]);
    assert_eq!(pick_uniform(&cell, 2).values(), &vec![B]);
}

#[test]
fn repeated_allow_keeps_one_offset() {
    let rule = SetCollapseRuleBuilder::new(UniformSetCollapseObserver, set_of(&[A, B, C]))
        .allow(&SetState::new_final(A), &[(RIGHT, set_of(&[B]))])
        .allow(&SetState::new_final(A), &[(RIGHT, set_of(&[C]))])
        .allow(&SetState::new(), &[(LEFT, set_of(&[C]))])
        .allow(&SetState::new_final(B), &[])
        .build();
    assert_eq!(rule.neighbor_offsets(), &vec![RIGHT]);
}

#[test]
fn solved_start_stays_solved() {
    let rule = alternating_rule();
    let mut space = CubeGrid::new(2, 1, 1, |x, _y, _z| if x == 0 { set_of(&[A]) } else { set_of(&[B]) });
    assert_eq!(collapse(&mut space, &rule), Ok(()));
    assert_eq!(space.index((0, 0, 0)).values(), &vec![A]);
    assert_eq!(space.index((1, 0, 0)).values(), &vec![B]);
}

#[test]
fn pick_weighted_shares_hold_in_every_order() {
    let weight_of = |v: u64| match v {
        A => 0u32,
        B => 1,
        _ => 3,
    };
    let orders = [[A, B, C], [A, C, B], [B, A, C], [B, C, A], [C, A, B], [C, B, A]];
    for order in orders.iter() {
        let w: Vec<u32> = order.iter().map(|v| weight_of(*v)).collect();
        let mut counts = [0usize; 4];
        for draw in 0..4u128 {
            counts[order[pick_weighted(&w, draw).unwrap()] as usize] += 1;
        }
        assert_eq!(counts[A as usize], 0);
        assert_eq!(counts[B as usize], 1);
        assert_eq!(counts[C as usize], 3);
    }
}
