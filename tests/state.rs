use kahuna::state::SetState;

fn set_of(vals: &[u64]) -> SetState {
    let mut s = SetState::new();
    for v in vals {
        s.insert(*v);
    }
    s
}

#[test]
fn insert_ignores_repeats() {
    let s = set_of(&[3, 1, 3, 2, 1]);
    assert_eq!(s.values(), &vec![3, 1, 2]);
    assert_eq!(s.len(), 3);
}

#[test]
fn get_only_for_final_sets() {
    assert_eq!(SetState::new_final(4).get(), Some(4));
    assert!(SetState::new_final(4).is_final());
    assert_eq!(set_of(&[1, 2]).get(), None);
    assert_eq!(SetState::new().get(), None);
}

#[test]
fn collect_final_states_appends_singletons() {
    let s = set_of(&[5, 6]);
    let mut out = vec![SetState::new_final(9)];
    s.collect_final_states(&mut out);
    assert_eq!(out.len(), 3);
    assert_eq!(out[0].values(), &vec![9]);
    assert_eq!(out[1].values(), &vec![5]);
    assert_eq!(out[2].values(), &vec![6]);
}

#[test]
fn has_any_of_needs_a_shared_value() {
    assert!(set_of(&[1, 2]).has_any_of(&set_of(&[2, 3])));
    assert!(!set_of(&[1, 2]).has_any_of(&set_of(&[3, 4])));
    assert!(!SetState::new().has_any_of(&set_of(&[1])));
}

#[test]
fn clear_states_removes_shared_values() {
    let mut s = set_of(&[1, 2, 3, 4]);
    s.clear_states(&set_of(&[4, 2, 9]));
    assert_eq!(s.values(), &vec![1, 3]);
    s.clear_states(&set_of(&[1, 3]));
    assert_eq!(s.len(), 0);
}

#[test]
fn set_states_adds_missing_values() {
    let mut s = set_of(&[1, 2]);
    s.set_states(&set_of(&[3, 2, 4]));
    assert_eq!(s.values(), &vec![1, 2, 3, 4]);
}

#[test]
fn remove_and_contains() {
    let mut s = set_of(&[7, 8]);
    assert!(s.contains(8));
    s.remove(8);
    assert!(!s.contains(8));
    assert_eq!(s.values(), &vec![7]);
}

#[test]
fn clone_keeps_values() {
    let s = set_of(&[2, 1]);
    assert_eq!(s.clone().values(), &vec![2, 1]);
}
