use mursten::level_gen::Room::{A, B, C, F, S, X};
use mursten::level_gen::{available_doors, can_return, get_rules, is_final, Problem, State};

#[test]
pub fn test_trivial() {
    assert!(true, "Is ok");
}

#[test]
pub fn can_do_single_step() {
    let mut state = State::new(0);
    state.step(1).unwrap();
    assert_eq!(state.current_room, A, "Current room differs");
}

#[test]
#[allow(non_snake_case)]
pub fn walk_till_X() {
    let mut state = State::new(0);
    state.step(1).unwrap();
    state.step(2).unwrap();
    assert_eq!(state.current_room, C, "Current room differs");
    state.step(1).unwrap();
    assert_eq!(state.current_room, X, "Current room differs");
}

#[test]
pub fn walk_with_no_return() {
    let mut state = State::new(0);
    state.step(1).unwrap();
    state.step(2).unwrap();
    assert_eq!(state.current_room, C, "Current room differs");
    let r = state.step(0);
    if let Err(Problem::NoRuleMatchesFor(_, _)) = r {
    } else {
        panic!("Unexpected result: {:?}, at state: {:?}", r, state);
    }
}

#[test]
pub fn walk_with_return() {
    let mut state = State::new(1);
    state.step(1).unwrap();
    state.step(2).unwrap();
    assert_eq!(state.current_room, C, "Current room differs");
    state.step(0).unwrap();
    assert_eq!(state.current_room, A, "Current room differs");
}

#[test]
#[allow(non_snake_case)]
pub fn walk_till_F() {
    let mut state = State::new(3);
    state.step(1).unwrap();
    state.step(2).unwrap();
    state.step(0).unwrap();
    state.step(1).unwrap();
    assert_eq!(state.current_room, B, "Current room differs");
    state.step(1).unwrap();
    assert_eq!(state.current_room, F, "Current room differs");
}

#[test]
fn a_step_through_a_missing_door_changes_nothing() {
    let mut state = State::new(2);
    let r = state.step(0);
    assert!(matches!(r, Err(Problem::NoDoorInRoom(S, 0))));
    assert_eq!(state.current_room, S);
    assert_eq!(state.visited, vec![S]);
}

#[test]
fn a_new_room_is_reported_and_a_known_one_is_not() {
    let mut state = State::new(1);
    assert_eq!(state.step(1).unwrap(), true);
    assert_eq!(state.step(0).unwrap(), false);
    assert_eq!(state.current_room, S);
    assert_eq!(state.visited, vec![S, A, S]);
}

#[test]
fn memories_beyond_the_size_are_forgotten() {
    let mut state = State::new(0);
    state.step(1).unwrap();
    let kept = state.memoized.iter().filter(|m| m.is_some()).count();
    assert_eq!(kept, 1);
    assert!(state.memoized[1].is_some());
}

#[test]
fn a_second_memory_of_a_room_is_refused() {
    let mut state = State::new(5);
    state.step(1).unwrap();
    state.step(1).unwrap();
    state.step(1).unwrap();
    assert_eq!(state.current_room, X);
    let r = state.step(1);
    match r {
        Err(Problem::MultipleReachableMemoriesForRoom(v, n)) => {
            assert_eq!(v, vec![S, A, B, X]);
            assert_eq!(n, 5);
        }
        other => panic!("Unexpected result: {:?}", other),
    }
    assert_eq!(state.current_room, X);
    assert_eq!(state.visited, vec![S, A, B, X]);
}

#[test]
fn rooms_doors_and_rules() {
    assert!(!can_return(S));
    assert!(can_return(A));
    assert!(is_final(F));
    assert!(!is_final(X));
    assert_eq!(available_doors(A), vec![0, 1, 2]);
    assert_eq!(available_doors(F), vec![0]);
    assert_eq!(available_doors(S), vec![1]);
    assert_eq!(get_rules().len(), 14);
    assert_eq!(get_rules()[7].to, F);
}

#[test]
fn ages_fit_until_a_memory_is_as_old_as_can_be() {
    let mut state = State::new(1);
    assert!(state.ages_fit());
    state.memoized[0] = Some(mursten::level_gen::RoomMemory { age: usize::MAX, connections: vec![] });
    assert!(!state.ages_fit());
}

#[test]
fn each_step_through_a_door_makes_the_room_newest() {
    let mut state = State::new(1);
    for door in [1, 1, 0, 1, 1] {
        let before_visited = state.visited.len();
        if state.step(door).is_ok() {
            let current = state.current_room;
            let place = [S, A, B, C, F, X].iter().position(|r| *r == current).unwrap();
            assert_eq!(state.memoized[place].as_ref().unwrap().age, 0);
            assert_eq!(state.visited.len(), before_visited + 1);
            assert_eq!(*state.visited.last().unwrap(), current);
        }
        assert!(state.memoized.iter().filter(|m| m.is_some()).count() <= state.mem_size + 1);
    }
}
