use apo_colony::apo::ant::{first_reaching, unavailable_nodes};
use apo_colony::apo::colony::{path_steps, slots_over};

#[test]
fn blocks_unreachable_and_visited_nodes() {
    let blocked = unavailable_nodes(5, &vec![1, 7], &vec![0, 3]);
    assert_eq!(blocked, vec![true, true, false, true, false]);
    assert_eq!(unavailable_nodes(0, &vec![1], &vec![]), Vec::<bool>::new());
}

#[test]
fn steps_follow_the_path() {
    assert_eq!(path_steps(&vec![0, 2, 1, 0]), vec![(0, 2), (2, 1), (1, 0)]);
    assert_eq!(path_steps(&vec![4]), Vec::<(usize, usize)>::new());
}

#[test]
fn slots_have_one_ant_per_greed_share() {
    let slots = apo_colony::apo::ants::setup_slots(3, 2, || 7u8);
    assert_eq!(slots, vec![vec![7, 7], vec![7, 7], vec![7, 7]]);
    let none: Vec<Vec<u8>> = apo_colony::apo::ants::setup_slots(0, 2, || 7u8);
    assert!(none.is_empty());
}

#[test]
fn slots_over_the_limit() {
    assert_eq!(slots_over(&vec![4, 9, 2, 10, 9], 8), vec![1, 3, 4]);
    assert_eq!(slots_over(&vec![4, 9], 10), Vec::<usize>::new());
    assert_eq!(slots_over(&vec![], 0), Vec::<usize>::new());
}

#[test]
fn first_threshold_reaching_the_draw() {
    assert_eq!(first_reaching(&vec![2, 5, 5, 9], 5), Some(1));
    assert_eq!(first_reaching(&vec![2, 5, 5, 9], 0), Some(0));
    assert_eq!(first_reaching(&vec![2, 5, 5, 9], 10), None);
    assert_eq!(first_reaching(&vec![], 0), None);
}
