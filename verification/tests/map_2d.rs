use apo_colony::apo::ant_map_traits::AntMapInfo;
use apo_colony::apo::ant_maps::_2d::map_2d::{
    fetch_info, fetch_value_from, get_empty_map_info, helper_add_to_info, helper_add_to_info_bidirecional, info_cell,
    init_map_info, update_pheromone, update_pheromones,
};

fn distance(a: (f64, f64), b: (f64, f64)) -> f64 {
    let dx = (a.0 - b.0).abs();
    let dy = (a.1 - b.1).abs();
    (dx.powi(2) + dy.powi(2)).sqrt()
}

fn build(coords: &[(f64, f64)], phero: f64) -> (Vec<Vec<f64>>, Vec<Vec<f64>>) {
    init_map_info(coords.len(), phero, |i: usize, j: usize| distance(coords[i], coords[j]))
}

#[test]
fn init_empty_unid_map() {
    let (distances, pheromones) = build(&[], 1.0);

    assert!(distances.len() == 0);
    assert!(pheromones.len() == 0);
}

#[test]
fn init_loaded_unid_map() {
    let coords = [(0.0, 0.0), (0.0, 0.0), (0.0, 0.0)];
    let (distances, pheromones) = build(&coords, 1.0);

    assert!(distances.len() == 3);
    assert!(distances[0].len() == 0);
    assert!(distances[1].len() == 1);
    assert!(distances[2].len() == 2);

    assert!(pheromones.len() == 3);
    assert!(pheromones[0] == Vec::<f64>::new());
    assert!(pheromones[1] == vec![1.0]);
    assert!(pheromones[2] == vec![1.0, 1.0]);

    let (distances, pheromones) = build(&coords, 5.0);

    assert!(distances.len() == 3);
    assert!(distances[0].len() == 0);
    assert!(distances[1].len() == 1);
    assert!(distances[2].len() == 2);

    assert!(pheromones.len() == 3);
    assert!(pheromones[0] == Vec::<f64>::new());
    assert!(pheromones[1] == vec![5.0]);
    assert!(pheromones[2] == vec![5.0, 5.0]);
}

#[test]
fn set_pheromones_ok() {
    let coords = [(0.0, 0.0), (0.0, 0.0), (0.0, 0.0)];
    let (_distances, mut pheromones) = build(&coords, 1.0);

    let l1: Vec<f64> = vec![];
    let l2 = vec![0.0];
    let l3 = vec![0.0, 1.0];
    let new_pheromones = vec![l1.clone(), l2.clone(), l3.clone()];

    let r = update_pheromones(&mut pheromones, new_pheromones);

    assert!(r == Result::Ok(()));

    assert!(pheromones.len() == 3);
    assert!(pheromones[0] == l1);
    assert!(pheromones[1] == l2);
    assert!(pheromones[2] == l3);
}

#[test]
fn set_pheromones_err() {
    let coords = [(0.0, 0.0), (0.0, 0.0), (0.0, 0.0)];
    let (_distances, mut pheromones) = build(&coords, 1.0);

    let l1: Vec<f64> = vec![0.0];
    let l2 = vec![0.0];
    let l3 = vec![0.0, 1.0];
    let new_pheromones = vec![l1, l2, l3];

    let r = update_pheromones(&mut pheromones, new_pheromones);

    assert!(r == Result::Err("Column count mismatch"));

    let l1: Vec<f64> = vec![];
    let l2 = vec![0.0];
    let l3 = vec![0.0, 1.0];
    let l4 = vec![0.0, 1.0, 2.0];
    let new_pheromones = vec![l1, l2, l3, l4];

    let r = update_pheromones(&mut pheromones, new_pheromones);

    assert!(r == Result::Err("Row count mismatch"));
}

#[test]
fn column_mismatch_keeps_rows_already_replaced() {
    let mut pheromones: Vec<Vec<f64>> = vec![vec![], vec![1.0], vec![1.0, 1.0]];
    let r = update_pheromones(&mut pheromones, vec![vec![], vec![7.0], vec![8.0]]);
    assert_eq!(r, Err("Column count mismatch"));
    assert_eq!(pheromones, vec![vec![], vec![7.0], vec![1.0, 1.0]]);
}

#[test]
fn row_mismatch_changes_nothing() {
    let mut pheromones: Vec<Vec<f64>> = vec![vec![], vec![1.0]];
    let r = update_pheromones(&mut pheromones, vec![vec![]]);
    assert_eq!(r, Err("Row count mismatch"));
    assert_eq!(pheromones, vec![vec![], vec![1.0]]);
}

#[test]
fn distances_of_a_square() {
    let coords = [(0.0, 0.0), (3.0, 0.0), (3.0, 4.0)];
    let (distances, _) = build(&coords, 1.0);
    assert_eq!(distances, vec![vec![], vec![3.0], vec![5.0, 4.0]]);
}

#[test]
fn fetch_is_symmetric_and_zero_on_itself() {
    let coords = [(0.0, 0.0), (3.0, 0.0), (3.0, 4.0)];
    let (d, p) = build(&coords, 2.0);
    for s in 0..3 {
        for e in 0..3 {
            let a = fetch_value_from(&d, &p, AntMapInfo::Distance, s, e, 0.0);
            let b = fetch_value_from(&d, &p, AntMapInfo::Distance, e, s, 0.0);
            assert_eq!(a, b);
        }
        assert_eq!(fetch_value_from(&d, &p, AntMapInfo::Distance, s, s, 0.0), Ok(0.0));
    }
    assert_eq!(fetch_value_from(&d, &p, AntMapInfo::Distance, 0, 2, 0.0), Ok(5.0));
    assert_eq!(fetch_value_from(&d, &p, AntMapInfo::Pheromone, 2, 1, 0.0), Ok(2.0));
}

#[test]
fn fetch_reports_missing_cells() {
    let d: Vec<Vec<f64>> = vec![vec![], vec![1.0], vec![2.0]];
    let p: Vec<Vec<f64>> = vec![];
    assert_eq!(fetch_value_from(&d, &p, AntMapInfo::Distance, 5, 1, 0.0), Err("No line".to_string()));
    assert_eq!(fetch_value_from(&d, &p, AntMapInfo::Distance, 1, 2, 0.0), Err("No column".to_string()));
    assert_eq!(fetch_value_from(&d, &p, AntMapInfo::Pheromone, 1, 0, 0.0), Err("No line".to_string()));
}

#[test]
fn fetch_info_reads_a_whole_row() {
    let coords = [(0.0, 0.0), (3.0, 0.0), (3.0, 4.0)];
    let (d, p) = build(&coords, 1.5);
    assert_eq!(fetch_info(&d, &p, 3, 1, AntMapInfo::Distance, 0.0), vec![3.0, 0.0, 4.0]);
    assert_eq!(fetch_info(&d, &p, 3, 0, AntMapInfo::Pheromone, 0.0), vec![0.0, 1.5, 1.5]);
}

#[test]
fn pheromone_read_after_write() {
    let coords = [(0.0, 0.0), (3.0, 0.0), (3.0, 4.0)];
    let (d, mut p) = build(&coords, 1.0);
    update_pheromone(&mut p, 0, 2, 9.0);
    assert_eq!(fetch_value_from(&d, &p, AntMapInfo::Pheromone, 0, 2, 0.0), Ok(9.0));
    assert_eq!(fetch_value_from(&d, &p, AntMapInfo::Pheromone, 2, 0, 0.0), Ok(9.0));
    assert_eq!(fetch_value_from(&d, &p, AntMapInfo::Pheromone, 1, 2, 0.0), Ok(1.0));
    update_pheromone(&mut p, 1, 1, 4.0);
    assert_eq!(p, vec![vec![], vec![1.0], vec![9.0, 1.0]]);
}

#[test]
fn add_to_info_one_and_two_directions() {
    let mut info: Vec<Vec<f64>> = vec![vec![], vec![1.0], vec![1.0, 1.0]];
    helper_add_to_info(&mut info, 2.5, 0, 2, |a: f64, b: f64| a + b);
    helper_add_to_info(&mut info, 2.5, 2, 0, |a: f64, b: f64| a + b);
    helper_add_to_info(&mut info, 2.5, 1, 1, |a: f64, b: f64| a + b);
    assert_eq!(info, vec![vec![], vec![1.0], vec![6.0, 1.0]]);

    let mut square: Vec<Vec<f64>> = vec![vec![0.0, 0.0], vec![0.0, 0.0]];
    helper_add_to_info_bidirecional(&mut square, 3.0, 0, 1, |a: f64, b: f64| a + b);
    helper_add_to_info_bidirecional(&mut square, 3.0, 1, 1, |a: f64, b: f64| a + b);
    assert_eq!(square, vec![vec![0.0, 3.0], vec![0.0, 0.0]]);
}

#[test]
fn empty_info_keeps_the_shape() {
    let info: Vec<Vec<f64>> = vec![vec![], vec![4.0], vec![5.0, 6.0]];
    let empty = get_empty_map_info(&info, 0.0);
    assert_eq!(empty, vec![vec![], vec![0.0], vec![0.0, 0.0]]);
    let mut current = info.clone();
    assert_eq!(update_pheromones(&mut current, empty.clone()), Ok(()));
    assert_eq!(current, empty);
}

#[test]
fn cells_name_the_larger_node_first() {
    assert_eq!(info_cell(3, 3), None);
    assert_eq!(info_cell(1, 4), Some((4, 1)));
    assert_eq!(info_cell(4, 1), Some((4, 1)));
}
