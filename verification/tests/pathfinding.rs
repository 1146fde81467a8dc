use std::collections::{HashMap, VecDeque};
use wasm_pf::grid::get_adjacent;
use wasm_pf::pathfinding::{
    can_search, is_wall, reconstruct_path, shortest_path, try_shortest_path, validate_input,
    PathError,
};

/// The path at the end of a result that reached `target`: it begins where
/// `target` occurs for the last time.
fn path_suffix(result: &[usize], target: usize) -> Vec<usize> {
    let at = result.iter().rposition(|&c| c == target).unwrap();
    result[at..].to_vec()
}

/// Whether `route` leads from `start` to `target` by single moves and
/// enters no wall.
fn is_route(
    route: &[usize],
    walls: &[usize],
    start: usize,
    target: usize,
    dim_x: usize,
    dim_y: usize,
    diagonals: bool,
) -> bool {
    if route.first() != Some(&start) || route.last() != Some(&target) {
        return false;
    }
    route.iter().all(|c| !walls.contains(c))
        && route.windows(2).all(|w| get_adjacent(w[0], dim_x, dim_y, diagonals).contains(&w[1]))
}

/// Number of moves of a shortest route, by plain breadth-first search.
fn distance(
    walls: &[usize],
    start: usize,
    target: usize,
    dim_x: usize,
    dim_y: usize,
    diagonals: bool,
) -> Option<usize> {
    let mut dist: HashMap<usize, usize> = HashMap::new();
    let mut queue = VecDeque::new();
    dist.insert(start, 0);
    queue.push_back(start);
    while let Some(cell) = queue.pop_front() {
        if cell == target {
            return Some(dist[&cell]);
        }
        for adj in get_adjacent(cell, dim_x, dim_y, diagonals) {
            if !walls.contains(&adj) && !dist.contains_key(&adj) {
                dist.insert(adj, dist[&cell] + 1);
                queue.push_back(adj);
            }
        }
    }
    None
}

#[test]
fn start_equal_to_target_returns_it_twice() {
    assert_eq!(shortest_path(&[], 4, 4, 3, 3, false, false), vec![4, 4]);
    assert_eq!(shortest_path(&[], 4, 4, 3, 3, true, true), vec![4, 4]);
    assert_eq!(shortest_path(&[1, 3], 0, 0, 3, 3, false, false), vec![0, 0]);
    assert_eq!(shortest_path(&[], 0, 0, 1, 1, true, false), vec![0, 0]);
}

#[test]
fn three_by_three_without_walls() {
    let result = shortest_path(&[], 0, 8, 3, 3, false, false);
    let mut path = path_suffix(&result, 8);
    path.reverse();
    assert_eq!(path.len(), 5);
    assert!(is_route(&path, &[], 0, 8, 3, 3, false));
    assert_eq!(path, vec![0, 1, 2, 5, 8]);
}

#[test]
fn three_by_three_exact_trace() {
    let result = shortest_path(&[], 0, 8, 3, 3, false, false);
    assert_eq!(
        result,
        vec![0, 1, 3, 1, 2, 4, 3, 6, 2, 5, 4, 7, 6, 5, 8, 7, 8, 8, 5, 2, 1, 0]
    );
}

#[test]
fn start_walled_in_returns_only_the_start() {
    assert_eq!(shortest_path(&[1, 3], 0, 8, 3, 3, false, false), vec![0]);
    assert_eq!(shortest_path(&[1, 3], 0, 8, 3, 3, true, false), vec![0]);
}

#[test]
fn diagonals_shorten_the_path_on_five_by_five() {
    let with = shortest_path(&[], 0, 24, 5, 5, false, true);
    let mut path = path_suffix(&with, 24);
    path.reverse();
    assert_eq!(path, vec![0, 6, 12, 18, 24]);
    assert_eq!(path.len() - 1, 4);
    assert!(is_route(&path, &[], 0, 24, 5, 5, true));

    let without = shortest_path(&[], 0, 24, 5, 5, false, false);
    let mut path = path_suffix(&without, 24);
    path.reverse();
    assert_eq!(path.len() - 1, 8);
    assert!(is_route(&path, &[], 0, 24, 5, 5, false));
}

#[test]
fn enclosed_target_gives_the_trace_alone() {
    // 0 1 2
    // 3 4 #
    // 6 # 8
    let result = shortest_path(&[5, 7], 0, 8, 3, 3, false, false);
    assert_eq!(result, vec![0, 1, 3, 1, 2, 4, 3, 6, 2, 4, 6]);
    assert!(!result.contains(&8));
}

#[test]
fn target_that_is_a_wall_is_not_reached() {
    let result = shortest_path(&[8], 0, 8, 3, 3, false, false);
    assert!(!result.contains(&8));
    assert_eq!(result, vec![0, 1, 3, 1, 2, 4, 3, 6, 2, 5, 4, 7, 6, 5, 7]);
}

#[test]
fn diagonal_moves_pass_between_walls() {
    // 0 #
    // # 3
    assert_eq!(shortest_path(&[1, 2], 0, 3, 2, 2, false, true), vec![0, 3, 3, 3, 0]);
    assert_eq!(shortest_path(&[1, 2], 0, 3, 2, 2, false, false), vec![0]);
}

#[test]
fn walled_start_is_searched_from_all_the_same() {
    let plain = shortest_path(&[], 0, 8, 3, 3, false, false);
    let walled = shortest_path(&[0], 0, 8, 3, 3, false, false);
    assert_eq!(plain, walled);
}

#[test]
fn repeated_calls_agree() {
    let walls = [6, 7, 8, 11, 13];
    for &heuristic in &[false, true] {
        for &diagonals in &[false, true] {
            let a = shortest_path(&walls, 0, 24, 5, 5, heuristic, diagonals);
            let b = shortest_path(&walls, 0, 24, 5, 5, heuristic, diagonals);
            assert_eq!(a, b);
        }
    }
}

#[test]
fn order_and_repetition_of_walls_do_not_matter() {
    let a = shortest_path(&[6, 7, 8, 11, 13], 0, 24, 5, 5, true, true);
    let b = shortest_path(&[13, 8, 6, 11, 7, 6, 13, 13], 0, 24, 5, 5, true, true);
    assert_eq!(a, b);
}

#[test]
fn walls_outside_the_grid_change_nothing() {
    let a = shortest_path(&[], 0, 8, 3, 3, false, false);
    let b = shortest_path(&[9, 100, usize::MAX], 0, 8, 3, 3, false, false);
    assert_eq!(a, b);
}

#[test]
fn path_is_a_route_around_walls() {
    // . . . . .
    // . # # # .
    // . . . # .
    // # # . # .
    // . . . # .
    let walls = [6, 7, 8, 13, 15, 16, 18, 23];
    for &heuristic in &[false, true] {
        for &diagonals in &[false, true] {
            let result = shortest_path(&walls, 0, 24, 5, 5, heuristic, diagonals);
            let mut path = path_suffix(&result, 24);
            path.reverse();
            assert!(is_route(&path, &walls, 0, 24, 5, 5, diagonals));
        }
    }
}

#[test]
fn uniform_cost_path_is_as_short_as_breadth_first_search() {
    let dim_x = 6;
    let dim_y = 5;
    let layouts: [&[usize]; 4] = [
        &[],
        &[1, 7, 13, 19, 3, 9, 15, 21, 27],
        &[6, 7, 8, 9, 10, 18, 19, 20, 21, 22, 23],
        &[2, 8, 14, 20, 26],
    ];
    for walls in layouts.iter() {
        for &diagonals in &[false, true] {
            for target in 0..dim_x * dim_y {
                let result = shortest_path(walls, 0, target, dim_x, dim_y, false, diagonals);
                let expected = if walls.contains(&target) && target != 0 {
                    None
                } else {
                    distance(walls, 0, target, dim_x, dim_y, diagonals)
                };
                match expected {
                    Some(moves) => {
                        let mut path = path_suffix(&result, target);
                        path.reverse();
                        assert_eq!(path.len() - 1, moves);
                        assert_eq!(path[0], 0);
                        assert_eq!(*path.last().unwrap(), target);
                    }
                    None => assert!(!result.contains(&target)),
                }
            }
        }
    }
}

#[test]
fn heuristic_search_explores_towards_the_target() {
    // On an open grid the heuristic keeps the search from popping the
    // cells that lie away from the target.
    let guided = shortest_path(&[], 12, 14, 5, 5, true, false);
    assert_eq!(guided, vec![12, 11, 13, 7, 17, 13, 14, 8, 18, 14, 14, 13, 12]);
    let blind = shortest_path(&[], 12, 14, 5, 5, false, false);
    assert!(guided.len() < blind.len());
}

#[test]
fn reconstruct_path_walks_the_links_back() {
    let mut prev_map: HashMap<usize, Option<usize>> = HashMap::new();
    prev_map.insert(0, None);
    prev_map.insert(1, Some(0));
    prev_map.insert(2, Some(1));
    prev_map.insert(5, Some(2));
    let mut trace = vec![9, 9];
    reconstruct_path(&prev_map, 5, 3, &mut trace);
    assert_eq!(trace, vec![9, 9, 5, 2, 1, 0]);
}

#[test]
fn reconstruct_path_stops_after_the_given_steps() {
    let mut prev_map: HashMap<usize, Option<usize>> = HashMap::new();
    prev_map.insert(0, None);
    prev_map.insert(1, Some(0));
    prev_map.insert(2, Some(1));
    let mut trace = Vec::new();
    reconstruct_path(&prev_map, 2, 1, &mut trace);
    assert_eq!(trace, vec![2, 1]);
    let mut trace = Vec::new();
    reconstruct_path(&prev_map, 2, 0, &mut trace);
    assert_eq!(trace, vec![2]);
    let mut trace = Vec::new();
    reconstruct_path(&prev_map, 2, 10, &mut trace);
    assert_eq!(trace, vec![2, 1, 0]);
}

#[test]
fn reconstruct_path_of_an_unknown_cell_is_the_cell() {
    let prev_map: HashMap<usize, Option<usize>> = HashMap::new();
    let mut trace = vec![1];
    reconstruct_path(&prev_map, 7, 4, &mut trace);
    assert_eq!(trace, vec![1, 7]);
}

#[test]
fn is_wall_tests_membership() {
    assert!(is_wall(&[3, 1, 4, 1, 5], 4));
    assert!(is_wall(&[3, 1, 4, 1, 5], 1));
    assert!(!is_wall(&[3, 1, 4, 1, 5], 2));
    assert!(!is_wall(&[], 0));
}

#[test]
fn search_needs_a_grid_and_cells_on_it() {
    assert!(can_search(0, 8, 3, 3));
    assert!(can_search(0, 0, 1, 1));
    assert!(can_search(usize::MAX - 1, 0, usize::MAX, 1));
    assert!(!can_search(0, 9, 3, 3));
    assert!(!can_search(9, 0, 3, 3));
    assert!(!can_search(0, 0, 0, 3));
    assert!(!can_search(0, 0, 3, 0));
    assert!(!can_search(0, 0, usize::MAX, 2));
}

#[test]
fn zero_dimensions_are_invalid() {
    assert_eq!(validate_input(&[], 0, 0, 0, 3), Err(PathError::InvalidDimensions));
    assert_eq!(validate_input(&[], 0, 0, 3, 0), Err(PathError::InvalidDimensions));
    assert_eq!(validate_input(&[], 0, 0, 0, 0), Err(PathError::InvalidDimensions));
    assert_eq!(
        try_shortest_path(&[], 0, 0, 0, 3, false, false),
        Err(PathError::InvalidDimensions)
    );
}

#[test]
fn too_many_cells_are_invalid() {
    assert_eq!(
        validate_input(&[], 0, 0, usize::MAX, 2),
        Err(PathError::InvalidDimensions)
    );
    assert_eq!(validate_input(&[], 0, 0, usize::MAX, 1), Ok(()));
}

#[test]
fn indices_outside_the_grid_are_out_of_range() {
    assert_eq!(validate_input(&[], 9, 0, 3, 3), Err(PathError::IndexOutOfRange));
    assert_eq!(validate_input(&[], 0, 9, 3, 3), Err(PathError::IndexOutOfRange));
    assert_eq!(validate_input(&[4, 9], 0, 8, 3, 3), Err(PathError::IndexOutOfRange));
    assert_eq!(validate_input(&[4, 8], 0, 8, 3, 3), Ok(()));
    assert_eq!(
        try_shortest_path(&[], 0, 9, 3, 3, true, true),
        Err(PathError::IndexOutOfRange)
    );
}

#[test]
fn walled_start_is_reported() {
    assert_eq!(validate_input(&[1, 0], 0, 8, 3, 3), Err(PathError::StartIsWall));
    assert_eq!(
        try_shortest_path(&[0], 0, 8, 3, 3, false, false),
        Err(PathError::StartIsWall)
    );
}

#[test]
fn dimensions_are_judged_before_indices_and_indices_before_walls() {
    assert_eq!(validate_input(&[0], 5, 5, 0, 0), Err(PathError::InvalidDimensions));
    assert_eq!(validate_input(&[0, 9], 0, 8, 3, 3), Err(PathError::IndexOutOfRange));
}

#[test]
fn checked_search_agrees_with_the_search() {
    let walls = [1, 4];
    assert_eq!(
        try_shortest_path(&walls, 0, 8, 3, 3, false, false),
        Ok(shortest_path(&walls, 0, 8, 3, 3, false, false))
    );
    assert_eq!(
        try_shortest_path(&walls, 0, 8, 3, 3, true, true),
        Ok(shortest_path(&walls, 0, 8, 3, 3, true, true))
    );
}
