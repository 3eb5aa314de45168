use sokoban::level::is_valid_level;
use sokoban::node::Position;
use sokoban::sokoban::{Direction, Sokoban};
use sokoban::solver::{rotate, Solver};

fn solver(level: &str) -> Solver {
    assert!(is_valid_level(level));
    assert!(Sokoban::new(&String::from(level)).player.is_some());
    Solver::new(String::from(level))
}

#[test]
fn test_build_heuristics() {
    let sokoban_level = String::from("0506111111120101130101140001111111");
    let solver = Solver::new(sokoban_level);
    println!("{}", solver.sokoban.render());
    println!("{:?}", solver.heuristics);
}

#[test]
fn test_sokoban_with_multiple_player_zones() {
    let sokoban_level =
        String::from("080711111111200601110020101011011001101113230101020100111110");
    let solver = Solver::new(sokoban_level);

    assert_eq!(solver.player_zones().len(), 2);

    let sokoban_level = String::from("0706111110104010122210133311100001100001111111");
    let solver = Solver::new(sokoban_level);

    assert_eq!(solver.player_zones().len(), 2);
}

#[test]
fn test_sokoban_solver() {
    let sokoban_level = String::from("0706111100102100100111154001100301100111111100");
    let mut solver = Solver::new(sokoban_level);
    assert_eq!(solver.solve_sokoban(), true);
}

#[test]
fn solver_starts_empty() {
    let s = solver("0706111100102100100111154001100301100111111100");
    assert_eq!(s.counter, 0);
    assert!(s.state_map.is_empty());
    assert_eq!(s.original_player, Position::new(2, 3));
    assert_eq!(s.forward.boxes, vec![Position::new(1, 3), Position::new(3, 4)]);
    assert_eq!(s.sokoban.goals, vec![Position::new(1, 3), Position::new(3, 4)]);
    assert_eq!(s.sokoban.boxes, vec![Position::new(2, 1), Position::new(1, 3)]);
    assert_eq!(s.sokoban.player, Some(Position::new(2, 3)));
}

#[test]
fn solver_counts_its_pulls() {
    let mut s = solver("0706111100102100100111154001100301100111111100");
    assert!(s.solve_sokoban());
    assert_eq!(s.counter, 16);
    // every box is back where the search found it
    assert_eq!(s.sokoban.boxes, vec![Position::new(2, 1), Position::new(1, 3)]);
    assert!(!s.state_map.is_empty());
}

#[test]
fn solved_level_needs_no_pull() {
    // both boxes stand on goals and the player is at home already
    let mut s = solver("0506111111155101100101140001111111");
    assert!(s.solve_sokoban());
    assert_eq!(s.counter, 0);
}

#[test]
fn walled_goal_is_not_solved() {
    // the goal lies behind a wall: the box can never get there
    let mut s = solver("04071111111143012110001111111111");
    assert_eq!(s.solve_sokoban(), false);
}

#[test]
fn zones_are_named_by_their_last_cell() {
    let s = solver("0706111110104010122210133311100001100001111111");
    assert_eq!(s.player_zones(), vec![Position::new(3, 1), Position::new(4, 5)]);
    let level = String::from("080711111111200601110020101011011001101113230101020100111110");
    let s = Solver::new(level);
    assert_eq!(s.player_zones(), vec![Position::new(2, 6), Position::new(4, 6)]);
}

#[test]
fn zone_without_box_is_left_out() {
    // no box at all: no zone is worth a start
    let s = solver("0303111141111");
    assert!(s.player_zones().is_empty());
}

#[test]
fn distances_count_steps_round_walls() {
    let s = solver("0506111111120101130101140001111111");
    assert_eq!(s.heuristics.len(), 1);
    let table = &s.heuristics[0];
    let at = |x: usize, y: usize| table[y * 6 + x];
    assert_eq!(at(1, 2), Some(0));
    assert_eq!(at(2, 2), Some(1));
    assert_eq!(at(1, 1), Some(1));
    assert_eq!(at(1, 3), Some(1));
    assert_eq!(at(2, 1), Some(2));
    assert_eq!(at(2, 3), Some(2));
    assert_eq!(at(3, 3), Some(3));
    assert_eq!(at(4, 3), Some(4));
    assert_eq!(at(4, 2), Some(5));
    assert_eq!(at(4, 1), Some(6));
    // walls have no distance
    assert_eq!(at(0, 0), None);
    assert_eq!(at(3, 1), None);
    assert_eq!(at(3, 2), None);
    assert_eq!(table.iter().filter(|d| d.is_some()).count(), 10);
}

#[test]
fn distance_table_of_any_cell() {
    let b = Sokoban::new(&String::from("0506111111120101130101140001111111"));
    let table = Solver::heuristic_bfs(&b, Position::new(4, 1));
    assert_eq!(table[1 * 6 + 4], Some(0));
    assert_eq!(table[2 * 6 + 1], Some(6));
    // boxes and the player do not stand in the way
    assert_eq!(table[3 * 6 + 1], Some(5));
}

#[test]
fn enclosed_box_has_one_way_out() {
    // the box at (1, 1) has walls on three sides; the only way leads down
    // the left column, and the goal on the right is cut off
    let s = solver("05051111113111101111413111111");
    let table = &s.heuristics[0];
    let at = |x: usize, y: usize| table[y * 5 + x];
    assert_eq!(at(1, 1), Some(0));
    assert_eq!(at(1, 2), Some(1));
    assert_eq!(at(1, 3), Some(2));
    for y in 0..5 {
        for x in 0..5 {
            let on_path = x == 1 && (1..=3).contains(&y);
            assert_eq!(at(x, y).is_some(), on_path);
        }
    }
    // goal 0 of the searched board is the box's own cell, and there is no
    // bound for a goal that walls cut off
    assert_eq!(s.get_heuristic(0, 0), Some(0));
    assert_eq!(s.get_heuristic(1, 0), None);
    assert_eq!(s.get_heuristic(0, 1), None);
    assert_eq!(s.get_heuristic(1, 1), Some(0));
}

#[test]
fn heuristic_between_two_boxes() {
    let s = solver("0706111100102100100111154001100301100111111100");
    // from each box of the level to its own cell, and to the other's
    assert_eq!(s.get_heuristic(0, 0), Some(0));
    assert_eq!(s.get_heuristic(1, 1), Some(0));
    assert_eq!(s.get_heuristic(1, 0), Some(3));
    assert_eq!(s.get_heuristic(0, 1), Some(3));
}

#[test]
fn memo_prunes_at_equal_or_greater_depth() {
    let mut s = solver("0506111111120101130101140001111111");
    assert_eq!(s.been_here(3), false);
    assert_eq!(s.state_map.len(), 1);
    assert_eq!(s.been_here(3), true);
    assert_eq!(s.been_here(7), true);
    // a lesser depth is new, and is recorded
    assert_eq!(s.been_here(2), false);
    assert_eq!(s.been_here(2), true);
    assert_eq!(s.state_map.len(), 1);
    assert_eq!(s.state_map.values().copied().collect::<Vec<usize>>(), vec![2]);
}

#[test]
fn solved_needs_the_player_at_home() {
    let mut s = solver("0506111111155101100101140001111111");
    assert!(s.is_solved());
    // nobody gets home into a wall
    let mut s = solver("0506111111155101100101140001111111");
    s.original_player = Position::new(0, 0);
    assert_eq!(s.is_solved(), false);
    // nor to a cell outside the grid
    s.original_player = Position::new(9, 9);
    assert_eq!(s.is_solved(), false);
    let mut s = solver("0506111111122101133101140001111111");
    assert_eq!(s.is_solved(), false);
}

#[test]
fn box_on_goal_is_never_cut() {
    // reversed, the box of digit 5 stands on a goal in a corner
    let s = solver("05051111115001100011400111111");
    assert_eq!(s.sokoban.boxes[0], Position::new(1, 1));
    assert_eq!(s.should_cut_tree(0), false);
}

#[test]
fn box_in_a_corner_off_goal_is_cut() {
    // reversed, digit 2 is a box: it sits in a dead end one cell wide
    let s = solver("05051111112111141111113111111");
    assert_eq!(s.sokoban.boxes[0], Position::new(1, 1));
    assert_eq!(s.should_cut_tree(0), true);
}

#[test]
fn box_held_by_a_box_is_not_cut() {
    // reversed: the box at (1, 1) could go right if the box at (2, 1)
    // were not there, and two cells down there is floor
    let s = solver("0506111111122001100001143301111111");
    assert_eq!(s.sokoban.boxes[0], Position::new(1, 1));
    assert_eq!(s.should_cut_tree(0), false);
}

#[test]
fn rotate_goes_round() {
    assert_eq!(rotate(0, 0, 3), 0);
    assert_eq!(rotate(2, 0, 3), 2);
    assert_eq!(rotate(2, 1, 3), 0);
    assert_eq!(rotate(2, 2, 3), 1);
    assert_eq!(rotate(0, 2, 3), 2);
    assert_eq!(rotate(usize::MAX - 1, usize::MAX - 1, usize::MAX), usize::MAX - 2);
}

#[test]
fn visiting_order_of_two() {
    let order = Solver::depth_permutation(2, 1, 0, &Direction::Left);
    assert_eq!(order.len(), 16);
    let expected = vec![
        (1, 0, Direction::Left),
        (1, 0, Direction::Right),
        (1, 0, Direction::Up),
        (1, 0, Direction::Down),
        (1, 1, Direction::Left),
        (1, 1, Direction::Right),
        (1, 1, Direction::Up),
        (1, 1, Direction::Down),
        (0, 0, Direction::Left),
        (0, 0, Direction::Right),
        (0, 0, Direction::Up),
        (0, 0, Direction::Down),
        (0, 1, Direction::Left),
        (0, 1, Direction::Right),
        (0, 1, Direction::Up),
        (0, 1, Direction::Down),
    ];
    assert_eq!(order, expected);
    assert!(Solver::depth_permutation(0, 0, 0, &Direction::Up).is_empty());
    let wide = Solver::depth_permutation(255, 254, 200, &Direction::Up);
    assert_eq!(wide.len(), 255 * 255 * 4);
    assert_eq!(wide[0], (254, 200, Direction::Up));
    assert_eq!(wide[4], (254, 201, Direction::Up));
    assert_eq!(wide[255 * 4], (0, 200, Direction::Up));
}
