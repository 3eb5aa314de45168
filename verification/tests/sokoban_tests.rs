use sokoban::level::is_valid_level;
use sokoban::node::{NodeType, Position};
use sokoban::sokoban::{covers, holds, Direction, Sokoban};

fn board(level: &str) -> Sokoban {
    assert!(is_valid_level(level));
    Sokoban::new(&String::from(level))
}

#[test]
fn test_build_sokoban_world() {
    let sokoban_level =
        String::from("080711111111200001110320101011011401101113230101000100111110");
    let sokoban = Sokoban::new(&sokoban_level);
    println!("{}", sokoban.render());
}

#[test]
fn test_reverse_build_sokoban_world() {
    let sokoban_level =
        String::from("080711111111200001110620101011011001101113230101000100111110");
    Sokoban::new_reverse(&sokoban_level);
}

#[test]
fn test_no_box_move_if_invalid_move() {}

#[test]
fn test_box_move() {}

#[test]
fn test_hash_sokoban() {
    let sokoban_level1 = String::from("0506111111120101100101140301111111");
    let sokoban_level2 = String::from("0506111111120101104101100301111111");
    let sokoban_level3 = String::from("0506111111120101100101100341111111");
    let mut sokoban = Sokoban::new(&sokoban_level1);
    let mut sokoban2 = Sokoban::new(&sokoban_level2);
    let mut sokoban3 = Sokoban::new(&sokoban_level3);
    assert_eq!(sokoban.get_hash(), sokoban2.get_hash());
    assert_eq!(sokoban.get_hash(), sokoban2.get_hash());
    assert_ne!(sokoban.get_hash(), sokoban3.get_hash());

    let sokoban_level1 =
        String::from("08081111111110300001100022011111101100010310000104100001001000011110");
    let sokoban_level2 =
        String::from("08081111111110300001100022011111141100010310000100100001001000011110");
    let mut sokoban1 = Sokoban::new(&sokoban_level1);
    let mut sokoban2 = Sokoban::new(&sokoban_level2);
    println!("{}", sokoban1.render());
    println!("{}", sokoban2.render());
    assert_ne!(sokoban1.get_hash(), sokoban2.get_hash());

    let sokoban_level1 = String::from("07070111100114011110300011325201100011111001000111100");
    let sokoban_level2 = String::from("07070111100110011110340011055201100011111001000111100");
    let mut sokoban1 = Sokoban::new(&sokoban_level1);
    let mut sokoban2 = Sokoban::new(&sokoban_level2);
    sokoban1.get_hash();
    sokoban2.get_hash();
    println!("{:?}", sokoban1.player_reachable);
    println!("{:?}", sokoban2.player_reachable);
    assert_ne!(sokoban1.get_hash(), sokoban2.get_hash());
}

#[test]
fn test_sokoban_is_resolved() {
    let sokoban_level = String::from("0506111111122101133101140001111111");
    let mut sokoban = Sokoban::new(&sokoban_level);
    println!("{}", sokoban.render());

    assert_eq!(sokoban.is_resolved(), false);

    let sokoban_level = String::from("0506111111155101100101140001111111");
    let mut sokoban = Sokoban::new(&sokoban_level);
    println!("{}", sokoban.render());
    assert_eq!(sokoban.is_resolved(), true);
}

#[test]
fn test_sokoban_print_level() {
    let sokoban_level = String::from("0506111111122101133101140001111111");
    let sokoban = Sokoban::new(&sokoban_level);
    assert_eq!(sokoban.print_level(), sokoban_level);
}

#[test]
fn level_is_accepted() {
    let b = board("0506111111122101133101140001111111");
    assert_eq!(b.width, 6);
    assert_eq!(b.height, 5);
}

#[test]
fn level_grammar() {
    assert!(is_valid_level("0000"));
    assert!(is_valid_level("01010"));
    assert!(is_valid_level("0203012345"));
    assert!(is_valid_level("0203654321"));
    // too short for its own header
    assert!(!is_valid_level(""));
    assert!(!is_valid_level("050"));
    // the extents are decimal digits
    assert!(!is_valid_level("0x010"));
    assert!(!is_valid_level("+101"));
    assert!(!is_valid_level("01 10"));
    // a cell is a digit up to six
    assert!(!is_valid_level("01017"));
    assert!(!is_valid_level("01019"));
    assert!(!is_valid_level("0101a"));
    assert!(!is_valid_level("0101\u{e9}"));
    // one digit for each cell, none less and none more
    assert!(!is_valid_level("020301234"));
    assert!(!is_valid_level("02030123456"));
    assert!(!is_valid_level("0101"));
}

#[test]
fn decoding_lifts_boxes_and_player_off_the_floor() {
    let b = board("020412345601");
    assert_eq!(b.height, 2);
    assert_eq!(b.width, 4);
    assert_eq!(
        b.map,
        vec![
            NodeType::Wall,
            NodeType::Whole,
            NodeType::Empty,
            NodeType::Empty,
            NodeType::Whole,
            NodeType::Whole,
            NodeType::Empty,
            NodeType::Wall,
        ]
    );
    assert_eq!(b.boxes, vec![Position::new(2, 0), Position::new(0, 1)]);
    assert_eq!(
        b.goals,
        vec![Position::new(1, 0), Position::new(0, 1), Position::new(1, 1)]
    );
    // the level shows the player twice: the last one counts
    assert_eq!(b.player, Some(Position::new(1, 1)));
    assert!(b.player_reachable.is_none());
}

#[test]
fn reversed_decoding_swaps_boxes_and_goals() {
    let b = Sokoban::new_reverse(&String::from("020412345601"));
    assert_eq!(
        b.map,
        vec![
            NodeType::Wall,
            NodeType::Empty,
            NodeType::Whole,
            NodeType::Empty,
            NodeType::Whole,
            NodeType::Empty,
            NodeType::Empty,
            NodeType::Wall,
        ]
    );
    assert_eq!(
        b.boxes,
        vec![Position::new(1, 0), Position::new(0, 1), Position::new(1, 1)]
    );
    assert_eq!(b.goals, vec![Position::new(2, 0), Position::new(0, 1)]);
    assert_eq!(b.player, Some(Position::new(3, 0)));
    // a level without the digit of the player has none when reversed
    let b = Sokoban::new_reverse(&String::from("0103126"));
    assert_eq!(b.player, None);
    assert_eq!(b.boxes, vec![Position::new(1, 0), Position::new(2, 0)]);
}

#[test]
fn empty_board() {
    let mut b = board("0000");
    assert_eq!(b.width, 0);
    assert_eq!(b.height, 0);
    assert!(b.map.is_empty());
    assert_eq!(b.player, None);
    assert_eq!(b.get_ntype(&Position::new(0, 0)), NodeType::Wall);
    assert_eq!(b.print_level(), "0000");
    assert_eq!(b.render(), "");
    assert!(b.is_resolved());
    assert!(!b.can_reach(&Position::new(0, 0)));
}

#[test]
fn composite_kinds() {
    let b = board("020412345601");
    assert_eq!(b.get_ntype(&Position::new(0, 0)), NodeType::Wall);
    assert_eq!(b.get_ntype(&Position::new(1, 0)), NodeType::Whole);
    assert_eq!(b.get_ntype(&Position::new(2, 0)), NodeType::Box);
    assert_eq!(b.get_ntype(&Position::new(3, 0)), NodeType::Empty);
    assert_eq!(b.get_ntype(&Position::new(0, 1)), NodeType::BoxOnWhole);
    assert_eq!(b.get_ntype(&Position::new(1, 1)), NodeType::PlayerOnWhole);
    assert_eq!(b.get_ntype(&Position::new(2, 1)), NodeType::Empty);
    assert_eq!(b.get_ntype(&Position::new(3, 1)), NodeType::Wall);
}

#[test]
fn outside_the_grid_is_wall() {
    let b = board("020412345601");
    assert_eq!(b.get_ntype(&Position::new(4, 0)), NodeType::Wall);
    assert_eq!(b.get_ntype(&Position::new(0, 2)), NodeType::Wall);
    assert_eq!(b.get_ntype(&Position::new(4, 1)), NodeType::Wall);
    assert_eq!(b.get_ntype(&Position::new(usize::MAX, usize::MAX)), NodeType::Wall);
}

#[test]
fn player_is_seen_above_a_box() {
    let mut b = board("0103043");
    b.player = Some(Position::new(2, 0));
    assert_eq!(b.get_ntype(&Position::new(2, 0)), NodeType::Player);
    b.player = None;
    assert_eq!(b.get_ntype(&Position::new(2, 0)), NodeType::Box);
    assert_eq!(b.get_ntype(&Position::new(1, 0)), NodeType::Empty);
}

#[test]
fn round_trip_of_every_digit() {
    for level in ["0000", "010512356", "02051230000056"] {
        assert!(is_valid_level(level));
        assert_eq!(Sokoban::new(&String::from(level)).print_level(), level);
    }
    let level = "080711111111200001110320101011011401101113230101000100111110";
    assert_eq!(board(level).print_level(), level);
}

#[test]
fn second_player_does_not_round_trip() {
    assert_eq!(board("0103414").print_level(), "0103014");
    assert_eq!(board("020412345601").print_level(), "020412305601");
}

#[test]
fn print_level_follows_the_moves() {
    let mut b = board("0506111111120101100101140301111111");
    assert!(b.move_box(0, &Direction::Left));
    assert_eq!(b.print_level(), "0506111111120101100101143001111111");
    b.undo_move_box(0, &Direction::Left);
    assert_eq!(b.print_level(), "0506111111120101100101104301111111");
}

#[test]
fn wide_board_prints_more_digits() {
    let mut b = board("0000");
    b.height = 1;
    b.width = 123;
    b.map = vec![NodeType::Empty; 123];
    let text = b.print_level();
    assert_eq!(&text[..5], "01123");
    assert_eq!(text.len(), 5 + 123);
}

#[test]
fn rendering() {
    assert_eq!(board("0303111141111").render(), "\n0# # # \n1# @ # \n2# # # ");
    assert_eq!(board("020412345601").render(), "\n0# . $   \n1* +   # ");
    let tall = board("1201000000000000").render();
    assert_eq!(tall, "\n0  \n1  \n2  \n3  \n4  \n5  \n6  \n7  \n8  \n9  \n0  \n1  ");
}

#[test]
fn pull_moves_box_one_and_player_two() {
    let mut b = board("0506111111120101100101140301111111");
    assert_eq!(b.boxes, vec![Position::new(3, 3)]);
    assert_eq!(b.player, Some(Position::new(1, 3)));
    assert!(b.move_box(0, &Direction::Left));
    assert_eq!(b.boxes, vec![Position::new(2, 3)]);
    assert_eq!(b.player, Some(Position::new(1, 3)));
    // nothing but the box and the player has changed
    assert_eq!(b.goals, vec![Position::new(1, 1)]);
    assert_eq!(b.map, board("0506111111120101100101140301111111").map);
}

#[test]
fn pull_into_a_wall_is_refused() {
    let level = "0506111111120101100101140301111111";
    for d in [Direction::Up, Direction::Down, Direction::Right] {
        let mut b = board(level);
        assert_eq!(b.move_box(0, &d), false);
        assert_eq!(b.boxes, vec![Position::new(3, 3)]);
        assert_eq!(b.player, Some(Position::new(1, 3)));
    }
}

#[test]
fn pull_needs_the_player_to_get_there() {
    // the box could go right, but the player is shut in on the left
    let mut b = board("0307111111114130001111111");
    assert_eq!(b.boxes, vec![Position::new(3, 1)]);
    assert_eq!(b.get_ntype(&Position::new(4, 1)), NodeType::Empty);
    assert_eq!(b.get_ntype(&Position::new(5, 1)), NodeType::Empty);
    assert_eq!(b.move_box(0, &Direction::Right), false);
    // with the player on the other side it goes
    b.player = Some(Position::new(5, 1));
    assert!(b.move_box(0, &Direction::Right));
    assert_eq!(b.boxes, vec![Position::new(4, 1)]);
    assert_eq!(b.player, Some(Position::new(5, 1)));
}

#[test]
fn pull_off_the_low_rim_is_refused() {
    // a box in row 1 cannot go up, nor one in column 1 to the left
    let mut b = board("0303000030004");
    assert_eq!(b.boxes, vec![Position::new(1, 1)]);
    assert_eq!(b.move_box(0, &Direction::Up), false);
    assert_eq!(b.move_box(0, &Direction::Left), false);
    assert_eq!(b.boxes, vec![Position::new(1, 1)]);
    assert_eq!(b.player, Some(Position::new(2, 2)));
    // nor off the high rim, where everything is wall
    assert_eq!(b.move_box(0, &Direction::Down), false);
    assert_eq!(b.move_box(0, &Direction::Right), false);
}

#[test]
fn pull_without_a_player_is_refused() {
    let mut b = board("010500300");
    assert_eq!(b.player, None);
    assert_eq!(b.move_box(0, &Direction::Right), false);
    assert_eq!(b.move_box(0, &Direction::Left), false);
}

#[test]
fn undo_puts_the_box_back_and_the_player_on_its_cell() {
    let mut b = board("0506111111120101100101140301111111");
    let before = b.get_hash();
    assert!(b.move_box(0, &Direction::Left));
    b.undo_move_box(0, &Direction::Left);
    assert_eq!(b.boxes, vec![Position::new(3, 3)]);
    assert_eq!(b.player, Some(Position::new(2, 3)));
    assert_eq!(b.get_hash(), before);
}

#[test]
fn undo_in_each_direction() {
    let mut b = board("05050000000000003000000000004");
    assert_eq!(b.boxes, vec![Position::new(2, 2)]);
    b.undo_move_box(0, &Direction::Up);
    assert_eq!(b.boxes, vec![Position::new(2, 3)]);
    assert_eq!(b.player, Some(Position::new(2, 2)));
    b.undo_move_box(0, &Direction::Down);
    assert_eq!(b.boxes, vec![Position::new(2, 2)]);
    assert_eq!(b.player, Some(Position::new(2, 3)));
    b.undo_move_box(0, &Direction::Left);
    assert_eq!(b.boxes, vec![Position::new(3, 2)]);
    assert_eq!(b.player, Some(Position::new(2, 2)));
    b.undo_move_box(0, &Direction::Right);
    assert_eq!(b.boxes, vec![Position::new(2, 2)]);
    assert_eq!(b.player, Some(Position::new(3, 2)));
}

#[test]
fn future_positions() {
    let b = board("0000");
    let p = Position::new(5, 7);
    assert_eq!(
        b.get_future_position(&p, &Direction::Up),
        Some((Position::new(5, 6), Position::new(5, 5)))
    );
    assert_eq!(
        b.get_future_position(&p, &Direction::Down),
        Some((Position::new(5, 8), Position::new(5, 9)))
    );
    assert_eq!(
        b.get_future_position(&p, &Direction::Left),
        Some((Position::new(4, 7), Position::new(3, 7)))
    );
    assert_eq!(
        b.get_future_position(&p, &Direction::Right),
        Some((Position::new(6, 7), Position::new(7, 7)))
    );
    assert_eq!(b.get_future_position(&Position::new(5, 1), &Direction::Up), None);
    assert_eq!(b.get_future_position(&Position::new(1, 5), &Direction::Left), None);
    assert_eq!(b.get_future_position(&Position::new(0, 0), &Direction::Up), None);
    assert_eq!(
        b.get_future_position(&Position::new(2, 2), &Direction::Up),
        Some((Position::new(2, 1), Position::new(2, 0)))
    );
    let far = Position::new(usize::MAX - 1, usize::MAX - 1);
    assert_eq!(b.get_future_position(&far, &Direction::Down), None);
    assert_eq!(b.get_future_position(&far, &Direction::Right), None);
}

#[test]
fn canonical_state_marks_reach_and_boxes() {
    let mut b = board("0506111111120101100101140301111111");
    b.get_hash();
    let marks = b.player_reachable.clone().unwrap();
    assert_eq!(
        marks,
        vec![
            0, 0, 0, 0, 0, 0, //
            0, 1, 1, 0, 0, 0, //
            0, 1, 1, 0, 0, 0, //
            0, 1, 1, 3, 0, 0, //
            0, 0, 0, 0, 0, 0,
        ]
    );
    // a box on a goal is marked with its own number
    let mut b = board("01044500");
    b.get_hash();
    assert_eq!(b.player_reachable, Some(vec![1, 5, 0, 0]));
}

#[test]
fn hash_forgets_where_in_the_region_the_player_stands() {
    let mut a = board("0506111111120101100101140301111111");
    let first = a.get_hash();
    for (x, y) in [(1, 1), (2, 1), (1, 2), (2, 2), (2, 3)] {
        let mut b = board("0506111111120101100101140301111111");
        b.player = Some(Position::new(x, y));
        assert_eq!(b.get_hash(), first);
    }
    // beyond the box is another region
    let mut b = board("0506111111120101100101140301111111");
    b.player = Some(Position::new(4, 3));
    assert_ne!(b.get_hash(), first);
    // and so is no player at all
    b.player = None;
    assert_ne!(b.get_hash(), first);
}

#[test]
fn hash_tells_boxes_apart() {
    let mut a = board("0506111111120101100101140301111111");
    let mut b = board("0506111111120101100101140301111111");
    b.boxes[0] = Position::new(2, 1);
    assert_ne!(a.get_hash(), b.get_hash());
    // the same cells in another order are the same state
    let mut c = board("0506111111122101133101140001111111");
    let mut d = board("0506111111122101133101140001111111");
    d.boxes.reverse();
    assert_eq!(c.get_hash(), d.get_hash());
}

#[test]
fn reach_stops_at_boxes_and_walls() {
    let mut b = board("0506111111120101100101140301111111");
    assert!(b.can_reach(&Position::new(1, 3)));
    assert!(b.can_reach(&Position::new(1, 1)));
    assert!(b.can_reach(&Position::new(2, 3)));
    assert!(!b.can_reach(&Position::new(3, 3)));
    assert!(!b.can_reach(&Position::new(4, 3)));
    assert!(!b.can_reach(&Position::new(0, 0)));
    assert!(!b.can_reach(&Position::new(6, 3)));
    assert!(!b.can_reach(&Position::new(1, 5)));
    assert!(b.player_reachable.is_some());
}

#[test]
fn reach_runs_to_the_rim_of_the_grid() {
    // no wall round the floor: the walk ends where the grid ends
    let mut b = board("0203400000");
    assert!(b.can_reach(&Position::new(2, 1)));
    assert!(b.can_reach(&Position::new(0, 0)));
    assert!(!b.can_reach(&Position::new(3, 0)));
    assert!(!b.can_reach(&Position::new(0, 2)));
}

#[test]
fn resolved_whatever_the_order() {
    let mut b = board("0506111111155101100101140001111111");
    assert!(b.is_resolved());
    b.boxes.reverse();
    assert!(b.is_resolved());
    b.goals.rotate_left(1);
    assert!(b.is_resolved());
    // one box off its goal
    b.boxes[0] = Position::new(1, 2);
    assert!(!b.is_resolved());
    // more goals than boxes
    let mut b = board("01042540");
    assert_eq!(b.is_resolved(), false);
    // is_resolved leaves the board alone
    assert_eq!(b.boxes, vec![Position::new(1, 0)]);
}

#[test]
fn directions_go_round() {
    assert_eq!(Direction::Up.next(), Direction::Down);
    assert_eq!(Direction::Down.next(), Direction::Left);
    assert_eq!(Direction::Left.next(), Direction::Right);
    assert_eq!(Direction::Right.next(), Direction::Up);
}

#[test]
fn membership() {
    let cells = vec![Position::new(1, 2), Position::new(3, 4)];
    assert!(holds(&cells, &Position::new(3, 4)));
    assert!(!holds(&cells, &Position::new(4, 3)));
    assert!(!holds(&Vec::new(), &Position::new(0, 0)));
    assert!(covers(&cells, &vec![Position::new(3, 4), Position::new(3, 4)]));
    assert!(covers(&cells, &Vec::new()));
    assert!(!covers(&cells, &vec![Position::new(3, 4), Position::new(0, 0)]));
}

#[test]
fn place_of_a_cell() {
    let b = board("0506111111120101100101140301111111");
    assert_eq!(b.index(&Position::new(0, 0)), 0);
    assert_eq!(b.index(&Position::new(5, 0)), 5);
    assert_eq!(b.index(&Position::new(0, 1)), 6);
    assert_eq!(b.index(&Position::new(5, 4)), 29);
}

#[test]
fn boards_compare_by_what_they_hold() {
    let level = "0506111111120101100101140301111111";
    let mut a = board(level);
    let b = board(level);
    assert!(a == b);
    assert!(a.move_box(0, &Direction::Left));
    assert!(a != b);
    assert!(a.clone() == a);
}
