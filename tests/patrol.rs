use grid_puzzles::patrol::{DirectionSet, Guard, GuardDirection, PatrolError, PatrolMap, PatrolOutcome};

fn fresh_guard(direction: GuardDirection, position: (usize, usize)) -> Guard {
    Guard {
        direction,
        position,
        directions_to_confirm_loop: DirectionSet::full(),
        path_patrolled: false,
    }
}

fn patrol_confirms_loop(map: &mut PatrolMap) -> bool {
    let mut is_loop = false;
    while map.walk() {
        if map.guard.directions_to_confirm_loop.is_empty() {
            is_loop = true;
            break;
        }
    }
    is_loop
}

#[test]
fn test_map_creation() {
    let input = "..<";
    let map = PatrolMap::new(input).unwrap();
    let expected_map = vec![vec!['.', '.', '<']];

    assert_eq!(map.map, expected_map);
    assert_eq!(map.guard.position, (0, 2));
    assert_eq!(map.guard.direction, GuardDirection::Left);
}

#[test]
fn main_test_walk() {
    let mut map = PatrolMap {
        map: vec![vec!['.', '.', '<']],
        guard: fresh_guard(GuardDirection::Left, (0, 2)),
    };

    let can_walk = map.walk();
    assert!(can_walk);
    assert_eq!(map.guard.direction, GuardDirection::Left);
    assert_eq!(map.guard.position, (0, 1));
    assert_eq!(map.map, vec![vec!['.', '.', 'X']]);
}

#[test]
fn main_test_walk_into_obstacle() {
    let mut map = PatrolMap {
        map: vec![vec!['.', '#', '<']],
        guard: fresh_guard(GuardDirection::Left, (0, 2)),
    };

    let can_walk = map.walk();
    assert!(can_walk);
    assert_eq!(map.guard.direction, GuardDirection::Up);
    assert_eq!(map.guard.position, (0, 2));
    assert_eq!(map.map, vec![vec!['.', '#', '<']]);
}

#[test]
fn patrol_map_creation_with_loop_state() {
    let input = "..<";
    let map = PatrolMap::new(input).unwrap();
    let expected_map = vec![vec!['.', '.', '<']];

    assert_eq!(map.map, expected_map);
    assert_eq!(map.guard.position, (0, 2));
    assert_eq!(map.guard.direction, GuardDirection::Left);
    assert_eq!(map.guard.directions_to_confirm_loop, DirectionSet::full());
    assert!(!map.guard.path_patrolled);
}

#[test]
fn test_walk() {
    let mut map = PatrolMap {
        map: vec![vec!['.', '.', '<']],
        guard: fresh_guard(GuardDirection::Left, (0, 2)),
    };

    let can_walk = map.walk();
    assert!(can_walk);
    assert_eq!(map.guard.direction, GuardDirection::Left);
    assert_eq!(map.guard.position, (0, 1));
    assert_eq!(map.map, vec![vec!['.', '.', 'X']]);
}

#[test]
fn test_walk_into_obstacle() {
    let mut map = PatrolMap {
        map: vec![vec!['.', '#', '<']],
        guard: fresh_guard(GuardDirection::Left, (0, 2)),
    };

    let can_walk = map.walk();
    assert!(can_walk);
    assert_eq!(map.guard.direction, GuardDirection::Up);
    assert_eq!(map.guard.position, (0, 2));
    assert_eq!(map.map, vec![vec!['.', '#', '<']]);
}

#[test]
fn test_loop_detection() {
    let mut map = PatrolMap {
        map: vec![
            vec!['#', '#', '#', '#'],
            vec!['#', '.', '.', '#'],
            vec!['#', '^', '.', '#'],
            vec!['#', '#', '#', '#'],
        ],
        guard: fresh_guard(GuardDirection::Up, (2, 1)),
    };

    let is_loop = patrol_confirms_loop(&mut map);

    assert!(is_loop);
}

#[test]
fn test_loop_detection_2() {
    let mut map = PatrolMap {
        map: vec![
            vec!['.', '#', '.', '.'],
            vec!['.', '.', '#', '.'],
            vec!['#', '^', '.', '.'],
            vec!['.', '#', '.', '.'],
        ],
        guard: fresh_guard(GuardDirection::Up, (2, 1)),
    };

    let is_loop = patrol_confirms_loop(&mut map);

    assert!(is_loop);
}

#[test]
fn patrol_that_leaves_the_grid_counts_visited_cells() {
    let mut map = PatrolMap::new("....#.....\n.........#\n..........\n..#.......\n.......#..\n..........\n.#..^.....\n........#.\n#.........\n......#...").unwrap();
    let mut steps = 0;
    while map.walk() {
        steps += 1;
        assert!(steps < 1000);
    }
    assert_eq!(map.count_patrol_spots(), 41);
    assert!(map.out_of_map());
}

#[test]
fn walk_off_the_top_marks_the_last_cell() {
    let mut map = PatrolMap::new(".^.").unwrap();
    assert!(!map.walk());
    assert_eq!(map.map, vec![vec!['.', 'X', '.']]);
    assert_eq!(map.guard.position, (0, 1));
    assert_eq!(map.count_patrol_spots(), 1);
}

#[test]
fn walk_off_the_bottom_leaves_the_grid() {
    let mut map = PatrolMap::new(">.\n..").unwrap();
    map.guard.direction = GuardDirection::Down;
    assert!(map.walk());
    assert_eq!(map.guard.position, (1, 0));
    assert!(map.walk());
    assert_eq!(map.guard.position, (2, 0));
    assert!(map.out_of_map());
    assert!(!map.walk());
    assert_eq!(map.count_patrol_spots(), 2);
}

#[test]
fn guard_turns_clockwise() {
    let mut guard = Guard::new(&'^', (3, 4));
    assert_eq!(guard.direction, GuardDirection::Up);
    assert_eq!(guard.next_position(), Some((2, 4)));
    guard.turn();
    assert_eq!(guard.direction, GuardDirection::Right);
    assert_eq!(guard.next_position(), Some((3, 5)));
    guard.turn();
    assert_eq!(guard.direction, GuardDirection::Down);
    assert_eq!(guard.next_position(), Some((4, 4)));
    guard.turn();
    assert_eq!(guard.direction, GuardDirection::Left);
    assert_eq!(guard.next_position(), Some((3, 3)));
    guard.turn();
    assert_eq!(guard.direction, GuardDirection::Up);
    assert_eq!(Guard::new(&'<', (0, 0)).next_position(), None);
    assert_eq!(Guard::new(&'v', (0, 0)).direction, GuardDirection::Down);
    assert_eq!(Guard::new(&'>', (0, 0)).direction, GuardDirection::Right);
}

#[test]
fn patrol_map_errors() {
    assert_eq!(PatrolMap::new("...\n..").err(), Some(PatrolError::UnevenRows));
    assert_eq!(PatrolMap::new("..a\n.^.").err(), Some(PatrolError::UnknownSymbol));
    assert_eq!(PatrolMap::new("...\n...").err(), Some(PatrolError::MissingGuard));
    assert_eq!(PatrolMap::new("^..\n..v").err(), Some(PatrolError::SeveralGuards));
}

#[test]
fn direction_set_removal() {
    let mut set = DirectionSet::full();
    assert!(set.contains(GuardDirection::Left));
    set.remove(GuardDirection::Left);
    assert!(!set.contains(GuardDirection::Left));
    set.remove(GuardDirection::Up);
    set.remove(GuardDirection::Down);
    assert!(!set.is_empty());
    set.remove(GuardDirection::Right);
    assert!(set.is_empty());
}

const EXAMPLE: &str = "....#.....\n.........#\n..........\n..#.......\n.......#..\n..........\n.#..^.....\n........#.\n#.........\n......#...";

#[test]
fn enclosed_guard_is_confirmed_looping() {
    let mut map = PatrolMap {
        map: vec![
            vec!['#', '#', '#', '#'],
            vec!['#', '.', '.', '#'],
            vec!['#', '^', '.', '#'],
            vec!['#', '#', '#', '#'],
        ],
        guard: fresh_guard(GuardDirection::Up, (2, 1)),
    };
    assert_eq!(map.patrol_outcome(), PatrolOutcome::LoopConfirmed);
}

#[test]
fn guard_that_leaves_is_not_looping() {
    let mut map = PatrolMap::new(EXAMPLE).unwrap();
    assert_eq!(map.patrol_outcome(), PatrolOutcome::Exited);
    let mut map = PatrolMap::new(".^.").unwrap();
    assert_eq!(map.patrol_outcome(), PatrolOutcome::Exited);
}

#[test]
fn obstruction_sweep_counts_looping_cells() {
    let map = PatrolMap::new(EXAMPLE).unwrap();
    assert_eq!(map.count_loop_obstructions(), 6);
}

#[test]
fn obstruction_beside_the_guard_loops() {
    let mut map = PatrolMap::new(EXAMPLE).unwrap();
    map.map[6][3] = '#';
    assert_eq!(map.patrol_outcome(), PatrolOutcome::LoopConfirmed);
}
