use rand::SeedableRng;
use robot_challenge::board::{move_from_sample, BoardPoint, Dimension, Direction, Move, NextMoveInput, TankStatus};
use robot_challenge::strategies::{Dummy, FireFire, Position, Random, Slacker, Spinner, Strategy};

fn status(x: isize, y: isize, direction: Direction, is_alive: bool) -> TankStatus {
    TankStatus { direction, location: BoardPoint { x, y }, is_alive }
}

fn input(own: TankStatus, others: Vec<TankStatus>, fire_range: usize) -> NextMoveInput {
    NextMoveInput { game_board: Dimension { width: 20, height: 20 }, own_status: own, opponent_status: others, fire_range }
}

#[test]
fn directions_turn_and_step() {
    assert_eq!(Direction::North.clockwise(), Direction::East);
    assert_eq!(Direction::West.clockwise(), Direction::North);
    assert_eq!(Direction::North.counter_clockwise(), Direction::West);
    assert_eq!(Direction::South.counter_clockwise(), Direction::East);
    assert_eq!(Direction::East.opposite(), Direction::West);
    assert_eq!(Direction::North.opposite(), Direction::South);
    assert_eq!((Direction::North.x(), Direction::North.y()), (0, -1));
    assert_eq!((Direction::East.x(), Direction::East.y()), (1, 0));
    assert_eq!((Direction::South.x(), Direction::South.y()), (0, 1));
    assert_eq!((Direction::West.x(), Direction::West.y()), (-1, 0));
    assert_eq!(Direction::default(), Direction::North);
}

#[test]
fn point_offsets() {
    let p = BoardPoint { x: 5, y: 5 };
    assert_eq!(p.with_offset(Direction::East, 3), BoardPoint { x: 8, y: 5 });
    assert_eq!(p.with_offset(Direction::North, 2), BoardPoint { x: 5, y: 3 });
    assert_eq!(p.with_offset(Direction::West, 5), BoardPoint { x: 0, y: 5 });
    assert_eq!(p.with_offset(Direction::South, 1), BoardPoint { x: 5, y: 6 });
    assert_eq!(BoardPoint::default(), BoardPoint { x: 0, y: 0 });
    assert_eq!(Dimension::default(), Dimension { width: 20, height: 20 });
}

#[test]
fn samples_map_to_moves() {
    assert_eq!(move_from_sample(0), Move::Fire);
    assert_eq!(move_from_sample(1), Move::TurnLeft);
    assert_eq!(move_from_sample(2), Move::Forward);
    assert_eq!(move_from_sample(3), Move::TurnRight);
    assert_eq!(move_from_sample(4), Move::Wait);
}

#[test]
fn random_strategy_draws_fire_turn_left_or_forward() {
    let mut rng = rand::rngs::StdRng::seed_from_u64(3);
    let random = Random::default();
    let seen_input = input(status(5, 5, Direction::North, true), vec![], 5);
    let mut seen = Vec::new();
    for _ in 0..200 {
        let m = random.next_move(&seen_input, &mut rng);
        assert!(m == Move::Fire || m == Move::TurnLeft || m == Move::Forward);
        if !seen.contains(&m) {
            seen.push(m);
        }
    }
    assert_eq!(seen.len(), 3);
    assert_eq!(Random::random2().name(), "Random2");
}

#[test]
fn dummy_cycles_its_moves() {
    let observation = input(status(5, 5, Direction::North, true), vec![], 5);
    let mut dummy = Dummy::default();
    let played: Vec<Move> = (0..4).map(|_| dummy.next_move(&observation)).collect();
    assert_eq!(played, vec![Move::Fire, Move::TurnLeft, Move::Forward, Move::Fire]);
    let mut dummy2 = Dummy::dummy2();
    assert_eq!(dummy2.name(), "Dummy2");
    assert_eq!(dummy2.author(), "JMH");
    let played: Vec<Move> = (0..3).map(|_| dummy2.next_move(&observation)).collect();
    assert_eq!(played, vec![Move::Fire, Move::TurnRight, Move::Forward]);
}

#[test]
fn spinner_and_slacker() {
    let observation = input(status(5, 5, Direction::North, true), vec![], 5);
    let mut spinner = Spinner::default();
    assert_eq!(spinner.next_move(&observation), Move::TurnRight);
    assert_eq!(spinner.next_move(&observation), Move::Fire);
    assert_eq!(spinner.next_move(&observation), Move::TurnRight);
    assert_eq!(Slacker::default().next_move(&observation), Move::Wait);
    assert_eq!(Slacker::default().name(), "Eric Idle");
}

#[test]
fn strategy_enum_dispatches() {
    let mut rng = rand::rngs::StdRng::seed_from_u64(9);
    let observation = input(status(5, 5, Direction::North, true), vec![], 5);
    let mut s = Strategy::Spinner(Spinner::default());
    assert_eq!(s.next_move(&observation, &mut rng), Move::TurnRight);
    assert_eq!(s.name(), "Spinner");
    assert_eq!(s.author(), "Martin");
    let mut w = Strategy::Slacker(Slacker::default());
    assert_eq!(w.next_move(&observation, &mut rng), Move::Wait);
}

#[test]
fn planner_fires_when_aligned_in_range() {
    let observation = input(status(5, 10, Direction::East, true), vec![status(7, 10, Direction::North, true)], 5);
    assert_eq!(FireFire::default().next_move(&observation), Move::Fire);
}

#[test]
fn planner_is_repeatable() {
    let observation = input(
        status(3, 3, Direction::North, true),
        vec![status(9, 12, Direction::West, true), status(4, 8, Direction::East, false)],
        5,
    );
    let planner = FireFire::default();
    let first = planner.next_move(&observation);
    for _ in 0..5 {
        assert_eq!(planner.next_move(&observation), first);
    }
}

#[test]
fn planner_turns_toward_side_target() {
    let east = input(status(5, 10, Direction::North, true), vec![status(8, 10, Direction::South, true)], 5);
    assert_eq!(FireFire::default().next_move(&east), Move::TurnRight);
    let west = input(status(5, 10, Direction::North, true), vec![status(2, 10, Direction::South, true)], 5);
    assert_eq!(FireFire::default().next_move(&west), Move::TurnLeft);
}

#[test]
fn planner_breaks_ties_right_before_left() {
    let behind = input(status(5, 10, Direction::North, true), vec![status(5, 12, Direction::South, true)], 5);
    assert_eq!(FireFire::default().next_move(&behind), Move::TurnRight);
}

#[test]
fn planner_prefers_advancing_on_equal_length() {
    let diagonal = input(status(5, 10, Direction::North, true), vec![status(7, 8, Direction::South, true)], 5);
    assert_eq!(FireFire::default().next_move(&diagonal), Move::Forward);
}

#[test]
fn planner_never_drives_onto_an_opponent() {
    let observation = input(
        status(5, 10, Direction::North, true),
        vec![status(5, 9, Direction::North, false), status(5, 3, Direction::South, true)],
        5,
    );
    assert_ne!(FireFire::default().next_move(&observation), Move::Forward);
}

#[test]
fn planner_advances_toward_far_target() {
    let observation = input(status(5, 18, Direction::North, true), vec![status(5, 2, Direction::South, true)], 5);
    assert_eq!(FireFire::default().next_move(&observation), Move::Forward);
}

#[test]
fn planner_does_not_fire_through_dead_blocker() {
    let observation = input(
        status(5, 10, Direction::East, true),
        vec![status(6, 10, Direction::North, false), status(8, 10, Direction::North, true)],
        5,
    );
    assert_ne!(FireFire::default().next_move(&observation), Move::Fire);
}

#[test]
fn planner_without_living_opponents_advances() {
    let observation = input(status(5, 10, Direction::East, true), vec![status(6, 10, Direction::North, false)], 5);
    assert_eq!(FireFire::default().next_move(&observation), Move::Forward);
    let alone = input(status(0, 0, Direction::North, true), vec![], 5);
    assert_eq!(FireFire::default().next_move(&alone), Move::Forward);
}

#[test]
fn positions_and_fire_lines() {
    let all = Position::all(BoardPoint { x: 2, y: 3 });
    assert_eq!(all.len(), 4);
    assert_eq!(all[1].direction, Direction::East);
    let p = Position::new(BoardPoint { x: 1, y: 1 }, Direction::South);
    let line = p.fire(5, &vec![]);
    let cells: Vec<(isize, isize)> = line.iter().map(|q| (q.point.x, q.point.y)).collect();
    assert_eq!(cells, vec![(1, 2), (1, 3), (1, 4), (1, 5)]);
    let dead = Position::all(BoardPoint { x: 1, y: 3 });
    assert_eq!(p.fire(5, &dead).len(), 1);
    assert_eq!(p.fire(1, &vec![]).len(), 0);
    assert!(line.iter().all(|q| q.moves.is_empty() && q.direction == Direction::South));
    let target = Position::all(BoardPoint { x: 1, y: 5 });
    assert!(p.is_fire_position(&target, 5, &vec![]));
    assert!(!p.is_fire_position(&target, 4, &vec![]));
    assert!(!p.is_fire_position(&target, 5, &dead));
    let d = p.drive();
    assert_eq!((d.point, d.direction, d.moves.iter().copied().collect::<Vec<Move>>()), (BoardPoint { x: 1, y: 2 }, Direction::South, vec![Move::Forward]));
    let r = d.clockwise();
    assert_eq!((r.direction, r.moves.iter().copied().collect::<Vec<Move>>()), (Direction::West, vec![Move::Forward, Move::TurnRight]));
    let l = p.counter_clockwise();
    assert_eq!((l.direction, l.moves.iter().copied().collect::<Vec<Move>>()), (Direction::East, vec![Move::TurnLeft]));
    assert!(p.is_valid(20, 20));
    assert!(!Position::new(BoardPoint { x: 20, y: 0 }, Direction::North).is_valid(20, 20));
    assert!(!Position::new(BoardPoint { x: -1, y: 0 }, Direction::North).is_valid(20, 20));
}

#[test]
fn fire_line_runs_past_board_edge() {
    let corner = Position::new(BoardPoint { x: 0, y: 0 }, Direction::West);
    let line = corner.fire(5, &vec![]);
    let cells: Vec<(isize, isize)> = line.iter().map(|q| (q.point.x, q.point.y)).collect();
    assert_eq!(cells, vec![(-1, 0), (-2, 0), (-3, 0), (-4, 0)]);
    let outside = vec![Position::new(BoardPoint { x: -1, y: 0 }, Direction::West)];
    assert!(corner.is_fire_position(&outside, 5, &vec![]));
}

#[test]
fn positions_compare_by_cell_and_facing() {
    let a = Position::new(BoardPoint { x: 3, y: 4 }, Direction::East);
    let b = Position::new(BoardPoint { x: 3, y: 4 }, Direction::North).clockwise();
    assert!(a == b);
    assert!(a != Position::new(BoardPoint { x: 3, y: 4 }, Direction::West));
    assert!(a != Position::new(BoardPoint { x: 4, y: 4 }, Direction::East));
}
