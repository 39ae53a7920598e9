use robot_challenge::board::{BoardPoint, Dimension, Direction, Move};
use robot_challenge::game::{Hit, Laser, Message, RobotChallenge, Tank, FIRE_RANGE, MAX_ENERGY, MAX_ROUNDS};
use robot_challenge::strategies::{Slacker, Strategy};

fn tank_at(x: isize, y: isize, direction: Direction) -> Tank {
    Tank {
        point: BoardPoint { x, y },
        direction,
        strategy: Strategy::Slacker(Slacker::default()),
        ..Default::default()
    }
}

fn board(tanks: Vec<Tank>) -> RobotChallenge {
    RobotChallenge::with_tanks(Dimension { width: 20, height: 20 }, tanks, 7)
}

#[test]
fn fire_at_living_target_three_cells_east() {
    let mut game = board(vec![tank_at(5, 10, Direction::East), tank_at(8, 10, Direction::North)]);
    game.fire(0);
    assert_eq!(game.laser.length, 2);
    assert!(game.laser.hit);
    assert!(game.laser.is_visible);
    assert_eq!(game.laser.point, BoardPoint { x: 5, y: 10 });
    assert_eq!(game.laser.direction, Direction::East);
    assert_eq!(game.tanks[1].energy, 4);
    assert_eq!(game.tanks[0].hits, 1);
    assert_eq!(game.tanks[0].frags, 0);
    assert_eq!(game.hit.point, BoardPoint { x: 8, y: 10 });
}

#[test]
fn forward_off_west_edge_is_no_op() {
    let mut game = board(vec![tank_at(0, 10, Direction::West)]);
    game.forward(0);
    assert_eq!(game.tanks[0].point, BoardPoint { x: 0, y: 10 });
}

#[test]
fn forward_into_occupied_cell_is_no_op() {
    let mut game = board(vec![tank_at(5, 5, Direction::East), tank_at(6, 5, Direction::North)]);
    game.forward(0);
    assert_eq!(game.tanks[0].point, BoardPoint { x: 5, y: 5 });
    assert_eq!(game.tanks[1].point, BoardPoint { x: 6, y: 5 });
}

#[test]
fn forward_into_dead_agent_is_no_op() {
    let mut game = board(vec![tank_at(5, 5, Direction::East), tank_at(6, 5, Direction::North)]);
    game.tanks[1].energy = 0;
    game.forward(0);
    assert_eq!(game.tanks[0].point, BoardPoint { x: 5, y: 5 });
}

#[test]
fn forward_into_free_cell_moves() {
    let mut game = board(vec![tank_at(5, 5, Direction::South)]);
    game.forward(0);
    assert_eq!(game.tanks[0].point, BoardPoint { x: 5, y: 6 });
}

#[test]
fn round_cap_halts_scheduler() {
    let mut game = board(vec![tank_at(1, 1, Direction::East), tank_at(3, 3, Direction::East)]);
    game.round = MAX_ROUNDS - 1;
    let next = game.update(Message::NewRound);
    assert_eq!(next, None);
    assert_eq!(game.round, MAX_ROUNDS);
    assert!(game.next_tank_index.is_empty());
}

#[test]
fn new_round_below_cap_queues_everyone_living() {
    let mut game = board(vec![
        tank_at(1, 1, Direction::East),
        tank_at(3, 3, Direction::East),
        tank_at(5, 5, Direction::East),
    ]);
    game.tanks[1].energy = 0;
    let next = game.update(Message::NewRound);
    assert_eq!(next, Some(Message::Move));
    assert_eq!(game.round, 1);
    let mut queued = game.next_tank_index.clone();
    queued.sort();
    assert_eq!(queued, vec![0, 2]);
}

#[test]
fn new_round_with_one_living_agent_ends_game() {
    let mut game = board(vec![tank_at(1, 1, Direction::East), tank_at(3, 3, Direction::East)]);
    game.tanks[0].energy = 0;
    assert_eq!(game.update(Message::NewRound), Some(Message::EndGame));
    assert_eq!(game.next_tank_index, vec![1]);
    assert_eq!(game.update(Message::EndGame), None);
    assert_eq!(game.winner, Some(1));
}

#[test]
fn end_game_with_nobody_queued_has_no_winner() {
    let mut game = board(vec![tank_at(1, 1, Direction::East)]);
    game.tanks[0].energy = 0;
    assert_eq!(game.update(Message::NewRound), Some(Message::EndGame));
    assert!(game.next_tank_index.is_empty());
    assert_eq!(game.update(Message::EndGame), None);
    assert_eq!(game.winner, None);
}

#[test]
fn shuffled_turn_order_varies_between_seeds() {
    let mut orders = Vec::new();
    for seed in 0..20u64 {
        let tanks = (0..6).map(|k| tank_at(k, 0, Direction::South)).collect();
        let mut game = RobotChallenge::with_tanks(Dimension { width: 20, height: 20 }, tanks, seed);
        game.update(Message::NewRound);
        let mut sorted = game.next_tank_index.clone();
        sorted.sort();
        assert_eq!(sorted, vec![0, 1, 2, 3, 4, 5]);
        orders.push(game.next_tank_index.clone());
    }
    assert!(orders.iter().any(|o| *o != vec![0, 1, 2, 3, 4, 5]));
}

#[test]
fn clear_shot_draws_full_range() {
    let mut game = board(vec![tank_at(2, 10, Direction::East), tank_at(2, 12, Direction::North)]);
    game.fire(0);
    assert_eq!(game.laser.length, FIRE_RANGE);
    assert!(!game.laser.hit);
    assert_eq!(game.tanks[0].hits, 0);
    assert_eq!(game.tanks[1].energy, MAX_ENERGY);
}

#[test]
fn shot_stops_at_board_edge() {
    let mut game = board(vec![tank_at(1, 10, Direction::West)]);
    game.fire(0);
    assert_eq!(game.laser.length, 1);
    assert!(!game.laser.hit);
    assert_eq!(game.hit, Hit::default());
}

#[test]
fn adjacent_target_gives_zero_length_laser() {
    let mut game = board(vec![tank_at(4, 4, Direction::North), tank_at(4, 3, Direction::North)]);
    game.fire(0);
    assert_eq!(game.laser.length, 0);
    assert!(game.laser.hit);
    assert_eq!(game.tanks[1].energy, 4);
}

#[test]
fn target_beyond_range_is_not_hit() {
    let mut game = board(vec![tank_at(0, 0, Direction::South), tank_at(0, 6, Direction::North)]);
    game.fire(0);
    assert_eq!(game.laser.length, FIRE_RANGE);
    assert!(!game.laser.hit);
    assert_eq!(game.tanks[1].energy, MAX_ENERGY);
}

#[test]
fn last_energy_counts_a_frag_and_dead_target_scores_nothing() {
    let mut game = board(vec![tank_at(5, 10, Direction::East), tank_at(7, 10, Direction::West)]);
    for shot in 1..=5 {
        game.fire(0);
        assert_eq!(game.tanks[1].energy, MAX_ENERGY - shot);
        assert_eq!(game.tanks[0].hits, shot);
    }
    assert_eq!(game.tanks[0].frags, 1);
    game.laser = Laser::default();
    game.fire(0);
    assert!(game.laser.hit);
    assert_eq!(game.laser.length, 1);
    assert_eq!(game.tanks[0].hits, 5);
    assert_eq!(game.tanks[0].frags, 1);
    assert_eq!(game.tanks[1].energy, 0);
}

#[test]
fn nearer_dead_agent_shields_living_one() {
    let mut game = board(vec![
        tank_at(5, 10, Direction::East),
        tank_at(6, 10, Direction::West),
        tank_at(8, 10, Direction::West),
    ]);
    game.tanks[1].energy = 0;
    game.fire(0);
    assert!(game.laser.hit);
    assert_eq!(game.laser.length, 0);
    assert_eq!(game.tanks[2].energy, MAX_ENERGY);
    assert_eq!(game.tanks[0].hits, 0);
}

#[test]
fn turns_rotate_direction() {
    let mut game = board(vec![tank_at(5, 5, Direction::North)]);
    assert_eq!(game.take_turn(0, Move::TurnRight), Message::Move);
    assert_eq!(game.tanks[0].direction, Direction::East);
    game.take_turn(0, Move::TurnLeft);
    game.take_turn(0, Move::TurnLeft);
    assert_eq!(game.tanks[0].direction, Direction::West);
    assert_eq!(game.take_turn(0, Move::Wait), Message::Move);
    assert_eq!(game.tanks[0].point, BoardPoint { x: 5, y: 5 });
    assert_eq!(game.take_turn(0, Move::Fire), Message::Laser);
}

#[test]
fn laser_and_hit_steps_reset_markers() {
    let mut game = board(vec![tank_at(5, 10, Direction::East), tank_at(8, 10, Direction::North)]);
    game.fire(0);
    assert_eq!(game.update(Message::Laser), Some(Message::Hit));
    assert_eq!(game.laser, Laser::default());
    assert!(game.hit.is_visible);
    assert_eq!(game.hit.point, BoardPoint { x: 8, y: 10 });
    assert_eq!(game.update(Message::Hit), Some(Message::Move));
    assert_eq!(game.hit, Hit::default());
}

#[test]
fn laser_step_without_hit_goes_to_next_move() {
    let mut game = board(vec![tank_at(5, 10, Direction::North)]);
    game.fire(0);
    assert_eq!(game.update(Message::Laser), Some(Message::Move));
    assert!(!game.hit.is_visible);
}

#[test]
fn move_step_on_empty_queue_starts_new_round() {
    let mut game = board(vec![tank_at(5, 10, Direction::North)]);
    assert_eq!(game.update(Message::NewGame), Some(Message::NewRound));
    assert_eq!(game.update(Message::Move), Some(Message::NewRound));
}

#[test]
fn dead_agent_in_queue_waits() {
    let mut game = board(vec![tank_at(5, 10, Direction::East), tank_at(8, 10, Direction::North)]);
    game.next_tank_index = vec![1, 0];
    game.tanks[0].energy = 0;
    assert_eq!(game.update(Message::Move), Some(Message::Move));
    assert_eq!(game.next_tank_index, vec![1]);
    assert_eq!(game.tanks[0].point, BoardPoint { x: 5, y: 10 });
}

#[test]
fn living_agent_asks_its_strategy() {
    let mut game = board(vec![tank_at(5, 10, Direction::East), tank_at(8, 10, Direction::North)]);
    game.next_tank_index = vec![0];
    assert_eq!(game.update(Message::Move), Some(Message::Move));
    assert!(game.next_tank_index.is_empty());
    assert_eq!(game.tanks[0].point, BoardPoint { x: 5, y: 10 });
}

#[test]
fn observation_lists_others_in_roster_order() {
    let mut game = board(vec![
        tank_at(1, 1, Direction::East),
        tank_at(2, 2, Direction::South),
        tank_at(3, 3, Direction::West),
    ]);
    game.tanks[2].energy = 0;
    let input = game.next_move_input(1);
    assert_eq!(input.game_board, Dimension { width: 20, height: 20 });
    assert_eq!(input.fire_range, FIRE_RANGE);
    assert_eq!(input.own_status.location, BoardPoint { x: 2, y: 2 });
    assert_eq!(input.own_status.direction, Direction::South);
    assert!(input.own_status.is_alive);
    assert_eq!(input.opponent_status.len(), 2);
    assert_eq!(input.opponent_status[0].location, BoardPoint { x: 1, y: 1 });
    assert!(input.opponent_status[0].is_alive);
    assert_eq!(input.opponent_status[1].location, BoardPoint { x: 3, y: 3 });
    assert!(!input.opponent_status[1].is_alive);
}

#[test]
fn standard_game_has_seven_fresh_agents() {
    let game = RobotChallenge::new(1);
    assert_eq!(game.tanks.len(), 7);
    assert_eq!(game.dimension, Dimension::default());
    assert!(game.tanks.iter().all(|t| t.energy == MAX_ENERGY && t.hits == 0 && t.frags == 0));
    let names: Vec<String> = game.tanks.iter().map(|t| t.strategy.name()).collect();
    assert_eq!(names, vec!["Dummy", "Dummy2", "Random", "Random2", "Eric Idle", "Spinner", "FireFire"]);
    let cells: Vec<(isize, isize)> = game.tanks.iter().map(|t| (t.point.x, t.point.y)).collect();
    assert_eq!(cells, vec![(6, 10), (2, 10), (12, 12), (4, 14), (14, 5), (10, 5), (19, 19)]);
    assert!(game.tanks.iter().all(|t| t.direction == Direction::North));
    assert_eq!(game.laser, Laser::default());
    assert_eq!(game.hit, Hit::default());
    assert_eq!(game.winner, None);
    assert_eq!(Tank::default().strategy.name(), "Random");
    assert_eq!(Tank::default().strategy.author(), "Martin");
    assert_eq!(game.tanks[6].strategy.author(), "Johan");
    assert_eq!(game.tanks[0].point, BoardPoint { x: 6, y: 10 });
}

#[test]
fn standard_game_runs_to_an_end() {
    let mut game = RobotChallenge::new(42);
    let mut message = Some(Message::NewGame);
    let mut steps = 0;
    while let Some(m) = message {
        message = game.update(m);
        steps += 1;
        assert!(steps < 1_000_000);
    }
    assert!(game.round <= MAX_ROUNDS);
    for t in game.tanks.iter() {
        assert!(t.energy <= MAX_ENERGY);
        assert!(t.frags <= t.hits);
        assert!(t.point.x >= 0 && t.point.x < 20 && t.point.y >= 0 && t.point.y < 20);
    }
    for a in 0..game.tanks.len() {
        for b in 0..game.tanks.len() {
            if a != b {
                assert_ne!(game.tanks[a].point, game.tanks[b].point);
            }
        }
    }
}
