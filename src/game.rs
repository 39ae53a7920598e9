//! The game: agents on the board, the move resolver, combat resolution and
//! the round scheduler, as a state machine driven one message at a time.

use crate::board::{BoardPoint, Dimension, Direction, Move, NextMoveInput, TankStatus};
use crate::random::{seeded_rng, shuffle};
use crate::strategies::{Dummy, FireFire, Random, Slacker, Spinner, Strategy};
use rand::rngs::StdRng;
use vstd::prelude::*;

verus! {

/// Energy of a fresh agent.
pub const MAX_ENERGY: usize = 5;

/// Cells that a shot can travel.
pub const FIRE_RANGE: usize = 5;

/// The round at which the game stops.
pub const MAX_ROUNDS: usize = 100;

/// Display colours, as `0xRRGGBB`.
pub const GREEN: u32 = 0x00FF00;
pub const RED: u32 = 0xFF0000;
pub const BLUE: u32 = 0x0000FF;
pub const TOMATO: u32 = 0xFF6347;
pub const PERU: u32 = 0xCD853F;
pub const AQUA: u32 = 0x00FFFF;
pub const PINK: u32 = 0xFFD6FF;

/// One agent. It stays on the roster when its energy reaches zero: it is
/// dead, never moves again, but still blocks advances and shots.
#[derive(Debug)]
pub struct Tank {
    pub strategy: Strategy,
    pub color: u32,
    pub energy: usize,
    pub hits: usize,
    pub frags: usize,
    pub point: BoardPoint,
    pub direction: Direction,
}

impl Default for Tank {
    fn default() -> (r: Self)
        ensures
            r.strategy matches Strategy::Random(_),
            r.strategy.label() == "Random"@,
            r.strategy.author_label() == "Martin"@,
            r.color == GREEN,
            r.energy == MAX_ENERGY,
            r.hits == 0,
            r.frags == 0,
            r.point == (BoardPoint { x: 0, y: 0 }),
            r.direction == Direction::North,
    {
        Tank {
            strategy: Strategy::Random(Random::default()),
            color: GREEN,
            energy: MAX_ENERGY,
            hits: 0,
            frags: 0,
            point: BoardPoint::default(),
            direction: Direction::default(),
        }
    }
}

/// The shot drawn after a `Fire`.
#[derive(Clone, Copy, Debug, PartialEq, Eq, Structural)]
pub struct Laser {
    pub point: BoardPoint,
    pub direction: Direction,
    pub length: usize,
    pub hit: bool,
    pub is_visible: bool,
}

impl Laser {
    pub open spec fn spec_default() -> Laser {
        Laser {
            point: BoardPoint { x: 0, y: 0 },
            direction: Direction::North,
            length: 0,
            hit: false,
            is_visible: false,
        }
    }
}

impl Default for Laser {
    fn default() -> (r: Self)
        ensures
            r == Laser::spec_default(),
    {
        Laser {
            point: BoardPoint::default(),
            direction: Direction::default(),
            length: 0,
            hit: false,
            is_visible: false,
        }
    }
}

/// The marker drawn where a shot struck.
#[derive(Clone, Copy, Debug, PartialEq, Eq, Structural)]
pub struct Hit {
    pub point: BoardPoint,
    pub is_visible: bool,
}

impl Hit {
    pub open spec fn spec_default() -> Hit {
        Hit { point: BoardPoint { x: 0, y: 0 }, is_visible: false }
    }
}

impl Default for Hit {
    fn default() -> (r: Self)
        ensures
            r == Hit::spec_default(),
    {
        Hit { point: BoardPoint::default(), is_visible: false }
    }
}

/// The steps of the scheduler; each one names the handler to run next.
#[derive(Clone, Copy, Debug, PartialEq, Eq, Structural)]
pub enum Message {
    NewGame,
    NewRound,
    Move,
    Laser,
    Hit,
    EndGame,
}

/// The point for a cell given as integers.
pub open spec fn point_of(c: (int, int)) -> BoardPoint {
    BoardPoint { x: c.0 as isize, y: c.1 as isize }
}

/// Some agent, dead or alive, stands on cell `c`.
pub open spec fn occupied(tanks: Seq<Tank>, c: (int, int)) -> bool {
    exists|k: int| 0 <= k < tanks.len() && #[trigger] tanks[k].point.at(c)
}

/// The agent that stands on cell `c`.
pub open spec fn occupant(tanks: Seq<Tank>, c: (int, int)) -> int {
    choose|k: int| 0 <= k < tanks.len() && #[trigger] tanks[k].point.at(c)
}

/// A shot from `t` stops before the `i`-th cell in its path: that cell is off
/// the board or taken.
pub open spec fn blocks(dim: Dimension, tanks: Seq<Tank>, t: Tank, i: int) -> bool {
    let c = t.point.shifted(t.direction, i);
    !dim.contains(c.0, c.1) || occupied(tanks, c)
}

/// The first cell, counting from `i`, at which a shot from `t` stops;
/// `FIRE_RANGE + 1` when none of the cells up to `FIRE_RANGE` stops it.
pub open spec fn first_block(dim: Dimension, tanks: Seq<Tank>, t: Tank, i: int) -> int
    decreases FIRE_RANGE + 1 - i,
{
    if i > FIRE_RANGE || i < 1 || blocks(dim, tanks, t, i) {
        i
    } else {
        first_block(dim, tanks, t, i + 1)
    }
}

/// Distance at which the shot of agent `i` stops.
pub open spec fn shot_stop(dim: Dimension, tanks: Seq<Tank>, i: int) -> int {
    first_block(dim, tanks, tanks[i], 1)
}

/// The shot of agent `i` stops on another agent (not at the board's edge or
/// at full range).
pub open spec fn shot_hits(dim: Dimension, tanks: Seq<Tank>, i: int) -> bool {
    let d = shot_stop(dim, tanks, i);
    let c = tanks[i].point.shifted(tanks[i].direction, d);
    d <= FIRE_RANGE && dim.contains(c.0, c.1)
}

/// The agent struck by the shot of agent `i`.
pub open spec fn shot_target(dim: Dimension, tanks: Seq<Tank>, i: int) -> int {
    occupant(tanks, tanks[i].point.shifted(tanks[i].direction, shot_stop(dim, tanks, i)))
}

/// The laser that the shot of agent `i` draws.
pub open spec fn shot_laser(dim: Dimension, tanks: Seq<Tank>, i: int) -> Laser {
    Laser {
        point: tanks[i].point,
        direction: tanks[i].direction,
        length: (shot_stop(dim, tanks, i) - 1) as usize,
        hit: shot_hits(dim, tanks, i),
        is_visible: true,
    }
}

/// The hit marker after the shot of agent `i`.
pub open spec fn shot_marker(dim: Dimension, tanks: Seq<Tank>, i: int, before: Hit) -> Hit {
    if shot_hits(dim, tanks, i) {
        Hit {
            point: point_of(tanks[i].point.shifted(tanks[i].direction, shot_stop(dim, tanks, i))),
            is_visible: before.is_visible,
        }
    } else {
        before
    }
}

/// The roster after the shot of agent `i`: a living target loses one energy,
/// and the shooter scores a hit, and a frag when that energy was the last.
pub open spec fn shot_roster(dim: Dimension, tanks: Seq<Tank>, i: int) -> Seq<Tank> {
    let k = shot_target(dim, tanks, i);
    let target = tanks[k];
    let shooter = tanks[i];
    if shot_hits(dim, tanks, i) && target.energy > 0 {
        tanks.update(k, Tank { energy: (target.energy - 1) as usize, ..target }).update(
            i,
            Tank {
                hits: (shooter.hits + 1) as usize,
                frags: (shooter.frags + if target.energy == 1 { 1int } else { 0 }) as usize,
                ..shooter
            },
        )
    } else {
        tanks
    }
}

/// The cell in front of agent `i`.
pub open spec fn ahead(tanks: Seq<Tank>, i: int) -> (int, int) {
    tanks[i].point.shifted(tanks[i].direction, 1)
}

/// Agent `i` may advance: the cell in front of it is on the board and free.
pub open spec fn can_advance(dim: Dimension, tanks: Seq<Tank>, i: int) -> bool {
    dim.contains(ahead(tanks, i).0, ahead(tanks, i).1) && !occupied(tanks, ahead(tanks, i))
}

/// The roster after agent `i` tries to advance.
pub open spec fn advanced_roster(dim: Dimension, tanks: Seq<Tank>, i: int) -> Seq<Tank> {
    if can_advance(dim, tanks, i) {
        tanks.update(i, Tank { point: point_of(ahead(tanks, i)), ..tanks[i] })
    } else {
        tanks
    }
}

/// The roster after agent `i` plays move `m`.
pub open spec fn roster_after(dim: Dimension, tanks: Seq<Tank>, i: int, m: Move) -> Seq<Tank> {
    match m {
        Move::TurnLeft => tanks.update(i, Tank { direction: tanks[i].direction.left(), ..tanks[i] }),
        Move::TurnRight => tanks.update(i, Tank { direction: tanks[i].direction.right(), ..tanks[i] }),
        Move::Forward => advanced_roster(dim, tanks, i),
        Move::Fire => shot_roster(dim, tanks, i),
        Move::Wait => tanks,
    }
}

/// The laser after agent `i` plays move `m`.
pub open spec fn laser_after(dim: Dimension, tanks: Seq<Tank>, i: int, m: Move, before: Laser) -> Laser {
    if m == Move::Fire {
        shot_laser(dim, tanks, i)
    } else {
        before
    }
}

/// The hit marker after agent `i` plays move `m`.
pub open spec fn marker_after(dim: Dimension, tanks: Seq<Tank>, i: int, m: Move, before: Hit) -> Hit {
    if m == Move::Fire {
        shot_marker(dim, tanks, i, before)
    } else {
        before
    }
}

/// Sum of the agents' hit counters.
pub open spec fn total_hits(tanks: Seq<Tank>) -> int
    decreases tanks.len(),
{
    if tanks.len() == 0 {
        0
    } else {
        total_hits(tanks.drop_last()) + tanks.last().hits
    }
}

/// Sum of the agents' energies.
pub open spec fn total_energy(tanks: Seq<Tank>) -> int
    decreases tanks.len(),
{
    if tanks.len() == 0 {
        0
    } else {
        total_energy(tanks.drop_last()) + tanks.last().energy
    }
}

proof fn lemma_totals_update(tanks: Seq<Tank>, i: int, t: Tank)
    requires
        0 <= i < tanks.len(),
    ensures
        total_hits(tanks.update(i, t)) == total_hits(tanks) - tanks[i].hits + t.hits,
        total_energy(tanks.update(i, t)) == total_energy(tanks) - tanks[i].energy + t.energy,
    decreases tanks.len(),
{
    let u = tanks.update(i, t);
    if i == tanks.len() - 1 {
        assert(u.drop_last() =~= tanks.drop_last());
    } else {
        assert(u.drop_last() =~= tanks.drop_last().update(i, t));
        lemma_totals_update(tanks.drop_last(), i, t);
    }
}

proof fn lemma_totals_bound(tanks: Seq<Tank>, i: int)
    requires
        0 <= i < tanks.len(),
    ensures
        tanks[i].hits <= total_hits(tanks),
        tanks[i].energy <= total_energy(tanks),
        0 <= total_hits(tanks),
        0 <= total_energy(tanks),
    decreases tanks.len(),
{
    assert(total_hits(tanks) == total_hits(tanks.drop_last()) + tanks.last().hits);
    assert(total_energy(tanks) == total_energy(tanks.drop_last()) + tanks.last().energy);
    if tanks.len() > 1 {
        if i < tanks.len() - 1 {
            assert(tanks.drop_last()[i] == tanks[i]);
            lemma_totals_bound(tanks.drop_last(), i);
        } else {
            lemma_totals_bound(tanks.drop_last(), 0);
        }
    } else {
        assert(total_hits(tanks.drop_last()) == 0);
        assert(total_energy(tanks.drop_last()) == 0);
    }
}

/// The agent as a strategy sees it.
pub open spec fn status_of(t: Tank) -> TankStatus {
    TankStatus { direction: t.direction, location: t.point, is_alive: t.energy > 0 }
}

/// The agents that may act: those with energy left.
pub open spec fn living(tanks: Seq<Tank>) -> spec_fn(usize) -> bool {
    |k: usize| k < tanks.len() && tanks[k as int].energy > 0
}

/// The indices `0..n`, in order.
pub open spec fn all_indices(n: nat) -> Seq<usize> {
    Seq::new(n, |k: int| k as usize)
}

/// What the other agents look like to agent `i`, in roster order.
pub open spec fn opponents(tanks: Seq<Tank>, i: int) -> Seq<TankStatus> {
    tanks.map_values(|t: Tank| status_of(t)).remove(i)
}

/// The observation handed to the strategy of agent `i`.
pub open spec fn observes(dim: Dimension, tanks: Seq<Tank>, i: int, input: NextMoveInput) -> bool {
    &&& input.game_board == dim
    &&& input.own_status == status_of(tanks[i])
    &&& input.opponent_status@ == opponents(tanks, i)
    &&& input.fire_range == FIRE_RANGE
}

/// A fresh roster scores nothing and holds at most full energy.
proof fn lemma_fresh_totals(tanks: Seq<Tank>)
    requires
        forall|i: int| 0 <= i < tanks.len() ==> (#[trigger] tanks[i]).hits == 0 && tanks[i].energy <= MAX_ENERGY,
    ensures
        total_hits(tanks) == 0,
        total_energy(tanks) <= MAX_ENERGY * tanks.len(),
    decreases tanks.len(),
{
    if tanks.len() > 0 {
        let rest = tanks.drop_last();
        assert forall|i: int| 0 <= i < rest.len() implies (#[trigger] rest[i]).hits == 0 && rest[i].energy
            <= MAX_ENERGY by {
            assert(rest[i] == tanks[i]);
        }
        lemma_fresh_totals(rest);
    }
}

proof fn lemma_first_block_clear(dim: Dimension, tanks: Seq<Tank>, t: Tank, j: int)
    requires
        1 <= j <= FIRE_RANGE + 1,
        forall|k: int| j <= k <= FIRE_RANGE ==> !#[trigger] blocks(dim, tanks, t, k),
    ensures
        first_block(dim, tanks, t, j) == FIRE_RANGE + 1,
    decreases FIRE_RANGE + 1 - j,
{
    if j <= FIRE_RANGE {
        assert(!blocks(dim, tanks, t, j));
        lemma_first_block_clear(dim, tanks, t, j + 1);
    }
}

proof fn lemma_first_block_at(dim: Dimension, tanks: Seq<Tank>, t: Tank, j: int, d: int)
    requires
        1 <= j <= d <= FIRE_RANGE,
        forall|k: int| j <= k < d ==> !#[trigger] blocks(dim, tanks, t, k),
        blocks(dim, tanks, t, d),
    ensures
        first_block(dim, tanks, t, j) == d,
    decreases d - j,
{
    if j < d {
        assert(!blocks(dim, tanks, t, j));
        lemma_first_block_at(dim, tanks, t, j + 1, d);
    }
}

/// A shot whose path is clear of agents and board edges over the whole fire
/// range draws a laser of full length that strikes nothing, and changes no
/// agent.
pub proof fn lemma_clear_shot(dim: Dimension, tanks: Seq<Tank>, i: int)
    requires
        0 <= i < tanks.len(),
        forall|j: int| 1 <= j <= FIRE_RANGE ==> !#[trigger] blocks(dim, tanks, tanks[i], j),
    ensures
        shot_laser(dim, tanks, i).length == FIRE_RANGE,
        !shot_laser(dim, tanks, i).hit,
        shot_roster(dim, tanks, i) == tanks,
{
    lemma_first_block_clear(dim, tanks, tanks[i], 1);
}

/// A shot whose path is clear up to the `d`-th cell, where a living agent
/// `k` stands, draws a laser of length `d - 1` that strikes; `k` loses one
/// energy, the shooter scores one hit, and one frag exactly when `k` is left
/// with no energy; no other agent changes.
pub proof fn lemma_shot_on_living(game: RobotChallenge, i: int, k: int, d: int)
    requires
        game.wf(),
        0 <= i < game.tanks@.len(),
        0 <= k < game.tanks@.len(),
        1 <= d <= FIRE_RANGE,
        forall|j: int| 1 <= j < d ==> !#[trigger] blocks(game.dimension, game.tanks@, game.tanks@[i], j),
        game.dimension.contains(
            game.tanks@[i].point.shifted(game.tanks@[i].direction, d).0,
            game.tanks@[i].point.shifted(game.tanks@[i].direction, d).1,
        ),
        game.tanks@[k].point.at(game.tanks@[i].point.shifted(game.tanks@[i].direction, d)),
        game.tanks@[k].energy > 0,
    ensures
        ({
            let dim = game.dimension;
            let tanks = game.tanks@;
            let after = shot_roster(dim, tanks, i);
            &&& shot_laser(dim, tanks, i).length == d - 1
            &&& shot_laser(dim, tanks, i).hit
            &&& k != i
            &&& after[k].energy == tanks[k].energy - 1
            &&& after[i].hits == tanks[i].hits + 1
            &&& after[i].frags == tanks[i].frags + (if after[k].energy == 0 { 1int } else { 0 })
            &&& forall|j: int| 0 <= j < tanks.len() && j != i && j != k ==> #[trigger] after[j] == tanks[j]
        }),
{
    let dim = game.dimension;
    let tanks = game.tanks@;
    let c = tanks[i].point.shifted(tanks[i].direction, d);
    assert(occupied(tanks, c));
    lemma_first_block_at(dim, tanks, tanks[i], 1, d);
    let o = occupant(tanks, c);
    assert(tanks[o].point.at(c));
    assert(tanks[o].point == tanks[k].point);
    assert(o == k);
    lemma_totals_bound(tanks, k);
    lemma_totals_bound(tanks, i);
}

/// A shot that first meets a dead agent `k` stops there and strikes it, but
/// changes no agent: the shooter scores no hit and no frag.
pub proof fn lemma_shot_on_dead(game: RobotChallenge, i: int, k: int, d: int)
    requires
        game.wf(),
        0 <= i < game.tanks@.len(),
        0 <= k < game.tanks@.len(),
        1 <= d <= FIRE_RANGE,
        forall|j: int| 1 <= j < d ==> !#[trigger] blocks(game.dimension, game.tanks@, game.tanks@[i], j),
        game.dimension.contains(
            game.tanks@[i].point.shifted(game.tanks@[i].direction, d).0,
            game.tanks@[i].point.shifted(game.tanks@[i].direction, d).1,
        ),
        game.tanks@[k].point.at(game.tanks@[i].point.shifted(game.tanks@[i].direction, d)),
        game.tanks@[k].energy == 0,
    ensures
        shot_laser(game.dimension, game.tanks@, i).hit,
        shot_laser(game.dimension, game.tanks@, i).length == d - 1,
        shot_roster(game.dimension, game.tanks@, i) == game.tanks@,
{
    let dim = game.dimension;
    let tanks = game.tanks@;
    let c = tanks[i].point.shifted(tanks[i].direction, d);
    assert(occupied(tanks, c));
    lemma_first_block_at(dim, tanks, tanks[i], 1, d);
    let o = occupant(tanks, c);
    assert(tanks[o].point.at(c));
    assert(tanks[o].point == tanks[k].point);
}

proof fn lemma_all_indices_count(n: nat, i: usize)
    requires
        n <= usize::MAX,
    ensures
        all_indices(n).to_multiset().count(i) == (if (i as int) < n { 1nat } else { 0nat }),
    decreases n,
{
    if n > 0 {
        let m = (n - 1) as nat;
        assert(all_indices(n) =~= all_indices(m).push((n - 1) as usize));
        all_indices(m).to_multiset_ensures();
        lemma_all_indices_count(m, i);
    } else {
        all_indices(0).to_multiset_ensures();
        vstd::multiset::lemma_multiset_empty_len(all_indices(0).to_multiset());
    }
}

proof fn lemma_filter_count(s: Seq<usize>, pred: spec_fn(usize) -> bool, x: usize)
    ensures
        s.filter(pred).to_multiset().count(x) == (if pred(x) { s.to_multiset().count(x) } else { 0nat }),
    decreases s.len(),
{
    reveal(Seq::filter);
    if s.len() == 0 {
        assert(s.filter(pred) =~= Seq::<usize>::empty());
        s.to_multiset_ensures();
        s.filter(pred).to_multiset_ensures();
        vstd::multiset::lemma_multiset_empty_len(s.to_multiset());
        vstd::multiset::lemma_multiset_empty_len(s.filter(pred).to_multiset());
    } else {
        let rest = s.drop_last();
        lemma_filter_count(rest, pred, x);
        assert(s =~= rest.push(s.last()));
        rest.to_multiset_ensures();
        rest.filter(pred).to_multiset_ensures();
    }
}

/// Queuing the agents of a permutation of the roster, as a new round does,
/// queues every agent with energy left exactly once and no dead agent.
pub proof fn lemma_round_queues_each_living_agent_once(tanks: Seq<Tank>, order: Seq<usize>, i: usize)
    requires
        tanks.len() <= usize::MAX,
        order.to_multiset() == all_indices(tanks.len()).to_multiset(),
        (i as int) < tanks.len(),
    ensures
        order.filter(living(tanks)).to_multiset().count(i) == (if tanks[i as int].energy > 0 { 1nat } else { 0nat }),
{
    lemma_filter_count(order, living(tanks), i);
    lemma_all_indices_count(tanks.len(), i);
}

/// The whole game state.
pub struct RobotChallenge {
    pub round: usize,
    /// The agents still to act this round; the last one acts first.
    pub next_tank_index: Vec<usize>,
    pub dimension: Dimension,
    pub tanks: Vec<Tank>,
    pub laser: Laser,
    pub hit: Hit,
    /// The agent left standing, once the game has ended with one.
    pub winner: Option<usize>,
    pub rng: StdRng,
}

/// The `NewRound` step: the round counter moves on; at the cap the game
/// halts; otherwise every agent with energy left is queued once, in an order
/// drawn at random, and the game ends when fewer than two are queued.
pub open spec fn round_started(s: RobotChallenge, n: RobotChallenge, r: Option<Message>) -> bool {
    &&& n.round == (if s.round < MAX_ROUNDS { s.round + 1 } else { s.round as int })
    &&& n.tanks@ == s.tanks@
    &&& n.dimension == s.dimension
    &&& n.laser == s.laser
    &&& n.hit == s.hit
    &&& n.winner == s.winner
    &&& if n.round >= MAX_ROUNDS {
        &&& r is None
        &&& n.next_tank_index@ == s.next_tank_index@
    } else {
        &&& exists|order: Seq<usize>|
            #[trigger] order.to_multiset() == all_indices(s.tanks@.len()).to_multiset()
                && n.next_tank_index@ == s.next_tank_index@ + order.filter(living(s.tanks@))
        &&& forall|k: int|
            s.next_tank_index@.len() <= k < n.next_tank_index@.len() ==> s.tanks@[#[trigger] n.next_tank_index@[k] as int].energy
                > 0
        &&& r == Some(if n.next_tank_index@.len() > 1 { Message::Move } else { Message::EndGame })
    }
}

/// The `Move` step: with the queue empty a new round is due; otherwise the
/// last queued agent acts. A dead one waits; a living one plays the move that
/// its strategy answers to its observation.
pub open spec fn turn_taken(s: RobotChallenge, n: RobotChallenge, r: Option<Message>) -> bool {
    &&& n.round == s.round
    &&& n.dimension == s.dimension
    &&& n.winner == s.winner
    &&& if s.next_tank_index@.len() == 0 {
        &&& r == Some(Message::NewRound)
        &&& n.next_tank_index@ == s.next_tank_index@
        &&& n.tanks@ == s.tanks@
        &&& n.laser == s.laser
        &&& n.hit == s.hit
    } else {
        let i = s.next_tank_index@.last() as int;
        &&& n.next_tank_index@ == s.next_tank_index@.drop_last()
        &&& if s.tanks@[i].energy == 0 {
            &&& n.tanks@ == s.tanks@
            &&& n.laser == s.laser
            &&& n.hit == s.hit
            &&& r == Some(Message::Move)
        } else {
            exists|m: Move, st: Strategy, input: NextMoveInput|
                {
                    let tanks = s.tanks@.update(i, Tank { strategy: st, ..s.tanks@[i] });
                    &&& observes(s.dimension, s.tanks@, i, input)
                    &&& #[trigger] Strategy::answers(s.tanks@[i].strategy, st, input, m)
                    &&& n.tanks@ == roster_after(s.dimension, tanks, i, m)
                    &&& n.laser == laser_after(s.dimension, tanks, i, m, s.laser)
                    &&& n.hit == marker_after(s.dimension, tanks, i, m, s.hit)
                    &&& r == Some(if m == Move::Fire { Message::Laser } else { Message::Move })
                }
        }
    }
}

/// The `Laser` step: the laser is put away; the hit marker shows when the
/// shot struck.
pub open spec fn laser_cleared(s: RobotChallenge, n: RobotChallenge, r: Option<Message>) -> bool {
    &&& n.laser == Laser::spec_default()
    &&& n.tanks@ == s.tanks@
    &&& n.next_tank_index@ == s.next_tank_index@
    &&& n.round == s.round
    &&& n.dimension == s.dimension
    &&& n.winner == s.winner
    &&& if s.laser.hit {
        &&& n.hit == (Hit { is_visible: true, ..s.hit })
        &&& r == Some(Message::Hit)
    } else {
        &&& n.hit == s.hit
        &&& r == Some(Message::Move)
    }
}

/// The `Hit` step: the hit marker is put away.
pub open spec fn hit_cleared(s: RobotChallenge, n: RobotChallenge, r: Option<Message>) -> bool {
    &&& n.hit == Hit::spec_default()
    &&& n.laser == s.laser
    &&& n.tanks@ == s.tanks@
    &&& n.next_tank_index@ == s.next_tank_index@
    &&& n.round == s.round
    &&& n.dimension == s.dimension
    &&& n.winner == s.winner
    &&& r == Some(Message::Move)
}

/// The `EndGame` step: the last queued agent, if any, is the winner; with
/// none queued there is no winner. The game halts.
pub open spec fn game_ended(s: RobotChallenge, n: RobotChallenge, r: Option<Message>) -> bool {
    &&& r is None
    &&& n.tanks@ == s.tanks@
    &&& n.laser == s.laser
    &&& n.hit == s.hit
    &&& n.round == s.round
    &&& n.dimension == s.dimension
    &&& if s.next_tank_index@.len() == 0 {
        &&& n.winner is None
        &&& n.next_tank_index@ == s.next_tank_index@
    } else {
        &&& n.winner == Some(s.next_tank_index@.last())
        &&& n.next_tank_index@ == s.next_tank_index@.drop_last()
    }
}

impl RobotChallenge {
    /// Every agent stands on the board on a cell of its own, energies stay in
    /// range, and no agent has scored more than the energy taken from others.
    pub open spec fn wf(&self) -> bool {
        &&& self.dimension.wf()
        &&& self.dimension.width + FIRE_RANGE <= isize::MAX
        &&& self.dimension.height + FIRE_RANGE <= isize::MAX
        &&& self.tanks@.len() * MAX_ENERGY <= usize::MAX
        &&& forall|i: int|
            0 <= i < self.tanks@.len() ==> {
                let t = #[trigger] self.tanks@[i];
                &&& self.dimension.contains(t.point.x as int, t.point.y as int)
                &&& t.energy <= MAX_ENERGY
                &&& t.frags <= t.hits
                &&& t.strategy.wf()
            }
        &&& forall|i: int, j: int|
            0 <= i < self.tanks@.len() && 0 <= j < self.tanks@.len() && i != j
                ==> #[trigger] self.tanks@[i].point != #[trigger] self.tanks@[j].point
        &&& total_hits(self.tanks@) + total_energy(self.tanks@) <= MAX_ENERGY * self.tanks@.len()
        &&& forall|k: int|
            0 <= k < self.next_tank_index@.len() ==> #[trigger] self.next_tank_index@[k]
                < self.tanks@.len()
        &&& self.round <= MAX_ROUNDS
    }

    pub fn is_valid_point(&self, point: &BoardPoint) -> (r: bool)
        requires
            self.dimension.wf(),
        ensures
            r == self.dimension.contains(point.x as int, point.y as int),
    {
        0 <= point.x && point.x < self.dimension.width as isize && 0 <= point.y && point.y
            < self.dimension.height as isize
    }

    pub fn is_tank(&self, point: &BoardPoint) -> (r: bool)
        ensures
            r == occupied(self.tanks@, (point.x as int, point.y as int)),
    {
        let mut i: usize = 0;
        while i < self.tanks.len()
            invariant
                i <= self.tanks@.len(),
                forall|k: int| 0 <= k < i ==> !#[trigger] self.tanks@[k].point.at(
                    (point.x as int, point.y as int),
                ),
            decreases self.tanks@.len() - i,
        {
            if self.tanks[i].point == *point {
                assert(self.tanks@[i as int].point.at((point.x as int, point.y as int)));
                return true;
            }
            i += 1;
        }
        false
    }

    /// The index of the agent on `point`.
    pub fn tank_index(&self, point: &BoardPoint) -> (r: usize)
        requires
            self.wf(),
            occupied(self.tanks@, (point.x as int, point.y as int)),
        ensures
            r < self.tanks@.len(),
            self.tanks@[r as int].point == *point,
            r == occupant(self.tanks@, (point.x as int, point.y as int)),
    {
        let ghost c = (point.x as int, point.y as int);
        let mut i: usize = 0;
        while i < self.tanks.len()
            invariant
                i <= self.tanks@.len(),
                c == (point.x as int, point.y as int),
                self.wf(),
                occupied(self.tanks@, c),
                forall|k: int| 0 <= k < i ==> !#[trigger] self.tanks@[k].point.at(c),
            decreases self.tanks@.len() - i,
        {
            if self.tanks[i].point == *point {
                proof {
                    let k = occupant(self.tanks@, c);
                    assert(self.tanks@[i as int].point.at(c));
                    assert(self.tanks@[k].point.at(c));
                    assert(self.tanks@[k].point == self.tanks@[i as int].point);
                }
                return i;
            }
            i += 1;
        }
        proof {
            let k = occupant(self.tanks@, c);
            assert(self.tanks@[k].point.at(c));
        }
        0
    }

    /// Agent `index` tries to advance one cell: it moves when that cell is on
    /// the board and no agent, dead or alive, stands there; otherwise nothing
    /// happens.
    pub fn forward(&mut self, index: usize)
        requires
            old(self).wf(),
            index < old(self).tanks@.len(),
        ensures
            final(self).wf(),
            final(self).tanks@ == advanced_roster(old(self).dimension, old(self).tanks@, index as int),
            final(self).dimension.contains(
                final(self).tanks@[index as int].point.x as int,
                final(self).tanks@[index as int].point.y as int,
            ),
            forall|j: int|
                0 <= j < final(self).tanks@.len() && j != index ==> #[trigger] final(self).tanks@[j].point
                    != final(self).tanks@[index as int].point,
            final(self).round == old(self).round,
            final(self).next_tank_index@ == old(self).next_tank_index@,
            final(self).dimension == old(self).dimension,
            final(self).laser == old(self).laser,
            final(self).hit == old(self).hit,
            final(self).winner == old(self).winner,
    {
        let point = self.tanks[index].point;
        let new_point = point.with_offset(self.tanks[index].direction, 1);
        let is_valid_point = self.is_valid_point(&new_point);
        let is_tank = self.is_tank(&new_point);
        if is_valid_point && !is_tank {
            let ghost before = self.tanks@;
            self.tanks[index].point = new_point;
            proof {
                assert(new_point == point_of(ahead(before, index as int)));
                assert(self.tanks@ =~= before.update(
                    index as int,
                    Tank { point: point_of(ahead(before, index as int)), ..before[index as int] },
                ));
                lemma_totals_update(before, index as int, self.tanks@[index as int]);
                assert forall|j: int| 0 <= j < self.tanks@.len() && j != index implies #[trigger] self.tanks@[j].point
                    != self.tanks@[index as int].point by {
                    if self.tanks@[j].point == new_point {
                        assert(before[j].point.at(ahead(before, index as int)));
                    }
                }
            }
        }
    }

    /// Resolves a shot of agent `index`. The laser starts at full range and is
    /// traced cell by cell: it stops before the first cell that is off the
    /// board or taken. A living agent struck there loses one energy, and the
    /// shooter scores a hit, and a frag when that was the target's last
    /// energy; a dead one only stops the laser.
    pub fn fire(&mut self, index: usize)
        requires
            old(self).wf(),
            index < old(self).tanks@.len(),
        ensures
            final(self).wf(),
            final(self).tanks@ == shot_roster(old(self).dimension, old(self).tanks@, index as int),
            final(self).laser == shot_laser(old(self).dimension, old(self).tanks@, index as int),
            final(self).hit == shot_marker(
                old(self).dimension,
                old(self).tanks@,
                index as int,
                old(self).hit,
            ),
            final(self).round == old(self).round,
            final(self).next_tank_index@ == old(self).next_tank_index@,
            final(self).dimension == old(self).dimension,
            final(self).winner == old(self).winner,
    {
        let origin = self.tanks[index].point;
        let direction = self.tanks[index].direction;
        let ghost t = self.tanks@[index as int];
        let ghost dim = self.dimension;
        let ghost tanks = self.tanks@;
        let ghost start = *self;
        self.laser.point = origin;
        self.laser.direction = direction;
        self.laser.length = FIRE_RANGE;
        self.laser.hit = false;
        self.laser.is_visible = true;
        let mut probe = origin;
        let mut i: usize = 1;
        while i <= FIRE_RANGE
            invariant
                1 <= i <= FIRE_RANGE + 1,
                start == *old(self),
                t == tanks[index as int],
                dim == start.dimension,
                tanks == start.tanks@,
                start.wf(),
                index < tanks.len(),
                origin == t.point,
                direction == t.direction,
                probe.at(origin.shifted(direction, i - 1)),
                dim.contains(probe.x as int, probe.y as int),
                first_block(dim, tanks, t, 1) == first_block(dim, tanks, t, i as int),
                self.laser == (Laser {
                    point: origin,
                    direction,
                    length: FIRE_RANGE,
                    hit: false,
                    is_visible: true,
                }),
                self.tanks@ == tanks,
                self.dimension == dim,
                self.hit == start.hit,
                self.round == start.round,
                self.next_tank_index@ == start.next_tank_index@,
                self.winner == start.winner,
            decreases FIRE_RANGE + 1 - i,
        {
            let fire_point = probe.with_offset(direction, 1);
            let ghost c = origin.shifted(direction, i as int);
            assert(fire_point.at(c));
            if !self.is_valid_point(&fire_point) {
                self.laser.length = i - 1;
                assert(first_block(dim, tanks, t, i as int) == i);
                return;
            } else if self.is_tank(&fire_point) {
                assert(first_block(dim, tanks, t, i as int) == i);
                self.laser.hit = true;
                self.laser.length = i - 1;
                self.hit.point = fire_point;
                assert(fire_point == point_of(c));
                let k = self.tank_index(&fire_point);
                assert(k != index);
                if self.tanks[k].energy > 0 {
                    let energy = self.tanks[k].energy - 1;
                    proof {
                        lemma_totals_bound(tanks, k as int);
                        lemma_totals_bound(tanks, index as int);
                    }
                    self.tanks[k].energy = energy;
                    let ghost after_target = self.tanks@;
                    assert(after_target =~= tanks.update(
                        k as int,
                        Tank { energy: (tanks[k as int].energy - 1) as usize, ..tanks[k as int] },
                    ));
                    let hits = self.tanks[index].hits + 1;
                    self.tanks[index].hits = hits;
                    if energy == 0 {
                        let frags = self.tanks[index].frags + 1;
                        self.tanks[index].frags = frags;
                    }
                    proof {
                        assert(self.tanks@ =~= shot_roster(dim, tanks, index as int));
                        lemma_totals_update(tanks, k as int, after_target[k as int]);
                        lemma_totals_update(after_target, index as int, self.tanks@[index as int]);
                        assert forall|a: int, b: int|
                            0 <= a < self.tanks@.len() && 0 <= b < self.tanks@.len() && a != b
                                implies #[trigger] self.tanks@[a].point != #[trigger] self.tanks@[b].point by {
                            assert(self.tanks@[a].point == tanks[a].point);
                            assert(self.tanks@[b].point == tanks[b].point);
                        }
                    }
                }
                return;
            }
            proof {
                assert(!blocks(dim, tanks, t, i as int));
            }
            probe = fire_point;
            i += 1;
        }
    }

    /// Applies one decided move of agent `index`, and names the scheduler's
    /// next step: the laser after a shot, the next agent otherwise.
    pub fn take_turn(&mut self, index: usize, next_move: Move) -> (r: Message)
        requires
            old(self).wf(),
            index < old(self).tanks@.len(),
        ensures
            final(self).wf(),
            r == (if next_move == Move::Fire { Message::Laser } else { Message::Move }),
            final(self).tanks@ == roster_after(old(self).dimension, old(self).tanks@, index as int, next_move),
            final(self).laser == laser_after(
                old(self).dimension,
                old(self).tanks@,
                index as int,
                next_move,
                old(self).laser,
            ),
            final(self).hit == marker_after(
                old(self).dimension,
                old(self).tanks@,
                index as int,
                next_move,
                old(self).hit,
            ),
            final(self).round == old(self).round,
            final(self).next_tank_index@ == old(self).next_tank_index@,
            final(self).dimension == old(self).dimension,
            final(self).winner == old(self).winner,
    {
        let ghost before = self.tanks@;
        match next_move {
            Move::TurnLeft => {
                let direction = self.tanks[index].direction.counter_clockwise();
                self.tanks[index].direction = direction;
                proof {
                    assert(self.tanks@ =~= before.update(
                        index as int,
                        Tank { direction: before[index as int].direction.left(), ..before[index as int] },
                    ));
                    lemma_totals_update(before, index as int, self.tanks@[index as int]);
                }
                Message::Move
            },
            Move::TurnRight => {
                let direction = self.tanks[index].direction.clockwise();
                self.tanks[index].direction = direction;
                proof {
                    assert(self.tanks@ =~= before.update(
                        index as int,
                        Tank { direction: before[index as int].direction.right(), ..before[index as int] },
                    ));
                    lemma_totals_update(before, index as int, self.tanks@[index as int]);
                }
                Message::Move
            },
            Move::Forward => {
                self.forward(index);
                Message::Move
            },
            Move::Fire => {
                self.fire(index);
                Message::Laser
            },
            Move::Wait => Message::Move,
        }
    }

    /// The observation of agent `current_index`: the board, its own status,
    /// every other agent's status in roster order, and the range of a shot.
    pub fn next_move_input(&self, current_index: usize) -> (r: NextMoveInput)
        requires
            self.wf(),
            current_index < self.tanks@.len(),
        ensures
            observes(self.dimension, self.tanks@, current_index as int, r),
            r.wf(),
    {
        let ghost all = self.tanks@.map_values(|t: Tank| status_of(t));
        let ghost ci = current_index as int;
        let mut own_status = TankStatus {
            direction: self.tanks[current_index].direction,
            location: self.tanks[current_index].point,
            is_alive: self.tanks[current_index].energy > 0,
        };
        let mut opponent_status: Vec<TankStatus> = Vec::new();
        let mut index: usize = 0;
        while index < self.tanks.len()
            invariant
                self.wf(),
                ci == current_index as int,
                current_index < self.tanks@.len(),
                all == self.tanks@.map_values(|t: Tank| status_of(t)),
                index <= self.tanks@.len(),
                own_status == status_of(self.tanks@[ci]),
                index <= ci ==> opponent_status@ == all.subrange(0, index as int),
                index > ci ==> opponent_status@ == all.subrange(0, ci) + all.subrange(
                    ci + 1,
                    index as int,
                ),
            decreases self.tanks@.len() - index,
        {
            let tank_status = TankStatus {
                direction: self.tanks[index].direction,
                location: self.tanks[index].point,
                is_alive: self.tanks[index].energy > 0,
            };
            if index == current_index {
                own_status = tank_status;
                assert(all.subrange(0, ci) + all.subrange(ci + 1, index + 1) =~= all.subrange(0, ci));
            } else {
                opponent_status.push(tank_status);
                if index < current_index {
                    assert(opponent_status@ =~= all.subrange(0, index + 1));
                } else {
                    assert(opponent_status@ =~= all.subrange(0, ci) + all.subrange(ci + 1, index + 1));
                }
            }
            index += 1;
        }
        let r = NextMoveInput {
            game_board: self.dimension,
            own_status,
            opponent_status,
            fire_range: FIRE_RANGE,
        };
        proof {
            assert(r.opponent_status@ =~= opponents(self.tanks@, ci));
            assert forall|k: int| 0 <= k < r.opponent_status@.len() implies #[trigger] self.dimension.contains(
                r.opponent_status@[k].location.x as int,
                r.opponent_status@[k].location.y as int,
            ) by {
                if k < ci {
                    assert(r.opponent_status@[k] == status_of(self.tanks@[k]));
                } else {
                    assert(r.opponent_status@[k] == status_of(self.tanks@[k + 1]));
                }
            }
        }
        r
    }

    /// Appends to the turn queue, in the given order, the agents of `order`
    /// that have energy left.
    pub fn queue_living(&mut self, order: &Vec<usize>)
        requires
            old(self).wf(),
            forall|k: int| 0 <= k < order@.len() ==> #[trigger] order@[k] < old(self).tanks@.len(),
        ensures
            final(self).wf(),
            final(self).next_tank_index@ == old(self).next_tank_index@ + order@.filter(
                living(old(self).tanks@),
            ),
            final(self).round == old(self).round,
            final(self).tanks@ == old(self).tanks@,
            final(self).dimension == old(self).dimension,
            final(self).laser == old(self).laser,
            final(self).hit == old(self).hit,
            final(self).winner == old(self).winner,
    {
        let ghost start = self.next_tank_index@;
        let ghost pred = living(self.tanks@);
        let mut i: usize = 0;
        while i < order.len()
            invariant
                self.wf(),
                pred == living(self.tanks@),
                self.tanks@ == old(self).tanks@,
                self.round == old(self).round,
                self.dimension == old(self).dimension,
                self.laser == old(self).laser,
                self.hit == old(self).hit,
                self.winner == old(self).winner,
                i <= order@.len(),
                forall|k: int| 0 <= k < order@.len() ==> #[trigger] order@[k] < self.tanks@.len(),
                self.next_tank_index@ == start + order@.subrange(0, i as int).filter(pred),
            decreases order@.len() - i,
        {
            let index = order[i];
            proof {
                reveal(Seq::filter);
                assert(order@.subrange(0, i + 1).drop_last() =~= order@.subrange(0, i as int));
            }
            if self.tanks[index].energy > 0 {
                self.next_tank_index.push(index);
                assert(self.next_tank_index@ =~= start + order@.subrange(0, i + 1).filter(pred));
            } else {
                assert(self.next_tank_index@ =~= start + order@.subrange(0, i + 1).filter(pred));
            }
            i += 1;
        }
        assert(order@.subrange(0, order@.len() as int) =~= order@);
    }

    /// A game on `dimension` with the given agents, fresh and each on a cell
    /// of its own, and a turn-order generator seeded with `seed`.
    pub fn with_tanks(dimension: Dimension, tanks: Vec<Tank>, seed: u64) -> (r: Self)
        requires
            dimension.wf(),
            dimension.width + FIRE_RANGE <= isize::MAX,
            dimension.height + FIRE_RANGE <= isize::MAX,
            tanks@.len() * MAX_ENERGY <= usize::MAX,
            forall|i: int|
                0 <= i < tanks@.len() ==> {
                    let t = #[trigger] tanks@[i];
                    &&& dimension.contains(t.point.x as int, t.point.y as int)
                    &&& t.energy <= MAX_ENERGY
                    &&& t.hits == 0
                    &&& t.frags == 0
                    &&& t.strategy.wf()
                },
            forall|i: int, j: int|
                0 <= i < tanks@.len() && 0 <= j < tanks@.len() && i != j ==> #[trigger] tanks@[i].point
                    != #[trigger] tanks@[j].point,
        ensures
            r.wf(),
            r.round == 0,
            r.next_tank_index@.len() == 0,
            r.dimension == dimension,
            r.tanks@ == tanks@,
            r.laser == Laser::spec_default(),
            r.hit == Hit::spec_default(),
            r.winner is None,
    {
        proof {
            lemma_fresh_totals(tanks@);
        }
        RobotChallenge {
            round: 0,
            next_tank_index: Vec::new(),
            dimension,
            tanks,
            laser: Laser::default(),
            hit: Hit::default(),
            winner: None,
            rng: seeded_rng(seed),
        }
    }

    /// The standard game: seven agents on a 20 by 20 board.
    pub fn new(seed: u64) -> (r: Self)
        ensures
            r.wf(),
            r.round == 0,
            r.next_tank_index@.len() == 0,
            r.dimension == (Dimension { width: 20, height: 20 }),
            r.laser == Laser::spec_default(),
            r.hit == Hit::spec_default(),
            r.winner is None,
            r.tanks@.len() == 7,
            forall|k: int|
                0 <= k < 7 ==> {
                    let t = #[trigger] r.tanks@[k];
                    &&& t.energy == MAX_ENERGY
                    &&& t.hits == 0
                    &&& t.frags == 0
                    &&& t.direction == Direction::North
                },
            r.tanks@[0].point == (BoardPoint { x: 6, y: 10 }),
            r.tanks@[1].point == (BoardPoint { x: 2, y: 10 }),
            r.tanks@[2].point == (BoardPoint { x: 12, y: 12 }),
            r.tanks@[3].point == (BoardPoint { x: 4, y: 14 }),
            r.tanks@[4].point == (BoardPoint { x: 14, y: 5 }),
            r.tanks@[5].point == (BoardPoint { x: 10, y: 5 }),
            r.tanks@[6].point == (BoardPoint { x: 19, y: 19 }),
            r.tanks@[0].strategy.label() == "Dummy"@,
            r.tanks@[1].strategy.label() == "Dummy2"@,
            r.tanks@[2].strategy.label() == "Random"@,
            r.tanks@[3].strategy.label() == "Random2"@,
            r.tanks@[4].strategy.label() == "Eric Idle"@,
            r.tanks@[5].strategy.label() == "Spinner"@,
            r.tanks@[6].strategy.label() == "FireFire"@,
            r.tanks@[0].strategy.author_label() == "JMH"@,
            r.tanks@[1].strategy.author_label() == "JMH"@,
            r.tanks@[2].strategy.author_label() == "Martin"@,
            r.tanks@[3].strategy.author_label() == "Martin"@,
            r.tanks@[4].strategy.author_label() == "Martin"@,
            r.tanks@[5].strategy.author_label() == "Martin"@,
            r.tanks@[6].strategy.author_label() == "Johan"@,
            r.tanks@[0].strategy matches Strategy::Dummy(d) && d.moves@ == seq![Move::Fire, Move::TurnLeft, Move::Forward] && d.move_index == 0,
            r.tanks@[1].strategy matches Strategy::Dummy(d) && d.moves@ == seq![Move::Fire, Move::TurnRight, Move::Forward] && d.move_index == 0,
            r.tanks@[2].strategy is Random,
            r.tanks@[3].strategy is Random,
            r.tanks@[4].strategy is Slacker,
            r.tanks@[5].strategy matches Strategy::Spinner(d) && d.shoot,
            r.tanks@[6].strategy is FireFire,
            r.tanks@[0].color == RED,
            r.tanks@[1].color == BLUE,
            r.tanks@[2].color == GREEN,
            r.tanks@[3].color == AQUA,
            r.tanks@[4].color == PERU,
            r.tanks@[5].color == TOMATO,
            r.tanks@[6].color == PINK,
    {
        let tanks = vec![
            Tank {
                color: RED,
                point: BoardPoint { x: 6, y: 10 },
                strategy: Strategy::Dummy(Dummy::default()),
                ..Tank::default()
            },
            Tank {
                color: BLUE,
                point: BoardPoint { x: 2, y: 10 },
                strategy: Strategy::Dummy(Dummy::dummy2()),
                ..Tank::default()
            },
            Tank {
                color: GREEN,
                point: BoardPoint { x: 12, y: 12 },
                strategy: Strategy::Random(Random::default()),
                ..Tank::default()
            },
            Tank {
                color: AQUA,
                point: BoardPoint { x: 4, y: 14 },
                strategy: Strategy::Random(Random::random2()),
                ..Tank::default()
            },
            Tank {
                color: PERU,
                point: BoardPoint { x: 14, y: 5 },
                strategy: Strategy::Slacker(Slacker::default()),
                ..Tank::default()
            },
            Tank {
                color: TOMATO,
                point: BoardPoint { x: 10, y: 5 },
                strategy: Strategy::Spinner(Spinner::default()),
                ..Tank::default()
            },
            Tank {
                color: PINK,
                point: BoardPoint { x: 19, y: 19 },
                strategy: Strategy::FireFire(FireFire::default()),
                ..Tank::default()
            },
        ];
        RobotChallenge::with_tanks(Dimension::default(), tanks, seed)
    }

    /// The `NewRound` step.
    pub fn new_round(&mut self) -> (r: Option<Message>)
        requires
            old(self).wf(),
        ensures
            final(self).wf(),
            round_started(*old(self), *final(self), r),
    {
        if self.round < MAX_ROUNDS {
            self.round += 1;
        }
        if self.round >= MAX_ROUNDS {
            return None;
        }
        let n = self.tanks.len();
        let mut indexes: Vec<usize> = Vec::new();
        let mut k: usize = 0;
        while k < n
            invariant
                k <= n,
                n == self.tanks@.len(),
                indexes@ == all_indices(k as nat),
            decreases n - k,
        {
            indexes.push(k);
            k += 1;
            assert(indexes@ =~= all_indices(k as nat));
        }
        let ghost ordered = indexes@;
        shuffle(&mut indexes, &mut self.rng);
        proof {
            indexes@.to_multiset_ensures();
            ordered.to_multiset_ensures();
            assert forall|j: int| 0 <= j < indexes@.len() implies #[trigger] indexes@[j] < n by {
                let x = indexes@[j];
                assert(indexes@.contains(x));
                assert(indexes@.to_multiset().count(x) > 0);
                assert(ordered.to_multiset().count(x) > 0);
                assert(ordered.contains(x));
                let w = choose|w: int| 0 <= w < ordered.len() && ordered[w] == x;
                assert(ordered[w] == w as usize);
            }
        }
        let ghost before = self.next_tank_index@;
        self.queue_living(&indexes);
        proof {
            let pred = living(self.tanks@);
            assert forall|k: int| before.len() <= k < self.next_tank_index@.len() implies self.tanks@[
                #[trigger] self.next_tank_index@[k] as int].energy > 0 by {
                assert(self.next_tank_index@[k] == indexes@.filter(pred)[k - before.len()]);
                indexes@.lemma_filter_pred(pred, k - before.len());
            }
            assert(indexes@.to_multiset() == all_indices(self.tanks@.len()).to_multiset());
        }
        if self.next_tank_index.len() > 1 {
            Some(Message::Move)
        } else {
            Some(Message::EndGame)
        }
    }

    /// The `Move` step.
    pub fn move_next(&mut self) -> (r: Option<Message>)
        requires
            old(self).wf(),
        ensures
            final(self).wf(),
            turn_taken(*old(self), *final(self), r),
    {
        match self.next_tank_index.pop() {
            None => Some(Message::NewRound),
            Some(index) => {
                assert(index == old(self).next_tank_index@.last());
                let mut next_move = Move::Wait;
                if self.tanks[index].energy > 0 {
                    let input = self.next_move_input(index);
                    let ghost before = self.tanks@;
                    next_move = self.tanks[index].strategy.next_move(&input, &mut self.rng);
                    proof {
                        assert(self.tanks@ =~= before.update(
                            index as int,
                            Tank { strategy: self.tanks@[index as int].strategy, ..before[index as int] },
                        ));
                        lemma_totals_update(before, index as int, self.tanks@[index as int]);
                        assert(Strategy::answers(
                            before[index as int].strategy,
                            self.tanks@[index as int].strategy,
                            input,
                            next_move,
                        ));
                    }
                }
                Some(self.take_turn(index, next_move))
            },
        }
    }

    /// The `Laser` step.
    pub fn resolve_laser(&mut self) -> (r: Option<Message>)
        requires
            old(self).wf(),
        ensures
            final(self).wf(),
            laser_cleared(*old(self), *final(self), r),
    {
        let hit = self.laser.hit;
        self.laser = Laser::default();
        if hit {
            self.hit.is_visible = true;
            Some(Message::Hit)
        } else {
            Some(Message::Move)
        }
    }

    /// The `Hit` step.
    pub fn resolve_hit(&mut self) -> (r: Option<Message>)
        requires
            old(self).wf(),
        ensures
            final(self).wf(),
            hit_cleared(*old(self), *final(self), r),
    {
        self.hit = Hit::default();
        Some(Message::Move)
    }

    /// The `EndGame` step.
    pub fn end_game(&mut self) -> (r: Option<Message>)
        requires
            old(self).wf(),
        ensures
            final(self).wf(),
            game_ended(*old(self), *final(self), r),
    {
        self.winner = self.next_tank_index.pop();
        None
    }

    /// Runs the step that `message` names and returns the step to run next,
    /// or `None` once the game has halted.
    pub fn update(&mut self, message: Message) -> (r: Option<Message>)
        requires
            old(self).wf(),
        ensures
            final(self).wf(),
            message == Message::NewGame ==> {
                &&& r == Some(Message::NewRound)
                &&& *final(self) == *old(self)
            },
            message == Message::NewRound ==> round_started(*old(self), *final(self), r),
            message == Message::Move ==> turn_taken(*old(self), *final(self), r),
            message == Message::Laser ==> laser_cleared(*old(self), *final(self), r),
            message == Message::Hit ==> hit_cleared(*old(self), *final(self), r),
            message == Message::EndGame ==> game_ended(*old(self), *final(self), r),
    {
        match message {
            Message::NewGame => Some(Message::NewRound),
            Message::NewRound => self.new_round(),
            Message::Move => self.move_next(),
            Message::Laser => self.resolve_laser(),
            Message::Hit => self.resolve_hit(),
            Message::EndGame => self.end_game(),
        }
    }
}

} // verus!
