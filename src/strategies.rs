//! The strategies that drive the agents: scripted ones and a search-based
//! planner, gathered in one closed enum.

use crate::board::{move_from_sample, BoardPoint, Direction, Move, NextMoveInput};
use crate::random::draw_up_to;
use rand::rngs::StdRng;
use std::collections::VecDeque;
use vstd::prelude::*;

verus! {

/// Plays a fixed cycle of moves.
#[derive(Debug)]
pub struct Dummy {
    pub name: String,
    pub author: String,
    pub moves: Vec<Move>,
    pub move_index: usize,
}

impl Dummy {
    /// The cycle is not empty and the cursor points into it.
    pub open spec fn wf(&self) -> bool {
        0 <= self.move_index < self.moves@.len()
    }

    pub fn dummy2() -> (r: Self)
        ensures
            r.wf(),
            r.name@ == "Dummy2"@,
            r.author@ == "JMH"@,
            r.moves@ == seq![Move::Fire, Move::TurnRight, Move::Forward],
            r.move_index == 0,
    {
        Dummy {
            name: "Dummy2".to_owned(),
            author: "JMH".to_owned(),
            moves: vec![Move::Fire, Move::TurnRight, Move::Forward],
            move_index: 0,
        }
    }

    pub fn name(&self) -> (r: String)
        ensures
            r@ == self.name@,
    {
        self.name.clone()
    }

    pub fn author(&self) -> (r: String)
        ensures
            r@ == self.author@,
    {
        self.author.clone()
    }

    /// Plays the move under the cursor and moves the cursor on, wrapping round.
    pub fn next_move(&mut self, _input: &NextMoveInput) -> (r: Move)
        requires
            old(self).wf(),
        ensures
            final(self).wf(),
            r == old(self).moves@[old(self).move_index as int],
            final(self).move_index == (old(self).move_index + 1) % (old(self).moves@.len() as int),
            final(self).moves@ == old(self).moves@,
            final(self).name == old(self).name,
            final(self).author == old(self).author,
    {
        let len = self.moves.len();
        let index = self.move_index;
        assert(index < len);
        let next_move = self.moves[index];
        if index + 1 < len {
            proof {
                vstd::arithmetic::div_mod::lemma_small_mod((index + 1) as nat, len as nat);
            }
            self.move_index = index + 1;
        } else {
            proof {
                vstd::arithmetic::div_mod::lemma_mod_self_0(len as int);
            }
            self.move_index = 0;
        }
        next_move
    }
}

impl Default for Dummy {
    fn default() -> (r: Self)
        ensures
            r.wf(),
            r.name@ == "Dummy"@,
            r.author@ == "JMH"@,
            r.moves@ == seq![Move::Fire, Move::TurnLeft, Move::Forward],
            r.move_index == 0,
    {
        Dummy {
            name: "Dummy".to_owned(),
            author: "JMH".to_owned(),
            moves: vec![Move::Fire, Move::TurnLeft, Move::Forward],
            move_index: 0,
        }
    }
}

/// Fires, turns left or advances, at random.
#[derive(Debug)]
pub struct Random {
    pub name: String,
    pub author: String,
}

impl Random {
    pub fn random2() -> (r: Self)
        ensures
            r.name@ == "Random2"@,
            r.author@ == "Martin"@,
    {
        Random { name: "Random2".to_owned(), author: "Martin".to_owned() }
    }

    pub fn name(&self) -> (r: String)
        ensures
            r@ == self.name@,
    {
        self.name.clone()
    }

    pub fn author(&self) -> (r: String)
        ensures
            r@ == self.author@,
    {
        self.author.clone()
    }

    /// Draws a number from `0` to `2` and plays the move it stands for.
    pub fn next_move(&self, _input: &NextMoveInput, rng: &mut StdRng) -> (r: Move)
        ensures
            r == Move::Fire || r == Move::TurnLeft || r == Move::Forward,
    {
        let n = draw_up_to(rng, 2);
        move_from_sample(n)
    }
}

impl Default for Random {
    fn default() -> (r: Self)
        ensures
            r.name@ == "Random"@,
            r.author@ == "Martin"@,
    {
        Random { name: "Random".to_owned(), author: "Martin".to_owned() }
    }
}

/// Always waits.
#[derive(Debug)]
pub struct Slacker {
    pub name: String,
    pub author: String,
}

impl Slacker {
    pub fn name(&self) -> (r: String)
        ensures
            r@ == self.name@,
    {
        self.name.clone()
    }

    pub fn author(&self) -> (r: String)
        ensures
            r@ == self.author@,
    {
        self.author.clone()
    }

    pub fn next_move(&self, _input: &NextMoveInput) -> (r: Move)
        ensures
            r == Move::Wait,
    {
        Move::Wait
    }
}

impl Default for Slacker {
    fn default() -> (r: Self)
        ensures
            r.name@ == "Eric Idle"@,
            r.author@ == "Martin"@,
    {
        Slacker { name: "Eric Idle".to_owned(), author: "Martin".to_owned() }
    }
}

/// Turns right and fires, by turns.
#[derive(Debug)]
pub struct Spinner {
    pub name: String,
    pub author: String,
    pub shoot: bool,
}

impl Spinner {
    pub fn name(&self) -> (r: String)
        ensures
            r@ == self.name@,
    {
        self.name.clone()
    }

    pub fn author(&self) -> (r: String)
        ensures
            r@ == self.author@,
    {
        self.author.clone()
    }

    pub fn next_move(&mut self, _input: &NextMoveInput) -> (r: Move)
        ensures
            final(self).shoot == !old(self).shoot,
            final(self).name == old(self).name,
            final(self).author == old(self).author,
            r == (if final(self).shoot { Move::Fire } else { Move::TurnRight }),
    {
        self.shoot = !self.shoot;
        if self.shoot {
            Move::Fire
        } else {
            Move::TurnRight
        }
    }
}

impl Default for Spinner {
    fn default() -> (r: Self)
        ensures
            r.name@ == "Spinner"@,
            r.author@ == "Martin"@,
            r.shoot,
    {
        Spinner { name: "Spinner".to_owned(), author: "Martin".to_owned(), shoot: true }
    }
}

/// A search state: a cell and a facing.
pub open spec fn place_at(p: BoardPoint, d: Direction) -> (int, int, Direction) {
    (p.x as int, p.y as int, d)
}

/// State `c` lies on a board of `width` by `height` cells.
pub open spec fn on_board(c: (int, int, Direction), width: int, height: int) -> bool {
    0 <= c.0 < width && 0 <= c.1 < height
}

/// Some position of `v` stands on state `c`.
pub open spec fn tagged(v: Seq<Position>, c: (int, int, Direction)) -> bool {
    exists|i: int| 0 <= i < v.len() && #[trigger] v[i].place() == c
}

/// The states that some position of `v` stands on, as a predicate.
pub open spec fn tags(v: Seq<Position>) -> spec_fn((int, int, Direction)) -> bool {
    |c: (int, int, Direction)| tagged(v, c)
}

/// The state `k` cells ahead of `c`, with the same facing.
pub open spec fn probe(c: (int, int, Direction), k: int) -> (int, int, Direction) {
    match c.2 {
        Direction::North => (c.0, c.1 - k, c.2),
        Direction::East => (c.0 + k, c.1, c.2),
        Direction::South => (c.0, c.1 + k, c.2),
        Direction::West => (c.0 - k, c.1, c.2),
    }
}

/// From state `c` a shot of range `range` strikes a target: some cell ahead,
/// nearer than `range`, holds a target, and no blocker stands on it or
/// before it.
pub open spec fn fire_goal(
    c: (int, int, Direction),
    range: int,
    target: spec_fn((int, int, Direction)) -> bool,
    blocker: spec_fn((int, int, Direction)) -> bool,
) -> bool {
    exists|i: int|
        1 <= i < range && target(#[trigger] probe(c, i)) && forall|j: int|
            1 <= j <= i ==> !blocker(#[trigger] probe(c, j))
}

/// The moves that the search tries: advance, turn right, turn left.
pub open spec fn steering(m: Move) -> bool {
    m == Move::Forward || m == Move::TurnRight || m == Move::TurnLeft
}

/// The state after move `m` from `c`.
pub open spec fn advance(c: (int, int, Direction), m: Move) -> (int, int, Direction) {
    match m {
        Move::Forward => probe(c, 1),
        Move::TurnRight => (c.0, c.1, c.2.right()),
        Move::TurnLeft => (c.0, c.1, c.2.left()),
        _ => c,
    }
}

/// The state after playing `path` from `c`.
pub open spec fn run(c: (int, int, Direction), path: Seq<Move>) -> (int, int, Direction)
    decreases path.len(),
{
    if path.len() == 0 {
        c
    } else {
        advance(run(c, path.drop_last()), path.last())
    }
}

/// `path` is made of search moves, and every state it reaches after `c` is on
/// the board and not forbidden.
pub open spec fn open_path(
    c: (int, int, Direction),
    path: Seq<Move>,
    forbidden: spec_fn((int, int, Direction)) -> bool,
    width: int,
    height: int,
) -> bool {
    &&& forall|k: int| 0 <= k < path.len() ==> steering(#[trigger] path[k])
    &&& forall|k: int|
        1 <= k <= path.len() ==> on_board(#[trigger] run(c, path.take(k)), width, height) && !forbidden(
            run(c, path.take(k)),
        )
}

/// `path` is an open path from `c` that ends where a shot strikes a target.
pub open spec fn leads_to_fire(
    c: (int, int, Direction),
    path: Seq<Move>,
    range: int,
    target: spec_fn((int, int, Direction)) -> bool,
    blocker: spec_fn((int, int, Direction)) -> bool,
    forbidden: spec_fn((int, int, Direction)) -> bool,
    width: int,
    height: int,
) -> bool {
    open_path(c, path, forbidden, width, height) && fire_goal(run(c, path), range, target, blocker)
}

/// The positions of `v` are the states `1, 2, ...` cells ahead of `c`, none
/// of them dead, each with no moves.
pub open spec fn fire_prefix(c: (int, int, Direction), v: Seq<Position>, dead: Seq<Position>) -> bool {
    forall|k: int|
        0 <= k < v.len() ==> (#[trigger] v[k]).place() == probe(c, k + 1) && !tagged(dead, probe(c, k + 1))
            && v[k].moves@.len() == 0
}

/// Every cell up to `range` cells away from `p` along its row or column has
/// coordinates that fit in an `isize`.
pub open spec fn reach_fits(p: BoardPoint, range: int) -> bool {
    &&& isize::MIN + range <= p.x <= isize::MAX - range
    &&& isize::MIN + range <= p.y <= isize::MAX - range
}

proof fn lemma_path_step(
    c: (int, int, Direction),
    path: Seq<Move>,
    m: Move,
    forbidden: spec_fn((int, int, Direction)) -> bool,
    width: int,
    height: int,
)
    requires
        open_path(c, path, forbidden, width, height),
        steering(m),
        on_board(advance(run(c, path), m), width, height),
        !forbidden(advance(run(c, path), m)),
    ensures
        run(c, path.push(m)) == advance(run(c, path), m),
        open_path(c, path.push(m), forbidden, width, height),
{
    let p = path.push(m);
    assert(p.drop_last() =~= path);
    assert(run(c, p) == advance(run(c, path), m));
    assert forall|k: int| 0 <= k < p.len() implies steering(#[trigger] p[k]) by {
        if k < path.len() {
            assert(p[k] == path[k]);
        }
    }
    assert forall|k: int| 1 <= k <= p.len() implies on_board(#[trigger] run(c, p.take(k)), width, height)
        && !forbidden(run(c, p.take(k))) by {
        if k <= path.len() {
            assert(p.take(k) =~= path.take(k));
            assert(run(c, path.take(k)) == run(c, p.take(k)));
        } else {
            assert(p.take(k) =~= p);
        }
    }
}

/// The place of a move in the search order: advance, turn right, turn left.
pub open spec fn rank(m: Move) -> int {
    match m {
        Move::Forward => 0,
        Move::TurnRight => 1,
        Move::TurnLeft => 2,
        Move::Fire => 3,
        Move::Wait => 4,
    }
}

/// For two paths of one length: at the first move where they differ, `a`'s
/// move comes first in the search order.
pub open spec fn lex_less(a: Seq<Move>, b: Seq<Move>) -> bool
    decreases a.len(),
{
    if a.len() == 0 || a.len() != b.len() {
        false
    } else if a.drop_last() == b.drop_last() {
        rank(a.last()) < rank(b.last())
    } else {
        lex_less(a.drop_last(), b.drop_last())
    }
}

/// The search order on paths: shorter paths first, paths of one length by
/// their first differing move.
pub open spec fn before(a: Seq<Move>, b: Seq<Move>) -> bool {
    a.len() < b.len() || (a.len() == b.len() && lex_less(a, b))
}

/// `a` is `b` or comes before it.
pub open spec fn no_later(a: Seq<Move>, b: Seq<Move>) -> bool {
    a == b || before(a, b)
}

/// The move that a plan starts with: `Fire` for the empty plan.
pub open spec fn first_move(path: Seq<Move>) -> Move {
    if path.len() == 0 {
        Move::Fire
    } else {
        path[0]
    }
}

proof fn lemma_lex_irreflexive(a: Seq<Move>)
    ensures
        !lex_less(a, a),
    decreases a.len(),
{
    if a.len() > 0 {
        lemma_lex_irreflexive(a.drop_last());
    }
}

proof fn lemma_lex_transitive(a: Seq<Move>, b: Seq<Move>, c: Seq<Move>)
    requires
        lex_less(a, b),
        lex_less(b, c),
    ensures
        lex_less(a, c),
    decreases a.len(),
{
    let (a1, b1, c1) = (a.drop_last(), b.drop_last(), c.drop_last());
    if a1 == b1 && b1 == c1 {
    } else if a1 == b1 {
        lemma_lex_irreflexive(a1);
    } else if b1 == c1 {
        lemma_lex_irreflexive(a1);
    } else {
        lemma_lex_transitive(a1, b1, c1);
        lemma_lex_irreflexive(a1);
    }
}

proof fn lemma_lex_total(a: Seq<Move>, b: Seq<Move>)
    requires
        a.len() == b.len(),
        a != b,
    ensures
        lex_less(a, b) || lex_less(b, a),
    decreases a.len(),
{
    if a.len() == 0 {
        assert(a =~= b);
    } else {
        let (a1, b1) = (a.drop_last(), b.drop_last());
        if a1 == b1 {
            assert(a =~= a1.push(a.last()));
            assert(b =~= b1.push(b.last()));
            assert(a.last() != b.last());
        } else {
            lemma_lex_total(a1, b1);
        }
    }
}

/// The search order is a strict total order.
proof fn lemma_before_order(a: Seq<Move>, b: Seq<Move>, c: Seq<Move>)
    ensures
        !before(a, a),
        before(a, b) && before(b, c) ==> before(a, c),
        a != b ==> before(a, b) || before(b, a),
        before(a, b) ==> !before(b, a) && a != b,
{
    lemma_lex_irreflexive(a);
    if a.len() == b.len() && b.len() == c.len() && lex_less(a, b) && lex_less(b, c) {
        lemma_lex_transitive(a, b, c);
    }
    if a != b && a.len() == b.len() {
        lemma_lex_total(a, b);
    }
    if a.len() == b.len() && lex_less(a, b) && lex_less(b, a) {
        lemma_lex_transitive(a, b, a);
    }
}

/// Extending two paths by one move each keeps their order.
proof fn lemma_before_push(a: Seq<Move>, b: Seq<Move>, m1: Move, m2: Move)
    requires
        before(a, b),
    ensures
        before(a.push(m1), b.push(m2)),
{
    lemma_lex_irreflexive(a);
    assert(a.push(m1).drop_last() =~= a);
    assert(b.push(m2).drop_last() =~= b);
}

/// Extending one path by two moves orders the results as the moves.
proof fn lemma_push_rank(a: Seq<Move>, m1: Move, m2: Move)
    requires
        rank(m1) < rank(m2),
    ensures
        before(a.push(m1), a.push(m2)),
{
    assert(a.push(m1).drop_last() =~= a);
    assert(a.push(m2).drop_last() =~= a);
}

/// Two answers that both meet the planner's statement are the same move: the
/// planner's answer is a function of the observation alone, so identical
/// observations get identical answers.
pub proof fn lemma_planned_unique(
    c: (int, int, Direction),
    r1: Move,
    r2: Move,
    range: int,
    target: spec_fn((int, int, Direction)) -> bool,
    blocker: spec_fn((int, int, Direction)) -> bool,
    forbidden: spec_fn((int, int, Direction)) -> bool,
    width: int,
    height: int,
)
    requires
        planned(c, r1, range, target, blocker, forbidden, width, height),
        planned(c, r2, range, target, blocker, forbidden, width, height),
    ensures
        r1 == r2,
{
    let found = exists|path: Seq<Move>|
        #[trigger] leads_to_fire(c, path, range, target, blocker, forbidden, width, height);
    if found {
        let p1 = choose|path: Seq<Move>|
            #[trigger] leads_to_fire(c, path, range, target, blocker, forbidden, width, height)
                && (forall|q: Seq<Move>|
                #[trigger] leads_to_fire(c, q, range, target, blocker, forbidden, width, height)
                    ==> !before(q, path)) && r1 == first_move(path);
        let p2 = choose|path: Seq<Move>|
            #[trigger] leads_to_fire(c, path, range, target, blocker, forbidden, width, height)
                && (forall|q: Seq<Move>|
                #[trigger] leads_to_fire(c, q, range, target, blocker, forbidden, width, height)
                    ==> !before(q, path)) && r2 == first_move(path);
        lemma_before_order(p1, p2, p1);
    }
}

/// What the planner answers from state `c`: the first move of the open path
/// that comes first in the search order among those that end where a shot
/// strikes a target (`Fire` when that path is empty), or `Forward` when no
/// open path ends so.
pub open spec fn planned(
    c: (int, int, Direction),
    r: Move,
    range: int,
    target: spec_fn((int, int, Direction)) -> bool,
    blocker: spec_fn((int, int, Direction)) -> bool,
    forbidden: spec_fn((int, int, Direction)) -> bool,
    width: int,
    height: int,
) -> bool {
    ||| exists|path: Seq<Move>|
        #[trigger] leads_to_fire(c, path, range, target, blocker, forbidden, width, height)
            && (forall|q: Seq<Move>|
            #[trigger] leads_to_fire(c, q, range, target, blocker, forbidden, width, height)
                ==> !before(q, path)) && r == first_move(path)
    ||| r == Move::Forward && forall|path: Seq<Move>|
        #[trigger] open_path(c, path, forbidden, width, height) ==> !fire_goal(run(c, path), range, target, blocker)
}

/// When a shot from `c` already strikes a target, the planner's answer is
/// `Fire`.
pub proof fn lemma_planned_fires_when_aligned(
    c: (int, int, Direction),
    r: Move,
    range: int,
    target: spec_fn((int, int, Direction)) -> bool,
    blocker: spec_fn((int, int, Direction)) -> bool,
    forbidden: spec_fn((int, int, Direction)) -> bool,
    width: int,
    height: int,
)
    requires
        planned(c, r, range, target, blocker, forbidden, width, height),
        fire_goal(c, range, target, blocker),
    ensures
        r == Move::Fire,
{
    let empty = Seq::<Move>::empty();
    assert(run(c, empty) == c);
    assert(open_path(c, empty, forbidden, width, height));
    assert(leads_to_fire(c, empty, range, target, blocker, forbidden, width, height));
    if exists|path: Seq<Move>|
        #[trigger] leads_to_fire(c, path, range, target, blocker, forbidden, width, height)
            && (forall|q: Seq<Move>|
            #[trigger] leads_to_fire(c, q, range, target, blocker, forbidden, width, height)
                ==> !before(q, path)) && r == first_move(path) {
        let p = choose|path: Seq<Move>|
            #[trigger] leads_to_fire(c, path, range, target, blocker, forbidden, width, height)
                && (forall|q: Seq<Move>|
                #[trigger] leads_to_fire(c, q, range, target, blocker, forbidden, width, height)
                    ==> !before(q, path)) && r == first_move(path);
        assert(!before(empty, p));
    }
}

/// Some opponent in the observation, living or dead as `alive` says, stands
/// on the cell of `c`.
pub open spec fn opponent_on(input: NextMoveInput, c: (int, int, Direction), alive: bool) -> bool {
    exists|k: int|
        0 <= k < input.opponent_status@.len() && (#[trigger] input.opponent_status@[k]).is_alive
            == alive && input.opponent_status@[k].location.x == c.0
            && input.opponent_status@[k].location.y == c.1
}

/// The cells of living opponents: what the planner shoots at.
pub open spec fn living_targets(input: NextMoveInput) -> spec_fn((int, int, Direction)) -> bool {
    |c: (int, int, Direction)| opponent_on(input, c, true)
}

/// The cells of dead opponents: they stop a shot.
pub open spec fn dead_blockers(input: NextMoveInput) -> spec_fn((int, int, Direction)) -> bool {
    |c: (int, int, Direction)| opponent_on(input, c, false)
}

/// The cells of all opponents: the planner never drives onto them.
pub open spec fn opponent_cells(input: NextMoveInput) -> spec_fn((int, int, Direction)) -> bool {
    |c: (int, int, Direction)| opponent_on(input, c, true) || opponent_on(input, c, false)
}

proof fn lemma_tagged_concat(a: Seq<Position>, b: Seq<Position>, c: (int, int, Direction))
    ensures
        tagged(a + b, c) <==> tagged(a, c) || tagged(b, c),
{
    let v = a + b;
    if tagged(v, c) {
        let i = choose|i: int| 0 <= i < v.len() && #[trigger] v[i].place() == c;
        if i < a.len() {
            assert(v[i] == a[i]);
        } else {
            assert(v[i] == b[i - a.len()]);
        }
    }
    if tagged(a, c) {
        let i = choose|i: int| 0 <= i < a.len() && #[trigger] a[i].place() == c;
        assert(v[i] == a[i]);
    }
    if tagged(b, c) {
        let i = choose|i: int| 0 <= i < b.len() && #[trigger] b[i].place() == c;
        assert(v[i + a.len()] == b[i]);
    }
}

/// A node of the search: a state and the moves that lead to it.
#[derive(Debug)]
pub struct Position {
    pub point: BoardPoint,
    pub direction: Direction,
    pub moves: VecDeque<Move>,
}

impl Default for Position {
    fn default() -> (r: Self)
        ensures
            r.point == (BoardPoint { x: 0, y: 0 }),
            r.direction == Direction::North,
            r.moves@.len() == 0,
    {
        Position { point: BoardPoint::default(), direction: Direction::default(), moves: VecDeque::new() }
    }
}

/// Two positions are equal when they stand on the same state, whatever moves
/// led to them.
impl PartialEq for Position {
    fn eq(&self, other: &Position) -> (r: bool) {
        self.point == other.point && self.direction == other.direction
    }
}

impl vstd::std_specs::cmp::PartialEqSpecImpl for Position {
    open spec fn obeys_eq_spec() -> bool {
        true
    }

    open spec fn eq_spec(&self, other: &Position) -> bool {
        self.place() == other.place()
    }
}

/// Whether some position of `v` stands on the state of `p`.
fn contains_place(v: &Vec<Position>, p: &Position) -> (r: bool)
    ensures
        r == tagged(v@, p.place()),
{
    let mut i: usize = 0;
    while i < v.len()
        invariant
            i <= v@.len(),
            forall|k: int| 0 <= k < i ==> #[trigger] v@[k].place() != p.place(),
        decreases v@.len() - i,
    {
        if v[i] == *p {
            assert(v@[i as int].place() == p.place());
            return true;
        }
        i += 1;
    }
    false
}

/// `moves` with `m` appended.
fn extended(moves: &VecDeque<Move>, m: Move) -> (r: VecDeque<Move>)
    ensures
        r@ == moves@.push(m),
{
    let mut r: VecDeque<Move> = VecDeque::new();
    let mut i: usize = 0;
    while i < moves.len()
        invariant
            i <= moves@.len(),
            r@ == moves@.subrange(0, i as int),
        decreases moves@.len() - i,
    {
        r.push_back(moves[i]);
        i += 1;
        assert(r@ =~= moves@.subrange(0, i as int));
    }
    r.push_back(m);
    assert(r@ =~= moves@.push(m));
    r
}

impl Position {
    pub open spec fn place(&self) -> (int, int, Direction) {
        place_at(self.point, self.direction)
    }

    pub fn new(point: BoardPoint, direction: Direction) -> (r: Self)
        ensures
            r.point == point,
            r.direction == direction,
            r.moves@.len() == 0,
    {
        Position { point, direction, moves: VecDeque::new() }
    }

    /// The four positions on `point`, facing north, east, south and west.
    pub fn all(point: BoardPoint) -> (r: Vec<Self>)
        ensures
            r@.len() == 4,
            r@[0].place() == place_at(point, Direction::North),
            r@[1].place() == place_at(point, Direction::East),
            r@[2].place() == place_at(point, Direction::South),
            r@[3].place() == place_at(point, Direction::West),
            forall|k: int| 0 <= k < 4 ==> (#[trigger] r@[k]).moves@.len() == 0,
            forall|c: (int, int, Direction)| tagged(r@, c) <==> c.0 == point.x && c.1 == point.y,
    {
        let r = vec![
            Position::new(point, Direction::North),
            Position::new(point, Direction::East),
            Position::new(point, Direction::South),
            Position::new(point, Direction::West),
        ];
        assert forall|c: (int, int, Direction)| c.0 == point.x && c.1 == point.y implies tagged(r@, c) by {
            match c.2 {
                Direction::North => assert(r@[0].place() == c),
                Direction::East => assert(r@[1].place() == c),
                Direction::South => assert(r@[2].place() == c),
                Direction::West => assert(r@[3].place() == c),
            }
        }
        r
    }

    pub fn is_valid(&self, width: usize, height: usize) -> (r: bool)
        requires
            width <= isize::MAX,
            height <= isize::MAX,
        ensures
            r == on_board(self.place(), width as int, height as int),
    {
        0 <= self.point.x && self.point.x < width as isize && 0 <= self.point.y && self.point.y
            < height as isize
    }

    /// One cell ahead, with `Forward` added to the moves.
    pub fn drive(&self) -> (r: Position)
        requires
            isize::MIN < self.point.x < isize::MAX,
            isize::MIN < self.point.y < isize::MAX,
        ensures
            r.place() == advance(self.place(), Move::Forward),
            r.moves@ == self.moves@.push(Move::Forward),
    {
        Position {
            point: self.point.with_offset(self.direction, 1),
            direction: self.direction,
            moves: extended(&self.moves, Move::Forward),
        }
    }

    /// A quarter turn right, with `TurnRight` added to the moves.
    pub fn clockwise(&self) -> (r: Position)
        ensures
            r.place() == advance(self.place(), Move::TurnRight),
            r.moves@ == self.moves@.push(Move::TurnRight),
    {
        Position {
            point: self.point,
            direction: self.direction.clockwise(),
            moves: extended(&self.moves, Move::TurnRight),
        }
    }

    /// A quarter turn left, with `TurnLeft` added to the moves.
    pub fn counter_clockwise(&self) -> (r: Position)
        ensures
            r.place() == advance(self.place(), Move::TurnLeft),
            r.moves@ == self.moves@.push(Move::TurnLeft),
    {
        Position {
            point: self.point,
            direction: self.direction.counter_clockwise(),
            moves: extended(&self.moves, Move::TurnLeft),
        }
    }

    /// The states ahead that a shot passes, in order, up to `fire_range - 1`
    /// cells: it stops before the first one that a dead position holds.
    pub fn fire(&self, fire_range: usize, dead_positions: &Vec<Position>) -> (r: Vec<Position>)
        requires
            reach_fits(self.point, fire_range as int),
        ensures
            r@.len() == 0 || r@.len() < fire_range,
            fire_prefix(self.place(), r@, dead_positions@),
            r@.len() + 1 >= fire_range || tagged(dead_positions@, probe(self.place(), r@.len() as int + 1)),
    {
        let mut positions: Vec<Position> = Vec::new();
        let mut point = self.point;
        let mut i: usize = 1;
        let mut stopped = false;
        while i < fire_range && !stopped
            invariant
                reach_fits(self.point, fire_range as int),
                1 <= i,
                i == 1 || i <= fire_range,
                positions@.len() == i - 1,
                place_at(point, self.direction) == probe(self.place(), i - 1),
                fire_prefix(self.place(), positions@, dead_positions@),
                stopped ==> i < fire_range && tagged(dead_positions@, probe(self.place(), i as int)),
            decreases fire_range - i + if stopped { 0int } else { 1 },
        {
            let test = Position::new(point.with_offset(self.direction, 1), self.direction);
            assert(test.place() == probe(self.place(), i as int));
            if contains_place(dead_positions, &test) {
                stopped = true;
            } else {
                point = test.point;
                let ghost before = positions@;
                positions.push(test);
                assert forall|k: int| 0 <= k < positions@.len() implies (#[trigger] positions@[k]).place()
                    == probe(self.place(), k + 1) && !tagged(dead_positions@, probe(self.place(), k + 1))
                    && positions@[k].moves@.len() == 0 by {
                    if k < before.len() {
                        assert(positions@[k] == before[k]);
                    }
                }
                i += 1;
            }
        }
        positions
    }

    /// Whether a shot from this state strikes a position of `search` before
    /// any position of `dead_positions`, within `fire_range - 1` cells.
    pub fn is_fire_position(&self, search: &Vec<Position>, fire_range: usize, dead_positions: &Vec<Position>) -> (r:
        bool)
        requires
            reach_fits(self.point, fire_range as int),
        ensures
            r == fire_goal(self.place(), fire_range as int, tags(search@), tags(dead_positions@)),
    {
        let possible = self.fire(fire_range, dead_positions);
        let ghost c = self.place();
        let mut a: usize = 0;
        while a < possible.len()
            invariant
                c == self.place(),
                a <= possible@.len(),
                possible@.len() == 0 || possible@.len() < fire_range,
                forall|k: int| 0 <= k < a ==> !tagged(search@, #[trigger] possible@[k].place()),
                fire_prefix(self.place(), possible@, dead_positions@),
            decreases possible@.len() - a,
        {
            if contains_place(search, &possible[a]) {
                proof {
                    let i = a + 1;
                    assert(possible@[a as int].place() == probe(c, i));
                    assert forall|j: int| 1 <= j <= i implies !tags(dead_positions@)(#[trigger] probe(c, j)) by {
                        assert(possible@[j - 1].place() == probe(c, j));
                    }
                    assert(tags(search@)(probe(c, i)));
                }
                return true;
            }
            a += 1;
        }
        proof {
            if fire_goal(c, fire_range as int, tags(search@), tags(dead_positions@)) {
                let i = choose|i: int|
                    1 <= i < fire_range && tags(search@)(#[trigger] probe(c, i)) && forall|j: int|
                        1 <= j <= i ==> !tags(dead_positions@)(#[trigger] probe(c, j));
                let n = possible@.len() as int;
                if i <= n {
                    assert(possible@[i - 1].place() == probe(c, i));
                } else {
                    assert(!tags(dead_positions@)(probe(c, n + 1)));
                }
            }
        }
        false
    }
}

/// Some expanded path, no later than `p`, reaches the state that `p` reaches.
pub open spec fn covered(c: (int, int, Direction), done: Seq<Seq<Move>>, p: Seq<Move>) -> bool {
    exists|k: int| 0 <= k < done.len() && run(c, #[trigger] done[k]) == run(c, p) && no_later(done[k], p)
}

/// From the `k`-th expanded path, move `m` reaches either a state off the
/// board or forbidden, or one that an expanded or queued path, no later than
/// the extended path, reaches.
pub open spec fn closed_at(
    c: (int, int, Direction),
    done: Seq<Seq<Move>>,
    queue: Seq<Position>,
    k: int,
    m: Move,
    forbidden: spec_fn((int, int, Direction)) -> bool,
    width: int,
    height: int,
) -> bool {
    let s = advance(run(c, done[k]), m);
    on_board(s, width, height) && !forbidden(s) ==> {
        ||| exists|k2: int|
            0 <= k2 < done.len() && run(c, #[trigger] done[k2]) == s && no_later(done[k2], done[k].push(m))
        ||| exists|j: int|
            0 <= j < queue.len() && (#[trigger] queue[j]).place() == s && no_later(
                queue[j].moves@,
                done[k].push(m),
            )
    }
}

proof fn lemma_open_prefix(
    c: (int, int, Direction),
    path: Seq<Move>,
    forbidden: spec_fn((int, int, Direction)) -> bool,
    width: int,
    height: int,
)
    requires
        open_path(c, path, forbidden, width, height),
        path.len() > 0,
    ensures
        open_path(c, path.drop_last(), forbidden, width, height),
        run(c, path) == advance(run(c, path.drop_last()), path.last()),
        steering(path.last()),
        on_board(run(c, path), width, height),
        !forbidden(run(c, path)),
{
    let prefix = path.drop_last();
    assert forall|k: int| 0 <= k < prefix.len() implies steering(#[trigger] prefix[k]) by {
        assert(prefix[k] == path[k]);
    }
    assert forall|k: int| 1 <= k <= prefix.len() implies on_board(
        #[trigger] run(c, prefix.take(k)),
        width,
        height,
    ) && !forbidden(run(c, prefix.take(k))) by {
        assert(prefix.take(k) =~= path.take(k));
        assert(run(c, path.take(k)) == run(c, prefix.take(k)));
    }
    assert(path.take(path.len() as int) =~= path);
    assert(run(c, path.take(path.len() as int)) == run(c, path));
    assert(steering(path[path.len() - 1]));
}

/// Every open path that comes before the queue's front, or every open path
/// once the queue is empty, is covered by the expanded paths, given that the
/// paths before the last expanded one were.
proof fn lemma_frontier(
    c: (int, int, Direction),
    p: Seq<Move>,
    forbidden: spec_fn((int, int, Direction)) -> bool,
    width: int,
    height: int,
    done: Seq<Seq<Move>>,
    queue: Seq<Position>,
)
    requires
        done.len() > 0,
        forall|k: int, m: Move|
            0 <= k < done.len() && steering(m) ==> #[trigger] closed_at(
                c,
                done,
                queue,
                k,
                m,
                forbidden,
                width,
                height,
            ),
        forall|q: Seq<Move>|
            #[trigger] open_path(c, q, forbidden, width, height) && before(q, done.last()) ==> covered(
                c,
                done,
                q,
            ),
        forall|i: int, j: int|
            0 <= i < j < queue.len() ==> before(#[trigger] queue[i].moves@, #[trigger] queue[j].moves@),
        open_path(c, p, forbidden, width, height),
        queue.len() == 0 || before(p, queue[0].moves@),
    ensures
        covered(c, done, p),
    decreases p.len(),
{
    let x = done.last();
    lemma_before_order(p, x, p);
    if before(p, x) {
    } else if p == x {
        assert(run(c, done[done.len() - 1]) == run(c, p));
    } else {
        assert(p.len() > 0);
        let p1 = p.drop_last();
        let m = p.last();
        lemma_open_prefix(c, p, forbidden, width, height);
        if queue.len() > 0 {
            lemma_before_order(p1, p, queue[0].moves@);
        }
        lemma_frontier(c, p1, forbidden, width, height, done, queue);
        let k = choose|k: int| 0 <= k < done.len() && run(c, #[trigger] done[k]) == run(c, p1) && no_later(done[k], p1);
        assert(closed_at(c, done, queue, k, m, forbidden, width, height));
        let ext = done[k].push(m);
        assert(p =~= p1.push(m));
        if done[k] != p1 {
            lemma_before_push(done[k], p1, m, m);
        }
        assert(no_later(ext, p));
        let s = advance(run(c, done[k]), m);
        assert(s == run(c, p));
        if exists|k2: int| 0 <= k2 < done.len() && run(c, #[trigger] done[k2]) == s && no_later(done[k2], ext) {
            let k2 = choose|k2: int| 0 <= k2 < done.len() && run(c, #[trigger] done[k2]) == s && no_later(done[k2], ext);
            lemma_before_order(done[k2], ext, p);
        } else {
            let j = choose|j: int| 0 <= j < queue.len() && (#[trigger] queue[j]).place() == s && no_later(queue[j].moves@, ext);
            let qj = queue[j].moves@;
            lemma_before_order(qj, ext, p);
            lemma_before_order(qj, p, queue[0].moves@);
            if j > 0 {
                assert(before(queue[0].moves@, queue[j].moves@));
                lemma_before_order(p, queue[0].moves@, qj);
                lemma_before_order(qj, p, qj);
            } else {
                lemma_before_order(qj, p, qj);
            }
        }
    }
}

/// One step of the search keeps its invariants: the front node `current` is
/// expanded (it is no goal), and its successors are queued as
/// `enqueue_if_open` queues them.
#[verifier::rlimit(100)]
proof fn lemma_queue_step(
    c0: (int, int, Direction),
    forbidden: spec_fn((int, int, Direction)) -> bool,
    w: int,
    h: int,
    range: int,
    target: spec_fn((int, int, Direction)) -> bool,
    blocker: spec_fn((int, int, Direction)) -> bool,
    n0: int,
    init: Seq<Position>,
    old_done: Seq<Seq<Move>>,
    old_queue: Seq<Position>,
    old_seen: Seq<Position>,
    current: Position,
    rest: Seq<Position>,
    dp: Position,
    cwp: Position,
    ccwp: Position,
    q1: Seq<Position>,
    q2: Seq<Position>,
    q3: Seq<Position>,
    pushed: Seq<Position>,
    done: Seq<Seq<Move>>,
)
    requires
        n0 == init.len(),
        forbidden == tags(init),
        n0 <= old_seen.len(),
        old_seen.subrange(0, n0) == init,
        old_done.len() == old_seen.len() - n0,
        forall|k: int| 0 <= k < old_done.len() ==> old_seen[n0 + k].place() == run(c0, #[trigger] old_done[k]),
        forall|k: int|
            0 <= k < old_done.len() ==> !fire_goal(run(c0, #[trigger] old_done[k]), range, target, blocker),
        forall|k1: int, k2: int|
            0 <= k1 < k2 < old_done.len() ==> before(#[trigger] old_done[k1], #[trigger] old_done[k2]),
        forall|k: int, j: int|
            0 <= k < old_done.len() && 0 <= j < old_queue.len() ==> before(
                #[trigger] old_done[k],
                (#[trigger] old_queue[j]).moves@,
            ),
        forall|i: int, j: int|
            0 <= i < j < old_queue.len() ==> before(#[trigger] old_queue[i].moves@, #[trigger] old_queue[j].moves@),
        forall|j: int|
            0 <= j < old_queue.len() && (#[trigger] old_queue[j]).moves@.len() > 0 ==> old_done.len() > 0
                && no_later(old_queue[j].moves@.drop_last(), old_done.last()),
        forall|j: int|
            0 <= j < old_queue.len() ==> on_board((#[trigger] old_queue[j]).place(), w, h) && run(
                c0,
                old_queue[j].moves@,
            ) == old_queue[j].place() && open_path(c0, old_queue[j].moves@, forbidden, w, h),
        forall|k: int, m: Move|
            0 <= k < old_done.len() && steering(m) ==> #[trigger] closed_at(
                c0,
                old_done,
                old_queue,
                k,
                m,
                forbidden,
                w,
                h,
            ),
        forall|p: Seq<Move>|
            #[trigger] open_path(c0, p, forbidden, w, h) && (old_queue.len() == 0 || before(
                p,
                old_queue[0].moves@,
            )) ==> covered(c0, old_done, p),
        old_queue == seq![current] + rest,
        pushed.len() == old_seen.len() + 1,
        pushed.subrange(0, old_seen.len() as int) == old_seen,
        pushed[old_seen.len() as int].place() == current.place(),
        done == old_done.push(current.moves@),
        !fire_goal(current.place(), range, target, blocker),
        dp.place() == advance(current.place(), Move::Forward),
        dp.moves@ == current.moves@.push(Move::Forward),
        cwp.place() == advance(current.place(), Move::TurnRight),
        cwp.moves@ == current.moves@.push(Move::TurnRight),
        ccwp.place() == advance(current.place(), Move::TurnLeft),
        ccwp.moves@ == current.moves@.push(Move::TurnLeft),
        q1 == (if on_board(dp.place(), w, h) && !tagged(pushed, dp.place()) { rest.push(dp) } else { rest }),
        q2 == (if on_board(cwp.place(), w, h) && !tagged(pushed, cwp.place()) { q1.push(cwp) } else { q1 }),
        q3 == (if on_board(ccwp.place(), w, h) && !tagged(pushed, ccwp.place()) { q2.push(ccwp) } else { q2 }),
    ensures
        pushed.subrange(0, n0) == init,
        done.len() == pushed.len() - n0,
        forall|k: int| 0 <= k < done.len() ==> pushed[n0 + k].place() == run(c0, #[trigger] done[k]),
        forall|k: int| 0 <= k < done.len() ==> !fire_goal(run(c0, #[trigger] done[k]), range, target, blocker),
        forall|k1: int, k2: int| 0 <= k1 < k2 < done.len() ==> before(#[trigger] done[k1], #[trigger] done[k2]),
        forall|k: int, j: int|
            0 <= k < done.len() && 0 <= j < q3.len() ==> before(#[trigger] done[k], (#[trigger] q3[j]).moves@),
        forall|i: int, j: int| 0 <= i < j < q3.len() ==> before(#[trigger] q3[i].moves@, #[trigger] q3[j].moves@),
        forall|j: int|
            0 <= j < q3.len() && (#[trigger] q3[j]).moves@.len() > 0 ==> done.len() > 0 && no_later(
                q3[j].moves@.drop_last(),
                done.last(),
            ),
        forall|j: int|
            0 <= j < q3.len() ==> on_board((#[trigger] q3[j]).place(), w, h) && run(c0, q3[j].moves@)
                == q3[j].place() && open_path(c0, q3[j].moves@, forbidden, w, h),
        forall|k: int, m: Move|
            0 <= k < done.len() && steering(m) ==> #[trigger] closed_at(c0, done, q3, k, m, forbidden, w, h),
        forall|p: Seq<Move>|
            #[trigger] open_path(c0, p, forbidden, w, h) && (q3.len() == 0 || before(p, q3[0].moves@))
                ==> covered(c0, done, p),
{
    let x = current.moves@;
    let L = old_done.len() as int;
    assert(old_queue[0] == current);
    assert(pushed.subrange(0, n0) =~= init) by {
        assert(pushed.subrange(0, n0) =~= old_seen.subrange(0, n0));
    }
    assert forall|k: int| 0 <= k < done.len() implies pushed[n0 + k].place() == run(c0, #[trigger] done[k]) by {
        if k < L {
            assert(done[k] == old_done[k]);
            assert(pushed[n0 + k] == old_seen[n0 + k]);
        }
    }
    assert forall|k: int| 0 <= k < done.len() implies !fire_goal(run(c0, #[trigger] done[k]), range, target, blocker) by {
        if k < L {
            assert(done[k] == old_done[k]);
        }
    }
    // every expanded path comes no later than `x`
    assert forall|k: int| 0 <= k < L implies before(#[trigger] old_done[k], x) by {
        assert(before(old_done[k], old_queue[0].moves@));
    }
    assert forall|k1: int, k2: int| 0 <= k1 < k2 < done.len() implies before(
        #[trigger] done[k1],
        #[trigger] done[k2],
    ) by {
        assert(done[k1] == old_done[k1]);
        if k2 < L {
            assert(done[k2] == old_done[k2]);
        }
    }
    // the successors: what each queued child looks like
    assert forall|j: int| 0 <= j < rest.len() implies #[trigger] q3[j] == rest[j] && rest[j] == old_queue[j + 1] by {
        assert(q1[j] == rest[j]);
        assert(q2[j] == q1[j]);
        assert(q3[j] == q2[j]);
    }
    assert forall|j: int| rest.len() <= j < q3.len() implies {
        let m = (#[trigger] q3[j]).moves@.last();
        &&& steering(m)
        &&& q3[j].moves@ == x.push(m)
        &&& q3[j].place() == advance(current.place(), m)
        &&& on_board(q3[j].place(), w, h)
        &&& !tagged(pushed, q3[j].place())
        &&& forall|i: int| rest.len() <= i < j ==> rank((#[trigger] q3[i]).moves@.last()) < rank(m)
    } by {
        if j < q1.len() {
            assert(q3[j] == q1[j]);
            assert(q1[j] == dp);
            assert(dp.moves@.last() == Move::Forward);
        } else if j < q2.len() {
            assert(q3[j] == q2[j]);
            assert(q2[j] == cwp);
            assert(cwp.moves@.last() == Move::TurnRight);
            assert forall|i: int| rest.len() <= i < j implies rank((#[trigger] q3[i]).moves@.last()) < rank(
                Move::TurnRight,
            ) by {
                assert(q3[i] == q1[i]);
                assert(q1[i] == dp);
                assert(dp.moves@.last() == Move::Forward);
            }
        } else {
            assert(q3[j] == ccwp);
            assert(ccwp.moves@.last() == Move::TurnLeft);
            assert forall|i: int| rest.len() <= i < j implies rank((#[trigger] q3[i]).moves@.last()) < rank(
                Move::TurnLeft,
            ) by {
                if i < q1.len() {
                    assert(q3[i] == q1[i]);
                    assert(q1[i] == dp);
                    assert(dp.moves@.last() == Move::Forward);
                } else {
                    assert(q3[i] == q2[i]);
                    assert(q2[i] == cwp);
                    assert(cwp.moves@.last() == Move::TurnRight);
                }
            }
        }
    }
    // queued paths that were there before come before the children
    assert forall|j: int| 0 <= j < rest.len() implies before((#[trigger] rest[j]).moves@, x) || (rest[j].moves@.len() > 0
        && before(rest[j].moves@.drop_last(), x)) by {
        assert(before(old_queue[0].moves@, old_queue[j + 1].moves@));
        let r = rest[j].moves@;
        assert(r.len() > 0);
        assert(old_queue[j + 1].moves@.len() > 0);
        let dl = r.drop_last();
        assert(no_later(dl, old_done.last()));
        assert(before(old_done[L - 1], x));
        lemma_before_order(dl, old_done.last(), x);
    }
    assert forall|k: int, j: int| 0 <= k < done.len() && 0 <= j < q3.len() implies before(
        #[trigger] done[k],
        (#[trigger] q3[j]).moves@,
    ) by {
        if j < rest.len() {
            assert(q3[j] == old_queue[j + 1]);
            if k < L {
                assert(done[k] == old_done[k]);
            } else {
                assert(before(old_queue[0].moves@, old_queue[j + 1].moves@));
            }
        } else {
            let m = q3[j].moves@.last();
            assert(before(x, x.push(m)));
            if k < L {
                assert(done[k] == old_done[k]);
                lemma_before_order(old_done[k], x, x.push(m));
            }
        }
    }
    assert forall|i: int, j: int| 0 <= i < j < q3.len() implies before(
        #[trigger] q3[i].moves@,
        #[trigger] q3[j].moves@,
    ) by {
        if j < rest.len() {
            assert(before(old_queue[i + 1].moves@, old_queue[j + 1].moves@));
        } else {
            let m = q3[j].moves@.last();
            if i < rest.len() {
                let r = rest[i].moves@;
                assert(q3[i] == rest[i]);
                assert(r.len() > 0) by {
                    assert(before(old_queue[0].moves@, old_queue[i + 1].moves@));
                }
                assert(r =~= r.drop_last().push(r.last()));
                lemma_before_push(r.drop_last(), x, r.last(), m);
            } else {
                lemma_push_rank(x, q3[i].moves@.last(), m);
            }
        }
    }
    assert forall|j: int| 0 <= j < q3.len() && (#[trigger] q3[j]).moves@.len() > 0 implies done.len() > 0
        && no_later(q3[j].moves@.drop_last(), done.last()) by {
        if j < rest.len() {
            assert(before(old_queue[0].moves@, old_queue[j + 1].moves@));
        } else {
            let m = q3[j].moves@.last();
            assert(x.push(m).drop_last() =~= x);
        }
    }
    assert forall|s: (int, int, Direction)| tagged(init, s) implies tagged(pushed, s) by {
        let i = choose|i: int| 0 <= i < init.len() && #[trigger] init[i].place() == s;
        assert(pushed[i] == init[i]) by {
            assert(pushed[i] == old_seen[i]);
            assert(old_seen[i] == old_seen.subrange(0, n0)[i]);
        }
    }
    assert forall|j: int| 0 <= j < q3.len() implies on_board((#[trigger] q3[j]).place(), w, h) && run(
        c0,
        q3[j].moves@,
    ) == q3[j].place() && open_path(c0, q3[j].moves@, forbidden, w, h) by {
        if j < rest.len() {
            assert(q3[j] == old_queue[j + 1]);
        } else {
            let m = q3[j].moves@.last();
            assert(!tagged(init, q3[j].place()));
            lemma_path_step(c0, x, m, forbidden, w, h);
        }
    }
    // closure of the expanded paths
    assert forall|k: int, m: Move| 0 <= k < done.len() && steering(m) implies #[trigger] closed_at(
        c0,
        done,
        q3,
        k,
        m,
        forbidden,
        w,
        h,
    ) by {
        let s = advance(run(c0, done[k]), m);
        if on_board(s, w, h) && !forbidden(s) {
            if k < L {
                assert(done[k] == old_done[k]);
                assert(closed_at(c0, old_done, old_queue, k, m, forbidden, w, h));
                let ext = old_done[k].push(m);
                if exists|k2: int|
                    0 <= k2 < old_done.len() && run(c0, #[trigger] old_done[k2]) == s && no_later(old_done[k2], ext) {
                    let k2 = choose|k2: int|
                        0 <= k2 < old_done.len() && run(c0, #[trigger] old_done[k2]) == s && no_later(old_done[k2], ext);
                    assert(done[k2] == old_done[k2]);
                } else {
                    let j = choose|j: int|
                        0 <= j < old_queue.len() && (#[trigger] old_queue[j]).place() == s && no_later(
                            old_queue[j].moves@,
                            ext,
                        );
                    if j == 0 {
                        assert(done[L] == x);
                        assert(run(c0, done[L]) == s);
                    } else {
                        assert(q3[j - 1] == old_queue[j]);
                    }
                }
            } else {
                assert(done[k] == x);
                assert(run(c0, x) == current.place());
                if tagged(pushed, s) {
                    let i = choose|i: int| 0 <= i < pushed.len() && #[trigger] pushed[i].place() == s;
                    if i < n0 {
                        assert(pushed[i] == init[i]) by {
                            assert(pushed[i] == old_seen[i]);
                            assert(old_seen[i] == old_seen.subrange(0, n0)[i]);
                        }
                        assert(tagged(init, s));
                    } else {
                        let k2 = i - n0;
                        assert(run(c0, done[k2]) == s);
                        assert(before(x, x.push(m)));
                        if k2 < L {
                            assert(done[k2] == old_done[k2]);
                            lemma_before_order(old_done[k2], x, x.push(m));
                        }
                        assert(no_later(done[k2], done[k].push(m)));
                    }
                } else {
                    if m == Move::Forward {
                        assert(q1 == rest.push(dp));
                        assert(q3[rest.len() as int] == dp) by {
                            assert(q2[rest.len() as int] == q1[rest.len() as int]);
                        }
                    } else if m == Move::TurnRight {
                        assert(q2 == q1.push(cwp));
                        assert(q3[q1.len() as int] == cwp);
                    } else {
                        assert(q3 == q2.push(ccwp));
                        assert(q3[q2.len() as int] == ccwp);
                    }
                }
            }
        }
    }
    // every open path before the new front is covered
    assert forall|q: Seq<Move>| #[trigger] open_path(c0, q, forbidden, w, h) && before(q, done.last()) implies covered(
        c0,
        done,
        q,
    ) by {
        assert(covered(c0, old_done, q));
        let k = choose|k: int|
            0 <= k < old_done.len() && run(c0, #[trigger] old_done[k]) == run(c0, q) && no_later(old_done[k], q);
        assert(done[k] == old_done[k]);
    }
    assert forall|p: Seq<Move>| #[trigger] open_path(c0, p, forbidden, w, h) && (q3.len() == 0 || before(
        p,
        q3[0].moves@,
    )) implies covered(c0, done, p) by {
        lemma_frontier(c0, p, forbidden, w, h, done, q3);
    }
}

/// Adds `position` at the back of `queue` when it is on the board and no
/// position of `visited` stands on its state.
fn enqueue_if_open(
    queue: &mut VecDeque<Position>,
    visited: &Vec<Position>,
    position: Position,
    width: usize,
    height: usize,
)
    requires
        width <= isize::MAX,
        height <= isize::MAX,
    ensures
        if on_board(position.place(), width as int, height as int) && !tagged(visited@, position.place()) {
            final(queue)@ == old(queue)@.push(position)
        } else {
            final(queue)@ == old(queue)@
        },
{
    if position.is_valid(width, height) && !contains_place(visited, &position) {
        queue.push_back(position);
    }
}

/// Searches for the shortest way into a firing line against a living
/// opponent.
#[derive(Debug)]
pub struct FireFire {
    pub name: String,
    pub author: String,
}

impl FireFire {
    pub fn name(&self) -> (r: String)
        ensures
            r@ == self.name@,
    {
        self.name.clone()
    }

    pub fn author(&self) -> (r: String)
        ensures
            r@ == self.author@,
    {
        self.author.clone()
    }

    /// Plans from the observation: targets are the living opponents, dead
    /// ones block shots, and no opponent's cell is ever entered.
    pub fn next_move(&self, input: &NextMoveInput) -> (r: Move)
        requires
            input.wf(),
        ensures
            planned(
                place_at(input.own_status.location, input.own_status.direction),
                r,
                input.fire_range as int,
                living_targets(*input),
                dead_blockers(*input),
                opponent_cells(*input),
                input.game_board.width as int,
                input.game_board.height as int,
            ),
            fire_goal(
                place_at(input.own_status.location, input.own_status.direction),
                input.fire_range as int,
                living_targets(*input),
                dead_blockers(*input),
            ) ==> r == Move::Fire,
    {
        let my_position = Position::new(input.own_status.location, input.own_status.direction);
        let mut alive_positions: Vec<Position> = Vec::new();
        let mut dead_positions: Vec<Position> = Vec::new();
        let mut visited: Vec<Position> = Vec::new();
        let opponents = &input.opponent_status;
        let mut idx: usize = 0;
        while idx < opponents.len()
            invariant
                idx <= opponents@.len(),
                opponents@ == input.opponent_status@,
                forall|c: (int, int, Direction)|
                    #![trigger tagged(alive_positions@, c)]
                    tagged(alive_positions@, c) <==> exists|k: int|
                        0 <= k < idx && (#[trigger] opponents@[k]).is_alive
                            && opponents@[k].location.x == c.0 && opponents@[k].location.y == c.1,
                forall|c: (int, int, Direction)|
                    #![trigger tagged(dead_positions@, c)]
                    tagged(dead_positions@, c) <==> exists|k: int|
                        0 <= k < idx && !(#[trigger] opponents@[k]).is_alive
                            && opponents@[k].location.x == c.0 && opponents@[k].location.y == c.1,
                forall|c: (int, int, Direction)|
                    #![trigger tagged(visited@, c)]
                    tagged(visited@, c) <==> tagged(alive_positions@, c) || tagged(dead_positions@, c),
            decreases opponents@.len() - idx,
        {
            let other = &opponents[idx];
            let ghost before_alive = alive_positions@;
            let ghost before_dead = dead_positions@;
            let ghost before_visited = visited@;
            let mut positions = Position::all(other.location);
            let mut seen = Position::all(other.location);
            let ghost added = positions@;
            if other.is_alive {
                alive_positions.append(&mut positions);
            } else {
                dead_positions.append(&mut positions);
            }
            let ghost seen_view = seen@;
            visited.append(&mut seen);
            proof {
                assert forall|c: (int, int, Direction)| tagged(alive_positions@, c) <==> exists|k: int|
                    0 <= k < idx + 1 && (#[trigger] opponents@[k]).is_alive && opponents@[k].location.x
                        == c.0 && opponents@[k].location.y == c.1 by {
                    if other.is_alive {
                        lemma_tagged_concat(before_alive, added, c);
                    }
                    if c.0 == other.location.x && c.1 == other.location.y && other.is_alive {
                        assert(opponents@[idx as int] == *other);
                    }
                }
                assert forall|c: (int, int, Direction)| tagged(dead_positions@, c) <==> exists|k: int|
                    0 <= k < idx + 1 && !(#[trigger] opponents@[k]).is_alive
                        && opponents@[k].location.x == c.0 && opponents@[k].location.y == c.1 by {
                    if !other.is_alive {
                        lemma_tagged_concat(before_dead, added, c);
                    }
                    if c.0 == other.location.x && c.1 == other.location.y && !other.is_alive {
                        assert(opponents@[idx as int] == *other);
                    }
                }
                assert forall|c: (int, int, Direction)| tagged(visited@, c) <==> tagged(alive_positions@, c)
                    || tagged(dead_positions@, c) by {
                    lemma_tagged_concat(before_visited, seen_view, c);
                    lemma_tagged_concat(before_alive, added, c);
                    lemma_tagged_concat(before_dead, added, c);
                }
            }
            idx += 1;
        }
        proof {
            assert(tags(alive_positions@) =~= living_targets(*input));
            assert(tags(dead_positions@) =~= dead_blockers(*input));
            assert(tags(visited@) =~= opponent_cells(*input));
        }
        self.find_move_to_closest_fire(
            my_position,
            alive_positions,
            visited,
            input.fire_range,
            dead_positions,
            input.game_board.width,
            input.game_board.height,
        )
    }

    /// Breadth-first search over states from `root`, trying from each state
    /// an advance, a right turn and a left turn, in that order, and never
    /// entering a state of `visited`. At the first state from which a shot
    /// strikes a position of `search` before any of `dead_positions`, returns
    /// the first move of the path to it, or `Fire` when that state is `root`:
    /// that path is the shortest such, and among the shortest the first in
    /// the search order. Returns `Forward` when no such state can be reached.
    #[verifier::rlimit(100)]
    pub fn find_move_to_closest_fire(
        &self,
        root: Position,
        search: Vec<Position>,
        visited: Vec<Position>,
        fire_range: usize,
        dead_positions: Vec<Position>,
        width: usize,
        height: usize,
    ) -> (r: Move)
        requires
            width + fire_range <= isize::MAX,
            height + fire_range <= isize::MAX,
            on_board(root.place(), width as int, height as int),
            root.moves@.len() == 0,
        ensures
            planned(
                root.place(),
                r,
                fire_range as int,
                tags(search@),
                tags(dead_positions@),
                tags(visited@),
                width as int,
                height as int,
            ),
            fire_goal(root.place(), fire_range as int, tags(search@), tags(dead_positions@)) ==> r == Move::Fire,
    {
        let ghost init = visited@;
        let ghost n0 = visited@.len() as int;
        let ghost c0 = root.place();
        let ghost w = width as int;
        let ghost h = height as int;
        let ghost range = fire_range as int;
        let ghost target = tags(search@);
        let ghost blocker = tags(dead_positions@);
        let ghost forbidden = tags(init);
        let ghost mut done: Seq<Seq<Move>> = Seq::empty();
        let mut seen = visited;
        let mut queue: VecDeque<Position> = VecDeque::new();
        queue.push_back(Position::new(root.point, root.direction));
        assert(run(c0, queue@[0].moves@) == c0);
        assert(seen@.subrange(0, n0) =~= init);
        while queue.len() > 0
            invariant
                width + fire_range <= isize::MAX,
                height + fire_range <= isize::MAX,
                c0 == root.place(),
                init == visited@,
                w == width as int,
                h == height as int,
                range == fire_range as int,
                on_board(c0, w, h),
                target == tags(search@),
                blocker == tags(dead_positions@),
                forbidden == tags(init),
                n0 == init.len(),
                n0 <= seen@.len(),
                seen@.len() == seen.len(),
                seen@.subrange(0, n0) == init,
                done.len() == seen@.len() - n0,
                forall|k: int| 0 <= k < done.len() ==> seen@[n0 + k].place() == run(c0, #[trigger] done[k]),
                forall|k: int|
                    0 <= k < done.len() ==> !fire_goal(run(c0, #[trigger] done[k]), range, target, blocker),
                forall|k1: int, k2: int|
                    0 <= k1 < k2 < done.len() ==> before(#[trigger] done[k1], #[trigger] done[k2]),
                forall|k: int, j: int|
                    0 <= k < done.len() && 0 <= j < queue@.len() ==> before(
                        #[trigger] done[k],
                        (#[trigger] queue@[j]).moves@,
                    ),
                forall|i: int, j: int|
                    0 <= i < j < queue@.len() ==> before(#[trigger] queue@[i].moves@, #[trigger] queue@[j].moves@),
                forall|j: int|
                    0 <= j < queue@.len() && (#[trigger] queue@[j]).moves@.len() > 0 ==> done.len() > 0 && no_later(
                        queue@[j].moves@.drop_last(),
                        done.last(),
                    ),
                done.len() == 0 ==> queue@.len() == 1 && queue@[0].place() == c0 && queue@[0].moves@.len() == 0,
                forall|j: int|
                    0 <= j < queue@.len() ==> on_board((#[trigger] queue@[j]).place(), w, h) && run(
                        c0,
                        queue@[j].moves@,
                    ) == queue@[j].place() && open_path(c0, queue@[j].moves@, forbidden, w, h),
                forall|k: int, m: Move|
                    0 <= k < done.len() && steering(m) ==> #[trigger] closed_at(
                        c0,
                        done,
                        queue@,
                        k,
                        m,
                        forbidden,
                        w,
                        h,
                    ),
                forall|p: Seq<Move>|
                    #[trigger] open_path(c0, p, forbidden, w, h) && (queue@.len() == 0 || before(
                        p,
                        queue@[0].moves@,
                    )) ==> covered(c0, done, p),
            decreases usize::MAX - seen@.len(),
        {
            let ghost old_queue = queue@;
            let ghost old_seen = seen@;
            let ghost old_done = done;
            let current = match queue.pop_front() {
                Some(p) => p,
                None => {
                    return Move::Forward;
                },
            };
            let ghost rest = queue@;
            let ghost x = current.moves@;
            assert(old_queue[0] == current);
            assert(old_queue =~= seq![current] + rest);
            assert(run(c0, x) == current.place());
            assert(open_path(c0, x, forbidden, w, h));
            seen.push(Position::new(current.point, current.direction));
            proof {
                done = done.push(x);
            }
            let ghost pushed = seen@;
            assert(pushed.subrange(0, n0) =~= init);
            assert(pushed.subrange(0, old_seen.len() as int) =~= old_seen);
            assert(seen@.len() == seen.len());
            assert(reach_fits(current.point, fire_range as int));
            if current.is_fire_position(&search, fire_range, &dead_positions) {
                let mut moves = extended(&current.moves, Move::Fire);
                proof {
                    assert(leads_to_fire(c0, x, range, target, blocker, forbidden, w, h));
                    assert forall|q: Seq<Move>|
                        #[trigger] leads_to_fire(c0, q, range, target, blocker, forbidden, w, h) implies !before(
                        q,
                        x,
                    ) by {
                        if before(q, x) {
                            assert(covered(c0, old_done, q));
                            let k = choose|k: int|
                                0 <= k < old_done.len() && run(c0, #[trigger] old_done[k]) == run(c0, q)
                                    && no_later(old_done[k], q);
                            assert(!fire_goal(run(c0, old_done[k]), range, target, blocker));
                        }
                    }
                    if x.len() > 0 {
                        assert(moves@[0] == x[0]);
                    } else {
                        assert(moves@[0] == Move::Fire);
                    }
                    assert(moves@[0] == first_move(x));
                    if fire_goal(c0, range, target, blocker) {
                        lemma_planned_fires_when_aligned(c0, moves@[0], range, target, blocker, forbidden, w, h);
                    }
                }
                return match moves.pop_front() {
                    Some(first) => first,
                    None => Move::Fire,
                };
            }
            let ghost cur_place = current.place();
            let d = current.drive();
            let ghost dp = d;
            enqueue_if_open(&mut queue, &seen, d, width, height);
            let ghost q1 = queue@;
            let cw = current.clockwise();
            let ghost cwp = cw;
            enqueue_if_open(&mut queue, &seen, cw, width, height);
            let ghost q2 = queue@;
            let ccw = current.counter_clockwise();
            let ghost ccwp = ccw;
            enqueue_if_open(&mut queue, &seen, ccw, width, height);
            proof {
                lemma_queue_step(
                    c0, forbidden, w, h, range, target, blocker, n0, init, old_done, old_queue, old_seen,
                    current, rest, dp, cwp, ccwp, q1, q2, queue@, pushed, done,
                );
            }
        }
        proof {
            assert forall|path: Seq<Move>| #[trigger] open_path(c0, path, forbidden, w, h) implies !fire_goal(run(c0, path), range, target, blocker) by {
                assert(covered(c0, done, path));
                let k = choose|k: int|
                    0 <= k < done.len() && run(c0, #[trigger] done[k]) == run(c0, path) && no_later(done[k], path);
                assert(!fire_goal(run(c0, done[k]), range, target, blocker));
            }
            assert(open_path(c0, Seq::<Move>::empty(), forbidden, w, h));
            assert(run(c0, Seq::<Move>::empty()) == c0);
        }
        Move::Forward
    }
}

impl Default for FireFire {
    fn default() -> (r: Self)
        ensures
            r.name@ == "FireFire"@,
            r.author@ == "Johan"@,
    {
        FireFire { name: "FireFire".to_owned(), author: "Johan".to_owned() }
    }
}

/// The decision procedure of one agent, chosen when the agent is made.
#[derive(Debug)]
pub enum Strategy {
    Dummy(Dummy),
    Random(Random),
    Slacker(Slacker),
    Spinner(Spinner),
    FireFire(FireFire),
}

impl Strategy {
    pub open spec fn wf(&self) -> bool {
        match self {
            Strategy::Dummy(d) => d.wf(),
            _ => true,
        }
    }

    /// The strategy's display name.
    pub open spec fn label(&self) -> Seq<char> {
        match self {
            Strategy::Dummy(d) => d.name@,
            Strategy::Random(d) => d.name@,
            Strategy::Slacker(d) => d.name@,
            Strategy::Spinner(d) => d.name@,
            Strategy::FireFire(d) => d.name@,
        }
    }

    /// The strategy's author.
    pub open spec fn author_label(&self) -> Seq<char> {
        match self {
            Strategy::Dummy(d) => d.author@,
            Strategy::Random(d) => d.author@,
            Strategy::Slacker(d) => d.author@,
            Strategy::Spinner(d) => d.author@,
            Strategy::FireFire(d) => d.author@,
        }
    }

    /// What the strategy may answer, and how its own state moves on.
    pub open spec fn answers(old_s: Strategy, new_s: Strategy, input: NextMoveInput, r: Move) -> bool {
        &&& new_s.wf()
        &&& new_s.label() == old_s.label()
        &&& new_s.author_label() == old_s.author_label()
        &&& match old_s {
            Strategy::Dummy(d) => {
                &&& r == d.moves@[d.move_index as int]
                &&& new_s matches Strategy::Dummy(n) && n.moves@ == d.moves@
                    && n.move_index == (d.move_index + 1) % (d.moves@.len() as int)
            },
            Strategy::Random(_) => {
                &&& r == Move::Fire || r == Move::TurnLeft || r == Move::Forward
                &&& new_s == old_s
            },
            Strategy::Slacker(_) => r == Move::Wait && new_s == old_s,
            Strategy::Spinner(d) => {
                &&& r == (if d.shoot { Move::TurnRight } else { Move::Fire })
                &&& new_s matches Strategy::Spinner(n) && n.shoot == !d.shoot
            },
            Strategy::FireFire(_) => {
                &&& new_s == old_s
                &&& planned(
                    place_at(input.own_status.location, input.own_status.direction),
                    r,
                    input.fire_range as int,
                    living_targets(input),
                    dead_blockers(input),
                    opponent_cells(input),
                    input.game_board.width as int,
                    input.game_board.height as int,
                )
            },
        }
    }

    pub fn name(&self) -> (r: String)
        ensures
            r@ == self.label(),
    {
        match self {
            Strategy::Dummy(d) => d.name(),
            Strategy::Random(d) => d.name(),
            Strategy::Slacker(d) => d.name(),
            Strategy::Spinner(d) => d.name(),
            Strategy::FireFire(d) => d.name(),
        }
    }

    pub fn author(&self) -> (r: String)
        ensures
            r@ == self.author_label(),
    {
        match self {
            Strategy::Dummy(d) => d.author(),
            Strategy::Random(d) => d.author(),
            Strategy::Slacker(d) => d.author(),
            Strategy::Spinner(d) => d.author(),
            Strategy::FireFire(d) => d.author(),
        }
    }

    /// Asks the strategy for its next move; the random one draws from `rng`.
    pub fn next_move(&mut self, input: &NextMoveInput, rng: &mut StdRng) -> (r: Move)
        requires
            old(self).wf(),
            input.wf(),
        ensures
            Strategy::answers(*old(self), *final(self), *input, r),
    {
        match self {
            Strategy::Dummy(d) => d.next_move(input),
            Strategy::Random(d) => d.next_move(input, rng),
            Strategy::Slacker(d) => d.next_move(input),
            Strategy::Spinner(d) => d.next_move(input),
            Strategy::FireFire(d) => d.next_move(input),
        }
    }
}

} // verus!
