//! The state of a game and the rules by which it changes.

use crate::connectivity::{
    blocked, connected, goal_reachable, lemma_connected_sym,
    lemma_connected_trans, lemma_fewer_walls_connect_more, lemma_step_connects, passable,
    reaches_row,
};
use crate::geometry::{
    adjacent, in_bounds1to8, in_bounds1to9, is_neighbor, on_anchor_grid, on_board, shifted,
    wall_conflicts, wall_separates, walls_conflict, Move, Orientation, Position, Wall,
};
use crate::wallset::{bitset_add_wall, lemma_no_bits_no_walls, walls_in_bits};
use vstd::prelude::*;

verus! {

/// How many walls each player starts with.
pub const WALLS_PER_PLAYER: usize = 10;

/// The state of a game: whose turn it is, where the pawns stand, how many
/// walls each player may still place, and the walls on the board in the order
/// in which they were placed.
#[derive(PartialEq, Eq, Clone, Debug, Hash)]
pub struct Board {
    pub player: usize,
    pub positions: [Position; 2],
    pub walls_left: [usize; 2],
    pub walls: Vec<(Orientation, Position)>,
}

/// Why the rules do not allow a move.
#[derive(PartialEq, Eq, Structural, Copy, Clone, Debug)]
pub enum IllegalMove {
    /// The cell or the anchor does not lie on the board.
    OutOfBounds,
    /// A pawn stands on the neighbouring cell.
    OccupiedCell,
    /// A wall lies between the pawn and the neighbouring cell.
    WallInTheWay,
    /// The cell is no neighbour of the pawn, and no legal jump leads to it.
    NotALegalJump,
    /// The player has no wall left.
    NoWallLeft,
    /// The wall conflicts with a wall on the board.
    WallConflict,
    /// With the wall, a pawn could no longer walk to its goal row.
    GoalCutOff,
}

/// A game state as a mathematical value.
pub struct BoardView {
    pub player: int,
    pub positions: Seq<Position>,
    pub walls_left: Seq<usize>,
    pub walls: Seq<Wall>,
}

impl View for Board {
    type V = BoardView;

    open spec fn view(&self) -> BoardView {
        BoardView {
            player: self.player as int,
            positions: self.positions@,
            walls_left: self.walls_left@,
            walls: self.walls@,
        }
    }
}

/// The row that a player has to reach: row 9 for player 0, row 1 for player 1.
pub open spec fn goal_row(player: int) -> int {
    if player == 0 {
        9
    } else {
        1
    }
}

/// The state in which every game starts.
pub open spec fn initial_board() -> BoardView {
    BoardView {
        player: 0,
        positions: seq![Position { x: 5, y: 1 }, Position { x: 5, y: 9 }],
        walls_left: seq![WALLS_PER_PLAYER, WALLS_PER_PLAYER],
        walls: Seq::empty(),
    }
}

impl BoardView {
    /// The cell of the pawn whose turn it is.
    pub open spec fn mover(self) -> Position {
        self.positions[self.player]
    }

    /// The cell of the other pawn.
    pub open spec fn opponent(self) -> Position {
        self.positions[1 - self.player]
    }

    /// The walls on the board, without their order.
    pub open spec fn wall_set(self) -> Set<Wall> {
        self.walls.to_set()
    }

    /// The shape that every function of the library relies on: a player to
    /// move, two pawns on the board, wall stocks within the allowance, and
    /// every wall anchored on the anchor grid.
    pub open spec fn well_formed(self) -> bool {
        &&& 0 <= self.player < 2
        &&& self.positions.len() == 2
        &&& on_board(self.positions[0])
        &&& on_board(self.positions[1])
        &&& self.walls_left.len() == 2
        &&& self.walls_left[0] <= WALLS_PER_PLAYER
        &&& self.walls_left[1] <= WALLS_PER_PLAYER
        &&& forall|i: int| 0 <= i < self.walls.len() ==> on_anchor_grid((#[trigger] self.walls[i]).1)
    }

    /// Both pawns can walk to their goal rows past the walls `ws`.
    pub open spec fn goals_reachable(self, ws: Set<Wall>) -> bool {
        &&& reaches_row(ws, self.positions[0], goal_row(0))
        &&& reaches_row(ws, self.positions[1], goal_row(1))
    }

    /// What holds of every state that a game can reach: the state is well
    /// formed, the pawns stand on different cells, no two walls conflict, and
    /// both pawns can walk to their goal rows.
    pub open spec fn valid(self) -> bool {
        &&& self.well_formed()
        &&& self.positions[0] != self.positions[1]
        &&& forall|i: int, j: int|
            0 <= i < j < self.walls.len() ==> !walls_conflict(
                #[trigger] self.walls[i],
                #[trigger] self.walls[j],
            )
        &&& self.goals_reachable(self.wall_set())
    }

    /// No pawn stands on the cell.
    pub open spec fn is_empty(self, pos: Position) -> bool {
        self.positions[0] != pos && self.positions[1] != pos
    }

    /// The winner, if a pawn stands on its goal row.
    pub open spec fn winner(self) -> Option<usize> {
        if self.positions[0].y == goal_row(0) {
            Some(0usize)
        } else if self.positions[1].y == goal_row(1) {
            Some(1usize)
        } else {
            None
        }
    }

    /// The mover may jump straight over the opponent to `to`: the opponent
    /// stands on the cell between the mover and `to`, and no wall lies on
    /// either side of the opponent along the line of the jump.
    pub open spec fn straight_jump_legal(self, to: Position) -> bool {
        let m = self.mover();
        let o = self.opponent();
        &&& adjacent(m, o)
        &&& to.x - o.x == o.x - m.x
        &&& to.y - o.y == o.y - m.y
        &&& !blocked(self.wall_set(), m, o)
        &&& !blocked(self.wall_set(), o, to)
    }

    /// The mover may jump around the opponent to `to`: the opponent stands
    /// next to the mover with a wall right behind it, `to` lies next to the
    /// opponent and diagonally from the mover, and no wall lies between the
    /// mover and the opponent nor between the opponent and `to`.
    pub open spec fn diagonal_jump_legal(self, to: Position) -> bool {
        let m = self.mover();
        let o = self.opponent();
        let behind = shifted(o, o.x - m.x, o.y - m.y);
        &&& adjacent(m, o)
        &&& adjacent(o, to)
        &&& to.x != m.x
        &&& to.y != m.y
        &&& blocked(self.wall_set(), o, behind)
        &&& !blocked(self.wall_set(), m, o)
        &&& !blocked(self.wall_set(), o, to)
    }

    /// The mover may jump to `to`, straight or diagonally. Whether `to` lies
    /// on the board is not part of this.
    pub open spec fn jump_legal(self, to: Position) -> bool {
        self.straight_jump_legal(to) || self.diagonal_jump_legal(to)
    }

    /// The mover may move its pawn to `to`: `to` is on the board and either
    /// an empty neighbour of the mover's cell with no wall between, or the
    /// target of a legal jump.
    pub open spec fn pawn_move_legal(self, to: Position) -> bool {
        &&& on_board(to)
        &&& if adjacent(self.mover(), to) {
            self.is_empty(to) && !blocked(self.wall_set(), self.mover(), to)
        } else {
            self.jump_legal(to)
        }
    }

    /// The wall conflicts with none of the walls on the board.
    pub open spec fn wall_fits(self, w: Wall) -> bool {
        forall|i: int| 0 <= i < self.walls.len() ==> !walls_conflict(w, #[trigger] self.walls[i])
    }

    /// The mover may place the wall: it has a wall left, the anchor is on the
    /// anchor grid, the wall conflicts with no wall on the board, and with
    /// the wall added both pawns can still walk to their goal rows.
    pub open spec fn wall_legal(self, w: Wall) -> bool {
        &&& self.walls_left[self.player] > 0
        &&& on_anchor_grid(w.1)
        &&& self.wall_fits(w)
        &&& self.goals_reachable(self.wall_set().insert(w))
    }

    /// The rules allow the move in this state.
    pub open spec fn move_legal(self, mv: Move) -> bool {
        match mv {
            Move::PawnTo(to) => self.pawn_move_legal(to),
            Move::WallAt(ori, pos) => self.wall_legal((ori, pos)),
        }
    }

    /// Why the rules do not allow the move, by the first of the conditions
    /// that it fails; `None` for a move that they allow.
    pub open spec fn refusal(self, mv: Move) -> Option<IllegalMove> {
        match mv {
            Move::PawnTo(to) => if !on_board(to) {
                Some(IllegalMove::OutOfBounds)
            } else if adjacent(self.mover(), to) {
                if !self.is_empty(to) {
                    Some(IllegalMove::OccupiedCell)
                } else if blocked(self.wall_set(), self.mover(), to) {
                    Some(IllegalMove::WallInTheWay)
                } else {
                    None
                }
            } else if !self.jump_legal(to) {
                Some(IllegalMove::NotALegalJump)
            } else {
                None
            },
            Move::WallAt(ori, pos) => if self.walls_left[self.player] == 0 {
                Some(IllegalMove::NoWallLeft)
            } else if !on_anchor_grid(pos) {
                Some(IllegalMove::OutOfBounds)
            } else if !self.wall_fits((ori, pos)) {
                Some(IllegalMove::WallConflict)
            } else if !self.goals_reachable(self.wall_set().insert((ori, pos))) {
                Some(IllegalMove::GoalCutOff)
            } else {
                None
            },
        }
    }

    /// The state after the move: the pawn stands on its new cell, or the wall
    /// is added behind the others and taken from the mover's stock; and the
    /// turn passes to the other player.
    pub open spec fn apply(self, mv: Move) -> BoardView {
        match mv {
            Move::PawnTo(to) => BoardView {
                player: 1 - self.player,
                positions: self.positions.update(self.player, to),
                ..self
            },
            Move::WallAt(ori, pos) => BoardView {
                player: 1 - self.player,
                walls_left: self.walls_left.update(
                    self.player,
                    (self.walls_left[self.player] - 1) as usize,
                ),
                walls: self.walls.push((ori, pos)),
                ..self
            },
        }
    }
}

/// Whether the wall lies on the edge between `a` and `b`. Defined for all
/// positions.
fn wall_lies_between(w: &Wall, a: &Position, b: &Position) -> (r: bool)
    ensures
        r == wall_separates(*w, *a, *b),
{
    if !is_neighbor(a, b) {
        return false;
    }
    let p = &w.1;
    match w.0 {
        Orientation::Vertical => {
            let left: i64 = if a.x < b.x { a.x } else { b.x };
            a.y == b.y && p.x == left && (p.y == a.y || (p.y < i64::MAX && p.y + 1 == a.y))
        },
        Orientation::Horizontal => {
            let top: i64 = if a.y < b.y { a.y } else { b.y };
            a.x == b.x && p.y == top && (p.x == a.x || (p.x < i64::MAX && p.x + 1 == a.x))
        },
    }
}

impl Default for Board {
    /// The starting state: player 0 to move, the pawns in the middle of rows
    /// 1 and 9, no wall placed and the full allowance for both.
    fn default() -> (b: Board)
        ensures
            b@ == initial_board(),
            b@.well_formed(),
            b@.valid(),
    {
        proof {
            lemma_initial_board_valid();
        }
        let b = Board {
            player: 0,
            walls_left: [WALLS_PER_PLAYER, WALLS_PER_PLAYER],
            positions: [Position { x: 5, y: 1 }, Position { x: 5, y: 9 }],
            walls: Vec::new(),
        };
        assert(b@.positions =~= initial_board().positions);
        assert(b@.walls_left =~= initial_board().walls_left);
        assert(b@.walls =~= initial_board().walls);
        b
    }
}

impl Board {
    /// Whether the state has the shape that the other functions rely on.
    pub fn is_well_formed(&self) -> (r: bool)
        ensures
            r == self@.well_formed(),
    {
        if !(self.player < 2 && in_bounds1to9(&self.positions[0]) && in_bounds1to9(
            &self.positions[1],
        ) && self.walls_left[0] <= WALLS_PER_PLAYER && self.walls_left[1] <= WALLS_PER_PLAYER) {
            return false;
        }
        let mut i: usize = 0;
        while i < self.walls.len()
            invariant
                0 <= i <= self.walls.len(),
                forall|j: int| 0 <= j < i ==> on_anchor_grid((#[trigger] self.walls@[j]).1),
            decreases self.walls.len() - i,
        {
            if !in_bounds1to8(&self.walls[i].1) {
                assert(!on_anchor_grid(self@.walls[i as int].1));
                return false;
            }
            i = i + 1;
        }
        true
    }

    /// Whether the state is one that a game can be in: well formed, with the
    /// pawns on different cells, no two walls in conflict, and a way to its
    /// goal row for each pawn.
    pub fn is_valid(&self) -> (r: bool)
        ensures
            r == self@.valid(),
    {
        if !self.is_well_formed() || self.positions[0] == self.positions[1] {
            return false;
        }
        let mut j: usize = 0;
        while j < self.walls.len()
            invariant
                0 <= j <= self.walls.len(),
                forall|a: int, b: int|
                    0 <= a < b < j ==> !walls_conflict(
                        #[trigger] self@.walls[a],
                        #[trigger] self@.walls[b],
                    ),
            decreases self.walls.len() - j,
        {
            let mut i: usize = 0;
            while i < j
                invariant
                    0 <= i <= j < self.walls.len(),
                    forall|a: int|
                        0 <= a < i ==> !walls_conflict(
                            #[trigger] self@.walls[a],
                            self@.walls[j as int],
                        ),
                decreases j - i,
            {
                let a = &self.walls[i];
                let b = &self.walls[j];
                if wall_conflicts(&a.0, &a.1, &b.0, &b.1) {
                    assert(walls_conflict(self@.walls[i as int], self@.walls[j as int]));
                    return false;
                }
                i = i + 1;
            }
            j = j + 1;
        }
        let (horizontal_walls, vertical_walls) = self.get_wall_bitsets();
        goal_reachable(horizontal_walls, vertical_walls, self.positions[0], 9) && goal_reachable(
            horizontal_walls,
            vertical_walls,
            self.positions[1],
            1,
        )
    }

    /// A copy of the state.
    pub fn copy(&self) -> (b: Board)
        ensures
            b@ == self@,
    {
        let mut walls: Vec<(Orientation, Position)> = Vec::new();
        let mut i: usize = 0;
        while i < self.walls.len()
            invariant
                0 <= i <= self.walls.len(),
                walls@ == self.walls@.take(i as int),
            decreases self.walls.len() - i,
        {
            walls.push(self.walls[i]);
            assert(self.walls@.take(i + 1) =~= self.walls@.take(i as int).push(self.walls@[i as int]));
            i = i + 1;
        }
        assert(self.walls@.take(self.walls@.len() as int) =~= self.walls@);
        Board {
            player: self.player,
            positions: self.positions,
            walls_left: self.walls_left,
            walls,
        }
    }

    /// Whether two states are the same: the same player to move, the same
    /// pawns and stocks, and the same walls in the same order.
    pub fn same(&self, other: &Board) -> (r: bool)
        ensures
            r == (self@ == other@),
    {
        if self.player != other.player || self.positions[0] != other.positions[0]
            || self.positions[1] != other.positions[1] || self.walls_left[0] != other.walls_left[0]
            || self.walls_left[1] != other.walls_left[1] || self.walls.len() != other.walls.len() {
            return false;
        }
        let mut i: usize = 0;
        while i < self.walls.len()
            invariant
                0 <= i <= self.walls.len(),
                self.walls.len() == other.walls.len(),
                forall|j: int| 0 <= j < i ==> self.walls@[j] == other.walls@[j],
            decreases self.walls.len() - i,
        {
            let a = self.walls[i];
            let b = other.walls[i];
            if a.0 != b.0 || a.1 != b.1 {
                return false;
            }
            i = i + 1;
        }
        assert(self@.positions =~= other@.positions);
        assert(self@.walls_left =~= other@.walls_left);
        assert(self@.walls =~= other@.walls);
        true
    }

    /// Whether no pawn stands on the cell.
    pub fn is_empty(&self, pos: &Position) -> (r: bool)
        ensures
            r == self@.is_empty(*pos),
    {
        self.positions[0] != *pos && self.positions[1] != *pos
    }

    /// The player whose pawn stands on its goal row, if there is one.
    pub fn get_winner(&self) -> (r: Option<usize>)
        ensures
            r == self@.winner(),
    {
        if self.positions[0].y == 9 {
            return Some(0);
        }
        if self.positions[1].y == 1 {
            return Some(1);
        }
        None
    }

    /// Whether a wall on the board lies between the two cells. False for
    /// cells that do not share an edge.
    pub fn wall_between(&self, a: &Position, b: &Position) -> (r: bool)
        ensures
            r == blocked(self@.wall_set(), *a, *b),
    {
        let mut i: usize = 0;
        while i < self.walls.len()
            invariant
                0 <= i <= self.walls.len(),
                forall|j: int| 0 <= j < i ==> !wall_separates(#[trigger] self.walls@[j], *a, *b),
            decreases self.walls.len() - i,
        {
            if wall_lies_between(&self.walls[i], a, b) {
                assert(self@.wall_set().contains(self.walls@[i as int]));
                return true;
            }
            i = i + 1;
        }
        proof {
            if blocked(self@.wall_set(), *a, *b) {
                let w = choose|w: Wall|
                    self@.wall_set().contains(w) && #[trigger] wall_separates(w, *a, *b);
                let j = choose|j: int| 0 <= j < self.walls@.len() && self.walls@[j] == w;
                assert(!wall_separates(self.walls@[j], *a, *b));
            }
        }
        false
    }

    /// Whether the mover may jump over or around the opponent to `pos`. This
    /// does not ask whether `pos` lies on the board.
    pub fn is_valid_jump(&self, pos: Position) -> (r: bool)
        requires
            self@.well_formed(),
        ensures
            r == self@.jump_legal(pos),
    {
        let start = self.positions[self.player];
        let other = self.positions[1 - self.player];
        if pos.x < -1 || pos.x > 11 || pos.y < -1 || pos.y > 11 {
            return false;
        }
        if !is_neighbor(&start, &other) {
            return false;
        }
        let dx: i64 = other.x - start.x;
        let dy: i64 = other.y - start.y;
        if pos.x - other.x == dx && pos.y - other.y == dy {
            !self.wall_between(&start, &other) && !self.wall_between(&other, &pos)
        } else if is_neighbor(&other, &pos) && pos.x != start.x && pos.y != start.y {
            let behind = Position { x: other.x + dx, y: other.y + dy };
            self.wall_between(&other, &behind) && !self.wall_between(&start, &other)
                && !self.wall_between(&other, &pos)
        } else {
            false
        }
    }

    /// Whether the mover may move its pawn to `pos`.
    pub fn is_valid_pawn_move(&self, pos: &Position) -> (r: bool)
        requires
            self@.well_formed(),
        ensures
            r == self@.pawn_move_legal(*pos),
    {
        if !in_bounds1to9(pos) {
            return false;
        }
        if is_neighbor(&self.positions[self.player], pos) {
            if !self.is_empty(pos) {
                return false;
            }
            if self.wall_between(&self.positions[self.player], pos) {
                return false;
            }
            true
        } else {
            self.is_valid_jump(*pos)
        }
    }

    /// The walls on the board as two 64-bit sets, the horizontal walls first.
    pub fn get_wall_bitsets(&self) -> (r: (u64, u64))
        requires
            self@.well_formed(),
        ensures
            walls_in_bits(r.0, r.1) == self@.wall_set(),
    {
        let mut horizontal_walls: u64 = 0;
        let mut vertical_walls: u64 = 0;
        proof {
            lemma_no_bits_no_walls();
            assert(self.walls@.take(0).to_set() =~= Set::<Wall>::empty());
        }
        let mut i: usize = 0;
        while i < self.walls.len()
            invariant
                0 <= i <= self.walls.len(),
                self@.well_formed(),
                walls_in_bits(horizontal_walls, vertical_walls) == self.walls@.take(i as int).to_set(),
            decreases self.walls.len() - i,
        {
            let w = &self.walls[i];
            assert(on_anchor_grid(self@.walls[i as int].1));
            bitset_add_wall(&mut horizontal_walls, &mut vertical_walls, &w.0, &w.1);
            proof {
                let before = self.walls@.take(i as int);
                let after = self.walls@.take(i + 1);
                assert(after =~= before.push(self.walls@[i as int]));
                assert forall|x: Wall| after.to_set().contains(x) == before.to_set().insert(
                    self.walls@[i as int],
                ).contains(x) by {
                    if before.contains(x) {
                        let j = choose|j: int| 0 <= j < before.len() && before[j] == x;
                        assert(after[j] == x);
                    }
                    if x == self.walls@[i as int] {
                        assert(after[i as int] == x);
                    }
                }
                assert(after.to_set() =~= before.to_set().insert(self.walls@[i as int]));
            }
            i = i + 1;
        }
        assert(self.walls@.take(self.walls@.len() as int) =~= self.walls@);
        (horizontal_walls, vertical_walls)
    }

    /// Whether both pawns could still walk to their goal rows if the wall were
    /// added to the board.
    pub fn goal_reachable(&self, ori: Orientation, pos: Position) -> (r: bool)
        requires
            self@.well_formed(),
            on_anchor_grid(pos),
        ensures
            r == self@.goals_reachable(self@.wall_set().insert((ori, pos))),
    {
        let (mut horizontal_walls, mut vertical_walls) = self.get_wall_bitsets();
        bitset_add_wall(&mut horizontal_walls, &mut vertical_walls, &ori, &pos);
        let p1 = goal_reachable(horizontal_walls, vertical_walls, self.positions[0], 9);
        let p2 = goal_reachable(horizontal_walls, vertical_walls, self.positions[1], 1);
        p1 && p2
    }

    /// Whether the mover may place the wall.
    pub fn can_add_wall(&self, ori: Orientation, pos: Position) -> (r: bool)
        requires
            self@.well_formed(),
        ensures
            r == self@.wall_legal((ori, pos)),
            r ==> reaches_row(self@.wall_set().insert((ori, pos)), self@.positions[0], 9)
                && reaches_row(self@.wall_set().insert((ori, pos)), self@.positions[1], 1),
    {
        if self.walls_left[self.player] == 0 {
            return false;
        }
        if !in_bounds1to8(&pos) {
            return false;
        }
        if self.conflicts_with_a_wall(ori, pos) {
            return false;
        }
        if !self.goal_reachable(ori, pos) {
            return false;
        }
        true
    }

    /// Whether the rules allow the move.
    pub fn is_valid_move(&self, mv: &Move) -> (r: bool)
        requires
            self@.well_formed(),
        ensures
            r == self@.move_legal(*mv),
    {
        match mv {
            Move::PawnTo(pos) => self.is_valid_pawn_move(pos),
            Move::WallAt(ori, pos) => self.can_add_wall(*ori, *pos),
        }
    }

    /// Whether a wall on the board conflicts with the wall.
    fn conflicts_with_a_wall(&self, ori: Orientation, pos: Position) -> (r: bool)
        ensures
            r == !self@.wall_fits((ori, pos)),
    {
        let mut i: usize = 0;
        while i < self.walls.len()
            invariant
                0 <= i <= self.walls.len(),
                forall|j: int|
                    0 <= j < i ==> !walls_conflict((ori, pos), #[trigger] self@.walls[j]),
            decreases self.walls.len() - i,
        {
            let w = &self.walls[i];
            if wall_conflicts(&ori, &pos, &w.0, &w.1) {
                assert(walls_conflict((ori, pos), self@.walls[i as int]));
                return true;
            }
            i = i + 1;
        }
        false
    }

    /// Why the rules do not allow the move; `None` for a move that they
    /// allow.
    pub fn check_move(&self, mv: &Move) -> (r: Option<IllegalMove>)
        requires
            self@.well_formed(),
        ensures
            r == self@.refusal(*mv),
            r is None <==> self@.move_legal(*mv),
    {
        match mv {
            Move::PawnTo(pos) => {
                if !in_bounds1to9(pos) {
                    Some(IllegalMove::OutOfBounds)
                } else if is_neighbor(&self.positions[self.player], pos) {
                    if !self.is_empty(pos) {
                        Some(IllegalMove::OccupiedCell)
                    } else if self.wall_between(&self.positions[self.player], pos) {
                        Some(IllegalMove::WallInTheWay)
                    } else {
                        None
                    }
                } else if !self.is_valid_jump(*pos) {
                    Some(IllegalMove::NotALegalJump)
                } else {
                    None
                }
            },
            Move::WallAt(ori, pos) => {
                if self.walls_left[self.player] == 0 {
                    Some(IllegalMove::NoWallLeft)
                } else if !in_bounds1to8(pos) {
                    Some(IllegalMove::OutOfBounds)
                } else if self.conflicts_with_a_wall(*ori, *pos) {
                    Some(IllegalMove::WallConflict)
                } else if !self.goal_reachable(*ori, *pos) {
                    Some(IllegalMove::GoalCutOff)
                } else {
                    None
                }
            },
        }
    }

    /// Makes the move if the rules allow it, and passes the turn; refuses it
    /// otherwise, says why, and leaves the state as it is.
    pub fn integrate(&mut self, mv: Move) -> (r: Result<(), IllegalMove>)
        requires
            old(self)@.well_formed(),
        ensures
            r is Ok <==> old(self)@.move_legal(mv),
            r == match old(self)@.refusal(mv) {
                Some(why) => Err::<(), IllegalMove>(why),
                None => Ok::<(), IllegalMove>(()),
            },
            r is Ok ==> final(self)@ == old(self)@.apply(mv),
            r is Err ==> *final(self) == *old(self),
            final(self)@.well_formed(),
            old(self)@.valid() ==> final(self)@.valid(),
            final(self)@.walls_left[0] <= old(self)@.walls_left[0],
            final(self)@.walls_left[1] <= old(self)@.walls_left[1],
    {
        if let Some(why) = self.check_move(&mv) {
            return Err(why);
        }
        match mv {
            Move::PawnTo(pos) => {
                self.positions[self.player] = pos;
            },
            Move::WallAt(ori, pos) => {
                self.walls.push((ori, pos));
                self.walls_left[self.player] = self.walls_left[self.player] - 1;
            },
        }
        self.player = 1 - self.player;
        proof {
            if old(self)@.valid() {
                lemma_move_keeps_valid(old(self)@, mv);
            }
            let after = old(self)@.apply(mv);
            assert(self@.positions =~= after.positions);
            assert(self@.walls_left =~= after.walls_left);
            assert(self@.walls =~= after.walls);
        }
        Ok(())
    }
}

/// The rule of the jump in one piece: the opponent stands next to the mover
/// and the target next to the opponent, no wall lies between the mover and
/// the opponent nor between the opponent and the target, and the wall right
/// behind the opponent decides where the jump goes: without it straight over
/// the opponent, with it to one of the cells beside the opponent. As soon as
/// one of these conditions changes, the jump is legal no more.
pub proof fn lemma_jump_rule(b: BoardView, to: Position)
    requires
        b.well_formed(),
    ensures
        b.jump_legal(to) <==> {
            let m = b.mover();
            let o = b.opponent();
            let behind = shifted(o, o.x - m.x, o.y - m.y);
            &&& adjacent(m, o)
            &&& adjacent(o, to)
            &&& to != m
            &&& !blocked(b.wall_set(), m, o)
            &&& !blocked(b.wall_set(), o, to)
            &&& blocked(b.wall_set(), o, behind) <==> to != behind
        },
{
}

/// A legal move leaves the state well formed.
pub proof fn lemma_move_keeps_well_formed(b: BoardView, mv: Move)
    requires
        b.well_formed(),
        b.move_legal(mv),
    ensures
        b.apply(mv).well_formed(),
{
    let after = b.apply(mv);
    match mv {
        Move::PawnTo(to) => {},
        Move::WallAt(ori, pos) => {
            assert forall|i: int| 0 <= i < after.walls.len() implies on_anchor_grid(
                (#[trigger] after.walls[i]).1,
            ) by {
                if i < b.walls.len() {
                    assert(after.walls[i] == b.walls[i]);
                }
            }
        },
    }
}

/// A wall added behind the others is added to the set of the walls.
pub proof fn lemma_wall_set_grows(walls: Seq<Wall>, w: Wall)
    ensures
        walls.push(w).to_set() == walls.to_set().insert(w),
{
    let more = walls.push(w);
    assert forall|x: Wall| more.to_set().contains(x) == walls.to_set().insert(w).contains(x) by {
        if walls.contains(x) {
            let j = choose|j: int| 0 <= j < walls.len() && walls[j] == x;
            assert(more[j] == x);
        }
        if x == w {
            assert(more[walls.len() as int] == x);
        }
    }
    assert(more.to_set() =~= walls.to_set().insert(w));
}

/// The pawn that moves stays connected to the cell that it leaves.
pub proof fn lemma_pawn_stays_connected(b: BoardView, to: Position)
    requires
        b.well_formed(),
        b.pawn_move_legal(to),
    ensures
        connected(b.wall_set(), b.mover(), to),
        to != b.opponent(),
{
    let ws = b.wall_set();
    let m = b.mover();
    let o = b.opponent();
    if adjacent(m, to) {
        lemma_step_connects(ws, m, to);
    } else {
        assert(passable(ws, m, o));
        assert(passable(ws, o, to));
        lemma_step_connects(ws, m, o);
        lemma_step_connects(ws, o, to);
        lemma_connected_trans(ws, m, o, to);
    }
}

/// A pawn that can walk to a row can do so from every cell that it can walk
/// to.
pub proof fn lemma_reach_from_connected(ws: Set<Wall>, a: Position, b: Position, row: int)
    requires
        connected(ws, a, b),
        reaches_row(ws, a, row),
    ensures
        reaches_row(ws, b, row),
{
    let g = choose|g: Position| g.y == row && #[trigger] connected(ws, a, g);
    lemma_connected_sym(ws, a, b);
    lemma_connected_trans(ws, b, a, g);
}

/// The starting state is valid.
pub proof fn lemma_initial_board_valid()
    ensures
        initial_board().valid(),
{
    let b = initial_board();
    let ws = b.wall_set();
    assert(ws =~= Set::<Wall>::empty());
    let column = Seq::new(9, |i: int| Position { x: 5, y: (i + 1) as i64 });
    assert forall|i: int| 0 <= i < column.len() - 1 implies #[trigger] crate::connectivity::walk_step(
        ws,
        column,
        i,
    ) by {
        assert(column[i] == Position { x: 5, y: (i + 1) as i64 });
        assert(column[i + 1] == Position { x: 5, y: (i + 2) as i64 });
    }
    assert(crate::connectivity::is_walk(ws, column));
    assert(column[0] == b.positions[0] && column.last() == b.positions[1]);
    assert(connected(ws, b.positions[0], b.positions[1]));
    lemma_connected_sym(ws, b.positions[0], b.positions[1]);
    assert(reaches_row(ws, b.positions[0], 9));
    assert(reaches_row(ws, b.positions[1], 1));
}

/// In a valid state both pawns could walk to their goal rows at every time of
/// the game so far: past the first `n` walls, for every `n`.
pub proof fn lemma_goals_reachable_all_along(b: BoardView, n: int)
    requires
        b.valid(),
        0 <= n <= b.walls.len(),
    ensures
        b.goals_reachable(b.walls.take(n).to_set()),
{
    let fewer = b.walls.take(n).to_set();
    let all = b.wall_set();
    assert(fewer.subset_of(all)) by {
        assert forall|w: Wall| fewer.contains(w) implies all.contains(w) by {
            let j = choose|j: int| 0 <= j < b.walls.take(n).len() && b.walls.take(n)[j] == w;
            assert(b.walls[j] == w);
        }
    }
    let g0 = choose|g: Position| g.y == goal_row(0) && #[trigger] connected(all, b.positions[0], g);
    lemma_fewer_walls_connect_more(fewer, all, b.positions[0], g0);
    let g1 = choose|g: Position| g.y == goal_row(1) && #[trigger] connected(all, b.positions[1], g);
    lemma_fewer_walls_connect_more(fewer, all, b.positions[1], g1);
}

/// A legal move takes a valid state to a valid state: what holds of the
/// starting state holds of every state that a game can reach.
pub proof fn lemma_move_keeps_valid(b: BoardView, mv: Move)
    requires
        b.valid(),
        b.move_legal(mv),
    ensures
        b.apply(mv).valid(),
{
    let after = b.apply(mv);
    lemma_move_keeps_well_formed(b, mv);
    match mv {
        Move::PawnTo(to) => {
            lemma_pawn_stays_connected(b, to);
            lemma_reach_from_connected(b.wall_set(), b.mover(), to, goal_row(b.player));
            assert(after.wall_set() == b.wall_set());
        },
        Move::WallAt(ori, pos) => {
            let w = (ori, pos);
            lemma_wall_set_grows(b.walls, w);
            assert forall|i: int, j: int| 0 <= i < j < after.walls.len() implies !walls_conflict(
                #[trigger] after.walls[i],
                #[trigger] after.walls[j],
            ) by {
                assert(after.walls[i] == b.walls[i]);
                if j < b.walls.len() {
                    assert(after.walls[j] == b.walls[j]);
                } else {
                    crate::geometry::lemma_conflict_symmetric(w, b.walls[i]);
                }
            }
        },
    }
}

} // verus!
