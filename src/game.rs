//! The game state and the moves that change it.
use std::collections::HashSet;

use vstd::prelude::*;

use crate::color::Color;
use crate::rules::{
    after_move, captured, cell_at, count, diagonal_flips, flips, full, has_move, horizontal_flips,
    idx, is_direction, is_legal, lemma_count_bounds, lemma_count_none, lemma_count_update,
    lemma_flips, lemma_paint_other, on_board, paint, ray, room, run_len, vertical_flips, CELLS, SIZE,
};

verus! {

broadcast use vstd::std_specs::hash::group_hash_axioms;

/// Why a disc cannot be placed.
#[derive(Clone, Copy, Debug, PartialEq, Eq, Structural)]
pub enum PlaceError {
    /// The position lies off the board.
    OutOfRange,
    /// The cell already holds a disc.
    AlreadyOccupied,
    /// The disc would turn over nothing.
    NoFlips,
}

/// Why a turn cannot be passed.
#[derive(Clone, Copy, Debug, PartialEq, Eq, Structural)]
pub enum SkipError {
    /// The game is already over.
    GameOver,
    /// The player to move has a legal move and must play it.
    MovesAvailable,
}

/// How a finished game ended.
#[derive(Clone, Copy, Debug, PartialEq, Eq, Structural)]
pub enum Outcome {
    /// The colour with more discs won.
    Win(Color),
    /// Both colours hold as many discs.
    Draw,
}

/// The outcome for the given disc counts: more discs wins, equal counts draw.
pub open spec fn outcome_of(black: int, white: int) -> Outcome {
    if black > white {
        Outcome::Win(Color::Black)
    } else if black < white {
        Outcome::Win(Color::White)
    } else {
        Outcome::Draw
    }
}

/// A cell given as `(column, row)`, both counted from 0.
pub type Position = (usize, usize);

/// The points of a sequence of positions, as integer pairs.
pub open spec fn as_points(v: Seq<Position>) -> Seq<(int, int)> {
    v.map_values(|p: Position| (p.0 as int, p.1 as int))
}

/// The standard opening: White on (3, 3) and (4, 4), Black on (4, 3) and (3, 4).
pub open spec fn initial_cells() -> Seq<Option<Color>> {
    Seq::new(
        64,
        |i: int|
            if i == idx(3, 3) || i == idx(4, 4) {
                Some(Color::White)
            } else if i == idx(4, 3) || i == idx(3, 4) {
                Some(Color::Black)
            } else {
                None
            },
    )
}

/// What a game is, as plain values.
pub struct GameView {
    /// The 64 cells, row-major.
    pub cells: Seq<Option<Color>>,
    /// Indices of the empty cells.
    pub vacant: Set<usize>,
    /// Whose move it is.
    pub turn: Color,
    /// Running count of Black discs.
    pub black: int,
    /// Running count of White discs.
    pub white: int,
    /// Turns passed in a row since the last disc was placed.
    pub passes: int,
}

impl GameView {
    pub open spec fn points(self, c: Color) -> int {
        match c {
            Color::Black => self.black,
            Color::White => self.white,
        }
    }

    /// The same game with the count of colour `c` set to `n`.
    pub open spec fn with_points(self, c: Color, n: int) -> GameView {
        match c {
            Color::Black => GameView { black: n, ..self },
            Color::White => GameView { white: n, ..self },
        }
    }

    /// The same game with colour `c` written into cell `p`.
    pub open spec fn with_cell(self, p: (int, int), c: Option<Color>) -> GameView {
        GameView { cells: self.cells.update(idx(p.0, p.1), c), ..self }
    }

    /// The same game after a disc of colour `c` is written into cell `p` and
    /// counted, and the cell is dropped from the empty ones.
    pub open spec fn with_disc(self, p: (int, int), c: Color) -> GameView {
        GameView {
            vacant: self.vacant.remove(idx(p.0, p.1) as usize),
            ..self.with_cell(p, Some(c)).with_points(c, self.points(c) + 1)
        }
    }

    /// The game after the mover plays at `(x, y)`: the board as `after_move`
    /// leaves it, the cell no longer empty, the mover's count up by one plus the
    /// discs turned, the opponent's down by those, the opponent to move, and no
    /// passes pending.
    pub open spec fn played(self, x: int, y: int) -> GameView {
        let m = self.turn;
        let k = flips(self.cells, x, y, m).len() as int;
        GameView {
            cells: after_move(self.cells, x, y, m),
            vacant: self.vacant.remove(idx(x, y) as usize),
            turn: m.opposite(),
            passes: 0,
            ..self.with_points(m, self.points(m) + 1 + k).with_points(
                m.opposite(),
                self.points(m.opposite()) - k,
            )
        }
    }

    /// The game after the mover passes: the opponent to move, one more pass in a row.
    pub open spec fn skipped(self) -> GameView {
        GameView { turn: self.turn.opposite(), passes: self.passes + 1, ..self }
    }

    /// The index of empty cells agrees with the board, the counts agree with the
    /// board, and a run of passes is backed by players who had no move.
    pub open spec fn wf(self) -> bool {
        &&& self.cells.len() == 64
        &&& forall|i: usize| self.vacant.contains(i) <==> (i < 64 && self.cells[i as int] is None)
        &&& self.black == count(self.cells, Color::Black)
        &&& self.white == count(self.cells, Color::White)
        &&& 0 <= self.passes <= 2
        &&& self.passes >= 1 ==> !has_move(self.cells, self.turn.opposite())
        &&& self.passes >= 2 ==> !has_move(self.cells, self.turn)
    }

    /// The game is over: the board is full, or both players passed in a row.
    pub open spec fn is_over(self) -> bool {
        self.passes >= 2 || full(self.cells)
    }
}

/// A game of Reversi in progress.
pub struct Game {
    board: [Option<Color>; 64],
    unput_positions: HashSet<usize>,
    passes: u8,
    turn: Color,
    black_points: i32,
    white_points: i32,
}

/// The coordinate one step from `v` along `d`, if it stays on the board.
fn next_coord(v: usize, d: i8) -> (r: Option<usize>)
    requires
        v < 8,
        -1 <= d <= 1,
    ensures
        match r {
            Some(n) => n == v + d && n < 8,
            None => !(0 <= v + d < 8),
        },
{
    if d > 0 {
        if v + 1 < SIZE {
            Some(v + 1)
        } else {
            None
        }
    } else if d < 0 {
        if v > 0 {
            Some(v - 1)
        } else {
            None
        }
    } else {
        Some(v)
    }
}

pub proof fn lemma_as_points_concat(a: Seq<Position>, b: Seq<Position>)
    ensures
        as_points(a + b) == as_points(a) + as_points(b),
{
    assert(as_points(a + b) =~= as_points(a) + as_points(b));
}

/// Once the game is over the player to move has no legal move.
pub proof fn lemma_over_has_no_move(g: GameView)
    requires
        g.wf(),
        g.is_over(),
    ensures
        !has_move(g.cells, g.turn),
{
    if !(g.passes >= 2) {
        assert forall|x: int, y: int| !is_legal(g.cells, x, y, g.turn) by {
            if on_board(x, y) {
                assert(g.cells[idx(x, y)] is Some);
            }
        }
    }
}

/// Two passes in a row end the game, whatever the board holds.
pub proof fn lemma_two_passes_end_game(g: GameView)
    requires
        g.wf(),
    ensures
        g.skipped().skipped().is_over(),
        g.skipped().skipped().cells == g.cells,
        g.skipped().skipped().turn == g.turn,
{
}

impl View for Game {
    type V = GameView;

    closed spec fn view(&self) -> GameView {
        GameView {
            cells: self.board@,
            vacant: self.unput_positions@,
            turn: self.turn,
            black: self.black_points as int,
            white: self.white_points as int,
            passes: self.passes as int,
        }
    }
}

impl Game {
    /// The disc at `position`, if any.
    pub fn get(&self, position: Position) -> (r: Option<Color>)
        requires
            on_board(position.0 as int, position.1 as int),
        ensures
            r == cell_at(self@.cells, (position.0 as int, position.1 as int)),
    {
        let (x, y) = position;
        self.board[y * SIZE + x]
    }

    /// Writes `color` into the cell at `position`, and nothing else.
    pub fn set(&mut self, position: Position, color: Option<Color>)
        requires
            on_board(position.0 as int, position.1 as int),
        ensures
            final(self)@ == old(self)@.with_cell((position.0 as int, position.1 as int), color),
    {
        let (x, y) = position;
        self.board[y * SIZE + x] = color;
    }

    /// Adds `n` to the running count of colour `color`.
    pub fn plus_points_with_color(&mut self, n: i32, color: Color)
        requires
            i32::MIN <= old(self)@.points(color) + n <= i32::MAX,
        ensures
            final(self)@ == old(self)@.with_points(color, old(self)@.points(color) + n),
    {
        if color == Color::Black {
            self.black_points = self.black_points + n;
        } else {
            self.white_points = self.white_points + n;
        }
    }

    /// Counts one more disc of colour `color`.
    pub fn incr_points(&mut self, color: Color)
        requires
            old(self)@.points(color) < i32::MAX,
        ensures
            final(self)@ == old(self)@.with_points(color, old(self)@.points(color) + 1),
    {
        self.plus_points_with_color(1, color);
    }

    /// Counts one disc fewer of colour `color`.
    pub fn decr_points(&mut self, color: Color)
        requires
            old(self)@.points(color) > i32::MIN,
        ensures
            final(self)@ == old(self)@.with_points(color, old(self)@.points(color) - 1),
    {
        self.plus_points_with_color(-1, color);
    }

    /// Puts a disc of colour `color` at `position`: the cell takes the colour, the
    /// colour's count grows by one and the cell leaves the set of empty cells.
    /// Whatever the cell held before is not uncounted here.
    pub fn set_with_color(&mut self, position: Position, color: Color)
        requires
            on_board(position.0 as int, position.1 as int),
            old(self)@.points(color) < i32::MAX,
        ensures
            final(self)@ == old(self)@.with_disc((position.0 as int, position.1 as int), color),
    {
        self.set(position, Some(color));
        self.incr_points(color);
        let (x, y) = position;
        self.unput_positions.remove(&(y * SIZE + x));
    }

    /// A new game in the standard opening, Black to move.
    pub fn new() -> (r: Game)
        ensures
            r@.wf(),
            r@.cells == initial_cells(),
            r@.turn == Color::Black,
            r@.black == 2,
            r@.white == 2,
            r@.passes == 0,
    {
        let mut b = Game {
            board: [None; 64],
            unput_positions: HashSet::new(),
            passes: 0,
            turn: Color::Black,
            black_points: 0,
            white_points: 0,
        };
        let ghost empty = b.board@;
        proof {
            lemma_count_none(empty, Color::Black);
            lemma_count_none(empty, Color::White);
        }
        for i in 0..CELLS
            invariant
                b@.cells == empty,
                b@.turn == Color::Black,
                b@.black == 0,
                b@.white == 0,
                b@.passes == 0,
                forall|j: usize| b@.vacant.contains(j) <==> j < i,
        {
            let ghost old_vacant = b@.vacant;
            b.unput_positions.insert(i);
            assert(b@.vacant == old_vacant.insert(i));
        }
        b.set_with_color((3, 3), Color::White);
        b.set_with_color((4, 3), Color::Black);
        b.set_with_color((4, 4), Color::White);
        b.set_with_color((3, 4), Color::Black);
        proof {
            let c0 = empty;
            let c1 = c0.update(27, Some(Color::White));
            let c2 = c1.update(28, Some(Color::Black));
            let c3 = c2.update(36, Some(Color::White));
            lemma_count_update(c0, 27, Some(Color::White), Color::Black);
            lemma_count_update(c0, 27, Some(Color::White), Color::White);
            lemma_count_update(c1, 28, Some(Color::Black), Color::Black);
            lemma_count_update(c1, 28, Some(Color::Black), Color::White);
            lemma_count_update(c2, 36, Some(Color::White), Color::Black);
            lemma_count_update(c2, 36, Some(Color::White), Color::White);
            lemma_count_update(c3, 35, Some(Color::Black), Color::Black);
            lemma_count_update(c3, 35, Some(Color::Black), Color::White);
            assert(b@.cells =~= initial_cells());
        }
        b
    }

    /// The discs of the opponent that a disc of the mover's colour at `position`
    /// would capture along direction `(dx, dy)`: walking outwards, the run of
    /// opposing discs counts only when a disc of the mover's colour ends it.
    pub fn find_reversable_positions(&self, position: Position, dx: i8, dy: i8) -> (r: Vec<Position>)
        requires
            on_board(position.0 as int, position.1 as int),
            is_direction(dx as int, dy as int),
        ensures
            as_points(r@) == captured(self@.cells, position.0 as int, position.1 as int, dx as int, dy as int, self@.turn),
    {
        let ghost cells = self@.cells;
        let ghost m = self@.turn;
        let ghost x = position.0 as int;
        let ghost y = position.1 as int;
        let ghost r = ray(x, y, dx as int, dy as int);
        let ghost k = run_len(cells, r, m.opposite()) as int;
        let (mut cx, mut cy) = position;
        let mut candidates: Vec<Position> = Vec::new();
        loop
            invariant
                on_board(cx as int, cy as int),
                is_direction(dx as int, dy as int),
                cells == self@.cells,
                m == self@.turn,
                r == ray(x, y, dx as int, dy as int),
                k == run_len(cells, r, m.opposite()),
                x == position.0 as int,
                y == position.1 as int,
                r == as_points(candidates@) + ray(cx as int, cy as int, dx as int, dy as int),
                k == candidates@.len() + run_len(cells, ray(cx as int, cy as int, dx as int, dy as int), m.opposite()),
            decreases room(cx as int, cy as int, dx as int, dy as int),
        {
            let ghost rest = ray(cx as int, cy as int, dx as int, dy as int);
            let nx = next_coord(cx, dx);
            let ny = next_coord(cy, dy);
            if nx.is_none() || ny.is_none() {
                proof {
                    assert(rest.len() == 0);
                    assert(k == r.len());
                }
                let none: Vec<Position> = Vec::new();
                assert(as_points(none@) =~= Seq::empty());
                return none;
            }
            let nx = nx.unwrap();
            let ny = ny.unwrap();
            let ghost next = ray(nx as int, ny as int, dx as int, dy as int);
            assert(rest == seq![(nx as int, ny as int)] + next);
            assert(rest[0] == (nx as int, ny as int));
            assert(r[candidates@.len() as int] == rest[0]);
            match self.get((nx, ny)) {
                None => {
                    assert(k == candidates@.len());
                    let none: Vec<Position> = Vec::new();
                    assert(as_points(none@) =~= Seq::empty());
                    return none;
                },
                Some(color) => {
                    if color == self.turn {
                        assert(k == candidates@.len());
                        assert(r.take(k) =~= as_points(candidates@));
                        return candidates;
                    } else {
                        assert(rest.drop_first() == next);
                        let ghost before = candidates@;
                        candidates.push((nx, ny));
                        assert(as_points(candidates@) =~= as_points(before).push((nx as int, ny as int)));
                        assert(r =~= as_points(candidates@) + next);
                        cx = nx;
                        cy = ny;
                    }
                },
            }
        }
    }

    /// The discs captured to the left, then to the right.
    pub fn horizontal(&self, position: Position) -> (r: Vec<Position>)
        requires
            on_board(position.0 as int, position.1 as int),
        ensures
            as_points(r@) == horizontal_flips(self@.cells, position.0 as int, position.1 as int, self@.turn),
    {
        let mut left = self.find_reversable_positions(position, -1, 0);
        let mut right = self.find_reversable_positions(position, 1, 0);
        let ghost (a, b) = (left@, right@);
        left.append(&mut right);
        proof { lemma_as_points_concat(a, b); }
        left
    }

    /// The discs captured upwards, then downwards.
    pub fn vertical(&self, position: Position) -> (r: Vec<Position>)
        requires
            on_board(position.0 as int, position.1 as int),
        ensures
            as_points(r@) == vertical_flips(self@.cells, position.0 as int, position.1 as int, self@.turn),
    {
        let mut up = self.find_reversable_positions(position, 0, -1);
        let mut bottom = self.find_reversable_positions(position, 0, 1);
        let ghost (a, b) = (up@, bottom@);
        up.append(&mut bottom);
        proof { lemma_as_points_concat(a, b); }
        up
    }

    /// The discs captured up-left, down-left, up-right, then down-right.
    pub fn diagonal(&self, position: Position) -> (r: Vec<Position>)
        requires
            on_board(position.0 as int, position.1 as int),
        ensures
            as_points(r@) == diagonal_flips(self@.cells, position.0 as int, position.1 as int, self@.turn),
    {
        let mut left_up = self.find_reversable_positions(position, -1, -1);
        let mut left_bottom = self.find_reversable_positions(position, -1, 1);
        let mut right_up = self.find_reversable_positions(position, 1, -1);
        let mut right_bottom = self.find_reversable_positions(position, 1, 1);
        let ghost (a, b, c, d) = (left_up@, left_bottom@, right_up@, right_bottom@);
        left_up.append(&mut left_bottom);
        left_up.append(&mut right_up);
        left_up.append(&mut right_bottom);
        proof {
            lemma_as_points_concat(a, b);
            lemma_as_points_concat(a + b, c);
            lemma_as_points_concat(a + b + c, d);
        }
        left_up
    }

    /// Every disc that the mover would turn over by playing at `position`.
    pub fn reversable_positions(&self, position: Position) -> (r: Vec<Position>)
        requires
            on_board(position.0 as int, position.1 as int),
        ensures
            as_points(r@) == flips(self@.cells, position.0 as int, position.1 as int, self@.turn),
    {
        let mut h = self.horizontal(position);
        let mut v = self.vertical(position);
        let mut d = self.diagonal(position);
        let ghost (a, b, c) = (h@, v@, d@);
        h.append(&mut v);
        h.append(&mut d);
        proof {
            lemma_as_points_concat(a, b);
            lemma_as_points_concat(a + b, c);
        }
        h
    }

    /// Every empty cell where the mover may play, each listed once, in row-major order.
    pub fn find_puttable_positions(&self) -> (r: Vec<Position>)
        requires
            self@.wf(),
        ensures
            forall|p: Position|
                #![trigger r@.contains(p)]
                r@.contains(p) <==> is_legal(self@.cells, p.0 as int, p.1 as int, self@.turn),
            r@.no_duplicates(),
    {
        let mut set: Vec<Position> = Vec::new();
        for y in 0..SIZE
            invariant
                self@.wf(),
                forall|j: int| 0 <= j < set@.len() ==> (#[trigger] set@[j]).1 < y,
                forall|j: int|
                    0 <= j < set@.len() ==> is_legal(
                        self@.cells,
                        (#[trigger] set@[j]).0 as int,
                        set@[j].1 as int,
                        self@.turn,
                    ),
                forall|p: Position|
                    p.1 < y && is_legal(self@.cells, p.0 as int, p.1 as int, self@.turn)
                        ==> #[trigger] set@.contains(p),
                set@.no_duplicates(),
        {
            for x in 0..SIZE
                invariant
                    y < 8,
                    self@.wf(),
                    forall|j: int|
                        0 <= j < set@.len() ==> (#[trigger] set@[j]).1 < y || (set@[j].1 == y
                            && set@[j].0 < x),
                    forall|j: int|
                        0 <= j < set@.len() ==> is_legal(
                            self@.cells,
                            (#[trigger] set@[j]).0 as int,
                            set@[j].1 as int,
                            self@.turn,
                        ),
                    forall|p: Position|
                        (p.1 < y || (p.1 == y && p.0 < x)) && is_legal(
                            self@.cells,
                            p.0 as int,
                            p.1 as int,
                            self@.turn,
                        ) ==> #[trigger] set@.contains(p),
                    set@.no_duplicates(),
            {
                let i: usize = y * SIZE + x;
                assert(self@.vacant.contains(i) <==> cell_at(self@.cells, (x as int, y as int)) is None);
                if self.unput_positions.contains(&i) {
                    let found = self.reversable_positions((x, y));
                    if found.len() != 0 {
                        let ghost before = set@;
                        set.push((x, y));
                        assert forall|p: Position|
                            (p.1 < y || (p.1 == y && p.0 < x + 1)) && is_legal(
                                self@.cells,
                                p.0 as int,
                                p.1 as int,
                                self@.turn,
                            ) implies #[trigger] set@.contains(p) by {
                            if p == (x, y) {
                                assert(set@[before.len() as int] == p);
                            } else {
                                assert(before.contains(p));
                                let j = choose|j: int| 0 <= j < before.len() && before[j] == p;
                                assert(set@[j] == p);
                            }
                        }
                    }
                }
            }
        }
        set
    }

    /// Plays the mover's disc at `position`, turns over every disc it captures,
    /// and hands the move to the opponent. Returns the discs turned over. On a
    /// rejected move nothing changes.
    pub fn put(&mut self, position: Position) -> (r: Result<Vec<Position>, PlaceError>)
        requires
            old(self)@.wf(),
        ensures
            final(self)@.wf(),
            ({
                let (g, x, y) = (old(self)@, position.0 as int, position.1 as int);
                &&& r is Ok <==> is_legal(g.cells, x, y, g.turn)
                &&& !on_board(x, y) ==> r == Err::<Vec<Position>, PlaceError>(PlaceError::OutOfRange)
                &&& on_board(x, y) && cell_at(g.cells, (x, y)) is Some ==> r == Err::<Vec<Position>, PlaceError>(PlaceError::AlreadyOccupied)
                &&& on_board(x, y) && cell_at(g.cells, (x, y)) is None && flips(g.cells, x, y, g.turn).len() == 0
                    ==> r == Err::<Vec<Position>, PlaceError>(PlaceError::NoFlips)
                &&& g.is_over() ==> r is Err
            }),
            r is Err ==> *final(self) == *old(self),
            r matches Ok(f) ==> {
                let (g, x, y) = (old(self)@, position.0 as int, position.1 as int);
                &&& as_points(f@) == flips(g.cells, x, y, g.turn)
                &&& final(self)@ == g.played(x, y)
                &&& final(self)@.points(g.turn) == g.points(g.turn) + 1 + f@.len()
                &&& final(self)@.points(g.turn.opposite()) == g.points(g.turn.opposite()) - f@.len()
                &&& final(self)@.black + final(self)@.white == g.black + g.white + 1
            },
    {
        proof {
            if self@.is_over() {
                lemma_over_has_no_move(self@);
            }
        }
        let (x, y) = position;
        if x >= SIZE || y >= SIZE {
            return Err(PlaceError::OutOfRange);
        }
        if self.get(position).is_some() {
            return Err(PlaceError::AlreadyOccupied);
        }
        let flipped = self.reversable_positions(position);
        if flipped.len() == 0 {
            return Err(PlaceError::NoFlips);
        }
        let ghost g = self@;
        let ghost m = g.turn;
        let ghost f = as_points(flipped@);
        let ghost o = idx(x as int, y as int);
        let ghost start = g.cells.update(o, Some(m));
        proof {
            lemma_flips(g.cells, x as int, y as int, m);
            lemma_count_update(g.cells, o, Some(m), m);
            lemma_count_update(g.cells, o, Some(m), m.opposite());
            lemma_count_bounds(g.cells, m);
            lemma_count_bounds(g.cells, m.opposite());
        }
        let mover = self.turn;
        let opponent = mover.another();
        self.set_with_color(position, mover);
        assert(self@.cells == paint(start, f.take(0), m));
        for j in 0..flipped.len()
            invariant
                g.wf(),
                m == g.turn,
                mover == m,
                opponent == m.opposite(),
                f == as_points(flipped@),
                f == flips(g.cells, x as int, y as int, m),
                o == idx(x as int, y as int),
                on_board(x as int, y as int),
                start == g.cells.update(o, Some(m)),
                forall|i: int|
                    #![trigger f[i]]
                    0 <= i < f.len() ==> {
                        &&& on_board(f[i].0, f[i].1)
                        &&& f[i] != (x as int, y as int)
                        &&& cell_at(g.cells, f[i]) == Some(m.opposite())
                    },
                f.no_duplicates(),
                self@.cells == paint(start, f.take(j as int), m),
                self@.cells.len() == 64,
                self@.vacant == g.vacant.remove(o as usize),
                forall|i: usize| self@.vacant.contains(i) <==> (i < 64 && self@.cells[i as int] is None),
                self@.turn == m,
                self@.passes == g.passes,
                self@.points(m) == count(self@.cells, m),
                self@.points(m.opposite()) == count(self@.cells, m.opposite()),
                self@.points(m) == g.points(m) + 1 + j,
                self@.points(m.opposite()) == g.points(m.opposite()) - j,
        {
            let q = flipped[j];
            let ghost qi = idx(q.0 as int, q.1 as int);
            let ghost before = self@.cells;
            proof {
                assert(f[j as int] == (q.0 as int, q.1 as int));
                let done = f.take(j as int);
                assert forall|t: int| 0 <= t < done.len() implies idx((#[trigger] done[t]).0, done[t].1) != qi by {
                    assert(done[t] == f[t]);
                }
                lemma_paint_other(start, done, m, qi);
                assert(before[qi] == Some(m.opposite()));
                lemma_count_update(before, qi, Some(m), m);
                lemma_count_update(before, qi, Some(m), m.opposite());
                lemma_count_bounds(before, m);
                lemma_count_bounds(before, m.opposite());
            }
            self.set_with_color(q, mover);
            self.decr_points(opponent);
            proof {
                assert(f.take(j as int + 1).drop_last() == f.take(j as int));
                assert(self@.vacant =~= g.vacant.remove(o as usize));
            }
        }
        self.turn = opponent;
        self.passes = 0;
        proof {
            assert(f.take(f.len() as int) == f);
            assert(self@.vacant == g.vacant.remove(o as usize));
            assert(self@ == g.played(x as int, y as int));
        }
        Ok(flipped)
    }

    /// Whether the game is over: the board is full, or both players passed in a row.
    pub fn is_terminal(&self) -> (r: bool)
        requires
            self@.wf(),
        ensures
            r == self@.is_over(),
    {
        let full_board = self.unput_positions.is_empty();
        proof {
            if full_board {
                assert forall|i: int| 0 <= i < self@.cells.len() implies self@.cells[i] is Some by {
                    assert(!self@.vacant.contains(i as usize));
                }
            } else {
                let i = choose|i: usize| self@.vacant.contains(i);
                assert(self@.cells[i as int] is None);
            }
        }
        self.passes >= 2 || full_board
    }

    /// Passes the turn to the opponent. Allowed only while the game goes on and
    /// the player to move has no legal move; on a refusal nothing changes.
    pub fn skip_turn(&mut self) -> (r: Result<(), SkipError>)
        requires
            old(self)@.wf(),
        ensures
            final(self)@.wf(),
            old(self)@.is_over() ==> r == Err::<(), SkipError>(SkipError::GameOver),
            !old(self)@.is_over() && has_move(old(self)@.cells, old(self)@.turn) ==> r == Err::<
                (),
                SkipError,
            >(SkipError::MovesAvailable),
            !old(self)@.is_over() && !has_move(old(self)@.cells, old(self)@.turn) ==> r is Ok
                && final(self)@ == old(self)@.skipped(),
            r is Err ==> *final(self) == *old(self),
    {
        if self.is_terminal() {
            return Err(SkipError::GameOver);
        }
        let moves = self.find_puttable_positions();
        if moves.len() > 0 {
            proof {
                let p = moves@[0];
                assert(moves@.contains(p));
                assert(is_legal(self@.cells, p.0 as int, p.1 as int, self@.turn));
            }
            return Err(SkipError::MovesAvailable);
        }
        proof {
            assert forall|x: int, y: int| !is_legal(self@.cells, x, y, self@.turn) by {
                if on_board(x, y) {
                    assert(!moves@.contains((x as usize, y as usize)));
                }
            }
        }
        self.turn = self.turn.another();
        self.passes = self.passes + 1;
        Ok(())
    }

    /// The outcome once the game is over: the colour with more discs wins, equal
    /// counts draw. `None` while the game goes on.
    pub fn outcome(&self) -> (r: Option<Outcome>)
        requires
            self@.wf(),
        ensures
            r == (if self@.is_over() {
                Some(outcome_of(self@.black, self@.white))
            } else {
                None
            }),
    {
        if !self.is_terminal() {
            None
        } else if self.black_points > self.white_points {
            Some(Outcome::Win(Color::Black))
        } else if self.black_points < self.white_points {
            Some(Outcome::Win(Color::White))
        } else {
            Some(Outcome::Draw)
        }
    }

    /// Whose move it is.
    pub fn turn(&self) -> (r: Color)
        ensures
            r == self@.turn,
    {
        self.turn
    }

    /// Number of Black discs on the board.
    pub fn black_points(&self) -> (r: i32)
        ensures
            r == self@.black,
    {
        self.black_points
    }

    /// Number of White discs on the board.
    pub fn white_points(&self) -> (r: i32)
        ensures
            r == self@.white,
    {
        self.white_points
    }

    /// Turns passed in a row since the last disc was placed.
    pub fn passes(&self) -> (r: u8)
        ensures
            r == self@.passes,
    {
        self.passes
    }
}

} // verus!
