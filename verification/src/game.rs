//! A game of Snake: the board, the snake, the food, and the rules.
//!
//! The game never owns time: [`SnakeGame::step`] advances the world by exactly
//! one tick, and everything that enters a game is its board size, its seed and
//! the turns queued between steps.

use vstd::prelude::*;
use std::collections::VecDeque;
use crate::board::{
    all_distinct, all_on_board, cell_at, free_cells, lemma_cell_at_index, lemma_free_cells_members,
    lemma_free_cells_total, lemma_free_cells_unfold, on_board,
};
use crate::rng::{spec_advance, spec_output, spec_seeded, Rng};
use crate::snake::{Coord, DeathCause, Direction, GameStatus, StepOutcome, spec_delta, spec_opposite};

verus! {

/// The smallest playable board edge, in cells.
pub const MIN_BOARD_SIZE: i32 = 2;

/// The largest board edge, in cells.
pub const MAX_BOARD_SIZE: i32 = 4096;

/// Everything a game is, as plain values.
pub struct SnakeView {
    pub width: i32,
    pub height: i32,
    /// Head first, tail last.
    pub body: Seq<Coord>,
    pub direction: Direction,
    pub queued: Option<Direction>,
    pub food: Option<Coord>,
    pub status: GameStatus,
    pub score: u32,
    pub ticks: u64,
    pub rng: u64,
}

/// Whether a board of this size can be played.
pub open spec fn valid_board(width: int, height: int) -> bool {
    MIN_BOARD_SIZE <= width <= MAX_BOARD_SIZE && MIN_BOARD_SIZE <= height <= MAX_BOARD_SIZE
}

/// The invariant every game keeps, whatever happens to it.
pub open spec fn snake_wf(s: SnakeView) -> bool {
    &&& valid_board(s.width as int, s.height as int)
    &&& 1 <= s.body.len() <= s.width * s.height
    &&& s.body.len() == s.score + 1
    &&& all_distinct(s.body)
    &&& all_on_board(s.width as int, s.height as int, s.body)
    &&& match s.food {
        Some(f) => on_board(s.width as int, s.height as int, f) && !s.body.contains(f),
        None => s.body.len() == s.width * s.height,
    }
    &&& (s.status == GameStatus::Won <==> s.body.len() == s.width * s.height)
}

/// Places food on the `nth` free cell, drawn from the generator, or clears it
/// on a full board.
pub open spec fn spec_place_food(s: SnakeView) -> SnakeView {
    let free = s.width * s.height - s.body.len();
    if free <= 0 {
        SnakeView { food: None, ..s }
    } else {
        let state = spec_advance(s.rng);
        let nth = (spec_output(state) as int) % free;
        SnakeView {
            rng: state,
            food: Some(free_cells(s.width as int, s.body, (s.width * s.height) as nat)[nth]),
            ..s
        }
    }
}

/// A fresh game: a length-one snake at the centre travelling right, and food.
#[verifier::opaque]
pub open spec fn spec_new_game(width: i32, height: i32, seed: u64) -> SnakeView {
    spec_place_food(
        SnakeView {
            width,
            height,
            body: seq![Coord { x: (width / 2) as i32, y: (height / 2) as i32 }],
            direction: Direction::Right,
            queued: None,
            food: None,
            status: GameStatus::Running,
            score: 0,
            ticks: 0,
            rng: spec_seeded(seed),
        },
    )
}

/// The direction a step travels: the queued turn, unless it would reverse a
/// snake that has a neck.
pub open spec fn step_direction(s: SnakeView) -> Direction {
    match s.queued {
        Some(next) => if s.body.len() == 1 || next != spec_opposite(s.direction) {
            next
        } else {
            s.direction
        },
        None => s.direction,
    }
}

/// One tick of the world, and what it did.
#[verifier::opaque]
pub open spec fn spec_step(s: SnakeView) -> (SnakeView, StepOutcome) {
    if s.status != GameStatus::Running {
        (s, StepOutcome::Ended)
    } else {
        let dir = step_direction(s);
        let head = s.body[0];
        let nx = head.x + spec_delta(dir).x;
        let ny = head.y + spec_delta(dir).y;
        let moved = SnakeView { ticks: (s.ticks + 1) as u64, direction: dir, queued: None, ..s };
        if !(0 <= nx < s.width && 0 <= ny < s.height) {
            (
                SnakeView { status: GameStatus::Dead(DeathCause::HitWall), ..moved },
                StepOutcome::Died(DeathCause::HitWall),
            )
        } else {
            let nh = Coord { x: nx as i32, y: ny as i32 };
            let eating = s.food == Some(nh);
            let rest = if eating {
                s.body
            } else {
                s.body.drop_last()
            };
            if rest.contains(nh) {
                (
                    SnakeView { status: GameStatus::Dead(DeathCause::HitSelf), ..moved },
                    StepOutcome::Died(DeathCause::HitSelf),
                )
            } else if eating {
                let score = (s.score + 1) as u32;
                let grown = SnakeView { body: seq![nh] + rest, score, food: None, ..moved };
                if grown.body.len() == s.width * s.height {
                    (SnakeView { status: GameStatus::Won, ..grown }, StepOutcome::Won)
                } else {
                    (spec_place_food(grown), StepOutcome::Ate { at: nh, score })
                }
            } else {
                (SnakeView { body: seq![nh] + rest, ..moved }, StepOutcome::Moved)
            }
        }
    }
}

/// Whether a turn request is accepted.
pub open spec fn turn_accepted(s: SnakeView, direction: Direction) -> bool {
    s.status == GameStatus::Running && !(s.body.len() > 1 && direction == spec_opposite(
        s.direction,
    ))
}

/// A game of Snake: the board, the snake, the food, and the rules.
#[derive(Clone, Debug)]
pub struct SnakeGame {
    width: i32,
    height: i32,
    /// Head first, tail last.
    body: VecDeque<Coord>,
    direction: Direction,
    queued: Option<Direction>,
    food: Option<Coord>,
    status: GameStatus,
    score: u32,
    ticks: u64,
    rng: Rng,
}

impl View for SnakeGame {
    type V = SnakeView;

    closed spec fn view(&self) -> SnakeView {
        SnakeView {
            width: self.width,
            height: self.height,
            body: self.body@,
            direction: self.direction,
            queued: self.queued,
            food: self.food,
            status: self.status,
            score: self.score,
            ticks: self.ticks,
            rng: self.rng.state(),
        }
    }
}

/// A snake in a running game is shorter than the board.
pub proof fn lemma_running_has_room(s: SnakeView)
    requires
        snake_wf(s),
        s.status == GameStatus::Running,
    ensures
        s.body.len() < s.width * s.height,
        s.food is Some,
{
}

/// Food placement on a body of distinct on-board cells that leaves room puts
/// the food on a free on-board cell.
pub proof fn lemma_place_food_sound(s: SnakeView)
    requires
        valid_board(s.width as int, s.height as int),
        all_distinct(s.body),
        all_on_board(s.width as int, s.height as int, s.body),
        s.body.len() <= s.width * s.height,
    ensures
        ({
            let t = spec_place_food(s);
            &&& t.body == s.body
            &&& match t.food {
                Some(f) => on_board(s.width as int, s.height as int, f) && !s.body.contains(f),
                None => s.body.len() == s.width * s.height,
            }
        }),
{
    let w = s.width as int;
    let h = s.height as int;
    lemma_board_area(w, h);
    lemma_free_cells_total(w, h, s.body);
    lemma_free_cells_members(w, h, s.body, (w * h) as nat);
    let free = w * h - s.body.len();
    if free > 0 {
        let nth = (spec_output(spec_advance(s.rng)) as int) % free;
        vstd::arithmetic::div_mod::lemma_mod_pos_bound(spec_output(spec_advance(s.rng)) as int, free);
        assert(0 <= nth < free);
        let f = free_cells(w, s.body, (w * h) as nat)[nth];
        assert(on_board(w, h, f) && !s.body.contains(f));
    }
}

/// The area of a playable board is positive and fits an `i32`.
pub proof fn lemma_board_area(w: int, h: int)
    requires
        valid_board(w, h),
    ensures
        4 <= w * h <= 4096 * 4096,
{
    assert(4 <= w * h <= 4096 * 4096) by (nonlinear_arith)
        requires
            2 <= w <= 4096,
            2 <= h <= 4096,
    ;
}

/// Every step keeps the invariant.
pub proof fn lemma_step_keeps_wf(s: SnakeView)
    requires
        snake_wf(s),
    ensures
        snake_wf(spec_step(s).0),
        spec_step(s).0.ticks <= s.ticks + 1,
        spec_step(s).0.width == s.width,
        spec_step(s).0.height == s.height,
        s.status != GameStatus::Running ==> spec_step(s) == (s, StepOutcome::Ended),
{
    reveal(spec_step);
    let w = s.width as int;
    let h = s.height as int;
    lemma_board_area(w, h);
    if s.status == GameStatus::Running {
        let dir = step_direction(s);
        let head = s.body[0];
        let nx = head.x + spec_delta(dir).x;
        let ny = head.y + spec_delta(dir).y;
        if 0 <= nx < s.width && 0 <= ny < s.height {
            let nh = Coord { x: nx as i32, y: ny as i32 };
            let eating = s.food == Some(nh);
            let rest = if eating {
                s.body
            } else {
                s.body.drop_last()
            };
            if !rest.contains(nh) {
                let body2 = seq![nh] + rest;
                assert(all_distinct(body2)) by {
                    assert forall|i: int, j: int|
                        0 <= i < body2.len() && 0 <= j < body2.len() && i != j implies body2[i]
                        != body2[j] by {
                        if i == 0 {
                            assert(body2[j] == rest[j - 1]);
                        } else if j == 0 {
                            assert(body2[i] == rest[i - 1]);
                        } else {
                            assert(body2[i] == s.body[i - 1]);
                            assert(body2[j] == s.body[j - 1]);
                        }
                    }
                }
                assert(all_on_board(w, h, body2)) by {
                    assert forall|i: int| 0 <= i < body2.len() implies on_board(
                        w,
                        h,
                        #[trigger] body2[i],
                    ) by {
                        if i > 0 {
                            assert(body2[i] == s.body[i - 1]);
                        }
                    }
                }
                if eating {
                    assert(body2.len() <= w * h) by {
                        lemma_free_cells_total(w, h, body2);
                    }
                    let grown = SnakeView {
                        body: body2,
                        score: (s.score + 1) as u32,
                        food: None,
                        ticks: (s.ticks + 1) as u64,
                        direction: dir,
                        queued: None,
                        ..s
                    };
                    if body2.len() != w * h {
                        lemma_place_food_sound(grown);
                    }
                } else {
                    assert(s.body.len() < w * h);
                    assert forall|f: Coord| s.food == Some(f) implies !body2.contains(f) by {
                        if body2.contains(f) {
                            let j = choose|j: int| 0 <= j < body2.len() && body2[j] == f;
                            if j > 0 {
                                assert(s.body[j - 1] == f);
                            }
                        }
                    }
                }
            }
        }
    }
}

/// A step of a running game advances its clock by one tick.
pub proof fn lemma_step_ticks(s: SnakeView)
    requires
        s.status == GameStatus::Running,
        s.ticks < u64::MAX,
    ensures
        spec_step(s).0.ticks == s.ticks + 1,
{
    reveal(spec_step);
}

/// A fresh game keeps the invariant.
pub proof fn lemma_new_game_wf(width: i32, height: i32, seed: u64)
    requires
        valid_board(width as int, height as int),
    ensures
        snake_wf(spec_new_game(width, height, seed)),
{
    reveal(spec_new_game);
    lemma_board_area(width as int, height as int);
    let s0 = SnakeView {
        width,
        height,
        body: seq![Coord { x: (width / 2) as i32, y: (height / 2) as i32 }],
        direction: Direction::Right,
        queued: None,
        food: None,
        status: GameStatus::Running,
        score: 0,
        ticks: 0,
        rng: spec_seeded(seed),
    };
    assert(all_on_board(width as int, height as int, s0.body)) by {
        assert(on_board(width as int, height as int, s0.body[0]));
    }
    lemma_place_food_sound(s0);
}

impl SnakeGame {
    /// The invariant of the game.
    pub open spec fn wf(&self) -> bool {
        snake_wf(self@)
    }

    /// Starts a game on a `width`x`height` board.
    ///
    /// The snake begins length 1 at the centre travelling right, and `seed`
    /// fixes every food placement, so two games with the same seed and the same
    /// inputs are identical.
    pub fn new(width: i32, height: i32, seed: u64) -> (g: SnakeGame)
        requires
            valid_board(width as int, height as int),
        ensures
            g@ == spec_new_game(width, height, seed),
            g.wf(),
            g@.width == width,
            g@.height == height,
            g@.ticks == 0,
            g@.score == 0,
            g@.status == GameStatus::Running,
            g@.direction == Direction::Right,
            g@.queued is None,
    {
        let mut body = VecDeque::new();
        body.push_back(Coord::new(width / 2, height / 2));
        let mut game = SnakeGame {
            width,
            height,
            body,
            direction: Direction::Right,
            queued: None,
            food: None,
            status: GameStatus::Running,
            score: 0,
            ticks: 0,
            rng: Rng::new(seed),
        };
        proof {
            lemma_board_area(width as int, height as int);
            assert(game@.body =~= seq![Coord { x: (width / 2) as i32, y: (height / 2) as i32 }]);
            assert(all_on_board(width as int, height as int, game@.body)) by {
                assert(on_board(width as int, height as int, game@.body[0]));
            }
        }
        game.place_food();
        proof {
            reveal(spec_new_game);
            lemma_new_game_wf(width, height, seed);
        }
        game
    }

    /// Requests a direction change, applied by the next step.
    ///
    /// Reversing straight into the snake's own neck is rejected, and so is a
    /// change once the game has ended. Returns whether the request was
    /// accepted.
    pub fn queue_turn(&mut self, direction: Direction) -> (accepted: bool)
        requires
            old(self).wf(),
        ensures
            accepted == turn_accepted(old(self)@, direction),
            final(self)@ == (if accepted {
                SnakeView { queued: Some(direction), ..old(self)@ }
            } else {
                old(self)@
            }),
            final(self).wf(),
    {
        if self.status != GameStatus::Running {
            return false;
        }
        if self.body.len() > 1 && direction == self.direction.opposite() {
            return false;
        }
        self.queued = Some(direction);
        true
    }

    /// Whether `c` is one of the snake's cells.
    fn body_contains(&self, c: Coord) -> (r: bool)
        ensures
            r == self.body@.contains(c),
    {
        let n = self.body.len();
        let mut i: usize = 0;
        while i < n
            invariant
                n == self.body@.len(),
                i <= n,
                forall|j: int| 0 <= j < i ==> self.body@[j] != c,
            decreases n - i,
        {
            if self.body[i] == c {
                return true;
            }
            i = i + 1;
        }
        false
    }

    /// Advances the world by exactly one tick.
    ///
    /// This is the only thing that moves the snake. It does not know how much
    /// real time has passed.
    pub fn step(&mut self) -> (outcome: StepOutcome)
        requires
            old(self).wf(),
            old(self)@.status == GameStatus::Running ==> old(self)@.ticks < u64::MAX,
        ensures
            (final(self)@, outcome) == spec_step(old(self)@),
            final(self).wf(),
    {
        proof {
            reveal(spec_step);
            lemma_step_keeps_wf(self@);
            lemma_board_area(self.width as int, self.height as int);
        }
        let ghost s = self@;
        if self.status != GameStatus::Running {
            return StepOutcome::Ended;
        }
        self.ticks = self.ticks + 1;
        let q = self.queued;
        self.queued = None;
        if let Some(next) = q {
            if self.body.len() == 1 || next != self.direction.opposite() {
                self.direction = next;
            }
        }
        let head = self.body[0];
        assert(on_board(s.width as int, s.height as int, s.body[0]));
        let delta = self.direction.delta();
        let nx = head.x + delta.x;
        let ny = head.y + delta.y;
        if !(nx >= 0 && ny >= 0 && nx < self.width && ny < self.height) {
            self.status = GameStatus::Dead(DeathCause::HitWall);
            return StepOutcome::Died(DeathCause::HitWall);
        }
        let next_head = Coord::new(nx, ny);
        let eating = match self.food {
            Some(f) => f == next_head,
            None => false,
        };
        let mut tail: Option<Coord> = None;
        if !eating {
            tail = self.body.pop_back();
        }
        if self.body_contains(next_head) {
            // Put the tail back so the death state shows the real snake.
            if let Some(t) = tail {
                self.body.push_back(t);
            }
            proof {
                if !eating {
                    assert(self.body@ =~= s.body);
                }
            }
            self.status = GameStatus::Dead(DeathCause::HitSelf);
            return StepOutcome::Died(DeathCause::HitSelf);
        }
        self.body.push_front(next_head);
        if eating {
            self.score = self.score + 1;
            self.food = None;
            if self.body.len() as i32 == self.width * self.height {
                self.status = GameStatus::Won;
                return StepOutcome::Won;
            }
            self.place_food();
            return StepOutcome::Ate { at: next_head, score: self.score };
        }
        StepOutcome::Moved
    }

    /// Restarts with a fresh board, keeping the dimensions and reseeding.
    pub fn reset(&mut self, seed: u64)
        requires
            old(self).wf(),
        ensures
            final(self)@ == spec_new_game(old(self)@.width, old(self)@.height, seed),
            final(self).wf(),
    {
        *self = SnakeGame::new(self.width, self.height, seed);
    }

    /// Board width in cells.
    pub fn width(&self) -> (w: i32)
        ensures
            w == self@.width,
    {
        self.width
    }

    /// Board height in cells.
    pub fn height(&self) -> (h: i32)
        ensures
            h == self@.height,
    {
        self.height
    }

    /// Whether a coordinate lies on the board.
    pub fn contains(&self, c: Coord) -> (r: bool)
        ensures
            r == on_board(self@.width as int, self@.height as int, c),
    {
        c.x >= 0 && c.y >= 0 && c.x < self.width && c.y < self.height
    }

    /// The snake, head first.
    pub fn body(&self) -> (cells: Vec<Coord>)
        ensures
            cells@ == self@.body,
    {
        let n = self.body.len();
        let mut cells: Vec<Coord> = Vec::new();
        let mut i: usize = 0;
        while i < n
            invariant
                n == self.body@.len(),
                i <= n,
                cells@ == self.body@.subrange(0, i as int),
            decreases n - i,
        {
            cells.push(self.body[i]);
            i = i + 1;
            proof {
                assert(cells@ =~= self.body@.subrange(0, i as int));
            }
        }
        proof {
            assert(cells@ =~= self.body@);
        }
        cells
    }

    /// The snake's head.
    pub fn head(&self) -> (c: Coord)
        requires
            self.wf(),
        ensures
            c == self@.body[0],
    {
        self.body[0]
    }

    /// How many cells the snake occupies.
    pub fn len(&self) -> (n: usize)
        ensures
            n == self@.body.len(),
    {
        self.body.len()
    }

    /// Always `false`: the snake always occupies at least one cell.
    pub fn is_empty(&self) -> (r: bool)
        requires
            self.wf(),
        ensures
            r == (self@.body.len() == 0),
            !r,
    {
        false
    }

    /// The current food, or `None` on a full board.
    pub fn food(&self) -> (f: Option<Coord>)
        ensures
            f == self@.food,
    {
        self.food
    }

    /// The direction the snake is travelling.
    pub fn direction(&self) -> (d: Direction)
        ensures
            d == self@.direction,
    {
        self.direction
    }

    /// Food eaten so far.
    pub fn score(&self) -> (n: u32)
        ensures
            n == self@.score,
    {
        self.score
    }

    /// How many steps have been taken.
    pub fn ticks(&self) -> (n: u64)
        ensures
            n == self@.ticks,
    {
        self.ticks
    }

    /// Where the game stands.
    pub fn status(&self) -> (st: GameStatus)
        ensures
            st == self@.status,
    {
        self.status
    }

    /// Whether the game has ended, by death or by filling the board.
    pub fn is_over(&self) -> (r: bool)
        ensures
            r == (self@.status != GameStatus::Running),
    {
        self.status != GameStatus::Running
    }

    /// Places food on a random free cell, or clears it if the board is full.
    ///
    /// Picks the nth *free* cell rather than retrying random cells, so it stays
    /// linear in the board even when the snake covers almost everything.
    fn place_food(&mut self)
        requires
            valid_board(old(self)@.width as int, old(self)@.height as int),
            all_distinct(old(self)@.body),
            all_on_board(old(self)@.width as int, old(self)@.height as int, old(self)@.body),
            old(self)@.body.len() <= old(self)@.width * old(self)@.height,
        ensures
            final(self)@ == spec_place_food(old(self)@),
    {
        let ghost s = self@;
        let ghost w = self.width as int;
        let ghost h = self.height as int;
        proof {
            lemma_board_area(w, h);
            lemma_free_cells_total(w, h, s.body);
        }
        let free = (self.width * self.height) as usize - self.body.len();
        if free == 0 {
            self.food = None;
            return;
        }
        let nth = self.rng.below(free);
        proof {
            vstd::arithmetic::div_mod::lemma_mod_pos_bound(
                spec_output(spec_advance(s.rng)) as int,
                free as int,
            );
        }
        let c = self.nth_free_cell(nth);
        self.food = Some(c);
    }

    /// The `nth` cell of the row-major scan that the snake does not cover.
    fn nth_free_cell(&self, nth: usize) -> (c: Coord)
        requires
            valid_board(self@.width as int, self@.height as int),
            nth < free_cells(self@.width as int, self@.body, (self@.width * self@.height) as nat).len(),
        ensures
            c == free_cells(self@.width as int, self@.body, (self@.width * self@.height) as nat)[nth as int],
    {
        let ghost w = self.width as int;
        let ghost h = self.height as int;
        let ghost body = self@.body;
        proof {
            lemma_board_area(w, h);
            assert(0 * w + 0 == 0);
        }
        let mut remaining = nth;
        let mut x: i32 = 0;
        let mut y: i32 = 0;
        loop
            invariant
                w == self.width,
                h == self.height,
                body == self@.body,
                valid_board(w, h),
                0 <= y < h,
                0 <= x < w,
                0 <= y * w + x < w * h,
                free_cells(w, body, (y * w + x) as nat).len() + remaining == nth,
                nth < free_cells(w, body, (w * h) as nat).len(),
            decreases w * h - (y * w + x),
        {
            let c = Coord::new(x, y);
            proof {
                lemma_scan_step(w, h, body, x as int, y as int);
            }
            if !self.body_contains(c) {
                if remaining == 0 {
                    proof {
                        lemma_scan_found(w, h, body, x as int, y as int, nth as int);
                    }
                    return c;
                }
                remaining = remaining - 1;
            }
            proof {
                lemma_scan_next(w, h, body, x as int, y as int, nth as int, remaining as int);
            }
            if x + 1 < self.width {
                x = x + 1;
            } else {
                x = 0;
                y = y + 1;
            }
        }
    }
}

/// Moving the scan on by one position: while the wanted free cell is still
/// ahead, the next position is on the board.
proof fn lemma_scan_next(w: int, h: int, body: Seq<Coord>, x: int, y: int, nth: int, remaining: int)
    requires
        valid_board(w, h),
        0 <= y < h,
        0 <= x < w,
        0 <= remaining,
        free_cells(w, body, (y * w + x + 1) as nat).len() + remaining == nth,
        nth < free_cells(w, body, (w * h) as nat).len(),
    ensures
        y * w + x + 1 < w * h,
        x + 1 == w ==> (y + 1) * w + 0 == y * w + x + 1 && y + 1 < h,
{
    lemma_board_area(w, h);
    assert(y * w + x + 1 <= w * h) by (nonlinear_arith)
        requires
            0 <= y < h,
            0 <= x < w,
    ;
    assert((y + 1) * w == y * w + w) by (nonlinear_arith);
    if y * w + x + 1 == w * h {
        assert(free_cells(w, body, (w * h) as nat).len() <= nth);
    }
    if x + 1 == w {
        assert(y + 1 < h) by (nonlinear_arith)
            requires
                (y + 1) * w < w * h,
                0 < w,
        ;
    }
}

/// One position of the row-major scan: its index is in range, its cell is
/// `(x, y)`, and the free-cell prefix grows by that cell when it is free.
proof fn lemma_scan_step(w: int, h: int, body: Seq<Coord>, x: int, y: int)
    requires
        valid_board(w, h),
        0 <= y < h,
        0 <= x < w,
    ensures
        0 <= y * w + x < w * h,
        cell_at(w, y * w + x) == (Coord { x: x as i32, y: y as i32 }),
        free_cells(w, body, (y * w + x + 1) as nat) == (if body.contains(
            Coord { x: x as i32, y: y as i32 },
        ) {
            free_cells(w, body, (y * w + x) as nat)
        } else {
            free_cells(w, body, (y * w + x) as nat).push(Coord { x: x as i32, y: y as i32 })
        }),
{
    lemma_board_area(w, h);
    assert(0 <= y * w + x < w * h) by (nonlinear_arith)
        requires
            0 <= y < h,
            0 <= x < w,
    ;
    lemma_cell_at_index(w, x, y);
    lemma_free_cells_unfold(w, body, (y * w + x) as nat);
}

/// When the scan reaches a free cell with `target` free cells before it, that
/// cell is the `target`-th free cell of the whole board.
proof fn lemma_scan_found(w: int, h: int, body: Seq<Coord>, x: int, y: int, target: int)
    requires
        valid_board(w, h),
        0 <= y < h,
        0 <= x < w,
        !body.contains(Coord { x: x as i32, y: y as i32 }),
        free_cells(w, body, (y * w + x) as nat).len() == target,
    ensures
        free_cells(w, body, (w * h) as nat)[target] == (Coord { x: x as i32, y: y as i32 }),
        target < free_cells(w, body, (w * h) as nat).len(),
{
    lemma_scan_step(w, h, body, x, y);
    lemma_free_cells_prefix(w, body, (y * w + x + 1) as nat, (w * h) as nat);
    assert(free_cells(w, body, (y * w + x + 1) as nat)[target] == (Coord { x: x as i32, y: y as i32 }));
}

/// A longer scan keeps every free cell of a shorter one, in place.
pub proof fn lemma_free_cells_prefix(w: int, body: Seq<Coord>, m: nat, n: nat)
    requires
        m <= n,
    ensures
        free_cells(w, body, m).len() <= free_cells(w, body, n).len(),
        forall|i: int|
            0 <= i < free_cells(w, body, m).len() ==> #[trigger] free_cells(w, body, n)[i]
                == free_cells(w, body, m)[i],
    decreases n - m,
{
    if m < n {
        lemma_free_cells_prefix(w, body, m, (n - 1) as nat);
        let a = free_cells(w, body, (n - 1) as nat);
        let b = free_cells(w, body, n);
        assert forall|i: int| 0 <= i < free_cells(w, body, m).len() implies #[trigger] b[i]
            == free_cells(w, body, m)[i] by {
            assert(b[i] == a[i]);
        }
    }
}

} // verus!

verus! {

/// A game that has ended stays ended: stepping reports `Ended` and changes
/// nothing, and no turn is accepted.
pub proof fn lemma_ended_game_is_frozen(s: SnakeView, direction: Direction)
    requires
        s.status != GameStatus::Running,
    ensures
        spec_step(s) == (s, StepOutcome::Ended),
        !turn_accepted(s, direction),
{
    reveal(spec_step);
}

/// A snake with a neck is never steered straight back into it.
pub proof fn lemma_reversal_refused(s: SnakeView, direction: Direction)
    requires
        s.body.len() > 1,
        direction == spec_opposite(s.direction),
    ensures
        !turn_accepted(s, direction),
        spec_opposite(step_direction(s)) != s.direction || s.queued is None || s.queued
            != Some(direction),
{
}

/// The end of a game is consistent: a win fills the board and leaves no
/// food, a death leaves the snake on the board, and a running game always has
/// food.
pub proof fn lemma_end_state_consistent(s: SnakeView)
    requires
        snake_wf(s),
    ensures
        s.status == GameStatus::Won ==> s.body.len() == s.width * s.height && s.food is None,
        s.status is Dead ==> s.body.len() <= s.width * s.height,
        s.status == GameStatus::Running ==> s.food is Some,
        s.body.len() == s.score + 1,
{
    if s.status == GameStatus::Won {
        if let Some(f) = s.food {
            lemma_full_board_has_no_free_cell(s.width as int, s.height as int, s.body, f);
        }
    }
}

/// A body of distinct on-board cells that fills the board leaves no cell
/// free.
pub proof fn lemma_full_board_has_no_free_cell(w: int, h: int, body: Seq<Coord>, c: Coord)
    requires
        valid_board(w, h),
        all_distinct(body),
        all_on_board(w, h, body),
        body.len() == w * h,
        on_board(w, h, c),
    ensures
        body.contains(c),
{
    lemma_board_area(w, h);
    lemma_free_cells_total(w, h, body);
    if !body.contains(c) {
        let k = c.y * w + c.x;
        assert(0 <= k < w * h) by (nonlinear_arith)
            requires
                0 <= c.y < h,
                0 <= c.x < w,
                k == c.y * w + c.x,
        ;
        crate::board::lemma_scan_index_cell(w, c);
        lemma_free_cells_unfold(w, body, k as nat);
        lemma_free_cells_prefix(w, body, (k + 1) as nat, (w * h) as nat);
        assert(free_cells(w, body, (k + 1) as nat).len() > 0);
    }
}

/// The snake may follow its own vacating tail: moving onto the cell the tail
/// leaves this tick, without eating, is not a collision.
pub proof fn lemma_tail_follow_is_safe(s: SnakeView)
    requires
        snake_wf(s),
        s.status == GameStatus::Running,
        s.body.len() > 1,
        ({
            let d = spec_delta(step_direction(s));
            let nh = Coord { x: (s.body[0].x + d.x) as i32, y: (s.body[0].y + d.y) as i32 };
            nh == s.body.last() && s.food != Some(nh)
        }),
    ensures
        spec_step(s).1 == StepOutcome::Moved,
{
    reveal(spec_step);
    let d = spec_delta(step_direction(s));
    let nh = Coord { x: (s.body[0].x + d.x) as i32, y: (s.body[0].y + d.y) as i32 };
    assert(on_board(s.width as int, s.height as int, s.body[s.body.len() - 1]));
    assert(on_board(s.width as int, s.height as int, s.body[0]));
    assert(!s.body.drop_last().contains(nh)) by {
        if s.body.drop_last().contains(nh) {
            let j = choose|j: int| 0 <= j < s.body.len() - 1 && s.body.drop_last()[j] == nh;
            assert(s.body[j] == s.body[s.body.len() - 1]);
        }
    }
}


/// One call a player makes on a game.
#[derive(Clone, Copy, Debug, PartialEq, Eq, Structural)]
pub enum GameCall {
    /// `queue_turn` with this direction.
    Turn(Direction),
    /// `step`.
    Step,
}

/// What a call answered.
#[derive(Clone, Copy, Debug, PartialEq, Eq, Structural)]
pub enum CallAnswer {
    /// Whether the turn was accepted.
    Turned(bool),
    /// What the step did.
    Stepped(StepOutcome),
}

/// A call's effect and answer.
pub open spec fn spec_call(s: SnakeView, call: GameCall) -> (SnakeView, CallAnswer) {
    match call {
        GameCall::Turn(d) => {
            let ok = turn_accepted(s, d);
            (
                if ok {
                    SnakeView { queued: Some(d), ..s }
                } else {
                    s
                },
                CallAnswer::Turned(ok),
            )
        },
        GameCall::Step => (spec_step(s).0, CallAnswer::Stepped(spec_step(s).1)),
    }
}

/// The calls made one after the other: the game they leave and their
/// answers, in order.
pub open spec fn spec_run(s: SnakeView, calls: Seq<GameCall>) -> (SnakeView, Seq<CallAnswer>)
    decreases calls.len(),
{
    if calls.len() == 0 {
        (s, Seq::empty())
    } else {
        let (t, answers) = spec_run(s, calls.drop_last());
        let (u, last) = spec_call(t, calls.last());
        (u, answers.push(last))
    }
}

/// Play is deterministic: two games in the same state (two games started
/// with the same size and seed, say) that receive the same calls answer
/// every call alike and end in the same state.
pub proof fn lemma_play_is_deterministic(a: SnakeView, b: SnakeView, calls: Seq<GameCall>)
    requires
        a == b,
    ensures
        spec_run(a, calls).1 == spec_run(b, calls).1,
        spec_run(a, calls).0 == spec_run(b, calls).0,
{
}

impl SnakeGame {
    /// Makes the calls one after the other and returns their answers.
    pub fn run(&mut self, calls: &[GameCall]) -> (answers: Vec<CallAnswer>)
        requires
            old(self).wf(),
            old(self)@.ticks + calls@.len() <= u64::MAX,
        ensures
            (final(self)@, answers@) == spec_run(old(self)@, calls@),
            final(self).wf(),
    {
        let ghost start = self@;
        let mut answers: Vec<CallAnswer> = Vec::new();
        let mut i: usize = 0;
        while i < calls.len()
            invariant
                i <= calls@.len(),
                self.wf(),
                start.ticks + calls@.len() <= u64::MAX,
                self@.ticks <= start.ticks + i,
                (self@, answers@) == spec_run(start, calls@.take(i as int)),
            decreases calls@.len() - i,
        {
            proof {
                assert(calls@.take(i + 1).drop_last() =~= calls@.take(i as int));
                assert(calls@.take(i + 1).last() == calls@[i as int]);
                lemma_step_keeps_wf(self@);
            }
            match calls[i] {
                GameCall::Turn(d) => {
                    let ok = self.queue_turn(d);
                    answers.push(CallAnswer::Turned(ok));
                },
                GameCall::Step => {
                    let o = self.step();
                    answers.push(CallAnswer::Stepped(o));
                },
            }
            i = i + 1;
        }
        proof {
            assert(calls@.take(calls@.len() as int) =~= calls@);
        }
        answers
    }
}

} // verus!
