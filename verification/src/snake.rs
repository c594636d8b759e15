//! Snake on a 12 x 8 board: steering, moving and growing the body, food
//! placement and the board picture. The turn-based game advances one cell
//! per key; the real-time game advances on a timer and steers on keys.

use vstd::prelude::*;
use std::collections::VecDeque;
use crate::lcg::{
    Lcg, lcg_iterate, lemma_double_step_period, lemma_lcg_iterate_step, lemma_lcg_periodic,
};

verus! {

/// A board cell `(x, y)`; also used for a direction `(dx, dy)`.
pub type Cell = (i32, i32);

/// Interior width: playable columns are `1..=W` (columns 0 and `W + 1` are walls).
pub const W: i32 = 12;
/// Interior height: playable rows are `1..=H`.
pub const H: i32 = 8;
/// Safety bound on turns in the turn-based game.
pub const MAX_TURNS: u32 = 1000;
/// The quit key, `q`.
pub const QUIT: u8 = 0x71;
/// The interrupt key, Ctrl-C.
pub const CTRL_C: u8 = 0x03;

/// `c` is a playable cell.
pub open spec fn in_bounds(c: Cell) -> bool {
    1 <= c.0 <= W && 1 <= c.1 <= H
}

/// A snake body, head first: at least one cell, every cell playable, no
/// cell twice.
pub open spec fn body_ok(s: Seq<Cell>) -> bool {
    &&& s.len() >= 1
    &&& forall|i: int| 0 <= i < s.len() ==> in_bounds(#[trigger] s[i])
    &&& s.no_duplicates()
}

/// `d` is one of the four unit directions.
pub open spec fn unit_dir(d: Cell) -> bool {
    d == (0i32, -1i32) || d == (0i32, 1i32) || d == (-1i32, 0i32) || d == (1i32, 0i32)
}

/// The direction a key asks for: `w`/`W` up, `s`/`S` down, `a`/`A` left,
/// `d`/`D` right; any other key asks for nothing.
pub open spec fn key_dir(key: u8) -> Option<Cell> {
    if key == 0x77 || key == 0x57 {
        Some((0i32, -1i32))
    } else if key == 0x73 || key == 0x53 {
        Some((0i32, 1i32))
    } else if key == 0x61 || key == 0x41 {
        Some((-1i32, 0i32))
    } else if key == 0x64 || key == 0x44 {
        Some((1i32, 0i32))
    } else {
        None
    }
}

/// The direction after `key` while moving in `cur`: the key's direction,
/// unless there is none or it would reverse the snake onto its own neck.
pub open spec fn steer_spec(key: u8, cur: Cell) -> Cell {
    match key_dir(key) {
        Some(d) => if d.0 == -cur.0 && d.1 == -cur.1 { cur } else { d },
        None => cur,
    }
}

/// Map a key to a direction, ignoring a 180° reversal. Unknown keys keep the
/// current direction.
pub fn steer(key: u8, cur: Cell) -> (r: Cell)
    requires
        cur.0 != i32::MIN,
        cur.1 != i32::MIN,
    ensures
        r == steer_spec(key, cur),
{
    let d: Cell = if key == 0x77 || key == 0x57 {
        (0, -1)
    } else if key == 0x73 || key == 0x53 {
        (0, 1)
    } else if key == 0x61 || key == 0x41 {
        (-1, 0)
    } else if key == 0x64 || key == 0x44 {
        (1, 0)
    } else {
        return cur;
    };
    if d.0 == -cur.0 && d.1 == -cur.1 {
        cur
    } else {
        d
    }
}

/// Steering never turns the snake back onto itself: from any of the four
/// directions, the result is again one of them and never the opposite one.
/// `w`, `s`, `a`, `d` (either case) ask for up, down, left, right, and are
/// obeyed unless they ask for the opposite direction; any other key changes
/// nothing.
pub proof fn lemma_steer_never_reverses(key: u8, cur: Cell)
    requires
        unit_dir(cur),
    ensures
        steer_spec(key, cur) != ((-cur.0) as i32, (-cur.1) as i32),
        unit_dir(steer_spec(key, cur)),
        key_dir(key) matches Some(d) ==> (d != ((-cur.0) as i32, (-cur.1) as i32) ==> steer_spec(
            key,
            cur,
        ) == d),
        key_dir(key) is None ==> steer_spec(key, cur) == cur,
        (key == 0x77 || key == 0x57) && cur != (0i32, 1i32) ==> steer_spec(key, cur) == (0i32, -1i32),
        (key == 0x73 || key == 0x53) && cur != (0i32, -1i32) ==> steer_spec(key, cur) == (0i32, 1i32),
        (key == 0x61 || key == 0x41) && cur != (1i32, 0i32) ==> steer_spec(key, cur) == (-1i32, 0i32),
        (key == 0x64 || key == 0x44) && cur != (-1i32, 0i32) ==> steer_spec(key, cur) == (1i32, 0i32),
{
}

/// Are `a` and `b` the same cell?
pub fn same_cell(a: Cell, b: Cell) -> (r: bool)
    ensures
        r == (a == b),
{
    a.0 == b.0 && a.1 == b.1
}

/// Is `cell` part of the body?
pub fn occupies(snake: &VecDeque<Cell>, cell: Cell) -> (r: bool)
    ensures
        r == snake@.contains(cell),
{
    let mut i: usize = 0;
    while i < snake.len()
        invariant
            i <= snake@.len(),
            forall|k: int| 0 <= k < i ==> snake@[k] != cell,
        decreases snake@.len() - i,
    {
        if same_cell(snake[i], cell) {
            assert(snake@[i as int] == cell);
            return true;
        }
        i = i + 1;
    }
    false
}

/// The result of moving the snake one cell.
#[derive(Clone, Copy, PartialEq, Eq, Structural)]
pub enum Advance {
    /// It hit a wall or its own body; the body is unchanged.
    Dead,
    /// It moved: new head in front, tail dropped.
    Moved,
    /// It ate the food: new head in front, tail kept.
    Ate,
}

/// The cell one step from the head of `s` in direction `dir`.
pub open spec fn next_head(s: Seq<Cell>, dir: Cell) -> Cell {
    ((s[0].0 + dir.0) as i32, (s[0].1 + dir.1) as i32)
}

/// Moving the body `s` one cell in direction `dir` with food at `food`. The
/// new head may take the tail's cell only when the tail moves away, that is,
/// when not eating.
pub open spec fn advance_spec(s: Seq<Cell>, dir: Cell, food: Cell) -> (Seq<Cell>, Advance) {
    let nh = next_head(s, dir);
    let eating = nh == food;
    let tail = s.last();
    if !in_bounds(nh) {
        (s, Advance::Dead)
    } else if exists|i: int| 0 <= i < s.len() && #[trigger] s[i] == nh && (eating || s[i] != tail) {
        (s, Advance::Dead)
    } else if eating {
        (seq![nh] + s, Advance::Ate)
    } else {
        (seq![nh] + s.drop_last(), Advance::Moved)
    }
}

/// Move the snake one cell in direction `dir`; see [`advance_spec`].
pub fn advance(snake: &mut VecDeque<Cell>, dir: Cell, food: Cell) -> (r: Advance)
    requires
        body_ok(old(snake)@),
        unit_dir(dir),
    ensures
        (final(snake)@, r) == advance_spec(old(snake)@, dir, food),
{
    let head = snake[0];
    let new_head: Cell = (head.0 + dir.0, head.1 + dir.1);
    // Wall collision.
    if new_head.0 < 1 || new_head.0 > W || new_head.1 < 1 || new_head.1 > H {
        return Advance::Dead;
    }
    // Eating grows the snake (tail stays); otherwise the tail follows.
    let eating = same_cell(new_head, food);
    let tail = snake[snake.len() - 1];
    // Self collision: hitting any body cell, except the tail when it is
    // about to vacate (i.e. when not growing).
    let mut i: usize = 0;
    while i < snake.len()
        invariant
            i <= snake@.len(),
            snake@ == old(snake)@,
            body_ok(snake@),
            new_head == next_head(snake@, dir),
            eating == (new_head == food),
            tail == snake@.last(),
            forall|k: int| 0 <= k < i ==> !(snake@[k] == new_head && (eating || snake@[k] != tail)),
        decreases snake@.len() - i,
    {
        let c = snake[i];
        if same_cell(c, new_head) && (eating || !same_cell(c, tail)) {
            assert(snake@[i as int] == new_head);
            return Advance::Dead;
        }
        i = i + 1;
    }
    snake.push_front(new_head);
    if eating {
        Advance::Ate
    } else {
        let _ = snake.pop_back();
        proof {
            assert(snake@ =~= seq![new_head] + old(snake)@.drop_last());
        }
        Advance::Moved
    }
}

/// The snake dies exactly on a collision: when the cell ahead lies outside
/// columns `1..=W` or rows `1..=H`, or is a body cell other than the tail
/// that moves away when not eating. Otherwise the new head is that cell; it
/// eats exactly when the cell holds the food, keeping its tail, and else
/// drops its tail.
pub proof fn lemma_advance_dies_only_on_collision(s: Seq<Cell>, dir: Cell, food: Cell)
    requires
        body_ok(s),
        unit_dir(dir),
    ensures
        ({
            let x = s[0].0 + dir.0;
            let y = s[0].1 + dir.1;
            let (t, r) = advance_spec(s, dir, food);
            &&& r == Advance::Dead <==> (x < 1 || x > W || y < 1 || y > H || exists|i: int|
                0 <= i < s.len() && #[trigger] s[i] == (x as i32, y as i32) && ((x as i32, y as i32)
                    == food || i != s.len() - 1))
            &&& r == Advance::Ate <==> (r != Advance::Dead && (x as i32, y as i32) == food)
            &&& r == Advance::Dead ==> t == s
            &&& r != Advance::Dead ==> t[0] == (x as i32, y as i32) && t.drop_first() == (if r
                == Advance::Ate { s } else { s.drop_last() })
        }),
{
    let x = s[0].0 + dir.0;
    let y = s[0].1 + dir.1;
    let nh = next_head(s, dir);
    assert(in_bounds(s[0]));
    assert(nh == (x as i32, y as i32));
    let (t, r) = advance_spec(s, dir, food);
    let hit = exists|i: int| 0 <= i < s.len() && #[trigger] s[i] == nh && (nh == food || s[i] != s.last());
    let hit2 = exists|i: int| 0 <= i < s.len() && #[trigger] s[i] == nh && (nh == food || i != s.len() - 1);
    if hit {
        let i = choose|i: int| 0 <= i < s.len() && #[trigger] s[i] == nh && (nh == food || s[i] != s.last());
        assert(0 <= i < s.len() && s[i] == nh && (nh == food || i != s.len() - 1));
    }
    if hit2 {
        let i = choose|i: int| 0 <= i < s.len() && #[trigger] s[i] == nh && (nh == food || i != s.len() - 1);
        if nh != food {
            assert(s[i] != s[s.len() - 1]);
        }
        assert(0 <= i < s.len() && s[i] == nh && (nh == food || s[i] != s.last()));
    }
    assert(hit == hit2);
    if r != Advance::Dead {
        assert(t.drop_first() =~= (if r == Advance::Ate { s } else { s.drop_last() }));
    }
}

/// Moving keeps a well-formed body well-formed, and the body grows by one
/// cell exactly when the snake eats.
pub proof fn lemma_advance_keeps_body(s: Seq<Cell>, dir: Cell, food: Cell)
    requires
        body_ok(s),
        unit_dir(dir),
    ensures
        advance_spec(s, dir, food).1 == Advance::Dead ==> advance_spec(s, dir, food).0 == s,
        body_ok(advance_spec(s, dir, food).0),
        advance_spec(s, dir, food).1 == Advance::Ate ==> advance_spec(s, dir, food).0.len() == s.len() + 1,
        advance_spec(s, dir, food).1 != Advance::Ate ==> advance_spec(s, dir, food).0.len() == s.len(),
{
    let (t, r) = advance_spec(s, dir, food);
    let nh = next_head(s, dir);
    if r != Advance::Dead {
        let rest = if r == Advance::Ate { s } else { s.drop_last() };
        assert(t == seq![nh] + rest);
        assert forall|i: int| 0 <= i < t.len() implies in_bounds(#[trigger] t[i]) by {
            if i > 0 {
                assert(t[i] == s[i - 1]);
            }
        }
        assert forall|i: int, j: int| 0 <= i < t.len() && 0 <= j < t.len() && i != j implies t[i] != t[j] by {
            if i == 0 && j > 0 {
                assert(t[j] == s[j - 1]);
                if s[j - 1] == nh {
                    assert(r == Advance::Moved);
                    assert(s[j - 1] == s.last());
                    assert(j - 1 == s.len() - 1);
                }
            } else if j == 0 && i > 0 {
                assert(t[i] == s[i - 1]);
                if s[i - 1] == nh {
                    assert(s[i - 1] == s.last());
                    assert(i - 1 == s.len() - 1);
                }
            } else if i > 0 && j > 0 {
                assert(t[i] == s[i - 1] && t[j] == s[j - 1]);
            }
        }
    }
}


/// Number of playable cells.
pub const CELLS: usize = 96;

/// A playable cell's position in row-major order, in `[0, 96)`.
pub open spec fn cell_index(c: Cell) -> int {
    (c.1 - 1) * 12 + (c.0 - 1)
}

/// A well-formed body never holds more cells than the board has.
pub proof fn lemma_body_fits_board(s: Seq<Cell>)
    requires
        body_ok(s),
    ensures
        s.len() <= CELLS,
{
    let m = s.map_values(|c: Cell| cell_index(c));
    assert forall|i: int, j: int| 0 <= i < m.len() && 0 <= j < m.len() && i != j implies m[i] != m[j] by {
        assert(in_bounds(s[i]) && in_bounds(s[j]));
        assert(s[i] != s[j]);
    }
    assert(m.no_duplicates());
    m.unique_seq_to_set();
    assert(m.to_set().subset_of(vstd::set_lib::set_int_range(0, CELLS as int))) by {
        assert forall|v: int| m.to_set().contains(v) implies 0 <= v < CELLS by {
            assert(m.contains(v));
            let i = choose|i: int| 0 <= i < m.len() && m[i] == v;
            assert(in_bounds(s[i]));
        }
    }
    vstd::set_lib::lemma_int_range(0, CELLS as int);
    vstd::set_lib::lemma_len_subset(m.to_set(), vstd::set_lib::set_int_range(0, CELLS as int));
}

/// The food cell after `eaten` foods in the turn-based game: a fixed
/// sequence, then off the board once it is used up.
pub open spec fn food_at_spec(eaten: int) -> Cell {
    if eaten == 0 {
        (8i32, 4i32)
    } else if eaten == 1 {
        (8i32, 2i32)
    } else if eaten == 2 {
        (4i32, 2i32)
    } else {
        (-1i32, -1i32)
    }
}

/// Food positions, eaten in this order; off the board after the last one.
pub fn food_at(eaten: usize) -> (c: Cell)
    ensures
        c == food_at_spec(eaten as int),
{
    if eaten == 0 {
        (8, 4)
    } else if eaten == 1 {
        (8, 2)
    } else if eaten == 2 {
        (4, 2)
    } else {
        (-1, -1)
    }
}

/// The starting body: length 3, laid out horizontally, head at `(5, 4)`.
pub open spec fn initial_body() -> Seq<Cell> {
    seq![(5i32, 4i32), (4i32, 4i32), (3i32, 4i32)]
}

fn make_initial_body() -> (s: VecDeque<Cell>)
    ensures
        s@ == initial_body(),
        body_ok(s@),
{
    let mut s: VecDeque<Cell> = VecDeque::new();
    s.push_back((5, 4));
    s.push_back((4, 4));
    s.push_back((3, 4));
    assert(s@ =~= initial_body());
    s
}

/// How a turn of the turn-based game ended.
#[derive(Clone, Copy, PartialEq, Eq, Structural)]
pub enum TurnOutcome {
    /// `q` or Ctrl-C was pressed.
    Quit,
    /// The snake hit a wall or itself.
    Dead,
    /// The game goes on.
    Continue,
}

/// The turn-based game: one key advances the snake one cell.
pub struct TurnGame {
    pub snake: VecDeque<Cell>,
    pub dir: Cell,
    pub score: u32,
    pub next_food: usize,
    pub food: Cell,
    pub turn: u32,
}

impl TurnGame {
    /// The game's invariant: a well-formed body of length `3 + score`, a unit
    /// direction, the food that the score calls for, and no more points than
    /// turns played.
    pub open spec fn wf(&self) -> bool {
        &&& body_ok(self.snake@)
        &&& self.snake@.len() == 3 + self.score
        &&& unit_dir(self.dir)
        &&& self.next_food == self.score
        &&& self.food == food_at_spec(self.next_food as int)
        &&& self.score <= self.turn <= MAX_TURNS + 1
    }

    /// Start a game: length 3, moving right, no points, first food out.
    pub fn new() -> (g: Self)
        ensures
            g.wf(),
            g.snake@ == initial_body(),
            g.dir == (1i32, 0i32),
            g.score == 0,
            g.turn == 0,
    {
        TurnGame {
            snake: make_initial_body(),
            dir: (1, 0),
            score: 0,
            next_food: 0,
            food: food_at(0),
            turn: 0,
        }
    }

    /// Count a turn; `false` once more than [`MAX_TURNS`] turns are used up.
    pub fn begin_turn(&mut self) -> (more: bool)
        requires
            old(self).wf(),
            old(self).turn <= MAX_TURNS,
        ensures
            final(self).wf(),
            final(self).turn == old(self).turn + 1,
            final(self).score < final(self).turn,
            final(self).snake@ == old(self).snake@,
            final(self).dir == old(self).dir,
            final(self).score == old(self).score,
            final(self).food == old(self).food,
            more == (final(self).turn <= MAX_TURNS),
    {
        self.turn = self.turn + 1;
        self.turn <= MAX_TURNS
    }

    /// Play one key: quit on `q` / Ctrl-C; otherwise steer, move, and on
    /// eating score a point and bring out the next food.
    pub fn play(&mut self, key: u8) -> (out: TurnOutcome)
        requires
            old(self).wf(),
            old(self).score < old(self).turn,
        ensures
            final(self).wf(),
            final(self).turn == old(self).turn,
            key == QUIT || key == CTRL_C ==> out == TurnOutcome::Quit && final(self).snake@
                == old(self).snake@ && final(self).score == old(self).score && final(self).dir
                == old(self).dir && final(self).food == old(self).food,
            !(key == QUIT || key == CTRL_C) ==> ({
                let dir = steer_spec(key, old(self).dir);
                let (body, adv) = advance_spec(old(self).snake@, dir, old(self).food);
                &&& final(self).dir == dir
                &&& final(self).snake@ == body
                &&& out == (if adv == Advance::Dead { TurnOutcome::Dead } else { TurnOutcome::Continue })
                &&& final(self).score == old(self).score + (if adv == Advance::Ate { 1int } else { 0int })
            }),
    {
        if key == QUIT || key == CTRL_C {
            return TurnOutcome::Quit;
        }
        self.dir = steer(key, self.dir);
        proof {
            lemma_advance_keeps_body(self.snake@, self.dir, self.food);
        }
        match advance(&mut self.snake, self.dir, self.food) {
            Advance::Dead => TurnOutcome::Dead,
            Advance::Ate => {
                self.score = self.score + 1;
                self.next_food = self.next_food + 1;
                self.food = food_at(self.next_food);
                TurnOutcome::Continue
            },
            Advance::Moved => TurnOutcome::Continue,
        }
    }
}


/// Number of placement attempts after which every candidate the generator
/// will ever offer has been offered (see [`lemma_food_candidates_repeat`]).
pub const FOOD_ATTEMPTS: u64 = 0x1_0000_0000;

/// The `k`-th food candidate drawn from generator state `state`: two draws,
/// column from the first and row from the second.
pub open spec fn food_candidate(state: u32, k: nat) -> Cell {
    let a = lcg_iterate(state, 2 * k + 1);
    let b = lcg_iterate(state, 2 * k + 2);
    ((1 + a % 12) as i32, (1 + b % 8) as i32)
}

/// Every candidate the generator offers from `start` is one of the first
/// [`FOOD_ATTEMPTS`]: within 2^32 double steps the generator comes back to
/// `start`, and from there offers the same candidates again.
pub proof fn lemma_food_candidates_repeat(start: u32, k: nat)
    ensures
        exists|j: nat| j < FOOD_ATTEMPTS && #[trigger] food_candidate(start, j) == food_candidate(start, k),
{
    let p = lemma_double_step_period(start);
    let n: nat = k / p;
    let r: nat = k % p;
    vstd::arithmetic::div_mod::lemma_fundamental_div_mod(k as int, p as int);
    assert(2 * k + 1 == n * (2 * p) + (2 * r + 1) && 2 * k + 2 == n * (2 * p) + (2 * r + 2)) by (nonlinear_arith)
        requires
            k == p * n + r,
    ;
    lemma_lcg_periodic(start, 2 * p, n, 2 * r + 1);
    lemma_lcg_periodic(start, 2 * p, n, 2 * r + 2);
    assert(r < FOOD_ATTEMPTS && food_candidate(start, r) == food_candidate(start, k));
}

/// What placing food from generator state `start` around body `body` comes
/// to: `Some(c)` for the first candidate off the body, the generator then at
/// `end`, two steps past it; `None` when every candidate the generator will
/// ever offer lies on the body.
pub open spec fn food_placed(start: u32, body: Seq<Cell>, r: Option<Cell>, end: u32) -> bool {
    match r {
        Some(c) => exists|k: nat|
            k < FOOD_ATTEMPTS && c == #[trigger] food_candidate(start, k) && !body.contains(c) && end
                == lcg_iterate(start, 2 * k + 2) && (forall|j: nat|
                j < k ==> body.contains(#[trigger] food_candidate(start, j))),
        None => forall|j: nat| body.contains(#[trigger] food_candidate(start, j)),
    }
}

/// Pick a free cell for food, re-rolling while the candidate lies on the
/// body; see [`food_placed`]. After [`FOOD_ATTEMPTS`] attempts every
/// candidate has been offered, so `None` means the generator never offers a
/// free cell.
pub fn place_food(rng: &mut Lcg, snake: &VecDeque<Cell>) -> (r: Option<Cell>)
    ensures
        food_placed(old(rng).0, snake@, r, final(rng).0),
        r matches Some(c) ==> in_bounds(c) && !snake@.contains(c),
{
    let ghost start = rng.0;
    let mut k: u64 = 0;
    while k < FOOD_ATTEMPTS
        invariant
            k <= FOOD_ATTEMPTS,
            start == old(rng).0,
            rng.0 == lcg_iterate(start, (2 * k) as nat),
            forall|j: nat| j < k ==> snake@.contains(#[trigger] food_candidate(start, j)),
        decreases FOOD_ATTEMPTS - k,
    {
        let c = draw_candidate(rng, Ghost(start), Ghost(k as nat));
        if !occupies(snake, c) {
            proof {
                let kk = k as nat;
                assert(kk < FOOD_ATTEMPTS && c == food_candidate(start, kk) && !snake@.contains(c)
                    && rng.0 == lcg_iterate(start, 2 * kk + 2) && (forall|j: nat|
                    j < kk ==> snake@.contains(#[trigger] food_candidate(start, j))));
            }
            return Some(c);
        }
        k = k + 1;
    }
    proof {
        assert forall|j: nat| snake@.contains(#[trigger] food_candidate(start, j)) by {
            lemma_food_candidates_repeat(start, j);
            let jj = choose|jj: nat|
                jj < FOOD_ATTEMPTS && #[trigger] food_candidate(start, jj) == food_candidate(start, j);
            assert(snake@.contains(food_candidate(start, jj)));
        }
    }
    None
}

/// Draw the next food candidate: column from one generator step, row from
/// the next.
fn draw_candidate(rng: &mut Lcg, Ghost(start): Ghost<u32>, Ghost(k): Ghost<nat>) -> (c: Cell)
    requires
        old(rng).0 == lcg_iterate(start, 2 * k),
    ensures
        c == food_candidate(start, k),
        in_bounds(c),
        final(rng).0 == lcg_iterate(start, 2 * k + 2),
{
    proof {
        lemma_lcg_iterate_step(start, 2 * k);
        lemma_lcg_iterate_step(start, 2 * k + 1);
    }
    let a = rng.next();
    let b = rng.next();
    let x = 1 + (a % 12) as i32;
    let y = 1 + (b % 8) as i32;
    (x, y)
}

/// The character drawn at `(x, y)`: `#` walls, `@` head, `o` body, `*`
/// food, `.` empty.
pub open spec fn board_char(s: Seq<Cell>, food: Cell, x: i32, y: i32) -> u8 {
    if x == 0 || x == W + 1 || y == 0 || y == H + 1 {
        0x23
    } else if (x, y) == s[0] {
        0x40
    } else if s.contains((x, y)) {
        0x6f
    } else if (x, y) == food {
        0x2a
    } else {
        0x2e
    }
}

/// Every border cell of the board is drawn as a wall `#`, and no cell
/// inside is. Inside, the head is drawn as `@`, the rest of the body as `o`,
/// food off the body as `*`, and every other cell as `.`.
pub proof fn lemma_board_walls(s: Seq<Cell>, food: Cell, x: i32, y: i32)
    requires
        s.len() >= 1,
        0 <= x <= W + 1,
        0 <= y <= H + 1,
    ensures
        (x == 0 || x == W + 1 || y == 0 || y == H + 1) <==> board_char(s, food, x, y) == 0x23u8,
        1 <= x <= W && 1 <= y <= H && (x, y) == s[0] ==> board_char(s, food, x, y) == 0x40u8,
        1 <= x <= W && 1 <= y <= H && (x, y) != s[0] && s.contains((x, y)) ==> board_char(s, food, x, y)
            == 0x6fu8,
        1 <= x <= W && 1 <= y <= H && !s.contains((x, y)) && (x, y) == food ==> board_char(s, food, x, y)
            == 0x2au8,
        1 <= x <= W && 1 <= y <= H && !s.contains((x, y)) && (x, y) != food ==> board_char(s, food, x, y)
            == 0x2eu8,
{
    assert(s.contains(s[0]));
}

/// Width of one drawn row, its newline included.
pub const ROW: usize = 15;

/// Draw the board, walls included: `H + 2` rows of `W + 2` characters, each
/// row ended by a newline.
pub fn render_board(snake: &VecDeque<Cell>, food: Cell) -> (out: Vec<u8>)
    requires
        snake@.len() >= 1,
    ensures
        out@.len() == (H + 2) * ROW,
        forall|y: int, x: int|
            0 <= y < H + 2 && 0 <= x < ROW ==> #[trigger] out@[y * ROW + x] == if x == ROW - 1 {
                0x0au8
            } else {
                board_char(snake@, food, x as i32, y as i32)
            },
{
    let head = snake[0];
    let mut out: Vec<u8> = Vec::new();
    let mut y: i32 = 0;
    while y <= H + 1
        invariant
            0 <= y <= H + 2,
            head == snake@[0],
            out@.len() == y * ROW,
            forall|yy: int, x: int|
                0 <= yy < y && 0 <= x < ROW ==> #[trigger] out@[yy * ROW + x] == if x == ROW - 1 {
                    0x0au8
                } else {
                    board_char(snake@, food, x as i32, yy as i32)
                },
        decreases H + 2 - y,
    {
        let mut x: i32 = 0;
        while x <= W + 1
            invariant
                0 <= y <= H + 1,
                0 <= x <= W + 2,
                head == snake@[0],
                out@.len() == y * ROW + x,
                forall|yy: int, xx: int|
                    0 <= yy < y && 0 <= xx < ROW ==> #[trigger] out@[yy * ROW + xx] == if xx == ROW - 1 {
                        0x0au8
                    } else {
                        board_char(snake@, food, xx as i32, yy as i32)
                    },
                forall|xx: int| 0 <= xx < x ==> #[trigger] out@[y * ROW + xx] == board_char(
                    snake@,
                    food,
                    xx as i32,
                    y as i32,
                ),
            decreases W + 2 - x,
        {
            let ch: u8 = if x == 0 || x == W + 1 || y == 0 || y == H + 1 {
                0x23
            } else if same_cell((x, y), head) {
                0x40
            } else if occupies(snake, (x, y)) {
                0x6f
            } else if same_cell((x, y), food) {
                0x2a
            } else {
                0x2e
            };
            out.push(ch);
            x = x + 1;
        }
        out.push(0x0a);
        proof {
            assert forall|yy: int, xx: int|
                0 <= yy < y + 1 && 0 <= xx < ROW implies #[trigger] out@[yy * ROW + xx] == if xx
                    == ROW - 1 {
                    0x0au8
                } else {
                    board_char(snake@, food, xx as i32, yy as i32)
                } by {
                if yy == y {
                    if xx < ROW - 1 {
                        assert(out@[y * ROW + xx] == board_char(snake@, food, xx as i32, y as i32));
                    }
                } else {
                    assert(yy * ROW + xx < y * ROW) by (nonlinear_arith)
                        requires
                            yy < y,
                            0 <= xx < ROW,
                    ;
                }
            }
        }
        y = y + 1;
    }
    out
}


/// `mtime` units between auto-advances of the real-time game.
pub const STEP_US: u64 = 120_000;

/// Seed of the real-time game's food generator.
pub const FOOD_SEED: u32 = 0x00C0_FFEE;

/// Has a full step elapsed since `last` at time `now` (the counter may wrap)?
pub fn step_due(now: u64, last: u64) -> (r: bool)
    ensures
        r == (vstd::wrapping::u64_specs::wrapping_sub(now, last) >= STEP_US),
{
    now.wrapping_sub(last) >= STEP_US
}

/// What one tick of the real-time game did.
#[derive(Clone, Copy, PartialEq, Eq, Structural)]
pub enum TickOutcome {
    /// Not enough time has passed; nothing moved.
    Waiting,
    /// The snake hit a wall or itself.
    Dead,
    /// The snake moved one cell.
    Moved,
    /// The snake ate and new food was placed.
    Ate,
    /// The snake ate, but the generator offers no free cell for new food.
    NoRoomForFood,
}

/// The real-time game: the snake advances on a timer, keys only steer.
pub struct RtGame {
    pub snake: VecDeque<Cell>,
    pub dir: Cell,
    pub score: u32,
    pub rng: Lcg,
    pub food: Cell,
    pub last: u64,
}

impl RtGame {
    /// The game's invariant: a well-formed body of length `3 + score`
    /// moving in a unit direction.
    pub open spec fn wf(&self) -> bool {
        &&& body_ok(self.snake@)
        &&& self.snake@.len() == 3 + self.score
        &&& unit_dir(self.dir)
    }

    /// Start a game at time `now`: length 3, moving right, food placed by
    /// the generator seeded with [`FOOD_SEED`]; `None` if no food cell can
    /// be placed.
    pub fn new(now: u64) -> (g: Option<Self>)
        ensures
            g matches Some(game) ==> game.wf() && game.snake@ == initial_body() && game.score == 0
                && game.dir == (1i32, 0i32) && game.last == now && !game.snake@.contains(game.food)
                && in_bounds(game.food) && food_placed(FOOD_SEED, initial_body(), Some(game.food), game.rng.0),
            g is None ==> food_placed(FOOD_SEED, initial_body(), None, 0),
    {
        let snake = make_initial_body();
        let mut rng = Lcg(FOOD_SEED);
        match place_food(&mut rng, &snake) {
            Some(food) => Some(RtGame { snake, dir: (1, 0), score: 0, rng, food, last: now }),
            None => None,
        }
    }

    /// Handle a key: `false` on `q` / Ctrl-C (quit), otherwise steer.
    pub fn key(&mut self, key: u8) -> (go_on: bool)
        requires
            old(self).wf(),
        ensures
            final(self).wf(),
            go_on == !(key == QUIT || key == CTRL_C),
            go_on ==> final(self).dir == steer_spec(key, old(self).dir),
            !go_on ==> final(self).dir == old(self).dir,
            final(self).snake@ == old(self).snake@,
            final(self).score == old(self).score,
            final(self).food == old(self).food,
            final(self).last == old(self).last,
            final(self).rng == old(self).rng,
    {
        if key == QUIT || key == CTRL_C {
            return false;
        }
        self.dir = steer(key, self.dir);
        true
    }

    /// Advance the game at time `now` if a step is due: move, and on eating
    /// score a point and place new food.
    pub fn tick(&mut self, now: u64) -> (out: TickOutcome)
        requires
            old(self).wf(),
        ensures
            final(self).wf(),
            final(self).dir == old(self).dir,
            !(vstd::wrapping::u64_specs::wrapping_sub(now, old(self).last) >= STEP_US) ==> out
                == TickOutcome::Waiting && final(self).snake@ == old(self).snake@
                && final(self).last == old(self).last && final(self).score == old(self).score
                && final(self).rng == old(self).rng && final(self).food == old(self).food,
            vstd::wrapping::u64_specs::wrapping_sub(now, old(self).last) >= STEP_US ==> ({
                let (body, adv) = advance_spec(old(self).snake@, old(self).dir, old(self).food);
                &&& final(self).last == now
                &&& final(self).snake@ == body
                &&& adv == Advance::Dead ==> out == TickOutcome::Dead
                &&& adv == Advance::Moved ==> out == TickOutcome::Moved
                &&& adv == Advance::Ate ==> final(self).score == old(self).score + 1 && (out
                    == TickOutcome::Ate || out == TickOutcome::NoRoomForFood)
                &&& adv != Advance::Ate ==> final(self).score == old(self).score
                &&& out == TickOutcome::Ate ==> !body.contains(final(self).food) && in_bounds(
                    final(self).food,
                ) && food_placed(old(self).rng.0, body, Some(final(self).food), final(self).rng.0)
                &&& out == TickOutcome::NoRoomForFood ==> food_placed(old(self).rng.0, body, None, 0)
                &&& adv != Advance::Ate ==> final(self).rng == old(self).rng && final(self).food == old(self).food
            }),
    {
        if !step_due(now, self.last) {
            return TickOutcome::Waiting;
        }
        self.last = now;
        proof {
            lemma_advance_keeps_body(self.snake@, self.dir, self.food);
        }
        match advance(&mut self.snake, self.dir, self.food) {
            Advance::Dead => TickOutcome::Dead,
            Advance::Moved => TickOutcome::Moved,
            Advance::Ate => {
                proof {
                    lemma_body_fits_board(self.snake@);
                }
                self.score = self.score + 1;
                match place_food(&mut self.rng, &self.snake) {
                    Some(food) => {
                        self.food = food;
                        TickOutcome::Ate
                    },
                    None => TickOutcome::NoRoomForFood,
                }
            },
        }
    }
}

} // verus!
