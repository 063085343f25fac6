use vstd::prelude::*;
use crate::codec::{
    action_count, action_space, decode, lemma_decode_encode, lemma_encode_in_range, spec_decode,
    spec_encode,
};
use crate::turn::{Colour, Direction, Shape, Turn, pow2, turn_fits, valid_size};

verus! {

/// Why a game was won.
#[derive(Clone, Copy, Debug, PartialEq, Eq, Structural)]
pub enum WinReason {
    Road,
    Flats,
    Default,
}

/// The state of a game's outcome.
#[derive(Clone, Copy, Debug, PartialEq, Eq, Structural)]
pub enum GameResult {
    Ongoing,
    Winner { colour: Colour, reason: WinReason },
    Draw,
}

/// A piece on the board.
#[derive(Clone, Copy, Debug, PartialEq, Eq, Structural)]
pub struct Piece {
    pub colour: Colour,
    pub shape: Shape,
}

/// A move that the rules refuse in the current position.
#[derive(Clone, Copy, Debug, PartialEq, Eq, Structural)]
pub struct IllegalMove;

/// Stones (flats and walls) each player starts with.
pub open spec fn start_stones(n: nat) -> nat {
    if n == 3 {
        10
    } else if n == 4 {
        15
    } else if n == 5 {
        21
    } else if n == 6 {
        30
    } else if n == 7 {
        40
    } else {
        50
    }
}

/// Capstones each player starts with.
pub open spec fn start_caps(n: nat) -> nat {
    if n <= 4 {
        0
    } else if n <= 6 {
        1
    } else {
        2
    }
}

/// A game of Tak on an `n` by `n` board. Square `(x, y)` is stack
/// `y * n + x`, bottom piece first.
#[derive(Clone, Debug, PartialEq, Eq)]
pub struct Game {
    pub n: usize,
    pub board: Vec<Vec<Piece>>,
    pub white_stones: u32,
    pub white_caps: u32,
    pub black_stones: u32,
    pub black_caps: u32,
    pub ply: u64,
    pub to_move: Colour,
    /// Added to Black's flat count when the game ends on flats.
    pub komi: i32,
    pub result: GameResult,
}

/// The stacks of a board as sequences.
pub open spec fn stacks(board: Seq<Vec<Piece>>) -> Seq<Seq<Piece>> {
    board.map_values(|v: Vec<Piece>| v@)
}

/// Square `sq` counts toward a road of `c`: its top is a flat or capstone of `c`.
pub open spec fn is_road_square(b: Seq<Seq<Piece>>, sq: int, c: Colour) -> bool {
    b[sq].len() > 0 && b[sq].last().colour == c && b[sq].last().shape != Shape::Standing
}

/// Square `sq` lies on the starting edge of a road: the left edge when
/// `horizontal`, else the bottom edge.
pub open spec fn on_start_edge(n: int, sq: int, horizontal: bool) -> bool {
    if horizontal {
        sq % n == 0
    } else {
        sq / n == 0
    }
}

pub open spec fn on_end_edge(n: int, sq: int, horizontal: bool) -> bool {
    if horizontal {
        sq % n == n - 1
    } else {
        sq / n == n - 1
    }
}

/// Squares `a` and `b` are orthogonal neighbours on the board.
pub open spec fn adjacent(n: int, a: int, b: int) -> bool {
    &&& 0 <= a < n * n
    &&& 0 <= b < n * n
    &&& ((a / n == b / n && (a % n == b % n + 1 || b % n == a % n + 1)) || (a % n == b % n && (a / n
        == b / n + 1 || b / n == a / n + 1)))
}

/// Square `sq` is joined to the starting edge by road squares of `c` in at
/// most `k` steps between neighbours.
pub open spec fn reach(b: Seq<Seq<Piece>>, n: int, c: Colour, horizontal: bool, k: nat, sq: int) -> bool
    decreases k,
{
    0 <= sq < n * n && is_road_square(b, sq, c) && (on_start_edge(n, sq, horizontal) || (k > 0 && (
    reach(b, n, c, horizontal, (k - 1) as nat, sq) || exists|m: int|
        #[trigger] adjacent(n, m, sq) && reach(b, n, c, horizontal, (k - 1) as nat, m))))
}

/// `c` has a road: a chain of its road squares joins two opposite edges. A
/// chain without repeats has fewer than `n * n` steps.
pub open spec fn has_road(b: Seq<Seq<Piece>>, n: int, c: Colour) -> bool {
    exists|sq: int, h: bool|
        #[trigger] reach(b, n, c, h, (n * n) as nat, sq) && on_end_edge(n, sq, h)
}

/// Number of squares among the first `k` whose top is a flat or a capstone
/// of `c`: the pieces that count in a flat win.
pub open spec fn flat_count(b: Seq<Seq<Piece>>, c: Colour, k: int) -> nat
    decreases k,
{
    if k <= 0 {
        0
    } else {
        flat_count(b, c, k - 1) + if b[k - 1].len() > 0 && b[k - 1].last().colour == c
            && b[k - 1].last().shape != Shape::Standing {
            1nat
        } else {
            0nat
        }
    }
}

/// Every square among the first `k` holds a piece.
pub open spec fn all_filled(b: Seq<Seq<Piece>>, k: int) -> bool {
    forall|i: int| 0 <= i < k ==> #[trigger] b[i].len() > 0
}

/// The outcome of a position just after `mover` moved: a road wins (the
/// mover's first), then a full board or an empty reserve ends the game on
/// flats, with komi added to Black.
pub open spec fn outcome(
    b: Seq<Seq<Piece>>,
    n: int,
    mover: Colour,
    reserves_out: bool,
    komi: int,
) -> GameResult {
    if has_road(b, n, mover) {
        GameResult::Winner { colour: mover, reason: WinReason::Road }
    } else if has_road(b, n, mover.spec_next()) {
        GameResult::Winner { colour: mover.spec_next(), reason: WinReason::Road }
    } else if all_filled(b, n * n) || reserves_out {
        let w = flat_count(b, Colour::White, n * n) as int;
        let k = flat_count(b, Colour::Black, n * n) + komi;
        if w > k {
            GameResult::Winner { colour: Colour::White, reason: WinReason::Flats }
        } else if k > w {
            GameResult::Winner { colour: Colour::Black, reason: WinReason::Flats }
        } else {
            GameResult::Draw
        }
    } else {
        GameResult::Ongoing
    }
}

impl Game {
    pub open spec fn stacks(&self) -> Seq<Seq<Piece>> {
        stacks(self.board@)
    }

    pub open spec fn wf(&self) -> bool {
        &&& valid_size(self.n as nat)
        &&& self.board@.len() == self.n * self.n
    }

    pub open spec fn reserves_out(&self) -> bool {
        (self.white_stones == 0 && self.white_caps == 0) || (self.black_stones == 0
            && self.black_caps == 0)
    }
}

/// Number of pieces a spread pattern carries: its bit length.
pub open spec fn carry_of(p: nat) -> nat
    decreases p,
{
    if p == 0 {
        0
    } else {
        1 + carry_of(p / 2)
    }
}

/// Number of squares a spread pattern drops on: its set bits.
pub open spec fn drops_of(p: nat) -> nat
    decreases p,
{
    if p == 0 {
        0
    } else {
        p % 2 + drops_of(p / 2)
    }
}

/// Square `s` steps from `(x, y)` in direction `d`, as (column, row).
pub open spec fn step(x: int, y: int, d: Direction, s: int) -> (int, int) {
    match d {
        Direction::Up => (x, y + s),
        Direction::Down => (x, y - s),
        Direction::Left => (x - s, y),
        Direction::Right => (x + s, y),
    }
}

impl Game {
    /// The colour of a piece placed now: in the first two plies each player
    /// places a flat of the other.
    pub open spec fn placing_colour(&self) -> Colour {
        if self.ply < 2 {
            self.to_move.spec_next()
        } else {
            self.to_move
        }
    }

    pub open spec fn reserve(&self, c: Colour, shape: Shape) -> nat {
        match (c, shape) {
            (Colour::White, Shape::Capstone) => self.white_caps as nat,
            (Colour::White, _) => self.white_stones as nat,
            (Colour::Black, Shape::Capstone) => self.black_caps as nat,
            (Colour::Black, _) => self.black_stones as nat,
        }
    }

    pub open spec fn stack_at(&self, x: int, y: int) -> Seq<Piece> {
        self.stacks()[y * self.n + x]
    }

    /// Whether the rules allow `t` now.
    pub open spec fn spec_legal(&self, t: Turn) -> bool {
        let n = self.n as int;
        &&& self.result == GameResult::Ongoing
        &&& turn_fits(self.n as nat, t)
        &&& match t {
            Turn::Place { x, y, shape } => {
                &&& self.stack_at(x as int, y as int).len() == 0
                &&& (self.ply < 2 ==> shape == Shape::Flat)
                &&& self.reserve(self.placing_colour(), shape) > 0
            },
            Turn::Spread { x, y, direction, pattern } => {
                let origin = self.stack_at(x as int, y as int);
                let c = carry_of(pattern as nat);
                let m = drops_of(pattern as nat);
                &&& self.ply >= 2
                &&& c <= origin.len()
                &&& origin.last().colour == self.to_move
                &&& forall|s: int| 1 <= s <= m ==> #[trigger] self.drop_ok(x, y, direction, pattern, s)
            },
        }
    }

    /// The `s`-th square of a spread lies on the board and can take its
    /// drop: no capstone, and a wall only under a lone capstone that ends
    /// the spread.
    pub open spec fn drop_ok(&self, x: usize, y: usize, d: Direction, pattern: u32, s: int) -> bool {
        let (tx, ty) = step(x as int, y as int, d, s);
        let target = self.stack_at(tx, ty);
        let origin = self.stack_at(x as int, y as int);
        &&& 0 <= tx < self.n
        &&& 0 <= ty < self.n
        &&& (target.len() > 0 ==> target.last().shape != Shape::Capstone)
        &&& (target.len() > 0 && target.last().shape == Shape::Standing ==> s == drops_of(
            pattern as nat,
        ) && pattern % 2 == 1 && origin.last().shape == Shape::Capstone)
    }
}

/// Steps from the origin of a carried piece: the piece paired with bit `k`
/// of the pattern lands on the square as many steps away as the pattern has
/// set bits at `k` and above.
pub open spec fn step_of(p: nat, k: nat) -> nat {
    drops_of(p / pow2(k))
}

/// The pieces of origin stack `o` that land `s` steps away, among those
/// paired with bits `k` and above, in the order they are dropped. The piece
/// paired with bit `k` is the `k`-th from the top.
pub open spec fn landed(o: Seq<Piece>, p: nat, c: nat, s: nat, k: nat) -> Seq<Piece>
    decreases c - k,
{
    if k >= c {
        seq![]
    } else {
        landed(o, p, c, s, k + 1) + if step_of(p, k) == s {
            seq![o[o.len() - 1 - k]]
        } else {
            seq![]
        }
    }
}

/// A stack with a wall on top turned into a flat of the same colour.
pub open spec fn flattened(st: Seq<Piece>) -> Seq<Piece> {
    if st.len() > 0 && st.last().shape == Shape::Standing {
        st.update(st.len() - 1, Piece { colour: st.last().colour, shape: Shape::Flat })
    } else {
        st
    }
}

/// How many steps along `d` from `(x, y)` square `sq` lies, or zero where it
/// is not on that ray.
pub open spec fn steps_to(n: int, x: int, y: int, d: Direction, sq: int) -> int {
    let tx = sq % n;
    let ty = sq / n;
    match d {
        Direction::Up => if tx == x && ty > y {
            ty - y
        } else {
            0
        },
        Direction::Down => if tx == x && ty < y {
            y - ty
        } else {
            0
        },
        Direction::Left => if ty == y && tx < x {
            x - tx
        } else {
            0
        },
        Direction::Right => if ty == y && tx > x {
            tx - x
        } else {
            0
        },
    }
}

/// The board once the pieces paired with bits `k` and above have been
/// dropped: the origin keeps what is not carried, and the square `s` steps
/// away, for each step reached so far, gets its landed pieces on top of its
/// stack, a wall there flattened.
pub open spec fn partial_spread(
    b: Seq<Seq<Piece>>,
    n: int,
    x: int,
    y: int,
    d: Direction,
    p: nat,
    k: nat,
) -> Seq<Seq<Piece>> {
    let o = b[y * n + x];
    let c = carry_of(p);
    Seq::new(
        b.len(),
        |sq: int|
            if sq == y * n + x {
                o.subrange(0, o.len() - c)
            } else {
                let s = steps_to(n, x, y, d, sq);
                if 1 <= s <= step_of(p, k) {
                    flattened(b[sq]) + landed(o, p, c, s as nat, k)
                } else {
                    b[sq]
                }
            },
    )
}

/// The board after a whole spread.
pub open spec fn spread_stacks(b: Seq<Seq<Piece>>, n: int, x: int, y: int, d: Direction, p: nat) -> Seq<
    Seq<Piece>,
> {
    partial_spread(b, n, x, y, d, p, 0)
}

proof fn lemma_pow2_pos(k: nat)
    ensures
        pow2(k) > 0,
    decreases k,
{
    if k > 0 {
        lemma_pow2_pos((k - 1) as nat);
    }
}

/// A pattern lies between `2^(c - 1)` and `2^c`, `c` its bit length.
proof fn lemma_carry_pow2(p: nat)
    requires
        p >= 1,
    ensures
        carry_of(p) >= 1,
        pow2((carry_of(p) - 1) as nat) <= p < pow2(carry_of(p)),
    decreases p,
{
    let c = carry_of(p);
    if p / 2 == 0 {
        assert(p == 1);
        assert(carry_of(0) == 0);
        assert(pow2(1) == 2) by {
            reveal_with_fuel(pow2, 2);
        }
    } else {
        lemma_carry_pow2(p / 2);
        assert(c == 1 + carry_of(p / 2));
        assert(pow2(c as nat) == 2 * pow2((c - 1) as nat));
        assert(pow2((c - 1) as nat) == 2 * pow2((c - 2) as nat));
    }
}

proof fn lemma_step_next(p: nat, k: nat)
    ensures
        step_of(p, k) == (p / pow2(k)) % 2 + step_of(p, k + 1),
{
    lemma_pow2_pos(k);
    let q = p / pow2(k);
    vstd::arithmetic::div_mod::lemma_div_denominator(p as int, pow2(k) as int, 2);
    assert(pow2(k + 1) == pow2(k) * 2);
    assert(q / 2 == p / pow2(k + 1));
    if q == 0 {
        assert(drops_of(0) == 0);
    }
}

proof fn lemma_step_mono(p: nat, k: nat, j: nat)
    requires
        k <= j,
    ensures
        step_of(p, j) <= step_of(p, k),
    decreases j - k,
{
    if k < j {
        lemma_step_next(p, k);
        lemma_step_mono(p, k + 1, j);
    }
}

proof fn lemma_landed_beyond(o: Seq<Piece>, p: nat, c: nat, s: nat, k: nat)
    requires
        s > step_of(p, k),
    ensures
        landed(o, p, c, s, k) == Seq::<Piece>::empty(),
    decreases c - k,
{
    if k < c {
        lemma_step_mono(p, k, k + 1);
        lemma_landed_beyond(o, p, c, s, k + 1);
        assert(landed(o, p, c, s, k) =~= Seq::<Piece>::empty());
    }
}

proof fn lemma_first_bit(p: nat)
    requires
        p >= 1,
    ensures
        (p / pow2((carry_of(p) - 1) as nat)) % 2 == 1,
{
    lemma_carry_pow2(p);
    let c = carry_of(p);
    let w = pow2((c - 1) as nat);
    assert(pow2(c) == 2 * w);
    vstd::arithmetic::div_mod::lemma_fundamental_div_mod_converse(p as int, w as int, 1, p - w);
}

proof fn lemma_no_steps_above(p: nat)
    requires
        p >= 1,
    ensures
        step_of(p, carry_of(p)) == 0,
        step_of(p, 0) == drops_of(p),
{
    lemma_carry_pow2(p);
    vstd::arithmetic::div_mod::lemma_fundamental_div_mod_converse(
        p as int,
        pow2(carry_of(p)) as int,
        0,
        p as int,
    );
    assert(drops_of(0) == 0);
    assert(pow2(0) == 1);
}

/// The square `s` steps along the ray is the only one that far.
proof fn lemma_steps_unique(n: int, x: int, y: int, d: Direction, sq: int, tx: int, ty: int, s: int)
    requires
        n > 0,
        0 <= sq < n * n,
        0 <= tx < n,
        0 <= ty < n,
        s >= 1,
        step(x, y, d, s) == (tx, ty),
        steps_to(n, x, y, d, sq) == s,
    ensures
        sq == ty * n + tx,
{
    lemma_coords(n, sq);
}

/// One drop of a spread: the piece paired with bit `k` goes onto the square
/// `step_of(p, k)` steps away, flattening a wall there when that square is
/// entered.
proof fn lemma_spread_step(
    b: Seq<Seq<Piece>>,
    n: int,
    x: int,
    y: int,
    d: Direction,
    p: nat,
    k: nat,
    before: Seq<Seq<Piece>>,
    after: Seq<Seq<Piece>>,
    tx: int,
    ty: int,
    drop: nat,
    dest: Seq<Piece>,
)
    requires
        n > 0,
        0 <= x < n,
        0 <= y < n,
        b.len() == n * n,
        p >= 1,
        k < carry_of(p),
        carry_of(p) <= b[y * n + x].len(),
        before == partial_spread(b, n, x, y, d, p, k + 1),
        drop == step_of(p, k),
        drop >= 1,
        step_of(p, k) == (p / pow2(k)) % 2 + step_of(p, k + 1),
        step(x, y, d, drop as int) == (tx, ty),
        0 <= tx < n,
        0 <= ty < n,
        dest == (if (p / pow2(k)) % 2 == 1 {
            flattened(before[ty * n + tx])
        } else {
            before[ty * n + tx]
        }) + seq![b[y * n + x][b[y * n + x].len() - 1 - k]],
        after == before.update(ty * n + tx, dest),
    ensures
        after == partial_spread(b, n, x, y, d, p, k),
{
    let o = b[y * n + x];
    let c = carry_of(p);
    let t = ty * n + tx;
    let origin = y * n + x;
    let piece = o[o.len() - 1 - k];
    let bit = (p / pow2(k)) % 2;
    lemma_index_coords(n, tx, ty);
    lemma_index_coords(n, x, y);
    assert(0 <= t < n * n) by (nonlinear_arith)
        requires
            0 <= tx < n,
            0 <= ty < n,
            t == ty * n + tx,
    ;
    assert(steps_to(n, x, y, d, t) == drop as int);
    assert(t != origin);
    if bit == 1 {
        lemma_landed_beyond(o, p, c, drop, k + 1);
    }
    assert(landed(o, p, c, drop, k) == landed(o, p, c, drop, k + 1) + seq![piece]);
    let target = partial_spread(b, n, x, y, d, p, k);
    assert forall|sq: int| 0 <= sq < b.len() implies #[trigger] after[sq] == target[sq] by {
        if sq == t {
            if bit == 1 {
                assert(landed(o, p, c, drop, k + 1) =~= Seq::<Piece>::empty());
                assert(before[t] == b[t]);
                assert(after[sq] =~= flattened(b[t]) + seq![piece]);
                assert(target[sq] =~= flattened(b[t]) + seq![piece]);
            } else {
                assert(after[sq] =~= before[t] + seq![piece]);
            }
        } else if sq == origin {
            assert(after[sq] == before[sq]);
        } else {
            assert(after[sq] == before[sq]);
            let st = steps_to(n, x, y, d, sq);
            if st == drop as int {
                lemma_steps_unique(n, x, y, d, sq, tx, ty, st);
            }
            if 1 <= st <= step_of(p, k) && st != drop {
                assert(landed(o, p, c, st as nat, k) =~= landed(o, p, c, st as nat, k + 1));
            }
        }
    }
    assert(after =~= target);
}

/// Column and row of a square index.
proof fn lemma_index_coords(n: int, tx: int, ty: int)
    requires
        0 <= tx < n,
        0 <= ty,
    ensures
        (ty * n + tx) % n == tx,
        (ty * n + tx) / n == ty,
{
    vstd::arithmetic::div_mod::lemma_fundamental_div_mod_converse(ty * n + tx, n, ty, tx);
}

/// `g2` is `g` after the legal move `t`: the board and reserves change as
/// the move says, the other player is to move, and the result is recomputed.
pub open spec fn after_move(g: Game, t: Turn, g2: Game) -> bool {
    &&& {
                &&& g2.n == g.n
                &&& g2.komi == g.komi
                &&& g2.ply == g.ply + 1
                &&& g2.to_move == g.to_move.spec_next()
                &&& g2.result == outcome(
                    g2.stacks(),
                    g2.n as int,
                    g.to_move,
                    g2.reserves_out(),
                    g2.komi as int,
                )
            }
    &&& match t {
                Turn::Place { x, y, shape } => {
                    let pc = g.placing_colour();
                    &&& g2.stacks() == g.stacks().update(
                        y * g.n + x,
                        seq![Piece { colour: pc, shape }],
                    )
                    &&& g2.reserve(pc, shape) == g.reserve(pc, shape) - 1
                    &&& forall|c2: Colour, s2: Shape|
                        !Game::same_bucket(pc, shape, c2, s2) ==> #[trigger] g2.reserve(c2, s2)
                            == g.reserve(c2, s2)
                },
                Turn::Spread { x, y, direction, pattern } => {
                    &&& g2.stacks() == spread_stacks(
                        g.stacks(),
                        g.n as int,
                        x as int,
                        y as int,
                        direction,
                        pattern as nat,
                    )
                    &&& g2.white_stones == g.white_stones
                    &&& g2.white_caps == g.white_caps
                    &&& g2.black_stones == g.black_stones
                    &&& g2.black_caps == g.black_caps
                },
            }
}

/// Whether square `sq` is a road square of `c`.
fn road_square(board: &Vec<Vec<Piece>>, sq: usize, c: Colour) -> (r: bool)
    requires
        sq < board@.len(),
    ensures
        r == is_road_square(stacks(board@), sq as int, c),
{
    let s = &board[sq];
    if s.len() == 0 {
        false
    } else {
        let top = s[s.len() - 1];
        top.colour == c && top.shape != Shape::Standing
    }
}

/// Row and column of a square.
proof fn lemma_coords(n: int, s: int)
    requires
        n > 0,
        0 <= s < n * n,
    ensures
        0 <= s / n < n,
        0 <= s % n < n,
        s == (s / n) * n + s % n,
        s % n > 0 ==> s - 1 >= 0,
        s % n + 1 < n ==> s + 1 < n * n,
        s / n > 0 ==> s - n >= 0,
        s / n + 1 < n ==> s + n < n * n,
{
    assert(s == (s / n) * n + s % n) by (nonlinear_arith)
        requires
            n > 0,
    ;
    assert(0 <= s / n < n) by (nonlinear_arith)
        requires
            n > 0,
            0 <= s < n * n,
    ;
    assert(s / n + 1 < n ==> s + n < n * n) by (nonlinear_arith)
        requires
            n > 0,
            s == (s / n) * n + s % n,
            0 <= s % n < n,
    ;
    assert(s % n + 1 < n ==> s + 1 < n * n) by (nonlinear_arith)
        requires
            n > 0,
            s == (s / n) * n + s % n,
            0 <= s % n,
            s / n < n,
    ;
    assert(s / n > 0 ==> s - n >= 0) by (nonlinear_arith)
        requires
            n > 0,
            s == (s / n) * n + s % n,
            0 <= s % n < n,
    ;
}

proof fn lemma_difference(n: int, a: int, b: int)
    requires
        n > 0,
        0 <= a < n * n,
        0 <= b < n * n,
    ensures
        a - b == (a / n - b / n) * n + (a % n - b % n),
{
    lemma_coords(n, a);
    lemma_coords(n, b);
    assert(a - b == (a / n - b / n) * n + (a % n - b % n)) by (nonlinear_arith)
        requires
            a == (a / n) * n + a % n,
            b == (b / n) * n + b % n,
    ;
}

proof fn lemma_adjacent_cases(n: int, a: int, b: int)
    requires
        n > 0,
        adjacent(n, a, b),
    ensures
        (b % n > 0 && a == b - 1) || (b % n < n - 1 && a == b + 1) || (b / n > 0 && a == b - n) || (b
            / n < n - 1 && a == b + n),
{
    lemma_coords(n, a);
    lemma_coords(n, b);
    lemma_difference(n, a, b);
    if a / n == b / n + 1 {
        assert((a / n - b / n) * n == n) by (nonlinear_arith)
            requires
                a / n - b / n == 1,
        ;
    } else if b / n == a / n + 1 {
        assert((a / n - b / n) * n == -n) by (nonlinear_arith)
            requires
                a / n - b / n == -1,
        ;
    } else {
        assert((a / n - b / n) * n == 0) by (nonlinear_arith)
            requires
                a / n - b / n == 0,
        ;
    }
}

proof fn lemma_neighbour(n: int, a: int, b: int)
    requires
        n > 0,
        0 <= b < n * n,
        (b % n > 0 && a == b - 1) || (b % n < n - 1 && a == b + 1) || (b / n > 0 && a == b - n) || (b
            / n < n - 1 && a == b + n),
    ensures
        adjacent(n, a, b),
{
    lemma_coords(n, b);
    let q = b / n;
    let r = b % n;
    if r > 0 && a == b - 1 {
        vstd::arithmetic::div_mod::lemma_fundamental_div_mod_converse(a, n, q, r - 1);
    } else if r < n - 1 && a == b + 1 {
        vstd::arithmetic::div_mod::lemma_fundamental_div_mod_converse(a, n, q, r + 1);
    } else if q > 0 && a == b - n {
        assert(a == (q - 1) * n + r) by (nonlinear_arith)
            requires
                b == q * n + r,
                a == b - n,
        ;
        vstd::arithmetic::div_mod::lemma_fundamental_div_mod_converse(a, n, q - 1, r);
    } else {
        assert(a == (q + 1) * n + r) by (nonlinear_arith)
            requires
                b == q * n + r,
                a == b + n,
        ;
        vstd::arithmetic::div_mod::lemma_fundamental_div_mod_converse(a, n, q + 1, r);
    }
}

/// Whether `c` has a road in the direction chosen by `horizontal`, by
/// growing the set of squares reachable from the starting edge one step at
/// a time.
fn road_in(board: &Vec<Vec<Piece>>, n: usize, c: Colour, horizontal: bool) -> (r: bool)
    requires
        valid_size(n as nat),
        board@.len() == n * n,
    ensures
        r == exists|sq: int|
            #[trigger] reach(stacks(board@), n as int, c, horizontal, (n * n) as nat, sq)
                && on_end_edge(n as int, sq, horizontal),
{
    let ghost b = stacks(board@);
    assert(n * n <= 64) by (nonlinear_arith)
        requires
            n <= 8,
    ;
    let total = n * n;
    let mut cur: Vec<bool> = Vec::new();
    let mut i: usize = 0;
    while i < total
        invariant
            i <= total,
            total == n * n,
            board@.len() == total,
            b == stacks(board@),
            valid_size(n as nat),
            cur@.len() == i,
            forall|s: int| 0 <= s < i ==> #[trigger] cur@[s] == reach(b, n as int, c, horizontal, 0, s),
        decreases total - i,
    {
        let edge = if horizontal {
            i % n == 0
        } else {
            i / n == 0
        };
        cur.push(edge && road_square(board, i, c));
        i = i + 1;
    }
    let mut k: usize = 0;
    while k < total
        invariant
            k <= total,
            total == n * n,
            total <= 64,
            board@.len() == total,
            b == stacks(board@),
            valid_size(n as nat),
            cur@.len() == total,
            forall|s: int|
                0 <= s < total ==> #[trigger] cur@[s] == reach(b, n as int, c, horizontal, k as nat, s),
        decreases total - k,
    {
        let mut next: Vec<bool> = Vec::new();
        let mut s: usize = 0;
        while s < total
            invariant
                s <= total,
                total == n * n,
                total <= 64,
                k < total,
                board@.len() == total,
                b == stacks(board@),
                valid_size(n as nat),
                cur@.len() == total,
                next@.len() == s,
                forall|t: int|
                    0 <= t < total ==> #[trigger] cur@[t] == reach(b, n as int, c, horizontal, k as nat, t),
                forall|t: int|
                    0 <= t < s ==> #[trigger] next@[t] == reach(
                        b,
                        n as int,
                        c,
                        horizontal,
                        (k + 1) as nat,
                        t,
                    ),
            decreases total - s,
        {
            let x = s % n;
            let y = s / n;
            proof {
                lemma_coords(n as int, s as int);
            }
            let near = cur[s] || (x > 0 && cur[s - 1]) || (x + 1 < n && cur[s + 1]) || (y > 0
                && cur[s - n]) || (y + 1 < n && cur[s + n]);
            let edge = if horizontal {
                x == 0
            } else {
                y == 0
            };
            let v = road_square(board, s, c) && (edge || near);
            proof {
                let si = s as int;
                let ni = n as int;
                let kk = k as nat;
                assert(si / ni < ni) by (nonlinear_arith)
                    requires
                        ni > 0,
                        0 <= si < ni * ni,
                ;
                assert(si == (si / ni) * ni + si % ni) by (nonlinear_arith)
                    requires
                        ni > 0,
                ;
                if v {
                    if !edge && !cur[s as int] {
                        let m: int = if x > 0 && cur[s - 1] {
                            si - 1
                        } else if x + 1 < n && cur[s + 1] {
                            si + 1
                        } else if y > 0 && cur[s - n] {
                            si - ni
                        } else {
                            si + ni
                        };
                        lemma_neighbour(ni, m, si);
                        assert(adjacent(ni, m, si) && reach(b, ni, c, horizontal, kk, m));
                    }
                } else {
                    if reach(b, ni, c, horizontal, (kk + 1) as nat, si) {
                        if !on_start_edge(ni, si, horizontal) && !reach(b, ni, c, horizontal, kk, si) {
                            let m = choose|m: int|
                                #[trigger] adjacent(ni, m, si) && reach(b, ni, c, horizontal, kk, m);
                            lemma_adjacent_cases(ni, m, si);
                            assert(cur@[m] == reach(b, ni, c, horizontal, kk, m));
                        }
                    }
                }
            }
            next.push(v);
            s = s + 1;
        }
        cur = next;
        k = k + 1;
    }
    let mut found = false;
    let mut j: usize = 0;
    while j < total
        invariant
            j <= total,
            total == n * n,
            cur@.len() == total,
            valid_size(n as nat),
            forall|s: int|
                0 <= s < total ==> #[trigger] cur@[s] == reach(b, n as int, c, horizontal, total as nat, s),
            found == exists|s: int|
                0 <= s < j && #[trigger] reach(b, n as int, c, horizontal, total as nat, s)
                    && on_end_edge(n as int, s, horizontal),
        decreases total - j,
    {
        let end = if horizontal {
            j % n == n - 1
        } else {
            j / n == n - 1
        };
        if cur[j] && end {
            found = true;
        }
        j = j + 1;
    }
    proof {
        if exists|sq: int|
            #[trigger] reach(b, n as int, c, horizontal, (n * n) as nat, sq) && on_end_edge(
                n as int,
                sq,
                horizontal,
            ) {
            let sq = choose|sq: int|
                #[trigger] reach(b, n as int, c, horizontal, (n * n) as nat, sq) && on_end_edge(
                    n as int,
                    sq,
                    horizontal,
                );
            assert(0 <= sq < total);
        }
    }
    found
}

/// Whether `c` has a road.
pub fn road(board: &Vec<Vec<Piece>>, n: usize, c: Colour) -> (r: bool)
    requires
        valid_size(n as nat),
        board@.len() == n * n,
    ensures
        r == has_road(stacks(board@), n as int, c),
{
    let a = road_in(board, n, c, true);
    let b = road_in(board, n, c, false);
    proof {
        let bs = stacks(board@);
        if has_road(bs, n as int, c) {
            let (sq, h) = choose|sq: int, h: bool|
                #[trigger] reach(bs, n as int, c, h, (n * n) as nat, sq) && on_end_edge(n as int, sq, h);
            if h {
                assert(a);
            } else {
                assert(b);
            }
        }
    }
    a || b
}

/// Number of squares whose top is a flat or capstone of `c`.
fn flats(board: &Vec<Vec<Piece>>, c: Colour) -> (r: u32)
    requires
        board@.len() <= 64,
    ensures
        r == flat_count(stacks(board@), c, board@.len() as int),
{
    let ghost b = stacks(board@);
    let mut count: u32 = 0;
    let mut i: usize = 0;
    while i < board.len()
        invariant
            i <= board@.len(),
            board@.len() <= 64,
            b == stacks(board@),
            count == flat_count(b, c, i as int),
            count <= i,
        decreases board@.len() - i,
    {
        let s = &board[i];
        if s.len() > 0 && s[s.len() - 1].colour == c && s[s.len() - 1].shape != Shape::Standing {
            count = count + 1;
        }
        i = i + 1;
    }
    count
}

/// Whether every square holds a piece.
fn full(board: &Vec<Vec<Piece>>) -> (r: bool)
    ensures
        r == all_filled(stacks(board@), board@.len() as int),
{
    let mut i: usize = 0;
    while i < board.len()
        invariant
            i <= board@.len(),
            all_filled(stacks(board@), i as int),
        decreases board@.len() - i,
    {
        if board[i].len() == 0 {
            assert(stacks(board@)[i as int].len() == 0);
            return false;
        }
        i = i + 1;
    }
    true
}

/// The outcome of a board just after `mover` moved.
pub fn evaluate_outcome(
    board: &Vec<Vec<Piece>>,
    n: usize,
    mover: Colour,
    reserves_out: bool,
    komi: i32,
) -> (r: GameResult)
    requires
        valid_size(n as nat),
        board@.len() == n * n,
    ensures
        r == outcome(stacks(board@), n as int, mover, reserves_out, komi as int),
{
    assert(n * n <= 64) by (nonlinear_arith)
        requires
            n <= 8,
    ;
    if road(board, n, mover) {
        GameResult::Winner { colour: mover, reason: WinReason::Road }
    } else if road(board, n, mover.next()) {
        GameResult::Winner { colour: mover.next(), reason: WinReason::Road }
    } else if full(board) || reserves_out {
        let w = flats(board, Colour::White) as i64;
        let k = flats(board, Colour::Black) as i64 + komi as i64;
        if w > k {
            GameResult::Winner { colour: Colour::White, reason: WinReason::Flats }
        } else if k > w {
            GameResult::Winner { colour: Colour::Black, reason: WinReason::Flats }
        } else {
            GameResult::Draw
        }
    } else {
        GameResult::Ongoing
    }
}

impl Game {
    /// A new game on an empty `n` by `n` board, White to move.
    pub fn with_komi(n: usize, komi: i32) -> (g: Game)
        requires
            valid_size(n as nat),
        ensures
            g.wf(),
            g.n == n,
            g.komi == komi,
            g.ply == 0,
            g.to_move == Colour::White,
            g.result == GameResult::Ongoing,
            g.white_stones == start_stones(n as nat) && g.black_stones == start_stones(n as nat),
            g.white_caps == start_caps(n as nat) && g.black_caps == start_caps(n as nat),
            forall|i: int| 0 <= i < n * n ==> (#[trigger] g.stacks()[i]).len() == 0,
    {
        assert(n * n <= 64) by (nonlinear_arith)
            requires
                n <= 8,
        ;
        let mut board: Vec<Vec<Piece>> = Vec::new();
        let mut i: usize = 0;
        while i < n * n
            invariant
                i <= n * n,
                n * n <= 64,
                board@.len() == i,
                forall|j: int| 0 <= j < i ==> (#[trigger] board@[j])@.len() == 0,
            decreases n * n - i,
        {
            board.push(Vec::new());
            i = i + 1;
        }
        let stones: u32 = if n == 3 {
            10
        } else if n == 4 {
            15
        } else if n == 5 {
            21
        } else if n == 6 {
            30
        } else if n == 7 {
            40
        } else {
            50
        };
        let caps: u32 = if n <= 4 {
            0
        } else if n <= 6 {
            1
        } else {
            2
        };
        Game {
            n,
            board,
            white_stones: stones,
            white_caps: caps,
            black_stones: stones,
            black_caps: caps,
            ply: 0,
            to_move: Colour::White,
            komi,
            result: GameResult::Ongoing,
        }
    }

    /// The result of the game so far.
    pub fn winner(&self) -> (r: GameResult)
        ensures
            r == self.result,
    {
        self.result
    }
}

proof fn lemma_pattern_bounds(p: nat, k: nat)
    requires
        p < pow2(k),
    ensures
        carry_of(p) <= k,
        drops_of(p) <= carry_of(p),
        p >= 1 ==> carry_of(p) >= 1 && drops_of(p) >= 1,
    decreases p,
{
    if p > 0 {
        if k == 0 {
            assert(pow2(0) == 1);
        } else {
            assert(p / 2 < pow2((k - 1) as nat));
            lemma_pattern_bounds(p / 2, (k - 1) as nat);
        }
    }
}

/// Bit length and number of set bits of a drop pattern.
fn pattern_counts(p: u32) -> (r: (usize, usize))
    ensures
        r.0 == carry_of(p as nat),
        r.1 == drops_of(p as nat),
{
    let mut q = p;
    let mut c: usize = 0;
    let mut m: usize = 0;
    while q > 0
        invariant
            carry_of(p as nat) == c + carry_of(q as nat),
            drops_of(p as nat) == m + drops_of(q as nat),
            c + q <= p,
            m <= c,
        decreases q,
    {
        m = m + (q % 2) as usize;
        c = c + 1;
        q = q / 2;
    }
    (c, m)
}

impl Game {
    /// The stack at `(x, y)`.
    fn stack(&self, x: usize, y: usize) -> (r: &Vec<Piece>)
        requires
            self.wf(),
            x < self.n,
            y < self.n,
        ensures
            r@ == self.stack_at(x as int, y as int),
    {
        proof {
            assert(y * self.n + x < self.n * self.n && self.n * self.n <= 64) by (nonlinear_arith)
                requires
                    x < self.n,
                    y < self.n,
                    self.n <= 8,
            ;
        }
        &self.board[y * self.n + x]
    }

    /// Whether the rules allow `t` now.
    pub fn is_legal(&self, t: &Turn) -> (r: bool)
        requires
            self.wf(),
        ensures
            r == self.spec_legal(*t),
    {
        if self.result != GameResult::Ongoing {
            return false;
        }
        let n = self.n;
        match *t {
            Turn::Place { x, y, shape } => {
                if x >= n || y >= n {
                    return false;
                }
                if self.stack(x, y).len() != 0 {
                    return false;
                }
                if self.ply < 2 && shape != Shape::Flat {
                    return false;
                }
                let c = if self.ply < 2 {
                    self.to_move.next()
                } else {
                    self.to_move
                };
                let left = match (c, shape) {
                    (Colour::White, Shape::Capstone) => self.white_caps,
                    (Colour::White, _) => self.white_stones,
                    (Colour::Black, Shape::Capstone) => self.black_caps,
                    (Colour::Black, _) => self.black_stones,
                };
                left > 0
            },
            Turn::Spread { x, y, direction, pattern } => {
                proof {
                    crate::codec::lemma_pow2_range(n as nat);
                }
                if x >= n || y >= n || pattern == 0 || pattern >= 256 {
                    return false;
                }
                let (c, m) = pattern_counts(pattern);
                proof {
                    crate::codec::lemma_pow2_range(n as nat);
                    assert(pow2(8) == 256) by {
                        reveal_with_fuel(pow2, 9);
                    }
                    lemma_pattern_bounds(pattern as nat, 8);
                }
                let mut bound: usize = 1;
                let mut k: usize = 0;
                while k < n
                    invariant
                        k <= n,
                        n <= 8,
                        bound == pow2(k as nat),
                        bound <= pow2(k as nat),
                        pow2(n as nat) <= 256,
                    decreases n - k,
                {
                    proof {
                        lemma_pow2_le(k as nat + 1, n as nat);
                    }
                    bound = bound * 2;
                    k = k + 1;
                }
                if pattern as usize >= bound {
                    return false;
                }
                proof {
                    lemma_pattern_bounds(pattern as nat, n as nat);
                }
                if self.ply < 2 {
                    return false;
                }
                let origin = self.stack(x, y);
                if c > origin.len() {
                    return false;
                }
                let top = origin[origin.len() - 1];
                if top.colour != self.to_move {
                    return false;
                }
                let mut s: usize = 1;
                while s <= m
                    invariant
                        self.wf(),
                        n == self.n,
                        x < n,
                        y < n,
                        1 <= s <= m + 1,
                        m <= 8,
                        m == drops_of(pattern as nat),
                        *t == (Turn::Spread { x, y, direction, pattern }),
                        origin@ == self.stack_at(x as int, y as int),
                        origin@.len() > 0,
                        top == origin@.last(),
                        forall|j: int|
                            1 <= j < s ==> #[trigger] self.drop_ok(x, y, direction, pattern, j),
                    decreases m + 1 - s,
                {
                    let ghost pos = step(x as int, y as int, direction, s as int);
                    let (ok, tx, ty) = match direction {
                        Direction::Up => (y + s < n, x, y + s),
                        Direction::Down => (s <= y, x, if s <= y { y - s } else { 0 }),
                        Direction::Left => (s <= x, if s <= x { x - s } else { 0 }, y),
                        Direction::Right => (x + s < n, x + s, y),
                    };
                    if !ok {
                        proof {
                            assert(!self.drop_ok(x, y, direction, pattern, s as int));
                            if self.spec_legal(*t) {
                                assert(1 <= s <= drops_of(pattern as nat));
                                assert(self.drop_ok(x, y, direction, pattern, s as int));
                            }
                        }
                        return false;
                    }
                    assert(pos == (tx as int, ty as int));
                    let target = self.stack(tx, ty);
                    if target.len() > 0 {
                        let tt = target[target.len() - 1];
                        if tt.shape == Shape::Capstone {
                            proof {
                                assert(self.stack_at(pos.0, pos.1) == target@);
                                assert(!self.drop_ok(x, y, direction, pattern, s as int));
                                if self.spec_legal(*t) {
                                    assert(1 <= s <= drops_of(pattern as nat));
                                    assert(self.drop_ok(x, y, direction, pattern, s as int));
                                }
                            }
                            return false;
                        }
                        if tt.shape == Shape::Standing && !(s == m && pattern % 2 == 1 && top.shape
                            == Shape::Capstone) {
                            proof {
                                assert(self.stack_at(pos.0, pos.1) == target@);
                                assert(!self.drop_ok(x, y, direction, pattern, s as int));
                                if self.spec_legal(*t) {
                                    assert(1 <= s <= drops_of(pattern as nat));
                                    assert(self.drop_ok(x, y, direction, pattern, s as int));
                                }
                            }
                            return false;
                        }
                    }
                    proof {
                        assert(self.stack_at(pos.0, pos.1) == target@);
                        assert(self.drop_ok(x, y, direction, pattern, s as int));
                    }
                    s = s + 1;
                }
                true
            },
        }
    }
}

impl Game {
    /// Two pieces draw from the same reserve: same colour, and both
    /// capstones or both stones.
    pub open spec fn same_bucket(c1: Colour, s1: Shape, c2: Colour, s2: Shape) -> bool {
        c1 == c2 && (s1 == Shape::Capstone) == (s2 == Shape::Capstone)
    }

    /// Plays `t`. An illegal move is refused and leaves the game as it was;
    /// a legal one updates the board and reserves, hands the move to the
    /// other player and recomputes the result.
    pub fn play(&mut self, t: Turn) -> (r: Result<(), IllegalMove>)
        requires
            old(self).wf(),
            old(self).ply < u64::MAX,
        ensures
            final(self).wf(),
            r.is_ok() == old(self).spec_legal(t),
            r.is_err() ==> *final(self) == *old(self),
            r.is_ok() ==> after_move(*old(self), t, *final(self)),
    {
        if !self.is_legal(&t) {
            return Err(IllegalMove);
        }
        let n = self.n;
        proof {
            assert(n * n <= 64) by (nonlinear_arith)
                requires
                    n <= 8,
            ;
        }
        match t {
            Turn::Place { x, y, shape } => {
                let pc = if self.ply < 2 {
                    self.to_move.next()
                } else {
                    self.to_move
                };
                proof {
                    assert(y * n + x < n * n) by (nonlinear_arith)
                        requires
                            x < n,
                            y < n,
                    ;
                }
                let sq = y * n + x;
                let ghost before = self.stacks();
                let mut stack: Vec<Piece> = Vec::new();
                stack.push(Piece { colour: pc, shape });
                self.board.set(sq, stack);
                proof {
                    assert(self.stacks() =~= before.update(sq as int, seq![Piece { colour: pc, shape }]));
                }
                match (pc, shape) {
                    (Colour::White, Shape::Capstone) => {
                        self.white_caps = self.white_caps - 1;
                    },
                    (Colour::White, _) => {
                        self.white_stones = self.white_stones - 1;
                    },
                    (Colour::Black, Shape::Capstone) => {
                        self.black_caps = self.black_caps - 1;
                    },
                    (Colour::Black, _) => {
                        self.black_stones = self.black_stones - 1;
                    },
                }
            },
            Turn::Spread { x, y, direction, pattern } => {
                self.spread(x, y, direction, pattern);
            },
        }
        let mover = self.to_move;
        self.ply = self.ply + 1;
        self.to_move = mover.next();
        let out = (self.white_stones == 0 && self.white_caps == 0) || (self.black_stones == 0
            && self.black_caps == 0);
        self.result = evaluate_outcome(&self.board, n, mover, out, self.komi);
        Ok(())
    }

    /// Carries the top pieces of `(x, y)` and drops them along `d` as
    /// `pattern` says; a wall at the end is flattened by the capstone.
    fn spread(&mut self, x: usize, y: usize, d: Direction, pattern: u32)
        requires
            old(self).wf(),
            old(self).spec_legal(Turn::Spread { x, y, direction: d, pattern }),
        ensures
            final(self).wf(),
            final(self).n == old(self).n,
            final(self).white_stones == old(self).white_stones,
            final(self).white_caps == old(self).white_caps,
            final(self).black_stones == old(self).black_stones,
            final(self).black_caps == old(self).black_caps,
            final(self).ply == old(self).ply,
            final(self).to_move == old(self).to_move,
            final(self).komi == old(self).komi,
            final(self).result == old(self).result,
            final(self).stacks() == spread_stacks(
                old(self).stacks(),
                old(self).n as int,
                x as int,
                y as int,
                d,
                pattern as nat,
            ),
    {
        let n = self.n;
        let ghost old_stacks = self.stacks();
        let ghost ni = n as int;
        let ghost o = self.stack_at(x as int, y as int);
        let ghost p = pattern as nat;
        proof {
            assert(n * n <= 64 && y * n + x < n * n) by (nonlinear_arith)
                requires
                    n <= 8,
                    x < n,
                    y < n,
            ;
            crate::codec::lemma_pow2_range(n as nat);
            lemma_pattern_bounds(p, n as nat);
            lemma_carry_pow2(p);
        }
        let (c, m) = pattern_counts(pattern);
        let origin = y * n + x;
        let mut stack = self.take_stack(origin);
        let h = stack.len();
        let mut carried: Vec<Piece> = Vec::new();
        let mut k: usize = 0;
        while k < c
            invariant
                k <= c,
                c <= h,
                h == o.len(),
                stack@ == o.subrange(0, h - k),
                carried@.len() == k,
                forall|i: int| 0 <= i < k ==> #[trigger] carried@[i] == o[h - 1 - i],
            decreases c - k,
        {
            let piece = stack.pop().unwrap();
            carried.push(piece);
            k = k + 1;
            assert(stack@ =~= o.subrange(0, h - k));
        }
        self.board.set(origin, stack);
        let mut div: u32 = 1;
        let mut e: usize = 1;
        while e < c
            invariant
                1 <= e <= c,
                c <= 8,
                div == pow2((e - 1) as nat),
                div <= 128,
            decreases c - e,
        {
            proof {
                lemma_pow2_le(e as nat, 7);
                assert(pow2(7) == 128) by {
                    reveal_with_fuel(pow2, 8);
                }
            }
            div = div * 2;
            e = e + 1;
        }
        let mut drop: usize = 0;
        let mut kk: usize = c;
        proof {
            lemma_no_steps_above(p);
            lemma_index_coords(ni, x as int, y as int);
            let o2 = old_stacks[origin as int];
            assert(o2 == o);
            assert(self.stacks() =~= partial_spread(old_stacks, ni, x as int, y as int, d, p, c as nat));
        }
        while kk > 0
            invariant
                kk <= c,
                c == carry_of(p),
                m == drops_of(p),
                p == pattern as nat,
                p >= 1,
                o == old_stacks[origin as int],
                h == o.len(),
                c <= h,
                old_stacks == old(self).stacks(),
                ni == n as int,
                n * n <= 64,
                old(self).wf(),
                old(self).n == n,
                old(self).spec_legal(Turn::Spread { x, y, direction: d, pattern }),
                forall|i: int| 0 <= i < c ==> #[trigger] carried@[i] == o[h - 1 - i],
                step_of(p, 0) == m,
                carried@.len() == c,
                div == pow2((kk - 1) as nat) || kk == 0,
                div >= 1,
                drop == step_of(p, kk as nat),
                drop <= m,
                self.wf(),
                self.n == n,
                x < n,
                y < n,
                origin == y * n + x,
                self.white_stones == old(self).white_stones,
                self.white_caps == old(self).white_caps,
                self.black_stones == old(self).black_stones,
                self.black_caps == old(self).black_caps,
                self.ply == old(self).ply,
                self.to_move == old(self).to_move,
                self.komi == old(self).komi,
                self.result == old(self).result,
                self.stacks() == partial_spread(old_stacks, ni, x as int, y as int, d, p, kk as nat),
            decreases kk,
        {
            let k1 = kk - 1;
            let ghost before = self.stacks();
            proof {
                lemma_pow2_pos(k1 as nat);
                lemma_step_next(p, k1 as nat);
                lemma_step_mono(p, 0, k1 as nat);
                lemma_first_bit(p);
                lemma_no_steps_above(p);
                lemma_step_next(p, (c - 1) as nat);
                if k1 + 1 < c {
                    lemma_step_mono(p, kk as nat, (c - 1) as nat);
                }
            }
            if (pattern / div) % 2 == 1 {
                drop = drop + 1;
            }
            proof {
                assert(drop >= 1);
                assert(old(self).drop_ok(x, y, d, pattern, drop as int));
            }
            let (tx, ty) = match d {
                Direction::Up => (x, y + drop),
                Direction::Down => (x, y - drop),
                Direction::Left => (x - drop, y),
                Direction::Right => (x + drop, y),
            };
            proof {
                assert(ty * n + tx < n * n) by (nonlinear_arith)
                    requires
                        tx < n,
                        ty < n,
                ;
                lemma_index_coords(n as int, tx as int, ty as int);
                lemma_index_coords(n as int, x as int, y as int);
            }
            let target = ty * n + tx;
            let mut dest = self.take_stack(target);
            let len = dest.len();
            if (pattern / div) % 2 == 1 && len > 0 && dest[len - 1].shape == Shape::Standing {
                let wall = dest[len - 1];
                dest.set(len - 1, Piece { colour: wall.colour, shape: Shape::Flat });
            }
            dest.push(carried[k1]);
            let ghost dest_view = dest@;
            proof {
                let bit = (p / pow2(k1 as nat)) % 2;
                assert(dest_view =~= (if bit == 1 {
                    flattened(before[target as int])
                } else {
                    before[target as int]
                }) + seq![o[h - 1 - k1]]);
            }
            self.board.set(target, dest);
            proof {
                assert(self.stacks() =~= before.update(target as int, dest_view));
            }
            if k1 > 0 {
                proof {
                    assert(pow2(k1 as nat) == 2 * pow2((k1 - 1) as nat));
                }
                div = div / 2;
            }
            kk = k1;
            proof {
                lemma_spread_step(
                    old_stacks,
                    ni,
                    x as int,
                    y as int,
                    d,
                    p,
                    k1 as nat,
                    before,
                    self.stacks(),
                    tx as int,
                    ty as int,
                    drop as nat,
                    dest_view,
                );
            }
        }
        proof {
            assert(self.stacks() == spread_stacks(old_stacks, ni, x as int, y as int, d, p));
        }
    }

    /// Moves the stack at `sq` out of the board, leaving an empty one.
    fn take_stack(&mut self, sq: usize) -> (r: Vec<Piece>)
        requires
            old(self).wf(),
            sq < old(self).board@.len(),
        ensures
            r@ == old(self).stacks()[sq as int],
            final(self).board@ == old(self).board@.update(sq as int, final(self).board@[sq as int]),
            final(self).board@[sq as int]@.len() == 0,
            final(self).n == old(self).n,
            final(self).white_stones == old(self).white_stones,
            final(self).white_caps == old(self).white_caps,
            final(self).black_stones == old(self).black_stones,
            final(self).black_caps == old(self).black_caps,
            final(self).ply == old(self).ply,
            final(self).to_move == old(self).to_move,
            final(self).komi == old(self).komi,
            final(self).result == old(self).result,
            final(self).wf(),
    {
        let mut out: Vec<Piece> = Vec::new();
        std::mem::swap(&mut out, &mut self.board[sq]);
        out
    }
}

/// The legal moves of `g` among the first `k` indices of the action space,
/// in index order.
pub open spec fn legal_list(g: Game, k: int) -> Seq<Turn>
    decreases k,
{
    if k <= 0 {
        seq![]
    } else {
        legal_list(g, k - 1) + if g.spec_legal(spec_decode(g.n as nat, (k - 1) as nat)) {
            seq![spec_decode(g.n as nat, (k - 1) as nat)]
        } else {
            seq![]
        }
    }
}

impl Game {
    /// Every legal move, in the order of their indices in the action space.
    pub fn legal_moves(&self) -> (r: Vec<Turn>)
        requires
            self.wf(),
        ensures
            forall|j: int| 0 <= j < r@.len() ==> self.spec_legal(#[trigger] r@[j]),
            forall|t: Turn| #[trigger] self.spec_legal(t) ==> r@.contains(t),
            r@.len() <= action_space(self.n as nat),
            r@ == legal_list(*self, action_space(self.n as nat) as int),
    {
        let n = self.n;
        let total = action_count(n);
        let mut out: Vec<Turn> = Vec::new();
        let mut i: usize = 0;
        while i < total
            invariant
                self.wf(),
                n == self.n,
                total == action_space(n as nat),
                i <= total,
                out@.len() <= i,
                out@ == legal_list(*self, i as int),
                forall|j: int| 0 <= j < out@.len() ==> self.spec_legal(#[trigger] out@[j]),
                forall|k: int|
                    0 <= k < i && #[trigger] self.spec_legal(spec_decode(n as nat, k as nat))
                        ==> out@.contains(spec_decode(n as nat, k as nat)),
            decreases total - i,
        {
            let ghost old_out = out@;
            match decode(n, i) {
                Some(t) => {
                    if self.is_legal(&t) {
                        out.push(t);
                        proof {
                            assert(out@[out@.len() - 1] == t);
                        }
                    }
                },
                None => {},
            }
            proof {
                assert(out@ =~= legal_list(*self, i + 1));
                assert forall|k: int|
                    0 <= k < i + 1 && #[trigger] self.spec_legal(spec_decode(n as nat, k as nat))
                        implies out@.contains(spec_decode(n as nat, k as nat)) by {
                    if k == i {
                        assert(out@[out@.len() - 1] == spec_decode(n as nat, k as nat));
                    } else {
                        assert(old_out.contains(spec_decode(n as nat, k as nat)));
                        let j = choose|j: int|
                            0 <= j < old_out.len() && old_out[j] == spec_decode(n as nat, k as nat);
                        assert(out@[j] == old_out[j]);
                    }
                }
            }
            i = i + 1;
        }
        proof {
            assert forall|t: Turn| #[trigger] self.spec_legal(t) implies out@.contains(t) by {
                lemma_encode_in_range(n as nat, t);
                lemma_decode_encode(n as nat, t);
                let k = spec_encode(n as nat, t) as int;
                assert(self.spec_legal(spec_decode(n as nat, k as nat)));
            }
        }
        out
    }
}

/// A copy of a stack.
fn copy_stack(s: &Vec<Piece>) -> (r: Vec<Piece>)
    ensures
        r@ == s@,
{
    let mut out: Vec<Piece> = Vec::new();
    let mut i: usize = 0;
    while i < s.len()
        invariant
            i <= s@.len(),
            out@ == s@.subrange(0, i as int),
        decreases s@.len() - i,
    {
        out.push(s[i]);
        i = i + 1;
        assert(out@ =~= s@.subrange(0, i as int));
    }
    assert(s@.subrange(0, i as int) =~= s@);
    out
}

impl Game {
    /// An independent copy of the game, for simulation.
    pub fn duplicate(&self) -> (r: Game)
        ensures
            r.stacks() == self.stacks(),
            r.n == self.n,
            r.white_stones == self.white_stones,
            r.white_caps == self.white_caps,
            r.black_stones == self.black_stones,
            r.black_caps == self.black_caps,
            r.ply == self.ply,
            r.to_move == self.to_move,
            r.komi == self.komi,
            r.result == self.result,
            self.wf() ==> r.wf(),
    {
        let mut board: Vec<Vec<Piece>> = Vec::new();
        let mut i: usize = 0;
        while i < self.board.len()
            invariant
                i <= self.board@.len(),
                board@.len() == i,
                forall|j: int| 0 <= j < i ==> (#[trigger] board@[j])@ == self.board@[j]@,
            decreases self.board@.len() - i,
        {
            board.push(copy_stack(&self.board[i]));
            i = i + 1;
        }
        assert(stacks(board@) =~= self.stacks());
        Game {
            n: self.n,
            board,
            white_stones: self.white_stones,
            white_caps: self.white_caps,
            black_stones: self.black_stones,
            black_caps: self.black_caps,
            ply: self.ply,
            to_move: self.to_move,
            komi: self.komi,
            result: self.result,
        }
    }
}

impl Game {
    /// A fair opening for self-play: a flat in the corner `(0, 0)`, answered
    /// by a flat in the corner across the bottom edge when `seed` is even and
    /// in the opposite corner when it is odd.
    pub fn opening(&self, seed: u64) -> (r: Vec<Turn>)
        requires
            self.wf(),
        ensures
            r@ == seq![
                Turn::Place { x: 0, y: 0, shape: Shape::Flat },
                Turn::Place {
                    x: (self.n - 1) as usize,
                    y: if seed % 2 == 0 {
                        0
                    } else {
                        (self.n - 1) as usize
                    },
                    shape: Shape::Flat,
                },
            ],
    {
        let far = self.n - 1;
        let y = if seed % 2 == 0 {
            0
        } else {
            far
        };
        let mut r: Vec<Turn> = Vec::new();
        r.push(Turn::Place { x: 0, y: 0, shape: Shape::Flat });
        r.push(Turn::Place { x: far, y, shape: Shape::Flat });
        assert(r@ =~= seq![
            Turn::Place { x: 0, y: 0, shape: Shape::Flat },
            Turn::Place { x: far, y, shape: Shape::Flat },
        ]);
        r
    }
}

proof fn lemma_pow2_le(a: nat, b: nat)
    requires
        a <= b,
    ensures
        pow2(a) <= pow2(b),
    decreases b - a,
{
    if a < b {
        lemma_pow2_le(a, (b - 1) as nat);
    }
}

} // verus!
