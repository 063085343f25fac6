use vstd::prelude::*;
use vstd::arithmetic::div_mod::lemma_fundamental_div_mod_converse;
use crate::turn::{Direction, Shape, Turn, pow2, turn_fits, valid_size};

verus! {

pub open spec fn shape_index(s: Shape) -> nat {
    match s {
        Shape::Flat => 0,
        Shape::Standing => 1,
        Shape::Capstone => 2,
    }
}

pub open spec fn shape_at(k: nat) -> Shape {
    if k == 0 {
        Shape::Flat
    } else if k == 1 {
        Shape::Standing
    } else {
        Shape::Capstone
    }
}

pub open spec fn direction_index(d: Direction) -> nat {
    match d {
        Direction::Up => 0,
        Direction::Down => 1,
        Direction::Left => 2,
        Direction::Right => 3,
    }
}

pub open spec fn direction_at(k: nat) -> Direction {
    if k == 0 {
        Direction::Up
    } else if k == 1 {
        Direction::Down
    } else if k == 2 {
        Direction::Left
    } else {
        Direction::Right
    }
}

/// Number of drop patterns on a board of size `n`.
pub open spec fn pattern_count(n: nat) -> nat {
    (pow2(n) - 1) as nat
}

/// Number of placement indices: three shapes on each square.
pub open spec fn place_count(n: nat) -> nat {
    3 * (n * n)
}

/// Size of the action space on a board of size `n`.
pub open spec fn action_space(n: nat) -> nat {
    place_count(n) + 4 * (n * n) * pattern_count(n)
}

/// The index of a move.
pub open spec fn spec_encode(n: nat, t: Turn) -> nat {
    match t {
        Turn::Place { x, y, shape } => ((y * n + x) * 3 + shape_index(shape)) as nat,
        Turn::Spread { x, y, direction, pattern } => (place_count(n) + ((y * n + x) * 4
            + direction_index(direction)) * pattern_count(n) + (pattern - 1)) as nat,
    }
}

/// The move of an index below `action_space(n)`.
pub open spec fn spec_decode(n: nat, i: nat) -> Turn {
    if i < place_count(n) {
        let sq = i / 3;
        Turn::Place { x: (sq % n) as usize, y: (sq / n) as usize, shape: shape_at(i % 3) }
    } else {
        let j = (i - place_count(n)) as nat;
        let k = j / pattern_count(n);
        let sq = k / 4;
        Turn::Spread {
            x: (sq % n) as usize,
            y: (sq / n) as usize,
            direction: direction_at(k % 4),
            pattern: (j % pattern_count(n) + 1) as u32,
        }
    }
}

pub proof fn lemma_pow2_range(n: nat)
    requires
        valid_size(n),
    ensures
        8 <= pow2(n) <= 256,
{
    reveal_with_fuel(pow2, 9);
}

proof fn lemma_square(n: nat, x: nat, y: nat)
    requires
        x < n,
        y < n,
    ensures
        y * n + x < n * n,
{
    assert(y * n + x < n * n) by (nonlinear_arith)
        requires
            x < n,
            y < n,
    ;
}

/// Splits `q * d + r` back into `q` and `r`.
proof fn lemma_split(q: nat, d: nat, r: nat)
    requires
        r < d,
    ensures
        (q * d + r) / d == q,
        (q * d + r) % d == r,
{
    lemma_fundamental_div_mod_converse((q * d + r) as int, d as int, q as int, r as int);
}

proof fn lemma_index_bound(n: nat, sq: nat, k: nat, m: nat)
    requires
        sq < n * n,
        k < m,
    ensures
        sq * m + k < (n * n) * m,
{
    assert(sq * m + k < (n * n) * m) by (nonlinear_arith)
        requires
            sq < n * n,
            k < m,
    ;
}

/// The action space of every board size has fewer than `2^16` indices.
pub proof fn lemma_action_space_bound(n: nat)
    requires
        valid_size(n),
    ensures
        action_space(n) < 0x1_0000,
{
    lemma_pow2_range(n);
    let m = pattern_count(n);
    assert(n * n <= 64) by (nonlinear_arith)
        requires
            n <= 8,
    ;
    assert(3 * (n * n) + 4 * (n * n) * m <= 3 * 64 + 4 * 64 * 255) by (nonlinear_arith)
        requires
            n * n <= 64,
            m <= 255,
    ;
}

/// Every move that fits the board has an index in the action space.
pub proof fn lemma_encode_in_range(n: nat, t: Turn)
    requires
        valid_size(n),
        turn_fits(n, t),
    ensures
        spec_encode(n, t) < action_space(n),
{
    lemma_pow2_range(n);
    match t {
        Turn::Place { x, y, shape } => {
            lemma_square(n, x as nat, y as nat);
            lemma_index_bound(n, (y * n + x) as nat, shape_index(shape), 3);
            assert((n * n) * 3 == 3 * (n * n)) by (nonlinear_arith);
            assert(0 <= 4 * (n * n) * pattern_count(n)) by (nonlinear_arith);
        },
        Turn::Spread { x, y, direction, pattern } => {
            let m = pattern_count(n);
            let sq = (y * n + x) as nat;
            lemma_square(n, x as nat, y as nat);
            lemma_index_bound(n, sq, direction_index(direction), 4);
            let k = (sq * 4 + direction_index(direction)) as nat;
            assert((n * n) * 4 * m == 4 * (n * n) * m) by (nonlinear_arith);
            assert(k * m + (pattern - 1) < (n * n) * 4 * m) by (nonlinear_arith)
                requires
                    k < (n * n) * 4,
                    (pattern - 1) < m,
            ;
        },
    }
}

/// Decoding the index of a move gives the move back.
pub proof fn lemma_decode_encode(n: nat, t: Turn)
    requires
        valid_size(n),
        turn_fits(n, t),
    ensures
        spec_decode(n, spec_encode(n, t)) == t,
{
    lemma_pow2_range(n);
    match t {
        Turn::Place { x, y, shape } => {
            let sq = (y * n + x) as nat;
            lemma_square(n, x as nat, y as nat);
            lemma_split(sq, 3, shape_index(shape));
            lemma_split(y as nat, n, x as nat);
            lemma_index_bound(n, sq, shape_index(shape), 3);
            assert((n * n) * 3 == 3 * (n * n)) by (nonlinear_arith);
        },
        Turn::Spread { x, y, direction, pattern } => {
            let m = pattern_count(n);
            let sq = (y * n + x) as nat;
            let k = (sq * 4 + direction_index(direction)) as nat;
            lemma_split(k, m, (pattern - 1) as nat);
            lemma_split(sq, 4, direction_index(direction));
            lemma_split(y as nat, n, x as nat);
        },
    }
}

/// Two moves that fit the board never share an index.
pub proof fn lemma_encode_injective(n: nat, t1: Turn, t2: Turn)
    requires
        valid_size(n),
        turn_fits(n, t1),
        turn_fits(n, t2),
        spec_encode(n, t1) == spec_encode(n, t2),
    ensures
        t1 == t2,
{
    lemma_decode_encode(n, t1);
    lemma_decode_encode(n, t2);
}

/// Number of drop patterns on a board of size `n`: `2^n - 1`.
pub fn patterns(n: usize) -> (r: usize)
    requires
        valid_size(n as nat),
    ensures
        r == pattern_count(n as nat),
        7 <= r <= 255,
{
    proof {
        lemma_pow2_range(n as nat);
    }
    let mut p: usize = 1;
    let mut k: usize = 0;
    while k < n
        invariant
            k <= n,
            valid_size(n as nat),
            p == pow2(k as nat),
            pow2(n as nat) <= 256,
        decreases n - k,
    {
        proof {
            lemma_pow2_monotone(k as nat + 1, n as nat);
        }
        p = p * 2;
        k = k + 1;
    }
    p - 1
}

proof fn lemma_pow2_monotone(a: nat, b: nat)
    requires
        a <= b,
    ensures
        pow2(a) <= pow2(b),
    decreases b - a,
{
    if a < b {
        lemma_pow2_monotone(a, (b - 1) as nat);
    }
}

/// Size of the action space on a board of size `n`.
pub fn action_count(n: usize) -> (r: usize)
    requires
        valid_size(n as nat),
    ensures
        r == action_space(n as nat),
{
    let m = patterns(n);
    assert(n * n <= 64) by (nonlinear_arith)
        requires
            n <= 8,
    ;
    assert(4 * (n * n) * m <= 4 * 64 * 255) by (nonlinear_arith)
        requires
            n * n <= 64,
            m <= 255,
    ;
    3 * (n * n) + 4 * (n * n) * m
}

/// The index of a move that fits the board.
pub fn encode(n: usize, t: &Turn) -> (r: usize)
    requires
        valid_size(n as nat),
        turn_fits(n as nat, *t),
    ensures
        r == spec_encode(n as nat, *t),
        r < action_space(n as nat),
{
    proof {
        lemma_encode_in_range(n as nat, *t);
    }
    let total = action_count(n);
    let m = patterns(n);
    match *t {
        Turn::Place { x, y, shape } => {
            proof {
                lemma_square(n as nat, x as nat, y as nat);
                assert(n * n <= 64 && y * n <= 64) by (nonlinear_arith)
                    requires
                        n <= 8,
                        y < n,
                ;
            }
            let s: usize = match shape {
                Shape::Flat => 0,
                Shape::Standing => 1,
                Shape::Capstone => 2,
            };
            (y * n + x) * 3 + s
        },
        Turn::Spread { x, y, direction, pattern } => {
            proof {
                lemma_square(n as nat, x as nat, y as nat);
            }
            let d: usize = match direction {
                Direction::Up => 0,
                Direction::Down => 1,
                Direction::Left => 2,
                Direction::Right => 3,
            };
            assert(n * n <= 64 && y * n <= 64) by (nonlinear_arith)
                requires
                    n <= 8,
                    y < n,
            ;
            assert(((y * n + x) * 4 + d) * m <= 256 * 255) by (nonlinear_arith)
                requires
                    (y * n + x) * 4 + d < 256,
                    m <= 255,
            ;
            3 * (n * n) + ((y * n + x) * 4 + d) * m + (pattern as usize - 1)
        },
    }
}

/// The move of an index, or `None` where the index lies outside the action
/// space of a board of size `n`.
pub fn decode(n: usize, i: usize) -> (r: Option<Turn>)
    requires
        valid_size(n as nat),
    ensures
        r.is_some() <==> i < action_space(n as nat),
        r.is_some() ==> r == Some(spec_decode(n as nat, i as nat)),
        r.is_some() ==> turn_fits(n as nat, r.unwrap()),
{
    let total = action_count(n);
    if i >= total {
        return None;
    }
    let m = patterns(n);
    let places = 3 * (n * n);
    if i < places {
        let sq = i / 3;
        let k = i % 3;
        let shape = if k == 0 {
            Shape::Flat
        } else if k == 1 {
            Shape::Standing
        } else {
            Shape::Capstone
        };
        proof {
            lemma_decoded_square(n as nat, sq as nat);
        }
        Some(Turn::Place { x: sq % n, y: sq / n, shape })
    } else {
        let j = i - places;
        let k = j / m;
        let sq = k / 4;
        let dk = k % 4;
        let direction = if dk == 0 {
            Direction::Up
        } else if dk == 1 {
            Direction::Down
        } else if dk == 2 {
            Direction::Left
        } else {
            Direction::Right
        };
        proof {
            assert(k < 4 * (n * n)) by (nonlinear_arith)
                requires
                    j < 4 * (n * n) * m,
                    k == j / m,
                    m > 0,
            ;
            lemma_decoded_square(n as nat, sq as nat);
            lemma_pow2_range(n as nat);
        }
        let pattern = (j % m + 1) as u32;
        Some(Turn::Spread { x: sq % n, y: sq / n, direction, pattern })
    }
}

proof fn lemma_decoded_square(n: nat, sq: nat)
    requires
        sq < n * n,
        n > 0,
    ensures
        sq % n < n,
        sq / n < n,
{
    assert(sq / n < n) by (nonlinear_arith)
        requires
            sq < n * n,
            n > 0,
    ;
}

} // verus!
