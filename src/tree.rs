use vstd::prelude::*;
use crate::codec::{action_space, encode, lemma_encode_in_range, spec_encode};
use crate::game::{Game, GameResult, after_move, legal_list};
use crate::turn::{Colour, Shape, Turn};

verus! {

/// The statistics of one position in the search tree.
pub struct Entry {
    /// The move that leads here from the parent.
    pub turn: Turn,
    pub visits: u32,
    /// Sum of the values backed up through this entry, in thousandths, each
    /// from the view of the player to move here.
    pub reward_sum: i64,
    /// Prior probability of `turn`, in millionths.
    pub policy: u32,
    pub result: GameResult,
    /// Indices of the children in the arena.
    pub children: Vec<usize>,
}

/// One line of a search report: a child of the root with its statistics
/// and its principal variation.
pub struct DebugRow {
    /// Index of the child in the arena.
    pub child: usize,
    pub turn: Turn,
    pub visits: u32,
    /// Mean reward in thousandths, from the view of the player to move at
    /// the child.
    pub expected_reward: i64,
    /// Prior in millionths.
    pub policy: u32,
    pub continuation: Vec<Turn>,
}

/// Length of the principal variations in a search report.
pub const MAX_CONTINUATION_LEN: usize = 8;

/// Ongoing positions with fewer visits than this end a reported variation.
pub const MIN_VISIT_COUNT: u32 = 10;

/// A search tree stored as an arena of entries; `root` is the position being
/// searched. A child always has a larger index than its parent.
pub struct Node {
    pub entries: Vec<Entry>,
    pub root: usize,
}

/// `a`, at position `ja` among its siblings, ranks above `b` at position `jb`:
/// more visits, then a higher prior, then an earlier position.
pub open spec fn ranks_above(a: Entry, ja: int, b: Entry, jb: int) -> bool {
    a.visits > b.visits || (a.visits == b.visits && (a.policy > b.policy || (a.policy == b.policy
        && ja < jb)))
}

/// `k` is the position of the best child of entry `i`.
pub open spec fn is_best(es: Seq<Entry>, i: int, k: int) -> bool {
    let ch = es[i].children@;
    0 <= k < ch.len() && forall|j: int|
        0 <= j < ch.len() && j != k ==> #[trigger] ranks_above(es[ch[k] as int], k, es[ch[j] as int], j)
}

/// The best child of entry `i` (meaningful where it has children).
pub open spec fn best_of(es: Seq<Entry>, i: int) -> int {
    choose|k: int| is_best(es, i, k)
}

pub open spec fn is_ongoing(r: GameResult) -> bool {
    r == GameResult::Ongoing
}

/// The principal variation from entry `i`: follow the best child until the
/// depth runs out, a leaf is reached, or an ongoing position has fewer than
/// `min_visits` visits.
pub open spec fn spec_continuation(es: Seq<Entry>, i: int, min_visits: u32, depth: nat) -> Seq<Turn>
    decreases depth,
{
    if depth == 0 || !(0 <= i < es.len()) || es[i].children@.len() == 0 || (is_ongoing(es[i].result)
        && es[i].visits < min_visits) {
        seq![]
    } else {
        let c = es[i].children@[best_of(es, i)] as int;
        seq![es[c].turn].add(spec_continuation(es, c, min_visits, (depth - 1) as nat))
    }
}

impl Node {
    /// Children point forward in the arena, are listed in increasing order
    /// and have one parent each; every reward sum is bounded by its visit
    /// count; an entry that was never visited, or whose game is over, has no
    /// children.
    pub open spec fn wf(&self) -> bool {
        let es = self.entries@;
        &&& self.root < es.len()
        &&& forall|i: int|
            0 <= i < es.len() && (es[i].visits == 0 || !is_ongoing(es[i].result)) ==> (
            #[trigger] es[i].children)@.len() == 0
        &&& forall|i: int, j: int|
            0 <= i < es.len() && 0 <= j < es[i].children@.len() ==> i < #[trigger] es[i].children@[j]
                < es.len()
        &&& forall|i: int|
            0 <= i < es.len() ==> -1000 * (#[trigger] es[i].visits) <= es[i].reward_sum
                <= 1000 * es[i].visits
        &&& forall|i: int, a: int, b: int|
            0 <= i < es.len() && 0 <= a < b < es[i].children@.len() ==> #[trigger] es[i].children@[a]
                < #[trigger] es[i].children@[b]
        &&& forall|i: int, j: int, a: int, b: int|
            0 <= i < es.len() && 0 <= j < es.len() && 0 <= a < es[i].children@.len() && 0 <= b
                < es[j].children@.len() && #[trigger] es[i].children@[a] == #[trigger] es[j].children@[b]
                ==> i == j
    }

    /// A fresh tree: one unvisited root.
    pub fn new() -> (r: Node)
        ensures
            r.wf(),
            r.entries@.len() == 1,
            r.root == 0,
            r.entries@[0].visits == 0,
            r.entries@[0].children@.len() == 0,
            r.entries@[0].result == GameResult::Ongoing,
    {
        let e = Entry {
            turn: Turn::Place { x: 0, y: 0, shape: Shape::Flat },
            visits: 0,
            reward_sum: 0,
            policy: 0,
            result: GameResult::Ongoing,
            children: Vec::new(),
        };
        let mut entries = Vec::new();
        entries.push(e);
        Node { entries, root: 0 }
    }

    /// Whether the entry has been expanded.
    pub fn is_policy_initialized(&self, i: usize) -> (r: bool)
        requires
            i < self.entries@.len(),
        ensures
            r == (self.entries@[i as int].children@.len() > 0),
    {
        self.entries[i].children.len() > 0
    }

    /// Whether the game is still going on at the entry.
    pub fn is_game_ongoing(&self, i: usize) -> (r: bool)
        requires
            i < self.entries@.len(),
        ensures
            r == is_ongoing(self.entries@[i as int].result),
    {
        match self.entries[i].result {
            GameResult::Ongoing => true,
            _ => false,
        }
    }

    /// Position of the best child of entry `i` among its children.
    pub fn best_child(&self, i: usize) -> (k: usize)
        requires
            self.wf(),
            i < self.entries@.len(),
            self.entries@[i as int].children@.len() > 0,
        ensures
            is_best(self.entries@, i as int, k as int),
            k == best_of(self.entries@, i as int),
    {
        let es = Ghost(self.entries@);
        let ch = &self.entries[i].children;
        let mut best: usize = 0;
        let mut j: usize = 1;
        while j < ch.len()
            invariant
                es@ == self.entries@,
                self.wf(),
                i < es@.len(),
                *ch == es@[i as int].children,
                ch@.len() > 0,
                1 <= j <= ch@.len(),
                best < j,
                forall|m: int|
                    0 <= m < j && m != best ==> #[trigger] ranks_above(
                        es@[ch@[best as int] as int],
                        best as int,
                        es@[ch@[m] as int],
                        m,
                    ),
            decreases ch@.len() - j,
        {
            let a = &self.entries[ch[j]];
            let b = &self.entries[ch[best]];
            if a.visits > b.visits || (a.visits == b.visits && a.policy > b.policy) {
                let ghost old_best = best;
                best = j;
                proof {
                    assert forall|m: int| 0 <= m < j + 1 && m != best implies #[trigger] ranks_above(
                        es@[ch@[best as int] as int],
                        best as int,
                        es@[ch@[m] as int],
                        m,
                    ) by {
                        if m != old_best {
                            assert(ranks_above(
                                es@[ch@[old_best as int] as int],
                                old_best as int,
                                es@[ch@[m] as int],
                                m,
                            ));
                        }
                    }
                }
            }
            j = j + 1;
        }
        proof {
            lemma_best_unique(self.entries@, i as int, best as int);
        }
        best
    }

    /// The best move at the root: most visits, then highest prior, then the
    /// first in the order of the children.
    pub fn pick_move(&self) -> (r: Turn)
        requires
            self.wf(),
            self.entries@[self.root as int].children@.len() > 0,
        ensures
            r == self.entries@[self.entries@[self.root as int].children@[best_of(
                self.entries@,
                self.root as int,
            )] as int].turn,
    {
        let k = self.best_child(self.root);
        self.entries[self.entries[self.root].children[k]].turn
    }

    /// Mean reward of entry `i` in thousandths.
    pub fn mean_reward(&self, i: usize) -> (r: i64)
        requires
            self.wf(),
            i < self.entries@.len(),
        ensures
            r == mean_reward(self.entries@[i as int]),
            -1000 <= r <= 1000,
    {
        let e = &self.entries[i];
        if e.visits == 0 {
            0
        } else {
            let v = e.visits as i64;
            proof {
                let w = e.visits as int;
                let a = e.reward_sum + 1000 * w;
                assert(0 <= a <= 2000 * w);
                assert(0 <= a / w <= 2000) by (nonlinear_arith)
                    requires
                        0 <= a <= 2000 * w,
                        w > 0,
                ;
            }
            (e.reward_sum + 1000 * v) / v - 1000
        }
    }

    /// Selection score of entry `c`, where `s` is the integer square root of
    /// its parent's visits.
    fn puct_of(&self, c: usize, s: u32) -> (r: i64)
        requires
            self.wf(),
            s <= 65535,
            c < self.entries@.len(),
        ensures
            r == puct(self.entries@[c as int], s as nat),
    {
        let q = self.mean_reward(c);
        let e = &self.entries[c];
        assert(3 * (e.policy as int) * (s as int) <= 3 * 0xffff_ffff * 0xffff_ffff) by (nonlinear_arith);
        let num: u128 = 3 * (e.policy as u128) * (s as u128);
        let den: u128 = 2000 * (1 + e.visits as u128);
        let bonus = num / den;
        assert(bonus <= num) by (nonlinear_arith)
            requires
                bonus == num / den,
                den >= 1,
        ;
        assert(num <= 3 * 0xffff_ffff * 65536) by (nonlinear_arith)
            requires
                num == 3 * (e.policy as int) * (s as int),
                s <= 65535,
        ;
        -q + bonus as i64
    }

    /// Position, among the children of entry `i`, of the child that
    /// selection descends into.
    pub fn select_child(&self, i: usize) -> (k: usize)
        requires
            self.wf(),
            i < self.entries@.len(),
            self.entries@[i as int].children@.len() > 0,
        ensures
            k < self.entries@[i as int].children@.len(),
            selects(self.entries@, i as int, self.entries@[i as int].children@[k as int] as int),
    {
        let es = Ghost(self.entries@);
        let s = isqrt(self.entries[i].visits);
        let ch = &self.entries[i].children;
        let mut best: usize = 0;
        let mut best_score = self.puct_of(ch[0], s);
        let mut j: usize = 1;
        while j < ch.len()
            invariant
                es@ == self.entries@,
                self.wf(),
                i < es@.len(),
                *ch == es@[i as int].children,
                ch@.len() > 0,
                1 <= j <= ch@.len(),
                s <= 65535,
                best < j,
                best_score == puct(es@[ch@[best as int] as int], s as nat),
                forall|m: int|
                    0 <= m < j ==> (#[trigger] puct(es@[ch@[m] as int], s as nat) <= best_score && (m
                        < best ==> puct(es@[ch@[m] as int], s as nat) < best_score)),
            decreases ch@.len() - j,
        {
            let sc = self.puct_of(ch[j], s);
            if sc > best_score {
                best = j;
                best_score = sc;
            }
            j = j + 1;
        }
        assert(is_selected(es@, i as int, s as nat, best as int));
        assert(is_isqrt(es@[i as int].visits as nat, s as nat));
        best
    }

    /// The path that selection follows: from the root, descend into the
    /// selected child until an entry without children.
    pub fn select_path(&self) -> (path: Vec<usize>)
        requires
            self.wf(),
        ensures
            path@.len() >= 1,
            path@[0] == self.root,
            path_ok(self.entries@, path@),
            self.entries@[path@.last() as int].children@.len() == 0,
            forall|a: int|
                0 <= a < path@.len() - 1 ==> #[trigger] selects(
                    self.entries@,
                    path@[a] as int,
                    path@[a + 1] as int,
                ),
    {
        let es = Ghost(self.entries@);
        let mut path: Vec<usize> = Vec::new();
        let mut cur = self.root;
        path.push(cur);
        while self.entries[cur].children.len() > 0
            invariant
                es@ == self.entries@,
                self.wf(),
                cur < es@.len(),
                path@.len() >= 1,
                path@[0] == self.root,
                path@.last() == cur,
                path_ok(es@, path@),
                forall|a: int|
                    0 <= a < path@.len() - 1 ==> #[trigger] selects(
                        es@,
                        path@[a] as int,
                        path@[a + 1] as int,
                    ),
            decreases es@.len() - cur,
        {
            let k = self.select_child(cur);
            let c = self.entries[cur].children[k];
            let ghost old_path = path@;
            path.push(c);
            proof {
                assert(path@[path@.len() - 2] == cur);
                assert forall|a: int| 0 <= a < path@.len() - 1 implies #[trigger] selects(
                    es@,
                    path@[a] as int,
                    path@[a + 1] as int,
                ) by {
                    if a < path@.len() - 2 {
                        assert(path@[a] == old_path[a] && path@[a + 1] == old_path[a + 1]);
                        assert(selects(es@, old_path[a] as int, old_path[a + 1] as int));
                    } else {
                        assert(es@[path@[a] as int].children@[k as int] == path@[a + 1]);
                    }
                }
            }
            cur = c;
        }
        path
    }

    /// Backs `value` (thousandths, from the view of the player to move at the
    /// last entry of `path`) up along the path: every entry on it gains one
    /// visit and the value with the sign of its player. Nothing changes, and
    /// `false` comes back, where a visit count on the path is at its maximum.
    pub fn backup(&mut self, path: &Vec<usize>, value: i64) -> (ok: bool)
        requires
            old(self).wf(),
            -1000 <= value <= 1000,
            path_ok(old(self).entries@, path@),
        ensures
            final(self).wf(),
            ok == forall|a: int|
                0 <= a < path@.len() ==> #[trigger] old(self).entries@[path@[a] as int].visits
                    < u32::MAX,
            !ok ==> *final(self) == *old(self),
            final(self).root == old(self).root,
            final(self).entries@.len() == old(self).entries@.len(),
            ok ==> forall|a: int|
                0 <= a < path@.len() ==> {
                    let e0 = #[trigger] old(self).entries@[path@[a] as int];
                    let e1 = final(self).entries@[path@[a] as int];
                    &&& e1.visits == e0.visits + 1
                    &&& e1.reward_sum == e0.reward_sum + signed_value(path@.len() as int, a, value as int)
                    &&& e1.turn == e0.turn
                    &&& e1.policy == e0.policy
                    &&& e1.result == e0.result
                    &&& e1.children == e0.children
                },
            ok ==> forall|m: int|
                0 <= m < old(self).entries@.len() && !in_path(path@, m) ==> #[trigger] final(self).entries@[m]
                    == old(self).entries@[m],
    {
        let mut a: usize = 0;
        while a < path.len()
            invariant
                0 <= a <= path@.len(),
                *self == *old(self),
                self.wf(),
                path_ok(self.entries@, path@),
                forall|b: int| 0 <= b < a ==> #[trigger] self.entries@[path@[b] as int].visits < u32::MAX,
            decreases path@.len() - a,
        {
            if self.entries[path[a]].visits == u32::MAX {
                return false;
            }
            a = a + 1;
        }
        let ghost start = self.entries@;
        let len = path.len();
        let mut b: usize = 0;
        while b < len
            invariant
                len == path@.len(),
                0 <= b <= len,
                self.entries@.len() == start.len(),
                self.root == old(self).root,
                start == old(self).entries@,
                old(self).wf(),
                path_ok(start, path@),
                -1000 <= value <= 1000,
                forall|c: int| 0 <= c < len ==> #[trigger] start[path@[c] as int].visits < u32::MAX,
                forall|c: int|
                    0 <= c < b ==> {
                        let e0 = #[trigger] start[path@[c] as int];
                        let e1 = self.entries@[path@[c] as int];
                        &&& e1.visits == e0.visits + 1
                        &&& e1.reward_sum == e0.reward_sum + signed_value(len as int, c, value as int)
                        &&& e1.turn == e0.turn
                        &&& e1.policy == e0.policy
                        &&& e1.result == e0.result
                        &&& e1.children == e0.children
                    },
                forall|m: int|
                    0 <= m < start.len() && !in_path(path@.subrange(0, b as int), m)
                        ==> #[trigger] self.entries@[m] == start[m],
            decreases len - b,
        {
            let p = path[b];
            let v: i64 = if (len - 1 - b) % 2 == 0 {
                value
            } else {
                -value
            };
            proof {
                assert(!in_path(path@.subrange(0, b as int), p as int)) by {
                    if in_path(path@.subrange(0, b as int), p as int) {
                        let c = choose|c: int| 0 <= c < b && path@.subrange(0, b as int)[c] as int == p;
                        assert(path@[c] < path@[b as int]);
                    }
                }
                assert(start[p as int].visits < u32::MAX);
                assert(self.entries@[p as int] == start[p as int]);
                assert(-1000 * start[p as int].visits <= start[p as int].reward_sum
                    <= 1000 * start[p as int].visits);
                assert(-1000 * 0xffff_ffff <= self.entries@[p as int].reward_sum <= 1000 * 0xffff_ffff);
            }
            let ghost before = self.entries@;
            let nv = self.entries[p].visits + 1;
            let nr = self.entries[p].reward_sum + v;
            self.entries[p].visits = nv;
            self.entries[p].reward_sum = nr;
            proof {
                assert forall|m: int|
                    0 <= m < start.len() && !in_path(path@.subrange(0, b + 1), m) implies #[trigger] self.entries@[m] == start[m] by {
                    assert(path@.subrange(0, b + 1)[b as int] == p);
                    if in_path(path@.subrange(0, b as int), m) {
                        let c = choose|c: int| 0 <= c < b && path@.subrange(0, b as int)[c] as int == m;
                        assert(path@.subrange(0, b + 1)[c] as int == m);
                    }
                }
                assert forall|c: int| 0 <= c < b + 1 implies {
                    let e0 = #[trigger] start[path@[c] as int];
                    let e1 = self.entries@[path@[c] as int];
                    &&& e1.visits == e0.visits + 1
                    &&& e1.reward_sum == e0.reward_sum + signed_value(len as int, c, value as int)
                    &&& e1.turn == e0.turn
                    &&& e1.policy == e0.policy
                    &&& e1.result == e0.result
                    &&& e1.children == e0.children
                } by {
                    if c < b {
                        assert(path@[c] < path@[b as int]);
                    }
                }
            }
            b = b + 1;
        }
        proof {
            assert(path@.subrange(0, len as int) == path@);
            assert forall|m: int| 0 <= m < start.len() implies -1000 * (
            #[trigger] self.entries@[m].visits) <= self.entries@[m].reward_sum <= 1000
                * self.entries@[m].visits && self.entries@[m].children == start[m].children by {
                assert(-1000 * start[m].visits <= start[m].reward_sum <= 1000
                    * start[m].visits);
                if in_path(path@, m) {
                    let c = choose|c: int| 0 <= c < len && path@[c] as int == m;
                    let e0 = start[path@[c] as int];
                    assert(start[path@[c] as int].visits < u32::MAX);
                    assert(self.entries@[m].visits == start[m].visits + 1);
                    assert(self.entries@[m].children == start[m].children);
                    assert(-1000 <= signed_value(len as int, c, value as int) <= 1000);
                    assert(self.entries@[m].reward_sum == start[m].reward_sum + signed_value(
                        len as int,
                        c,
                        value as int,
                    ));
                } else {
                    assert(path@.subrange(0, len as int) =~= path@);
                    assert(self.entries@[m] == start[m]);
                }
            }
            assert forall|i: int, j: int|
                0 <= i < start.len() && 0 <= j < self.entries@[i].children@.len() implies i
                < #[trigger] self.entries@[i].children@[j] < start.len() by {
                assert(self.entries@[i].visits == self.entries@[i].visits);
                assert(i < start[i].children@[j] < start.len());
            }
            assert forall|i: int, a: int, b: int|
                0 <= i < start.len() && 0 <= a < b < self.entries@[i].children@.len() implies #[trigger] self.entries@[i].children@[a]
                < #[trigger] self.entries@[i].children@[b] by {
                assert(self.entries@[i].visits == self.entries@[i].visits);
                assert(start[i].children@[a] < start[i].children@[b]);
            }
            assert forall|i: int, j: int, a: int, b: int|
                0 <= i < start.len() && 0 <= j < start.len() && 0 <= a < self.entries@[i].children@.len()
                    && 0 <= b < self.entries@[j].children@.len() && #[trigger] self.entries@[i].children@[a]
                    == #[trigger] self.entries@[j].children@[b] implies i == j by {
                assert(self.entries@[i].visits == self.entries@[i].visits);
                assert(self.entries@[j].visits == self.entries@[j].visits);
                assert(start[i].children@[a] == start[j].children@[b]);
            }
        }
        true
    }

    /// Expands the unexpanded entry `i` with one child per move in `turns`,
    /// with the matching prior from `priors` (millionths). The children are
    /// appended to the arena in order.
    pub fn expand(&mut self, i: usize, turns: &Vec<Turn>, priors: &Vec<u32>)
        requires
            old(self).wf(),
            i < old(self).entries@.len(),
            old(self).entries@[i as int].children@.len() == 0,
            old(self).entries@[i as int].visits > 0,
            old(self).entries@[i as int].result == GameResult::Ongoing,
            turns@.len() == priors@.len(),
            old(self).entries@.len() + turns@.len() <= usize::MAX,
        ensures
            final(self).wf(),
            final(self).root == old(self).root,
            final(self).entries@.len() == old(self).entries@.len() + turns@.len(),
            forall|m: int|
                0 <= m < old(self).entries@.len() && m != i ==> #[trigger] final(self).entries@[m]
                    == old(self).entries@[m],
            final(self).entries@[i as int].visits == old(self).entries@[i as int].visits,
            final(self).entries@[i as int].reward_sum == old(self).entries@[i as int].reward_sum,
            final(self).entries@[i as int].turn == old(self).entries@[i as int].turn,
            final(self).entries@[i as int].policy == old(self).entries@[i as int].policy,
            final(self).entries@[i as int].result == old(self).entries@[i as int].result,
            final(self).entries@[i as int].children@.len() == turns@.len(),
            forall|q: int|
                0 <= q < turns@.len() ==> {
                    let c = #[trigger] final(self).entries@[i as int].children@[q];
                    &&& c == old(self).entries@.len() + q
                    &&& final(self).entries@[c as int].turn == turns@[q]
                    &&& final(self).entries@[c as int].policy == priors@[q]
                    &&& final(self).entries@[c as int].visits == 0
                    &&& final(self).entries@[c as int].reward_sum == 0
                    &&& final(self).entries@[c as int].result == GameResult::Ongoing
                    &&& final(self).entries@[c as int].children@.len() == 0
                },
    {
        let base = self.entries.len();
        let ghost start = self.entries@;
        let mut ch: Vec<usize> = Vec::new();
        let mut q: usize = 0;
        while q < turns.len()
            invariant
                q <= turns@.len(),
                turns@.len() == priors@.len(),
                base == start.len(),
                base + turns@.len() <= usize::MAX,
                self.root == old(self).root,
                start == old(self).entries@,
                old(self).wf(),
                i < base,
                self.entries@.len() == base + q,
                ch@.len() == q,
                forall|m: int| 0 <= m < base ==> #[trigger] self.entries@[m] == start[m],
                forall|r: int|
                    0 <= r < q ==> {
                        let c = #[trigger] ch@[r];
                        &&& c == base + r
                        &&& self.entries@[c as int].turn == turns@[r]
                        &&& self.entries@[c as int].policy == priors@[r]
                        &&& self.entries@[c as int].visits == 0
                        &&& self.entries@[c as int].reward_sum == 0
                        &&& self.entries@[c as int].result == GameResult::Ongoing
                        &&& self.entries@[c as int].children@.len() == 0
                    },
            decreases turns@.len() - q,
        {
            self.entries.push(
                Entry {
                    turn: turns[q],
                    visits: 0,
                    reward_sum: 0,
                    policy: priors[q],
                    result: GameResult::Ongoing,
                    children: Vec::new(),
                },
            );
            ch.push(base + q);
            q = q + 1;
        }
        let ghost filled = self.entries@;
        self.entries[i].children = ch;
        proof {
            assert forall|m: int| 0 <= m < self.entries@.len() && m != i implies #[trigger] self.entries@[m]
                == filled[m] by {}
            assert forall|a: int, j: int|
                0 <= a < self.entries@.len() && 0 <= j < self.entries@[a].children@.len() implies a
                < #[trigger] self.entries@[a].children@[j] < self.entries@.len() by {
                if a < base && a != i {
                    assert(self.entries@[a] == start[a]);
                    assert(a < start[a].children@[j] < start.len());
                } else if a == i {
                    assert(self.entries@[a].children@[j] == ch@[j]);
                } else {
                    assert(self.entries@[a] == filled[a]);
                    let r = a - base;
                    assert(ch@[r] == a);
                }
            }
            assert forall|e: int|
                0 <= e < self.entries@.len() && (self.entries@[e].visits == 0 || !is_ongoing(
                    self.entries@[e].result,
                )) implies (#[trigger] self.entries@[e].children)@.len() == 0 by {
                if e < base && e != i {
                    assert(self.entries@[e] == start[e]);
                    assert(start[e].children@.len() == 0);
                } else if e >= base {
                    assert(self.entries@[e] == filled[e]);
                    let r = e - base;
                    assert(ch@[r] == e);
                }
            }
            assert forall|e: int, a: int, b: int|
                0 <= e < self.entries@.len() && 0 <= a < b < self.entries@[e].children@.len() implies #[trigger] self.entries@[e].children@[a]
                < #[trigger] self.entries@[e].children@[b] by {
                if e < base && e != i {
                    assert(self.entries@[e] == start[e]);
                    assert(start[e].children@[a] < start[e].children@[b]);
                } else if e == i {
                    assert(self.entries@[e].children@ == ch@);
                } else {
                    assert(self.entries@[e] == filled[e]);
                    let r = e - base;
                    assert(ch@[r] == e);
                }
            }
            assert forall|e: int, f: int, a: int, b: int|
                0 <= e < self.entries@.len() && 0 <= f < self.entries@.len() && 0 <= a
                    < self.entries@[e].children@.len() && 0 <= b < self.entries@[f].children@.len()
                    && #[trigger] self.entries@[e].children@[a] == #[trigger] self.entries@[f].children@[b]
                    implies e == f by {
                if e >= base {
                    assert(self.entries@[e] == filled[e]);
                    let r = e - base;
                    assert(ch@[r] == e);
                } else if f >= base {
                    assert(self.entries@[f] == filled[f]);
                    let r = f - base;
                    assert(ch@[r] == f);
                } else if e == i && f != i {
                    assert(self.entries@[f] == start[f]);
                    assert(start[f].children@[b] < start.len());
                    assert(self.entries@[e].children@[a] == ch@[a]);
                } else if f == i && e != i {
                    assert(self.entries@[e] == start[e]);
                    assert(start[e].children@[a] < start.len());
                    assert(self.entries@[f].children@[b] == ch@[b]);
                } else if e != i && f != i {
                    assert(self.entries@[e] == start[e]);
                    assert(self.entries@[f] == start[f]);
                    assert(start[e].children@[a] == start[f].children@[b]);
                }
            }
            assert forall|a: int| 0 <= a < self.entries@.len() implies -1000 * (
            #[trigger] self.entries@[a].visits) <= self.entries@[a].reward_sum <= 1000
                * self.entries@[a].visits by {
                if a < base {
                    assert(start[a].visits == start[a].visits);
                } else {
                    let r = a - base;
                    assert(ch@[r] == a);
                }
            }
        }
    }

    /// Records the outcome of the game at entry `i`.
    pub fn set_result(&mut self, i: usize, result: GameResult)
        requires
            old(self).wf(),
            i < old(self).entries@.len(),
            old(self).entries@[i as int].children@.len() == 0,
        ensures
            final(self).wf(),
            final(self).root == old(self).root,
            final(self).entries@.len() == old(self).entries@.len(),
            final(self).entries@[i as int].result == result,
            final(self).entries@[i as int].children == old(self).entries@[i as int].children,
            final(self).entries@[i as int].visits == old(self).entries@[i as int].visits,
            final(self).entries@[i as int].reward_sum == old(self).entries@[i as int].reward_sum,
            final(self).entries@[i as int].turn == old(self).entries@[i as int].turn,
            final(self).entries@[i as int].policy == old(self).entries@[i as int].policy,
            forall|m: int|
                0 <= m < old(self).entries@.len() && m != i ==> #[trigger] final(self).entries@[m]
                    == old(self).entries@[m],
    {
        let ghost start = self.entries@;
        self.entries[i].result = result;
        proof {
            assert forall|a: int, j: int|
                0 <= a < self.entries@.len() && 0 <= j < self.entries@[a].children@.len() implies a
                < #[trigger] self.entries@[a].children@[j] < self.entries@.len() by {
                assert(self.entries@[a].children == start[a].children);
                assert(a < start[a].children@[j] < start.len());
            }
            assert forall|e: int, a: int, b: int|
                0 <= e < self.entries@.len() && 0 <= a < b < self.entries@[e].children@.len() implies #[trigger] self.entries@[e].children@[a]
                < #[trigger] self.entries@[e].children@[b] by {
                assert(self.entries@[e].children == start[e].children);
                assert(start[e].children@[a] < start[e].children@[b]);
            }
            assert forall|i: int, j: int, a: int, b: int|
                0 <= i < self.entries@.len() && 0 <= j < self.entries@.len() && 0 <= a
                    < self.entries@[i].children@.len() && 0 <= b < self.entries@[j].children@.len()
                    && #[trigger] self.entries@[i].children@[a] == #[trigger] self.entries@[j].children@[b]
                    implies i == j by {
                assert(self.entries@[i].children == start[i].children);
                assert(self.entries@[j].children == start[j].children);
                assert(start[i].children@[a] == start[j].children@[b]);
            }
            assert forall|a: int| 0 <= a < self.entries@.len() implies -1000 * (
            #[trigger] self.entries@[a].visits) <= self.entries@[a].reward_sum <= 1000
                * self.entries@[a].visits by {
                assert(start[a].visits == start[a].visits);
            }
        }
    }

    /// Commits a move: the child reached by `turn` becomes the root, with all
    /// the statistics gathered below it. Where the root has no such child, a
    /// fresh tree comes back.
    pub fn play(self, turn: &Turn) -> (r: Node)
        requires
            self.wf(),
        ensures
            r.wf(),
            has_child_with(self.entries@, self.root as int, *turn) ==> {
                let k = first_child_with(self.entries@, self.root as int, *turn);
                &&& r.entries == self.entries
                &&& r.root == self.entries@[self.root as int].children@[k]
                &&& r.entries@[r.root as int].turn == *turn
            },
            !has_child_with(self.entries@, self.root as int, *turn) ==> r.entries@.len() == 1
                && r.root == 0 && r.entries@[0].visits == 0 && r.entries@[0].children@.len() == 0,
    {
        let ch = &self.entries[self.root].children;
        let mut k: usize = 0;
        while k < ch.len()
            invariant
                self.wf(),
                *ch == self.entries@[self.root as int].children,
                k <= ch@.len(),
                forall|j: int| 0 <= j < k ==> #[trigger] self.entries@[ch@[j] as int].turn != *turn,
            decreases ch@.len() - k,
        {
            if self.entries[ch[k]].turn == *turn {
                let c = ch[k];
                proof {
                    assert(is_first_child_with(self.entries@, self.root as int, *turn, k as int));
                    lemma_first_child_unique(self.entries@, self.root as int, *turn, k as int);
                }
                return Node { entries: self.entries, root: c };
            }
            k = k + 1;
        }
        Node::new()
    }

    /// Replays the selected path on a copy of `game`, giving the path and the
    /// position at its end; `None` where a move on the path is not legal
    /// where it comes, or the ply counter would overflow.
    pub fn descend(&self, game: &Game) -> (r: Option<(Vec<usize>, Game)>)
        requires
            self.wf(),
            game.wf(),
        ensures
            ({
                let path = selected_path(self.entries@, self.root as int);
                let ts = path_turns(self.entries@, path);
                &&& r.is_some() ==> {
                    let (p, g) = r.unwrap();
                    &&& p@ == path
                    &&& p@.len() >= 1
                    &&& p@[0] == self.root
                    &&& path_ok(self.entries@, p@)
                    &&& self.entries@[p@.last() as int].children@.len() == 0
                    &&& g.n == game.n
                    &&& g.wf()
                    &&& replayed(*game, ts, g)
                }
                &&& r.is_none() ==> exists|k: int, m: Game|
                    0 <= k < ts.len() && #[trigger] replayed(*game, ts.subrange(0, k), m) && (
                    !m.spec_legal(ts[k]) || m.ply == u64::MAX)
            }),
    {
        let path = self.select_path();
        proof {
            lemma_path_suffix(*self, path@, 0);
            assert(path@.subrange(0, path@.len() as int) =~= path@);
        }
        let ghost ts = path_turns(self.entries@, path@);
        let mut g = game.duplicate();
        let ghost mut gs: Seq<Game> = seq![g];
        let mut a: usize = 1;
        while a < path.len()
            invariant
                self.wf(),
                path_ok(self.entries@, path@),
                path@ == selected_path(self.entries@, self.root as int),
                ts == path_turns(self.entries@, path@),
                ts.len() == path@.len() - 1,
                1 <= a <= path@.len(),
                g.wf(),
                g.n == game.n,
                gs.len() == a,
                gs.last() == g,
                same_game(*game, gs[0]),
                forall|i: int|
                    0 <= i < a - 1 ==> #[trigger] gs[i].spec_legal(ts[i]) && after_move(gs[i], ts[i], gs[i + 1]),
            decreases path@.len() - a,
        {
            let t = self.entries[path[a]].turn;
            assert(t == ts[a - 1]);
            proof {
                assert(is_walk(gs, ts.subrange(0, a - 1)));
                assert(replayed(*game, ts.subrange(0, a - 1), g));
            }
            if g.ply == u64::MAX {
                proof {
                    assert(replayed(*game, ts.subrange(0, (a - 1) as int), g) && g.ply == u64::MAX);
                }
                return None;
            }
            let ghost old_g = g;
            match g.play(t) {
                Ok(()) => {},
                Err(_) => {
                    proof {
                        assert(replayed(*game, ts.subrange(0, (a - 1) as int), old_g) && !old_g.spec_legal(
                            ts[a - 1],
                        ));
                    }
                    return None;
                },
            }
            proof {
                let prev = gs;
                gs = gs.push(g);
                assert(old_g.spec_legal(t) && after_move(old_g, t, g));
                assert forall|i: int| 0 <= i < a implies #[trigger] gs[i].spec_legal(ts[i]) && after_move(
                    gs[i],
                    ts[i],
                    gs[i + 1],
                ) by {
                    if i < a - 1 {
                        assert(gs[i] == prev[i] && gs[i + 1] == prev[i + 1]);
                    } else {
                        assert(gs[i] == old_g && gs[i + 1] == g);
                    }
                }
            }
            a = a + 1;
        }
        proof {
            assert(ts.subrange(0, a - 1) =~= ts);
            assert(is_walk(gs, ts));
        }
        Some((path, g))
    }

    /// Completes a rollout along `path`, which ends at an unexpanded entry
    /// whose position is `leaf`. The entry takes `leaf`'s result, and the
    /// path gets one more visit per entry with the backed-up value: the
    /// game's value for the player to move where it is over, else `value`,
    /// the evaluator's estimate. An ongoing leaf is then expanded with its
    /// legal moves in index order, each with its weight from `priors`
    /// (indexed by the action space) renormalized over them. `false` comes
    /// back, with no visit counted and nothing expanded, where a visit
    /// counter on the path is full.
    pub fn finish(&mut self, path: &Vec<usize>, leaf: &Game, priors: &Vec<u32>, value: i64) -> (ok:
        bool)
        requires
            old(self).wf(),
            path_ok(old(self).entries@, path@),
            path@.len() >= 1,
            path@[0] == old(self).root,
            old(self).entries@[path@.last() as int].children@.len() == 0,
            old(self).entries@.len() + 0x1_0000 <= usize::MAX,
            leaf.wf(),
            priors@.len() == action_space(leaf.n as nat),
            -1000 <= value <= 1000,
        ensures
            final(self).wf(),
            final(self).root == old(self).root,
            final(self).entries@.len() >= old(self).entries@.len(),
            ok == forall|a: int|
                0 <= a < path@.len() ==> #[trigger] old(self).entries@[path@[a] as int].visits
                    < u32::MAX,
            forall|a: int|
                0 <= a < path@.len() ==> {
                    let e0 = #[trigger] old(self).entries@[path@[a] as int];
                    let e1 = final(self).entries@[path@[a] as int];
                    &&& ok ==> e1.visits == e0.visits + 1 && e1.reward_sum == e0.reward_sum
                        + signed_value(path@.len() as int, a, backed_value(*leaf, value))
                    &&& !ok ==> e1.visits == e0.visits && e1.reward_sum == e0.reward_sum
                },
            forall|m: int|
                0 <= m < old(self).entries@.len() && !in_path(path@, m) ==> #[trigger] final(self).entries@[m]
                    == old(self).entries@[m],
            final(self).entries@[path@.last() as int].result == leaf.result,
            (leaf.result != GameResult::Ongoing || !ok) ==> final(self).entries@[path@.last() as int].children@.len()
                == 0,
            leaf.result == GameResult::Ongoing && ok ==> {
                let moves = legal_list(*leaf, action_space(leaf.n as nat) as int);
                let ch = final(self).entries@[path@.last() as int].children@;
                &&& ch.len() == moves.len()
                &&& forall|q: int|
                    0 <= q < ch.len() ==> {
                        let c = #[trigger] ch[q] as int;
                        &&& final(self).entries@[c].turn == moves[q]
                        &&& final(self).entries@[c].policy == normalized(
                            raw_priors(priors@, leaf.n as nat, moves),
                            q,
                        )
                        &&& final(self).entries@[c].visits == 0
                        &&& final(self).entries@[c].children@.len() == 0
                    }
            },
    {
        let last = path[path.len() - 1];
        let ghost start = self.entries@;
        self.set_result(last, leaf.result);
        let v: i64 = match leaf.result {
            GameResult::Winner { colour, .. } => if colour == leaf.to_move {
                1000
            } else {
                -1000
            },
            GameResult::Draw => 0,
            GameResult::Ongoing => value,
        };
        let ghost mid = self.entries@;
        proof {
            assert forall|m: int| 0 <= m < mid.len() implies #[trigger] mid[m].visits == start[m].visits
                && mid[m].reward_sum == start[m].reward_sum && mid[m].children == start[m].children by {
            }
        }
        let ok = self.backup(path, v);
        let ghost backed = self.entries@;
        proof {
            assert forall|a: int| 0 <= a < path@.len() implies #[trigger] start[path@[a] as int].visits
                == mid[path@[a] as int].visits && start[path@[a] as int].reward_sum == mid[path@[a] as int].reward_sum by {
                assert(mid[path@[a] as int].visits == start[path@[a] as int].visits);
            }
            assert(v as int == backed_value(*leaf, value));
            assert forall|a: int| 0 <= a < path@.len() implies {
                let e0 = #[trigger] start[path@[a] as int];
                let e1 = backed[path@[a] as int];
                &&& ok ==> e1.visits == e0.visits + 1 && e1.reward_sum == e0.reward_sum + signed_value(
                    path@.len() as int,
                    a,
                    backed_value(*leaf, value),
                )
                &&& !ok ==> e1.visits == e0.visits && e1.reward_sum == e0.reward_sum
            } by {
                let m0 = mid[path@[a] as int];
                assert(m0.visits == start[path@[a] as int].visits);
            }
            assert(path@[path@.len() - 1] == last);
            assert forall|m: int|
                0 <= m < start.len() && !in_path(path@, m) implies #[trigger] backed[m] == start[m] by {
                if m != last as int {
                    assert(mid[m] == start[m]);
                } else {
                    assert(in_path(path@, m));
                }
            }
        }
        if !ok || leaf.result != GameResult::Ongoing {
            return ok;
        }
        let moves = leaf.legal_moves();
        if moves.len() == 0 {
            return ok;
        }
        let mut raw: Vec<u32> = Vec::new();
        let mut q: usize = 0;
        while q < moves.len()
            invariant
                q <= moves@.len(),
                raw@.len() == q,
                leaf.wf(),
                priors@.len() == action_space(leaf.n as nat),
                forall|j: int| 0 <= j < moves@.len() ==> leaf.spec_legal(#[trigger] moves@[j]),
                forall|j: int|
                    0 <= j < q ==> #[trigger] raw@[j] == priors@[spec_encode(leaf.n as nat, moves@[j]) as int],
            decreases moves@.len() - q,
        {
            assert(leaf.spec_legal(moves@[q as int]));
            let k = encode(leaf.n, &moves[q]);
            raw.push(priors[k]);
            q = q + 1;
        }
        proof {
            crate::codec::lemma_action_space_bound(leaf.n as nat);
            assert(raw@ =~= raw_priors(priors@, leaf.n as nat, moves@));
        }
        let weights = normalize(&raw);
        proof {
            assert forall|a: int| 0 <= a < path@.len() implies #[trigger] path@[a] < self.entries@.len() by {
                assert(path@[a] < start.len());
            }
            assert(backed[last as int].visits == start[last as int].visits + 1);
        }
        self.expand(last, &moves, &weights);
        proof {
            assert forall|a: int| 0 <= a < path@.len() implies {
                let e0 = #[trigger] start[path@[a] as int];
                let e1 = self.entries@[path@[a] as int];
                &&& e1.visits == e0.visits + 1 && e1.reward_sum == e0.reward_sum + signed_value(
                    path@.len() as int,
                    a,
                    backed_value(*leaf, value),
                )
            } by {
                assert(mid[path@[a] as int].visits == start[path@[a] as int].visits);
                if path@[a] != last {
                    assert(self.entries@[path@[a] as int] == backed[path@[a] as int]);
                }
            }
            assert forall|m: int|
                0 <= m < start.len() && !in_path(path@, m) implies #[trigger] self.entries@[m]
                == start[m] by {
                assert(backed[m] == start[m]);
                if m == last as int {
                    assert(in_path(path@, m));
                }
            }
        }
        ok
    }

    /// Mixes noise into the priors of the root's children: child `q` gets
    /// `(1 - e) * prior + e * noise[q]`, with `epsilon` = `e` in millionths.
    pub fn apply_noise(&mut self, noise: &Vec<u32>, epsilon: u32)
        requires
            old(self).wf(),
            epsilon <= 1_000_000,
            noise@.len() == old(self).entries@[old(self).root as int].children@.len(),
            forall|q: int| 0 <= q < noise@.len() ==> #[trigger] noise@[q] <= 1_000_000,
            forall|q: int|
                0 <= q < noise@.len() ==> #[trigger] old(self).entries@[old(
                    self,
                ).entries@[old(self).root as int].children@[q] as int].policy <= 1_000_000,
        ensures
            final(self).wf(),
            final(self).root == old(self).root,
            final(self).entries@.len() == old(self).entries@.len(),
            forall|q: int|
                0 <= q < noise@.len() ==> {
                    let c = #[trigger] old(self).entries@[old(self).root as int].children@[q] as int;
                    final(self).entries@[c].policy == mixed(old(self).entries@[c].policy, noise@[q], epsilon)
                },
            forall|m: int|
                0 <= m < old(self).entries@.len() && !in_path(
                    old(self).entries@[old(self).root as int].children@,
                    m,
                ) ==> #[trigger] final(self).entries@[m].policy == old(self).entries@[m].policy,
            forall|m: int|
                0 <= m < old(self).entries@.len() ==> {
                    let e0 = #[trigger] old(self).entries@[m];
                    let e1 = final(self).entries@[m];
                    &&& e1.visits == e0.visits
                    &&& e1.reward_sum == e0.reward_sum
                    &&& e1.turn == e0.turn
                    &&& e1.result == e0.result
                    &&& e1.children == e0.children
                },
    {
        let ghost start = self.entries@;
        let ch = self.copy_children(self.root);
        let mut q: usize = 0;
        while q < ch.len()
            invariant
                q <= ch@.len(),
                ch@ == start[old(self).root as int].children@,
                noise@.len() == ch@.len(),
                epsilon <= 1_000_000,
                self.root == old(self).root,
                start == old(self).entries@,
                old(self).wf(),
                self.entries@.len() == start.len(),
                forall|j: int| 0 <= j < noise@.len() ==> #[trigger] noise@[j] <= 1_000_000,
                forall|j: int| 0 <= j < ch@.len() ==> #[trigger] start[ch@[j] as int].policy <= 1_000_000,
                forall|m: int|
                    0 <= m < start.len() && !in_path(ch@, m) ==> #[trigger] self.entries@[m].policy
                        == start[m].policy,
                forall|j: int|
                    0 <= j < ch@.len() ==> {
                        let c = #[trigger] ch@[j] as int;
                        self.entries@[c].policy == if j < q {
                            mixed(start[c].policy, noise@[j], epsilon)
                        } else {
                            start[c].policy as int
                        }
                    },
                forall|m: int|
                    0 <= m < start.len() ==> {
                        let e0 = #[trigger] start[m];
                        let e1 = self.entries@[m];
                        &&& e1.visits == e0.visits
                        &&& e1.reward_sum == e0.reward_sum
                        &&& e1.turn == e0.turn
                        &&& e1.result == e0.result
                        &&& e1.children == e0.children
                    },
            decreases ch@.len() - q,
        {
            let c = ch[q];
            proof {
                assert(c < start.len());
            }
            let p = self.entries[c].policy as u64;
            let e = epsilon as u64;
            let nz = noise[q] as u64;
            assert((1_000_000 - e) * p + e * nz <= 2_000_000_000_000) by (nonlinear_arith)
                requires
                    e <= 1_000_000,
                    p <= 1_000_000,
                    nz <= 1_000_000,
            ;
            let v = ((1_000_000 - e) * p + e * nz) / 1_000_000;
            let ghost before = self.entries@;
            self.entries[c].policy = v as u32;
            proof {
                assert forall|m: int|
                    0 <= m < start.len() && !in_path(ch@, m) implies #[trigger] self.entries@[m].policy
                    == start[m].policy by {
                    if m == c as int {
                        assert(ch@[q as int] as int == m);
                    }
                    assert(before[m].policy == start[m].policy);
                }
                assert forall|j: int| 0 <= j < ch@.len() && j != q implies #[trigger] ch@[j] != c by {
                    let r = old(self).root as int;
                    if j < q {
                        assert(start[r].children@[j] < start[r].children@[q as int]);
                    } else {
                        assert(start[r].children@[q as int] < start[r].children@[j]);
                    }
                }
            }
            q = q + 1;
        }
        proof {
            assert forall|i: int, j: int|
                0 <= i < self.entries@.len() && 0 <= j < self.entries@[i].children@.len() implies i
                < #[trigger] self.entries@[i].children@[j] < self.entries@.len() by {
                assert(start[i].children == self.entries@[i].children);
                assert(i < start[i].children@[j] < start.len());
            }
            assert forall|i: int| 0 <= i < self.entries@.len() implies -1000 * (
            #[trigger] self.entries@[i].visits) <= self.entries@[i].reward_sum <= 1000
                * self.entries@[i].visits by {
                assert(start[i].visits == self.entries@[i].visits);
            }
            assert forall|e: int|
                0 <= e < self.entries@.len() && (self.entries@[e].visits == 0 || !is_ongoing(
                    self.entries@[e].result,
                )) implies (#[trigger] self.entries@[e].children)@.len() == 0 by {
                assert(start[e].children == self.entries@[e].children);
                assert(start[e].visits == self.entries@[e].visits);
                assert(start[e].children@.len() == 0);
            }
            assert forall|e: int, a: int, b: int|
                0 <= e < self.entries@.len() && 0 <= a < b < self.entries@[e].children@.len() implies #[trigger] self.entries@[e].children@[a]
                < #[trigger] self.entries@[e].children@[b] by {
                assert(start[e].children == self.entries@[e].children);
                assert(start[e].children@[a] < start[e].children@[b]);
            }
            assert forall|i: int, j: int, a: int, b: int|
                0 <= i < self.entries@.len() && 0 <= j < self.entries@.len() && 0 <= a
                    < self.entries@[i].children@.len() && 0 <= b < self.entries@[j].children@.len()
                    && #[trigger] self.entries@[i].children@[a] == #[trigger] self.entries@[j].children@[b]
                    implies i == j by {
                assert(start[i].children == self.entries@[i].children);
                assert(start[j].children == self.entries@[j].children);
                assert(start[i].children@[a] == start[j].children@[b]);
            }
        }
    }

    /// A copy of the child list of entry `i`.
    fn copy_children(&self, i: usize) -> (r: Vec<usize>)
        requires
            i < self.entries@.len(),
        ensures
            r@ == self.entries@[i as int].children@,
    {
        let src = &self.entries[i].children;
        let mut out: Vec<usize> = Vec::new();
        let mut k: usize = 0;
        while k < src.len()
            invariant
                k <= src@.len(),
                out@ == src@.subrange(0, k as int),
            decreases src@.len() - k,
        {
            out.push(src[k]);
            k = k + 1;
            assert(out@ =~= src@.subrange(0, k as int));
        }
        assert(src@.subrange(0, k as int) =~= src@);
        out
    }

    /// A move drawn in proportion to the visits of the root's children:
    /// `draw` modulo their total picks the child whose share it falls in.
    /// Where no child has been visited, the best move is taken.
    pub fn pick_move_sampled(&self, draw: u64) -> (r: Turn)
        requires
            self.wf(),
            self.entries@[self.root as int].children@.len() > 0,
        ensures
            ({
                let w = child_visits(self.entries@, self.root as int);
                let total = prefix_sum(w, w.len() as int);
                let ch = self.entries@[self.root as int].children@;
                if total > 0 {
                    exists|k: int|
                        #[trigger] is_sampled(self.entries@, self.root as int, (draw as int) % total, k) && r
                            == self.entries@[ch[k] as int].turn
                } else {
                    r == self.entries@[ch[best_of(self.entries@, self.root as int)] as int].turn
                }
            }),
    {
        let ghost es = self.entries@;
        let root = self.root;
        let ch = &self.entries[root].children;
        let ghost w = child_visits(es, root as int);
        let mut total: u128 = 0;
        let mut k: usize = 0;
        while k < ch.len()
            invariant
                es == self.entries@,
                self.wf(),
                root == self.root,
                *ch == es[root as int].children,
                w == child_visits(es, root as int),
                w.len() == ch@.len(),
                k <= ch@.len(),
                total == prefix_sum(w, k as int),
            decreases ch@.len() - k,
        {
            proof {
                lemma_prefix_sum_bound(w, k as int);
                assert(k * 0xffff_ffff <= 0xffff_ffff_ffff_ffff * 0xffff_ffff) by (nonlinear_arith)
                    requires
                        k <= 0xffff_ffff_ffff_ffff,
                ;
            }
            total = total + self.entries[ch[k]].visits as u128;
            k = k + 1;
        }
        if total == 0 {
            return self.pick_move();
        }
        let r = (draw as u128) % total;
        let mut acc: u128 = 0;
        let mut j: usize = 0;
        while j < ch.len()
            invariant
                es == self.entries@,
                self.wf(),
                root == self.root,
                *ch == es[root as int].children,
                w == child_visits(es, root as int),
                w.len() == ch@.len(),
                j <= ch@.len(),
                total == prefix_sum(w, w.len() as int),
                r < total,
                r == (draw as int) % (total as int),
                acc == prefix_sum(w, j as int),
                acc <= r,
            decreases ch@.len() - j,
        {
            proof {
                lemma_prefix_sum_mono(w, j as int + 1, w.len() as int);
            }
            let next = acc + self.entries[ch[j]].visits as u128;
            if r < next {
                proof {
                    assert(is_sampled(es, root as int, (draw as int) % (total as int), j as int));
                }
                return self.entries[ch[j]].turn;
            }
            acc = next;
            j = j + 1;
        }
        proof {
            assert(false);
        }
        self.pick_move()
    }

    /// The search report: one row per child of the root, most visited
    /// first, at most `limit` rows where a limit is given. A child with more
    /// visits never comes after one with fewer.
    #[verifier::spinoff_prover]
    #[verifier::rlimit(60)]
    pub fn debug(&self, limit: Option<usize>) -> (rows: Vec<DebugRow>)
        requires
            self.wf(),
        ensures
            ({
                let ch = self.entries@[self.root as int].children@;
                &&& rows@.len() == match limit {
                    Some(l) => if l < ch.len() {
                        l as int
                    } else {
                        ch.len() as int
                    },
                    None => ch.len() as int,
                }
                &&& forall|a: int, b: int|
                    0 <= a < b < rows@.len() ==> #[trigger] rows@[a].child != #[trigger] rows@[b].child
                &&& forall|q: int|
                    0 <= q < ch.len() && rows@.len() > 0 && (forall|a: int|
                        0 <= a < rows@.len() ==> rows@[a].child != ch[q]) ==> #[trigger] self.entries@[ch[q] as int].visits
                        <= rows@.last().visits
                &&& forall|a: int|
                    0 <= a < rows@.len() ==> exists|q: int|
                        0 <= q < ch.len() && rows@[a].child == ch[q] && #[trigger] rows@[a].turn == self.entries@[ch[q] as int].turn
                            && rows@[a].visits == self.entries@[ch[q] as int].visits
                            && rows@[a].policy == self.entries@[ch[q] as int].policy
                            && rows@[a].expected_reward == mean_reward(self.entries@[ch[q] as int])
                            && rows@[a].continuation@ == spec_continuation(
                            self.entries@,
                            ch[q] as int,
                            MIN_VISIT_COUNT,
                            MAX_CONTINUATION_LEN as nat,
                        )
                &&& forall|a: int, b: int|
                    0 <= a < b < rows@.len() ==> #[trigger] rows@[a].visits >= #[trigger] rows@[b].visits
            }),
    {
        let ghost es = self.entries@;
        let ch = self.copy_children(self.root);
        let count = match limit {
            Some(l) => if l < ch.len() {
                l
            } else {
                ch.len()
            },
            None => ch.len(),
        };
        let mut taken: Vec<bool> = Vec::new();
        let mut k: usize = 0;
        while k < ch.len()
            invariant
                k <= ch@.len(),
                taken@.len() == k,
                forall|j: int| 0 <= j < k ==> !#[trigger] taken@[j],
            decreases ch@.len() - k,
        {
            taken.push(false);
            k = k + 1;
        }
        proof {
            lemma_count_none(taken@, ch@.len() as int);
        }
        let mut rows: Vec<DebugRow> = Vec::new();
        let mut last_visits: u32 = u32::MAX;
        while rows.len() < count
            invariant
                es == self.entries@,
                self.wf(),
                ch@ == es[self.root as int].children@,
                count <= ch@.len(),
                taken@.len() == ch@.len(),
                rows@.len() <= count,
                rows@.len() == count_taken(taken@, ch@.len() as int),
                forall|j: int|
                    0 <= j < ch@.len() && !taken@[j] ==> #[trigger] es[ch@[j] as int].visits
                        <= last_visits,
                forall|a: int| 0 <= a < rows@.len() ==> #[trigger] rows@[a].visits >= last_visits,
                rows@.len() > 0 ==> last_visits == rows@.last().visits,
                forall|a: int, b: int|
                    0 <= a < b < rows@.len() ==> #[trigger] rows@[a].child != #[trigger] rows@[b].child,
                forall|j: int|
                    0 <= j < ch@.len() && !taken@[j] ==> forall|a: int|
                        0 <= a < rows@.len() ==> #[trigger] rows@[a].child != ch@[j],
                forall|j: int|
                    0 <= j < ch@.len() && #[trigger] taken@[j] ==> exists|a: int|
                        0 <= a < rows@.len() && rows@[a].child == ch@[j],
                forall|a: int, b: int|
                    0 <= a < b < rows@.len() ==> #[trigger] rows@[a].visits >= #[trigger] rows@[b].visits,
                forall|a: int|
                    0 <= a < rows@.len() ==> exists|q: int|
                        0 <= q < ch@.len() && rows@[a].child == ch@[q] && #[trigger] rows@[a].turn == es[ch@[q] as int].turn
                            && rows@[a].visits == es[ch@[q] as int].visits && rows@[a].policy
                            == es[ch@[q] as int].policy && rows@[a].expected_reward == mean_reward(
                            es[ch@[q] as int],
                        ) && rows@[a].continuation@ == spec_continuation(
                            es,
                            ch@[q] as int,
                            MIN_VISIT_COUNT,
                            MAX_CONTINUATION_LEN as nat,
                        ),
            decreases count - rows@.len(),
        {
            proof {
                lemma_untaken_exists(taken@, ch@.len() as int);
            }
            let mut best: usize = ch.len();
            let mut j: usize = 0;
            while j < ch.len()
                invariant
                    es == self.entries@,
                    self.wf(),
                    ch@ == es[self.root as int].children@,
                    taken@.len() == ch@.len(),
                    j <= ch@.len(),
                    best == ch@.len() || (best < j && !taken@[best as int]),
                    best == ch@.len() ==> forall|m: int| 0 <= m < j ==> #[trigger] taken@[m],
                    best < ch@.len() ==> forall|m: int|
                        0 <= m < j && !taken@[m] ==> #[trigger] es[ch@[m] as int].visits
                            <= es[ch@[best as int] as int].visits,
                decreases ch@.len() - j,
            {
                if !taken[j] {
                    if best == ch.len() || self.entries[ch[j]].visits > self.entries[ch[best]].visits {
                        best = j;
                    }
                }
                j = j + 1;
            }
            proof {
                if best == ch@.len() {
                    let m = choose|m: int| 0 <= m < ch@.len() && !taken@[m];
                    assert(taken@[m]);
                }
            }
            let c = ch[best];
            let ghost old_taken = taken@;
            taken.set(best, true);
            proof {
                lemma_count_taken_set(old_taken, best as int, ch@.len() as int);
            }
            let row = DebugRow {
                child: c,
                turn: self.entries[c].turn,
                visits: self.entries[c].visits,
                expected_reward: self.mean_reward(c),
                policy: self.entries[c].policy,
                continuation: self.continuation_from(c, MIN_VISIT_COUNT, MAX_CONTINUATION_LEN),
            };
            let ghost old_rows = rows@;
            let ghost prev_last = last_visits;
            assert(es[c as int].visits <= prev_last);
            rows.push(row);
            last_visits = self.entries[c].visits;
            proof {
                assert forall|a: int|
                    0 <= a < rows@.len() implies exists|q: int|
                        0 <= q < ch@.len() && rows@[a].child == ch@[q] && #[trigger] rows@[a].turn == es[ch@[q] as int].turn
                            && rows@[a].visits == es[ch@[q] as int].visits && rows@[a].policy
                            == es[ch@[q] as int].policy && rows@[a].expected_reward == mean_reward(
                            es[ch@[q] as int],
                        ) && rows@[a].continuation@ == spec_continuation(
                            es,
                            ch@[q] as int,
                            MIN_VISIT_COUNT,
                            MAX_CONTINUATION_LEN as nat,
                        ) by {
                    if a < old_rows.len() {
                        assert(rows@[a] == old_rows[a]);
                    } else {
                        assert(rows@[a].turn == es[ch@[best as int] as int].turn);
                    }
                }
                assert forall|a: int, b: int|
                    0 <= a < b < rows@.len() implies #[trigger] rows@[a].visits >= #[trigger] rows@[b].visits by {
                    if b < old_rows.len() {
                        assert(rows@[a] == old_rows[a] && rows@[b] == old_rows[b]);
                    } else {
                        assert(rows@[a] == old_rows[a]);
                        assert(old_rows[a].visits >= prev_last);
                    }
                }
                let r = self.root as int;
                assert forall|a: int, b: int|
                    0 <= a < b < rows@.len() implies #[trigger] rows@[a].child != #[trigger] rows@[b].child by {
                    if b < old_rows.len() {
                        assert(rows@[a] == old_rows[a] && rows@[b] == old_rows[b]);
                    } else {
                        assert(rows@[a] == old_rows[a]);
                        assert(!old_taken[best as int]);
                        assert(old_rows[a].child != ch@[best as int]);
                    }
                }
                assert forall|j: int|
                    0 <= j < ch@.len() && !taken@[j] implies forall|a: int|
                        0 <= a < rows@.len() ==> #[trigger] rows@[a].child != ch@[j] by {
                    assert(j != best);
                    assert(!old_taken[j]);
                    assert forall|a: int| 0 <= a < rows@.len() implies #[trigger] rows@[a].child != ch@[j] by {
                        if a < old_rows.len() {
                            assert(rows@[a] == old_rows[a]);
                        } else {
                            if j < best {
                                assert(es[r].children@[j] < es[r].children@[best as int]);
                            } else {
                                assert(es[r].children@[best as int] < es[r].children@[j]);
                            }
                        }
                    }
                }
                assert forall|j: int|
                    0 <= j < ch@.len() && #[trigger] taken@[j] implies exists|a: int|
                        0 <= a < rows@.len() && rows@[a].child == ch@[j] by {
                    if j == best {
                        assert(rows@[old_rows.len() as int].child == ch@[j]);
                    } else {
                        assert(old_taken[j]);
                        let a = choose|a: int| 0 <= a < old_rows.len() && old_rows[a].child == ch@[j];
                        assert(rows@[a] == old_rows[a]);
                    }
                }
            }
        }
        rows
    }

    /// Drops the root's children whose moves are not legal in `game`,
    /// keeping the others in order; nothing else changes.
    pub fn retain_legal(&mut self, game: &Game)
        requires
            old(self).wf(),
            game.wf(),
        ensures
            final(self).wf(),
            final(self).root == old(self).root,
            final(self).entries@.len() == old(self).entries@.len(),
            pruned(*old(self), *game, *final(self)),
    {
        let ghost start = self.entries@;
        let root = self.root;
        let ch = self.copy_children(root);
        let mut kept: Vec<usize> = Vec::new();
        let mut q: usize = 0;
        while q < ch.len()
            invariant
                self.wf(),
                self.entries@ == start,
                root == self.root,
                game.wf(),
                ch@ == start[root as int].children@,
                q <= ch@.len(),
                forall|a: int| #![trigger kept@[a]] 0 <= a < kept@.len() ==> exists|j: int| 0 <= j < q && #[trigger] ch@[j] == kept@[a],
                forall|a: int, b: int| 0 <= a < b < kept@.len() ==> #[trigger] kept@[a] < #[trigger] kept@[b],
                forall|a: int| 0 <= a < kept@.len() ==> game.spec_legal(start[#[trigger] kept@[a] as int].turn),
                kept@.len() > 0 ==> exists|j: int| 0 <= j < q && ch@[j] == kept@.last(),
                forall|j: int|
                    0 <= j < q && game.spec_legal(start[#[trigger] ch@[j] as int].turn) ==> kept@.contains(ch@[j]),
            decreases ch@.len() - q,
        {
            let c = ch[q];
            if game.is_legal(&self.entries[c].turn) {
                let ghost before = kept@;
                proof {
                    if kept@.len() > 0 {
                        let j = choose|j: int| 0 <= j < q && ch@[j] == kept@.last();
                        assert(start[root as int].children@[j] < start[root as int].children@[q as int]);
                    }
                }
                kept.push(c);
                proof {
                    assert forall|a: int| #![trigger kept@[a]] 0 <= a < kept@.len() implies exists|j: int|
                        0 <= j < q + 1 && #[trigger] ch@[j] == kept@[a] by {
                        if a < before.len() {
                            assert(kept@[a] == before[a]);
                        } else {
                            assert(ch@[q as int] == kept@[a]);
                        }
                    }
                    assert forall|a: int, b: int| 0 <= a < b < kept@.len() implies #[trigger] kept@[a]
                        < #[trigger] kept@[b] by {
                        if b < before.len() {
                            assert(kept@[a] == before[a] && kept@[b] == before[b]);
                        } else {
                            assert(kept@[a] == before[a]);
                            let j = choose|j: int| 0 <= j < q && #[trigger] ch@[j] == before[a];
                            assert(start[root as int].children@[j] < start[root as int].children@[q as int]);
                        }
                    }
                    assert forall|j: int|
                        0 <= j < q + 1 && game.spec_legal(start[#[trigger] ch@[j] as int].turn) implies kept@.contains(ch@[j]) by {
                        if j < q {
                            assert(before.contains(ch@[j]));
                            let a = choose|a: int| 0 <= a < before.len() && before[a] == ch@[j];
                            assert(kept@[a] == before[a]);
                        } else {
                            assert(kept@[before.len() as int] == ch@[j]);
                        }
                    }
                }
            }
            q = q + 1;
        }
        let ghost kept_view = kept@;
        self.entries[root].children = kept;
        proof {
            let es = self.entries@;
            let r = root as int;
            assert forall|m: int| 0 <= m < es.len() && m != r implies #[trigger] es[m] == start[m] by {}
            assert forall|i: int, j: int|
                0 <= i < es.len() && 0 <= j < es[i].children@.len() implies i < #[trigger] es[i].children@[j]
                < es.len() by {
                if i == r {
                    let k = choose|k: int| 0 <= k < ch@.len() && #[trigger] ch@[k] == kept_view[j];
                    assert(start[r].children@[k] == es[i].children@[j]);
                } else {
                    assert(es[i] == start[i]);
                    assert(i < start[i].children@[j] < start.len());
                }
            }
            assert forall|i: int| 0 <= i < es.len() implies -1000 * (#[trigger] es[i].visits)
                <= es[i].reward_sum <= 1000 * es[i].visits by {
                assert(start[i].visits == es[i].visits || i == r);
                assert(start[i].visits == start[i].visits);
            }
            assert forall|i: int|
                0 <= i < es.len() && (es[i].visits == 0 || !is_ongoing(es[i].result)) implies (
                #[trigger] es[i].children)@.len() == 0 by {
                assert(start[i].children@.len() == 0);
                if i == r {
                    if kept_view.len() > 0 {
                        let k = choose|k: int| 0 <= k < ch@.len() && #[trigger] ch@[k] == kept_view[0];
                    }
                } else {
                    assert(es[i] == start[i]);
                }
            }
            assert forall|i: int, a: int, b: int|
                0 <= i < es.len() && 0 <= a < b < es[i].children@.len() implies #[trigger] es[i].children@[a]
                < #[trigger] es[i].children@[b] by {
                if i != r {
                    assert(es[i] == start[i]);
                    assert(start[i].children@[a] < start[i].children@[b]);
                }
            }
            assert forall|i: int, j: int, a: int, b: int|
                0 <= i < es.len() && 0 <= j < es.len() && 0 <= a < es[i].children@.len() && 0 <= b
                    < es[j].children@.len() && #[trigger] es[i].children@[a] == #[trigger] es[j].children@[b]
                    implies i == j by {
                let (ii, aa) = if i == r {
                    let k = choose|k: int| 0 <= k < ch@.len() && #[trigger] ch@[k] == kept_view[a];
                    (r, k)
                } else {
                    assert(es[i] == start[i]);
                    (i, a)
                };
                let (jj, bb) = if j == r {
                    let k = choose|k: int| 0 <= k < ch@.len() && #[trigger] ch@[k] == kept_view[b];
                    (r, k)
                } else {
                    assert(es[j] == start[j]);
                    (j, b)
                };
                assert(start[ii].children@[aa] == start[jj].children@[bb]);
            }
            assert forall|q: int| 0 <= q < es[r].children@.len() implies game.spec_legal(
                es[#[trigger] es[r].children@[q] as int].turn,
            ) by {
                assert(es[r].children@[q] == kept_view[q]);
                let k = choose|k: int| 0 <= k < ch@.len() && #[trigger] ch@[k] == kept_view[q];
                assert(kept_view[q] != r as usize);
                assert(es[kept_view[q] as int] == start[kept_view[q] as int]);
            }
        }
    }

    /// The principal variation below the root.
    pub fn continuation(&self, min_visit_count: u32, depth: usize) -> (r: Vec<Turn>)
        requires
            self.wf(),
        ensures
            r@ == spec_continuation(self.entries@, self.root as int, min_visit_count, depth as nat),
            r@.len() <= depth,
    {
        self.continuation_from(self.root, min_visit_count, depth)
    }

    /// The principal variation below entry `start`.
    pub fn continuation_from(&self, start: usize, min_visit_count: u32, depth: usize) -> (r: Vec<
        Turn,
    >)
        requires
            self.wf(),
            start < self.entries@.len(),
        ensures
            r@ == spec_continuation(self.entries@, start as int, min_visit_count, depth as nat),
            r@.len() <= depth,
    {
        let es = Ghost(self.entries@);
        let mut out: Vec<Turn> = Vec::new();
        let mut cur = start;
        let mut d = depth;
        while d > 0 && self.entries[cur].children.len() > 0 && !(self.is_game_ongoing(cur)
            && self.entries[cur].visits < min_visit_count)
            invariant
                es@ == self.entries@,
                self.wf(),
                cur < es@.len(),
                d <= depth,
                out@.len() + d == depth,
                out@ + spec_continuation(es@, cur as int, min_visit_count, d as nat)
                    == spec_continuation(es@, start as int, min_visit_count, depth as nat),
            decreases d,
        {
            let k = self.best_child(cur);
            let c = self.entries[cur].children[k];
            out.push(self.entries[c].turn);
            proof {
                assert(out@ + spec_continuation(es@, c as int, min_visit_count, (d - 1) as nat)
                    =~= spec_continuation(es@, start as int, min_visit_count, depth as nat));
            }
            cur = c;
            d = d - 1;
        }
        proof {
            assert(out@ + spec_continuation(es@, cur as int, min_visit_count, d as nat) =~= out@);
        }
        out
    }
}


/// The value backed up into the entry at position `i` of a path of length
/// `len`: the sign flips once per ply above the leaf.
pub open spec fn signed_value(len: int, i: int, v: int) -> int {
    if (len - 1 - i) % 2 == 0 {
        v
    } else {
        -v
    }
}

/// The path is strictly increasing and lies inside the arena.
pub open spec fn path_ok(es: Seq<Entry>, path: Seq<usize>) -> bool {
    &&& forall|a: int| 0 <= a < path.len() ==> #[trigger] path[a] < es.len()
    &&& forall|a: int, b: int| 0 <= a < b < path.len() ==> #[trigger] path[a] < #[trigger] path[b]
}

/// Entry `m` lies on the path.
pub open spec fn in_path(path: Seq<usize>, m: int) -> bool {
    exists|c: int| 0 <= c < path.len() && path[c] as int == m
}

/// Mean backed-up reward in thousandths, rounded down; zero before any visit.
pub open spec fn mean_reward(e: Entry) -> int {
    if e.visits == 0 {
        0
    } else {
        (e.reward_sum + 1000 * e.visits) / (e.visits as int) - 1000
    }
}

/// `r` is the integer square root of `n`.
pub open spec fn is_isqrt(n: nat, r: nat) -> bool {
    r * r <= n < (r + 1) * (r + 1)
}

/// Selection score of a child, from the view of the parent's player, where
/// `s` is the integer square root of the parent's visits: the negated mean of
/// the child plus an exploration bonus of 1.5 times its prior, scaled by
/// `s / (1 + child visits)`.
pub open spec fn puct(e: Entry, s: nat) -> int {
    -mean_reward(e) + (3 * e.policy * s) as int / (2000 * (1 + e.visits)) as int
}

/// `k` is the position of the child of entry `i` that selection descends
/// into: the highest score, the first one on a tie.
pub open spec fn is_selected(es: Seq<Entry>, i: int, s: nat, k: int) -> bool {
    let ch = es[i].children@;
    0 <= k < ch.len() && forall|j: int|
        0 <= j < ch.len() ==> (#[trigger] puct(es[ch[j] as int], s) <= puct(es[ch[k] as int], s)
            && (j < k ==> puct(es[ch[j] as int], s) < puct(es[ch[k] as int], s)))
}

/// Selection at entry `i` descends into the entry `c`.
pub open spec fn selects(es: Seq<Entry>, i: int, c: int) -> bool {
    exists|k: int, s: nat|
        #[trigger] is_selected(es, i, s, k) && is_isqrt(es[i].visits as nat, s) && es[i].children@[k]
            == c
}

/// Integer square root.
pub fn isqrt(n: u32) -> (r: u32)
    ensures
        is_isqrt(n as nat, r as nat),
        r <= 65535,
{
    let mut r: u64 = 0;
    loop
        invariant
            r * r <= n,
            r <= 65535,
        ensures
            r * r <= n < (r + 1) * (r + 1),
            r <= 65535,
        decreases n - r * r,
    {
        let r1 = r + 1;
        assert(r1 * r1 <= 65536 * 65536) by (nonlinear_arith)
            requires
                r1 <= 65536,
        ;
        if r1 * r1 > n as u64 {
            break;
        }
        assert(r1 <= 65535) by (nonlinear_arith)
            requires
                r1 * r1 <= n,
                n <= 0xffff_ffff,
        ;
        assert(r1 * r1 > r * r) by (nonlinear_arith)
            requires
                r1 == r + 1,
        ;
        r = r1;
    }
    r as u32
}

/// `k` is the first position among the children of entry `i` whose move is `t`.
pub open spec fn is_first_child_with(es: Seq<Entry>, i: int, t: Turn, k: int) -> bool {
    let ch = es[i].children@;
    &&& 0 <= k < ch.len()
    &&& es[ch[k] as int].turn == t
    &&& forall|j: int| 0 <= j < k ==> #[trigger] es[ch[j] as int].turn != t
}

pub open spec fn has_child_with(es: Seq<Entry>, i: int, t: Turn) -> bool {
    exists|k: int| 0 <= k < es[i].children@.len() && #[trigger] es[es[i].children@[k] as int].turn == t
}

pub open spec fn first_child_with(es: Seq<Entry>, i: int, t: Turn) -> int {
    choose|k: int| is_first_child_with(es, i, t, k)
}

proof fn lemma_first_child_unique(es: Seq<Entry>, i: int, t: Turn, k: int)
    requires
        is_first_child_with(es, i, t, k),
    ensures
        first_child_with(es, i, t) == k,
        has_child_with(es, i, t),
{
    let f = first_child_with(es, i, t);
    if f < k {
        assert(es[es[i].children@[f] as int].turn != t);
    } else if f > k {
        assert(es[es[i].children@[k] as int].turn != t);
    }
}

/// The value of a finished game for the player to move in it, in thousandths.
pub open spec fn terminal_value(result: GameResult, to_move: Colour) -> int {
    match result {
        GameResult::Winner { colour, .. } => if colour == to_move {
            1000
        } else {
            -1000
        },
        _ => 0,
    }
}

/// Sum of the first `k` values.
pub open spec fn prefix_sum(s: Seq<u32>, k: int) -> int
    decreases k,
{
    if k <= 0 {
        0
    } else {
        prefix_sum(s, k - 1) + s[k - 1]
    }
}

/// A raw weight's share of one million, rounded down: the weight times a
/// million over the total, or an equal share where every weight is zero.
pub open spec fn share(raw: Seq<u32>, i: int) -> int {
    let total = prefix_sum(raw, raw.len() as int);
    if total == 0 {
        1_000_000int / (raw.len() as int)
    } else {
        raw[i] * 1_000_000 / total
    }
}

/// Sum of the first `k` shares.
pub open spec fn share_sum(raw: Seq<u32>, k: int) -> int
    decreases k,
{
    if k <= 0 {
        0
    } else {
        share_sum(raw, k - 1) + share(raw, k - 1)
    }
}

/// Priors scaled to sum to exactly one million: each weight's share, with
/// what rounding left over given to the first.
pub open spec fn normalized(raw: Seq<u32>, i: int) -> int {
    share(raw, i) + if i == 0 {
        1_000_000 - share_sum(raw, raw.len() as int)
    } else {
        0int
    }
}

proof fn lemma_share_sum(raw: Seq<u32>, k: int)
    requires
        0 <= k <= raw.len(),
        raw.len() > 0,
    ensures
        0 <= share_sum(raw, k),
        share_sum(raw, k) <= share_sum(raw, raw.len() as int),
        share_sum(raw, raw.len() as int) <= 1_000_000,
        prefix_sum(raw, raw.len() as int) > 0 ==> prefix_sum(raw, raw.len() as int) * share_sum(raw, k)
            <= 1_000_000 * prefix_sum(raw, k),
        prefix_sum(raw, raw.len() as int) == 0 ==> share_sum(raw, k) == k * (1_000_000int / (
        raw.len() as int)),
    decreases raw.len() - k,
{
    let n = raw.len() as int;
    let t = prefix_sum(raw, n);
    lemma_prefix_sum_bound(raw, n);
    lemma_share_sum_up(raw, k);
    lemma_share_sum_up(raw, n);
    {
        if t > 0 {
            assert(share_sum(raw, n) <= 1_000_000) by (nonlinear_arith)
                requires
                    t * share_sum(raw, n) <= 1_000_000 * t,
                    t > 0,
            ;
        } else {
            assert(n * (1_000_000int / n) <= 1_000_000) by (nonlinear_arith)
                requires
                    n > 0,
            ;
        }
    }
}

proof fn lemma_share_sum_up(raw: Seq<u32>, k: int)
    requires
        0 <= k <= raw.len(),
        raw.len() > 0,
    ensures
        0 <= share_sum(raw, k),
        forall|j: int| 0 <= j <= k ==> #[trigger] share_sum(raw, j) <= share_sum(raw, k),
        prefix_sum(raw, raw.len() as int) > 0 ==> prefix_sum(raw, raw.len() as int) * share_sum(raw, k)
            <= 1_000_000 * prefix_sum(raw, k),
        prefix_sum(raw, raw.len() as int) == 0 ==> share_sum(raw, k) == k * (1_000_000int / (
        raw.len() as int)),
    decreases k,
{
    let n = raw.len() as int;
    let t = prefix_sum(raw, n);
    lemma_prefix_sum_bound(raw, n);
    if k > 0 {
        lemma_share_sum_up(raw, k - 1);
        let a = raw[k - 1] as int;
        let sh = share(raw, k - 1);
        if t > 0 {
            assert(t * sh <= a * 1_000_000 && sh >= 0) by (nonlinear_arith)
                requires
                    sh == a * 1_000_000 / t,
                    t > 0,
                    a >= 0,
            ;
            assert(t * share_sum(raw, k) == t * share_sum(raw, k - 1) + t * sh) by (nonlinear_arith)
                requires
                    share_sum(raw, k) == share_sum(raw, k - 1) + sh,
            ;
        } else {
            assert(sh == 1_000_000int / n);
            assert(sh >= 0) by (nonlinear_arith)
                requires
                    sh == 1_000_000int / n,
                    n > 0,
            ;
            assert(k * (1_000_000int / n) == (k - 1) * (1_000_000int / n) + 1_000_000int / n) by (
            nonlinear_arith);
            assert(share_sum(raw, k) == share_sum(raw, k - 1) + sh);
        }
    } else {
        assert(0 * (1_000_000int / n) == 0) by (nonlinear_arith);
    }
}

proof fn lemma_normalized_sum(raw: Seq<u32>, out: Seq<u32>, k: int)
    requires
        raw.len() > 0,
        out.len() == raw.len(),
        1 <= k <= raw.len(),
        forall|i: int| 0 <= i < raw.len() ==> #[trigger] out[i] == normalized(raw, i),
    ensures
        prefix_sum(out, k) == share_sum(raw, k) + 1_000_000 - share_sum(raw, raw.len() as int),
    decreases k,
{
    assert(out[0] == normalized(raw, 0));
    assert(prefix_sum(out, 0) == 0);
    assert(share_sum(raw, 0) == 0);
    if k > 1 {
        lemma_normalized_sum(raw, out, k - 1);
        assert(out[k - 1] == normalized(raw, k - 1));
    }
}

/// A prior mixed with noise: `(1 - e) * p + e * noise`, with `e` in
/// millionths.
pub open spec fn mixed(p: u32, noise: u32, e: u32) -> int {
    ((1_000_000 - e) * p + e * noise) / 1_000_000
}

proof fn lemma_prefix_sum_bound(s: Seq<u32>, k: int)
    requires
        0 <= k <= s.len(),
    ensures
        0 <= prefix_sum(s, k) <= k * 0xffff_ffff,
    decreases k,
{
    if k > 0 {
        lemma_prefix_sum_bound(s, k - 1);
    }
}

proof fn lemma_prefix_sum_le(s: Seq<u32>, i: int, k: int)
    requires
        0 <= i < k <= s.len(),
    ensures
        s[i] <= prefix_sum(s, k),
    decreases k,
{
    lemma_prefix_sum_bound(s, k - 1);
    if i < k - 1 {
        lemma_prefix_sum_le(s, i, k - 1);
    }
}

proof fn lemma_prefix_sum_mono(s: Seq<u32>, a: int, b: int)
    requires
        0 <= a <= b <= s.len(),
    ensures
        prefix_sum(s, a) <= prefix_sum(s, b),
    decreases b - a,
{
    if a < b {
        lemma_prefix_sum_mono(s, a, b - 1);
    }
}

/// Scales raw prior weights as `normalized` says: they then sum to exactly
/// one million.
pub fn normalize(raw: &Vec<u32>) -> (r: Vec<u32>)
    requires
        0 < raw@.len() <= 0x1_0000,
    ensures
        r@.len() == raw@.len(),
        forall|i: int| 0 <= i < raw@.len() ==> #[trigger] r@[i] == normalized(raw@, i),
        prefix_sum(r@, r@.len() as int) == 1_000_000,
{
    let mut total: u64 = 0;
    let mut k: usize = 0;
    while k < raw.len()
        invariant
            k <= raw@.len(),
            raw@.len() <= 0x1_0000,
            total == prefix_sum(raw@, k as int),
        decreases raw@.len() - k,
    {
        proof {
            lemma_prefix_sum_bound(raw@, k as int);
            assert(k * 0xffff_ffff <= 0x1_0000 * 0xffff_ffff) by (nonlinear_arith)
                requires
                    k <= 0x1_0000,
            ;
        }
        total = total + raw[k] as u64;
        k = k + 1;
    }
    proof {
        lemma_share_sum(raw@, 0);
    }
    let mut out: Vec<u32> = Vec::new();
    let mut sum: u64 = 0;
    let mut i: usize = 0;
    while i < raw.len()
        invariant
            i <= raw@.len(),
            0 < raw@.len() <= 0x1_0000,
            total == prefix_sum(raw@, raw@.len() as int),
            out@.len() == i,
            sum == share_sum(raw@, i as int),
            share_sum(raw@, raw@.len() as int) <= 1_000_000,
            forall|j: int| 0 <= j < i ==> #[trigger] out@[j] == share(raw@, j),
        decreases raw@.len() - i,
    {
        proof {
            lemma_share_sum(raw@, i as int + 1);
        }
        let w: u64 = if total == 0 {
            (1_000_000 / raw.len()) as u64
        } else {
            proof {
                lemma_prefix_sum_le(raw@, i as int, raw@.len() as int);
                let a = raw@[i as int] as int;
                let t = total as int;
                assert(a * 1_000_000 / t <= 1_000_000) by (nonlinear_arith)
                    requires
                        0 <= a <= t,
                        t > 0,
                ;
            }
            (raw[i] as u64) * 1_000_000 / total
        };
        assert(w == share(raw@, i as int));
        out.push(w as u32);
        sum = sum + w;
        i = i + 1;
    }
    proof {
        lemma_share_sum(raw@, 1);
        assert(share_sum(raw@, 1) == share(raw@, 0));
    }
    let first = out[0] as u64 + (1_000_000 - sum);
    out.set(0, first as u32);
    proof {
        assert forall|j: int| 0 <= j < raw@.len() implies #[trigger] out@[j] == normalized(raw@, j) by {
        }
        lemma_normalized_sum(raw@, out@, raw@.len() as int);
    }
    out
}

/// Visit counts of the children of entry `i`, in order.
pub open spec fn child_visits(es: Seq<Entry>, i: int) -> Seq<u32> {
    es[i].children@.map_values(|c: usize| es[c as int].visits)
}

/// `k` is the child that a draw of `r` below the children's total visits
/// lands on, each child owning a share as wide as its visit count.
pub open spec fn is_sampled(es: Seq<Entry>, i: int, r: int, k: int) -> bool {
    let w = child_visits(es, i);
    0 <= k < w.len() && prefix_sum(w, k) <= r < prefix_sum(w, k + 1)
}

/// With no noise weight, mixing leaves a prior as it was.
pub proof fn lemma_mix_without_noise(p: u32, noise: u32)
    ensures
        mixed(p, noise, 0) == p,
{
    assert((1_000_000 - 0) * p + 0 * noise == p * 1_000_000);
    vstd::arithmetic::div_mod::lemma_fundamental_div_mod_converse(
        p * 1_000_000,
        1_000_000,
        p as int,
        0,
    );
}

/// Number of set flags among the first `k`.
pub open spec fn count_taken(t: Seq<bool>, k: int) -> int
    decreases k,
{
    if k <= 0 {
        0
    } else {
        count_taken(t, k - 1) + if t[k - 1] {
            1int
        } else {
            0int
        }
    }
}

proof fn lemma_count_none(t: Seq<bool>, k: int)
    requires
        0 <= k <= t.len(),
        forall|j: int| 0 <= j < k ==> !#[trigger] t[j],
    ensures
        count_taken(t, k) == 0,
    decreases k,
{
    if k > 0 {
        lemma_count_none(t, k - 1);
    }
}

proof fn lemma_untaken_exists(t: Seq<bool>, k: int)
    requires
        0 <= k <= t.len(),
        count_taken(t, k) < k,
    ensures
        exists|m: int| 0 <= m < k && !t[m],
    decreases k,
{
    if t[k - 1] {
        lemma_untaken_exists(t, k - 1);
        let m = choose|m: int| 0 <= m < k - 1 && !t[m];
        assert(0 <= m < k && !t[m]);
    } else {
        assert(!t[k - 1]);
    }
}

proof fn lemma_count_taken_set(t: Seq<bool>, b: int, k: int)
    requires
        0 <= b < t.len(),
        0 <= k <= t.len(),
        !t[b],
    ensures
        count_taken(t.update(b, true), k) == count_taken(t, k) + if b < k {
            1int
        } else {
            0int
        },
    decreases k,
{
    if k > 0 {
        lemma_count_taken_set(t, b, k - 1);
    }
}

/// The value backed up from a leaf: the game's value for the player to move
/// where it is over, else the evaluator's estimate.
pub open spec fn backed_value(leaf: Game, value: i64) -> int {
    if leaf.result != GameResult::Ongoing {
        terminal_value(leaf.result, leaf.to_move)
    } else {
        value as int
    }
}

/// The weight that `priors` gives each move, by the move's index.
pub open spec fn raw_priors(priors: Seq<u32>, n: nat, moves: Seq<Turn>) -> Seq<u32> {
    Seq::new(moves.len(), |q: int| priors[spec_encode(n, moves[q]) as int])
}

/// The moves along a path, from the second entry on.
pub open spec fn path_turns(es: Seq<Entry>, path: Seq<usize>) -> Seq<Turn> {
    Seq::new((path.len() - 1) as nat, |a: int| es[path[a + 1] as int].turn)
}

/// `gs` walks through the legal moves `ts`: each game is the one before it
/// after the move between them.
pub open spec fn is_walk(gs: Seq<Game>, ts: Seq<Turn>) -> bool {
    &&& gs.len() == ts.len() + 1
    &&& forall|i: int|
        0 <= i < ts.len() ==> #[trigger] gs[i].spec_legal(ts[i]) && after_move(gs[i], ts[i], gs[i + 1])
}

/// `g` is `g0` after the legal moves `ts`, one after the other.
pub open spec fn replayed(g0: Game, ts: Seq<Turn>, g: Game) -> bool {
    exists|gs: Seq<Game>| #[trigger] is_walk(gs, ts) && same_game(g0, gs[0]) && gs.last() == g
}

/// Two games in the same position.
pub open spec fn same_game(a: Game, b: Game) -> bool {
    &&& a.stacks() == b.stacks()
    &&& a.n == b.n
    &&& a.white_stones == b.white_stones
    &&& a.white_caps == b.white_caps
    &&& a.black_stones == b.black_stones
    &&& a.black_caps == b.black_caps
    &&& a.ply == b.ply
    &&& a.to_move == b.to_move
    &&& a.komi == b.komi
    &&& a.result == b.result
}

/// The path that selection follows from entry `i`: descend into the selected
/// child until an entry without children.
pub open spec fn selected_path(es: Seq<Entry>, i: int) -> Seq<usize>
    decreases es.len() - i,
{
    if 0 <= i < es.len() && es[i].children@.len() > 0 && (forall|j: int|
        0 <= j < es[i].children@.len() ==> i < #[trigger] es[i].children@[j] < es.len()) {
        let c = choose|c: int| selects(es, i, c);
        if i < c < es.len() {
            seq![i as usize] + selected_path(es, c)
        } else {
            seq![i as usize]
        }
    } else {
        seq![i as usize]
    }
}

proof fn lemma_isqrt_unique(n: nat, a: nat, b: nat)
    requires
        is_isqrt(n, a),
        is_isqrt(n, b),
    ensures
        a == b,
{
    if a < b {
        assert((a + 1) * (a + 1) <= b * b) by (nonlinear_arith)
            requires
                a + 1 <= b,
        ;
    } else if b < a {
        assert((b + 1) * (b + 1) <= a * a) by (nonlinear_arith)
            requires
                b + 1 <= a,
        ;
    }
}

/// Selection descends into one child only.
proof fn lemma_selects_unique(es: Seq<Entry>, i: int, c1: int, c2: int)
    requires
        0 <= i < es.len(),
        selects(es, i, c1),
        selects(es, i, c2),
        forall|a: int, b: int|
            0 <= a < b < es[i].children@.len() ==> #[trigger] es[i].children@[a]
                < #[trigger] es[i].children@[b],
    ensures
        c1 == c2,
{
    let (k1, s1) = choose|k: int, s: nat|
        #[trigger] is_selected(es, i, s, k) && is_isqrt(es[i].visits as nat, s) && es[i].children@[k] == c1;
    let (k2, s2) = choose|k: int, s: nat|
        #[trigger] is_selected(es, i, s, k) && is_isqrt(es[i].visits as nat, s) && es[i].children@[k] == c2;
    lemma_isqrt_unique(es[i].visits as nat, s1, s2);
    let ch = es[i].children@;
    if k1 < k2 {
        assert(puct(es[ch[k1] as int], s1) < puct(es[ch[k2] as int], s1));
        assert(puct(es[ch[k2] as int], s1) <= puct(es[ch[k1] as int], s1));
    } else if k2 < k1 {
        assert(puct(es[ch[k2] as int], s1) < puct(es[ch[k1] as int], s1));
        assert(puct(es[ch[k1] as int], s1) <= puct(es[ch[k2] as int], s1));
    }
}

/// A path with the properties that `select_path` promises is the selected
/// path from its first entry on.
proof fn lemma_path_suffix(node: Node, path: Seq<usize>, a: int)
    requires
        node.wf(),
        path.len() >= 1,
        path_ok(node.entries@, path),
        node.entries@[path.last() as int].children@.len() == 0,
        forall|b: int|
            0 <= b < path.len() - 1 ==> #[trigger] selects(
                node.entries@,
                path[b] as int,
                path[b + 1] as int,
            ),
        0 <= a < path.len(),
    ensures
        path.subrange(a, path.len() as int) == selected_path(node.entries@, path[a] as int),
    decreases path.len() - a,
{
    let es = node.entries@;
    let i = path[a] as int;
    if a == path.len() - 1 {
        assert(path.subrange(a, path.len() as int) =~= seq![path[a]]);
    } else {
        lemma_path_suffix(node, path, a + 1);
        assert(selects(es, i, path[a + 1] as int));
        let k = choose|k: int, s: nat|
            #[trigger] is_selected(es, i, s, k) && is_isqrt(es[i].visits as nat, s) && es[i].children@[k]
                == path[a + 1] as int;
        assert(es[i].children@.len() > 0);
        let c = choose|c: int| selects(es, i, c);
        lemma_selects_unique(es, i, c, path[a + 1] as int);
        assert(path[a] < path[a + 1]);
        assert(path.subrange(a, path.len() as int) =~= seq![path[a]] + path.subrange(
            a + 1,
            path.len() as int,
        ));
    }
}

/// `n2` is `n1` with the root's children whose moves are illegal in `g`
/// dropped, the others kept in order.
pub open spec fn pruned(n1: Node, g: Game, n2: Node) -> bool {
    &&& root_fits(n2.entries@, n2.root as int, g)
    &&& forall|m: int|
                0 <= m < n1.entries@.len() && m != n1.root ==> #[trigger] n2.entries@[m]
                    == n1.entries@[m]
    &&& forall|q: int|
                0 <= q < n1.entries@[n1.root as int].children@.len() && g.spec_legal(
                    n1.entries@[#[trigger] n1.entries@[n1.root as int].children@[q] as int].turn,
                ) ==> n2.entries@[n2.root as int].children@.contains(
                    n1.entries@[n1.root as int].children@[q],
                )
    &&& ({
                let e0 = n1.entries@[n1.root as int];
                let e1 = n2.entries@[n2.root as int];
                &&& e1.visits == e0.visits
                &&& e1.reward_sum == e0.reward_sum
                &&& e1.turn == e0.turn
                &&& e1.policy == e0.policy
                &&& e1.result == e0.result
            })
}

/// Every child of entry `i` has a move that is legal in `g`.
pub open spec fn root_fits(es: Seq<Entry>, i: int, g: Game) -> bool {
    forall|q: int|
        0 <= q < es[i].children@.len() ==> g.spec_legal(es[#[trigger] es[i].children@[q] as int].turn)
}

/// The best child is unique: ranking is a strict order on siblings.
pub proof fn lemma_best_unique(es: Seq<Entry>, i: int, k: int)
    requires
        is_best(es, i, k),
    ensures
        best_of(es, i) == k,
{
    let b = best_of(es, i);
    if b != k {
        assert(ranks_above(es[es[i].children@[k] as int], k, es[es[i].children@[b] as int], b));
        assert(ranks_above(es[es[i].children@[b] as int], b, es[es[i].children@[k] as int], k));
    }
}

} // verus!

verus! {

/// A principal variation never holds more moves than the depth it was asked
/// for, and it is empty at an entry without children.
pub proof fn lemma_continuation_bounded(es: Seq<Entry>, i: int, min_visits: u32, depth: nat)
    ensures
        spec_continuation(es, i, min_visits, depth).len() <= depth,
        0 <= i < es.len() && es[i].children@.len() == 0 ==> spec_continuation(
            es,
            i,
            min_visits,
            depth,
        ).len() == 0,
    decreases depth,
{
    if depth > 0 && 0 <= i < es.len() && es[i].children@.len() > 0 && !(is_ongoing(es[i].result)
        && es[i].visits < min_visits) {
        let c = es[i].children@[best_of(es, i)] as int;
        lemma_continuation_bounded(es, c, min_visits, (depth - 1) as nat);
    }
}

/// The deterministic move choice depends only on the visit counts, priors
/// and moves of the children: two trees that agree on those pick the same
/// child.
pub proof fn lemma_pick_move_deterministic(es1: Seq<Entry>, es2: Seq<Entry>, i: int)
    requires
        0 <= i < es1.len(),
        0 <= i < es2.len(),
        es1[i].children@.len() > 0,
        es1[i].children@ == es2[i].children@,
        forall|k: int|
            0 <= k < es1[i].children@.len() ==> {
                let c = #[trigger] es1[i].children@[k] as int;
                &&& 0 <= c < es1.len()
                &&& 0 <= c < es2.len()
                &&& es1[c].visits == es2[c].visits
                &&& es1[c].policy == es2[c].policy
                &&& es1[c].turn == es2[c].turn
            },
    ensures
        best_of(es1, i) == best_of(es2, i),
        es1[es1[i].children@[best_of(es1, i)] as int].turn == es2[es2[i].children@[best_of(
            es2,
            i,
        )] as int].turn,
{
    let k = lemma_best_exists(es1, i);
    assert(is_best(es2, i, k)) by {
        assert forall|j: int| 0 <= j < es2[i].children@.len() && j != k implies #[trigger] ranks_above(
            es2[es2[i].children@[k] as int],
            k,
            es2[es2[i].children@[j] as int],
            j,
        ) by {
            assert(ranks_above(es1[es1[i].children@[k] as int], k, es1[es1[i].children@[j] as int], j));
            let ck = es1[i].children@[k] as int;
            let cj = es1[i].children@[j] as int;
        }
    }
    lemma_best_unique(es1, i, k);
    lemma_best_unique(es2, i, k);
}

/// Every entry with children has a best child.
pub proof fn lemma_best_exists(es: Seq<Entry>, i: int) -> (k: int)
    requires
        0 <= i < es.len(),
        es[i].children@.len() > 0,
    ensures
        is_best(es, i, k),
{
    lemma_best_prefix(es, i, es[i].children@.len() as int)
}

proof fn lemma_best_prefix(es: Seq<Entry>, i: int, n: int) -> (k: int)
    requires
        0 <= i < es.len(),
        0 < n <= es[i].children@.len(),
    ensures
        0 <= k < n,
        forall|j: int|
            0 <= j < n && j != k ==> #[trigger] ranks_above(
                es[es[i].children@[k] as int],
                k,
                es[es[i].children@[j] as int],
                j,
            ),
    decreases n,
{
    let ch = es[i].children@;
    if n == 1 {
        0
    } else {
        let p = lemma_best_prefix(es, i, n - 1);
        let last = n - 1;
        if ranks_above(es[ch[last] as int], last, es[ch[p] as int], p) {
            assert forall|j: int| 0 <= j < n && j != last implies #[trigger] ranks_above(
                es[ch[last] as int],
                last,
                es[ch[j] as int],
                j,
            ) by {
                if j != p {
                    assert(ranks_above(es[ch[p] as int], p, es[ch[j] as int], j));
                }
            }
            last
        } else {
            p
        }
    }
}

} // verus!

verus! {

/// Entry `to` lies in the subtree of entry `from`, at most `fuel` levels down.
pub open spec fn reaches(es: Seq<Entry>, from: int, to: int, fuel: nat) -> bool
    decreases fuel,
{
    from == to || (fuel > 0 && 0 <= from < es.len() && exists|k: int|
        0 <= k < es[from].children@.len() && reaches(
            es,
            #[trigger] es[from].children@[k] as int,
            to,
            (fuel - 1) as nat,
        ))
}

/// Below `u`, every entry other than `u` has its parent at index `u` or
/// beyond.
proof fn lemma_reach_parent(node: Node, u: int, s: int, fuel: nat) -> (v: (int, int))
    requires
        node.wf(),
        0 <= u < node.entries@.len(),
        reaches(node.entries@, u, s, fuel),
        u != s,
    ensures
        u <= v.0 < node.entries@.len(),
        0 <= v.1 < node.entries@[v.0].children@.len(),
        node.entries@[v.0].children@[v.1] == s,
    decreases fuel,
{
    let es = node.entries@;
    let k = choose|k: int|
        0 <= k < es[u].children@.len() && reaches(
            es,
            #[trigger] es[u].children@[k] as int,
            s,
            (fuel - 1) as nat,
        );
    let g = es[u].children@[k] as int;
    if g == s {
        (u, k)
    } else {
        lemma_reach_parent(node, g, s, (fuel - 1) as nat)
    }
}

/// After a move is committed, the subtree that is kept holds none of the
/// discarded siblings: no other child of the old root is reachable from the
/// chosen one, however deep one looks.
pub proof fn lemma_reuse_drops_siblings(node: Node, k: int, j: int, fuel: nat)
    requires
        node.wf(),
        0 <= k < node.entries@[node.root as int].children@.len(),
        0 <= j < node.entries@[node.root as int].children@.len(),
        j != k,
    ensures
        !reaches(
            node.entries@,
            node.entries@[node.root as int].children@[k] as int,
            node.entries@[node.root as int].children@[j] as int,
            fuel,
        ),
{
    let es = node.entries@;
    let r = node.root as int;
    let c = es[r].children@[k] as int;
    let s = es[r].children@[j] as int;
    if reaches(es, c, s, fuel) {
        if k < j {
            assert(es[r].children@[k] < es[r].children@[j]);
        } else {
            assert(es[r].children@[j] < es[r].children@[k]);
        }
        let (v, b) = lemma_reach_parent(node, c, s, fuel);
        assert(es[v].children@[b] == es[r].children@[j]);
        assert(v == r);
    }
}

} // verus!

verus! {

/// Sum of the first `k` mixed priors.
pub open spec fn mixed_sum(ps: Seq<u32>, ns: Seq<u32>, e: u32, k: int) -> int
    decreases k,
{
    if k <= 0 {
        0
    } else {
        mixed_sum(ps, ns, e, k - 1) + mixed(ps[k - 1], ns[k - 1], e)
    }
}

proof fn lemma_mixed_sum_bounds(ps: Seq<u32>, ns: Seq<u32>, e: u32, k: int)
    requires
        0 <= k <= ps.len(),
        ps.len() == ns.len(),
        e <= 1_000_000,
    ensures
        1_000_000 * mixed_sum(ps, ns, e, k) <= (1_000_000 - e) * prefix_sum(ps, k) + e * prefix_sum(
            ns,
            k,
        ),
        (1_000_000 - e) * prefix_sum(ps, k) + e * prefix_sum(ns, k) + k <= 1_000_000 * (mixed_sum(
            ps,
            ns,
            e,
            k,
        ) + k),
    decreases k,
{
    if k > 0 {
        lemma_mixed_sum_bounds(ps, ns, e, k - 1);
        let x = (1_000_000 - e) * ps[k - 1] + e * ns[k - 1];
        let f = mixed(ps[k - 1], ns[k - 1], e);
        assert(x >= 0) by (nonlinear_arith)
            requires
                x == (1_000_000 - e) * ps[k - 1] + e * ns[k - 1],
                e <= 1_000_000,
        ;
        assert(1_000_000 * f <= x && x < 1_000_000 * (f + 1)) by (nonlinear_arith)
            requires
                f == x / 1_000_000,
                x >= 0,
        ;
        let pp = prefix_sum(ps, k - 1);
        let pn = prefix_sum(ns, k - 1);
        assert((1_000_000 - e) * prefix_sum(ps, k) + e * prefix_sum(ns, k) == (1_000_000 - e) * pp + e
            * pn + x) by (nonlinear_arith)
            requires
                prefix_sum(ps, k) == pp + ps[k - 1],
                prefix_sum(ns, k) == pn + ns[k - 1],
                x == (1_000_000 - e) * ps[k - 1] + e * ns[k - 1],
        ;
    }
}

/// Mixing noise into priors that sum to one million, with noise that sums
/// to one million too, keeps the sum at one million up to rounding: each
/// mixed prior is rounded down, by less than one unit.
pub proof fn lemma_mixed_priors_sum(ps: Seq<u32>, ns: Seq<u32>, e: u32)
    requires
        ps.len() == ns.len(),
        e <= 1_000_000,
        prefix_sum(ps, ps.len() as int) == 1_000_000,
        prefix_sum(ns, ns.len() as int) == 1_000_000,
    ensures
        1_000_000 - ps.len() < mixed_sum(ps, ns, e, ps.len() as int) <= 1_000_000,
{
    let k = ps.len() as int;
    lemma_mixed_sum_bounds(ps, ns, e, k);
    let m = mixed_sum(ps, ns, e, k);
    assert((1_000_000 - e) * 1_000_000 + e * 1_000_000 == 1_000_000 * 1_000_000) by (nonlinear_arith);
    assert(m <= 1_000_000) by (nonlinear_arith)
        requires
            1_000_000 * m <= 1_000_000 * 1_000_000,
    ;
    assert(k >= 1) by {
        if k == 0 {
            assert(prefix_sum(ps, 0) == 0);
        }
    }
    let d = 1_000_000 - m;
    assert(1_000_000 * d <= 999_999 * k) by (nonlinear_arith)
        requires
            1_000_000 * 1_000_000 + k <= 1_000_000 * (m + k),
            d == 1_000_000 - m,
    ;
    assert(d < k) by (nonlinear_arith)
        requires
            1_000_000 * d <= 999_999 * k,
            k >= 1,
    ;
}

} // verus!

verus! {

/// Two arenas that agree, entry by entry, on moves, visits, priors, results
/// and child lists.
pub open spec fn same_statistics(es1: Seq<Entry>, es2: Seq<Entry>) -> bool {
    &&& es1.len() == es2.len()
    &&& forall|i: int|
        0 <= i < es1.len() ==> {
            &&& (#[trigger] es1[i]).children@ == es2[i].children@
            &&& es1[i].visits == es2[i].visits
            &&& es1[i].policy == es2[i].policy
            &&& es1[i].turn == es2[i].turn
            &&& es1[i].result == es2[i].result
        }
}

/// A principal variation is a function of the statistics alone: two trees
/// with equal moves, visits, priors, results and child lists give the same
/// variation from every entry, for every minimum and depth.
pub proof fn lemma_continuation_deterministic(
    es1: Seq<Entry>,
    es2: Seq<Entry>,
    i: int,
    min_visits: u32,
    depth: nat,
)
    requires
        same_statistics(es1, es2),
        forall|a: int, j: int|
            0 <= a < es1.len() && 0 <= j < es1[a].children@.len() ==> 0 <= #[trigger] es1[a].children@[j]
                < es1.len(),
    ensures
        spec_continuation(es1, i, min_visits, depth) == spec_continuation(es2, i, min_visits, depth),
    decreases depth,
{
    if depth > 0 && 0 <= i < es1.len() && es1[i].children@.len() > 0 && !(is_ongoing(es1[i].result)
        && es1[i].visits < min_visits) {
        assert(es1[i].children@ == es2[i].children@);
        assert forall|k: int| 0 <= k < es1[i].children@.len() implies {
            let c = #[trigger] es1[i].children@[k] as int;
            &&& 0 <= c < es1.len()
            &&& 0 <= c < es2.len()
            &&& es1[c].visits == es2[c].visits
            &&& es1[c].policy == es2[c].policy
            &&& es1[c].turn == es2[c].turn
        } by {
            let c = es1[i].children@[k] as int;
            assert(es1[c].visits == es2[c].visits);
        }
        lemma_pick_move_deterministic(es1, es2, i);
        let c = es1[i].children@[best_of(es1, i)] as int;
        lemma_continuation_deterministic(es1, es2, c, min_visits, (depth - 1) as nat);
        assert(es1[c].turn == es2[c].turn);
    } else if 0 <= i < es1.len() {
        assert(es1[i].children@ == es2[i].children@);
    }
}

} // verus!
