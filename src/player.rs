use vstd::prelude::*;
use crate::codec::{encode, spec_encode};
use crate::game::{Game, GameResult, IllegalMove, after_move};
use crate::codec::action_space;
use crate::tree::{
    Node, best_of, child_visits, first_child_with, has_child_with, is_sampled, lemma_best_exists,
    lemma_best_unique, normalize, normalized, prefix_sum, pruned, root_fits, terminal_value,
};
use crate::turn::{Colour, Turn};

verus! {

/// The index and visit count of each of the first `k` children of entry `i`
/// whose move is legal in `g`, in the order of the children.
pub open spec fn count_list(es: Seq<crate::tree::Entry>, i: int, g: Game, k: int) -> Seq<(usize, u32)>
    decreases k,
{
    if k <= 0 {
        seq![]
    } else {
        let e = es[es[i].children@[k - 1] as int];
        count_list(es, i, g, k - 1) + if g.spec_legal(e.turn) {
            seq![(spec_encode(g.n as nat, e.turn) as usize, e.visits)]
        } else {
            seq![]
        }
    }
}

/// `n1` is the tree `n0` after committing `t`: the subtree under the first
/// child reached by `t`, with all its statistics, or a fresh tree where the
/// root has no such child.
pub open spec fn tree_moved(n0: Node, t: Turn, n1: Node) -> bool {
    &&& n1.wf()
    &&& has_child_with(n0.entries@, n0.root as int, t) ==> {
        let k = first_child_with(n0.entries@, n0.root as int, t);
        &&& n1.entries == n0.entries
        &&& n1.root == n0.entries@[n0.root as int].children@[k]
    }
    &&& !has_child_with(n0.entries@, n0.root as int, t) ==> n1.entries@.len() == 1 && n1.root == 0
        && n1.entries@[0].visits == 0 && n1.entries@[0].children@.len() == 0
}

/// `p2` is `p` after committing `t` in `game`.
pub open spec fn player_moved(p: Player, game: Game, t: Turn, p2: Player) -> bool {
    &&& tree_moved(p.node, t, p2.node)
    &&& p2.records@.len() == p.records@.len() + 1
    &&& p2.analysis@ == p.analysis@.push(t)
    &&& p2.records@.last().game.stacks() == game.stacks()
    &&& p2.records@.last().game.to_move == game.to_move
    &&& p2.records@.last().policy@ == count_list(
        p.node.entries@,
        p.node.root as int,
        game,
        p.node.entries@[p.node.root as int].children@.len() as int,
    )
    &&& forall|i: int| 0 <= i < p.records@.len() ==> #[trigger] p2.records@[i] == p.records@[i]
}

/// A position met in a game, with the search's visit counts over its moves.
pub struct Record {
    pub game: Game,
    /// Pairs of an action index and the visits of the move with that index.
    pub policy: Vec<(usize, u32)>,
}

/// A training example: a position, the visit counts over its moves, and the
/// outcome for the player to move there (thousandths: win, loss or draw).
pub struct Example {
    pub game: Game,
    pub policy: Vec<(usize, u32)>,
    pub value: i64,
}

/// The visit counts of a record's policy.
pub open spec fn counts_of(p: Seq<(usize, u32)>) -> Seq<u32> {
    Seq::new(p.len(), |i: int| p[i].1)
}

/// A record's policy as a distribution: each index keeps its move, and the
/// visit counts become shares in millionths that sum to one million (equal
/// shares where nothing was visited). An empty policy, or one too long to
/// scale, stays as it was.
pub open spec fn distribution(p: Seq<(usize, u32)>) -> Seq<(usize, u32)> {
    if 0 < p.len() <= 0x1_0000 {
        Seq::new(p.len(), |i: int| (p[i].0, normalized(counts_of(p), i) as u32))
    } else {
        p
    }
}

/// `e` is the example of record `r` in a game that ended with `result`.
pub open spec fn example_of(e: Example, r: Record, result: GameResult) -> bool {
    &&& e.value == terminal_value(result, r.game.to_move)
    &&& e.game.stacks() == r.game.stacks()
    &&& e.game.to_move == r.game.to_move
    &&& e.policy@ == distribution(r.policy@)
}

/// A search tree that follows a game, with the positions met along it.
pub struct Player {
    pub node: Node,
    pub records: Vec<Record>,
    pub analysis: Vec<Turn>,
}

impl Player {
    pub fn new() -> (r: Player)
        ensures
            r.node.wf(),
            r.node.entries@.len() == 1,
            r.records@.len() == 0,
            r.analysis@.len() == 0,
    {
        Player { node: Node::new(), records: Vec::new(), analysis: Vec::new() }
    }

    /// Visit counts of the root's children whose moves are legal in `game`,
    /// each under the index of its move, in the order of the children.
    pub fn visit_counts(&self, game: &Game) -> (r: Vec<(usize, u32)>)
        requires
            self.node.wf(),
            game.wf(),
        ensures
            r@ == count_list(
                self.node.entries@,
                self.node.root as int,
                *game,
                self.node.entries@[self.node.root as int].children@.len() as int,
            ),
    {
        let es = &self.node.entries;
        let ch = &self.node.entries[self.node.root].children;
        let ghost root = self.node.root as int;
        let mut out: Vec<(usize, u32)> = Vec::new();
        let mut q: usize = 0;
        while q < ch.len()
            invariant
                self.node.wf(),
                game.wf(),
                root == self.node.root as int,
                *es == self.node.entries,
                *ch == self.node.entries@[root].children,
                q <= ch@.len(),
                out@ == count_list(es@, root, *game, q as int),
            decreases ch@.len() - q,
        {
            let e = &es[ch[q]];
            proof {
                assert(es@[ch@[q as int] as int] == *e);
            }
            if game.is_legal(&e.turn) {
                let k = encode(game.n, &e.turn);
                out.push((k, e.visits));
            }
            proof {
                assert(out@ =~= count_list(es@, root, *game, q + 1));
            }
            q = q + 1;
        }
        out
    }

    /// Commits `turn`, played in `game`: records the position with its
    /// visit counts, and keeps the subtree under the move.
    pub fn play_move(&mut self, game: &Game, turn: &Turn)
        requires
            old(self).node.wf(),
            game.wf(),
        ensures
            final(self).node.wf(),
            final(self).records@.len() == old(self).records@.len() + 1,
            final(self).analysis@ == old(self).analysis@.push(*turn),
            final(self).records@.last().game.stacks() == game.stacks(),
            final(self).records@.last().game.to_move == game.to_move,
            final(self).records@.last().policy@ == count_list(
                old(self).node.entries@,
                old(self).node.root as int,
                *game,
                old(self).node.entries@[old(self).node.root as int].children@.len() as int,
            ),
            forall|i: int| 0 <= i < old(self).records@.len() ==> #[trigger] final(self).records@[i] == old(self).records@[i],
            tree_moved(old(self).node, *turn, final(self).node),
    {
        let policy = self.visit_counts(game);
        self.records.push(Record { game: game.duplicate(), policy });
        self.analysis.push(*turn);
        let mut node = Node::new();
        std::mem::swap(&mut node, &mut self.node);
        self.node = node.play(turn);
    }

    /// The moves played so far.
    pub fn get_analysis(&self) -> (r: &Vec<Turn>)
        ensures
            r@ == self.analysis@,
    {
        &self.analysis
    }

    /// The recorded positions as training examples, each valued by the
    /// final result for the player to move in it.
    pub fn get_examples(&self, result: GameResult) -> (r: Vec<Example>)
        ensures
            r@.len() == self.records@.len(),
            forall|a: int| 0 <= a < r@.len() ==> #[trigger] example_of(r@[a], self.records@[a], result),
    {
        let mut out: Vec<Example> = Vec::new();
        let mut a: usize = 0;
        while a < self.records.len()
            invariant
                a <= self.records@.len(),
                out@.len() == a,
                forall|b: int| 0 <= b < a ==> #[trigger] example_of(out@[b], self.records@[b], result),
            decreases self.records@.len() - a,
        {
            let rec = &self.records[a];
            let value: i64 = match result {
                GameResult::Winner { colour, .. } => if colour == rec.game.to_move {
                    1000
                } else {
                    -1000
                },
                _ => 0,
            };
            let policy = to_distribution(&rec.policy);
            let ghost before = out@;
            out.push(Example { game: rec.game.duplicate(), policy, value });
            proof {
                assert forall|b: int| 0 <= b < a + 1 implies #[trigger] example_of(
                    out@[b],
                    self.records@[b],
                    result,
                ) by {
                    if b < a {
                        assert(out@[b] == before[b]);
                    } else {
                        assert(out@[b].value == value);
                        assert(value == terminal_value(result, rec.game.to_move));
                        assert(out@[b].game.to_move == rec.game.to_move);
                        assert(out@[b].game.stacks() == rec.game.stacks());
                        assert(out@[b].policy@ == distribution(rec.policy@));
                    }
                }
            }
            a = a + 1;
        }
        out
    }
}

/// A policy as the distribution that `distribution` describes; where it is
/// not empty and short enough, its shares sum to one million.
pub fn to_distribution(p: &Vec<(usize, u32)>) -> (r: Vec<(usize, u32)>)
    ensures
        r@ == distribution(p@),
        0 < p@.len() <= 0x1_0000 ==> prefix_sum(counts_of(r@), r@.len() as int) == 1_000_000,
{
    if p.len() == 0 || p.len() > 0x1_0000 {
        return copy_policy(p);
    }
    let mut counts: Vec<u32> = Vec::new();
    let mut i: usize = 0;
    while i < p.len()
        invariant
            i <= p@.len(),
            counts@ == counts_of(p@).subrange(0, i as int),
        decreases p@.len() - i,
    {
        counts.push(p[i].1);
        i = i + 1;
        assert(counts@ =~= counts_of(p@).subrange(0, i as int));
    }
    assert(counts@ =~= counts_of(p@));
    let shares = normalize(&counts);
    let mut out: Vec<(usize, u32)> = Vec::new();
    let mut j: usize = 0;
    while j < p.len()
        invariant
            j <= p@.len(),
            shares@.len() == p@.len(),
            0 < p@.len() <= 0x1_0000,
            forall|k: int| 0 <= k < p@.len() ==> #[trigger] shares@[k] == normalized(counts_of(p@), k),
            out@ == distribution(p@).subrange(0, j as int),
        decreases p@.len() - j,
    {
        out.push((p[j].0, shares[j]));
        j = j + 1;
        assert(out@ =~= distribution(p@).subrange(0, j as int));
    }
    assert(out@ =~= distribution(p@));
    assert(counts_of(out@) =~= shares@);
    out
}

fn copy_policy(p: &Vec<(usize, u32)>) -> (r: Vec<(usize, u32)>)
    ensures
        r@ == p@,
{
    let mut out: Vec<(usize, u32)> = Vec::new();
    let mut i: usize = 0;
    while i < p.len()
        invariant
            i <= p@.len(),
            out@ == p@.subrange(0, i as int),
        decreases p@.len() - i,
    {
        out.push(p[i]);
        i = i + 1;
        assert(out@ =~= p@.subrange(0, i as int));
    }
    assert(p@.subrange(0, i as int) =~= p@);
    out
}

/// A match between two players searching the same game: the new player
/// plays `new_colour`.
pub struct Match {
    pub game: Game,
    pub players: (Player, Player),
    pub new_colour: Colour,
}

impl Match {
    /// The game and both trees are well formed, and every move at the root
    /// of either tree is legal in the game.
    pub open spec fn wf(&self) -> bool {
        &&& self.game.wf()
        &&& self.players.0.node.wf()
        &&& self.players.1.node.wf()
        &&& root_fits(self.players.0.node.entries@, self.players.0.node.root as int, self.game)
        &&& root_fits(self.players.1.node.entries@, self.players.1.node.root as int, self.game)
    }

    pub open spec fn player(&self, side: int) -> Player {
        if side == 0 {
            self.players.0
        } else {
            self.players.1
        }
    }

    /// A match from `game`, with fresh trees for both players.
    pub fn new(game: Game, new_colour: Colour) -> (r: Match)
        requires
            game.wf(),
        ensures
            r.wf(),
            r.game == game,
            r.new_colour == new_colour,
            r.players.0.node.entries@.len() == 1 && r.players.1.node.entries@.len() == 1,
    {
        Match { game, players: (Player::new(), Player::new()), new_colour }
    }

    /// Which player searches now: `Some(0)` for the new player, `Some(1)`
    /// for the other, `None` once the game is over.
    pub fn to_search(&self) -> (r: Option<usize>)
        ensures
            r.is_none() <==> self.game.result != GameResult::Ongoing,
            r == Some(0usize) <==> (self.game.result == GameResult::Ongoing && self.game.to_move
                == self.new_colour),
            r == Some(1usize) <==> (self.game.result == GameResult::Ongoing && self.game.to_move
                != self.new_colour),
    {
        if self.game.result != GameResult::Ongoing {
            None
        } else if self.game.to_move == self.new_colour {
            Some(0)
        } else {
            Some(1)
        }
    }

    /// Commits `t` to the game and to both players' trees. An illegal move
    /// changes nothing.
    pub fn commit(&mut self, t: Turn) -> (r: Result<(), IllegalMove>)
        requires
            old(self).wf(),
            old(self).game.ply < u64::MAX,
        ensures
            final(self).wf(),
            r.is_ok() == old(self).game.spec_legal(t),
            r.is_err() ==> *final(self) == *old(self),
            r.is_ok() ==> {
                &&& after_move(old(self).game, t, final(self).game)
                &&& final(self).new_colour == old(self).new_colour
                &&& exists|p: Player|
                    player_moved(old(self).players.0, old(self).game, t, p) && pruned(
                        p.node,
                        final(self).game,
                        final(self).players.0.node,
                    ) && final(self).players.0.records == p.records && final(self).players.0.analysis
                        == p.analysis
                &&& exists|p: Player|
                    player_moved(old(self).players.1, old(self).game, t, p) && pruned(
                        p.node,
                        final(self).game,
                        final(self).players.1.node,
                    ) && final(self).players.1.records == p.records && final(self).players.1.analysis
                        == p.analysis
            },
    {
        if !self.game.is_legal(&t) {
            return Err(IllegalMove);
        }
        self.players.0.play_move(&self.game, &t);
        self.players.1.play_move(&self.game, &t);
        let r = self.game.play(t);
        let ghost p0 = self.players.0;
        let ghost p1 = self.players.1;
        self.players.0.node.retain_legal(&self.game);
        self.players.1.node.retain_legal(&self.game);
        proof {
            assert(player_moved(old(self).players.0, old(self).game, t, p0));
            assert(player_moved(old(self).players.1, old(self).game, t, p1));
        }
        r
    }

    /// One rollout in the tree of player `side`: descend to a leaf, take the
    /// evaluator's `priors` and `value` for it, back up, and keep only root
    /// moves that are legal in the game. `false` where the path cannot be
    /// replayed or a visit counter is full.
    pub fn rollout(&mut self, side: usize, priors: &Vec<u32>, value: i64) -> (ok: bool)
        requires
            old(self).wf(),
            side < 2,
            priors@.len() == action_space(old(self).game.n as nat),
            -1000 <= value <= 1000,
            old(self).player(side as int).node.entries@.len() + 0x1_0000 <= usize::MAX,
        ensures
            final(self).wf(),
            final(self).game == old(self).game,
            final(self).new_colour == old(self).new_colour,
            final(self).player(1 - side) == old(self).player(1 - side),
            final(self).player(side as int).records == old(self).player(side as int).records,
            final(self).player(side as int).analysis == old(self).player(side as int).analysis,
            ok ==> final(self).player(side as int).node.entries@[final(self).player(
                side as int,
            ).node.root as int].visits == old(self).player(side as int).node.entries@[old(self).player(
                side as int,
            ).node.root as int].visits + 1,
    {
        if side == 0 {
            let ok = rollout_in(&mut self.players.0, &self.game, priors, value);
            ok
        } else {
            let ok = rollout_in(&mut self.players.1, &self.game, priors, value);
            ok
        }
    }

    /// The move that player `side` picks: the best move once the game is
    /// past its third ply, else one drawn by `draw` in proportion to the
    /// visits; `None` where its root has no children. A move picked is legal
    /// in the game, so committing it succeeds.
    pub fn select_move(&self, side: usize, draw: u64) -> (r: Option<Turn>)
        requires
            self.wf(),
            side < 2,
        ensures
            ({
                let n = self.player(side as int).node;
                let ch = n.entries@[n.root as int].children@;
                &&& r.is_none() <==> ch.len() == 0
                &&& r.is_some() ==> self.game.spec_legal(r.unwrap())
                &&& r.is_some() && self.game.ply > 3 ==> r.unwrap() == n.entries@[ch[best_of(
                    n.entries@,
                    n.root as int,
                )] as int].turn
            }),
    {
        let node = if side == 0 {
            &self.players.0.node
        } else {
            &self.players.1.node
        };
        if node.entries[node.root].children.len() == 0 {
            return None;
        }
        proof {
            lemma_best_exists(node.entries@, node.root as int);
            lemma_best_unique(node.entries@, node.root as int, best_of(node.entries@, node.root as int));
        }
        let t = if self.game.ply > 3 {
            node.pick_move()
        } else {
            node.pick_move_sampled(draw)
        };
        proof {
            let es = node.entries@;
            let r = node.root as int;
            let w = child_visits(es, r);
            let total = prefix_sum(w, w.len() as int);
            if self.game.ply <= 3 && total > 0 {
                let k = choose|k: int| #[trigger] is_sampled(es, r, (draw as int) % total, k) && t
                    == es[es[r].children@[k] as int].turn;
                assert(self.game.spec_legal(es[es[r].children@[k] as int].turn));
            } else {
                assert(self.game.spec_legal(es[es[r].children@[best_of(es, r)] as int].turn));
            }
        }
        Some(t)
    }
}

/// A rollout in `p`'s tree against `game`, keeping its root moves legal.
fn rollout_in(p: &mut Player, game: &Game, priors: &Vec<u32>, value: i64) -> (ok: bool)
    requires
        old(p).node.wf(),
        game.wf(),
        root_fits(old(p).node.entries@, old(p).node.root as int, *game),
        priors@.len() == action_space(game.n as nat),
        -1000 <= value <= 1000,
        old(p).node.entries@.len() + 0x1_0000 <= usize::MAX,
    ensures
        final(p).node.wf(),
        root_fits(final(p).node.entries@, final(p).node.root as int, *game),
        final(p).records == old(p).records,
        final(p).analysis == old(p).analysis,
        ok ==> final(p).node.entries@[final(p).node.root as int].visits == old(p).node.entries@[old(
            p,
        ).node.root as int].visits + 1,
{
    match p.node.descend(game) {
        None => false,
        Some((path, leaf)) => {
            let ok = p.node.finish(&path, &leaf, priors, value);
            p.node.retain_legal(game);
            ok
        },
    }
}

} // verus!
