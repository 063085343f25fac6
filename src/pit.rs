use vstd::prelude::*;
use crate::game::GameResult;
use crate::turn::Colour;

verus! {

/// Outcome counts of a match between two agents, from the view of the new
/// agent.
#[derive(Debug, PartialEq, Eq, Structural)]
pub struct PitResult {
    pub wins: u32,
    pub draws: u32,
    pub losses: u32,
}

/// What one game adds to `(wins, draws, losses)` for the player of `colour`.
pub open spec fn game_score(result: GameResult, colour: Colour) -> (int, int, int) {
    match result {
        GameResult::Winner { colour: winner, .. } => if winner == colour {
            (1, 0, 0)
        } else {
            (0, 0, 1)
        },
        GameResult::Draw => (0, 1, 0),
        GameResult::Ongoing => (0, 0, 0),
    }
}

/// Totals over pairs of games: in the first of each pair the new agent
/// played White, in the second Black.
pub open spec fn tally(games: Seq<(GameResult, GameResult)>) -> (int, int, int)
    decreases games.len(),
{
    if games.len() == 0 {
        (0, 0, 0)
    } else {
        let rest = tally(games.drop_last());
        let last = games.last();
        let a = game_score(last.0, Colour::White);
        let b = game_score(last.1, Colour::Black);
        (rest.0 + a.0 + b.0, rest.1 + a.1 + b.1, rest.2 + a.2 + b.2)
    }
}

proof fn lemma_tally_bound(games: Seq<(GameResult, GameResult)>)
    ensures
        0 <= tally(games).0,
        0 <= tally(games).1,
        0 <= tally(games).2,
        tally(games).0 + tally(games).1 + tally(games).2 <= 2 * games.len(),
    decreases games.len(),
{
    if games.len() > 0 {
        lemma_tally_bound(games.drop_last());
    }
}

impl PitResult {
    /// No games yet.
    pub fn new() -> (r: PitResult)
        ensures
            r.wins == 0 && r.draws == 0 && r.losses == 0,
    {
        PitResult { wins: 0, draws: 0, losses: 0 }
    }

    pub open spec fn total(&self) -> int {
        self.wins + self.draws + self.losses
    }

    /// The counter that `result` raises for `colour` has room.
    pub open spec fn has_room(&self, result: GameResult, colour: Colour) -> bool {
        let g = game_score(result, colour);
        &&& (g.0 == 1 ==> self.wins < u32::MAX)
        &&& (g.1 == 1 ==> self.draws < u32::MAX)
        &&& (g.2 == 1 ==> self.losses < u32::MAX)
    }

    /// Counts one game that the player of `colour` took part in.
    pub fn update(&mut self, result: GameResult, colour: Colour)
        requires
            old(self).has_room(result, colour),
        ensures
            final(self).wins == old(self).wins + game_score(result, colour).0,
            final(self).draws == old(self).draws + game_score(result, colour).1,
            final(self).losses == old(self).losses + game_score(result, colour).2,
    {
        match result {
            GameResult::Winner { colour: winner, .. } => {
                if winner == colour {
                    self.wins = self.wins + 1;
                } else {
                    self.losses = self.losses + 1;
                }
            },
            GameResult::Draw => {
                self.draws = self.draws + 1;
            },
            GameResult::Ongoing => {},
        }
    }
}

/// Tallies the games of a match. Each pair holds the results of the two
/// games played from one opening: the new agent as White, then as Black.
pub fn pit(games: &Vec<(GameResult, GameResult)>) -> (r: PitResult)
    requires
        games@.len() < 0x7fff_ffff,
    ensures
        (r.wins as int, r.draws as int, r.losses as int) == tally(games@),
{
    let mut result = PitResult::new();
    let mut k: usize = 0;
    while k < games.len()
        invariant
            k <= games@.len(),
            games@.len() < 0x7fff_ffff,
            (result.wins as int, result.draws as int, result.losses as int) == tally(
                games@.subrange(0, k as int),
            ),
        decreases games@.len() - k,
    {
        proof {
            lemma_tally_bound(games@.subrange(0, k as int));
            assert(games@.subrange(0, k + 1).drop_last() =~= games@.subrange(0, k as int));
        }
        let (white, black) = games[k];
        result.update(white, Colour::White);
        result.update(black, Colour::Black);
        k = k + 1;
    }
    assert(games@.subrange(0, k as int) =~= games@);
    result
}

} // verus!
