use tak_search::codec::{action_count, encode};
use tak_search::game::{Game, GameResult, WinReason};
use tak_search::player::Player;
use tak_search::turn::{Colour, Shape, Turn};

fn place(x: usize, y: usize) -> Turn {
    Turn::Place { x, y, shape: Shape::Flat }
}

fn searched_player(game: &Game, rollouts: usize) -> Player {
    let mut player = Player::new();
    let priors = vec![1u32; action_count(game.n)];
    for _ in 0..rollouts {
        let (path, leaf) = player.node.descend(game).unwrap();
        assert!(player.node.finish(&path, &leaf, &priors, 0));
    }
    player
}

#[test]
fn play_move_records_visits_and_reuses_tree() {
    let mut game = Game::with_komi(3, 0);
    let mut player = searched_player(&game, 20);
    let turn = player.node.pick_move();
    let child = player.node.entries[player.node.root]
        .children
        .iter()
        .copied()
        .find(|&c| player.node.entries[c].turn == turn)
        .unwrap();
    let child_visits = player.node.entries[child].visits;
    let counts = player.visit_counts(&game);
    assert_eq!(counts.len(), 9);
    assert_eq!(counts.iter().map(|p| p.1).sum::<u32>(), 19);
    assert!(counts.contains(&(encode(3, &turn), child_visits)));
    player.play_move(&game, &turn);
    game.play(turn).unwrap();
    assert_eq!(player.node.entries[player.node.root].visits, child_visits);
    assert_eq!(player.records.len(), 1);
    assert_eq!(player.records[0].policy, counts);
    assert_eq!(player.get_analysis(), &vec![turn]);
}

#[test]
fn examples_take_the_outcome_of_each_side() {
    let mut game = Game::with_komi(3, 0);
    let mut player = Player::new();
    for t in [place(1, 0), place(0, 0)] {
        player.play_move(&game, &t);
        game.play(t).unwrap();
    }
    let result = GameResult::Winner { colour: Colour::White, reason: WinReason::Road };
    let examples = player.get_examples(result);
    assert_eq!(examples.len(), 2);
    assert_eq!(examples[0].value, 1000);
    assert_eq!(examples[1].value, -1000);
    assert_eq!(examples[1].game.ply, 1);
    assert!(player.get_examples(GameResult::Draw).iter().all(|e| e.value == 0));
}

use tak_search::game::IllegalMove;
use tak_search::player::Match;

#[test]
fn match_commits_to_game_and_both_trees() {
    let game = Game::with_komi(3, 0);
    let mut m = Match::new(game, Colour::White);
    assert_eq!(m.to_search(), Some(0));
    let priors = vec![1u32; action_count(3)];
    for _ in 0..5 {
        let (path, leaf) = m.players.0.node.descend(&m.game).unwrap();
        assert!(m.players.0.node.finish(&path, &leaf, &priors, 0));
    }
    let turn = m.players.0.node.pick_move();
    let root = m.players.0.node.root;
    let child = m.players.0.node.entries[root]
        .children
        .iter()
        .copied()
        .find(|&c| m.players.0.node.entries[c].turn == turn)
        .unwrap();
    let visits = m.players.0.node.entries[child].visits;
    assert_eq!(m.commit(turn), Ok(()));
    assert_eq!(m.game.ply, 1);
    assert_eq!(m.players.0.node.entries[m.players.0.node.root].visits, visits);
    assert_eq!(m.players.1.node.entries.len(), 1);
    assert_eq!(m.players.0.analysis, vec![turn]);
    assert_eq!(m.players.1.analysis, vec![turn]);
    assert_eq!(m.to_search(), Some(1));
}

#[test]
fn match_refuses_illegal_move_without_change() {
    let mut m = Match::new(Game::with_komi(3, 0), Colour::Black);
    assert_eq!(m.to_search(), Some(1));
    let wall = Turn::Place { x: 0, y: 0, shape: Shape::Standing };
    assert_eq!(m.commit(wall), Err(IllegalMove));
    assert_eq!(m.game, Game::with_komi(3, 0));
    assert!(m.players.0.records.is_empty() && m.players.1.analysis.is_empty());
}

#[test]
fn match_search_stops_when_game_ends() {
    let mut m = Match::new(Game::with_komi(3, 0), Colour::White);
    for t in [place(1, 0), place(0, 0), place(2, 0), place(0, 1), place(1, 1), place(2, 1), place(0, 2), place(1, 2), place(2, 2)] {
        assert_eq!(m.commit(t), Ok(()));
    }
    assert_eq!(m.to_search(), None);
}

use tak_search::player::to_distribution;

#[test]
fn training_targets_sum_to_one_million() {
    let d = to_distribution(&vec![(4, 1), (7, 2), (9, 0)]);
    assert_eq!(d, vec![(4, 333_334), (7, 666_666), (9, 0)]);
    assert_eq!(d.iter().map(|p| p.1).sum::<u32>(), 1_000_000);
    let none = to_distribution(&vec![(1, 0), (2, 0)]);
    assert_eq!(none, vec![(1, 500_000), (2, 500_000)]);
    assert_eq!(to_distribution(&vec![]), vec![]);
}

#[test]
fn match_rollouts_and_selected_moves_are_legal() {
    let mut m = Match::new(Game::with_komi(3, 0), Colour::White);
    let priors = vec![1u32; action_count(3)];
    for ply in 0..9 {
        let side = match m.to_search() {
            Some(s) => s,
            None => break,
        };
        for _ in 0..20 {
            assert!(m.rollout(side, &priors, 0));
        }
        let t = m.select_move(side, ply as u64 * 7919).unwrap();
        assert!(m.game.is_legal(&t));
        assert_eq!(m.commit(t), Ok(()));
    }
}
