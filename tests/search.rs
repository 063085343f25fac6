use tak_search::clock::sys_time;
use tak_search::game::GameResult;
use tak_search::pit::{pit, PitResult};
use tak_search::tree::{isqrt, Node};
use tak_search::turn::{Colour, Shape, Turn};
use tak_search::game::WinReason;

fn place(x: usize, y: usize) -> Turn {
    Turn::Place { x, y, shape: Shape::Flat }
}

fn expanded_root() -> Node {
    let mut node = Node::new();
    node.entries[0].visits = 1;
    node.expand(0, &vec![place(0, 0), place(1, 0), place(2, 0)], &vec![200_000, 500_000, 300_000]);
    node
}

#[test]
fn integer_square_root() {
    assert_eq!(isqrt(0), 0);
    assert_eq!(isqrt(15), 3);
    assert_eq!(isqrt(16), 4);
    assert_eq!(isqrt(u32::MAX), 65535);
}

#[test]
fn expansion_adds_children_in_order() {
    let node = expanded_root();
    assert_eq!(node.entries.len(), 4);
    assert_eq!(node.entries[0].children, vec![1, 2, 3]);
    assert_eq!(node.entries[2].turn, place(1, 0));
    assert_eq!(node.entries[2].policy, 500_000);
    assert_eq!(node.entries[2].visits, 0);
}

#[test]
fn backup_counts_visits_and_flips_sign() {
    let mut node = expanded_root();
    assert!(node.backup(&vec![0], 100));
    let path = node.select_path();
    assert_eq!(path, vec![0, 2]);
    assert!(node.backup(&path, 400));
    assert_eq!(node.entries[0].visits, 3);
    assert_eq!(node.entries[0].reward_sum, 100 - 400);
    assert_eq!(node.entries[2].visits, 1);
    assert_eq!(node.entries[2].reward_sum, 400);
    assert_eq!(node.mean_reward(0), -100);
}

#[test]
fn backup_refuses_full_counter() {
    let mut node = Node::new();
    node.entries[0].visits = u32::MAX;
    assert!(!node.backup(&vec![0], 5));
    assert_eq!(node.entries[0].reward_sum, 0);
}

#[test]
fn visits_equal_rollouts_through_node() {
    let mut node = expanded_root();
    for k in 1..=10u32 {
        let path = node.select_path();
        assert!(node.backup(&path, 0));
        assert_eq!(node.entries[0].visits, k + 1);
    }
    let below: u32 = (1..4).map(|i| node.entries[i].visits).sum();
    assert_eq!(below, 10);
}

#[test]
fn pick_move_prefers_visits_then_prior_then_order() {
    let mut node = expanded_root();
    assert_eq!(node.pick_move(), place(1, 0));
    node.entries[1].visits = 3;
    assert_eq!(node.pick_move(), place(0, 0));
    node.entries[3].visits = 3;
    node.entries[3].policy = 200_000;
    assert_eq!(node.pick_move(), place(0, 0));
    assert_eq!(node.pick_move(), node.pick_move());
}

#[test]
fn continuation_is_bounded_by_depth() {
    let mut node = expanded_root();
    for i in 0..4 {
        node.entries[i].visits = 10;
    }
    node.expand(2, &vec![place(3, 3), place(4, 4)], &vec![600_000, 400_000]);
    node.entries[4].visits = 11;
    node.entries[5].visits = 10;
    assert_eq!(node.continuation(0, 0), Vec::<Turn>::new());
    assert_eq!(node.continuation(0, 1), vec![place(1, 0)]);
    assert_eq!(node.continuation(0, 5), vec![place(1, 0), place(3, 3)]);
    // Ongoing positions with fewer visits than the minimum end the line.
    assert_eq!(node.continuation(10, 5), vec![place(1, 0), place(3, 3)]);
    assert_eq!(node.continuation(11, 5), Vec::<Turn>::new());
}

#[test]
fn play_keeps_the_chosen_subtree() {
    let mut node = expanded_root();
    node.entries[2].visits = 7;
    node.expand(2, &vec![place(3, 3)], &vec![1_000_000]);
    let next = node.play(&place(1, 0));
    assert_eq!(next.entries[next.root].visits, 7);
    assert_eq!(next.entries[next.root].turn, place(1, 0));
    assert_eq!(next.entries[next.root].children.len(), 1);
    assert_eq!(next.pick_move(), place(3, 3));
}

#[test]
fn play_of_unknown_move_starts_afresh() {
    let node = expanded_root();
    let next = node.play(&place(4, 4));
    assert_eq!(next.entries.len(), 1);
    assert_eq!(next.entries[0].visits, 0);
}

#[test]
fn pit_tallies_both_colours() {
    let white_win = GameResult::Winner { colour: Colour::White, reason: WinReason::Road };
    let black_win = GameResult::Winner { colour: Colour::Black, reason: WinReason::Flats };
    let games = vec![(white_win, black_win), (white_win, white_win), (GameResult::Draw, black_win)];
    let r = pit(&games);
    assert_eq!(r, PitResult { wins: 4, draws: 1, losses: 1 });
    assert_eq!(pit(&vec![]), PitResult { wins: 0, draws: 0, losses: 0 });
}

#[test]
fn pit_result_update_ignores_ongoing() {
    let mut r = PitResult::new();
    r.update(GameResult::Ongoing, Colour::White);
    assert_eq!(r, PitResult::new());
    r.update(GameResult::Draw, Colour::Black);
    assert_eq!(r.draws, 1);
}

#[test]
fn clock_is_after_epoch() {
    assert!(sys_time() > 1_600_000_000);
}

use tak_search::game::Game;
use tak_search::tree::MAX_CONTINUATION_LEN;

fn uniform_priors(n: usize) -> Vec<u32> {
    vec![1; tak_search::codec::action_count(n)]
}

#[test]
fn rollout_expands_root_with_legal_moves() {
    let game = Game::with_komi(3, 0);
    let mut node = Node::new();
    let (path, leaf) = node.descend(&game).unwrap();
    assert_eq!(path, vec![0]);
    assert!(node.finish(&path, &leaf, &uniform_priors(3), 250));
    // Nine first placements, each a flat.
    assert_eq!(node.entries[0].children.len(), 9);
    assert_eq!(node.entries[0].visits, 1);
    assert_eq!(node.entries[0].reward_sum, 250);
    let priors: Vec<u32> = node.entries[0].children.iter().map(|&c| node.entries[c].policy).collect();
    assert_eq!(priors[0], 111_112);
    assert!(priors[1..].iter().all(|&p| p == 111_111));
    assert_eq!(priors.iter().sum::<u32>(), 1_000_000);
    let (path, leaf) = node.descend(&game).unwrap();
    assert_eq!(path.len(), 2);
    assert_eq!(leaf.ply, 1);
    assert!(node.finish(&path, &leaf, &uniform_priors(3), -100));
    assert_eq!(node.entries[0].visits, 2);
    assert_eq!(node.entries[0].reward_sum, 250 + 100);
    assert_eq!(node.entries[path[1]].reward_sum, -100);
}

#[test]
fn priors_are_renormalized_over_legal_moves() {
    let game = Game::with_komi(3, 0);
    let mut priors = vec![0; tak_search::codec::action_count(3)];
    // Index 0 is a flat on a1, index 1 a wall there (illegal in the opening).
    priors[0] = 3;
    priors[1] = 1000;
    priors[3] = 1;
    let mut node = Node::new();
    let (path, leaf) = node.descend(&game).unwrap();
    assert!(node.finish(&path, &leaf, &priors, 0));
    let first = node.entries[0].children[0];
    let second = node.entries[0].children[1];
    assert_eq!(node.entries[first].policy, 750_000);
    assert_eq!(node.entries[second].policy, 250_000);
}

#[test]
fn terminal_leaf_backs_up_game_result() {
    let mut game = Game::with_komi(3, 0);
    for t in [place(1, 0), place(0, 0), place(2, 0), place(0, 1), place(1, 1), place(2, 1), place(0, 2), place(1, 2), place(2, 2)] {
        game.play(t).unwrap();
    }
    assert_eq!(game.winner(), GameResult::Winner { colour: Colour::White, reason: WinReason::Flats });
    let mut node = Node::new();
    let (path, leaf) = node.descend(&game).unwrap();
    assert!(node.finish(&path, &leaf, &uniform_priors(3), 0));
    // Black is to move and has lost.
    assert_eq!(node.entries[0].reward_sum, -1000);
    assert!(node.entries[0].children.is_empty());
    assert_eq!(node.entries[0].result, game.winner());
}

#[test]
fn legal_moves_of_a_fresh_board() {
    let game = Game::with_komi(5, 0);
    let moves = game.legal_moves();
    assert_eq!(moves.len(), 25);
    assert!(moves.iter().all(|t| matches!(t, Turn::Place { shape: Shape::Flat, .. })));
}

#[test]
fn duplicate_is_independent() {
    let mut game = Game::with_komi(4, 0);
    let copy = game.duplicate();
    game.play(place(0, 0)).unwrap();
    assert_eq!(copy, Game::with_komi(4, 0));
    assert_ne!(copy, game);
}

#[test]
fn noise_mixes_priors() {
    let mut node = expanded_root();
    node.apply_noise(&vec![1_000_000, 0, 0], 250_000);
    assert_eq!(node.entries[1].policy, 400_000);
    assert_eq!(node.entries[2].policy, 375_000);
    assert_eq!(node.entries[3].policy, 225_000);
    let sum: u32 = (1..4).map(|i| node.entries[i].policy).sum();
    assert_eq!(sum, 1_000_000);
}

#[test]
fn noise_without_weight_keeps_priors() {
    let mut node = expanded_root();
    node.apply_noise(&vec![1_000_000, 0, 0], 0);
    assert_eq!(node.entries[1].policy, 200_000);
    assert_eq!(node.entries[2].policy, 500_000);
    assert_eq!(node.entries[3].policy, 300_000);
}

#[test]
fn sampled_move_follows_visit_shares() {
    let mut node = expanded_root();
    node.entries[1].visits = 2;
    node.entries[2].visits = 0;
    node.entries[3].visits = 3;
    assert_eq!(node.pick_move_sampled(0), place(0, 0));
    assert_eq!(node.pick_move_sampled(1), place(0, 0));
    assert_eq!(node.pick_move_sampled(2), place(2, 0));
    assert_eq!(node.pick_move_sampled(4), place(2, 0));
    assert_eq!(node.pick_move_sampled(5), place(0, 0));
}

#[test]
fn sampled_move_without_visits_is_the_best() {
    let node = expanded_root();
    assert_eq!(node.pick_move_sampled(12345), place(1, 0));
}

#[test]
fn debug_report_is_sorted_and_limited() {
    let mut node = expanded_root();
    node.entries[1].visits = 5;
    node.entries[2].visits = 9;
    node.entries[3].visits = 7;
    node.entries[3].reward_sum = -700;
    let rows = node.debug(None);
    assert_eq!(rows.len(), 3);
    assert_eq!(rows.iter().map(|r| r.visits).collect::<Vec<_>>(), vec![9, 7, 5]);
    assert_eq!(rows[1].turn, place(2, 0));
    assert_eq!(rows[1].expected_reward, -100);
    assert_eq!(rows[1].policy, 300_000);
    assert!(rows[0].continuation.len() <= MAX_CONTINUATION_LEN);
    let top = node.debug(Some(1));
    assert_eq!(top.len(), 1);
    assert_eq!(top[0].turn, place(1, 0));
    assert_eq!(Node::new().debug(Some(4)).len(), 0);
}

#[test]
fn opening_mirrors_corners() {
    let game = Game::with_komi(5, 0);
    assert_eq!(game.opening(4), vec![place(0, 0), place(4, 0)]);
    assert_eq!(game.opening(7), vec![place(0, 0), place(4, 4)]);
}

#[test]
fn policy_initialized_after_expansion() {
    let mut node = Node::new();
    assert!(!node.is_policy_initialized(0));
    assert!(node.is_game_ongoing(0));
    node.entries[0].visits = 1;
    node.expand(0, &vec![place(0, 0)], &vec![1_000_000]);
    assert!(node.is_policy_initialized(0));
    assert!(!node.is_policy_initialized(1));
}
