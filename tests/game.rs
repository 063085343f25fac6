use tak_search::game::{evaluate_outcome, Game, GameResult, IllegalMove, Piece, WinReason};
use tak_search::turn::{Colour, Direction, Shape, Turn};

fn place(x: usize, y: usize) -> Turn {
    Turn::Place { x, y, shape: Shape::Flat }
}

fn play_all(game: &mut Game, turns: &[Turn]) {
    for t in turns {
        assert_eq!(game.play(*t), Ok(()));
    }
}

#[test]
fn opening_places_opponent_pieces() {
    let mut game = Game::with_komi(5, 0);
    play_all(&mut game, &[place(0, 0), place(4, 4)]);
    assert_eq!(game.board[0], vec![Piece { colour: Colour::Black, shape: Shape::Flat }]);
    assert_eq!(game.board[24], vec![Piece { colour: Colour::White, shape: Shape::Flat }]);
    assert_eq!(game.black_stones, 20);
    assert_eq!(game.white_stones, 20);
    assert_eq!(game.ply, 2);
    assert_eq!(game.to_move, Colour::White);
}

#[test]
fn opening_refuses_walls_and_capstones() {
    let mut game = Game::with_komi(5, 0);
    let before = game.clone();
    let wall = Turn::Place { x: 0, y: 0, shape: Shape::Standing };
    assert_eq!(game.play(wall), Err(IllegalMove));
    assert_eq!(game, before);
}

#[test]
fn illegal_move_leaves_state_unchanged() {
    let mut game = Game::with_komi(5, 2);
    play_all(&mut game, &[place(0, 0), place(4, 4), place(1, 1)]);
    let before = game.clone();
    assert_eq!(game.play(place(1, 1)), Err(IllegalMove));
    assert_eq!(game, before);
    assert_eq!(game.play(place(5, 0)), Err(IllegalMove));
    assert_eq!(game, before);
    // Black may not move White's stack.
    let spread = Turn::Spread { x: 1, y: 1, direction: Direction::Up, pattern: 1 };
    assert_eq!(game.play(spread), Err(IllegalMove));
    assert_eq!(game, before);
}

#[test]
fn five_flats_along_an_edge_make_a_road() {
    let mut game = Game::with_komi(5, 0);
    // Black places a white flat on a1 in the opening; White's own flats follow.
    play_all(
        &mut game,
        &[place(0, 4), place(0, 0), place(1, 0), place(0, 3), place(2, 0), place(1, 3), place(3, 0), place(2, 3)],
    );
    assert_eq!(game.winner(), GameResult::Ongoing);
    assert_eq!(game.play(place(4, 0)), Ok(()));
    assert_eq!(game.winner(), GameResult::Winner { colour: Colour::White, reason: WinReason::Road });
    // Nothing is accepted after the end.
    assert_eq!(game.play(place(4, 4)), Err(IllegalMove));
}

#[test]
fn wall_blocks_a_road() {
    let mut game = Game::with_komi(5, 0);
    play_all(&mut game, &[place(0, 4), place(0, 0), place(1, 0), place(0, 3), place(2, 0), place(1, 3)]);
    let wall = Turn::Place { x: 3, y: 0, shape: Shape::Standing };
    play_all(&mut game, &[wall, place(2, 3), place(4, 0)]);
    assert_eq!(game.winner(), GameResult::Ongoing);
}

fn checkerboard_game(komi: i32) -> Game {
    let mut game = Game::with_komi(3, komi);
    play_all(
        &mut game,
        &[place(1, 0), place(0, 0), place(2, 0), place(0, 1), place(1, 1), place(2, 1), place(0, 2), place(1, 2)],
    );
    assert_eq!(game.winner(), GameResult::Ongoing);
    assert_eq!(game.play(place(2, 2)), Ok(()));
    game
}

#[test]
fn full_board_goes_to_flats() {
    let game = checkerboard_game(0);
    assert_eq!(game.winner(), GameResult::Winner { colour: Colour::White, reason: WinReason::Flats });
}

#[test]
fn komi_can_make_a_draw() {
    let game = checkerboard_game(1);
    assert_eq!(game.winner(), GameResult::Draw);
}

#[test]
fn komi_can_turn_the_result() {
    let game = checkerboard_game(2);
    assert_eq!(game.winner(), GameResult::Winner { colour: Colour::Black, reason: WinReason::Flats });
}

#[test]
fn spread_moves_pieces_and_capstone_flattens_wall() {
    let mut game = Game::with_komi(5, 0);
    play_all(&mut game, &[place(4, 4), place(0, 0)]);
    let cap = Turn::Place { x: 2, y: 2, shape: Shape::Capstone };
    let wall = Turn::Place { x: 3, y: 2, shape: Shape::Standing };
    play_all(&mut game, &[cap, wall]);
    assert_eq!(game.white_caps, 0);
    let spread = Turn::Spread { x: 2, y: 2, direction: Direction::Right, pattern: 1 };
    assert_eq!(game.play(spread), Ok(()));
    assert!(game.board[12].is_empty());
    assert_eq!(
        game.board[13],
        vec![
            Piece { colour: Colour::Black, shape: Shape::Flat },
            Piece { colour: Colour::White, shape: Shape::Capstone },
        ]
    );
}

#[test]
fn flat_cannot_land_on_wall() {
    let mut game = Game::with_komi(5, 0);
    play_all(&mut game, &[place(4, 4), place(0, 0), place(2, 2)]);
    let wall = Turn::Place { x: 3, y: 2, shape: Shape::Standing };
    play_all(&mut game, &[wall, place(4, 0)]);
    let before = game.clone();
    // Black to move: its flat at e5 may not move onto anything illegal, and
    // White's flat at c3 is not Black's to move.
    let spread = Turn::Spread { x: 2, y: 2, direction: Direction::Right, pattern: 1 };
    assert_eq!(game.play(spread), Err(IllegalMove));
    assert_eq!(game, before);
    let off_board = Turn::Spread { x: 0, y: 0, direction: Direction::Left, pattern: 1 };
    assert_eq!(game.play(off_board), Err(IllegalMove));
    assert_eq!(game, before);
}

#[test]
fn stack_spreads_over_two_squares() {
    let mut game = Game::with_komi(5, 0);
    play_all(&mut game, &[place(4, 4), place(0, 0), place(1, 0), place(2, 0)]);
    // White moves a1 onto b1, making a two-piece stack.
    let onto = Turn::Spread { x: 0, y: 0, direction: Direction::Right, pattern: 1 };
    play_all(&mut game, &[onto, place(4, 3)]);
    // White spreads both pieces of b1: one on c1, one on d1.
    let split = Turn::Spread { x: 1, y: 0, direction: Direction::Right, pattern: 0b11 };
    assert_eq!(game.play(split), Ok(()));
    assert!(game.board[1].is_empty());
    assert_eq!(game.board[2].len(), 2);
    assert_eq!(game.board[3], vec![Piece { colour: Colour::White, shape: Shape::Flat }]);
}

#[test]
fn capstones_count_as_flats() {
    let w = Piece { colour: Colour::White, shape: Shape::Flat };
    let b = Piece { colour: Colour::Black, shape: Shape::Flat };
    let cap = Piece { colour: Colour::White, shape: Shape::Capstone };
    // A full board without roads: four white flats and a white capstone
    // against four black flats.
    let board = vec![vec![w], vec![b], vec![w], vec![b], vec![cap], vec![b], vec![w], vec![b], vec![w]];
    assert_eq!(evaluate_outcome(&board, 3, Colour::White, false, 1), GameResult::Draw);
    assert_eq!(
        evaluate_outcome(&board, 3, Colour::White, false, 0),
        GameResult::Winner { colour: Colour::White, reason: WinReason::Flats }
    );
}
