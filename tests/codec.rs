use tak_search::codec::{action_count, decode, encode, patterns};
use tak_search::turn::{Direction, Shape, Turn};

#[test]
fn action_space_sizes() {
    assert_eq!(patterns(5), 31);
    assert_eq!(action_count(3), 3 * 9 + 4 * 9 * 7);
    assert_eq!(action_count(5), 3 * 25 + 4 * 25 * 31);
    assert_eq!(action_count(8), 3 * 64 + 4 * 64 * 255);
}

#[test]
fn decode_then_encode_is_identity() {
    for n in 3..=8 {
        for i in 0..action_count(n) {
            let t = decode(n, i).unwrap();
            assert_eq!(encode(n, &t), i);
        }
        assert_eq!(decode(n, action_count(n)), None);
    }
}

#[test]
fn encode_then_decode_is_identity() {
    let t = Turn::Spread { x: 2, y: 4, direction: Direction::Left, pattern: 0b10110 };
    let i = encode(5, &t);
    assert_eq!(decode(5, i), Some(t));
    let p = Turn::Place { x: 4, y: 1, shape: Shape::Capstone };
    assert_eq!(encode(5, &p), (1 * 5 + 4) * 3 + 2);
    assert_eq!(decode(5, encode(5, &p)), Some(p));
}

#[test]
fn first_spread_index_follows_placements() {
    let t = Turn::Spread { x: 0, y: 0, direction: Direction::Up, pattern: 1 };
    assert_eq!(encode(5, &t), 75);
}
