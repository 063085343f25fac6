pub mod clock;
pub mod codec;
pub mod game;
pub mod pit;
pub mod player;
pub mod tree;
pub mod turn;
