pub mod deck;
pub mod ranking;
pub mod ranks;
pub mod text;
pub mod games;
