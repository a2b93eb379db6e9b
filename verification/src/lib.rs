pub mod codec;
pub mod driver;
pub mod game;
mod rng;
