pub mod content;
pub mod engine;
pub mod guards;
pub mod laws;
pub mod matching;
pub mod model;
pub mod network;
pub mod players;
pub mod scoring;
pub mod session;
pub mod snapshot;
pub mod text;
