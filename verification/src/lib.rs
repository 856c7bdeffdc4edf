pub mod config;
pub mod rng;
pub mod tetris;
pub mod scoring;
pub mod ui;
pub mod rl;
pub mod ai;
pub mod tspin_recorder;
pub mod text;
pub mod opening;
pub mod gpu;
pub mod hip;
pub mod imitation;
pub mod knowledge;
pub mod server;
pub mod benchmark;
