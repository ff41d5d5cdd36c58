//! Party Quiz game logic: the rules, the phone endpoint, and question packs.
pub mod board;
pub mod effects;
pub mod manifest_params;
pub mod model;
pub mod pack;
pub mod server;
pub mod text;
