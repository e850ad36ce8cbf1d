pub mod items;
pub mod world;
pub mod inventory;
pub mod recipes;
pub mod blueprint;
pub mod input;
pub mod config;
pub mod placement;
pub mod drag;
pub mod paste;
