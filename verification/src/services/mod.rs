//! What the application knows how to do, apart from reaching the outside
//! world and drawing on the screen.

pub mod az;
pub mod blocks;
pub mod cache;
pub mod cosmos;
pub mod discover;
pub mod document;
pub mod env;
pub mod grouping;
pub mod history;
pub mod keys;
pub mod linking;
pub mod nodes;
pub mod outcomes;
pub mod paths;
pub mod relane;
pub mod roles;
pub mod sampling;
pub mod shapes;
pub mod time;
pub mod trace;
