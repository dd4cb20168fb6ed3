//! Following one value through every container of a document account.

pub mod float;
pub mod order;
pub mod screens;
pub mod services;
pub mod single;
pub mod text;
pub mod text_map;
pub mod text_set;
pub mod update_check;
pub mod value;
