//! What the screens decide, apart from drawing.

pub mod home;
pub mod trace_view;
pub mod welcome;
