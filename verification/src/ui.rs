//! What the user interface decides before anything is drawn.

pub mod menu;
