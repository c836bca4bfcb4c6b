//! Note interpretation and song recognition for an ocarina listener.

pub mod display;
pub mod gui;
pub mod laws;
pub mod notes;
pub mod order;
pub mod songs;
pub mod splash;
pub mod text;
