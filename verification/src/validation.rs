//! Checks of what a payload holds.

pub mod climate;
