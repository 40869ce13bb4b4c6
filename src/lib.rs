//! Display switching policy: decides which outputs are turned on or off,
//! picks a common resolution and assigns display controllers.

pub mod allocator;
pub mod commands;
pub mod listing;
pub mod randr;
pub mod screen;
pub mod sway;
pub mod switch;
pub mod text;
pub mod xrandr;
