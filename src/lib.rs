//! First-person camera controls: validation of numeric text and the
//! bookkeeping of held input names that drives a camera each frame.
pub mod utils;
pub mod input;
pub mod controls;
