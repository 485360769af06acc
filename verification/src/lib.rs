//! A desktop pet's logic: the animation state driven by key events, the
//! parsing of the input event stream and of the spritesheet atlas, and the
//! pixel work that prepares each sprite frame for display.

pub mod animation;
pub mod text;
pub mod input;
pub mod spritesheet;
pub mod atlas;
pub mod pixels;
pub mod layer;
