pub mod animation;
pub mod board;
pub mod grid_math;
pub mod text;
pub mod theorems;
