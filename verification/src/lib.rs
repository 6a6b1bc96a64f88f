pub mod buddy_alloc;
pub mod event;
pub mod gfx;
pub mod input;
pub mod midi;
pub mod print;
pub mod qoi;
pub mod rand;
pub mod util;
pub mod vulkan;
