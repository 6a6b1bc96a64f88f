pub mod buddy_alloc;
pub mod bmp;
pub mod buddy_laws;
pub mod contain_range;
pub mod gpos;
pub mod cooldown;
pub mod bytes;
pub mod dirty;
pub mod mem;
pub mod print;
pub mod rand;
pub mod reader;
pub mod ttf;
pub mod vec;
pub mod watched;
pub mod wav;
pub mod writer;
pub mod backtrace;
