pub mod buffer_alloc;
pub mod font;
pub mod gpu_alloc;
pub mod guillotine;
pub mod image_loader;
pub mod packer;
pub mod pipeline;
pub mod texture_atlas;
