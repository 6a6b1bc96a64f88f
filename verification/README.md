# silk_engine

The data formats, allocators, packers and text machinery of a small 2D graphics engine,
written in Verus and proved against their specifications.

## Layout

- `src/` — the verified library:
  - `qoi`, `util::bmp`, `util::wav`: image and sound codecs, each with a round-trip law.
  - `util::ttf`, `util::gpos`, `gfx::font`: TrueType reading (tables, character maps, simple
    and composite glyphs, metrics, `kern` and GPOS kerning) and glyph lookup by character.
  - `buddy_alloc`, `util::buddy_alloc`, `util::buddy_laws`, `util::contain_range`,
    `gfx::buffer_alloc`, `gfx::gpu_alloc`: allocators and the bookkeeping around them.
  - `gfx::guillotine`, `gfx::packer`, `gfx::texture_atlas`: rectangle packers, with the law that
    no placement ever overlaps another, and the placement of images in a texture atlas.
  - `input`, `midi`, `event`, `vulkan`: input state, MIDI message parsing, event dispatch
    order, device, queue, extension and swapchain choices and texel sizes of formats.
  - `util::{reader, writer, bytes, mem, vec, rand, dirty, watched, cooldown, print, backtrace}`,
    `print`, `rand`: smaller utilities, among them the callers read off a backtrace's text.
- `tests/`: tests of the library on concrete values.
- `app/`: ordinary Rust around the library: file access, logging, calling event subscribers by
  address, and the parts decided by `f32` arithmetic (text layout, signed distance fields,
  packing scores, sample conversion).
