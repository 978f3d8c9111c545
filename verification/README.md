# duckforge

A deliberately small 2D/3D game engine, split in two.

- `src/` is the verified library: the engine's logic on whole numbers,
  with contracts proved by Verus. Colors and their
  `0x00RRGGBB` packing, the 3x5 pixel font, the xorshift random number
  generator, the keyboard's frame-to-frame state, the canvas's pixel grid
  (rectangles, Bresenham lines, text, BMP encoding, reading back a padded
  picture), the triangle layout of the built-in meshes, the fast hash and
  mesh sample of the GPU mesh cache (and when a cached mesh is dropped,
  where each batch lies in the instance buffer and how far that buffer
  grows), the bookkeeping of bodies in a physics
  world, and the per-frame decisions of the game loop.
- `app/` is ordinary Rust on top of it: the window and the game loop
  (`minifb`), the graphics card (`wgpu`), files, the clock, and everything
  that works in floating point (vectors, cameras, the CPU rasterizer,
  physics motion and collisions).
- `tests/` exercises the library on concrete values.

Two sets of the engine are kept as plain lists: the keys held in a frame
(a `Vec` that never lists a key twice, as a type invariant) and the
contacts of a physics step, whose repeats `first_of_each_pair` finds. A
`std::collections::HashSet` keyed by the engine's own `Key` or `BodyId`
type hashes through a derived `Hash` that Verus does not read, so nothing
could be proved of what such a set holds; the lists keep the same
behaviour and are verified.

What stays in `app/` on whole numbers is glue around outside state: the
mesh cache's lookup by memory address (a hash map of addresses, compared
by a derived `==` on samples) and the check that a canvas has pixels
before the graphics card is started.
