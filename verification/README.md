# voxel_engine

A voxel engine whose core logic is written in Verus and proved against its
contracts; the window, the GPU and the file system are driven by an ordinary
Rust program around it.

## Layout

- `src/` — the verified library.
  - `engine/data.rs`: block types, vertices, and the packing of chunk
    positions into 64-bit keys (with round-trip and injectivity laws).
  - `engine/mesh.rs`, `engine/meshgen.rs`: face-culled meshing of a lone
    chunk and of a chunk with its six neighbours; the meshes are proved to
    hold exactly the visible faces, with indices that stay in range.
  - `engine/world.rs`, `game/world/`: chunk maps and block lookup by world
    coordinates.
  - `game/chunk/`: chunk storage (get after set) and the chunk manager that
    decides which chunks to load, generate, mesh and unload as the player
    moves.
  - `engine/mods/`: mod discovery filtering, priority ordering, and the block
    and texture registries.
  - `render/manager.rs`: the first-fit sub-allocator that places chunk meshes
    in the vertex and index megabuffers; the resource manager's invariant,
    kept by every update and unload, is that no two live meshes, and no live
    mesh and free region, share a byte.
  - `render/texture.rs`: decoding block texture files and stacking them into
    the layers of one texture array, behind the missing-texture checkerboard
    at layer 0.
  - `fx.rs`: the trusted interface to `rustc-hash` sets.
- `tests/` — tests that run the library on concrete values.
- `app/` — the program: window and input handling, the camera, frustum,
  player physics and terrain noise (floating point), the GPU device,
  pipelines and renderer, mod and texture loading from disk, and the worker
  threads that generate and mesh chunks.
