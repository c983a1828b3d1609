# winehouse

A small entity-component engine for the browser.

- `src/` is the verified library: generational entity handles (`entity`),
  the entity world and its type-keyed component store (`world`, `component`),
  the registry of scene objects that the renderer draws (`scene`), and the
  integer geometry and sizing rules the renderer relies on (`mesh`,
  `viewport`, `camera`).
- `app/` is the unverified shell: the wgpu deferred renderer, the orbit
  camera and mesh geometry (floating point), glTF loading, the serde forms
  of library types, and the `wasm-bindgen` entry points.
- `tests/` exercises the library.

The renderer's WGSL shaders are not part of this repository: `app/renderer.rs`
includes them from `extras/shaders/`, which has to be filled before the wasm
renderer builds.
