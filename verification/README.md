# tpt_visual

The verified core of the TPT visual engine, written in Verus.

`src/` is the library; every function in it is verified against its
contract:

- `graph`: the compositing graph (wiring, validation, Kahn ordering,
  execution order); `schedule`: the step-by-step execution of a graph
  (final target, forwarding, pooled targets and their release);
  `composite`: the per-frame graph built from the active clips.
- `cube`, `ocio`, `text`: the `.cube` LUT format, OCIO config scanning,
  and the text primitives they share.
- `texture_pool`, `residency`: render-target recycling and LRU GPU
  residency of decoded frames.
- `avi`: the MJPEG AVI muxer; `half`: single- to half-precision
  conversion for LUT uploads; `frame_layout`: readback and YUV plane
  layouts.
- `nodes`, `effects`, `shaders`, `playback`, `assets`, `error`: node
  descriptions and effect pass plans, the effect registry, shader names,
  prefetch windows, asset-side decisions, and error types.

`app/` is ordinary Rust around the library: the floating-point color and
effect math, the wgpu plumbing, AVI file export, and the UI/render
thread handoff. `tests/` exercises the library.
