//! Verified core of the TPT visual engine: the compositing graph, container
//! and config formats, and the bookkeeping behind frame caches and texture
//! pools.

pub mod text;
pub mod error;
pub mod graph;
pub mod cube;
pub mod ocio;
pub mod effects;
pub mod assets;
pub mod nodes;
pub mod composite;
pub mod half;
pub mod texture_pool;
pub mod residency;
pub mod avi;
pub mod frame_layout;
pub mod playback;
pub mod shaders;
pub mod schedule;
