//! Error types of the engine and the GPU adapter description.

use vstd::prelude::*;

verus! {

/// Declares `std::io::Error` so that errors can carry an I/O failure.
#[verifier::external_type_specification]
#[verifier::external_body]
pub struct ExIoError(std::io::Error);

/// Errors surfaced by the compositor.
#[derive(Debug)]
pub enum CompositorError {
    /// A GPU operation failed.
    Gpu(String),
    /// No GPU adapter is available.
    NoDevice,
    /// A rendering input or stage was misconfigured.
    InvalidOperation(String),
    /// Frame/asset data was not usable.
    Decode(String),
    /// An I/O failure.
    Io(std::io::Error),
}

/// Errors of the color crate (LUT loading and validation).
#[derive(Debug)]
pub enum VisualError {
    /// The input was rejected; the message says why.
    InvalidOperation(String),
    /// An I/O failure.
    Io(std::io::Error),
}

/// Human-readable GPU adapter description, for environment probes and
/// diagnostics.
#[derive(Debug, Clone, PartialEq, Eq)]
pub struct GpuInfo {
    /// Adapter name (e.g. "NVIDIA GeForce RTX 4070").
    pub adapter: String,
    /// Backend actually in use (Vulkan, Metal, D3D12, GL, ...).
    pub backend: String,
    /// Device type (DiscreteGpu, IntegratedGpu, Cpu, ...).
    pub device_type: String,
    /// Driver version string, when reported.
    pub driver: String,
}

/// A GPU error carrying `msg`.
pub fn _gpu_error(msg: &str) -> (e: CompositorError)
    ensures
        e matches CompositorError::Gpu(m) && m@ == msg@,
{
    CompositorError::Gpu(msg.to_owned())
}

} // verus!
