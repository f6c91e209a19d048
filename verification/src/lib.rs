//! Core of a GPU compute-graph orchestrator: a packed-buffer memory planner,
//! a kernel-symbol scanner for JIT source, a device-graph recorder with two
//! equivalent recording modes, a model of device memory with virtual-address
//! remapping, and a staged weight loader.
//!
//! The vendor driver is out of scope: device memory, graphs and streams are
//! modelled as explicit state, and replaying a recorded copy graph against
//! that state is verified against the same contracts the driver documents.

pub mod devmem;
pub mod error;
pub mod graph;
pub mod loader;
pub mod memcpy;
pub mod planner;
pub mod shape;
pub mod symbol;
