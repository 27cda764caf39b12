//! A generator of Rust bindings for IANA protocol registries: it reads the
//! IANA index and the XML snapshots of registry groups, and writes one
//! module of typed registries per group.

pub mod cli;
pub mod error;
pub mod fetch;
pub mod names;
pub mod numbers;
pub mod order;
pub mod registry;
pub mod render;
pub mod snapshot;
pub mod tables;
pub mod text;
pub mod values;
pub mod xml;

pub use registry::{Record, Registry, RegistryGroup, RegistryInfo, Status};
