//! Artifact storage service: the verified core.
pub mod api;
pub mod error;
pub mod path;
pub mod reply;
pub mod storage;
