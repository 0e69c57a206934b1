//! Locating a byte pattern in the memory of another process, read window by window.
pub mod laws;
pub mod locate;
pub mod remote;
pub mod scan;
pub mod window;
