//! A concurrent conformance-test runner for a compiler/emulator toolchain.
//!
//! The library holds the verified core: the codec for typed memory values,
//! the decoder for the emulator's console transcript, the planning and
//! verification steps of one test session, and the job dispatcher's
//! bookkeeping. Process handling, file loading and terminal rendering live
//! outside the library.

pub mod compiler;
pub mod config;
pub mod decoder;
pub mod emulator;
pub mod hex;
pub mod session;
pub mod tests;
pub mod threadpool;
