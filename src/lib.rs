//! A minimal local snapshot store: content-addressed objects, a staging
//! index of tracked paths, and linked commits built from that index.
//!
//! The library holds the logic that decides what is stored and where; the
//! program around it performs the file reads and writes it asks for.
pub mod commit;
pub mod digest;
pub mod error;
pub mod index;
pub mod stage;
pub mod store;
pub mod text;
pub mod utils;
