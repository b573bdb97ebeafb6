//! Reassembly of a QUIC stream's incoming bytes.
//!
//! STREAM frames arrive reordered, duplicated and overlapping. The receive
//! buffer in this crate stores each byte of the stream once, hands the
//! application the gap-free run that starts at its read position, keeps the
//! buffered data within a flow-control window and holds the stream to its
//! final size. Every operation carries a contract over a mathematical model
//! of the buffer, and the laws that relate the operations are proved beside
//! them.
//!
//! - [`ranges`]: ranges of offsets and the sets they cover.
//! - [`gap_tracker`]: which offsets have been received.
//! - [`final_size`]: the final size of the stream.
//! - [`store`], [`ring_store`], [`chunk_store`], [`storage`]: where the
//!   bytes are kept.
//! - [`model`]: what a buffer is and what each operation makes of it.
//! - [`receive_buffer`]: the buffer itself.
//! - [`reassembly`]: the laws of reassembly.
//! - [`vec_buffer`]: the region of memory that holds datagrams.

pub mod chunk_store;
pub mod error;
pub mod final_size;
pub mod gap_tracker;
pub mod model;
pub mod ranges;
pub mod reassembly;
pub mod receive_buffer;
pub mod ring_store;
pub mod storage;
pub mod store;
pub mod vec_buffer;
