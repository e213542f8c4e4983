//! Lossless transcoding between the raw replay container and the compact
//! container: the raw event stream is transposed into byte planes before it is
//! handed to a block compressor, and restored bit for bit on the way back.
//!
//! - `stream`: the model of an event stream and of its planar layout.
//! - `table`: the self-describing table of payload sizes.
//! - `transpose`: the planar transpose and its inverse.
//! - `format`: where the sections of both containers lie.
//! - `codec`: raw file to compact file and back.
//! - `backend`: the reusable zstd contexts.
//! - `driver`: the decisions of the batch driver.
//! - `laws`: round trips and rejections that relate these operations.

pub mod backend;
pub mod bytes;
pub mod codec;
pub mod driver;
pub mod error;
pub mod format;
pub mod laws;
pub mod stream;
pub mod table;
pub mod transpose;

pub use backend::{Compressor, Decompressor};
pub use codec::{compact_parts, compress, decompress, rebuild_raw};
pub use driver::{is_target, target_mode, worker_slices, Options, MIN_THREADED_TARGETS, WORKERS};
pub use error::{CompError, DecompError, TargetPathError};
pub use format::{EVENT_PAYLOADS, GAME_START, VERSION};
pub use laws::{container_round_trip, transpose_round_trip, zero_size_command_rejected};
pub use table::event_sizes;
pub use transpose::{event_counts, reorder_events, unorder_events};
