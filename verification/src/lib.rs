//! Marshaling and orchestration layer for an external sequence-clustering
//! engine.
//!
//! The engine itself is an opaque native call made by the surrounding
//! application; this crate holds everything around that call that can be
//! stated and proved: the exchange codec that writes the engine's input
//! file format and parses its output file format, the session-context
//! allocation accounting, and the decisions of the clustering session
//! (argument validation, status-code translation).

use vstd::prelude::*;

pub mod codec;
pub mod context;
pub mod sequence_set;
pub mod session;

pub use codec::decode_output;
pub use codec::encode_set;
pub use codec::split_line;
pub use codec::StarcodeAlignment;
pub use context::StarcodeContext;
pub use sequence_set::WeightedSequenceSet;
pub use session::check_path_encodable;
pub use session::complete_invocation;
pub use session::interpret_engine_status;
pub use session::prepare_invocation;
pub use session::validate_max_distance;

verus! {

/// The typed failures a clustering session can surface.
#[derive(Clone, Copy, PartialEq, Eq, Structural, Debug)]
pub enum AlignError {
    /// A caller-supplied argument violated a precondition
    /// (a negative maximum distance).
    InvalidArgument,
    /// A file could not be created, written, opened or read.
    IoError,
    /// A path could not be represented as null-terminated text.
    EncodingError,
    /// The native engine returned a non-zero status code.
    EngineError(i32),
    /// An output line was malformed: empty center or unparseable count.
    FormatError,
}

} // verus!
