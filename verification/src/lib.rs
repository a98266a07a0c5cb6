//! Server-side renderer building blocks for webhub protocols.
//!
//! The library holds the verified parts of the webhub handler: HTML and
//! JSON escaping, the hydration bootstrap block, state projection and the
//! FAST 3 hydration plugin, all written against the [`ResponseWriter`]
//! streaming interface.

use vstd::prelude::*;

pub mod bootstrap;
pub mod document;
pub mod html_encode;
pub mod json;
pub mod options;
pub mod plugin;
pub mod render;
pub mod route;
pub mod scope;
pub mod state;
pub mod text;
pub mod writer;

pub use html_encode::encode_safe;
pub use options::RenderOptions;
pub use writer::{BufferWriter, ResponseWriter};

verus! {

/// Declares `std::io::Error`, carried by [`HandlerError::Io`], as an opaque
/// type.
#[verifier::external_type_specification]
#[verifier::external_body]
pub struct ExIoError(std::io::Error);

/// Error types for the webhub handler.
#[derive(Debug)]
pub enum HandlerError {
    Rendering(String),
    Invariant(String),
    MissingFragment(String),
    MissingData(String),
    TypeError(String),
    /// A protocol document could not be read; carries the protocol error's
    /// message.
    Protocol(String),
    Evaluation(String),
    Io(std::io::Error),
    Writer(String),
    PluginData(String),
    /// The HTTP client disconnected before the render completed.
    ClientDisconnected,
    /// The streaming writer's flush exceeded its configured deadline.
    StreamTimeout,
}

pub type Result<T> = std::result::Result<T, HandlerError>;

} // verus!
