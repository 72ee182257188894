//! Layout of compiler diagnostics as grids of styled text.
use vstd::prelude::*;

pub mod grid;
pub mod text;
pub mod styled_buffer;
pub mod codemap;
pub mod compiler_message;
pub mod annotations;
pub mod layout;
pub mod render_succinct;
pub mod error_reporter;
pub mod text_buffer_2d;
pub mod laws;
