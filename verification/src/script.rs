//! The hand that writes the reply: glyphs of a font, thinned to pen paths and
//! traced into strokes that are drawn one after another.

pub use crate::font::{FontStack, Placed};
pub use crate::thin::{thin, Line};
pub use crate::trace::trace;
pub use crate::wrap::{wrap, wrap_stack, wrap_tokens};
