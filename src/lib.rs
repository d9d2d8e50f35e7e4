//! Converts terminal output (text interleaved with ANSI/VT control
//! sequences) into styled HTML markup.
//!
//! The pipeline runs forward only: bytes are lexed into nodes
//! ([`nodes`]), SGR sequences are folded into style records ([`styles`]),
//! the styled text is reduced to the fewest style transitions ([`runs`])
//! and rendered as markup ([`markup`]). [`shellvetica`] is a smaller front
//! end over the same optimizer, with eight named foreground colors.
pub mod markup;
pub mod nodes;
pub mod runs;
pub mod shellvetica;
pub mod styles;
mod text;
