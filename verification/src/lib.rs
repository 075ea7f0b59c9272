//! Renders a stream of structural document events (headings, paragraphs,
//! lists, tables, code blocks, emphasis, links) into fixed-width, optionally
//! colorized lines of text for a character terminal, and provides the
//! navigation state machine and status-bar layout of an interactive pager.

pub mod events;
pub mod numfmt;
pub mod pager;
pub mod renderer;
pub mod style;
pub mod wrap;
