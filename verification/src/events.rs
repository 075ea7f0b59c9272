//! The document event stream consumed by the layout engine.
//!
//! Events are produced by an external markup parser and carry only plain
//! values: block and inline structure, raw text, and breaks.

use vstd::prelude::*;

verus! {

/// Column alignment declared by a table; recorded but not used for layout
/// (cells are always left-justified).
#[derive(Clone, Copy, Debug)]
pub enum Align {
    Default,
    Left,
    Center,
    Right,
}

/// A block or inline structure opened by a start event.
#[derive(Clone, Debug)]
pub enum MdTag {
    /// A heading with its level (1-based).
    Heading(u8),
    Paragraph,
    BlockQuote,
    /// A code block; the payload is the fenced language label, if any.
    CodeBlock(Option<String>),
    /// A list; the payload is the starting number of an ordered list,
    /// or `None` for an unordered list.
    List(Option<u64>),
    /// A list item.
    Item,
    Emphasis,
    Strong,
    Strikethrough,
    /// A link with its destination.
    Link(String),
    /// A table with its declared column alignments.
    Table(Vec<Align>),
    TableHead,
    TableRow,
    TableCell,
}

/// The structure closed by an end event.
#[derive(Clone, Copy, Debug)]
pub enum MdTagEnd {
    Heading,
    Paragraph,
    BlockQuote,
    CodeBlock,
    List,
    Item,
    Emphasis,
    Strong,
    Strikethrough,
    Link,
    Table,
    TableHead,
    TableRow,
    TableCell,
}

/// One document event.
#[derive(Clone, Debug)]
pub enum MdEvent {
    Start(MdTag),
    End(MdTagEnd),
    /// Raw text.
    Text(String),
    /// An inline code span.
    InlineCode(String),
    SoftBreak,
    HardBreak,
    Rule,
    /// A task-list checkbox with its checked state.
    TaskMarker(bool),
}

} // verus!
