//! Requirement records in AsciiDoc: extraction, validation and surgical
//! rewriting of the attribute lines above requirement blocks.
//!
//! `extract` locates requirement blocks by byte spans in the source;
//! `emit::plan` and `emit::apply_edits` splice edited attribute lines back
//! into the source bytes, and every byte outside an edited attribute line
//! passes through untouched.
use vstd::prelude::*;

pub mod text;
pub mod quoting;
pub mod lines;
pub mod outline;
pub mod extract;
pub mod record;
pub mod check;
pub mod emit;
pub mod show;
pub mod edit;
pub mod listing;

use crate::text::{push_str, str_to_string};

verus! {

/// One parsed item inside an attribute line.
///
/// Style and id come from the positional grammar `[style#id]`; named keys are
/// `name=value`. `Raw` items are re-emitted verbatim.
#[derive(Debug, Clone, PartialEq)]
pub enum Item {
    Style(String),
    Id(String),
    Kv { name: String, value: String },
    Raw(String),
}

/// The mathematical value of an [`Item`].
pub enum ItemView {
    Style(Seq<char>),
    Id(Seq<char>),
    Kv { name: Seq<char>, value: Seq<char> },
    Raw(Seq<char>),
}

impl View for Item {
    type V = ItemView;

    open spec fn view(&self) -> ItemView {
        match self {
            Item::Style(s) => ItemView::Style(s@),
            Item::Id(s) => ItemView::Id(s@),
            Item::Kv { name, value } => ItemView::Kv { name: name@, value: value@ },
            Item::Raw(s) => ItemView::Raw(s@),
        }
    }
}

/// The views of a sequence of items.
pub open spec fn items_view(items: Seq<Item>) -> Seq<ItemView> {
    items.map_values(|i: Item| i@)
}

/// One `[...]` attribute line above a requirement block.
#[derive(Debug, Clone, PartialEq)]
pub struct AttrLine {
    /// Byte offset of the first byte of the line.
    pub start: usize,
    /// Byte offset one past the last byte of the line (exclusive of the line
    /// terminator).
    pub end: usize,
    /// The line as it appears in the source, without the terminator.
    pub raw: String,
    pub items: Vec<Item>,
}

/// A byte range `start..end` of a source file.
#[derive(Debug, Clone, Copy, PartialEq, Eq, Structural)]
pub struct Span {
    pub start: usize,
    pub end: usize,
}

/// A requirement record located in one file.
#[derive(Debug, Clone, PartialEq)]
pub struct Record {
    /// Path exactly as passed to `extract`.
    pub file: String,
    pub id: String,
    /// Byte span of the whole record region: first attribute line through the
    /// closing delimiter line, end exclusive.
    pub span: Span,
    /// Attribute lines in source order; the first carries the style and id.
    pub attr_lines: Vec<AttrLine>,
    /// The block delimiter as written (`--`).
    pub delim: String,
    /// Raw body bytes between the delimiters, excluding the delimiter lines.
    pub body_raw: String,
}

/// Everything that can go wrong, each with a message naming what and where.
#[derive(Debug)]
pub enum Error {
    /// The source is not a well-formed set of requirement blocks.
    Parse(String),
    /// A file could not be read or written.
    Io(String),
    /// A record set could not be read as JSON.
    Json(String),
    /// A requested change has no faithful representation in the file.
    Unrepresentable(String),
    /// An argument or a record breaks a rule of the vocabulary.
    Validation(String),
    /// A file or record the caller named could not be resolved to exactly one
    /// target.
    Missing(String),
}

/// The human-readable message of an error: a prefix naming parse, I/O,
/// JSON and unrepresentable errors, then the error's own text.
pub open spec fn message_text(e: Error) -> Seq<char> {
    match e {
        Error::Parse(m) => "parse error: "@ + m@,
        Error::Io(m) => "io error: "@ + m@,
        Error::Json(m) => "json error: "@ + m@,
        Error::Unrepresentable(m) => "unrepresentable: "@ + m@,
        Error::Validation(m) => m@,
        Error::Missing(m) => m@,
    }
}

impl Error {
    /// The human-readable message, as `vaire` prints it.
    pub fn message(&self) -> (r: String)
        ensures
            r@ == message_text(*self),
    {
        let (prefix, m) = match self {
            Error::Parse(m) => ("parse error: ", m),
            Error::Io(m) => ("io error: ", m),
            Error::Json(m) => ("json error: ", m),
            Error::Unrepresentable(m) => ("unrepresentable: ", m),
            Error::Validation(m) => ("", m),
            Error::Missing(m) => ("", m),
        };
        let mut r = str_to_string(prefix);
        push_str(&mut r, m.as_str());
        proof {
            reveal_strlit("");
            assert(""@ + m@ =~= m@);
        }
        r
    }
}

} // verus!
