//! The block outline of an AsciiDoc document, as the acdc parser sees it.
//!
//! acdc builds a full AST; extraction only needs the tree of sections and
//! delimited blocks with their styles and the lines of their delimiters, so
//! the parser's result is converted, node for node, into the plain values
//! below. acdc reports positions in the coordinates of the source text, and
//! line numbers survive its line-ending normalisation, so lines (not byte
//! offsets) are what the outline keeps.
use acdc_parser::DelimitedBlockType as T;
use vstd::prelude::*;

verus! {

/// The kind of a delimited block, as acdc classified it.
#[derive(Debug, Clone, Copy, PartialEq, Eq, Structural)]
pub enum BlockShape {
    Comment,
    Example,
    Listing,
    Literal,
    Open,
    Sidebar,
    Table,
    Pass,
    Quote,
    Verse,
    Stem,
    /// A kind this version of the outline does not name.
    Unknown,
}

/// A delimited block: its style, delimiter, the 1-based lines of its opening
/// and closing delimiters, and the blocks nested in it.
#[derive(Debug)]
pub struct DelimitedNode {
    pub style: Option<String>,
    pub delimiter: String,
    pub shape: BlockShape,
    pub open_line: Option<usize>,
    pub close_line: Option<usize>,
    pub children: Vec<OutlineNode>,
}

/// One block of the outline.
#[derive(Debug)]
pub enum OutlineNode {
    Section(Vec<OutlineNode>),
    Delimited(DelimitedNode),
    Other,
}

/// A diagnostic the parser recovered from: whether it reports a delimited
/// block left open until the end of the input, and its 1-based line.
#[derive(Debug)]
pub struct OutlineWarning {
    pub unterminated_block: bool,
    pub line: Option<usize>,
}

/// The outline of a parsed document.
#[derive(Debug)]
pub struct Outline {
    pub blocks: Vec<OutlineNode>,
    pub warnings: Vec<OutlineWarning>,
}

#[verifier::external_type_specification]
#[verifier::external_body]
pub struct ExAcdcBlock<'a>(acdc_parser::Block<'a>);

#[verifier::external_type_specification]
#[verifier::external_body]
pub struct ExAcdcDelimitedBlock<'a>(acdc_parser::DelimitedBlock<'a>);

#[verifier::external_type_specification]
#[verifier::external_body]
pub struct ExAcdcDelimitedBlockType<'a>(acdc_parser::DelimitedBlockType<'a>);

#[verifier::external_type_specification]
#[verifier::external_body]
pub struct ExAcdcWarning(acdc_parser::Warning);

/// Parses `source` with `acdc_parser::parse` under default options and
/// converts the document into an outline; a parse failure yields acdc's
/// message. Nothing is claimed of the outline: acdc's document attributes
/// include the local date and time, which conditional directives can test.
#[verifier::external_body]
pub(crate) fn acdc_outline_of(source: &str) -> (r: Result<Outline, String>) {
    match acdc_parser::parse(source, &acdc_parser::Options::default()) {
        Ok(parsed) => Ok(Outline {
            blocks: acdc_nodes(&parsed.document().blocks),
            warnings: parsed.warnings().iter().map(acdc_warning).collect(),
        }),
        Err(e) => Err(e.to_string()),
    }
}

/// Converts an acdc warning: whether it reports a delimited block left open
/// until the end, and the 1-based line acdc gives for it.
#[verifier::external_body]
fn acdc_warning(w: &acdc_parser::Warning) -> OutlineWarning {
    OutlineWarning {
        unterminated_block: matches!(
            w.kind,
            acdc_parser::WarningKind::UnterminatedDelimitedBlock { .. }
        ),
        line: w.location.as_ref().map(|l| l.location.start.line as usize),
    }
}

/// Converts a list of acdc blocks into outline nodes, one for one.
#[verifier::external_body]
fn acdc_nodes(blocks: &[acdc_parser::Block<'_>]) -> Vec<OutlineNode> {
    blocks.iter().map(acdc_node).collect()
}

/// Converts one acdc block: sections and delimited blocks keep their nested
/// blocks, every other block becomes `OutlineNode::Other`.
#[verifier::external_body]
fn acdc_node(b: &acdc_parser::Block<'_>) -> OutlineNode {
    match b {
        acdc_parser::Block::Section(s) => OutlineNode::Section(acdc_nodes(&s.content)),
        acdc_parser::Block::DelimitedBlock(d) => OutlineNode::Delimited(acdc_delimited(d)),
        _ => OutlineNode::Other,
    }
}

/// Converts an acdc delimited block: its style, delimiter text, variant,
/// delimiter lines and nested blocks.
#[verifier::external_body]
fn acdc_delimited(d: &acdc_parser::DelimitedBlock<'_>) -> DelimitedNode {
    DelimitedNode {
        style: d.metadata.style.map(str::to_owned),
        delimiter: d.delimiter.to_owned(),
        shape: acdc_shape(&d.inner),
        open_line: d.open_delimiter_location.as_ref().map(|l| l.start.line as usize),
        close_line: d.close_delimiter_location.as_ref().map(|l| l.start.line as usize),
        children: acdc_children(&d.inner),
    }
}

/// The nested blocks of the compound delimited block types.
#[verifier::external_body]
fn acdc_children(inner: &acdc_parser::DelimitedBlockType<'_>) -> Vec<OutlineNode> {
    match inner {
        T::DelimitedOpen(v) => acdc_nodes(v),
        T::DelimitedExample(v) => acdc_nodes(v),
        T::DelimitedSidebar(v) => acdc_nodes(v),
        T::DelimitedQuote(v) => acdc_nodes(v),
        _ => Vec::new(),
    }
}

/// Names the variant of an acdc delimited block type.
#[verifier::external_body]
fn acdc_shape(inner: &acdc_parser::DelimitedBlockType<'_>) -> BlockShape {
    match inner {
        T::DelimitedComment(_) => BlockShape::Comment,
        T::DelimitedExample(_) => BlockShape::Example,
        T::DelimitedListing(_) => BlockShape::Listing,
        T::DelimitedLiteral(_) => BlockShape::Literal,
        T::DelimitedOpen(_) => BlockShape::Open,
        T::DelimitedSidebar(_) => BlockShape::Sidebar,
        T::DelimitedTable(_) => BlockShape::Table,
        T::DelimitedPass(_) => BlockShape::Pass,
        T::DelimitedQuote(_) => BlockShape::Quote,
        T::DelimitedVerse(_) => BlockShape::Verse,
        T::DelimitedStem(_) => BlockShape::Stem,
        _ => BlockShape::Unknown,
    }
}

} // verus!
