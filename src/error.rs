use vstd::prelude::*;

verus! {

/// Every failure that an operation of this library can report.
#[derive(Clone, Debug, PartialEq, Eq)]
pub enum Error {
    /// The byte sink refused a write.
    Io,
    /// Text holds a character that code page 437 cannot represent.
    Cp437,
    /// An image scale outside `(0, 1]`.
    InvalidImageScale,
    /// A magnification component outside `[1, 8]`.
    InvalidCharMagnification,
    /// A spacing value above 255.
    InvalidSpacingParam,
    /// A Markdown tag that has no style tag.
    UnsupportedTag,
    /// An end tag that does not close the innermost open tag.
    UnexpectedTag,
    /// A Markdown event kind that the renderer does not handle.
    MarkdownEventUnimplemented,
    /// Text arrived while no tag was open.
    EmptyRenderTree,
    /// A selector names an unknown tag.
    InvalidRuleTag(String),
    /// A selector ends with the direct-child marker `>`.
    DanglingDirectChild,
    /// A selector without any token.
    EmptyRuleString,
}

} // verus!
