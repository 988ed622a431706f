use vstd::prelude::*;

verus! {

/// Errors produced while converting or validating ProseMirror documents.
#[derive(Debug, Clone, PartialEq, Eq)]
#[non_exhaustive]
pub enum ProseMirrorError {
    /// A node, mark, or document field has an invalid shape.
    InvalidStructure(String),
    /// The document contains a node outside the supported shared schema.
    UnsupportedNode(String),
    /// The document contains a mark outside the supported shared schema.
    UnsupportedMark(String),
    /// Parsing failed before a ProseMirror document could be produced.
    ParseError(String),
}

/// The mathematical model of a [`ProseMirrorError`]: its kind and message.
pub enum ErrorSpec {
    InvalidStructure(Seq<char>),
    UnsupportedNode(Seq<char>),
    UnsupportedMark(Seq<char>),
    ParseError(Seq<char>),
}

impl View for ProseMirrorError {
    type V = ErrorSpec;

    open spec fn view(&self) -> ErrorSpec {
        match self {
            ProseMirrorError::InvalidStructure(m) => ErrorSpec::InvalidStructure(m@),
            ProseMirrorError::UnsupportedNode(m) => ErrorSpec::UnsupportedNode(m@),
            ProseMirrorError::UnsupportedMark(m) => ErrorSpec::UnsupportedMark(m@),
            ProseMirrorError::ParseError(m) => ErrorSpec::ParseError(m@),
        }
    }
}

impl ProseMirrorError {
    /// The error's text, as its `Display` would render it.
    pub fn message(&self) -> (r: String)
        ensures
            r@ == match self@ {
                ErrorSpec::InvalidStructure(m) => "Invalid document structure: "@ + m,
                ErrorSpec::UnsupportedNode(m) => "Unsupported node type: "@ + m,
                ErrorSpec::UnsupportedMark(m) => "Unsupported mark type: "@ + m,
                ErrorSpec::ParseError(m) => "Parse error: "@ + m,
            },
    {
        let (mut r, m) = match self {
            ProseMirrorError::InvalidStructure(m) => ("Invalid document structure: ".to_owned(), m),
            ProseMirrorError::UnsupportedNode(m) => ("Unsupported node type: ".to_owned(), m),
            ProseMirrorError::UnsupportedMark(m) => ("Unsupported mark type: ".to_owned(), m),
            ProseMirrorError::ParseError(m) => ("Parse error: ".to_owned(), m),
        };
        r.append(m.as_str());
        r
    }
}

/// The error for a document nested deeper than the converters descend.
pub open spec fn depth_error() -> ErrorSpec {
    ErrorSpec::InvalidStructure("Document nesting exceeds the maximum depth"@)
}

pub fn depth_exceeded() -> (e: ProseMirrorError)
    ensures
        e@ == depth_error(),
{
    ProseMirrorError::InvalidStructure("Document nesting exceeds the maximum depth".to_owned())
}

/// Whether a rendering step matches what its model gives: the output gains
/// the model's text, or, where the model has none, the step fails with the
/// depth error.
pub open spec fn rendered(r: Result<(), ProseMirrorError>, before: Seq<char>, after: Seq<char>, model: Option<Seq<char>>) -> bool {
    match model {
        Some(s) => r is Ok && after == before + s,
        None => r matches Err(e) && e@ == depth_error(),
    }
}

/// Text from two rendering steps in turn; none where either has none.
pub open spec fn opt_cat(a: Option<Seq<char>>, b: Option<Seq<char>>) -> Option<Seq<char>> {
    match a {
        Some(x) => match b {
            Some(y) => Some(x + y),
            None => None,
        },
        None => None,
    }
}

/// The error for a document whose root is not a `doc` node.
pub open spec fn root_error() -> ErrorSpec {
    ErrorSpec::InvalidStructure("Root must be doc"@)
}

pub fn root_not_doc() -> (e: ProseMirrorError)
    ensures
        e@ == root_error(),
{
    ProseMirrorError::InvalidStructure("Root must be doc".to_owned())
}

} // verus!
