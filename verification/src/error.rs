//! What can go wrong while tags are resolved.

use vstd::prelude::*;

verus! {

/// A marker that delimits no region in the file it was looked for in.
#[derive(Debug, PartialEq)]
pub struct IncorrectMarker {
    /// The name of the marker.
    pub marker: String,
    /// The path of the file as the tag declares it.
    pub filepath: String,
}

/// An error met while text was injected.
#[derive(Debug, PartialEq)]
pub enum ErrorType {
    /// A load tag of the source text does not follow the strict grammar.
    IncorrectTag,
    /// The file at the given path, the resolved one, could not be read.
    IncorrectPath(String),
    /// The marker delimits no region in its file.
    IncorrectMarker(IncorrectMarker),
}

/// An error over mathematical values.
pub enum ErrorView {
    IncorrectTag,
    IncorrectPath(Seq<char>),
    IncorrectMarker { marker: Seq<char>, filepath: Seq<char> },
}

impl View for ErrorType {
    type V = ErrorView;

    open spec fn view(&self) -> ErrorView {
        match self {
            ErrorType::IncorrectTag => ErrorView::IncorrectTag,
            ErrorType::IncorrectPath(path) => ErrorView::IncorrectPath(path@),
            ErrorType::IncorrectMarker(m) => ErrorView::IncorrectMarker {
                marker: m.marker@,
                filepath: m.filepath@,
            },
        }
    }
}

/// A failed injection: the errors, and the text as far as it could be built.
#[derive(Debug)]
pub struct InjectError {
    /// The source text with every strict tag replaced: by its excerpt, or by
    /// nothing where the tag could not be resolved. Marker comments are
    /// still in it.
    pub result: Option<String>,
    /// The errors in the order in which they were met: one for each tag that
    /// could not be resolved, then at most one `IncorrectTag`.
    pub errors: Vec<ErrorType>,
}

/// A failed injection over mathematical values.
pub struct InjectErrorView {
    pub result: Option<Seq<char>>,
    pub errors: Seq<ErrorView>,
}

/// The views of the errors in a vector.
pub open spec fn error_views(v: Seq<ErrorType>) -> Seq<ErrorView> {
    v.map_values(|e: ErrorType| e@)
}

impl View for InjectError {
    type V = InjectErrorView;

    open spec fn view(&self) -> InjectErrorView {
        InjectErrorView {
            result: match self.result {
                Some(text) => Some(text@),
                None => None,
            },
            errors: error_views(self.errors@),
        }
    }
}

} // verus!
