//! Load tags in a document are replaced by excerpts of other files,
//! re-indented and free of marker comments.

pub mod engine;
pub mod error;
pub mod indent;
pub mod marker;
pub mod tag;
pub mod text;

pub use engine::{inject, inject_loaded, inject_with_path, resolve, Load, Resolution};
pub use error::{ErrorType, IncorrectMarker, InjectError};
pub use indent::{normalize, remove_indent};
pub use marker::{extract, strip_marker_lines};
pub use tag::{count_loose_tags, find_tags, Tag};
