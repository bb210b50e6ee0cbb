//! A small file-based blog engine: posts carry a four-line header and a
//! Markdown body; publishing turns each post into an HTML artifact.
pub mod document;
pub mod publish;
pub mod timestamp;

pub use document::{
    LineKind, ParseError, Post, new_post_text, parse, read_line, unexpected_line,
};
pub use publish::{
    Artifact, Publication, PublishError, PublishSummary, PublishedDocument, SourceDocument,
    empty_post_warning, html_file_name, is_renderable, publish, publish_document,
};
pub use timestamp::{DATE_FORMAT, Timestamp};
