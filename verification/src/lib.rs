//! Verified core of a Markdown reader: which files are documents, how a
//! document is preprocessed and split into pages, the workspace tree, the
//! reader's session state, and the text it generates around Mermaid
//! diagrams, links and images.

pub mod text;
pub mod lines;
pub mod markdown;
pub mod preprocess;
pub mod pages;
pub mod names;
pub mod tree;
pub mod tree_laws;
pub mod listing;
pub mod mermaid;
pub mod links;
pub mod session;
pub mod paths;
pub mod preprocess_laws;
pub mod pages_laws;
pub mod anchors;
