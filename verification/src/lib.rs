//! Rendering support for versioned documentation pages: heading anchors,
//! the section tree of a page, and links into the API reference.

pub mod guides;
pub mod headings;
pub mod links;
pub mod rendering;
pub mod sections;
pub mod site;
pub mod text;
pub mod versions;
