//! Link rewriting for a documentation corpus that is assembled from files of
//! several upstream repositories.
//!
//! Two independent passes work on a document. [`issue_link`] turns bare
//! issue references such as `#123` into links to the issue tracker of the
//! repository that the document came from; [`stability`] proves that it
//! leaves its own output alone. [`remap`] rewrites links that point at other
//! files of the corpus into relative local paths, which [`relative`] builds
//! and [`walk`] proves to lead where they should.
//!
//! Markdown is read and written by `pulldown-cmark` and
//! `pulldown-cmark-to-cmark`, and URLs are parsed and resolved by `url`:
//! [`markdown`] and [`urls`] hold the calls into them, with the contracts
//! that the proofs rest on.
pub mod text;
pub mod relative;
pub mod walk;
pub mod urls;
pub mod remap;
pub mod markdown;
pub mod issue_link;
pub mod stability;
