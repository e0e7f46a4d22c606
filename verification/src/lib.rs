//! STARDECK's note-handling core: the markdown-with-frontmatter file format,
//! filesystem-safe naming, wiki links and their rename cascade, tags, tasks,
//! search-term building and the editor's text transforms, each with a contract.

pub mod config;
pub mod editor;
pub mod frontmatter;
pub mod ident;
pub mod links;
pub mod note;
pub mod paths;
pub mod search;
pub mod tags;
pub mod number;
pub mod text;
pub mod tree;
