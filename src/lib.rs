//! A personal file-tagging library: files are staged with tags and comments,
//! then committed into a flat content store under generated names.

pub mod comments;
pub mod tags;
pub mod storage;
pub mod paths;
pub mod ids;
pub mod state;
pub mod title;
mod text;
