//! The logic of a launcher that opens files in `vim` or `nvim` by a short
//! name: a history of opened files ranked by how often each was opened, the
//! rules that resolve a query against it, the text format in which it is
//! kept, and the configuration that picks the editor.

pub mod database;
pub mod file_handling;
pub mod history;
pub mod installer;
pub mod path;
pub mod text;
pub mod utils;
