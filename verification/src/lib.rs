//! Core engine for a large-file tabular data editor: record indexing,
//! field parsing, an editable grid with undo/redo, a sparse formatting
//! overlay, column profiling, and an archive codec.
#![verifier::loop_isolation(false)]

pub mod analysis;
pub mod cellmap;
pub mod csvi;
pub mod editor;
pub mod export;
pub mod formatting;
pub mod grid;
pub mod loader;
pub mod paged_reader;
pub mod parser;
pub mod settings;
pub mod text;
