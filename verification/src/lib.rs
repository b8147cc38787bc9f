//! Finds marked comments (those holding the letters T, O, D, O or the letters
//! F, I, X, M, E) in source text, ranks them by how far the first marker is
//! drawn out, and gathers them per file into a report.

pub mod laws;
pub mod report;
pub mod runs;
pub mod scan;
pub mod text;

pub use report::{examine_dir, file_lines, gather_comments, get_comment_lines, path_matches, walk_file_for_lines, Line, Report};
pub use runs::SequentialCount;
pub use scan::{comment_symbol, find_todo, get_priority, get_priority_and_proper, handle_t};
