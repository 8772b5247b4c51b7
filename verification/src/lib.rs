//! Text analysis, build-log parsing, process-tree accounting and display
//! formatting behind a live dashboard of the packages Portage is compiling.

pub mod text;
pub mod model;
pub mod pattern;
pub mod grammar;
pub mod parser;
pub mod names;
pub mod process;
pub mod view;
pub mod nav;
pub mod format;
pub mod walk;
pub mod order;
pub mod cli;
