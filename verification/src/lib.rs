//! Domain core of a spreadsheet-style editor for hierarchical CSV projects.

pub mod constraints;
pub mod csv_text;
pub mod decimal;
pub mod git;
pub mod glob;
pub mod hooks;
pub mod project;
pub mod regex_match;
pub mod sheet;
pub mod style;
pub mod text;
pub mod validation;
