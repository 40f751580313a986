//! Field analysis for a solver front end: splitting a drawn field into
//! placeable pieces, colour recognition of captured boards, kick tables and
//! the command line of the external solver.

pub mod geometry;
pub mod cell_set;
pub mod color_split;
pub mod text;
pub mod commands;
pub mod sfinder;
pub mod kick_table;
pub mod recognition;
