//! The decisions of the commands of the command line, and the texts that they
//! print.

pub mod commands;
pub mod progress;
pub mod rows;
pub mod size;
pub mod table;
