//! Installer of signed boot generations onto an EFI system partition.

pub mod architecture;
pub mod artifact;
pub mod cli;
pub mod digest;
pub mod entry;
pub mod entry_file;
pub mod error;
pub mod esp;
pub mod generation;
pub mod installation;
pub mod installer;
pub mod laws;
pub mod link;
pub mod number;
pub mod outcome;
pub mod run;
pub mod state;
pub mod stub;
