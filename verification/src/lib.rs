//! The decisions behind `rip`.
pub mod back;
pub mod bytes;
pub mod cli;
pub mod copying;
pub mod dates;
pub mod delete;
pub mod empty;
pub mod info;
pub mod load;
pub mod mounts;
pub mod paths;
pub mod picker;
pub mod put;
pub mod remove;
pub mod reserve;
pub mod restore;
pub mod sort;
pub mod sys;
pub mod table;
pub mod text;
pub mod trash;
pub mod tree;
pub mod walk;
