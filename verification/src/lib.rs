//! A small content-addressed version-control engine: object encoding,
//! the staging index format, line diffs, three-way merges, ignore rules,
//! branch-name validation and the bookkeeping behind stash and bisect.
#![allow(unused_imports)]

pub mod text;
pub mod objects;
pub mod diff;
pub mod bytes;
pub mod codec;
pub mod util;
pub mod index;
pub mod store;
pub mod commit;
pub mod graph;
pub mod gitignore;
pub mod paths;
pub mod merge;
pub mod refs;
pub mod stash;
pub mod status;
pub mod checkout;
pub mod cli;
pub mod replay;
pub mod rm;
pub mod bisect;
pub mod rev;
pub mod clean;
pub mod tree;
pub mod staging;
pub mod rebase;
