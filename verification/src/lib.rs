use vstd::prelude::*;

pub mod text;
pub mod config;
pub mod paths;
pub mod report;
pub mod validation;
pub mod ftp;
pub mod sftp;
pub mod content;
pub mod storage;
pub mod audit;
pub mod commands;
pub mod secrets;

verus! {
} // verus!
