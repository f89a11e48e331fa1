//! Keeps a set of Chocolatey packages up to date: it reads the version that a
//! package's nuspec file holds, looks up the newest upstream release, checks
//! and hashes the new downloads, and rewrites the nuspec file and the install
//! script to match.
//!
//! This crate holds the logic of that work as verified functions on plain
//! values; the program around it does the network, file and process work.

pub mod bytes;

pub mod version;
pub mod error;
pub mod download;
pub mod nuspec;
pub mod script;
pub mod github;
pub mod packages;
pub mod command;
pub mod report;
