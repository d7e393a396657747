//! Recursive file enumeration with extension filtering.
//!
//! The library walks a set of filesystem targets, skipping symbolic links
//! and (optionally) hidden entries, keeps the regular files whose extension
//! belongs to a configured set, optionally sorts them by modification time,
//! and renders the resulting paths as a separator-delimited, optionally
//! shell-quoted byte stream.
//!
//! Paths and file names are byte sequences throughout, as the host
//! filesystem reports them.

pub mod laws;
pub mod names;
pub mod output;
pub mod paths;
pub mod quoting;
pub mod registry;
pub mod sort;
pub mod utf8;
pub mod walk;
