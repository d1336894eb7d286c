//! Line tallies for a source tree: which files count, how many lines each
//! holds, the total per extension and the largest files of each extension.
//!
//! The library works on values. A caller reads the tree from disk, asking
//! [`walk::entry_step`] what to read, and hands the snapshot to
//! [`tally::tally`]:
//!
//! - [`text`] tells text from other content;
//! - [`lines`] counts the lines of a byte stream that is text;
//! - [`extension`] finds the extension of a path and holds the allow-list;
//! - [`rules`] compiles the pattern file of a directory and composes the
//!   rules of a directory with those of the directories above it;
//! - [`walk`] walks a snapshot and lists the files that count;
//! - [`report`] sums the lines per extension and ranks the largest files;
//! - [`order`] and [`alike`] state that the outcome does not depend on the
//!   order in which a tree was read.

pub mod alike;
pub mod extension;
pub mod lines;
pub mod order;
pub mod record;
pub mod report;
pub mod rules;
pub mod tally;
pub mod text;
pub mod walk;
