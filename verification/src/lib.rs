//! Line-level authorship attribution over a commit history.
//!
//! For each commit of a history the library keeps a [`tree::Tree`]: for
//! each path the lines of the file as [`blocks::LineBlock`]s, runs of
//! lines tagged with the author who last wrote them. The tree of a commit
//! is computed from the trees of its parents and the diffs against them
//! ([`analysis`]): the first parent's edits are replayed over its blocks
//! ([`replay`]), then every line that the commit adds goes to its author
//! ([`merge`], [`overlay`]).
//!
//! The commits come as a table of plain values ([`commits`]). The walk
//! through the history ([`history`]) puts them into an order in which
//! every recorded parent comes before its child, and plans when each tree
//! is read for the last time. The [`driver`] runs the steps of that plan:
//! it says what it needs from the repository, takes it, and hands out the
//! tree of each step.
//!
//! What the trees say over time is collected by [`timeline`], and
//! [`chart`] and [`stack`] turn it into the series and the layers of a
//! stacked chart. [`file`] and [`repo`] follow a history line by line,
//! with a running count of lines per author.
//!
//! [`laws`] states what holds of the trees whatever the inputs, and
//! [`descent`] what holds of the walk: which parents every node records.

pub mod analysis;
pub mod author;
pub mod blocks;
pub mod chart;
pub mod commits;
pub mod descent;
pub mod driver;
pub mod file;
pub mod filter;
pub mod history;
pub mod laws;
pub mod merge;
pub mod order;
pub mod overlay;
pub mod patch;
pub mod rank;
pub mod replay;
pub mod repo;
pub mod sort;
pub mod stack;
pub mod stat;
pub mod timeline;
pub mod touched;
pub mod tree;
