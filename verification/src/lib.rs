//! A small static-analysis scanning core: a lazy directory walk, the state
//! that rules share, and the bookkeeping of a scan.
//!
//! The library performs no input or output of its own. A caller asks the
//! walk which path to look at next, looks at it, and hands back what it
//! found; likewise it reads each source file and passes the text in. What
//! the library decides from that is stated in the contracts of its
//! functions.

pub mod chars;
pub mod rule;
pub mod scan;
pub mod syntax;
pub mod text;
pub mod tree;
pub mod walk;

pub use rule::{found_function, BaseRule, Findings, Inspect, ScanFinding};
pub use scan::{Report, ScanError, ScanResults, ScanStats, Scanner, ShownLine, Task, Visit};
pub use text::{ContextLine, LineSpan};
pub use walk::{DirIter, Probe, Verdict};
