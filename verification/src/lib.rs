//! A rule-driven text rewriter. A rule specification — one
//! `pattern,replacement` pair per line, split at the line's last comma —
//! is compiled into an ordered rule set, and an input string is rewritten
//! in a single left-to-right pass: at each scan position the
//! earliest-starting match among all rules wins, declaration order breaks
//! ties, and a zero-width match copies one character forward so the pass
//! always terminates. Reading and writing the texts by name is left to a
//! storage capability that callers supply.

pub mod fs;
pub mod preprocessor;
