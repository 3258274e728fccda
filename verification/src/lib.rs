//! Structural, syntax-aware text-editing assists for a source-code editor:
//! joining adjacent lines, continuing a line comment on Enter, and
//! auto-terminating a just-completed binding statement.
//!
//! Every operation reads an immutable, already-parsed syntax tree together
//! with a cursor offset or selection, and returns a composite text edit plus
//! an optional new cursor position.  The tree is never mutated.

pub mod edit;
pub mod syntax;
pub mod text;
pub mod typing;
