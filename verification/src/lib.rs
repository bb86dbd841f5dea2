//! A compiler and a tape machine for Brainfuck.
//!
//! A source text is read into instructions, rewritten by four passes
//! (`compiler`, `rewrite`), and its loops are paired (`brackets`). The
//! compiled program runs on a tape of bytes (`vm`), through a capability for
//! reading and writing single bytes (`io`). `machine` says what running
//! means, `meaning` why the rewrites keep it, `interpreter` runs a source
//! text as it stands, and `text` writes numbers and instructions down.

pub mod brackets;
pub mod compiler;
pub mod instruction;
pub mod interpreter;
pub mod io;
pub mod machine;
pub mod meaning;
pub mod rewrite;
pub mod text;
pub mod vm;
