//! Management of SSH client configuration files: an ordered document model
//! that supports parsing, round-trip-safe mutation (list, add, edit, delete
//! of `Host` blocks) and rendering back to text.

pub mod text;
pub mod sshc;
pub mod parser;
pub mod laws;
