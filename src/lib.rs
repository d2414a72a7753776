//! Indentation adapter for byte sinks: inserts an indent at the front of
//! every non-empty line written through it.

pub mod io;
