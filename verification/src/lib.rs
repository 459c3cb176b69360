//! Core of a terminal quiz runner: a verified document parser, the
//! answer/session state machine, a crash-safe snapshot codec, and the
//! publish-with-retry pipeline.
pub mod git;
pub mod model;
pub mod parser;
pub mod persist;
pub mod state;
pub mod source;
pub mod store;
pub mod submit;
pub mod text;
pub mod timer;
