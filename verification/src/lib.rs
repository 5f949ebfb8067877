//! Decides which files and directories below a watched root are build
//! artifacts that Dropbox should ignore, and which directories have to be
//! watched to notice new ones.
//!
//! The crate performs no I/O. What touches the file system, the extended
//! attributes or the inotify queue is asked for as a value and answered with a
//! value, so every decision is a function with a contract.

pub mod app;
pub mod cli;
pub mod discovery;
pub mod dropbox;
pub mod engine;
pub mod error;
pub mod events;
pub mod exactness;
pub mod kernel;
pub mod marking;
pub mod naming;
pub mod outcome;
pub mod path;
pub mod reconcile;
pub mod recovery;
pub mod round;
pub mod rules;
pub mod sequence;
pub mod settling;
pub mod signals;
pub mod targets;
pub mod text;
pub mod tree;
pub mod watch;
