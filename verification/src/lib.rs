//! Instant file-name search: an index of directory trees that is kept current,
//! and everything that is decided around it.
//!
//! The index itself is in [`index`], with its searches in [`lookup`]; [`laws`]
//! states what a search finds. [`walk`], [`watch`] and [`live`] keep it in step
//! with the filesystem, [`persist`] turns it into bytes and back, [`catalog`]
//! and [`protocol`] answer for several folders over a socket. Reading folders,
//! talking to the kernel and drawing windows is left to the program around it.

pub mod ids;
pub mod bytes;
pub mod fold;
pub mod kmp;
pub mod postings;
pub mod tree;
pub mod trigram;
pub mod index;
pub mod maintain;
pub mod text;
pub mod options;
pub mod terms;
pub mod search;
pub mod anchored;
pub mod multi;
pub mod matcher;
pub mod lookup;
pub mod exact;
pub mod laws;
pub mod relations;
pub mod meaning;
pub mod digest;
pub mod graft;
pub mod updates;
pub mod paths;
pub mod wire;
pub mod persist;
pub mod split;
pub mod component;
pub mod place;
pub mod config;
pub mod checks;
pub mod runs;
pub mod watch;
pub mod mark;
pub mod catalog;
pub mod protocol;
pub mod framing;
pub mod whole;
pub mod walk;
pub mod walks;
pub mod live;
pub mod window;
pub mod selection;
pub mod krunner;
pub mod args;
pub mod service;
pub mod upkeep;
