//! A minimal local snapshot engine. It captures a directory tree in an
//! append-only log of records, tells which files changed since a snapshot,
//! and gives back the files of an earlier snapshot.
//!
//! The engine works on values: a listing of the working tree goes in, and
//! the new state of the repository, or the files to write, come out.
//! Reading and writing the disk is left to the caller.
//!
//! - [`tree`] scans a listing into a payload and a metadata tree;
//! - [`codec`] writes a record and reads it back;
//! - [`log`] finds a record in the content log;
//! - [`meta`] compares two metadata trees;
//! - [`repo`] ties them together: first snapshot, further snapshots,
//!   status and going back;
//! - [`document`] says how the metadata and the ignore specification are
//!   stored, and [`jsontext`] reads and writes the documents as JSON;
//! - [`laws`] states what holds of snapshots taken one after another.
pub mod bytes;
pub mod codec;
pub mod document;
pub mod encoding;
pub mod error;
pub mod ids;
pub mod ignore;
pub mod jsontext;
pub mod laws;
pub mod log;
pub mod meta;
pub mod repo;
pub mod tree;
