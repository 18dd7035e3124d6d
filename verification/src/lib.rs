//! A file-backed store for hierarchical note-taking projects.
//!
//! A project is identified by a dotted name such as `work.clientA` and is
//! kept on disk as an append-only file of comma-separated records, one note
//! per record.  This crate holds the verified core of the store: the codec
//! between project names and file paths, the record codec around the `csv`
//! crate, and the store engine itself, modelled over an explicit map from
//! file paths to file contents.  The thin layer that binds that model to a
//! real directory tree lives outside the verified library.

pub mod error;
pub mod laws;
pub mod ordering;
pub mod sorted;
pub mod name;
pub mod record;
pub mod store;

pub use error::StoreError;
pub use name::ProjectName;
pub use record::Note;
pub use record::Notes;
pub use store::CSVStore;
pub use store::Project;
pub use store::Projects;
