//! The storage collaborator: what the view engine asks of the store it browses.
use crate::store::ScanRecord;
use vstd::prelude::*;

verus! {

/// Why a retrieval from the store failed.
#[derive(Clone, Debug)]
pub enum BackendError {
    /// The key material is locked; an interactive unlock may help.
    Locked,
    /// Any other failure, with a message for the status line.
    Failed(String),
}

impl BackendError {
    /// The message shown for this failure.
    pub fn message(&self) -> (m: String)
        ensures
            self is Failed ==> m@ == self->Failed_0@,
            self is Locked ==> m@ == "key material is locked"@,
    {
        match self {
            BackendError::Locked => String::from_str("key material is locked"),
            BackendError::Failed(m) => m.clone(),
        }
    }
}

/// The operations of a secret store. The production store runs the store's command-line
/// tool; tests use a fake.
pub trait Backend {
    /// Walks the store: every node below the root, with its path relative to the root.
    /// Fails when the store root does not exist.
    fn scan(&self) -> Result<Vec<ScanRecord>, String>;

    /// Edits an entry interactively.
    fn edit(&self, entry: &str) -> Result<(), String>;

    /// Copies an entry's content to the clipboard.
    fn yank(&self, entry: &str) -> Result<(), String>;

    /// Adds an entry interactively.
    fn add(&self, entry: &str) -> Result<(), String> {
        self.edit(entry)
    }

    /// Removes an entry, or a directory with `recursive`.
    fn rm(&self, target: &str, recursive: bool) -> Result<(), String>;

    /// The plain content of an entry.
    fn show(&self, entry: &str) -> Result<String, BackendError>;

    /// The content of an entry as a scannable code.
    fn show_qr(&self, entry: &str) -> Result<String, BackendError>;

    /// Whether the store holds a directory `rel`, or an entry `rel` (its content file).
    fn path_exists(&self, rel: &str) -> bool;

    /// Moves an entry or directory; fails when the destination exists.
    fn mv(&self, from: &str, to: &str) -> Result<(), String>;

    /// Unlocks the key material interactively for the given entry.
    fn unlock(&self, entry: &str, qr: bool) -> Result<(), String> {
        Ok(())
    }
}

} // verus!
