//! What can go wrong in the storage layers.
use crate::text::{dec, dec_u64, join2};
use vstd::prelude::*;
use vstd::string::*;

verus! {

#[derive(Debug, Clone, Copy, PartialEq, Eq, Structural)]
pub enum StorageError {
    /// A page was read that the file does not hold as a whole.
    PastEnd,
    /// The embedded checksum of this page is not that of its bytes.
    Checksum(u32),
    /// Every frame of the buffer pool is pinned.
    PoolFull,
    /// A tuple does not fit into its page.
    PageFull,
}

/// The text of an error.
pub open spec fn storage_message(e: StorageError) -> Seq<char> {
    match e {
        StorageError::PastEnd => "failed to fill whole buffer"@,
        StorageError::Checksum(id) => "Checksum mismatch on page "@ + dec(id as nat),
        StorageError::PoolFull => "Buffer pool full: all pages are pinned"@,
        StorageError::PageFull => "page full"@,
    }
}

impl StorageError {
    /// The text of the error.
    pub fn message(&self) -> (s: String)
        ensures
            s@ == storage_message(*self),
    {
        match self {
            StorageError::PastEnd => "failed to fill whole buffer".to_owned(),
            StorageError::Checksum(id) => {
                let d = dec_u64(*id as u64);
                join2("Checksum mismatch on page ", d.as_str())
            },
            StorageError::PoolFull => "Buffer pool full: all pages are pinned".to_owned(),
            StorageError::PageFull => "page full".to_owned(),
        }
    }
}

} // verus!
