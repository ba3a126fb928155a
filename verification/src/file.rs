//! The file cursor: a streaming, resumable reader over one file's or
//! directory's cluster chain.
//!
//! A `File` carries a copy of the resolved directory entry, the chain
//! position the next read resumes from, and a fixed-capacity buffer that one
//! read call fills. Callers loop: read, consume the buffer, repeat, until
//! `finished` is observed true.

use vstd::prelude::*;

use crate::directory::DirectoryEntry;

verus! {

impl File {
    /// Size of the minimum readable unit of the disk, in bytes.
    pub const SECTOR_SIZE: usize = 512;

    /// Size of the file buffer, in sectors.
    pub const BUFFER_SIZE: usize = 1;
}

/// A read cursor over one cluster chain, with its fixed transfer buffer.
pub struct File {
    /// Copy of the directory entry this cursor reads.
    pub metadata: DirectoryEntry,
    /// The cluster the next read resumes from.
    pub current_cluster: u16,
    /// How many sectors of the current cluster have already been delivered.
    pub current_cluster_read_sectors: u16,
    /// Whether the whole cluster chain has been consumed.
    pub finished: bool,
    /// The fixed-capacity buffer a read call fills from its start.
    pub buffer: Vec<u8>,
}

impl File {
    /// A cursor always carries a full-capacity buffer.
    pub open spec fn wf(self) -> bool {
        self.buffer@.len() == File::SECTOR_SIZE * File::BUFFER_SIZE
    }

    /// How many whole sectors this cursor's buffer can take in one read.
    pub open spec fn spec_capacity(self) -> u16 {
        (self.buffer@.len() as int / (File::SECTOR_SIZE as int)) as u16
    }

    /// A fresh cursor: positioned at the entry's first cluster with nothing
    /// consumed and nothing finished.
    pub open spec fn is_fresh(self) -> bool {
        &&& self.current_cluster == self.metadata.lower_first_cluster
        &&& self.current_cluster_read_sectors == 0
        &&& !self.finished
    }

    /// Creates a cursor for the given entry. The buffer starts zeroed; a
    /// read call fills it.
    pub fn new(metadata: DirectoryEntry) -> (f: File)
        ensures
            f.metadata == metadata,
            f.is_fresh(),
            f.wf(),
            f.buffer@ == Seq::<u8>::new((File::SECTOR_SIZE * File::BUFFER_SIZE) as nat, |i| 0u8),
    {
        let mut buffer: Vec<u8> = Vec::new();
        let mut i: usize = 0;
        while i < File::SECTOR_SIZE * File::BUFFER_SIZE
            invariant
                i <= File::SECTOR_SIZE * File::BUFFER_SIZE,
                buffer@ =~= Seq::<u8>::new(i as nat, |j| 0u8),
            decreases File::SECTOR_SIZE * File::BUFFER_SIZE - i,
        {
            buffer.push(0u8);
            i = i + 1;
            proof {
                assert(buffer@ =~= Seq::<u8>::new(i as nat, |j| 0u8));
            }
        }
        File {
            current_cluster: metadata.lower_first_cluster,
            current_cluster_read_sectors: 0,
            finished: false,
            buffer,
            metadata,
        }
    }

    /// Forces the cursor back to the fresh state, so the next read starts
    /// from the file's first cluster.
    pub fn reset(&mut self)
        ensures
            final(self).metadata == old(self).metadata,
            final(self).buffer == old(self).buffer,
            final(self).is_fresh(),
    {
        self.current_cluster = self.metadata.lower_first_cluster;
        self.current_cluster_read_sectors = 0;
        self.finished = false;
    }

    /// Whether the whole cluster chain behind this cursor has been read.
    pub fn is_fully_read(&self) -> (r: bool)
        ensures
            r == self.finished,
    {
        self.finished
    }
}

} // verus!
