//! Download progress accounting.
//!
//! The archive transfer streams the response body chunk by chunk; after
//! each chunk a progress notification is emitted. The accounting here
//! guarantees that the notified byte counts never decrease and always equal
//! the bytes written so far.

use vstd::prelude::*;

verus! {

/// One progress notification: the declared total (0 when unknown) and the
/// bytes downloaded so far.
#[derive(Clone, Copy, Debug, PartialEq, Eq, Structural)]
pub struct DownloadProgress {
    pub total: u64,
    pub downloaded: u64,
}

/// Accumulates the running byte count of one transfer.
pub struct DownloadTracker {
    pub total: u64,
    pub downloaded: u64,
}

impl DownloadTracker {
    /// Begins a transfer of `total` declared bytes (0 when unknown).
    pub fn new(total: u64) -> (r: DownloadTracker)
        ensures
            r.total == total,
            r.downloaded == 0,
    {
        DownloadTracker { total, downloaded: 0 }
    }

    /// Accounts one received chunk and yields the notification to emit:
    /// the running count grows by exactly the chunk's length and never
    /// decreases.
    pub fn record_chunk(&mut self, chunk_len: u64) -> (p: DownloadProgress)
        requires
            old(self).downloaded + chunk_len <= u64::MAX,
        ensures
            final(self).total == old(self).total,
            final(self).downloaded == old(self).downloaded + chunk_len,
            p.total == old(self).total,
            p.downloaded == final(self).downloaded,
            p.downloaded >= old(self).downloaded,
    {
        self.downloaded = self.downloaded + chunk_len;
        DownloadProgress { total: self.total, downloaded: self.downloaded }
    }
}

/// The bytes written after a sequence of chunks.
pub open spec fn sum_chunks(chunks: Seq<u64>) -> int
    decreases chunks.len(),
{
    if chunks.len() == 0 {
        0
    } else {
        sum_chunks(chunks.drop_last()) + chunks.last()
    }
}

/// What the notification after the chunk at position `k` reports.
pub open spec fn progress_after(chunks: Seq<u64>, k: int) -> int {
    sum_chunks(chunks.take(k + 1))
}

/// Across one transfer the notified byte counts are monotonically
/// non-decreasing: a later chunk's notification never reports fewer bytes
/// than an earlier one's.
pub proof fn lemma_progress_monotone(chunks: Seq<u64>, i: int, j: int)
    requires
        0 <= i <= j < chunks.len(),
    ensures
        progress_after(chunks, i) <= progress_after(chunks, j),
    decreases j - i,
{
    if i < j {
        lemma_progress_monotone(chunks, i, j - 1);
        assert(chunks.take(j + 1).drop_last() =~= chunks.take(j));
        assert(chunks.take(j + 1).last() == chunks[j]);
    }
}

/// The last notification of a transfer reports exactly the total number of
/// bytes written: the sum of all chunk lengths.
pub proof fn lemma_final_progress(chunks: Seq<u64>)
    requires
        chunks.len() > 0,
    ensures
        progress_after(chunks, chunks.len() - 1) == sum_chunks(chunks),
{
    assert(chunks.take(chunks.len() as int) =~= chunks);
}

} // verus!
