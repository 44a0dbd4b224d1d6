//! The decisions of the pipeline that hashes the candidate space chunk by
//! chunk and stores each chunk in sub-batches: which window comes next, how a
//! chunk is split, and how the outcome of each stored sub-batch counts.

use crate::digest::{digest_of, hash_string};
use crate::models::NewHashMapping;
use crate::rainbow_table::PlaintextGenerator;
use std::ops::Range;
use vstd::prelude::*;

verus! {

/// The record for the candidate with index `i`: its digest and the candidate.
pub fn record_for(gen: &PlaintextGenerator, i: u64) -> (r: NewHashMapping)
    requires
        gen.wf(),
        i < gen.size(),
    ensures
        r.filename@ == gen.candidate_at(i as nat),
        r.md5@ == digest_of(r.filename@),
{
    let filename = gen.get(i);
    let md5 = hash_string(filename.as_str());
    NewHashMapping { md5, filename }
}

/// The end of the window that starts at `next`: `chunk` further, but not past
/// `total`.
pub open spec fn window_end(next: nat, chunk: nat, total: nat) -> nat {
    if next + chunk < total {
        next + chunk
    } else {
        total
    }
}

/// Walks the indices `0..total` in consecutive windows of at most
/// `chunk_size` indices; one window is in flight at a time.
pub struct ChunkPlan {
    total: u64,
    chunk_size: u64,
    next: u64,
}

impl ChunkPlan {
    /// The number of indices to walk.
    pub closed spec fn total(&self) -> nat {
        self.total as nat
    }

    /// The largest window.
    pub closed spec fn chunk_size(&self) -> nat {
        self.chunk_size as nat
    }

    /// The first index not yet handed out.
    pub closed spec fn next(&self) -> nat {
        self.next as nat
    }

    /// Windows are not empty, and nothing past `total` is handed out.
    pub open spec fn wf(&self) -> bool {
        self.chunk_size() > 0 && self.next() <= self.total()
    }

    /// A plan over `0..total`; `None` where `chunk_size` is zero.
    pub fn new(total: u64, chunk_size: u64) -> (r: Option<ChunkPlan>)
        ensures
            r is None <==> chunk_size == 0,
            r matches Some(p) ==> p.wf() && p.total() == total && p.chunk_size() == chunk_size
                && p.next() == 0,
    {
        if chunk_size == 0 {
            None
        } else {
            Some(ChunkPlan { total, chunk_size, next: 0 })
        }
    }

    /// Whether every index has been handed out.
    pub fn is_done(&self) -> (r: bool)
        ensures
            r == (self.next() == self.total()),
    {
        self.next == self.total
    }

    /// Hands out the next window, `next..window_end(next)`, or `None` once
    /// every index has been handed out.
    pub fn next_chunk(&mut self) -> (r: Option<Range<u64>>)
        requires
            old(self).wf(),
        ensures
            final(self).wf(),
            final(self).total() == old(self).total(),
            final(self).chunk_size() == old(self).chunk_size(),
            old(self).next() == old(self).total() ==> r is None && final(self).next() == old(
                self,
            ).next(),
            old(self).next() < old(self).total() ==> (r matches Some(w) && w.start == old(
                self,
            ).next() && w.end == window_end(old(self).next(), old(self).chunk_size(), old(self).total())
                && final(self).next() == w.end),
    {
        if self.next == self.total {
            return None;
        }
        let start = self.next;
        let end = if self.total - start > self.chunk_size {
            start + self.chunk_size
        } else {
            self.total
        };
        self.next = end;
        Some(start..end)
    }
}

/// Splits `0..len` into consecutive sub-batches of `batch` indices, the last
/// one possibly shorter.
pub fn sub_batches(len: usize, batch: usize) -> (r: Vec<Range<usize>>)
    requires
        batch > 0,
    ensures
        r@.len() == 0 <==> len == 0,
        r@.len() > 0 ==> r@.last().end == len,
        forall|j: int|
            0 <= j < r@.len() ==> {
                &&& #[trigger] r@[j].start == j * batch
                &&& r@[j].end == window_end(r@[j].start as nat, batch as nat, len as nat)
                &&& r@[j].start < r@[j].end
            },
{
    let mut r: Vec<Range<usize>> = Vec::new();
    let mut start: usize = 0;
    assert(r@.len() * batch == 0) by (nonlinear_arith)
        requires
            r@.len() == 0,
    ;
    while start < len
        invariant
            batch > 0,
            start <= len,
            start < len ==> start == r@.len() * batch,
            r@.len() == 0 ==> start == 0,
            r@.len() > 0 ==> r@.last().end == start,
            forall|j: int|
                0 <= j < r@.len() ==> {
                    &&& #[trigger] r@[j].start == j * batch
                    &&& r@[j].end == window_end(r@[j].start as nat, batch as nat, len as nat)
                    &&& r@[j].start < r@[j].end
                },
        decreases len - start,
    {
        let end = if len - start > batch {
            start + batch
        } else {
            len
        };
        let ghost n = r@.len();
        r.push(start..end);
        assert(end < len ==> end == (n + 1) * batch) by (nonlinear_arith)
            requires
                start == n * batch,
                end < len ==> end == start + batch,
        ;
        start = end;
    }
    if r.len() > 0 {
        let ghost last = (r@.len() - 1) as int;
        assert(r@[last].start < r@[last].end);
    }
    r
}

/// What the storage reported for one sub-batch.
#[derive(Debug)]
pub enum InsertFailure {
    /// A digest was already stored.
    UniqueViolation,
    /// Any other failure, with the storage's description.
    Other(String),
}

/// A sub-batch that could not be stored.
#[derive(Debug)]
pub enum PersistError {
    /// The storage failed for a reason other than a known digest.
    Storage(String),
}

/// The outcome of storing one sub-batch: the number of rows written; a digest
/// already stored counts as success with nothing written; any other failure
/// is passed on.
pub fn settle_insert(outcome: Result<usize, InsertFailure>) -> (r: Result<usize, PersistError>)
    ensures
        outcome matches Ok(n) ==> r == Ok::<usize, PersistError>(n),
        outcome matches Err(InsertFailure::UniqueViolation) ==> r == Ok::<usize, PersistError>(0),
        outcome matches Err(InsertFailure::Other(m)) ==> (r matches Err(PersistError::Storage(e))
            && e@ == m@),
{
    match outcome {
        Ok(n) => Ok(n),
        Err(InsertFailure::UniqueViolation) => Ok(0),
        Err(InsertFailure::Other(m)) => Err(PersistError::Storage(m)),
    }
}

/// A sub-batch of a chunk that failed, and why.
#[derive(Debug)]
pub struct BatchFailure {
    pub batch: usize,
    pub reason: String,
}

/// The counts of one chunk: candidates hashed, rows newly written, and the
/// sub-batches that failed.
#[derive(Debug)]
pub struct ChunkReport {
    pub hashed: usize,
    pub written: usize,
    pub failures: Vec<BatchFailure>,
}

impl ChunkReport {
    /// The report of a chunk of `hashed` candidates before any sub-batch is
    /// stored.
    pub fn new(hashed: usize) -> (r: ChunkReport)
        ensures
            r.hashed == hashed,
            r.written == 0,
            r.failures@.len() == 0,
    {
        ChunkReport { hashed, written: 0, failures: Vec::new() }
    }

    /// Counts the outcome of sub-batch `batch`: rows written add to
    /// `written` (saturating at `usize::MAX`); a failure is listed with its
    /// reason.
    pub fn record(&mut self, batch: usize, outcome: Result<usize, PersistError>)
        ensures
            final(self).hashed == old(self).hashed,
            outcome matches Ok(n) ==> final(self).written == (if old(self).written + n
                <= usize::MAX {
                old(self).written + n
            } else {
                usize::MAX as int
            }) && final(self).failures@ == old(self).failures@,
            outcome matches Err(PersistError::Storage(m)) ==> final(self).written == old(
                self,
            ).written && final(self).failures@.len() == old(self).failures@.len() + 1
                && final(self).failures@.take(old(self).failures@.len() as int)
                == old(self).failures@ && final(self).failures@.last().batch == batch
                && final(self).failures@.last().reason@ == m@,
    {
        match outcome {
            Ok(n) => {
                self.written = self.written.saturating_add(n);
            },
            Err(PersistError::Storage(reason)) => {
                self.failures.push(BatchFailure { batch, reason });
                assert(self.failures@.take(old(self).failures@.len() as int) =~= old(
                    self,
                ).failures@);
            },
        }
    }

    /// Whether every sub-batch was stored.
    pub fn is_clean(&self) -> (r: bool)
        ensures
            r == (self.failures@.len() == 0),
    {
        self.failures.len() == 0
    }
}

} // verus!
