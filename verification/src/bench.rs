//! The access benchmark's bookkeeping: parameter validation, file selection,
//! and the running totals of comparisons and elapsed time.
//!
//! The benchmark repeatedly samples files, reads each one both from the
//! archive (seek + exact read) and directly from disk, checks the two byte
//! ranges against each other through the XOR-fold checksum, and accumulates
//! per-method elapsed time. The reads and the clock live outside the
//! library; this module decides what is sampled, checks the buffers, and
//! keeps the totals.

use vstd::prelude::*;
use crate::checksum::xor_fold;
use crate::checksum::super_fast_hash;
use crate::manifest::FileEntry;
use crate::sample::random_index;
use crate::Error;

verus! {

/// Saturating addition on 64-bit totals: a running time total sticks at the
/// ceiling rather than wrapping.
pub open spec fn sat_add_u64(a: u64, b: u64) -> u64 {
    if a + b <= u64::MAX {
        (a + b) as u64
    } else {
        u64::MAX
    }
}

fn sat_add(a: u64, b: u64) -> (r: u64)
    ensures
        r == sat_add_u64(a, b),
{
    if a <= u64::MAX - b {
        a + b
    } else {
        u64::MAX
    }
}

/// One benchmark run over a loaded manifest: how many outer iterations to
/// run, how many files to sample per iteration, and the totals accumulated
/// so far.
pub struct Benchmark {
    pub manifest: Vec<FileEntry>,
    pub num_iterations: usize,
    pub num_files_to_test: usize,
    pub comparisons: usize,
    pub total_disk_ns: u64,
    pub total_archive_ns: u64,
}

impl Benchmark {
    /// Validate the parameters and start a run with zeroed totals. Fails
    /// exactly when more files are requested per iteration than the manifest
    /// holds; nothing is read before that check.
    pub fn new(manifest: Vec<FileEntry>, num_iterations: usize, num_files_to_test: usize) -> (r:
        Result<Benchmark, Error>)
        ensures
            match r {
                Ok(b) => {
                    &&& num_files_to_test <= manifest@.len()
                    &&& b.manifest == manifest
                    &&& b.num_iterations == num_iterations
                    &&& b.num_files_to_test == num_files_to_test
                    &&& b.comparisons == 0
                    &&& b.total_disk_ns == 0
                    &&& b.total_archive_ns == 0
                },
                Err(e) => {
                    &&& e == Error::SampleTooLarge
                    &&& num_files_to_test > manifest@.len()
                },
            },
    {
        if num_files_to_test > manifest.len() {
            return Err(Error::SampleTooLarge);
        }
        Ok(
            Benchmark {
                manifest,
                num_iterations,
                num_files_to_test,
                comparisons: 0,
                total_disk_ns: 0,
                total_archive_ns: 0,
            },
        )
    }

    /// How many comparisons the whole run will perform: outer iterations
    /// times files sampled per iteration, or nothing if that product does
    /// not fit in the machine's word size.
    pub fn planned_comparisons(&self) -> (r: Option<usize>)
        ensures
            match r {
                Some(n) => n == self.num_iterations * self.num_files_to_test,
                None => self.num_iterations * self.num_files_to_test > usize::MAX,
            },
    {
        self.num_iterations.checked_mul(self.num_files_to_test)
    }

    /// Select the file for one inner step: a fresh uniformly random draw
    /// over the whole manifest, as the selection policy prescribes (the
    /// shuffled permutation is built once per run but not consumed).
    pub fn pick_index(&self, rng: &mut rand::rngs::ThreadRng) -> (r: usize)
        requires
            self.manifest@.len() > 0,
        ensures
            r < self.manifest@.len(),
    {
        random_index(rng, self.manifest.len())
    }

    /// The entry at one manifest index.
    pub fn entry(&self, i: usize) -> (r: &FileEntry)
        requires
            i < self.manifest@.len(),
        ensures
            *r == self.manifest@[i as int],
    {
        &self.manifest[i]
    }

    /// Record one comparison: the buffer read from disk against the buffer
    /// read from the archive. The two must agree under the XOR-fold
    /// checksum; a mismatch is a fatal correctness violation and leaves the
    /// totals unchanged. On success the comparison counter goes up by one
    /// and each method's elapsed time joins its running total.
    pub fn record_comparison(
        &mut self,
        disk_bytes: &Vec<u8>,
        archive_bytes: &Vec<u8>,
        disk_ns: u64,
        archive_ns: u64,
    ) -> (r: Result<(), Error>)
        requires
            old(self).comparisons < usize::MAX,
        ensures
            final(self).manifest == old(self).manifest,
            final(self).num_iterations == old(self).num_iterations,
            final(self).num_files_to_test == old(self).num_files_to_test,
            match r {
                Ok(()) => {
                    &&& xor_fold(disk_bytes@) == xor_fold(archive_bytes@)
                    &&& final(self).comparisons == old(self).comparisons + 1
                    &&& final(self).total_disk_ns == sat_add_u64(old(self).total_disk_ns, disk_ns)
                    &&& final(self).total_archive_ns == sat_add_u64(
                        old(self).total_archive_ns,
                        archive_ns,
                    )
                },
                Err(e) => {
                    &&& e == Error::ChecksumMismatch
                    &&& xor_fold(disk_bytes@) != xor_fold(archive_bytes@)
                    &&& *final(self) == *old(self)
                },
            },
    {
        let disk_hash = super_fast_hash(disk_bytes);
        let archive_hash = super_fast_hash(archive_bytes);
        if disk_hash != archive_hash {
            return Err(Error::ChecksumMismatch);
        }
        self.comparisons = self.comparisons + 1;
        self.total_disk_ns = sat_add(self.total_disk_ns, disk_ns);
        self.total_archive_ns = sat_add(self.total_archive_ns, archive_ns);
        Ok(())
    }

    /// The average time one disk read took, in nanoseconds.
    pub fn average_disk_ns(&self) -> (r: u64)
        requires
            self.comparisons > 0,
        ensures
            r == self.total_disk_ns / (self.comparisons as u64),
    {
        self.total_disk_ns / (self.comparisons as u64)
    }

    /// The average time one archive read took, in nanoseconds.
    pub fn average_archive_ns(&self) -> (r: u64)
        requires
            self.comparisons > 0,
        ensures
            r == self.total_archive_ns / (self.comparisons as u64),
    {
        self.total_archive_ns / (self.comparisons as u64)
    }
}

} // verus!
