//! The data model of the dataset: entries, the manifest, and the archive.
//!
//! An archive is a single flat file holding the byte-exact concatenation, in
//! manifest order, of every tracked file's content. The manifest is the
//! ordered list of entries that gives each file's path, its byte length, and
//! the offset at which its bytes start inside the archive. The builder here
//! does the offset bookkeeping of the setup phase; the archive's bytes are
//! carried alongside it as a ghost sequence, so that what the manifest says
//! about the archive is stated and proved, while the real bytes stream to
//! disk outside the library.

use vstd::prelude::*;
use crate::Error;

verus! {

/// One file tracked by the dataset: the path of its on-disk copy (as bytes),
/// the exact byte length of its content, and the byte offset at which that
/// content starts inside the archive.
#[derive(Debug, Clone, PartialEq, Eq)]
pub struct FileEntry {
    pub path: Vec<u8>,
    pub size: usize,
    pub start: usize,
}

/// The mathematical shape of one entry: path bytes, size and start as
/// unbounded naturals.
pub ghost struct GEntry {
    pub path: Seq<u8>,
    pub size: nat,
    pub start: nat,
}

impl FileEntry {
    /// The entry's mathematical model.
    pub open spec fn model(self) -> GEntry {
        GEntry { path: self.path@, size: self.size as nat, start: self.start as nat }
    }
}

/// The model of a whole manifest: each entry's model, in manifest order.
pub open spec fn models(es: Seq<FileEntry>) -> Seq<GEntry> {
    es.map(|i: int, e: FileEntry| e.model())
}

/// Offset contiguity: the first entry starts at offset zero, and every later
/// entry starts exactly where the one before it ends.
pub open spec fn contiguous(es: Seq<GEntry>) -> bool {
    &&& (es.len() > 0 ==> es[0].start == 0)
    &&& (forall|i: int|
        0 <= i && i + 1 < es.len() ==> es[i + 1].start == es[i].start + es[i].size)
}

/// The sum of every entry's size, in manifest order.
pub open spec fn sum_sizes(es: Seq<GEntry>) -> nat
    decreases es.len(),
{
    if es.len() == 0 {
        0
    } else {
        sum_sizes(es.drop_last()) + es.last().size
    }
}

/// The byte-exact concatenation of a sequence of contents, in order: the
/// model of the archive file.
pub open spec fn concat_all(cs: Seq<Seq<u8>>) -> Seq<u8>
    decreases cs.len(),
{
    if cs.len() == 0 {
        Seq::empty()
    } else {
        concat_all(cs.drop_last()) + cs.last()
    }
}

/// Builds a manifest during the setup phase. Each pushed file gets the next
/// free offset as its `start`; the ghost `contents` sequence carries the
/// bytes that the caller appends to the real archive file, so that the
/// relation between manifest and archive is part of the builder's invariant.
pub struct ManifestBuilder {
    pub entries: Vec<FileEntry>,
    pub next_start: usize,
    pub contents: Ghost<Seq<Seq<u8>>>,
}

impl ManifestBuilder {
    /// The model of the manifest built so far.
    pub open spec fn manifest(self) -> Seq<GEntry> {
        models(self.entries@)
    }

    /// The model of the archive built so far: the concatenation of every
    /// pushed file's content.
    pub open spec fn archive(self) -> Seq<u8> {
        concat_all(self.contents@)
    }

    /// The builder's invariant: offsets are contiguous, the next free offset
    /// is the sum of all sizes so far, and each entry's size is the length of
    /// the content pushed with it.
    pub open spec fn wf(self) -> bool {
        &&& contiguous(self.manifest())
        &&& self.next_start as nat == sum_sizes(self.manifest())
        &&& self.contents@.len() == self.manifest().len()
        &&& (forall|i: int|
            0 <= i < self.manifest().len() ==> self.manifest()[i].size == self.contents@[i].len())
    }

    /// An empty builder: no entries, no archive bytes, next offset zero.
    pub fn new() -> (r: ManifestBuilder)
        ensures
            r.wf(),
            r.manifest() == Seq::<GEntry>::empty(),
            r.contents@ == Seq::<Seq<u8>>::empty(),
            r.next_start == 0,
    {
        let r = ManifestBuilder {
            entries: Vec::new(),
            next_start: 0,
            contents: Ghost(Seq::empty()),
        };
        proof {
            assert(r.manifest() =~= Seq::<GEntry>::empty());
        }
        r
    }

    /// Record one generated file: its entry gets the next free offset as its
    /// start and the content's length as its size, and the content itself is
    /// appended to the archive model. Fails only when the archive would grow
    /// past the machine's word size; the builder is then left unchanged.
    pub fn push(&mut self, path: Vec<u8>, content: &Vec<u8>) -> (r: Result<(), Error>)
        requires
            old(self).wf(),
        ensures
            final(self).wf(),
            match r {
                Ok(()) => {
                    &&& old(self).next_start + content@.len() <= usize::MAX
                    &&& final(self).manifest() == old(self).manifest().push(
                        GEntry {
                            path: path@,
                            size: content@.len(),
                            start: old(self).next_start as nat,
                        },
                    )
                    &&& final(self).contents@ == old(self).contents@.push(content@)
                    &&& final(self).archive() == old(self).archive() + content@
                    &&& final(self).next_start == old(self).next_start + content@.len()
                },
                Err(e) => {
                    &&& e == Error::Overflow
                    &&& old(self).next_start + content@.len() > usize::MAX
                    &&& *final(self) == *old(self)
                },
            },
    {
        match self.next_start.checked_add(content.len()) {
            None => Err(Error::Overflow),
            Some(new_next) => {
                let size = content.len();
                let start = self.next_start;
                let entry = FileEntry { path, size, start };
                let ghost g = GEntry { path: entry.path@, size: size as nat, start: start as nat };
                let ghost old_manifest = self.manifest();
                let ghost old_contents = self.contents@;
                self.entries.push(entry);
                self.next_start = new_next;
                proof {
                    self.contents@ = old_contents.push(content@);
                }
                proof {
                    assert(self.manifest() =~= old_manifest.push(g));
                    lemma_contiguous_push(old_manifest, g);
                    assert(self.manifest().drop_last() =~= old_manifest);
                    assert(self.contents@.drop_last() =~= old_contents);
                    assert(self.archive() =~= concat_all(old_contents) + content@);
                }
                Ok(())
            },
        }
    }
}

/// Pushing an entry that starts at the sum of all sizes so far keeps the
/// offsets contiguous.
proof fn lemma_contiguous_push(es: Seq<GEntry>, g: GEntry)
    requires
        contiguous(es),
        g.start == sum_sizes(es),
    ensures
        contiguous(es.push(g)),
{
    lemma_contiguous_end(es);
    let es2 = es.push(g);
    assert forall|i: int| 0 <= i && i + 1 < es2.len() implies es2[i + 1].start == es2[i].start
        + es2[i].size by {
        if i + 1 < es.len() {
            assert(es2[i] == es[i]);
            assert(es2[i + 1] == es[i + 1]);
        } else {
            assert(es2[i] == es.last());
            assert(es2[i + 1] == g);
        }
    }
}

/// Under contiguity, the sum of all sizes is exactly where the last entry
/// ends (or zero for an empty manifest).
pub proof fn lemma_contiguous_end(es: Seq<GEntry>)
    requires
        contiguous(es),
    ensures
        sum_sizes(es) == if es.len() == 0 {
            0nat
        } else {
            es.last().start + es.last().size
        },
    decreases es.len(),
{
    if es.len() > 0 {
        let pre = es.drop_last();
        assert(contiguous(pre)) by {
            assert(forall|i: int|
                0 <= i && i + 1 < pre.len() ==> #[trigger] pre[i + 1] == es[i + 1] && pre[i] == es[i]);
        }
        lemma_contiguous_end(pre);
        if pre.len() > 0 {
            assert(es.last().start == es[es.len() - 2].start + es[es.len() - 2].size);
            assert(pre.last() == es[es.len() - 2]);
        }
    }
}

/// Under contiguity, each entry starts at the sum of the sizes before it.
pub proof fn lemma_start_is_prefix_sum(es: Seq<GEntry>, i: int)
    requires
        contiguous(es),
        0 <= i < es.len(),
    ensures
        es[i].start == sum_sizes(es.take(i)),
    decreases i,
{
    let pre = es.take(i);
    assert(contiguous(pre)) by {
        assert(forall|j: int|
            0 <= j && j + 1 < pre.len() ==> #[trigger] pre[j + 1] == es[j + 1] && pre[j] == es[j]);
    }
    if i == 0 {
    } else {
        lemma_start_is_prefix_sum(es, i - 1);
        lemma_contiguous_end(pre);
        assert(pre.last() == es[i - 1]);
        assert(es[i].start == es[i - 1].start + es[i - 1].size);
        assert(pre.drop_last() =~= es.take(i - 1));
    }
}

/// The length of a concatenation is the sum of the matching sizes.
proof fn lemma_concat_all_len(cs: Seq<Seq<u8>>, es: Seq<GEntry>)
    requires
        es.len() == cs.len(),
        forall|i: int| 0 <= i < es.len() ==> es[i].size == cs[i].len(),
    ensures
        concat_all(cs).len() == sum_sizes(es),
    decreases cs.len(),
{
    if cs.len() > 0 {
        assert(forall|i: int|
            0 <= i < es.drop_last().len() ==> #[trigger] es.drop_last()[i] == es[i] && cs.drop_last()[i]
                == cs[i]);
        lemma_concat_all_len(cs.drop_last(), es.drop_last());
    }
}

/// Archive length invariant: in any well-formed builder, the archive's total
/// byte length equals the sum of all entries' sizes, and equals where the
/// last entry ends.
pub proof fn lemma_archive_length(b: ManifestBuilder)
    requires
        b.wf(),
    ensures
        b.archive().len() == sum_sizes(b.manifest()),
        b.manifest().len() > 0 ==> b.archive().len() == b.manifest().last().start
            + b.manifest().last().size,
{
    lemma_concat_all_len(b.contents@, b.manifest());
    lemma_contiguous_end(b.manifest());
}

/// Offset contiguity: in any well-formed builder, the first entry starts at
/// offset zero and every later entry starts exactly where the one before it
/// ends.
pub proof fn lemma_offset_contiguity(b: ManifestBuilder)
    requires
        b.wf(),
    ensures
        b.manifest().len() > 0 ==> b.manifest()[0].start == 0,
        forall|i: int|
            0 <= i && i + 1 < b.manifest().len() ==> b.manifest()[i + 1].start
                == b.manifest()[i].start + b.manifest()[i].size,
{
}

/// The segment of a concatenation that a contiguous manifest assigns to
/// entry `i` is exactly the `i`th content.
proof fn lemma_concat_all_segment(cs: Seq<Seq<u8>>, es: Seq<GEntry>, i: int)
    requires
        es.len() == cs.len(),
        forall|j: int| 0 <= j < es.len() ==> es[j].size == cs[j].len(),
        contiguous(es),
        0 <= i < cs.len(),
    ensures
        es[i].start + es[i].size <= concat_all(cs).len(),
        concat_all(cs).subrange(es[i].start as int, es[i].start + es[i].size as int) == cs[i],
    decreases cs.len(),
{
    lemma_concat_all_len(cs, es);
    lemma_start_is_prefix_sum(es, i);
    let pre_cs = cs.drop_last();
    let pre_es = es.drop_last();
    assert(forall|j: int|
        0 <= j && j < pre_es.len() ==> #[trigger] pre_es[j] == es[j] && pre_cs[j] == cs[j]);
    assert(contiguous(pre_es));
    lemma_concat_all_len(pre_cs, pre_es);
    if i == cs.len() - 1 {
        lemma_contiguous_end(pre_es);
        assert(es[i].start == concat_all(pre_cs).len()) by {
            assert(es.take(i) =~= pre_es);
        }
        assert(concat_all(cs) == concat_all(pre_cs) + cs.last());
        assert(concat_all(cs).subrange(es[i].start as int, es[i].start + es[i].size as int) =~= cs[i]);
    } else {
        lemma_concat_all_segment(pre_cs, pre_es, i);
        assert(concat_all(cs) == concat_all(pre_cs) + cs.last());
        assert(es[i].start + es[i].size <= concat_all(pre_cs).len()) by {
            lemma_start_is_prefix_sum(pre_es, i);
            lemma_sum_sizes_prefix_bound(pre_es, i + 1);
            assert(pre_es.take(i + 1).drop_last() =~= pre_es.take(i));
            assert(pre_es.take(i + 1).last() == es[i]);
        }
        assert(concat_all(cs).subrange(es[i].start as int, es[i].start + es[i].size as int)
            =~= concat_all(pre_cs).subrange(es[i].start as int, es[i].start + es[i].size as int));
    }
}

/// The sum of the sizes of a prefix never exceeds the sum over the whole.
proof fn lemma_sum_sizes_prefix_bound(es: Seq<GEntry>, k: int)
    requires
        0 <= k <= es.len(),
    ensures
        sum_sizes(es.take(k)) <= sum_sizes(es),
    decreases es.len(),
{
    if k < es.len() {
        let pre = es.drop_last();
        assert(pre.take(k) =~= es.take(k));
        lemma_sum_sizes_prefix_bound(pre, k);
    } else {
        assert(es.take(k) =~= es);
    }
}

/// Read equivalence, on the model: in any well-formed builder, the bytes
/// that the archive holds between entry `i`'s start and its end are exactly
/// the content that was pushed with entry `i`.
pub proof fn lemma_read_equivalence(b: ManifestBuilder, i: int)
    requires
        b.wf(),
        0 <= i < b.manifest().len(),
    ensures
        b.manifest()[i].start + b.manifest()[i].size <= b.archive().len(),
        b.archive().subrange(
            b.manifest()[i].start as int,
            b.manifest()[i].start + b.manifest()[i].size as int,
        ) == b.contents@[i],
{
    lemma_concat_all_segment(b.contents@, b.manifest(), i);
}

/// Copy one entry's byte range out of an in-memory archive: the executable
/// counterpart of a seek to `entry.start` followed by an exact read of
/// `entry.size` bytes. Fails exactly when the range does not lie inside the
/// archive.
pub fn read_entry(archive: &Vec<u8>, entry: &FileEntry) -> (r: Result<Vec<u8>, Error>)
    ensures
        match r {
            Ok(bytes) => {
                &&& entry.start + entry.size <= archive@.len()
                &&& bytes@ == archive@.subrange(entry.start as int, entry.start + entry.size)
            },
            Err(e) => {
                &&& e == Error::RangeOutOfBounds
                &&& entry.start + entry.size > archive@.len()
            },
        },
{
    let archive_len = archive.len();
    match entry.start.checked_add(entry.size) {
        None => Err(Error::RangeOutOfBounds),
        Some(end) => {
            if end > archive_len {
                return Err(Error::RangeOutOfBounds);
            }
            let mut out: Vec<u8> = Vec::new();
            let mut i: usize = entry.start;
            while i < end
                invariant
                    entry.start <= i <= end,
                    end == entry.start + entry.size,
                    end <= archive@.len(),
                    out@ == archive@.subrange(entry.start as int, i as int),
                decreases end - i,
            {
                out.push(archive[i]);
                i = i + 1;
                proof {
                    assert(out@ =~= archive@.subrange(entry.start as int, i as int));
                }
            }
            Ok(out)
        },
    }
}

} // verus!
