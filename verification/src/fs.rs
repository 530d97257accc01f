//! The store itself: a fixed file table over a shared block pool.
//!
//! All storage lives in fixed-size in-memory regions: a table of
//! [`MAX_FILES`] entry slots, a pool of [`BLOCKS`] blocks of
//! [`BLOCK_SIZE`] bytes each, and an in-use map over the pool.  The contracts
//! of the public operations speak about the abstract view defined in
//! [`crate::model`].

use vstd::prelude::*;

verus! {

use vstd::string::StringSliceAdditionalSpecFns;
use crate::bstring::{bounded_name_bytes, BoundedName};
use crate::model::{
    blocks_for, create_ok, delete_ok, file_content, first_free_slot, freed_at, has_free_slot,
    has_named, listing,
    slot_free, slot_named, valid_name, view_wf, write_ok, FileView, FsView, BLOCKS,
    BLOCK_SIZE, FILENAME_LEN, MAX_BLOCKS_PER_FILE, MAX_FILES,
};

/// Why a store operation was refused.
#[derive(Debug, Clone, Copy, PartialEq, Eq, Structural)]
pub enum FsError {
    /// No file of the given name exists.
    NotFound,
    /// A file of the given name already exists.
    AlreadyExists,
    /// The table has no free slot, or the pool has too few free blocks.
    NoSpace,
    /// The name is empty, too long, or ends in the padding byte.
    NameTooLong,
    /// The payload needs more blocks than one file may own.
    TooManyBlocks,
    /// An argument made no sense.
    InvalidArg,
}

impl FsError {
    /// The one-line description of this error.
    pub open spec fn spec_message(&self) -> Seq<char> {
        match *self {
            FsError::NotFound => "Not found"@,
            FsError::AlreadyExists => "Already exists"@,
            FsError::NoSpace => "No space left"@,
            FsError::NameTooLong => "Name too long"@,
            FsError::TooManyBlocks => "File too large"@,
            FsError::InvalidArg => "Invalid argument"@,
        }
    }

    /// A human-readable one-line message for this error.
    pub fn message(&self) -> (r: &'static str)
        ensures
            r@ == self.spec_message(),
    {
        match *self {
            FsError::NotFound => "Not found",
            FsError::AlreadyExists => "Already exists",
            FsError::NoSpace => "No space left",
            FsError::NameTooLong => "Name too long",
            FsError::TooManyBlocks => "File too large",
            FsError::InvalidArg => "Invalid argument",
        }
    }
}

/// One slot of the file table.
struct FileEntry {
    /// Whether the slot holds a file.
    used: bool,
    /// The file's name, zero-padded to [`FILENAME_LEN`] bytes.
    name: Vec<u8>,
    /// The same name as an owned bounded string, for listing.
    label: BoundedName,
    /// Number of content bytes.
    size: usize,
    /// Indices of the owned blocks, padded with `0xff`.
    blocks: Vec<u8>,
    /// How many entries of `blocks` are in use.
    blocks_used: usize,
}

/// `s` with its trailing zero padding removed.
pub open spec fn trim_padding(s: Seq<u8>) -> Seq<u8>
    decreases s.len(),
{
    if s.len() > 0 && s.last() == 0 {
        trim_padding(s.drop_last())
    } else {
        s
    }
}

/// The name stored in an entry, without padding.
spec fn entry_key(e: FileEntry) -> Seq<u8> {
    trim_padding(e.name@)
}

/// Entry `e` owns block `blk`.
spec fn entry_owns(e: FileEntry, blk: int) -> bool {
    exists|b: int| 0 <= b < e.blocks_used && e.blocks@[b] == blk
}

/// Representation invariant of one entry against the pool's in-use map.
spec fn entry_wf(e: FileEntry, bmap: Seq<bool>) -> bool {
    &&& e.name@.len() == FILENAME_LEN
    &&& e.blocks@.len() == MAX_BLOCKS_PER_FILE
    &&& e.blocks_used <= MAX_BLOCKS_PER_FILE
    &&& e.blocks_used == blocks_for(e.size as nat)
    &&& e.size <= MAX_BLOCKS_PER_FILE * BLOCK_SIZE
    &&& !e.used ==> e.blocks_used == 0 && e.size == 0
    &&& e.used ==> entry_key(e).len() >= 1 && bounded_name_bytes(e.label) == entry_key(e)
    &&& forall|b: int|
        0 <= b < e.blocks_used ==> (#[trigger] e.blocks@[b]) < BLOCKS && bmap[e.blocks@[b] as int]
    &&& forall|a: int, b: int|
        0 <= a < b < e.blocks_used ==> (#[trigger] e.blocks@[a]) != (#[trigger] e.blocks@[b])
}

/// How many blocks the in-use map reports as free.
pub open spec fn free_count(m: Seq<bool>) -> nat
    decreases m.len(),
{
    if m.len() == 0 {
        0
    } else {
        free_count(m.drop_last()) + if m.last() {
            0nat
        } else {
            1nat
        }
    }
}

/// The position in the pool's byte arena of offset `i` of the file whose
/// block list is `blocks`.
spec fn block_addr(blocks: Seq<u8>, i: int) -> int {
    blocks[i / (BLOCK_SIZE as int)] * (BLOCK_SIZE as int) + i % (BLOCK_SIZE as int)
}

/// The content bytes of an entry, read out of the arena.
spec fn entry_content(e: FileEntry, data: Seq<u8>) -> Seq<u8> {
    Seq::new(e.size as nat, |i: int| data[block_addr(e.blocks@, i)])
}

/// What a client sees of one entry.
spec fn slot_view(e: FileEntry, data: Seq<u8>) -> Option<FileView> {
    if e.used {
        Some(FileView { name: entry_key(e), content: entry_content(e, data) })
    } else {
        None
    }
}

/// The store: file table, block in-use map, and the byte arena of all blocks.
pub struct SimpleFs {
    entries: Vec<FileEntry>,
    block_map: Vec<bool>,
    data: Vec<u8>,
}

impl View for SimpleFs {
    type V = FsView;

    closed spec fn view(&self) -> FsView {
        FsView {
            slots: Seq::new(MAX_FILES as nat, |i: int| slot_view(self.entries@[i], self.data@)),
            free: free_count(self.block_map@),
        }
    }
}

impl SimpleFs {
    /// Representation invariant: fixed sizes, well-formed entries, unique
    /// names, and no block owned by two entries.
    pub closed spec fn wf(&self) -> bool {
        &&& self.entries@.len() == MAX_FILES
        &&& self.block_map@.len() == BLOCKS
        &&& self.data@.len() == BLOCKS * BLOCK_SIZE
        &&& forall|i: int|
            0 <= i < MAX_FILES ==> entry_wf(#[trigger] self.entries@[i], self.block_map@)
        &&& forall|i: int, j: int|
            0 <= i < j < MAX_FILES && self.entries@[i].used && self.entries@[j].used ==> entry_key(
                #[trigger] self.entries@[i],
            ) != entry_key(#[trigger] self.entries@[j])
        &&& forall|i: int, j: int, blk: int|
            0 <= i < j < MAX_FILES ==> !(#[trigger] entry_owns(self.entries@[i], blk)
                && #[trigger] entry_owns(self.entries@[j], blk))
    }

    /// No block leaks: every block the in-use map marks is referenced by
    /// some entry's block list.  The store operations preserve this; claiming
    /// blocks straight from the pool with [`Self::allocate_blocks`] hands
    /// them out unreferenced, and a later `write` is what attaches blocks to
    /// an entry.
    pub closed spec fn no_leaks(&self) -> bool {
        forall|blk: int|
            0 <= blk < BLOCKS && (#[trigger] self.block_map@[blk]) ==> exists|i: int|
                0 <= i < MAX_FILES && entry_owns(self.entries@[i], blk)
    }

    /// An empty store: every slot free, every block free, the arena zeroed.
    pub fn new() -> (r: Self)
        ensures
            r.wf(),
            view_wf(r@),
            r.no_leaks(),
            forall|i: int| 0 <= i < MAX_FILES ==> r@.slots[i] is None,
            r@.free == BLOCKS,
    {
        let mut entries: Vec<FileEntry> = Vec::new();
        let mut i: usize = 0;
        while i < MAX_FILES
            invariant
                i <= MAX_FILES,
                entries@.len() == i,
                forall|k: int|
                    0 <= k < i ==> !(#[trigger] entries@[k]).used && entries@[k].size == 0
                        && entries@[k].blocks_used == 0 && entries@[k].name@.len() == FILENAME_LEN
                        && entries@[k].blocks@.len() == MAX_BLOCKS_PER_FILE,
            decreases MAX_FILES - i,
        {
            entries.push(empty_entry());
            i += 1;
        }
        let mut block_map: Vec<bool> = Vec::new();
        let mut b: usize = 0;
        while b < BLOCKS
            invariant
                b <= BLOCKS,
                block_map@.len() == b,
                forall|k: int| 0 <= k < b ==> !(#[trigger] block_map@[k]),
            decreases BLOCKS - b,
        {
            block_map.push(false);
            b += 1;
        }
        let data = filled_bytes(BLOCKS * BLOCK_SIZE, 0);
        let r = SimpleFs { entries, block_map, data };
        proof {
            lemma_free_count_all_free(r.block_map@);
            assert(blocks_for(0) == 0);
            assert(r.wf());
            assert(r.no_leaks());
        }
        r
    }
}

/// The parts of the store an operation did not touch: both states hold the
/// same table, in-use map and arena.
pub closed spec fn rep_eq(a: SimpleFs, b: SimpleFs) -> bool {
    &&& a.entries@ == b.entries@
    &&& a.block_map@ == b.block_map@
    &&& a.data@ == b.data@
}

/// What a successful allocation did to the representation: the table and the
/// arena are untouched, and the returned indices are distinct blocks that were
/// free and are now the only newly marked ones.
pub closed spec fn alloc_post(pre: SimpleFs, post: SimpleFs, out: Seq<u8>, n: int) -> bool {
    &&& post.entries@ == pre.entries@
    &&& post.data@ == pre.data@
    &&& post.block_map@.len() == pre.block_map@.len()
    &&& out.len() == n
    &&& forall|b: int|
        0 <= b < n ==> (#[trigger] out[b]) < BLOCKS && !pre.block_map@[out[b] as int]
    &&& forall|a: int, b: int| 0 <= a < b < n ==> (#[trigger] out[a]) != (#[trigger] out[b])
    &&& forall|k: int|
        0 <= k < pre.block_map@.len() ==> post.block_map@[k] == (pre.block_map@[k]
            || out.contains(k as u8))
}

impl SimpleFs {
    /// Request `blocks_needed` free blocks from the pool, scanning the in-use
    /// map in ascending index order.  On success the returned indices are
    /// marked in use; on failure every provisional reservation is rolled back
    /// and nothing changes.
    pub fn allocate_blocks(&mut self, blocks_needed: usize) -> (r: Result<Vec<u8>, FsError>)
        requires
            old(self).wf(),
        ensures
            final(self).wf(),
            blocks_needed > MAX_BLOCKS_PER_FILE ==> r == Err::<Vec<u8>, FsError>(
                FsError::TooManyBlocks,
            ) && rep_eq(*old(self), *final(self)) && final(self)@ == old(self)@,
            blocks_needed <= MAX_BLOCKS_PER_FILE && blocks_needed > old(self)@.free ==> r
                == Err::<Vec<u8>, FsError>(FsError::NoSpace) && rep_eq(*old(self), *final(self))
                && final(self)@ == old(self)@,
            blocks_needed <= MAX_BLOCKS_PER_FILE && blocks_needed <= old(self)@.free ==> (
            r matches Ok(out) && out@.len() == blocks_needed && alloc_post(
                *old(self),
                *final(self),
                out@,
                blocks_needed as int,
            ) && final(self)@.slots == old(self)@.slots && final(self)@.free == old(self)@.free
                - blocks_needed),
    {
        if blocks_needed > MAX_BLOCKS_PER_FILE {
            return Err(FsError::TooManyBlocks);
        }
        let ghost m0 = self.block_map@;
        let mut out: Vec<u8> = Vec::new();
        let mut found: usize = 0;
        let mut i: usize = 0;
        while i < BLOCKS && found < blocks_needed
            invariant
                old(self).wf(),
                blocks_needed <= MAX_BLOCKS_PER_FILE,
                m0 == old(self).block_map@,
                self.entries@ == old(self).entries@,
                self.data@ == old(self).data@,
                self.block_map@.len() == BLOCKS,
                i <= BLOCKS,
                found <= blocks_needed,
                out@.len() == found,
                forall|b: int| 0 <= b < found ==> (#[trigger] out@[b]) < i,
                forall|b: int| 0 <= b < found ==> !m0[(#[trigger] out@[b]) as int],
                forall|a: int, b: int| 0 <= a < b < found ==> (#[trigger] out@[a]) < (#[trigger] out@[b]),
                forall|k: int|
                    0 <= k < BLOCKS ==> self.block_map@[k] == (m0[k] || out@.contains(k as u8)),
                forall|k: int| 0 <= k < i ==> self.block_map@[k],
                free_count(self.block_map@) + found == free_count(m0),
            decreases BLOCKS - i,
        {
            if !self.block_map[i] {
                proof {
                    lemma_free_count_update(self.block_map@, i as int, true);
                }
                let ghost out_before = out@;
                self.block_map[i] = true;
                out.push(i as u8);
                found += 1;
                proof {
                    assert(out@[out@.len() - 1] == i as u8);
                    assert forall|k: int|
                        0 <= k < BLOCKS implies self.block_map@[k] == (m0[k] || out@.contains(
                        k as u8,
                    )) by {
                        if k == i as int {
                            assert(out@.contains(k as u8));
                        } else {
                            if out_before.contains(k as u8) {
                                let b = choose|b: int|
                                    0 <= b < out_before.len() && out_before[b] == k as u8;
                                assert(out@[b] == k as u8);
                            }
                            if out@.contains(k as u8) {
                                let b = choose|b: int| 0 <= b < out@.len() && out@[b] == k as u8;
                                assert(b < out@.len() - 1);
                                assert(out_before[b] == k as u8);
                            }
                        }
                    }
                }
            }
            i += 1;
        }
        if found < blocks_needed {
            proof {
                lemma_free_count_full(self.block_map@);
                assert(out@.skip(0) =~= out@);
            }
            let mut j: usize = 0;
            while j < found
                invariant
                    old(self).wf(),
                    m0 == old(self).block_map@,
                    self.entries@ == old(self).entries@,
                    self.data@ == old(self).data@,
                    self.block_map@.len() == BLOCKS,
                    j <= found,
                    out@.len() == found,
                    forall|b: int| 0 <= b < found ==> (#[trigger] out@[b]) < BLOCKS,
                    forall|b: int| 0 <= b < found ==> !m0[(#[trigger] out@[b]) as int],
                    forall|a: int, b: int| 0 <= a < b < found ==> (#[trigger] out@[a]) < (#[trigger] out@[b]),
                    forall|k: int|
                        0 <= k < BLOCKS ==> self.block_map@[k] == (m0[k] || out@.skip(
                            j as int,
                        ).contains(k as u8)),
                decreases found - j,
            {
                let blk = out[j];
                proof {
                    assert(out@.skip(j as int)[0] == blk);
                }
                self.block_map[blk as usize] = false;
                j += 1;
                proof {
                    assert forall|k: int|
                        0 <= k < BLOCKS implies self.block_map@[k] == (m0[k] || out@.skip(
                        j as int,
                    ).contains(k as u8)) by {
                        if k == blk as int {
                            if out@.skip(j as int).contains(k as u8) {
                                let b = choose|b: int|
                                    0 <= b < out@.skip(j as int).len() && (#[trigger] out@.skip(
                                        j as int,
                                    )[b]) == k as u8;
                                assert(out@[b + j] == out@[j - 1]);
                            }
                        } else {
                            if out@.skip(j - 1).contains(k as u8) {
                                let b = choose|b: int|
                                    0 <= b < out@.skip(j - 1).len() && (#[trigger] out@.skip(j - 1)[b])
                                        == k as u8;
                                assert(b >= 1);
                                assert(out@.skip(j as int)[b - 1] == k as u8);
                            }
                            if out@.skip(j as int).contains(k as u8) {
                                let b = choose|b: int|
                                    0 <= b < out@.skip(j as int).len() && (#[trigger] out@.skip(
                                        j as int,
                                    )[b]) == k as u8;
                                assert(out@.skip(j - 1)[b + 1] == k as u8);
                            }
                        }
                    }
                }
            }
            proof {
                assert forall|k: int| 0 <= k < BLOCKS implies self.block_map@[k] == m0[k] by {
                    assert(!out@.skip(found as int).contains(k as u8));
                }
                assert(self.block_map@ =~= m0);
                assert(self@.slots =~= old(self)@.slots);
                assert(self@ =~= old(self)@);
            }
            return Err(FsError::NoSpace);
        }
        proof {
            assert(free_count(m0) >= found);
            assert forall|k: int|
                0 <= k < MAX_FILES implies entry_wf(self.entries@[k], self.block_map@) by {
                assert(entry_wf(old(self).entries@[k], m0));
            }
            assert(self.wf());
            assert(self@.slots =~= old(self)@.slots);
            assert(alloc_post(*old(self), *self, out@, blocks_needed as int));
        }
        Ok(out)
    }

    /// Return the given blocks to the pool and zero their storage.  The
    /// caller hands in blocks that no entry references any more.
    fn free_blocks(&mut self, blocks: &Vec<u8>, blocks_used: usize)
        requires
            old(self).wf(),
            blocks_used <= blocks@.len(),
            forall|b: int|
                0 <= b < blocks_used ==> (#[trigger] blocks@[b]) < BLOCKS
                    && old(self).block_map@[blocks@[b] as int],
            forall|a: int, b: int|
                0 <= a < b < blocks_used ==> (#[trigger] blocks@[a]) != (#[trigger] blocks@[b]),
            forall|k: int, b: int|
                0 <= k < MAX_FILES && 0 <= b < blocks_used ==> !(#[trigger] entry_owns(
                    old(self).entries@[k],
                    blocks@[b] as int,
                )),
        ensures
            final(self).wf(),
            final(self).entries@ == old(self).entries@,
            final(self).block_map@.len() == BLOCKS,
            final(self).data@.len() == old(self).data@.len(),
            forall|k: int|
                0 <= k < BLOCKS ==> final(self).block_map@[k] == (old(self).block_map@[k]
                    && !blocks@.take(blocks_used as int).contains(k as u8)),
            free_count(final(self).block_map@) == free_count(old(self).block_map@) + blocks_used,
            forall|a: int|
                0 <= a < final(self).data@.len() ==> final(self).data@[a] == (if blocks@.take(
                    blocks_used as int,
                ).contains((a / (BLOCK_SIZE as int)) as u8) {
                    0u8
                } else {
                    old(self).data@[a]
                }),
    {
        let mut bidx: usize = 0;
        while bidx < blocks_used
            invariant
                old(self).wf(),
                blocks_used <= blocks@.len(),
                bidx <= blocks_used,
                forall|b: int|
                    0 <= b < blocks_used ==> (#[trigger] blocks@[b]) < BLOCKS
                        && old(self).block_map@[blocks@[b] as int],
                forall|a: int, b: int|
                    0 <= a < b < blocks_used ==> (#[trigger] blocks@[a]) != (
                    #[trigger] blocks@[b]),
                self.entries@ == old(self).entries@,
                self.block_map@.len() == BLOCKS,
                self.data@.len() == old(self).data@.len(),
                self.data@.len() == BLOCKS * BLOCK_SIZE,
                forall|k: int|
                    0 <= k < BLOCKS ==> self.block_map@[k] == (old(self).block_map@[k]
                        && !blocks@.take(bidx as int).contains(k as u8)),
                free_count(self.block_map@) == free_count(old(self).block_map@) + bidx,
                forall|a: int|
                    0 <= a < self.data@.len() ==> self.data@[a] == (if blocks@.take(
                        bidx as int,
                    ).contains((a / (BLOCK_SIZE as int)) as u8) {
                        0u8
                    } else {
                        old(self).data@[a]
                    }),
            decreases blocks_used - bidx,
        {
            let blk = blocks[bidx];
            proof {
                if blocks@.take(bidx as int).contains(blk) {
                    let b = choose|b: int|
                        0 <= b < bidx && (#[trigger] blocks@.take(bidx as int)[b]) == blk;
                    assert(blocks@[b] == blocks@[bidx as int]);
                }
                assert(self.block_map@[blk as int]);
                lemma_free_count_update(self.block_map@, blk as int, false);
            }
            self.block_map[blk as usize] = false;
            let ghost map_after = self.block_map@;
            let ghost data_before = self.data@;
            let base = (blk as usize) * BLOCK_SIZE;
            let mut o: usize = 0;
            while o < BLOCK_SIZE
                invariant
                    o <= BLOCK_SIZE,
                    blk < BLOCKS,
                    base == blk * BLOCK_SIZE,
                    self.entries@ == old(self).entries@,
                    self.block_map@ == map_after,
                    self.data@.len() == data_before.len(),
                    self.data@.len() == BLOCKS * BLOCK_SIZE,
                    forall|a: int|
                        0 <= a < self.data@.len() ==> self.data@[a] == (if base <= a < base + o {
                            0u8
                        } else {
                            data_before[a]
                        }),
                decreases BLOCK_SIZE - o,
            {
                self.data[base + o] = 0;
                o += 1;
            }
            bidx += 1;
            proof {
                assert forall|k: int|
                    0 <= k < BLOCKS implies self.block_map@[k] == (old(self).block_map@[k]
                    && !blocks@.take(bidx as int).contains(k as u8)) by {
                    assert(blocks@.take(bidx as int) =~= blocks@.take(bidx - 1).push(blk));
                    if k == blk as int {
                        assert(blocks@.take(bidx as int)[bidx - 1] == blk);
                        assert(blocks@.take(bidx as int).contains(k as u8));
                    } else {
                        if blocks@.take(bidx - 1).contains(k as u8) {
                            let b = choose|b: int|
                                0 <= b < bidx - 1 && (#[trigger] blocks@.take(bidx - 1)[b]) == k as u8;
                            assert(blocks@.take(bidx as int)[b] == k as u8);
                        }
                        if blocks@.take(bidx as int).contains(k as u8) {
                            let b = choose|b: int|
                                0 <= b < bidx && (#[trigger] blocks@.take(bidx as int)[b]) == k as u8;
                            assert(b < bidx - 1);
                            assert(blocks@.take(bidx - 1)[b] == k as u8);
                        }
                    }
                }
                assert forall|a: int|
                    0 <= a < self.data@.len() implies self.data@[a] == (if blocks@.take(
                    bidx as int,
                ).contains((a / (BLOCK_SIZE as int)) as u8) {
                    0u8
                } else {
                    old(self).data@[a]
                }) by {
                    lemma_block_range(blk as int, a);
                    assert(blocks@.take(bidx as int) =~= blocks@.take(bidx - 1).push(blk));
                    let q = (a / (BLOCK_SIZE as int)) as u8;
                    if blocks@.take(bidx - 1).contains(q) {
                        let b = choose|b: int|
                            0 <= b < bidx - 1 && (#[trigger] blocks@.take(bidx - 1)[b]) == q;
                        assert(blocks@.take(bidx as int)[b] == q);
                    }
                    if blocks@.take(bidx as int).contains(q) && q != blk {
                        let b = choose|b: int|
                            0 <= b < bidx && (#[trigger] blocks@.take(bidx as int)[b]) == q;
                        assert(b < bidx - 1);
                        assert(blocks@.take(bidx - 1)[b] == q);
                    }
                    assert(0 <= a / (BLOCK_SIZE as int) < BLOCKS) by {
                        lemma_div_bound(a, BLOCKS as int);
                    }
                }
            }
        }
        proof {
            assert forall|k: int|
                0 <= k < MAX_FILES implies entry_wf(self.entries@[k], self.block_map@) by {
                assert(entry_wf(old(self).entries@[k], old(self).block_map@));
                assert forall|b: int|
                    0 <= b < self.entries@[k].blocks_used implies (#[trigger] self.entries@[k].blocks@[b])
                    < BLOCKS && self.block_map@[self.entries@[k].blocks@[b] as int] by {
                    let blkref = self.entries@[k].blocks@[b] as int;
                    assert(entry_owns(old(self).entries@[k], blkref));
                    if blocks@.take(blocks_used as int).contains(blkref as u8) {
                        let c = choose|c: int|
                            0 <= c < blocks_used && blocks@.take(blocks_used as int)[c]
                                == blkref as u8;
                        assert(!entry_owns(old(self).entries@[k], blocks@[c] as int));
                    }
                }
            }
            assert(self.wf());
        }
    }
}

impl SimpleFs {
    /// Create an empty file named `name`.  No blocks are touched.
    pub fn create(&mut self, name: &str) -> (r: Result<(), FsError>)
        requires
            old(self).wf(),
        ensures
            final(self).wf(),
            view_wf(final(self)@),
            old(self).no_leaks() ==> final(self).no_leaks(),
            !valid_name(name.spec_bytes()) ==> r == Err::<(), FsError>(FsError::NameTooLong)
                && final(self)@ == old(self)@,
            valid_name(name.spec_bytes()) && has_named(old(self)@, name.spec_bytes()) ==> r
                == Err::<(), FsError>(FsError::AlreadyExists) && final(self)@ == old(self)@,
            valid_name(name.spec_bytes()) && !has_named(old(self)@, name.spec_bytes())
                && !has_free_slot(old(self)@) ==> r == Err::<(), FsError>(FsError::NoSpace)
                && final(self)@ == old(self)@,
            valid_name(name.spec_bytes()) && !has_named(old(self)@, name.spec_bytes())
                && has_free_slot(old(self)@) ==> r == Ok::<(), FsError>(()) && (exists|j: int|
                first_free_slot(old(self)@, j) && final(self)@ == create_ok(
                    old(self)@,
                    name.spec_bytes(),
                    j,
                )),
    {
        proof {
            lemma_wf_view(self);
        }
        let q: &[u8] = name.as_bytes();
        let qlen = q.len();
        if qlen == 0 || qlen > FILENAME_LEN || q[qlen - 1] == 0 {
            return Err(FsError::NameTooLong);
        }
        if let Some(i) = self.find_entry(name) {
            proof {
                assert(slot_named(self@, i as int, name.spec_bytes()));
            }
            return Err(FsError::AlreadyExists);
        }
        proof {
            assert forall|i: int| !slot_named(self@, i, name.spec_bytes()) by {
                if 0 <= i < MAX_FILES {
                    assert(self@.slots[i] == slot_view(self.entries@[i], self.data@));
                }
            }
        }
        let idx = match self.find_free_entry() {
            Some(j) => j,
            None => {
                proof {
                    assert forall|j: int| !slot_free(self@, j) by {
                        if 0 <= j < MAX_FILES {
                            assert(self.entries@[j].used);
                        }
                    }
                }
                return Err(FsError::NoSpace);
            },
        };
        let mut e = empty_entry();
        let mut ni: usize = 0;
        while ni < qlen
            invariant
                ni <= qlen,
                qlen == q@.len(),
                1 <= qlen <= FILENAME_LEN,
                e.name@.len() == FILENAME_LEN,
                e.blocks@.len() == MAX_BLOCKS_PER_FILE,
                !e.used,
                e.size == 0,
                e.blocks_used == 0,
                forall|k: int| 0 <= k < ni ==> e.name@[k] == q@[k],
                forall|k: int| ni <= k < FILENAME_LEN ==> e.name@[k] == 0,
            decreases qlen - ni,
        {
            e.name[ni] = q[ni];
            ni += 1;
        }
        e.used = true;
        e.label = BoundedName::from_name(name);
        proof {
            assert(e.name@.take(qlen as int) =~= q@);
            lemma_trim_of_padded(q@, e.name@);
            assert(entry_key(e) == q@);
        }
        let ghost pre = *self;
        self.entries[idx] = e;
        proof {
            let k = name.spec_bytes();
            assert(blocks_for(0) == 0);
            assert forall|m: int|
                0 <= m < MAX_FILES implies entry_wf(
                #[trigger] self.entries@[m],
                self.block_map@,
            ) by {
                assert(entry_wf(pre.entries@[m], pre.block_map@));
            }
            assert forall|i: int, j: int, blk: int|
                0 <= i < j < MAX_FILES implies !(#[trigger] entry_owns(self.entries@[i], blk)
                && #[trigger] entry_owns(self.entries@[j], blk)) by {
                assert(!entry_owns(e, blk));
                if i != idx as int && j != idx as int {
                    assert(!(entry_owns(pre.entries@[i], blk) && entry_owns(
                        pre.entries@[j],
                        blk,
                    )));
                }
            }
            assert(self.wf());
            lemma_wf_view(self);
            assert(first_free_slot(pre@, idx as int)) by {
                assert forall|i: int| 0 <= i < idx as int implies pre@.slots[i] is Some by {
                    assert(pre.entries@[i].used);
                }
            }
            let target = create_ok(pre@, k, idx as int);
            assert forall|m: int| 0 <= m < MAX_FILES implies self@.slots[m] == target.slots[m] by {
                if m == idx as int {
                    assert(entry_content(e, self.data@) =~= Seq::<u8>::empty());
                } else {
                    assert(self.entries@[m] == pre.entries@[m]);
                }
            }
            assert(self@.slots =~= target.slots);
            assert(self@ =~= target);
            if pre.no_leaks() {
                assert forall|blk: int|
                    0 <= blk < BLOCKS && (#[trigger] self.block_map@[blk]) implies exists|i: int|
                    0 <= i < MAX_FILES && entry_owns(self.entries@[i], blk) by {
                    let i = choose|i: int|
                        0 <= i < MAX_FILES && entry_owns(pre.entries@[i], blk);
                    assert(entry_wf(pre.entries@[idx as int], pre.block_map@));
                    assert(i != idx as int);
                    assert(entry_owns(self.entries@[i], blk));
                }
                assert(self.no_leaks());
            }
        }
        Ok(())
    }

    /// Delete the file named `name`, clearing its slot and returning all its
    /// blocks to the pool.
    pub fn delete(&mut self, name: &str) -> (r: Result<(), FsError>)
        requires
            old(self).wf(),
        ensures
            final(self).wf(),
            view_wf(final(self)@),
            old(self).no_leaks() ==> final(self).no_leaks(),
            !has_named(old(self)@, name.spec_bytes()) ==> r == Err::<(), FsError>(
                FsError::NotFound,
            ) && final(self)@ == old(self)@,
            has_named(old(self)@, name.spec_bytes()) ==> r == Ok::<(), FsError>(()) && (exists|
                i: int,
            |
                slot_named(old(self)@, i, name.spec_bytes()) && final(self)@ == delete_ok(
                    old(self)@,
                    i,
                )),
    {
        proof {
            lemma_wf_view(self);
        }
        let idx = match self.find_entry(name) {
            Some(i) => i,
            None => {
                proof {
                    assert forall|i: int| !slot_named(self@, i, name.spec_bytes()) by {
                        if 0 <= i < MAX_FILES {
                            assert(self@.slots[i] == slot_view(self.entries@[i], self.data@));
                        }
                    }
                }
                return Err(FsError::NotFound);
            },
        };
        proof {
            assert(slot_named(self@, idx as int, name.spec_bytes()));
        }
        let ghost pre = *self;
        let mut removed = empty_entry();
        core::mem::swap(&mut self.entries[idx], &mut removed);
        let bu = removed.blocks_used;
        proof {
            assert(removed == pre.entries@[idx as int]);
            assert(entry_wf(removed, pre.block_map@));
            assert forall|m: int|
                0 <= m < MAX_FILES implies entry_wf(
                #[trigger] self.entries@[m],
                self.block_map@,
            ) by {
                assert(entry_wf(pre.entries@[m], pre.block_map@));
            }
            assert forall|i: int, j: int, blk: int|
                0 <= i < j < MAX_FILES implies !(#[trigger] entry_owns(self.entries@[i], blk)
                && #[trigger] entry_owns(self.entries@[j], blk)) by {
                if i != idx as int && j != idx as int {
                    assert(!(entry_owns(pre.entries@[i], blk) && entry_owns(
                        pre.entries@[j],
                        blk,
                    )));
                }
            }
            assert(self.wf());
            assert forall|k: int, b: int|
                0 <= k < MAX_FILES && 0 <= b < bu implies !(#[trigger] entry_owns(
                self.entries@[k],
                removed.blocks@[b] as int,
            )) by {
                let blk = removed.blocks@[b] as int;
                if k != idx as int {
                    assert(entry_owns(pre.entries@[idx as int], blk));
                    assert(!(entry_owns(pre.entries@[min_int(k, idx as int)], blk) && entry_owns(
                        pre.entries@[max_int(k, idx as int)],
                        blk,
                    )));
                }
            }
        }
        let ghost mid = *self;
        self.free_blocks(&removed.blocks, bu);
        proof {
            lemma_blocks_for(removed.size as nat);
            let k = name.spec_bytes();
            let target = delete_ok(pre@, idx as int);
            let ghost touched = removed.blocks@.take(bu as int);
            assert forall|m: int| 0 <= m < MAX_FILES implies self@.slots[m] == target.slots[m] by {
                if m != idx as int {
                    assert(self.entries@[m] == pre.entries@[m]);
                    assert(entry_wf(pre.entries@[m], pre.block_map@));
                    if pre.entries@[m].used {
                        assert forall|b: int|
                            0 <= b < pre.entries@[m].blocks_used implies !touched.contains(
                            #[trigger] pre.entries@[m].blocks@[b],
                        ) by {
                            if touched.contains(pre.entries@[m].blocks@[b]) {
                                let c = choose|c: int|
                                    0 <= c < touched.len() && touched[c]
                                        == pre.entries@[m].blocks@[b];
                                let blk = pre.entries@[m].blocks@[b] as int;
                                assert(entry_owns(pre.entries@[idx as int], blk));
                                assert(entry_owns(pre.entries@[m], blk));
                                assert(!(entry_owns(pre.entries@[min_int(m, idx as int)], blk)
                                    && entry_owns(pre.entries@[max_int(m, idx as int)], blk)));
                            }
                        }
                        lemma_content_frame(
                            pre.entries@[m],
                            pre.data@,
                            self.data@,
                            removed.blocks@,
                            bu as int,
                        );
                    }
                }
            }
            assert(self@.slots =~= target.slots);
            assert(freed_at(pre@, idx as int) == bu) by {
                assert(pre@.slots[idx as int] == slot_view(pre.entries@[idx as int], pre.data@));
                assert(entry_content(removed, pre.data@).len() == removed.size);
            }
            assert(self@ =~= target);
            lemma_wf_view(self);
            if pre.no_leaks() {
                assert forall|blk: int|
                    0 <= blk < BLOCKS && (#[trigger] self.block_map@[blk]) implies exists|i: int|
                    0 <= i < MAX_FILES && entry_owns(self.entries@[i], blk) by {
                    assert(pre.block_map@[blk]);
                    let i = choose|i: int|
                        0 <= i < MAX_FILES && entry_owns(pre.entries@[i], blk);
                    if i == idx as int {
                        let b = choose|b: int|
                            0 <= b < pre.entries@[idx as int].blocks_used
                                && pre.entries@[idx as int].blocks@[b] == blk;
                        assert(removed.blocks@.take(bu as int)[b] == blk as u8);
                        assert(removed.blocks@.take(bu as int).contains(blk as u8));
                        assert(!self.block_map@[blk]);
                    } else {
                        assert(entry_owns(self.entries@[i], blk));
                    }
                }
                assert(self.no_leaks());
            }
        }
        Ok(())
    }
}

impl SimpleFs {
    /// Store `data` under `name`, replacing any previous content wholesale.
    ///
    /// An oversized payload is refused before anything changes.  Otherwise an
    /// existing file's old blocks are released first; if the subsequent batch
    /// allocation fails, the file is left present but empty — the old content
    /// is deliberately lost, which is the documented overwrite policy.
    #[verifier::rlimit(100)]
    pub fn write(&mut self, name: &str, data: &[u8]) -> (r: Result<(), FsError>)
        requires
            old(self).wf(),
        ensures
            final(self).wf(),
            view_wf(final(self)@),
            old(self).no_leaks() ==> final(self).no_leaks(),
            !valid_name(name.spec_bytes()) ==> r == Err::<(), FsError>(FsError::NameTooLong)
                && final(self)@ == old(self)@,
            valid_name(name.spec_bytes()) && blocks_for(data@.len()) > MAX_BLOCKS_PER_FILE ==> r
                == Err::<(), FsError>(FsError::TooManyBlocks) && final(self)@ == old(self)@,
            valid_name(name.spec_bytes()) && blocks_for(data@.len()) <= MAX_BLOCKS_PER_FILE
                && has_named(old(self)@, name.spec_bytes()) ==> (exists|i: int|
                slot_named(old(self)@, i, name.spec_bytes()) && (if blocks_for(data@.len())
                    <= old(self)@.free + freed_at(old(self)@, i) {
                    r == Ok::<(), FsError>(()) && final(self)@ == write_ok(
                        old(self)@,
                        name.spec_bytes(),
                        data@,
                        i,
                    )
                } else {
                    r == Err::<(), FsError>(FsError::NoSpace) && final(self)@ == write_ok(
                        old(self)@,
                        name.spec_bytes(),
                        Seq::<u8>::empty(),
                        i,
                    )
                })),
            valid_name(name.spec_bytes()) && blocks_for(data@.len()) <= MAX_BLOCKS_PER_FILE
                && !has_named(old(self)@, name.spec_bytes()) && !has_free_slot(old(self)@) ==> r
                == Err::<(), FsError>(FsError::NoSpace) && final(self)@ == old(self)@,
            valid_name(name.spec_bytes()) && blocks_for(data@.len()) <= MAX_BLOCKS_PER_FILE
                && !has_named(old(self)@, name.spec_bytes()) && has_free_slot(old(self)@) ==> (
            exists|j: int|
                first_free_slot(old(self)@, j) && (if blocks_for(data@.len()) <= old(self)@.free {
                    r == Ok::<(), FsError>(()) && final(self)@ == write_ok(
                        old(self)@,
                        name.spec_bytes(),
                        data@,
                        j,
                    )
                } else {
                    r == Err::<(), FsError>(FsError::NoSpace) && final(self)@ == write_ok(
                        old(self)@,
                        name.spec_bytes(),
                        Seq::<u8>::empty(),
                        j,
                    )
                })),
    {
        proof {
            lemma_wf_view(self);
            lemma_blocks_for_le(data@.len(), MAX_BLOCKS_PER_FILE as nat);
            lemma_blocks_for(data@.len());
        }
        let q: &[u8] = name.as_bytes();
        let qlen = q.len();
        if qlen == 0 || qlen > FILENAME_LEN || q[qlen - 1] == 0 {
            return Err(FsError::NameTooLong);
        }
        if data.len() > MAX_BLOCKS_PER_FILE * BLOCK_SIZE {
            return Err(FsError::TooManyBlocks);
        }
        let blocks_needed = if data.len() == 0 {
            0
        } else {
            (data.len() - 1) / BLOCK_SIZE + 1
        };
        proof {
            if data@.len() > 0 {
                assert((data@.len() - 1) / (BLOCK_SIZE as int) + 1 == blocks_for(data@.len()))
                    by (nonlinear_arith)
                    requires
                        data@.len() >= 1,
                ;
            }
            assert(blocks_needed == blocks_for(data@.len()));
        }
        let ghost pre = *self;
        let ghost k = name.spec_bytes();
        let ghost existed: bool;
        let idx: usize;
        match self.find_entry(name) {
            Some(i) => {
                proof {
                    existed = true;
                    assert(slot_named(pre@, i as int, k));
                }
                idx = i;
                let mut old_blocks: Vec<u8> = filled_bytes(MAX_BLOCKS_PER_FILE, 0xff);
                core::mem::swap(&mut self.entries[idx].blocks, &mut old_blocks);
                let old_bu = self.entries[idx].blocks_used;
                self.entries[idx].blocks_used = 0;
                self.entries[idx].size = 0;
                proof {
                    assert(blocks_for(0) == 0);
                    assert(entry_wf(pre.entries@[idx as int], pre.block_map@));
                    assert(entry_key(self.entries@[idx as int]) == k);
                    assert forall|m: int|
                        0 <= m < MAX_FILES implies entry_wf(
                        #[trigger] self.entries@[m],
                        self.block_map@,
                    ) by {
                        assert(entry_wf(pre.entries@[m], pre.block_map@));
                    }
                    assert forall|i2: int, j2: int, blk: int|
                        0 <= i2 < j2 < MAX_FILES implies !(#[trigger] entry_owns(
                        self.entries@[i2],
                        blk,
                    ) && #[trigger] entry_owns(self.entries@[j2], blk)) by {
                        if i2 != idx as int && j2 != idx as int {
                            assert(!(entry_owns(pre.entries@[i2], blk) && entry_owns(
                                pre.entries@[j2],
                                blk,
                            )));
                        } else {
                            assert(!entry_owns(self.entries@[idx as int], blk));
                        }
                    }
                    assert(self.wf());
                    assert forall|m: int, b: int|
                        0 <= m < MAX_FILES && 0 <= b < old_bu implies !(#[trigger] entry_owns(
                        self.entries@[m],
                        old_blocks@[b] as int,
                    )) by {
                        let blk = old_blocks@[b] as int;
                        if m != idx as int {
                            assert(entry_owns(pre.entries@[idx as int], blk));
                            assert(!(entry_owns(pre.entries@[min_int(m, idx as int)], blk)
                                && entry_owns(pre.entries@[max_int(m, idx as int)], blk)));
                        } else {
                            assert(!entry_owns(self.entries@[idx as int], blk));
                        }
                    }
                }
                self.free_blocks(&old_blocks, old_bu);
                proof {
                    let target = write_ok(pre@, k, Seq::<u8>::empty(), idx as int);
                    let ghost touched = old_blocks@.take(old_bu as int);
                    assert forall|m: int|
                        0 <= m < MAX_FILES implies self@.slots[m] == target.slots[m] by {
                        if m != idx as int {
                            assert(self.entries@[m] == pre.entries@[m]);
                            assert(entry_wf(pre.entries@[m], pre.block_map@));
                            if pre.entries@[m].used {
                                assert forall|b: int|
                                    0 <= b < pre.entries@[m].blocks_used implies !touched.contains(
                                    #[trigger] pre.entries@[m].blocks@[b],
                                ) by {
                                    if touched.contains(pre.entries@[m].blocks@[b]) {
                                        let c = choose|c: int|
                                            0 <= c < touched.len() && touched[c]
                                                == pre.entries@[m].blocks@[b];
                                        let blk = pre.entries@[m].blocks@[b] as int;
                                        assert(entry_owns(pre.entries@[idx as int], blk));
                                        assert(entry_owns(pre.entries@[m], blk));
                                        assert(!(entry_owns(
                                            pre.entries@[min_int(m, idx as int)],
                                            blk,
                                        ) && entry_owns(
                                            pre.entries@[max_int(m, idx as int)],
                                            blk,
                                        )));
                                    }
                                }
                                lemma_content_frame(
                                    pre.entries@[m],
                                    pre.data@,
                                    self.data@,
                                    old_blocks@,
                                    old_bu as int,
                                );
                            }
                        } else {
                            assert(entry_content(self.entries@[m], self.data@)
                                =~= Seq::<u8>::empty());
                        }
                    }
                    assert(self@.slots =~= target.slots);
                    assert(freed_at(pre@, idx as int) == old_bu) by {
                        assert(pre@.slots[idx as int] == slot_view(
                            pre.entries@[idx as int],
                            pre.data@,
                        ));
                        assert(entry_content(pre.entries@[idx as int], pre.data@).len()
                            == pre.entries@[idx as int].size);
                        lemma_blocks_for(pre.entries@[idx as int].size as nat);
                    }
                    assert(self@ =~= target);
                    if pre.no_leaks() {
                        assert forall|blk: int|
                            0 <= blk < BLOCKS && (#[trigger] self.block_map@[blk]) implies exists|
                            i2: int,
                        |
                            0 <= i2 < MAX_FILES && entry_owns(self.entries@[i2], blk) by {
                            assert(pre.block_map@[blk]);
                            let i2 = choose|i2: int|
                                0 <= i2 < MAX_FILES && entry_owns(pre.entries@[i2], blk);
                            if i2 == idx as int {
                                let b = choose|b: int|
                                    0 <= b < pre.entries@[idx as int].blocks_used
                                        && pre.entries@[idx as int].blocks@[b] == blk;
                                assert(old_blocks@.take(old_bu as int)[b] == blk as u8);
                                assert(old_blocks@.take(old_bu as int).contains(blk as u8));
                                assert(!self.block_map@[blk]);
                            } else {
                                assert(entry_owns(self.entries@[i2], blk));
                            }
                        }
                        assert(self.no_leaks());
                    }
                }
            },
            None => {
                proof {
                    existed = false;
                    assert forall|i: int| !slot_named(pre@, i, k) by {
                        if 0 <= i < MAX_FILES {
                            assert(pre@.slots[i] == slot_view(pre.entries@[i], pre.data@));
                        }
                    }
                }
                let j = match self.find_free_entry() {
                    Some(j) => j,
                    None => {
                        proof {
                            assert forall|j2: int| !slot_free(pre@, j2) by {
                                if 0 <= j2 < MAX_FILES {
                                    assert(pre.entries@[j2].used);
                                }
                            }
                        }
                        return Err(FsError::NoSpace);
                    },
                };
                idx = j;
                let mut e = empty_entry();
                let mut ni: usize = 0;
                while ni < qlen
                    invariant
                        ni <= qlen,
                        qlen == q@.len(),
                        1 <= qlen <= FILENAME_LEN,
                        e.name@.len() == FILENAME_LEN,
                        e.blocks@.len() == MAX_BLOCKS_PER_FILE,
                        !e.used,
                        e.size == 0,
                        e.blocks_used == 0,
                        forall|x: int| 0 <= x < ni ==> e.name@[x] == q@[x],
                        forall|x: int| ni <= x < FILENAME_LEN ==> e.name@[x] == 0,
                    decreases qlen - ni,
                {
                    e.name[ni] = q[ni];
                    ni += 1;
                }
                e.used = true;
                e.label = BoundedName::from_name(name);
                proof {
                    assert(e.name@.take(qlen as int) =~= q@);
                    lemma_trim_of_padded(q@, e.name@);
                    assert(entry_key(e) == k);
                }
                self.entries[idx] = e;
                proof {
                    assert(blocks_for(0) == 0);
                    assert forall|m: int|
                        0 <= m < MAX_FILES implies entry_wf(
                        #[trigger] self.entries@[m],
                        self.block_map@,
                    ) by {
                        assert(entry_wf(pre.entries@[m], pre.block_map@));
                    }
                    assert forall|i2: int, j2: int, blk: int|
                        0 <= i2 < j2 < MAX_FILES implies !(#[trigger] entry_owns(
                        self.entries@[i2],
                        blk,
                    ) && #[trigger] entry_owns(self.entries@[j2], blk)) by {
                        assert(!entry_owns(e, blk));
                        if i2 != idx as int && j2 != idx as int {
                            assert(!(entry_owns(pre.entries@[i2], blk) && entry_owns(
                                pre.entries@[j2],
                                blk,
                            )));
                        }
                    }
                    assert(self.wf());
                    assert(first_free_slot(pre@, idx as int)) by {
                        assert forall|i2: int| 0 <= i2 < idx as int implies pre@.slots[i2]
                            is Some by {
                            assert(pre.entries@[i2].used);
                        }
                    }
                    let target = write_ok(pre@, k, Seq::<u8>::empty(), idx as int);
                    assert forall|m: int|
                        0 <= m < MAX_FILES implies self@.slots[m] == target.slots[m] by {
                        if m == idx as int {
                            assert(entry_content(self.entries@[m], self.data@)
                                =~= Seq::<u8>::empty());
                        } else {
                            assert(self.entries@[m] == pre.entries@[m]);
                        }
                    }
                    assert(self@.slots =~= target.slots);
                    assert(freed_at(pre@, idx as int) == 0);
                    assert(self@ =~= target);
                    if pre.no_leaks() {
                        assert forall|blk: int|
                            0 <= blk < BLOCKS && (#[trigger] self.block_map@[blk]) implies exists|
                            i2: int,
                        |
                            0 <= i2 < MAX_FILES && entry_owns(self.entries@[i2], blk) by {
                            let i2 = choose|i2: int|
                                0 <= i2 < MAX_FILES && entry_owns(pre.entries@[i2], blk);
                            assert(entry_wf(pre.entries@[idx as int], pre.block_map@));
                            assert(i2 != idx as int);
                            assert(entry_owns(self.entries@[i2], blk));
                        }
                        assert(self.no_leaks());
                    }
                }
            },
        }
        let ghost mid = *self;
        proof {
            assert(pre.no_leaks() ==> mid.no_leaks());
            assert(mid@ == write_ok(pre@, k, Seq::<u8>::empty(), idx as int));
            assert(mid@.free == pre@.free + freed_at(pre@, idx as int));
            assert(entry_key(mid.entries@[idx as int]) == k);
            assert(mid.entries@[idx as int].used);
            assert(mid.entries@[idx as int].size == 0);
        }
        let allocated = match self.allocate_blocks(blocks_needed) {
            Ok(v) => v,
            Err(_) => {
                proof {
                    assert(blocks_needed > mid@.free);
                    assert(rep_eq(mid, *self));
                    assert(self@.slots =~= mid@.slots);
                    assert(self@ =~= mid@);
                    if pre.no_leaks() {
                        assert(self.block_map@ == mid.block_map@);
                        assert(self.entries@ == mid.entries@);
                        assert(self.no_leaks());
                    }
                }
                return Err(FsError::NoSpace);
            },
        };
        proof {
            assert(alloc_post(mid, *self, allocated@, blocks_needed as int));
            assert(blocks_needed <= mid@.free);
        }
        let mut new_blocks: Vec<u8> = filled_bytes(MAX_BLOCKS_PER_FILE, 0xff);
        let mut bi: usize = 0;
        while bi < blocks_needed
            invariant
                bi <= blocks_needed,
                blocks_needed <= MAX_BLOCKS_PER_FILE,
                allocated@.len() == blocks_needed,
                new_blocks@.len() == MAX_BLOCKS_PER_FILE,
                forall|x: int| 0 <= x < bi ==> new_blocks@[x] == allocated@[x],
            decreases blocks_needed - bi,
        {
            new_blocks[bi] = allocated[bi];
            bi += 1;
        }
        let ghost alloc_state = *self;
        self.entries[idx].blocks = new_blocks;
        self.entries[idx].blocks_used = blocks_needed;
        self.entries[idx].size = data.len();
        proof {
            assert forall|m: int|
                0 <= m < MAX_FILES implies entry_wf(
                #[trigger] self.entries@[m],
                self.block_map@,
            ) by {
                assert(self.block_map@ == alloc_state.block_map@);
                if m == idx as int {
                    assert(entry_wf(mid.entries@[m], mid.block_map@));
                    assert forall|b: int|
                        0 <= b < blocks_needed implies (#[trigger] self.entries@[m].blocks@[b])
                        < BLOCKS && self.block_map@[self.entries@[m].blocks@[b] as int] by {
                        assert(self.entries@[m].blocks@[b] == allocated@[b]);
                        assert(allocated@.contains(allocated@[b]));
                    }
                } else {
                    assert(entry_wf(mid.entries@[m], mid.block_map@));
                    assert forall|b: int|
                        0 <= b < self.entries@[m].blocks_used implies (#[trigger] self.entries@[m].blocks@[b])
                        < BLOCKS && self.block_map@[self.entries@[m].blocks@[b] as int] by {
                        assert(mid.block_map@[mid.entries@[m].blocks@[b] as int]);
                    }
                }
            }
            assert forall|i2: int, j2: int, blk: int|
                0 <= i2 < j2 < MAX_FILES implies !(#[trigger] entry_owns(self.entries@[i2], blk)
                && #[trigger] entry_owns(self.entries@[j2], blk)) by {
                let other = if i2 == idx as int {
                    j2
                } else {
                    i2
                };
                if i2 == idx as int || j2 == idx as int {
                    if entry_owns(self.entries@[idx as int], blk) && entry_owns(
                        self.entries@[other],
                        blk,
                    ) && other != idx as int {
                        let b = choose|b: int|
                            0 <= b < blocks_needed && self.entries@[idx as int].blocks@[b] == blk;
                        assert(!mid.block_map@[allocated@[b] as int]);
                        assert(entry_owns(mid.entries@[other], blk));
                        assert(entry_wf(mid.entries@[other], mid.block_map@));
                        let c = choose|c: int|
                            0 <= c < mid.entries@[other].blocks_used
                                && mid.entries@[other].blocks@[c] == blk;
                        assert(mid.block_map@[blk]);
                    }
                } else {
                    assert(!(entry_owns(mid.entries@[i2], blk) && entry_owns(
                        mid.entries@[j2],
                        blk,
                    )));
                }
            }
            assert forall|i2: int, j2: int|
                0 <= i2 < j2 < MAX_FILES && self.entries@[i2].used && self.entries@[j2].used
                    implies entry_key(#[trigger] self.entries@[i2]) != entry_key(
                #[trigger] self.entries@[j2],
            ) by {
                assert(entry_key(self.entries@[idx as int]) == entry_key(
                    mid.entries@[idx as int],
                ));
                assert(entry_key(mid.entries@[i2]) != entry_key(mid.entries@[j2]));
            }
            assert(self.wf());
        }
        let ghost entries_final = self.entries@;
        let ghost d_start = self.data@;
        let total = blocks_needed * BLOCK_SIZE;
        let mut p: usize = 0;
        while p < total
            invariant
                p <= total,
                total == blocks_needed * BLOCK_SIZE,
                blocks_needed == blocks_for(data@.len()),
                blocks_needed <= MAX_BLOCKS_PER_FILE,
                data@.len() <= total,
                allocated@.len() == blocks_needed,
                forall|b: int| 0 <= b < blocks_needed ==> (#[trigger] allocated@[b]) < BLOCKS,
                forall|a: int, b: int|
                    0 <= a < b < blocks_needed ==> (#[trigger] allocated@[a]) != (
                    #[trigger] allocated@[b]),
                self.entries@ == entries_final,
                self.block_map@ == alloc_state.block_map@,
                self.data@.len() == BLOCKS * BLOCK_SIZE,
                d_start.len() == BLOCKS * BLOCK_SIZE,
                forall|a: int|
                    0 <= a < self.data@.len() && self.data@[a] != d_start[a]
                        ==> allocated@.contains((a / (BLOCK_SIZE as int)) as u8),
                forall|t: int|
                    0 <= t < p ==> self.data@[block_addr(allocated@, t)] == (if t < data@.len() {
                        data@[t]
                    } else {
                        0u8
                    }),
            decreases total - p,
        {
            proof {
                assert(0 < blocks_needed);
                lemma_div_bound(p as int, blocks_needed as int);
            }
            let blk = allocated[p / BLOCK_SIZE];
            let off = p % BLOCK_SIZE;
            let addr = (blk as usize) * BLOCK_SIZE + off;
            proof {
                lemma_block_range(blk as int, addr as int);
            }
            let val = if p < data.len() {
                data[p]
            } else {
                0
            };
            let ghost d_before = self.data@;
            self.data[addr] = val;
            p += 1;
            proof {
                assert forall|t: int|
                    0 <= t < p implies self.data@[block_addr(allocated@, t)] == (if t
                    < data@.len() {
                    data@[t]
                } else {
                    0u8
                }) by {
                    lemma_div_bound(t, blocks_needed as int);
                    let tb = t / (BLOCK_SIZE as int);
                    let pb = (p - 1) / (BLOCK_SIZE as int);
                    lemma_block_range(allocated@[tb] as int, block_addr(allocated@, t));
                    if t < p - 1 {
                        if tb == pb {
                            assert(block_addr(allocated@, t) != addr);
                        } else {
                            assert(allocated@[tb] != allocated@[pb]);
                            assert(block_addr(allocated@, t) != addr) by {
                                lemma_block_range(allocated@[pb] as int, addr as int);
                                lemma_block_range(
                                    allocated@[tb] as int,
                                    block_addr(allocated@, t),
                                );
                            }
                        }
                        assert(self.data@[block_addr(allocated@, t)] == d_before[block_addr(
                            allocated@,
                            t,
                        )]);
                    } else {
                        assert(block_addr(allocated@, t) == addr);
                    }
                }
                assert forall|a: int|
                    0 <= a < self.data@.len() && self.data@[a] != d_start[a]
                        implies allocated@.contains((a / (BLOCK_SIZE as int)) as u8) by {
                    if a != addr as int {
                        assert(self.data@[a] == d_before[a]);
                    } else {
                        lemma_block_range(blk as int, a);
                        assert(allocated@.contains(blk));
                    }
                }
            }
        }
        proof {
            let target = write_ok(pre@, k, data@, idx as int);
            let e_final = self.entries@[idx as int];
            assert(self.wf());
            assert forall|m: int| 0 <= m < MAX_FILES implies self@.slots[m] == target.slots[m] by {
                if m == idx as int {
                    assert forall|t: int|
                        0 <= t < data@.len() implies entry_content(e_final, self.data@)[t]
                        == data@[t] by {
                        lemma_div_bound(t, blocks_needed as int);
                        assert(e_final.blocks@[t / (BLOCK_SIZE as int)] == allocated@[t / (
                        BLOCK_SIZE as int)]);
                        assert(block_addr(e_final.blocks@, t) == block_addr(allocated@, t));
                        assert(self.data@[block_addr(allocated@, t)] == data@[t]);
                    }
                    assert(entry_content(e_final, self.data@) =~= data@);
                    assert(entry_key(e_final) == k);
                } else {
                    assert(self.entries@[m] == mid.entries@[m]);
                    assert(entry_wf(mid.entries@[m], mid.block_map@));
                    if mid.entries@[m].used {
                        assert(allocated@.take(blocks_needed as int) =~= allocated@);
                        assert(mid.data@ == d_start);
                        assert forall|b: int|
                            0 <= b < mid.entries@[m].blocks_used implies !allocated@.take(
                            blocks_needed as int,
                        ).contains(#[trigger] mid.entries@[m].blocks@[b]) by {
                            if allocated@.contains(mid.entries@[m].blocks@[b]) {
                                let c = choose|c: int|
                                    0 <= c < allocated@.len() && allocated@[c]
                                        == mid.entries@[m].blocks@[b];
                                assert(!mid.block_map@[allocated@[c] as int]);
                                assert(mid.block_map@[mid.entries@[m].blocks@[b] as int]);
                            }
                        }
                        assert forall|a: int|
                            0 <= a < mid.data@.len() && mid.data@[a] != self.data@[a]
                                implies allocated@.take(blocks_needed as int).contains(
                            (a / (BLOCK_SIZE as int)) as u8,
                        ) by {
                            assert(self.data@[a] != d_start[a]);
                        }
                        lemma_content_frame(
                            mid.entries@[m],
                            mid.data@,
                            self.data@,
                            allocated@,
                            blocks_needed as int,
                        );
                        assert(mid@.slots[m] == slot_view(mid.entries@[m], mid.data@));
                        assert(slot_view(self.entries@[m], self.data@) == slot_view(
                            mid.entries@[m],
                            mid.data@,
                        ));
                        assert(mid@.slots[m] == target.slots[m]);
                    } else {
                        assert(mid@.slots[m] == target.slots[m]);
                    }
                }
            }
            assert(self@.slots =~= target.slots);
            assert(self@.free == mid@.free - blocks_needed);
            assert(self@ =~= target);
            lemma_wf_view(self);
            if pre.no_leaks() {
                assert(mid.no_leaks());
                assert forall|blk: int|
                    0 <= blk < BLOCKS && (#[trigger] self.block_map@[blk]) implies exists|i2: int|
                    0 <= i2 < MAX_FILES && entry_owns(self.entries@[i2], blk) by {
                    if allocated@.contains(blk as u8) {
                        let c = choose|c: int|
                            0 <= c < allocated@.len() && (#[trigger] allocated@[c]) == blk as u8;
                        assert(e_final.blocks@[c] == allocated@[c]);
                        assert(e_final.blocks@[c] == blk);
                        assert(entry_owns(self.entries@[idx as int], blk));
                    } else {
                        assert(self.block_map@ == alloc_state.block_map@);
                        assert(mid.block_map@[blk]);
                        let i2 = choose|i2: int|
                            0 <= i2 < MAX_FILES && entry_owns(mid.entries@[i2], blk);
                        assert(i2 != idx as int);
                        assert(self.entries@[i2] == mid.entries@[i2]);
                        assert(entry_owns(self.entries@[i2], blk));
                    }
                }
                assert(self.no_leaks());
            }
        }
        Ok(())
    }
}

impl SimpleFs {
    /// Copy the content of the file named `name` into the front of `buf`,
    /// returning how many bytes were copied: the file's size, or the buffer's
    /// length if the file does not fit.  The rest of the buffer is untouched.
    pub fn read_into(&self, name: &str, buf: &mut [u8]) -> (r: Result<usize, FsError>)
        requires
            self.wf(),
        ensures
            !has_named(self@, name.spec_bytes()) ==> r == Err::<usize, FsError>(FsError::NotFound)
                && final(buf)@ == old(buf)@,
            has_named(self@, name.spec_bytes()) ==> (r matches Ok(n) && {
                let c = file_content(self@, name.spec_bytes());
                &&& n == vstd::math::min(old(buf)@.len() as int, c.len() as int)
                &&& final(buf)@.len() == old(buf)@.len()
                &&& forall|t: int| 0 <= t < n ==> final(buf)@[t] == c[t]
                &&& forall|t: int| n <= t < old(buf)@.len() ==> final(buf)@[t] == old(buf)@[t]
            }),
    {
        proof {
            lemma_wf_view(self);
        }
        let idx = match self.find_entry(name) {
            Some(i) => i,
            None => {
                proof {
                    assert forall|i: int| !slot_named(self@, i, name.spec_bytes()) by {
                        if 0 <= i < MAX_FILES {
                            assert(self@.slots[i] == slot_view(self.entries@[i], self.data@));
                        }
                    }
                }
                return Err(FsError::NotFound);
            },
        };
        proof {
            assert(slot_named(self@, idx as int, name.spec_bytes()));
            crate::model::lemma_named_slot_unique(self@, name.spec_bytes(), idx as int);
            assert(file_content(self@, name.spec_bytes()) == entry_content(
                self.entries@[idx as int],
                self.data@,
            ));
        }
        let size = self.entries[idx].size;
        let blen = buf.len();
        let to_copy = if blen < size {
            blen
        } else {
            size
        };
        let mut t: usize = 0;
        while t < to_copy
            invariant
                self.wf(),
                idx < MAX_FILES,
                self.entries@[idx as int].used,
                to_copy <= self.entries@[idx as int].size,
                to_copy <= old(buf)@.len(),
                buf@.len() == old(buf)@.len(),
                t <= to_copy,
                forall|x: int|
                    0 <= x < t ==> buf@[x] == entry_content(
                        self.entries@[idx as int],
                        self.data@,
                    )[x],
                forall|x: int| t <= x < buf@.len() ==> buf@[x] == old(buf)@[x],
            decreases to_copy - t,
        {
            proof {
                assert(entry_wf(self.entries@[idx as int], self.block_map@));
                lemma_blocks_for(self.entries@[idx as int].size as nat);
                lemma_div_bound(t as int, self.entries@[idx as int].blocks_used as int);
            }
            let bi = t / BLOCK_SIZE;
            let off = t % BLOCK_SIZE;
            let blk = self.entries[idx].blocks[bi];
            let addr = (blk as usize) * BLOCK_SIZE + off;
            buf[t] = self.data[addr];
            t += 1;
        }
        Ok(to_copy)
    }

    /// How many blocks of the pool are currently free.
    pub fn free_block_count(&self) -> (r: usize)
        requires
            self.wf(),
        ensures
            r == self@.free,
    {
        let mut count: usize = 0;
        let mut i: usize = 0;
        while i < BLOCKS
            invariant
                self.wf(),
                i <= BLOCKS,
                count == free_count(self.block_map@.take(i as int)),
                count <= i,
            decreases BLOCKS - i,
        {
            proof {
                assert(self.block_map@.take(i + 1).drop_last() =~= self.block_map@.take(i as int));
                assert(self.block_map@.take(i + 1).last() == self.block_map@[i as int]);
            }
            if !self.block_map[i] {
                count += 1;
            }
            i += 1;
        }
        proof {
            assert(self.block_map@.take(BLOCKS as int) =~= self.block_map@);
        }
        count
    }

    /// List the stored files: one `(name, size)` pair per file, in slot order.
    pub fn list_files(&self) -> (r: Vec<(BoundedName, usize)>)
        requires
            self.wf(),
        ensures
            ({
                let l = listing(self@.slots);
                &&& r@.len() == l.len()
                &&& forall|i: int|
                    0 <= i < l.len() ==> bounded_name_bytes((#[trigger] r@[i]).0) == l[i].0
                        && r@[i].1 == l[i].1
            }),
    {
        let mut out: Vec<(BoundedName, usize)> = Vec::new();
        let mut i: usize = 0;
        while i < MAX_FILES
            invariant
                self.wf(),
                i <= MAX_FILES,
                out@.len() == listing(self@.slots.take(i as int)).len(),
                forall|x: int|
                    0 <= x < out@.len() ==> bounded_name_bytes((#[trigger] out@[x]).0) == listing(
                        self@.slots.take(i as int),
                    )[x].0 && out@[x].1 == listing(self@.slots.take(i as int))[x].1,
            decreases MAX_FILES - i,
        {
            let ghost lcur = listing(self@.slots.take(i as int));
            proof {
                assert(self@.slots.take(i + 1).drop_last() =~= self@.slots.take(i as int));
                assert(self@.slots.take(i + 1).last() == self@.slots[i as int]);
                assert(self@.slots[i as int] == slot_view(self.entries@[i as int], self.data@));
                assert(entry_wf(self.entries@[i as int], self.block_map@));
            }
            let e = &self.entries[i];
            if e.used {
                let nm = e.label.clone_name();
                let sz = e.size;
                out.push((nm, sz));
                proof {
                    let lnext = listing(self@.slots.take(i + 1));
                    assert(lnext =~= lcur + seq![
                        (
                            self@.slots[i as int].unwrap().name,
                            self@.slots[i as int].unwrap().content.len(),
                        ),
                    ]);
                    assert(entry_content(self.entries@[i as int], self.data@).len()
                        == self.entries@[i as int].size);
                    assert(bounded_name_bytes(out@[out@.len() - 1].0) == entry_key(
                        self.entries@[i as int],
                    ));
                }
            } else {
                proof {
                    assert(listing(self@.slots.take(i + 1)) =~= lcur);
                }
            }
            i += 1;
        }
        proof {
            assert(self@.slots.take(MAX_FILES as int) =~= self@.slots);
        }
        out
    }
}

/// The lesser of two integers.
spec fn min_int(a: int, b: int) -> int {
    if a < b {
        a
    } else {
        b
    }
}

/// The greater of two integers.
spec fn max_int(a: int, b: int) -> int {
    if a < b {
        b
    } else {
        a
    }
}

/// A well-formed store presents a well-formed view.
pub proof fn lemma_wf_view(fs: &SimpleFs)
    requires
        fs.wf(),
    ensures
        view_wf(fs@),
{
    assert forall|i: int|
        0 <= i < fs@.slots.len() && (#[trigger] fs@.slots[i]) is Some implies valid_name(
        fs@.slots[i].unwrap().name,
    ) && fs@.slots[i].unwrap().content.len() <= MAX_BLOCKS_PER_FILE * BLOCK_SIZE by {
        assert(entry_wf(fs.entries@[i], fs.block_map@));
        lemma_trim_props(fs.entries@[i].name@);
    }
    assert forall|i: int, j: int|
        0 <= i < j < fs@.slots.len() && fs@.slots[i] is Some && fs@.slots[j] is Some implies (
    #[trigger] fs@.slots[i]).unwrap().name != (#[trigger] fs@.slots[j]).unwrap().name by {
        assert(fs.entries@[i].used && fs.entries@[j].used);
        assert(entry_key(fs.entries@[i]) != entry_key(fs.entries@[j]));
    }
}

/// Ceiling division really is a ceiling: `len` bytes fit in `blocks_for(len)`
/// blocks and into no fewer.
proof fn lemma_blocks_for(len: nat)
    ensures
        len <= blocks_for(len) * BLOCK_SIZE,
        blocks_for(len) * BLOCK_SIZE < len + BLOCK_SIZE,
        (len == 0) == (blocks_for(len) == 0),
{
    assert(len <= ((len + 256 - 1) / 256) * 256 < len + 256 && (len == 0) == ((len + 256 - 1)
        / 256 == 0)) by (nonlinear_arith);
}

/// Fitting within `n` blocks is the same as fitting within their bytes.
proof fn lemma_blocks_for_le(len: nat, n: nat)
    ensures
        (blocks_for(len) <= n) == (len <= n * BLOCK_SIZE),
{
    assert(((len + 256 - 1) / 256 <= n) == (len <= n * 256)) by (nonlinear_arith);
}

/// A file's content is untouched by arena writes that stay outside its blocks.
proof fn lemma_content_frame(e: FileEntry, d1: Seq<u8>, d2: Seq<u8>, touched: Seq<u8>, cnt: int)
    requires
        d1.len() == BLOCKS * BLOCK_SIZE,
        d2.len() == d1.len(),
        e.blocks@.len() == MAX_BLOCKS_PER_FILE,
        e.blocks_used <= MAX_BLOCKS_PER_FILE,
        e.size <= e.blocks_used * BLOCK_SIZE,
        forall|b: int| 0 <= b < e.blocks_used ==> (#[trigger] e.blocks@[b]) < BLOCKS,
        0 <= cnt <= touched.len(),
        forall|b: int|
            0 <= b < e.blocks_used ==> !touched.take(cnt).contains(#[trigger] e.blocks@[b]),
        forall|a: int|
            0 <= a < d1.len() && d1[a] != d2[a] ==> touched.take(cnt).contains(
                (a / (BLOCK_SIZE as int)) as u8,
            ),
    ensures
        entry_content(e, d2) == entry_content(e, d1),
{
    assert forall|i: int|
        0 <= i < e.size implies d2[block_addr(e.blocks@, i)] == d1[block_addr(e.blocks@, i)] by {
        lemma_div_bound(i, e.blocks_used as int);
        let bi = i / (BLOCK_SIZE as int);
        let blk = e.blocks@[bi] as int;
        let addr = block_addr(e.blocks@, i);
        lemma_block_range(blk, addr);
        assert((addr / (BLOCK_SIZE as int)) as u8 == e.blocks@[bi]);
        if d1[addr] != d2[addr] {
            assert(touched.take(cnt).contains(e.blocks@[bi]));
        }
    }
    assert(entry_content(e, d2) =~= entry_content(e, d1));
}

/// If every block is marked used, none is free.
proof fn lemma_free_count_full(m: Seq<bool>)
    requires
        forall|i: int| 0 <= i < m.len() ==> m[i],
    ensures
        free_count(m) == 0,
    decreases m.len(),
{
    if m.len() > 0 {
        lemma_free_count_full(m.drop_last());
    }
}

/// An arena position belongs to block `blk` exactly when its quotient by the
/// block size is `blk`.
proof fn lemma_block_range(blk: int, a: int)
    requires
        0 <= blk,
        0 <= a,
    ensures
        (a / (BLOCK_SIZE as int) == blk) <==> (blk * BLOCK_SIZE <= a < blk * BLOCK_SIZE
            + BLOCK_SIZE),
{
    assert((a / 256 == blk) <==> (blk * 256 <= a < blk * 256 + 256)) by (nonlinear_arith)
        requires
            0 <= blk,
            0 <= a,
    ;
}

/// Quotients stay below `n` on positions below `n` blocks.
proof fn lemma_div_bound(a: int, n: int)
    requires
        0 <= a < n * BLOCK_SIZE,
        0 < n,
    ensures
        0 <= a / (BLOCK_SIZE as int) < n,
        0 <= a % (BLOCK_SIZE as int) < BLOCK_SIZE,
        a == (a / (BLOCK_SIZE as int)) * BLOCK_SIZE + a % (BLOCK_SIZE as int),
{
    assert(0 <= a / 256 < n && 0 <= a % 256 < 256 && a == (a / 256) * 256 + a % 256)
        by (nonlinear_arith)
        requires
            0 <= a < n * 256,
            0 < n,
    ;
}

/// A vector of `n` copies of `val`.
fn filled_bytes(n: usize, val: u8) -> (v: Vec<u8>)
    ensures
        v@.len() == n,
        forall|k: int| 0 <= k < n ==> v@[k] == val,
{
    let mut v: Vec<u8> = Vec::new();
    let mut i: usize = 0;
    while i < n
        invariant
            i <= n,
            v@.len() == i,
            forall|k: int| 0 <= k < i ==> v@[k] == val,
        decreases n - i,
    {
        v.push(val);
        i += 1;
    }
    v
}

/// A cleared file-table slot, as unused entries hold it.
fn empty_entry() -> (e: FileEntry)
    ensures
        !e.used,
        e.size == 0,
        e.blocks_used == 0,
        e.name@.len() == FILENAME_LEN,
        e.blocks@.len() == MAX_BLOCKS_PER_FILE,
        forall|k: int| 0 <= k < FILENAME_LEN ==> e.name@[k] == 0,
        forall|bmap: Seq<bool>| entry_wf(e, bmap),
{
    let e = FileEntry {
        used: false,
        name: filled_bytes(FILENAME_LEN, 0),
        label: BoundedName::empty(),
        size: 0,
        blocks: filled_bytes(MAX_BLOCKS_PER_FILE, 0xff),
        blocks_used: 0,
    };
    proof {
        assert(blocks_for(0) == 0);
    }
    e
}

/// If no block is marked used, the whole pool is free.
proof fn lemma_free_count_all_free(m: Seq<bool>)
    requires
        forall|i: int| 0 <= i < m.len() ==> !m[i],
    ensures
        free_count(m) == m.len(),
    decreases m.len(),
{
    if m.len() > 0 {
        lemma_free_count_all_free(m.drop_last());
    }
}

/// Changing one mark changes the free count by exactly that mark's weight.
proof fn lemma_free_count_update(m: Seq<bool>, i: int, v: bool)
    requires
        0 <= i < m.len(),
    ensures
        free_count(m.update(i, v)) + (if m[i] {
            0int
        } else {
            1int
        }) == free_count(m) + (if v {
            0int
        } else {
            1int
        }),
    decreases m.len(),
{
    let m2 = m.update(i, v);
    if i == m.len() - 1 {
        assert(m2.drop_last() =~= m.drop_last());
    } else {
        assert(m2.drop_last() =~= m.drop_last().update(i, v));
        lemma_free_count_update(m.drop_last(), i, v);
    }
}

/// Basic facts about trimming: the result is a prefix, everything after it is
/// padding, and it never ends in the padding byte.
proof fn lemma_trim_props(s: Seq<u8>)
    ensures
        trim_padding(s).len() <= s.len(),
        trim_padding(s) == s.take(trim_padding(s).len() as int),
        trim_padding(s).len() > 0 ==> trim_padding(s).last() != 0,
        forall|i: int| trim_padding(s).len() <= i < s.len() ==> s[i] == 0,
    decreases s.len(),
{
    if s.len() > 0 && s.last() == 0 {
        lemma_trim_props(s.drop_last());
        assert(s.drop_last() =~= s.take(s.len() - 1));
        let t = trim_padding(s);
        assert(s.drop_last().take(t.len() as int) =~= s.take(t.len() as int));
        assert forall|i: int| t.len() <= i < s.len() implies s[i] == 0 by {
            if i < s.len() - 1 {
                assert(s.drop_last()[i] == 0);
            } else {
                assert(s.last() == 0);
            }
        }
    } else {
        assert(s.take(s.len() as int) =~= s);
    }
}

/// Whether the stored, padded name `stored` holds exactly the (valid) name
/// whose bytes are `q`.
fn name_matches(stored: &Vec<u8>, q: &[u8]) -> (r: bool)
    requires
        stored@.len() == FILENAME_LEN,
    ensures
        r == (valid_name(q@) && trim_padding(stored@) == q@),
{
    proof {
        lemma_trim_props(stored@);
    }
    let qlen = q.len();
    if qlen == 0 || qlen > FILENAME_LEN {
        return false;
    }
    if q[qlen - 1] == 0 {
        return false;
    }
    let mut i: usize = 0;
    while i < qlen
        invariant
            i <= qlen,
            qlen == q@.len(),
            1 <= qlen <= FILENAME_LEN,
            stored@.len() == FILENAME_LEN,
            forall|k: int| 0 <= k < i ==> stored@[k] == q@[k],
        decreases qlen - i,
    {
        if stored[i] != q[i] {
            proof {
                lemma_trim_props(stored@);
                if trim_padding(stored@) == q@ {
                    assert(stored@.take(qlen as int)[i as int] == stored@[i as int]);
                }
            }
            return false;
        }
        i += 1;
    }
    let mut j: usize = qlen;
    while j < FILENAME_LEN
        invariant
            qlen <= j <= FILENAME_LEN,
            qlen == q@.len(),
            1 <= qlen <= FILENAME_LEN,
            stored@.len() == FILENAME_LEN,
            forall|k: int| 0 <= k < qlen ==> stored@[k] == q@[k],
            forall|k: int| qlen <= k < j ==> stored@[k] == 0,
        decreases FILENAME_LEN - j,
    {
        if stored[j] != 0 {
            proof {
                lemma_trim_props(stored@);
                if trim_padding(stored@) == q@ {
                    assert(stored@[j as int] == 0);
                }
            }
            return false;
        }
        j += 1;
    }
    proof {
        assert(stored@.take(qlen as int) =~= q@);
        lemma_trim_of_padded(q@, stored@);
    }
    true
}

impl SimpleFs {
    /// The slot holding the file named `name`, if any.
    fn find_entry(&self, name: &str) -> (r: Option<usize>)
        requires
            self.wf(),
        ensures
            match r {
                Some(i) => i < MAX_FILES && self.entries@[i as int].used && entry_key(
                    self.entries@[i as int],
                ) == name.spec_bytes(),
                None => forall|i: int|
                    0 <= i < MAX_FILES ==> !((#[trigger] self.entries@[i]).used && entry_key(
                        self.entries@[i],
                    ) == name.spec_bytes()),
            },
    {
        let q: &[u8] = name.as_bytes();
        let mut i: usize = 0;
        while i < MAX_FILES
            invariant
                self.wf(),
                i <= MAX_FILES,
                q@ == name.spec_bytes(),
                forall|k: int|
                    0 <= k < i ==> !((#[trigger] self.entries@[k]).used && entry_key(
                        self.entries@[k],
                    ) == q@),
            decreases MAX_FILES - i,
        {
            let e = &self.entries[i];
            if e.used {
                if name_matches(&e.name, q) {
                    return Some(i);
                }
                proof {
                    lemma_trim_props(e.name@);
                    if entry_key(self.entries@[i as int]) == q@ {
                        // a used entry's key is a valid name, so the match
                        // could not have failed
                        assert(entry_key(self.entries@[i as int]).len() >= 1);
                        assert(valid_name(q@));
                    }
                }
            }
            i += 1;
        }
        None
    }

    /// The lowest unoccupied slot, if any.
    fn find_free_entry(&self) -> (r: Option<usize>)
        requires
            self.wf(),
        ensures
            match r {
                Some(j) => j < MAX_FILES && !self.entries@[j as int].used && forall|i: int|
                    0 <= i < j ==> (#[trigger] self.entries@[i]).used,
                None => forall|i: int| 0 <= i < MAX_FILES ==> (#[trigger] self.entries@[i]).used,
            },
    {
        let mut i: usize = 0;
        while i < MAX_FILES
            invariant
                self.wf(),
                i <= MAX_FILES,
                forall|k: int| 0 <= k < i ==> (#[trigger] self.entries@[k]).used,
            decreases MAX_FILES - i,
        {
            if !self.entries[i].used {
                return Some(i);
            }
            i += 1;
        }
        None
    }
}

/// A name followed by zero padding trims back to the name.
proof fn lemma_trim_of_padded(k: Seq<u8>, s: Seq<u8>)
    requires
        k.len() <= s.len(),
        s.take(k.len() as int) == k,
        forall|i: int| k.len() <= i < s.len() ==> s[i] == 0,
        k.len() > 0 ==> k.last() != 0,
    ensures
        trim_padding(s) == k,
    decreases s.len(),
{
    if s.len() == k.len() {
        assert(s =~= k);
    } else {
        assert(s.last() == 0);
        assert(s.drop_last() =~= s.take(s.len() - 1));
        assert(s.drop_last().take(k.len() as int) =~= k);
        lemma_trim_of_padded(k, s.drop_last());
    }
}

} // verus!


