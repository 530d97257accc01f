//! The abstract model of the store: what a client sees of the file table and
//! the block pool, and how each successful operation transforms it.

use vstd::prelude::*;

verus! {

/// Number of file-entry slots in the table.
pub const MAX_FILES: usize = 16;

/// Capacity of a file name, in bytes; shorter names are padded with zero bytes.
pub const FILENAME_LEN: usize = 16;

/// Bytes per storage block.
pub const BLOCK_SIZE: usize = 256;

/// Total number of blocks in the pool.
pub const BLOCKS: usize = 64;

/// Largest number of blocks one file may own.
pub const MAX_BLOCKS_PER_FILE: usize = 16;

/// One stored file, as a client sees it: its name (without the zero padding)
/// and its content bytes.
#[verifier::ext_equal]
pub ghost struct FileView {
    pub name: Seq<u8>,
    pub content: Seq<u8>,
}

/// The visible state of the store: one slot per file-table entry, in slot
/// order, and the number of blocks of the pool that are free.
#[verifier::ext_equal]
pub ghost struct FsView {
    pub slots: Seq<Option<FileView>>,
    pub free: nat,
}

/// A name is storable when it is non-empty, fits in a name field, and does not
/// end in the zero byte used as padding (such a name could not be told apart
/// from its padded form).
pub open spec fn valid_name(name: Seq<u8>) -> bool {
    1 <= name.len() <= FILENAME_LEN && name.last() != 0
}

/// Number of blocks needed to hold `len` bytes.
pub open spec fn blocks_for(len: nat) -> nat {
    ((len + BLOCK_SIZE - 1) / (BLOCK_SIZE as int)) as nat
}

/// Slot `i` holds a file named `name`.
pub open spec fn slot_named(v: FsView, i: int, name: Seq<u8>) -> bool {
    0 <= i < v.slots.len() && (v.slots[i] matches Some(f) && f.name == name)
}

/// Some slot holds a file named `name`.
pub open spec fn has_named(v: FsView, name: Seq<u8>) -> bool {
    exists|i: int| slot_named(v, i, name)
}

/// The slot holding the file named `name` (well defined whenever the view is
/// well formed and `has_named` holds, since names are unique).
pub open spec fn named_slot(v: FsView, name: Seq<u8>) -> int {
    choose|i: int| slot_named(v, i, name)
}

/// The content of the file named `name`.
pub open spec fn file_content(v: FsView, name: Seq<u8>) -> Seq<u8> {
    v.slots[named_slot(v, name)].unwrap().content
}

/// Slot `j` is unoccupied.
pub open spec fn slot_free(v: FsView, j: int) -> bool {
    0 <= j < v.slots.len() && v.slots[j] is None
}

/// Slot `j` is the lowest unoccupied slot: the one a new file gets.
pub open spec fn first_free_slot(v: FsView, j: int) -> bool {
    slot_free(v, j) && forall|i: int| 0 <= i < j ==> v.slots[i] is Some
}

/// Some slot is unoccupied.
pub open spec fn has_free_slot(v: FsView) -> bool {
    exists|j: int| slot_free(v, j)
}

/// A well-formed view: the full complement of slots, every stored name valid
/// and distinct, and every content within the per-file size cap.
pub open spec fn view_wf(v: FsView) -> bool {
    &&& v.slots.len() == MAX_FILES
    &&& forall|i: int|
        0 <= i < v.slots.len() && (#[trigger] v.slots[i]) is Some ==> valid_name(
            v.slots[i].unwrap().name,
        ) && v.slots[i].unwrap().content.len() <= MAX_BLOCKS_PER_FILE * BLOCK_SIZE
    &&& forall|i: int, j: int|
        0 <= i < j < v.slots.len() && v.slots[i] is Some && v.slots[j] is Some
            ==> (#[trigger] v.slots[i]).unwrap().name != (#[trigger] v.slots[j]).unwrap().name
}

/// Blocks released when the file in slot `j` (if any) gives up its content.
pub open spec fn freed_at(v: FsView, j: int) -> nat {
    match v.slots[j] {
        Some(f) => blocks_for(f.content.len()),
        None => 0,
    }
}

/// State after a successful `create` of `name` into free slot `j`: the slot
/// holds an empty file and the pool is untouched.
pub open spec fn create_ok(v: FsView, name: Seq<u8>, j: int) -> FsView {
    FsView {
        slots: v.slots.update(j, Some(FileView { name, content: Seq::empty() })),
        free: v.free,
    }
}

/// State after a successful `delete` of the file in slot `i`: the slot is
/// cleared and all its blocks return to the pool.
pub open spec fn delete_ok(v: FsView, i: int) -> FsView {
    FsView { slots: v.slots.update(i, None), free: v.free + freed_at(v, i) }
}

/// State after a `write` that leaves `data` under `name` in slot `j`: the old
/// content of the slot (if any) is released, and the blocks for `data` are
/// taken from the pool.  A failed allocation leaves the slot as an empty file,
/// which is this same transition with empty `data`.
pub open spec fn write_ok(v: FsView, name: Seq<u8>, data: Seq<u8>, j: int) -> FsView {
    FsView {
        slots: v.slots.update(j, Some(FileView { name, content: data })),
        free: (v.free + freed_at(v, j) - blocks_for(data.len())) as nat,
    }
}

/// In a well-formed view, names are unique, so the slot found for a name is
/// the only one holding it.
pub proof fn lemma_named_slot_unique(v: FsView, name: Seq<u8>, i: int)
    requires
        view_wf(v),
        slot_named(v, i, name),
    ensures
        has_named(v, name),
        named_slot(v, name) == i,
{
    assert(has_named(v, name));
    let j = named_slot(v, name);
    assert(slot_named(v, j, name));
    if i < j {
        assert(v.slots[i].unwrap().name != v.slots[j].unwrap().name);
    } else if j < i {
        assert(v.slots[j].unwrap().name != v.slots[i].unwrap().name);
    }
}

/// The directory listing: for each occupied slot, in slot order, the file's
/// name and its size in bytes.
pub open spec fn listing(slots: Seq<Option<FileView>>) -> Seq<(Seq<u8>, nat)>
    decreases slots.len(),
{
    if slots.len() == 0 {
        Seq::empty()
    } else {
        listing(slots.drop_last()) + match slots.last() {
            Some(f) => seq![(f.name, f.content.len())],
            None => Seq::empty(),
        }
    }
}

} // verus!
