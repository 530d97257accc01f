//! Laws the store obeys, stated over the abstract model of [`crate::model`]
//! and proved once and for all.  Each law composes the transitions named in
//! the operations' contracts, so it holds of any sequence of calls whose
//! contracts produced these views.

use vstd::prelude::*;

verus! {

use crate::model::{
    blocks_for, create_ok, delete_ok, file_content, freed_at, has_named, named_slot, slot_free,
    slot_named, view_wf, write_ok, FsView,
};

/// Law: after a successful `create` of a name, that name is present with
/// empty content, so an immediate `read` of it copies zero bytes, whatever
/// the buffer's length.
pub proof fn lemma_create_then_read(v: FsView, name: Seq<u8>, j: int, buf_len: nat)
    requires
        view_wf(v),
        slot_free(v, j),
        !has_named(v, name),
    ensures
        has_named(create_ok(v, name, j), name),
        file_content(create_ok(v, name, j), name).len() == 0,
        vstd::math::min(buf_len as int, file_content(create_ok(v, name, j), name).len() as int)
            == 0,
{
    let v2 = create_ok(v, name, j);
    assert(slot_named(v2, j, name));
    let i = named_slot(v2, name);
    assert(slot_named(v2, i, name));
    if i != j {
        assert(v2.slots[i] == v.slots[i]);
        assert(slot_named(v, i, name));
    }
}

/// Law (round trip): after a successful `write` of `data` under a name, the
/// name holds exactly `data`, so a `read` with a buffer of at least
/// `data.len()` bytes copies back all of `data`.
pub proof fn lemma_write_then_read(v: FsView, name: Seq<u8>, data: Seq<u8>, j: int, buf_len: nat)
    requires
        view_wf(v),
        slot_named(v, j, name) || (slot_free(v, j) && !has_named(v, name)),
        buf_len >= data.len(),
    ensures
        has_named(write_ok(v, name, data, j), name),
        file_content(write_ok(v, name, data, j), name) == data,
        vstd::math::min(
            buf_len as int,
            file_content(write_ok(v, name, data, j), name).len() as int,
        ) == data.len(),
{
    let v2 = write_ok(v, name, data, j);
    assert(slot_named(v2, j, name));
    let i = named_slot(v2, name);
    assert(slot_named(v2, i, name));
    if i != j {
        assert(v2.slots[i] == v.slots[i]);
        assert(slot_named(v, i, name));
        if slot_named(v, j, name) {
            if i < j {
                assert(v.slots[i].unwrap().name != v.slots[j].unwrap().name);
            } else {
                assert(v.slots[j].unwrap().name != v.slots[i].unwrap().name);
            }
        }
    }
}

/// Law: after `delete` of the slot holding a name, the name is absent, so a
/// following `read` of it fails with `NotFound`.
pub proof fn lemma_delete_then_read(v: FsView, name: Seq<u8>, i: int)
    requires
        view_wf(v),
        slot_named(v, i, name),
    ensures
        !has_named(delete_ok(v, i), name),
{
    let v2 = delete_ok(v, i);
    assert forall|m: int| !slot_named(v2, m, name) by {
        if 0 <= m < v2.slots.len() && m != i && slot_named(v2, m, name) {
            assert(v2.slots[m] == v.slots[m]);
            assert(slot_named(v, m, name));
            if m < i {
                assert(v.slots[m].unwrap().name != v.slots[i].unwrap().name);
            } else {
                assert(v.slots[i].unwrap().name != v.slots[m].unwrap().name);
            }
        }
    }
}

/// Law: a `write` that fills a slot holding no blocks — the name was absent,
/// or present with empty content — consumes exactly the blocks its payload
/// needs, and a following `delete` returns the pool's free count to its
/// pre-write value.  (Overwriting a file that already holds blocks releases
/// them for good, so the count then ends higher than it started.)
pub proof fn lemma_write_then_delete_restores(v: FsView, name: Seq<u8>, data: Seq<u8>, j: int)
    requires
        0 <= j < v.slots.len(),
        v.slots[j] is None || v.slots[j].unwrap().content.len() == 0,
        blocks_for(data.len()) <= v.free,
    ensures
        write_ok(v, name, data, j).free == v.free - blocks_for(data.len()),
        delete_ok(write_ok(v, name, data, j), j).free == v.free,
{
    assert(blocks_for(0) == 0);
    assert(freed_at(v, j) == 0);
    let v2 = write_ok(v, name, data, j);
    assert(freed_at(v2, j) == blocks_for(data.len()));
}

} // verus!
