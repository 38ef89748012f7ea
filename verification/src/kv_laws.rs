//! Laws of single reservations and writes of key/value storage.

use vstd::prelude::*;
use crate::kv_cache;
use crate::kv_cache::{BlockView, KvCache, KvFormat, KvStore, Reservation};

verus! {

/// Law: writing the keys of a reservation changes exactly its positions, from its
/// start on, and neither the values nor any other block; writing the values does
/// likewise.
pub proof fn law_writes_touch_only_their_positions<T>(b: Seq<BlockView<T>>, at: Reservation, rows: Seq<T>, i: int, j: int)
    requires
        kv_cache::blocks_wf(b),
        kv_cache::reservation_in(b, at),
        rows.len() == at.end - at.start,
        0 <= i < b.len(),
        0 <= j < b[i].k.len(),
    ensures
        ({
            let (was, k, v) = (
                b[i],
                kv_cache::keys_written(b, at.storage as int, at.start as int, rows)[i],
                kv_cache::values_written(b, at.storage as int, at.start as int, rows)[i],
            );
            let written = i == at.storage && at.start <= j < at.end;
            &&& k.k.len() == was.k.len() && k.v == was.v && k.reserved == was.reserved && k.format == was.format
            &&& v.v.len() == was.v.len() && v.k == was.k && v.reserved == was.reserved && v.format == was.format
            &&& k.k[j] == (if written { rows[j - at.start] } else { was.k[j] })
            &&& v.v[j] == (if written { rows[j - at.start] } else { was.v[j] })
        }),
{
    assert(b[i].wf() && b[at.storage as int].wf());
}

/// Law: whatever is reserved, it is from where the view ends up to the new end,
/// in the view's block where that has room and nothing was reserved after it,
/// and in a new block otherwise.
pub proof fn law_reserved_positions_follow_the_view<T: Copy>(
    store: &mut KvStore<T>,
    previous: Option<KvCache>,
    format: KvFormat,
    end: usize,
    limit: usize,
    at: Reservation,
)
    requires
        call_ensures(KvStore::<T>::reserve, (store, previous, format, end, limit), at),
        old(store).wf(),
        kv_cache::holds_previous(old(store)@, previous),
        kv_cache::previous_len(previous) < end <= limit,
    ensures
        ({
            let room = previous is Some && old(store)@[previous->0.storage as int].reserved == previous->0.len && end
                <= old(store)@[previous->0.storage as int].k.len();
            &&& at.start == (if previous is Some { previous->0.len as int } else { 0 })
            &&& at.end == end
            &&& room ==> at.storage == previous->0.storage && final(store)@.len() == old(store)@.len()
            &&& !room ==> at.storage == old(store)@.len() && final(store)@.len() == old(store)@.len() + 1
            &&& final(store)@[at.storage as int].reserved == end
        }),
{
}

} // verus!
