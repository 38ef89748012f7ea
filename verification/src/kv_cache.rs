//! Append-only key/value storage with branchable, frozen prefixes.
//!
//! A [`KvCache`] is a view of the first `len` positions of one storage block.
//! An append reserves fresh tail positions of its block when nobody reserved
//! them before, and otherwise copies the prefix into a block of its own. A
//! reservation is never rolled back, so no view that exists already can see
//! a later write. One position holds a payload `T`: the slab of all batches,
//! heads and channels of that position.

use vstd::prelude::*;
use crate::tensor::{DType, Device};

verus! {

/// Everything two chunks must agree on to share a block.
#[derive(Clone, Copy, PartialEq, Eq, Structural, Debug)]
pub struct KvFormat {
    pub batch: usize,
    pub heads: usize,
    pub width: usize,
    pub dtype: DType,
    pub device: Device,
}

/// Keys or values of consecutive new positions.
#[derive(Debug)]
pub struct KvChunk<T> {
    pub format: KvFormat,
    pub rows: Vec<T>,
}

/// A view of a block's first `len` positions.
#[derive(Clone, Copy, PartialEq, Eq, Structural, Debug)]
pub struct KvCache {
    pub storage: usize,
    pub len: usize,
}

/// Tail positions `start..end` of a block that one append may write.
#[derive(Clone, Copy, PartialEq, Eq, Structural, Debug)]
pub struct Reservation {
    pub storage: usize,
    pub start: usize,
    pub end: usize,
}

#[derive(Clone, Copy, PartialEq, Eq, Structural, Debug)]
pub enum KvError {
    /// An empty chunk, or keys and values that differ in shape, type or device.
    InvalidPair,
    /// The position after the append is past the limit.
    ContextLimit,
    /// The chunk does not have the format of the block it continues.
    Mismatch,
}

/// One allocation. `reserved` is a boundary that only grows, not the length of
/// any view.
#[derive(Debug)]
pub struct Block<T> {
    k: Vec<T>,
    v: Vec<T>,
    reserved: usize,
    format: KvFormat,
}

/// The contents of a block.
pub struct BlockView<T> {
    pub k: Seq<T>,
    pub v: Seq<T>,
    pub reserved: nat,
    pub format: KvFormat,
}

impl<T> View for Block<T> {
    type V = BlockView<T>;

    closed spec fn view(&self) -> BlockView<T> {
        BlockView { k: self.k@, v: self.v@, reserved: self.reserved as nat, format: self.format }
    }
}

/// All blocks of a process. Block numbers are never reused.
#[derive(Debug)]
pub struct KvStore<T> {
    blocks: Vec<Block<T>>,
    zero: T,
}

/// Smallest `p * 2^i` that is at least `n`.
pub open spec fn doubled_to(n: nat, p: nat) -> nat
    decreases if p < n { n - p } else { 0 },
{
    if p == 0 || p >= n {
        p
    } else {
        doubled_to(n, 2 * p)
    }
}

pub open spec fn spec_next_power_of_two(n: nat) -> nat {
    doubled_to(n, 1)
}

/// Smallest power of two that is at least `n`, if it can be represented.
pub fn checked_next_power_of_two(n: usize) -> (res: Option<usize>)
    ensures
        match res {
            Some(p) => p == spec_next_power_of_two(n as nat),
            None => spec_next_power_of_two(n as nat) > usize::MAX,
        },
{
    let mut p: usize = 1;
    while p < n
        invariant
            p >= 1,
            doubled_to(n as nat, 1) == doubled_to(n as nat, p as nat),
        decreases if p < n { n - p } else { 0 },
    {
        if p > usize::MAX / 2 {
            proof {
                lemma_doubled_bounds(n as nat, 2 * (p as nat));
            }
            return None;
        }
        p = p * 2;
    }
    Some(p)
}

/// Doubling never goes below its start, and reaches `n`.
proof fn lemma_doubled_bounds(n: nat, p: nat)
    requires
        p > 0,
    ensures
        doubled_to(n, p) >= p,
        doubled_to(n, p) >= n,
        doubled_to(n, p) == p || doubled_to(n, p) < 2 * n,
    decreases if p < n { n - p } else { 0 },
{
    if p < n {
        lemma_doubled_bounds(n, 2 * p);
    }
}

/// Capacity of a fresh block that must hold `end` positions: a power of two,
/// at least 128, and never more than the context allows.
pub open spec fn spec_capacity_for(end: nat, limit: nat) -> nat {
    let wanted = spec_next_power_of_two(if end > 128 { end } else { 128 });
    if wanted > usize::MAX || wanted > limit {
        limit
    } else {
        wanted
    }
}

pub fn capacity_for(end: usize, limit: usize) -> (res: usize)
    ensures
        res == spec_capacity_for(end as nat, limit as nat),
{
    let floor: usize = if end > 128 { end } else { 128 };
    match checked_next_power_of_two(floor) {
        Some(wanted) => if wanted > limit { limit } else { wanted },
        None => limit,
    }
}

impl<T> BlockView<T> {
    /// Both halves have one capacity, and nothing past it is reserved.
    pub open spec fn wf(self) -> bool {
        self.k.len() == self.v.len() && self.reserved <= self.k.len()
    }

    pub open spec fn capacity(self) -> nat {
        self.k.len()
    }
}

pub open spec fn blocks_wf<T>(b: Seq<BlockView<T>>) -> bool {
    forall|i: int| 0 <= i < b.len() ==> (#[trigger] b[i]).wf()
}

/// `c` is a view that the blocks can serve.
pub open spec fn holds<T>(b: Seq<BlockView<T>>, c: KvCache) -> bool {
    &&& c.storage < b.len()
    &&& 0 < c.len <= b[c.storage as int].reserved
}

pub open spec fn holds_previous<T>(b: Seq<BlockView<T>>, previous: Option<KvCache>) -> bool {
    previous matches Some(p) ==> holds(b, p)
}

/// The keys a view shows.
pub open spec fn keys<T>(b: Seq<BlockView<T>>, c: KvCache) -> Seq<T> {
    b[c.storage as int].k.take(c.len as int)
}

/// The values a view shows.
pub open spec fn values<T>(b: Seq<BlockView<T>>, c: KvCache) -> Seq<T> {
    b[c.storage as int].v.take(c.len as int)
}

pub open spec fn previous_len(previous: Option<KvCache>) -> nat {
    match previous {
        Some(p) => p.len as nat,
        None => 0,
    }
}

pub open spec fn previous_keys<T>(b: Seq<BlockView<T>>, previous: Option<KvCache>) -> Seq<T> {
    match previous {
        Some(p) => keys(b, p),
        None => Seq::empty(),
    }
}

pub open spec fn previous_values<T>(b: Seq<BlockView<T>>, previous: Option<KvCache>) -> Seq<T> {
    match previous {
        Some(p) => values(b, p),
        None => Seq::empty(),
    }
}

/// Why an append of `k` and `v` is refused, if it is.
pub open spec fn append_error<T>(
    b: Seq<BlockView<T>>,
    previous: Option<KvCache>,
    k: KvChunk<T>,
    v: KvChunk<T>,
    limit: usize,
) -> Option<KvError> {
    if k.format.batch == 0 || k.format.heads == 0 || k.rows@.len() == 0 || k.format.width == 0
        || k.rows@.len() != v.rows@.len() || k.format != v.format {
        Some(KvError::InvalidPair)
    } else if previous_len(previous) + k.rows@.len() > limit {
        Some(KvError::ContextLimit)
    } else if previous is Some && b[previous->0.storage as int].format != k.format {
        Some(KvError::Mismatch)
    } else {
        None
    }
}

/// Whether the devices' in-order queue allows appending in place.
pub open spec fn appends_in_place(device: Device) -> bool {
    device.spec_is_cpu() || device.spec_is_rocm()
}

/// Whether the tail after `previous` is free, so that the block is continued.
pub open spec fn reusable<T>(b: Seq<BlockView<T>>, previous: Option<KvCache>, end: nat) -> bool {
    &&& previous is Some
    &&& end <= b[previous->0.storage as int].capacity()
    &&& b[previous->0.storage as int].reserved == previous->0.len
}

pub open spec fn repeated<T>(x: T, n: nat) -> Seq<T> {
    Seq::new(n, |i: int| x)
}

/// The blocks after reserving `previous_len..end`.
pub open spec fn reserved_blocks<T>(
    b: Seq<BlockView<T>>,
    previous: Option<KvCache>,
    format: KvFormat,
    end: nat,
    limit: nat,
    zero: T,
) -> Seq<BlockView<T>> {
    if reusable(b, previous, end) {
        let s = previous->0.storage as int;
        b.update(s, BlockView { reserved: end, ..b[s] })
    } else {
        let rest = repeated(zero, (spec_capacity_for(end, limit) - previous_len(previous)) as nat);
        b.push(BlockView {
            k: previous_keys(b, previous) + rest,
            v: previous_values(b, previous) + rest,
            reserved: end,
            format,
        })
    }
}

/// The block that a reservation of `previous_len..end` lies in.
pub open spec fn reserved_storage<T>(b: Seq<BlockView<T>>, previous: Option<KvCache>, end: nat) -> nat {
    if reusable(b, previous, end) {
        previous->0.storage as nat
    } else {
        b.len()
    }
}

/// `s` with `rows` written from `at` on.
pub open spec fn overwritten<T>(s: Seq<T>, at: int, rows: Seq<T>) -> Seq<T> {
    s.take(at) + rows + s.skip(at + rows.len())
}

pub open spec fn keys_written<T>(b: Seq<BlockView<T>>, storage: int, at: int, rows: Seq<T>) -> Seq<BlockView<T>> {
    b.update(storage, BlockView { k: overwritten(b[storage].k, at, rows), ..b[storage] })
}

pub open spec fn values_written<T>(b: Seq<BlockView<T>>, storage: int, at: int, rows: Seq<T>) -> Seq<BlockView<T>> {
    b.update(storage, BlockView { v: overwritten(b[storage].v, at, rows), ..b[storage] })
}

/// The blocks after an append that is not refused.
pub open spec fn appended_blocks<T>(
    b: Seq<BlockView<T>>,
    previous: Option<KvCache>,
    k: KvChunk<T>,
    v: KvChunk<T>,
    limit: nat,
    zero: T,
) -> Seq<BlockView<T>> {
    let len = previous_len(previous);
    let end = len + k.rows@.len();
    if appends_in_place(k.format.device) {
        let r = reserved_blocks(b, previous, k.format, end, limit, zero);
        let s = reserved_storage(b, previous, end) as int;
        values_written(keys_written(r, s, len as int, k.rows@), s, len as int, v.rows@)
    } else {
        concatenated_blocks(b, previous, k, v)
    }
}

/// The blocks after an append that always copies.
pub open spec fn concatenated_blocks<T>(
    b: Seq<BlockView<T>>,
    previous: Option<KvCache>,
    k: KvChunk<T>,
    v: KvChunk<T>,
) -> Seq<BlockView<T>> {
    b.push(BlockView {
        k: previous_keys(b, previous) + k.rows@,
        v: previous_values(b, previous) + v.rows@,
        reserved: previous_len(previous) + k.rows@.len(),
        format: k.format,
    })
}

/// The block that the view returned by an append lies in.
pub open spec fn appended_storage<T>(b: Seq<BlockView<T>>, previous: Option<KvCache>, k: KvChunk<T>) -> nat {
    if appends_in_place(k.format.device) {
        reserved_storage(b, previous, previous_len(previous) + k.rows@.len())
    } else {
        b.len()
    }
}

fn extend_copied<T: Copy>(to: &mut Vec<T>, from: &Vec<T>, n: usize)
    requires
        n <= from@.len(),
    ensures
        final(to)@ == old(to)@ + from@.take(n as int),
{
    let ghost before = to@;
    let mut i: usize = 0;
    while i < n
        invariant
            i <= n <= from@.len(),
            to@ == before + from@.take(i as int),
        decreases n - i,
    {
        to.push(from[i]);
        i = i + 1;
        proof {
            assert(from@.take(i as int) == from@.take(i - 1).push(from@[i - 1]));
        }
    }
}

fn extend_repeated<T: Copy>(to: &mut Vec<T>, x: T, n: usize)
    ensures
        final(to)@ == old(to)@ + repeated(x, n as nat),
{
    let ghost before = to@;
    let mut i: usize = 0;
    while i < n
        invariant
            i <= n,
            to@ == before + repeated(x, i as nat),
        decreases n - i,
    {
        to.push(x);
        i = i + 1;
        proof {
            assert(repeated(x, i as nat) == repeated(x, (i - 1) as nat).push(x));
        }
    }
}

fn overwrite<T: Copy>(to: &mut Vec<T>, at: usize, rows: &Vec<T>)
    requires
        at + rows@.len() <= old(to)@.len(),
    ensures
        final(to)@ == overwritten(old(to)@, at as int, rows@),
{
    let ghost before = to@;
    let mut i: usize = 0;
    while i < rows.len()
        invariant
            i <= rows@.len(),
            at + rows@.len() <= to@.len(),
            before.len() == to@.len(),
            to@ == overwritten(before, at as int, rows@.take(i as int)),
        decreases rows@.len() - i,
    {
        proof {
            assert(to.len() <= usize::MAX);
        }
        to.set(at + i, rows[i]);
        i = i + 1;
        proof {
            assert(to@ =~= overwritten(before, at as int, rows@.take(i as int)));
        }
    }
    proof {
        assert(rows@.take(i as int) == rows@);
    }
}

impl KvCache {
    pub fn len(&self) -> (res: usize)
        ensures
            res == self.len,
    {
        self.len
    }
}

impl<T> View for KvStore<T> {
    type V = Seq<BlockView<T>>;

    closed spec fn view(&self) -> Seq<BlockView<T>> {
        self.blocks@.map_values(|b: Block<T>| b@)
    }
}

impl<T> KvStore<T> {
    /// What fresh positions hold before they are written.
    pub closed spec fn spec_zero(self) -> T {
        self.zero
    }

    pub open spec fn wf(self) -> bool {
        blocks_wf(self@)
    }
}

impl<T: Copy> KvStore<T> {
    pub fn new(zero: T) -> (res: Self)
        ensures
            res.wf(),
            res@ == Seq::<BlockView<T>>::empty(),
            res.spec_zero() == zero,
    {
        let res = KvStore { blocks: Vec::new(), zero };
        proof {
            assert(res@ =~= Seq::<BlockView<T>>::empty());
        }
        res
    }

    /// Keys and values that a view shows.
    pub fn current(&self, cache: &KvCache) -> (res: (Vec<T>, Vec<T>))
        requires
            self.wf(),
            holds(self@, *cache),
        ensures
            res.0@ == keys(self@, *cache),
            res.1@ == values(self@, *cache),
    {
        let block = &self.blocks[cache.storage];
        proof {
            assert(self@[cache.storage as int] == block@);
            assert(self@[cache.storage as int].wf());
        }
        let mut k: Vec<T> = Vec::new();
        let mut v: Vec<T> = Vec::new();
        extend_copied(&mut k, &block.k, cache.len);
        extend_copied(&mut v, &block.v, cache.len);
        proof {
            assert(k@ =~= keys(self@, *cache));
            assert(v@ =~= values(self@, *cache));
        }
        (k, v)
    }

    /// Checks an append without changing anything. On success, the position
    /// after it.
    pub fn check_append(
        &self,
        previous: Option<KvCache>,
        k: &KvChunk<T>,
        v: &KvChunk<T>,
        limit: usize,
    ) -> (res: Result<usize, KvError>)
        requires
            self.wf(),
            holds_previous(self@, previous),
        ensures
            match res {
                Ok(end) => append_error(self@, previous, *k, *v, limit) is None && end == previous_len(previous)
                    + k.rows@.len(),
                Err(e) => append_error(self@, previous, *k, *v, limit) == Some(e),
            },
    {
        let seq: usize = k.rows.len();
        if k.format.batch == 0 || k.format.heads == 0 || seq == 0 || k.format.width == 0 || seq != v.rows.len()
            || k.format != v.format {
            return Err(KvError::InvalidPair);
        }
        let len: usize = match previous {
            Some(p) => p.len,
            None => 0,
        };
        let end: usize = match len.checked_add(seq) {
            Some(end) => if end <= limit {
                end
            } else {
                return Err(KvError::ContextLimit);
            },
            None => {
                return Err(KvError::ContextLimit);
            },
        };
        if let Some(p) = previous {
            let block = &self.blocks[p.storage];
            proof {
                assert(self@[p.storage as int] == block@);
            }
            if block.format != k.format {
                return Err(KvError::Mismatch);
            }
        }
        Ok(end)
    }

    /// Takes `len..end` for one append: the free tail of the previous view's
    /// block, or a fresh block with the previous view's positions copied.
    pub fn reserve(&mut self, previous: Option<KvCache>, format: KvFormat, end: usize, limit: usize) -> (res: Reservation)
        requires
            old(self).wf(),
            holds_previous(old(self)@, previous),
            previous_len(previous) < end <= limit,
        ensures
            final(self).wf(),
            final(self).spec_zero() == old(self).spec_zero(),
            final(self)@ == reserved_blocks(
                old(self)@,
                previous,
                format,
                end as nat,
                limit as nat,
                old(self).spec_zero(),
            ),
            res.storage == reserved_storage(old(self)@, previous, end as nat),
            res.start == previous_len(previous),
            res.end == end,
    {
        let ghost before = self@;
        let start: usize = match previous {
            Some(p) => p.len,
            None => 0,
        };
        if let Some(p) = previous {
            proof {
                assert(before[p.storage as int] == self.blocks@[p.storage as int]@);
                assert(before[p.storage as int].wf());
            }
            if end <= self.blocks[p.storage].k.len() && self.blocks[p.storage].reserved == p.len {
                self.blocks[p.storage].reserved = end;
                proof {
                    assert(self@ =~= reserved_blocks(
                        before,
                        previous,
                        format,
                        end as nat,
                        limit as nat,
                        self.spec_zero(),
                    ));
                }
                return Reservation { storage: p.storage, start, end };
            }
        }
        let capacity: usize = capacity_for(end, limit);
        proof {
            lemma_capacity_holds_end(end as nat, limit as nat);
        }
        let mut k: Vec<T> = Vec::new();
        let mut v: Vec<T> = Vec::new();
        if let Some(p) = previous {
            let (pk, pv) = self.current(&p);
            k = pk;
            v = pv;
        }
        let rest: usize = capacity - start;
        extend_repeated(&mut k, self.zero, rest);
        extend_repeated(&mut v, self.zero, rest);
        let storage: usize = self.blocks.len();
        self.blocks.push(Block { k, v, reserved: end, format });
        proof {
            assert(self@ =~= reserved_blocks(before, previous, format, end as nat, limit as nat, self.spec_zero()));
        }
        Reservation { storage, start, end }
    }

    /// Writes the keys of a reservation.
    pub fn write_keys(&mut self, at: &Reservation, rows: &Vec<T>)
        requires
            old(self).wf(),
            reservation_in(old(self)@, *at),
            rows@.len() == at.end - at.start,
        ensures
            final(self).wf(),
            final(self).spec_zero() == old(self).spec_zero(),
            final(self)@ == keys_written(old(self)@, at.storage as int, at.start as int, rows@),
    {
        let ghost before = self@;
        proof {
            assert(before[at.storage as int] == self.blocks@[at.storage as int]@);
            assert(before[at.storage as int].wf());
        }
        overwrite(&mut self.blocks[at.storage].k, at.start, rows);
        proof {
            assert(self@ =~= keys_written(before, at.storage as int, at.start as int, rows@));
        }
    }

    /// Writes the values of a reservation.
    pub fn write_values(&mut self, at: &Reservation, rows: &Vec<T>)
        requires
            old(self).wf(),
            reservation_in(old(self)@, *at),
            rows@.len() == at.end - at.start,
        ensures
            final(self).wf(),
            final(self).spec_zero() == old(self).spec_zero(),
            final(self)@ == values_written(old(self)@, at.storage as int, at.start as int, rows@),
    {
        let ghost before = self@;
        proof {
            assert(before[at.storage as int] == self.blocks@[at.storage as int]@);
            assert(before[at.storage as int].wf());
        }
        overwrite(&mut self.blocks[at.storage].v, at.start, rows);
        proof {
            assert(self@ =~= values_written(before, at.storage as int, at.start as int, rows@));
        }
    }

    /// Continues `previous` with new positions, giving a view of all of them.
    ///
    /// A refused append changes nothing. Every view that existed before shows
    /// what it showed before, whether the append succeeds or not.
    pub fn append(
        &mut self,
        previous: Option<KvCache>,
        k: &KvChunk<T>,
        v: &KvChunk<T>,
        limit: usize,
    ) -> (res: Result<KvCache, KvError>)
        requires
            old(self).wf(),
            holds_previous(old(self)@, previous),
        ensures
            final(self).wf(),
            final(self).spec_zero() == old(self).spec_zero(),
            match res {
                Ok(next) => {
                    &&& append_error(old(self)@, previous, *k, *v, limit) is None
                    &&& final(self)@ == appended_blocks(
                        old(self)@,
                        previous,
                        *k,
                        *v,
                        limit as nat,
                        old(self).spec_zero(),
                    )
                    &&& next.storage == appended_storage(old(self)@, previous, *k)
                    &&& next.len == previous_len(previous) + k.rows@.len()
                    &&& holds(final(self)@, next)
                    &&& keys(final(self)@, next) == previous_keys(old(self)@, previous) + k.rows@
                    &&& values(final(self)@, next) == previous_values(old(self)@, previous) + v.rows@
                },
                Err(e) => {
                    &&& append_error(old(self)@, previous, *k, *v, limit) == Some(e)
                    &&& final(self)@ == old(self)@
                },
            },
            forall|c: KvCache| holds(old(self)@, c) ==> #[trigger] shows_same(old(self)@, final(self)@, c),
    {
        let ghost before = self@;
        let end: usize = match self.check_append(previous, k, v, limit) {
            Ok(end) => end,
            Err(e) => {
                return Err(e);
            },
        };
        proof {
            assert(before.len() == self.blocks.len());
            lemma_appended(before, previous, *k, *v, limit, self.spec_zero());
        }
        if !k.format.device.is_cpu() && !k.format.device.is_rocm() {
            return Ok(self.append_concat(previous, k, v, end));
        }
        let at = self.reserve(previous, k.format, end, limit);
        self.write_keys(&at, &k.rows);
        self.write_values(&at, &v.rows);
        Ok(KvCache { storage: at.storage, len: end })
    }

    /// Continues `previous` in a block of exactly the needed size.
    pub fn append_concat(&mut self, previous: Option<KvCache>, k: &KvChunk<T>, v: &KvChunk<T>, end: usize) -> (res: KvCache)
        requires
            old(self).wf(),
            holds_previous(old(self)@, previous),
            k.rows@.len() == v.rows@.len(),
            end == previous_len(previous) + k.rows@.len(),
        ensures
            final(self).wf(),
            final(self).spec_zero() == old(self).spec_zero(),
            final(self)@ == concatenated_blocks(old(self)@, previous, *k, *v),
            res.storage == old(self)@.len(),
            res.len == end,
    {
        let ghost before = self@;
        let mut nk: Vec<T> = Vec::new();
        let mut nv: Vec<T> = Vec::new();
        if let Some(p) = previous {
            proof {
                assert(before[p.storage as int].wf());
            }
            let (pk, pv) = self.current(&p);
            nk = pk;
            nv = pv;
        }
        extend_copied(&mut nk, &k.rows, k.rows.len());
        extend_copied(&mut nv, &v.rows, v.rows.len());
        let storage: usize = self.blocks.len();
        self.blocks.push(Block { k: nk, v: nv, reserved: end, format: k.format });
        proof {
            assert(k.rows@.take(k.rows@.len() as int) == k.rows@);
            assert(v.rows@.take(v.rows@.len() as int) == v.rows@);
            assert(self@ =~= concatenated_blocks(before, previous, *k, *v));
        }
        KvCache { storage, len: end }
    }

    /// Frees every block that none of the `live` views lies in. What a live
    /// view shows does not change; block numbers stay taken.
    pub fn keep_only(&mut self, live: &Vec<KvCache>)
        requires
            old(self).wf(),
        ensures
            final(self).wf(),
            final(self).spec_zero() == old(self).spec_zero(),
            final(self)@ == kept_blocks(old(self)@, live@),
            forall|i: int| 0 <= i < live@.len() && holds(old(self)@, live@[i]) ==> #[trigger] shows_same(
                old(self)@,
                final(self)@,
                live@[i],
            ),
    {
        let ghost before = self@;
        let mut i: usize = 0;
        while i < self.blocks.len()
            invariant
                i <= self.blocks@.len(),
                self.zero == old(self).zero,
                self@.len() == before.len(),
                forall|j: int| 0 <= j < i ==> self@[j] == kept_blocks(before, live@)[j],
                forall|j: int| i <= j < before.len() ==> self@[j] == before[j],
            decreases self.blocks@.len() - i,
        {
            let mut used = false;
            let mut n: usize = 0;
            while n < live.len()
                invariant
                    n <= live@.len(),
                    used == exists|m: int| 0 <= m < n && (#[trigger] live@[m]).storage == i,
                decreases live@.len() - n,
            {
                if live[n].storage == i {
                    used = true;
                }
                n = n + 1;
            }
            let ghost mid = self@;
            if !used {
                let format = self.blocks[i].format;
                self.blocks.set(i, Block { k: Vec::new(), v: Vec::new(), reserved: 0, format });
                proof {
                    assert(self@[i as int].k =~= Seq::empty());
                    assert(self@[i as int].v =~= Seq::empty());
                }
            }
            proof {
                assert(self@ =~= mid.update(i as int, self@[i as int]));
                assert(self@[i as int] == kept_blocks(before, live@)[i as int]);
            }
            i = i + 1;
        }
        proof {
            assert(self@ =~= kept_blocks(before, live@));
        }
    }
}

/// The blocks with everything freed that no view in `live` lies in.
pub open spec fn kept_blocks<T>(b: Seq<BlockView<T>>, live: Seq<KvCache>) -> Seq<BlockView<T>> {
    Seq::new(
        b.len(),
        |i: int|
            if exists|m: int| 0 <= m < live.len() && (#[trigger] live[m]).storage == i {
                b[i]
            } else {
                BlockView { k: Seq::empty(), v: Seq::empty(), reserved: 0, format: b[i].format }
            },
    )
}

/// The reserved positions lie in a block, below its reservation boundary.
pub open spec fn reservation_in<T>(b: Seq<BlockView<T>>, r: Reservation) -> bool {
    &&& r.storage < b.len()
    &&& r.start <= r.end <= b[r.storage as int].reserved
}

/// `c` is still a view after the blocks went from `a` to `b`, and shows the same.
pub open spec fn shows_same<T>(a: Seq<BlockView<T>>, b: Seq<BlockView<T>>, c: KvCache) -> bool {
    &&& holds(b, c)
    &&& keys(b, c) == keys(a, c)
    &&& values(b, c) == values(a, c)
}

/// What an append that is not refused leaves: a view of everything, and every
/// older view as it was.
pub proof fn lemma_appended<T>(
    b: Seq<BlockView<T>>,
    previous: Option<KvCache>,
    k: KvChunk<T>,
    v: KvChunk<T>,
    limit: usize,
    zero: T,
)
    requires
        blocks_wf(b),
        holds_previous(b, previous),
        append_error(b, previous, k, v, limit) is None,
        b.len() <= usize::MAX,
    ensures
        ({
            let after = appended_blocks(b, previous, k, v, limit as nat, zero);
            let end = previous_len(previous) + k.rows@.len();
            let next = KvCache { storage: appended_storage(b, previous, k) as usize, len: end as usize };
            &&& blocks_wf(after)
            &&& holds(after, next)
            &&& keys(after, next) == previous_keys(b, previous) + k.rows@
            &&& values(after, next) == previous_values(b, previous) + v.rows@
            &&& after[next.storage as int].format == k.format
            &&& forall|c: KvCache| holds(b, c) ==> #[trigger] shows_same(b, after, c)
        }),
{
    let after = appended_blocks(b, previous, k, v, limit as nat, zero);
    let len = previous_len(previous);
    let end = len + k.rows@.len();
    let s = appended_storage(b, previous, k) as int;
    lemma_capacity_holds_end(end, limit as nat);
    if previous is Some {
        assert(b[previous->0.storage as int].wf());
    }
    assert(after[s].wf());
    assert(after[s].k.take(end as int) =~= previous_keys(b, previous) + k.rows@);
    assert(after[s].v.take(end as int) =~= previous_values(b, previous) + v.rows@);
    assert forall|c: KvCache| holds(b, c) implies #[trigger] shows_same(b, after, c) by {
        assert(b[c.storage as int].wf());
        assert(keys(after, c) =~= keys(b, c));
        assert(values(after, c) =~= values(b, c));
    }
}

/// An append changes no block's format.
pub proof fn lemma_formats_stay<T>(
    b: Seq<BlockView<T>>,
    previous: Option<KvCache>,
    k: KvChunk<T>,
    v: KvChunk<T>,
    limit: nat,
    zero: T,
    i: int,
)
    requires
        holds_previous(b, previous),
        0 <= i < b.len(),
    ensures
        appended_blocks(b, previous, k, v, limit, zero)[i].format == b[i].format,
        appended_blocks(b, previous, k, v, limit, zero).len() >= b.len(),
{
}

/// A fresh block has room for what it is made for, within the limit.
proof fn lemma_capacity_holds_end(end: nat, limit: nat)
    requires
        end <= limit,
    ensures
        end <= spec_capacity_for(end, limit) <= limit,
{
    lemma_doubled_bounds(if end > 128 { end } else { 128 }, 1);
}

/// No block went away, and no reservation boundary went back.
pub open spec fn boundaries_grow<T>(a: Seq<BlockView<T>>, b: Seq<BlockView<T>>) -> bool {
    &&& a.len() <= b.len()
    &&& forall|i: int| 0 <= i < a.len() ==> (#[trigger] a[i]).reserved <= b[i].reserved
}

/// Law: an append, in place or not, leaves every view that existed before it
/// showing the same keys and values, and returns exactly the previous
/// positions followed by the new ones.
pub proof fn law_snapshots_stay_frozen<T>(
    b: Seq<BlockView<T>>,
    previous: Option<KvCache>,
    k: KvChunk<T>,
    v: KvChunk<T>,
    limit: usize,
    zero: T,
    next: KvCache,
    seen: KvCache,
)
    requires
        blocks_wf(b),
        b.len() <= usize::MAX,
        holds_previous(b, previous),
        append_error(b, previous, k, v, limit) is None,
        next.storage == appended_storage(b, previous, k),
        next.len == previous_len(previous) + k.rows@.len(),
        holds(b, seen),
    ensures
        shows_same(b, appended_blocks(b, previous, k, v, limit as nat, zero), seen),
        holds(appended_blocks(b, previous, k, v, limit as nat, zero), next),
        keys(appended_blocks(b, previous, k, v, limit as nat, zero), next) == previous_keys(b, previous) + k.rows@,
        values(appended_blocks(b, previous, k, v, limit as nat, zero), next) == previous_values(b, previous)
            + v.rows@,
{
    lemma_appended(b, previous, k, v, limit, zero);
}

/// Law: two continuations of one view never share a block, each shows its own
/// positions after the other was made, and the view they came from is unchanged.
pub proof fn law_branches_are_isolated<T>(
    b: Seq<BlockView<T>>,
    prefix: KvCache,
    k1: KvChunk<T>,
    v1: KvChunk<T>,
    k2: KvChunk<T>,
    v2: KvChunk<T>,
    limit: usize,
    zero: T,
    first: KvCache,
    second: KvCache,
)
    requires
        blocks_wf(b),
        b.len() < usize::MAX,
        holds(b, prefix),
        append_error(b, Some(prefix), k1, v1, limit) is None,
        append_error(b, Some(prefix), k2, v2, limit) is None,
        first.storage == appended_storage(b, Some(prefix), k1),
        first.len == prefix.len + k1.rows@.len(),
        second.storage == appended_storage(
            appended_blocks(b, Some(prefix), k1, v1, limit as nat, zero),
            Some(prefix),
            k2,
        ),
        second.len == prefix.len + k2.rows@.len(),
    ensures
        ({
            let one = appended_blocks(b, Some(prefix), k1, v1, limit as nat, zero);
            let two = appended_blocks(one, Some(prefix), k2, v2, limit as nat, zero);
            &&& append_error(one, Some(prefix), k2, v2, limit) is None
            &&& first.storage != second.storage
            &&& keys(two, first) == keys(b, prefix) + k1.rows@
            &&& values(two, first) == values(b, prefix) + v1.rows@
            &&& keys(two, second) == keys(b, prefix) + k2.rows@
            &&& values(two, second) == values(b, prefix) + v2.rows@
            &&& shows_same(b, two, prefix)
        }),
{
    let one = appended_blocks(b, Some(prefix), k1, v1, limit as nat, zero);
    let two = appended_blocks(one, Some(prefix), k2, v2, limit as nat, zero);
    lemma_appended(b, Some(prefix), k1, v1, limit, zero);
    assert(shows_same(b, one, prefix));
    assert(b[prefix.storage as int].wf());
    assert(one[prefix.storage as int].format == b[prefix.storage as int].format);
    assert(one.len() <= b.len() + 1);
    lemma_appended(one, Some(prefix), k2, v2, limit, zero);
    assert(holds(one, first));
    assert(shows_same(one, two, first));
    assert(shows_same(one, two, prefix));
}

/// Law: positions may arrive in any chunks. Two appends, one continuing the
/// other, show what one append of both chunks together would show.
pub proof fn law_chunked_appends_show_the_whole<T>(
    b: Seq<BlockView<T>>,
    previous: Option<KvCache>,
    k1: KvChunk<T>,
    v1: KvChunk<T>,
    k2: KvChunk<T>,
    v2: KvChunk<T>,
    k: KvChunk<T>,
    v: KvChunk<T>,
    limit: usize,
    zero: T,
    first: KvCache,
    second: KvCache,
    whole: KvCache,
)
    requires
        blocks_wf(b),
        b.len() < usize::MAX,
        holds_previous(b, previous),
        append_error(b, previous, k, v, limit) is None,
        k1.rows@.len() > 0 && k2.rows@.len() > 0,
        k1.rows@.len() == v1.rows@.len() && k2.rows@.len() == v2.rows@.len(),
        k.rows@ == k1.rows@ + k2.rows@,
        v.rows@ == v1.rows@ + v2.rows@,
        k1.format == k.format && v1.format == k.format && k2.format == k.format && v2.format == k.format,
        first.storage == appended_storage(b, previous, k1),
        first.len == previous_len(previous) + k1.rows@.len(),
        second.storage == appended_storage(appended_blocks(b, previous, k1, v1, limit as nat, zero), Some(first), k2),
        second.len == first.len + k2.rows@.len(),
        whole.storage == appended_storage(b, previous, k),
        whole.len == previous_len(previous) + k.rows@.len(),
    ensures
        ({
            let one = appended_blocks(b, previous, k1, v1, limit as nat, zero);
            let two = appended_blocks(one, Some(first), k2, v2, limit as nat, zero);
            let together = appended_blocks(b, previous, k, v, limit as nat, zero);
            &&& append_error(b, previous, k1, v1, limit) is None
            &&& append_error(one, Some(first), k2, v2, limit) is None
            &&& second.len == whole.len
            &&& keys(two, second) == keys(together, whole)
            &&& values(two, second) == values(together, whole)
        }),
{
    let one = appended_blocks(b, previous, k1, v1, limit as nat, zero);
    let two = appended_blocks(one, Some(first), k2, v2, limit as nat, zero);
    let together = appended_blocks(b, previous, k, v, limit as nat, zero);
    lemma_appended(b, previous, k, v, limit, zero);
    lemma_appended(b, previous, k1, v1, limit, zero);
    assert(one[first.storage as int].format == k.format);
    assert(one.len() <= b.len() + 1);
    lemma_appended(one, Some(first), k2, v2, limit, zero);
    assert(keys(two, second) =~= keys(together, whole));
    assert(values(two, second) =~= values(together, whole));
}

/// Law: an append never moves a reservation boundary back.
pub proof fn law_boundaries_only_grow<T>(
    b: Seq<BlockView<T>>,
    previous: Option<KvCache>,
    k: KvChunk<T>,
    v: KvChunk<T>,
    limit: usize,
    zero: T,
)
    requires
        blocks_wf(b),
        holds_previous(b, previous),
        append_error(b, previous, k, v, limit) is None,
    ensures
        boundaries_grow(b, appended_blocks(b, previous, k, v, limit as nat, zero)),
        boundaries_grow(
            b,
            reserved_blocks(b, previous, k.format, previous_len(previous) + k.rows@.len(), limit as nat, zero),
        ),
{
}

/// Law: a reservation owns its positions forever. Whatever happens after it,
/// a later reservation lies in another block or starts past its end; so a
/// retry from the same view cannot touch what a failed append may have written.
pub proof fn law_reservations_never_overlap<T>(
    b: Seq<BlockView<T>>,
    previous: Option<KvCache>,
    format: KvFormat,
    end: nat,
    limit: nat,
    zero: T,
    later: Seq<BlockView<T>>,
    other: Option<KvCache>,
    other_end: nat,
)
    requires
        blocks_wf(b),
        holds_previous(b, previous),
        previous_len(previous) < end <= limit,
        boundaries_grow(reserved_blocks(b, previous, format, end, limit, zero), later),
        holds_previous(later, other),
        previous_len(other) < other_end,
    ensures
        reserved_storage(b, previous, end) == reserved_storage(later, other, other_end) ==> end <= previous_len(other),
        other == previous ==> reserved_storage(b, previous, end) != reserved_storage(later, other, other_end),
{
    let r = reserved_blocks(b, previous, format, end, limit, zero);
    let s = reserved_storage(b, previous, end) as int;
    assert(r[s].reserved == end);
    assert(r[s].reserved <= later[s].reserved);
}

/// Law: while an append is between its reservation and its last write, the
/// views of other blocks and those that end at or before it are not touched.
pub proof fn law_pending_writes_keep_settled_views<T>(b: Seq<BlockView<T>>, r: Reservation, rows: Seq<T>, seen: KvCache)
    requires
        blocks_wf(b),
        reservation_in(b, r),
        rows.len() == r.end - r.start,
        holds(b, seen),
        seen.storage != r.storage || seen.len <= r.start,
    ensures
        shows_same(b, keys_written(b, r.storage as int, r.start as int, rows), seen),
        shows_same(b, values_written(b, r.storage as int, r.start as int, rows), seen),
{
    assert(b[seen.storage as int].wf());
    assert(b[r.storage as int].wf());
    let wk = keys_written(b, r.storage as int, r.start as int, rows);
    let wv = values_written(b, r.storage as int, r.start as int, rows);
    assert(keys(wk, seen) =~= keys(b, seen));
    assert(values(wk, seen) =~= values(b, seen));
    assert(keys(wv, seen) =~= keys(b, seen));
    assert(values(wv, seen) =~= values(b, seen));
}

proof fn lemma_next_power_doubles(m: nat, n: nat, p: nat)
    requires
        p > 0,
        n > doubled_to(m, p),
    ensures
        doubled_to(n, p) >= 2 * doubled_to(m, p),
    decreases if p < m { m - p } else { 0 },
{
    if m <= p {
        lemma_doubled_bounds(n, 2 * p);
    } else {
        lemma_doubled_bounds(m, p);
        lemma_next_power_doubles(m, n, 2 * p);
    }
}

/// Law: copying is amortized along a linear continuation. While the block of
/// the newest view has room, one more position stays in it; and when a view
/// outgrows a block that was made by this rule, the next block is at least
/// twice as large or as large as the context allows. No block is larger than
/// the context, nor smaller than what it was made for.
pub proof fn law_growth_is_amortized<T>(
    b: Seq<BlockView<T>>,
    newest: KvCache,
    k: KvChunk<T>,
    made_for: nat,
    end: nat,
    limit: nat,
)
    requires
        blocks_wf(b),
        holds(b, newest),
        newest.len == b[newest.storage as int].reserved,
        appends_in_place(k.format.device),
        end <= limit,
    ensures
        newest.len + k.rows@.len() <= b[newest.storage as int].capacity() ==> appended_storage(b, Some(newest), k)
            == newest.storage,
        end > spec_capacity_for(made_for, limit) ==> spec_capacity_for(end, limit) == limit || spec_capacity_for(
            end,
            limit,
        ) >= 2 * spec_capacity_for(made_for, limit),
        end <= spec_capacity_for(end, limit) <= limit,
{
    lemma_capacity_holds_end(end, limit);
    let m: nat = if made_for > 128 { made_for } else { 128 };
    let n: nat = if end > 128 { end } else { 128 };
    if end > spec_capacity_for(made_for, limit) {
        lemma_doubled_bounds(m, 1);
        if n > doubled_to(m, 1) {
            lemma_next_power_doubles(m, n, 1);
        }
    }
}

proof fn lemma_doubled_is_least(n: nat, e: nat, other: nat)
    ensures
        exists|f: nat| f >= e && doubled_to(n, vstd::arithmetic::power2::pow2(e)) == #[trigger] vstd::arithmetic::power2::pow2(f),
        other >= e && vstd::arithmetic::power2::pow2(other) >= n ==> doubled_to(n, vstd::arithmetic::power2::pow2(e))
            <= vstd::arithmetic::power2::pow2(other),
    decreases if vstd::arithmetic::power2::pow2(e) < n { n - vstd::arithmetic::power2::pow2(e) } else { 0 },
{
    let p = vstd::arithmetic::power2::pow2(e);
    vstd::arithmetic::power2::lemma_pow2_pos(e);
    if p < n {
        vstd::arithmetic::power2::lemma_pow2_unfold(e + 1);
        assert(vstd::arithmetic::power2::pow2(e + 1) == 2 * p);
        lemma_doubled_is_least(n, e + 1, other);
        let f = choose|f: nat|
            f >= e + 1 && doubled_to(n, vstd::arithmetic::power2::pow2(e + 1)) == #[trigger] vstd::arithmetic::power2::pow2(f);
        assert(doubled_to(n, p) == vstd::arithmetic::power2::pow2(f));
    } else if other > e {
        vstd::arithmetic::power2::lemma_pow2_strictly_increases(e, other);
    }
}

/// Law: the next power of two is one, covers `n`, and no smaller one does.
pub proof fn law_next_power_is_the_least(n: nat, other: nat)
    ensures
        exists|f: nat| spec_next_power_of_two(n) == #[trigger] vstd::arithmetic::power2::pow2(f),
        spec_next_power_of_two(n) >= n,
        vstd::arithmetic::power2::pow2(other) >= n ==> spec_next_power_of_two(n) <= vstd::arithmetic::power2::pow2(other),
{
    vstd::arithmetic::power2::lemma2_to64();
    lemma_doubled_is_least(n, 0, other);
    lemma_doubled_bounds(n, 1);
}

/// Law: a fresh block of less than the context holds a power of two of
/// positions, at least 128; it is the least of those that covers what it is
/// made for, and the context where that is less.
pub proof fn law_fresh_blocks_are_the_least_power(end: nat, limit: nat, other: nat)
    requires
        end <= limit <= usize::MAX,
    ensures
        ({
            let capacity = spec_capacity_for(end, limit);
            let power = vstd::arithmetic::power2::pow2(other);
            &&& end <= capacity <= limit
            &&& capacity < limit ==> capacity >= 128 && exists|f: nat| capacity == #[trigger] vstd::arithmetic::power2::pow2(f)
            &&& power >= 128 && power >= end ==> capacity <= power
        }),
{
    let n: nat = if end > 128 { end } else { 128 };
    lemma_capacity_holds_end(end, limit);
    law_next_power_is_the_least(n, other);
}

/// Law: an append is refused as a pair exactly when keys or values are empty in
/// any dimension or differ in anything but contents; then for its length, when
/// it ends past the limit; then for its format, when it continues a block of
/// another one. Nothing else is refused: an append may end at the limit.
pub proof fn law_appends_are_refused_for<T>(
    b: Seq<BlockView<T>>,
    previous: Option<KvCache>,
    k: KvChunk<T>,
    v: KvChunk<T>,
    limit: usize,
)
    ensures
        ({
            let e = append_error(b, previous, k, v, limit);
            let before = if previous is Some { previous->0.len as int } else { 0 };
            let paired = k.rows@.len() == v.rows@.len() && k.rows@.len() > 0 && k.format.batch > 0 && k.format.heads > 0
                && k.format.width > 0 && k.format.batch == v.format.batch && k.format.heads == v.format.heads && k.format.width
                == v.format.width && k.format.dtype == v.format.dtype && k.format.device == v.format.device;
            let fits = before + k.rows@.len() <= limit;
            let continues = previous is Some ==> b[previous->0.storage as int].format == k.format;
            &&& e is None <==> paired && fits && continues
            &&& e == Some(KvError::InvalidPair) <==> !paired
            &&& e == Some(KvError::ContextLimit) <==> paired && !fits
            &&& e == Some(KvError::Mismatch) <==> paired && fits && !continues
        }),
{
}

/// Law: a block is continued in place exactly on the devices whose queue is in
/// order, when the view reaches the block's boundary and the block has room;
/// any other append starts a block of its own.
pub proof fn law_blocks_are_continued_in_place<T>(b: Seq<BlockView<T>>, previous: Option<KvCache>, k: KvChunk<T>)
    requires
        holds_previous(b, previous),
    ensures
        appended_storage(b, previous, k) < b.len() <==> {
            &&& k.format.device is Cpu || k.format.device is Rocm
            &&& previous is Some
            &&& b[previous->0.storage as int].reserved == previous->0.len
            &&& previous->0.len + k.rows@.len() <= b[previous->0.storage as int].k.len()
        },
        appended_storage(b, previous, k) < b.len() ==> appended_storage(b, previous, k) == previous->0.storage,
        appended_storage(b, previous, k) <= b.len(),
{
}

/// Law: a reservation takes the positions after the view it continues. A fresh
/// block starts with what the view shows and holds zeros after it; a continued
/// block keeps everything it held; and no other block changes.
pub proof fn law_reservations_keep_what_was_written<T>(
    b: Seq<BlockView<T>>,
    previous: Option<KvCache>,
    format: KvFormat,
    end: nat,
    limit: nat,
    zero: T,
    i: int,
    j: int,
)
    requires
        blocks_wf(b),
        holds_previous(b, previous),
        previous_len(previous) < end <= limit,
        0 <= i < b.len(),
    ensures
        ({
            let after = reserved_blocks(b, previous, format, end, limit, zero);
            let s = reserved_storage(b, previous, end) as int;
            &&& after[i].k == b[i].k && after[i].v == b[i].v && after[i].format == b[i].format
            &&& i != s ==> after[i].reserved == b[i].reserved
            &&& after[s].reserved == end
            &&& s == b.len() ==> {
                &&& after[s].format == format
                &&& 0 <= j < previous_len(previous) ==> after[s].k[j] == b[previous->0.storage as int].k[j] && after[s].v[j]
                    == b[previous->0.storage as int].v[j]
                &&& previous_len(previous) <= j < after[s].k.len() ==> after[s].k[j] == zero && after[s].v[j] == zero
                &&& after[s].k.len() == spec_capacity_for(end, limit)
                &&& after[s].v.len() == spec_capacity_for(end, limit)
            }
        }),
{
    lemma_capacity_holds_end(end, limit);
    if previous is Some {
        assert(b[previous->0.storage as int].wf());
    }
}

/// Law: freeing empties exactly the blocks that no live view lies in, and
/// renumbers none.
pub proof fn law_only_unused_blocks_are_freed<T>(b: Seq<BlockView<T>>, live: Seq<KvCache>, i: int)
    requires
        0 <= i < b.len(),
    ensures
        kept_blocks(b, live).len() == b.len(),
        (exists|m: int| 0 <= m < live.len() && (#[trigger] live[m]).storage == i) ==> kept_blocks(b, live)[i] == b[i],
        (forall|m: int| 0 <= m < live.len() ==> (#[trigger] live[m]).storage != i) ==> kept_blocks(b, live)[i].k.len() == 0
            && kept_blocks(b, live)[i].v.len() == 0 && kept_blocks(b, live)[i].reserved == 0,
{
}

/// Law: a view shows the first positions of its block, as many as it is long,
/// one after another from the start.
pub proof fn law_views_show_a_prefix<T>(b: Seq<BlockView<T>>, c: KvCache, j: int)
    requires
        blocks_wf(b),
        holds(b, c),
        0 <= j < c.len,
    ensures
        keys(b, c).len() == c.len,
        values(b, c).len() == c.len,
        keys(b, c)[j] == b[c.storage as int].k[j],
        values(b, c)[j] == b[c.storage as int].v[j],
{
    assert(b[c.storage as int].wf());
}

/// Law: an append reserves up to its own end and no further, writes the format
/// of its chunk on a block of its own, and leaves that block exactly as long as
/// it needs to be where blocks are not continued in place.
pub proof fn law_appends_reserve_to_their_end<T>(
    b: Seq<BlockView<T>>,
    previous: Option<KvCache>,
    k: KvChunk<T>,
    v: KvChunk<T>,
    limit: usize,
    zero: T,
)
    requires
        blocks_wf(b),
        holds_previous(b, previous),
        append_error(b, previous, k, v, limit) is None,
    ensures
        ({
            let after = appended_blocks(b, previous, k, v, limit as nat, zero);
            let s = appended_storage(b, previous, k) as int;
            let end = (if previous is Some { previous->0.len as int } else { 0 }) + k.rows@.len();
            &&& after[s].reserved == end
            &&& after[s].format == k.format
            &&& k.format.device is Other ==> after[s].k.len() == end && after[s].v.len() == end
            &&& after.len() == (if s < b.len() { b.len() } else { b.len() + 1 })
        }),
{
    lemma_capacity_holds_end(previous_len(previous) + k.rows@.len(), limit as nat);
    if previous is Some {
        assert(b[previous->0.storage as int].wf());
    }
}

/// Law: whatever capacity is given to a fresh block, it holds what it is made
/// for and is no more than the context; below that it is the least power of two
/// from 128 on.
pub proof fn law_given_capacities(end: usize, limit: usize, capacity: usize, other: nat)
    requires
        call_ensures(capacity_for, (end, limit), capacity),
        end <= limit,
    ensures
        end <= capacity <= limit,
        capacity < limit ==> capacity >= 128 && exists|f: nat| capacity == #[trigger] vstd::arithmetic::power2::pow2(f),
        vstd::arithmetic::power2::pow2(other) >= 128 && vstd::arithmetic::power2::pow2(other) >= end ==> capacity
            <= vstd::arithmetic::power2::pow2(other),
{
    law_fresh_blocks_are_the_least_power(end as nat, limit as nat, other);
}

/// Law: whatever an append comes to, it is taken exactly when keys and values are
/// a pair, end within the limit and have their block's format; then the new view
/// shows the old positions followed by the new ones, and any view that there was
/// shows the same, whether it is taken or not.
pub proof fn law_appended_views_show_old_and_new<T: Copy>(
    store: &mut KvStore<T>,
    previous: Option<KvCache>,
    k: KvChunk<T>,
    v: KvChunk<T>,
    limit: usize,
    got: Result<KvCache, KvError>,
    seen: KvCache,
    j: int,
)
    requires
        call_ensures(KvStore::<T>::append, (store, previous, &k, &v, limit), got),
        old(store).wf(),
        holds_previous(old(store)@, previous),
        holds(old(store)@, seen),
        0 <= j < k.rows@.len(),
    ensures
        ({
            let at = if previous is Some { previous->0.len as int } else { 0 };
            &&& got is Ok ==> k.format == v.format && k.rows@.len() == v.rows@.len() && at + k.rows@.len() <= limit
            &&& got matches Ok(next) ==> {
                &&& next.len == at + k.rows@.len()
                &&& keys(final(store)@, next)[at + j] == k.rows@[j]
                &&& values(final(store)@, next)[at + j] == v.rows@[j]
                &&& previous is Some ==> keys(final(store)@, next).take(at) == keys(old(store)@, previous->0)
                &&& previous is Some ==> values(final(store)@, next).take(at) == values(old(store)@, previous->0)
            }
        }),
        keys(final(store)@, seen) == keys(old(store)@, seen),
        values(final(store)@, seen) == values(old(store)@, seen),
{
    assert(shows_same(old(store)@, final(store)@, seen));
    law_appends_are_refused_for(old(store)@, previous, k, v, limit);
    if let Ok(next) = got {
        if previous is Some {
            let p = previous->0;
            assert(old(store)@[p.storage as int].wf());
            assert(keys(final(store)@, next).take(p.len as int) =~= keys(old(store)@, p));
            assert(values(final(store)@, next).take(p.len as int) =~= values(old(store)@, p));
        }
    }
}

} // verus!
