//! Append-only key/value storage.

use lfm2_moe::kv_cache::{capacity_for, checked_next_power_of_two, KvCache, KvChunk, KvError, KvFormat, KvStore};
use lfm2_moe::tensor::{DType, Device};

/// One position of 2 batches, 3 heads and 4 channels.
type Slab = [f32; 24];

fn format() -> KvFormat {
    KvFormat { batch: 2, heads: 3, width: 4, dtype: DType::F32, device: Device::Cpu }
}

fn slab(s: usize, shift: f32) -> Slab {
    let mut x = [0f32; 24];
    for b in 0..2 {
        for h in 0..3 {
            for d in 0..4 {
                x[(b * 3 + h) * 4 + d] = (b * 10000 + h * 1000 + s * 4 + d) as f32 + shift;
            }
        }
    }
    x
}

fn chunk(start: usize, len: usize) -> (KvChunk<Slab>, KvChunk<Slab>) {
    let rows = |shift: f32| KvChunk { format: format(), rows: (start..start + len).map(|s| slab(s, shift)).collect() };
    (rows(0.), rows(0.5))
}

fn joined(parts: &[&KvChunk<Slab>]) -> Vec<Slab> {
    parts.iter().flat_map(|p| p.rows.iter().copied()).collect()
}

fn check(store: &KvStore<Slab>, cache: &KvCache, k: &[Slab], v: &[Slab]) {
    let (actual_k, actual_v) = store.current(cache);
    assert_eq!(actual_k, k);
    assert_eq!(actual_v, v);
}

#[test]
fn sequential_appends_are_amortized_and_snapshots_stay_frozen() {
    let mut store = KvStore::new([0f32; 24]);
    let (k, v) = chunk(0, 3);
    let prefix = store.append(None, &k, &v, 300).unwrap();
    let frozen = store.current(&prefix);
    let mut a = prefix;
    let mut allocations = 1;
    for s in 3..300 {
        let (k, v) = chunk(s, 1);
        let next = store.append(Some(a), &k, &v, 300).unwrap();
        allocations += usize::from(a.storage != next.storage);
        a = next;
    }
    assert!(allocations <= 4, "{allocations} cache allocations for 297 appends");
    let (ak, av) = chunk(0, 300);
    check(&store, &a, &ak.rows, &av.rows);
    let (pk, pv) = chunk(0, 3);
    check(&store, &prefix, &pk.rows, &pv.rows);
    assert_eq!(frozen.0, pk.rows);
    assert_eq!(frozen.1, pv.rows);
    // Branch at an older prefix after the original continuation grew twice.
    let (bk, bv) = chunk(400, 7);
    let b = store.append(Some(prefix), &bk, &bv, 300).unwrap();
    assert_ne!(prefix.storage, b.storage);
    check(&store, &b, &joined(&[&pk, &bk]), &joined(&[&pv, &bv]));
    check(&store, &a, &ak.rows, &av.rows);
    check(&store, &prefix, &pk.rows, &pv.rows);
    // Limit rejection leaves the most recent branch intact.
    assert_eq!(store.append(Some(a), &bk, &bv, 300).unwrap_err(), KvError::ContextLimit);
    check(&store, &a, &ak.rows, &av.rows);
}

#[test]
fn abandoned_append_cannot_be_overwritten_by_a_retry() {
    let mut store = KvStore::new([0f32; 24]);
    let (pk, pv) = chunk(0, 5);
    let prefix = store.append(None, &pk, &pv, 64).unwrap();
    let (ak, av) = chunk(100, 2);
    let abandoned = store.append(Some(prefix), &ak, &av, 64).unwrap();
    let frozen = store.current(&abandoned);
    let (bk, bv) = chunk(200, 3);
    let retry = store.append(Some(prefix), &bk, &bv, 64).unwrap();
    check(&store, &retry, &joined(&[&pk, &bk]), &joined(&[&pv, &bv]));
    assert_eq!(frozen.0, joined(&[&pk, &ak]));
    assert_eq!(frozen.1, joined(&[&pv, &av]));
    check(&store, &abandoned, &joined(&[&pk, &ak]), &joined(&[&pv, &av]));
    check(&store, &prefix, &pk.rows, &pv.rows);
}

#[test]
fn invalid_pairs_do_not_change_a_saved_prefix() {
    let mut store = KvStore::new([0f32; 24]);
    let (k, v) = chunk(0, 3);
    let prefix = store.append(None, &k, &v, 64).unwrap();
    let (_, shorter) = chunk(0, 2);
    assert_eq!(store.append(Some(prefix), &k, &shorter, 64).unwrap_err(), KvError::InvalidPair);
    let (_, mut other) = chunk(0, 3);
    other.format.dtype = DType::F64;
    assert_eq!(store.append(Some(prefix), &k, &other, 64).unwrap_err(), KvError::InvalidPair);
    assert_eq!(store.append(Some(prefix), &k, &v, 5).unwrap_err(), KvError::ContextLimit);
    let (none_k, none_v) = chunk(0, 0);
    assert_eq!(store.append(None, &none_k, &none_v, 64).unwrap_err(), KvError::InvalidPair);
    check(&store, &prefix, &k.rows, &v.rows);
    // Both halves agree with each other, but not with what they continue.
    let (mut fk, mut fv) = chunk(3, 1);
    fk.format.device = Device::Rocm(1);
    fv.format.device = Device::Rocm(1);
    assert_eq!(store.append(Some(prefix), &fk, &fv, 64).unwrap_err(), KvError::Mismatch);
    check(&store, &prefix, &k.rows, &v.rows);
}

#[test]
fn strided_offset_sources_and_short_limits() {
    let mut store = KvStore::new([0f32; 24]);
    let (k, v) = chunk(0, 9);
    let middle = |c: &KvChunk<Slab>| KvChunk { format: c.format, rows: c.rows[2..7].to_vec() };
    let (k, v) = (middle(&k), middle(&v));
    let cache = store.append(None, &k, &v, 7).unwrap();
    let (tail_k, tail_v) = chunk(20, 2);
    let next = store.append(Some(cache), &tail_k, &tail_v, 7).unwrap();
    check(&store, &next, &joined(&[&k, &tail_k]), &joined(&[&v, &tail_v]));
    assert!(capacity_for(5, 7) <= 7);
    assert_eq!(next.storage, cache.storage);
}

#[test]
fn failure_between_key_and_value_writes_preserves_prefix_and_burns_tail() {
    let format = KvFormat { batch: 1, heads: 1, width: 4, dtype: DType::F32, device: Device::Cpu };
    let filled = |x: f32, n: usize| KvChunk { format, rows: vec![[x; 4]; n] };
    let mut store = KvStore::new([0f32; 4]);
    let (k, v) = (filled(0., 3), filled(1., 3));
    let prefix = store.append(None, &k, &v, 64).unwrap();
    let sibling = prefix;
    let tail_k = filled(99., 2);
    // The values' source fails after the keys were written.
    let end = store.check_append(Some(prefix), &tail_k, &filled(1., 2), 64).unwrap();
    let at = store.reserve(Some(prefix), format, end, 64);
    store.write_keys(&at, &tail_k.rows);
    let (retry_k, retry_v) = (filled(7., 2), filled(8., 2));
    let retry = store.append(Some(sibling), &retry_k, &retry_v, 64).unwrap();
    // The keys were written where the prefix ends, and stay there.
    let burnt = store.current(&KvCache { storage: prefix.storage, len: 5 });
    assert_eq!(burnt.0[3..], tail_k.rows[..]);
    assert_ne!(prefix.storage, retry.storage);
    let (rk, rv) = store.current(&retry);
    assert_eq!(rk, [k.rows.clone(), retry_k.rows].concat());
    assert_eq!(rv, [v.rows.clone(), retry_v.rows].concat());
    let (pk, pv) = store.current(&prefix);
    assert_eq!((pk, pv), (k.rows, v.rows));
}

#[test]
fn simultaneous_branches_never_overwrite_each_other() {
    // Whatever order the branches reach the store in, one continues the
    // prefix's block and the others fork.
    for order in [[0, 1, 2, 3], [3, 1, 0, 2], [2, 3, 1, 0]] {
        let mut store = KvStore::new([0f32; 24]);
        let (pk, pv) = chunk(0, 3);
        let prefix = store.append(None, &pk, &pv, 64).unwrap();
        let branches: Vec<_> = order
            .iter()
            .map(|i| {
                let (k, v) = chunk(50 + i * 10, 5);
                let branch = store.append(Some(prefix), &k, &v, 64).unwrap();
                (branch, k, v)
            })
            .collect();
        assert_eq!(branches.iter().filter(|(b, _, _)| b.storage == prefix.storage).count(), 1);
        for (i, (branch, k, v)) in branches.iter().enumerate() {
            for (other, _, _) in &branches[..i] {
                assert_ne!(branch.storage, other.storage);
            }
            check(&store, branch, &joined(&[&pk, k]), &joined(&[&pv, v]));
        }
        check(&store, &prefix, &pk.rows, &pv.rows);
    }
}

#[test]
fn conservative_concat_path_preserves_snapshots() {
    let mut store = KvStore::new([0f32; 24]);
    let (k, v) = chunk(0, 3);
    let prefix = store.append_concat(None, &k, &v, 3);
    let (tail_k, tail_v) = chunk(10, 2);
    let next = store.append_concat(Some(prefix), &tail_k, &tail_v, 5);
    assert_ne!(prefix.storage, next.storage);
    check(&store, &prefix, &k.rows, &v.rows);
    check(&store, &next, &joined(&[&k, &tail_k]), &joined(&[&v, &tail_v]));
}

#[test]
fn other_devices_always_copy() {
    let mut store = KvStore::new([0f32; 24]);
    let on = |(mut k, mut v): (KvChunk<Slab>, KvChunk<Slab>)| {
        k.format.device = Device::Other(3);
        v.format.device = Device::Other(3);
        (k, v)
    };
    let (k, v) = on(chunk(0, 3));
    let prefix = store.append(None, &k, &v, 64).unwrap();
    let (tk, tv) = on(chunk(3, 1));
    let next = store.append(Some(prefix), &tk, &tv, 64).unwrap();
    assert_ne!(prefix.storage, next.storage);
    check(&store, &next, &joined(&[&k, &tk]), &joined(&[&v, &tv]));
}

#[test]
fn chunked_and_whole_appends_show_the_same() {
    let mut store = KvStore::new([0f32; 24]);
    let (k, v) = chunk(0, 9);
    let whole = store.append(None, &k, &v, 64).unwrap();
    for split in 1..9 {
        let (hk, hv) = chunk(0, split);
        let (tk, tv) = chunk(split, 9 - split);
        let head = store.append(None, &hk, &hv, 64).unwrap();
        let both = store.append(Some(head), &tk, &tv, 64).unwrap();
        assert_eq!(both.len(), whole.len());
        assert_eq!(store.current(&both), store.current(&whole));
    }
}

#[test]
fn freed_blocks_leave_live_views_alone() {
    let mut store = KvStore::new([0f32; 24]);
    let (k, v) = chunk(0, 3);
    let dead = store.append(None, &k, &v, 64).unwrap();
    let (lk, lv) = chunk(7, 4);
    let live = store.append(None, &lk, &lv, 64).unwrap();
    assert_ne!(dead.storage, live.storage);
    store.keep_only(&vec![live]);
    check(&store, &live, &lk.rows, &lv.rows);
    // A freed number is not taken again.
    let fresh = store.append(None, &k, &v, 64).unwrap();
    assert!(fresh.storage != dead.storage && fresh.storage != live.storage);
}

#[test]
fn capacities_are_powers_of_two_within_the_context() {
    assert_eq!(capacity_for(1, 4096), 128);
    assert_eq!(capacity_for(128, 4096), 128);
    assert_eq!(capacity_for(129, 4096), 256);
    assert_eq!(capacity_for(3000, 4096), 4096);
    assert_eq!(capacity_for(257, 300), 300);
    assert_eq!(capacity_for(usize::MAX, usize::MAX), usize::MAX);
    assert_eq!(checked_next_power_of_two(0), Some(1));
    assert_eq!(checked_next_power_of_two(5), Some(8));
    assert_eq!(checked_next_power_of_two(usize::MAX), None);
}
