//! Convolution histories.

use lfm2_moe::conv::{causal_conv, convolve_row, Columns, ConvError, ConvState, ConvStore};

fn columns(values: &[f32]) -> Columns<f32> {
    Columns { batch: 1, hidden: 1, columns: values.to_vec() }
}

fn weighted(windows: &[Vec<f32>], weight: &[f32]) -> Vec<f32> {
    windows.iter().map(|w| w.iter().zip(weight).map(|(x, w)| x * w).sum()).collect()
}

#[test]
fn convolution_chunks_preserve_history_and_isolate_branches() {
    let weight = [1f32, 2., 3.];
    let input = [1f32, 2., 3., 4., 5., 6., 7.];
    let (full, _) = causal_conv(&columns(&input), 1, 3, None, 0.).unwrap();
    let full = weighted(&full, &weight);
    assert_eq!(full, vec![3., 8., 14., 20., 26., 32., 38.]);
    for split in 1..7 {
        let (_, prefix) = causal_conv(&columns(&input[..split]), 1, 3, None, 0.).unwrap();
        let frozen = prefix.columns.clone();
        let (suffix, _) = causal_conv(&columns(&input[split..]), 1, 3, Some(&prefix), 0.).unwrap();
        assert_eq!(weighted(&suffix, &weight), full[split..]);
        let _ = causal_conv(&columns(&[99., 88.]), 1, 3, Some(&prefix), 0.).unwrap();
        assert_eq!(prefix.columns, frozen);
    }
}

#[test]
fn invalid_convolutions_are_refused() {
    let bx = columns(&[1.]);
    assert_eq!(causal_conv(&bx, 1, 0, None, 0.).unwrap_err(), ConvError::InvalidShape);
    assert_eq!(causal_conv(&columns(&[]), 1, 3, None, 0.).unwrap_err(), ConvError::InvalidShape);
    assert_eq!(causal_conv(&bx, 2, 3, None, 0.).unwrap_err(), ConvError::InvalidShape);
    assert_eq!(causal_conv(&bx, 1, 3, Some(&columns(&[0.; 2])), 0.).unwrap_err(), ConvError::InvalidState);
    let other = Columns { batch: 2, hidden: 1, columns: vec![0.; 3] };
    assert_eq!(causal_conv(&bx, 1, 3, Some(&other), 0.).unwrap_err(), ConvError::InvalidState);
}

#[test]
fn a_step_keeps_exactly_what_it_read() {
    let (windows, next) = convolve_row(&vec![1, 2, 3], &vec![4]);
    assert_eq!(windows, vec![vec![2, 3, 4]]);
    assert_eq!(next, vec![2, 3, 4]);
}

#[test]
fn a_batch_is_read_back_only_as_a_whole_and_in_order() {
    let mut store = ConvStore::new(0);
    let none = vec![None, None];
    let first = store.advance(&none, &vec![vec![1], vec![2]], 3);
    assert_eq!(first.windows, vec![vec![vec![0, 0, 1]], vec![vec![0, 0, 2]]]);
    let states = first.states;
    assert_eq!(store.previous_batch(&states), Some(0));
    assert_eq!(store.previous_batch(&vec![states[1], states[0]]), None);
    assert_eq!(store.previous_batch(&vec![states[0]]), None);
    assert_eq!(store.previous_batch(&vec![states[0], None]), None);
    assert_eq!(store.previous_batch(&vec![]), None);
    // Either way each row continues its own history.
    let kept = store.advance(&states, &vec![vec![3], vec![4]], 3);
    assert_eq!(kept.windows, vec![vec![vec![0, 1, 3]], vec![vec![0, 2, 4]]]);
    let swapped = store.advance(&vec![states[1], states[0]], &vec![vec![3], vec![4]], 3);
    assert_eq!(swapped.windows, vec![vec![vec![0, 2, 3]], vec![vec![0, 1, 4]]]);
    // The states that were continued still show what they showed.
    assert_eq!(store.row(&states[0].unwrap()), vec![0, 0, 1]);
    assert_eq!(store.row(&states[1].unwrap()), vec![0, 0, 2]);
}

#[test]
fn freed_tensors_leave_live_states_alone() {
    let mut store = ConvStore::new(0);
    store.advance(&vec![None], &vec![vec![1, 2]], 2);
    let live = store.advance(&vec![None], &vec![vec![3, 4]], 2).states[0].unwrap();
    assert_eq!(live, ConvState { tensor: 1, row: 0 });
    store.keep_only(&vec![live]);
    assert_eq!(store.row(&live), vec![3, 4]);
    let fresh = store.advance(&vec![None], &vec![vec![5]], 2).states[0].unwrap();
    assert_eq!(fresh.tensor, 2);
}
