//! Grouped attention against repeated heads and a scalar reference.

use lfm2_moe::attention::{causal_mask, forward, AttentionError, AttentionPlan};
use lfm2_moe::tensor::{DType, Device, Operand};

fn operand(device: Device, dims: &[usize]) -> Operand {
    let n: usize = dims.iter().product();
    Operand { device, dtype: DType::F32, dims: dims.to_vec(), contiguous: Some((0, n)) }
}

fn ramp(n: usize, offset: f32) -> Vec<f32> {
    (0..n).map(|i| ((i as f32 + offset) / 17.).sin()).collect()
}

/// Positions 2.. of each padded row.
fn narrowed(x: &[f32], outer: usize, padded: usize, total: usize, width: usize) -> Vec<f32> {
    let mut out = Vec::new();
    for o in 0..outer {
        let start = (o * padded + 2) * width;
        out.extend(&x[start..start + total * width]);
    }
    out
}

/// Softmax-weighted sums of one row of scores.
fn attend(scores: &[f32], v: &[f32], width: usize) -> Vec<f32> {
    let max = scores.iter().copied().fold(f32::NEG_INFINITY, f32::max);
    let weights: Vec<f32> = scores.iter().map(|s| (s - max).exp()).collect();
    let sum: f32 = weights.iter().sum();
    (0..width)
        .map(|d| weights.iter().enumerate().map(|(j, w)| w / sum * v[j * width + d]).sum())
        .collect()
}

#[test]
fn grouped_attention_matches_repeated_heads_and_scalar_reference() {
    for (batch, heads, repeats, seq, past, width) in
        [(1, 2, 4, 1, 7, 8), (2, 2, 3, 3, 5, 8), (1, 2, 1, 5, 0, 8), (1, 8, 4, 1, 331, 64), (1, 8, 4, 17, 128, 64)]
    {
        let total = past + seq;
        let q = ramp(batch * heads * repeats * seq * width, 3.);
        let k = narrowed(&ramp(batch * heads * (total + 11) * width, 7.), batch * heads, total + 11, total, width);
        let v = narrowed(&ramp(batch * heads * (total + 11) * width, 11.), batch * heads, total + 11, total, width);
        let qo = operand(Device::Cpu, &[batch, heads * repeats, seq, width]);
        let ko = operand(Device::Cpu, &[batch, heads, total, width]);
        let plan = forward(&qo, &ko, &ko).unwrap();
        assert_eq!(plan, AttentionPlan::Grouped { kv_heads: heads, rows: repeats * seq, repeats });
        let mask = causal_mask(seq, past);
        let scale = (width as f32).sqrt();
        // Rows of the grouped view, in place.
        let rows = repeats * seq;
        let mut actual = Vec::new();
        for b in 0..batch {
            for g in 0..heads {
                for row in 0..rows {
                    let t = row % seq;
                    let qr = &q[((b * heads + g) * rows + row) * width..][..width];
                    let base = (b * heads + g) * total * width;
                    let scores: Vec<f32> = (0..total)
                        .map(|j| {
                            let kr = &k[base + j * width..][..width];
                            let s: f32 = qr.iter().zip(kr).map(|(a, b)| a * b).sum();
                            if mask[t][j] { f32::NEG_INFINITY } else { s / scale }
                        })
                        .collect();
                    actual.extend(attend(&scores, &v[base..base + total * width], width));
                }
            }
        }
        // Each query head beside its own copy of the key/value head.
        let mut reference = Vec::new();
        for b in 0..batch {
            for h in 0..heads * repeats {
                let base = (b * heads + h / repeats) * total * width;
                for t in 0..seq {
                    let qr = &q[((b * heads * repeats + h) * seq + t) * width..][..width];
                    let scores: Vec<f32> = (0..total)
                        .map(|j| {
                            let kr = &k[base + j * width..][..width];
                            let s: f32 = qr.iter().zip(kr).map(|(a, b)| a * b).sum();
                            if j > past + t { f32::NEG_INFINITY } else { s / scale }
                        })
                        .collect();
                    reference.extend(attend(&scores, &v[base..base + total * width], width));
                }
            }
        }
        assert_eq!(actual.len(), reference.len());
        for (a, b) in actual.iter().zip(&reference) {
            assert!((a - b).abs() < 2e-5, "grouped attention {a} vs repeated {b}");
        }
        // Independent scalar witness for the multi-batch/multi-token case.
        if batch == 2 {
            for b in 0..batch {
                for h in 0..heads * repeats {
                    for t in 0..seq {
                        let visible = past + t + 1;
                        let scores: Vec<f64> = (0..visible)
                            .map(|j| {
                                (0..width)
                                    .map(|d| {
                                        q[((b * heads * repeats + h) * seq + t) * width + d] as f64
                                            * k[((b * heads + h / repeats) * total + j) * width + d] as f64
                                    })
                                    .sum::<f64>()
                                    / (width as f64).sqrt()
                            })
                            .collect();
                        let max = scores.iter().copied().fold(f64::NEG_INFINITY, f64::max);
                        let sum = scores.iter().map(|x| (x - max).exp()).sum::<f64>();
                        for d in 0..width {
                            let expected = scores
                                .iter()
                                .enumerate()
                                .map(|(j, x)| {
                                    (x - max).exp() / sum
                                        * v[((b * heads + h / repeats) * total + j) * width + d] as f64
                                })
                                .sum::<f64>();
                            let got = actual[((b * heads * repeats + h) * seq + t) * width + d] as f64;
                            assert!((got - expected).abs() < 2e-5);
                        }
                    }
                }
            }
        }
    }
    let q = operand(Device::Cpu, &[1, 3, 1, 8]);
    let kv = operand(Device::Cpu, &[1, 2, 1, 8]);
    assert_eq!(forward(&q, &kv, &kv), Err(AttentionError::InvalidDimensions));
}

#[test]
fn other_devices_repeat_the_heads() {
    let q = operand(Device::Other(1), &[1, 8, 2, 4]);
    let kv = operand(Device::Other(1), &[1, 2, 5, 4]);
    assert_eq!(forward(&q, &kv, &kv), Ok(AttentionPlan::Repeated { repeats: 4 }));
    let q = operand(Device::Rocm(1), &[1, 8, 2, 4]);
    assert_eq!(forward(&q, &kv, &kv), Ok(AttentionPlan::Grouped { kv_heads: 2, rows: 8, repeats: 4 }));
}

#[test]
fn misfit_dimensions_are_refused() {
    let good = || operand(Device::Cpu, &[1, 2, 3, 4]);
    let err = |q: &[usize], k: &[usize], v: &[usize]| {
        forward(&operand(Device::Cpu, q), &operand(Device::Cpu, k), &operand(Device::Cpu, v)).unwrap_err()
    };
    assert!(forward(&good(), &good(), &good()).is_ok());
    assert_eq!(err(&[1, 2, 3], &[1, 2, 3, 4], &[1, 2, 3, 4]), AttentionError::Rank);
    assert_eq!(err(&[1, 2, 3, 4], &[2, 3, 4], &[1, 2, 3, 4]), AttentionError::Rank);
    for (q, k, v) in [
        ([2, 2, 3, 4], [1, 2, 3, 4], [1, 2, 3, 4]),
        ([1, 2, 3, 5], [1, 2, 3, 4], [1, 2, 3, 4]),
        ([1, 2, 3, 4], [1, 0, 3, 4], [1, 0, 3, 4]),
        ([1, 0, 3, 4], [1, 2, 3, 4], [1, 2, 3, 4]),
        ([1, 2, 0, 4], [1, 2, 3, 4], [1, 2, 3, 4]),
        ([1, 2, 3, 0], [1, 2, 3, 0], [1, 2, 3, 0]),
        ([1, 2, 3, 4], [1, 2, 0, 4], [1, 2, 0, 4]),
        ([1, 2, 3, 4], [1, 2, 3, 4], [1, 2, 4, 4]),
    ] {
        assert_eq!(err(&q, &k, &v), AttentionError::InvalidDimensions);
    }
}

#[test]
fn masks_hide_exactly_the_future() {
    assert_eq!(
        causal_mask(2, 1),
        vec![vec![false, false, true], vec![false, false, false]]
    );
    assert_eq!(causal_mask(1, 3), vec![vec![false; 4]]);
    // A chunk after a prefix sees what it would see in one piece.
    let whole = causal_mask(5, 0);
    let tail = causal_mask(2, 3);
    assert_eq!(whole[3..], tail[..]);
}
