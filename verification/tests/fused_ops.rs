//! Routing, combination, convolution step and gated activation.

use lfm2_moe::conv::convolve_row;
use lfm2_moe::elements::{combine_term, gated_term, step_channel};
use lfm2_moe::ops::{
    moe_combine, moe_route, select_experts, short_conv_rows, short_conv_step, swiglu, Combined, ConvStep, Form, OpError,
    Routed, StepForm,
};
use lfm2_moe::tensor::{DType, Device, Operand};

fn operand(device: Device, dtype: DType, dims: &[usize]) -> Operand {
    let n: usize = dims.iter().product();
    Operand { device, dtype, dims: dims.to_vec(), contiguous: Some((0, n)) }
}

fn f32s(dims: &[usize]) -> Operand {
    operand(Device::Cpu, DType::F32, dims)
}

fn sigmoid(x: f32) -> f32 {
    1. / (1. + (-x).exp())
}

fn bits(row: &[f32]) -> Vec<u32> {
    row.iter().map(|v| v.to_bits()).collect()
}

/// Routes rows of logits; weights are the picked scores over their sum.
fn route(logits: &[Vec<f32>], bias: &[f32], topk: usize) -> Result<(Vec<Vec<u32>>, Vec<Vec<f32>>), OpError> {
    let scores: Vec<Vec<f32>> = logits.iter().map(|r| r.iter().map(|&x| sigmoid(x)).collect()).collect();
    let biased: Vec<Vec<u32>> =
        scores.iter().map(|r| r.iter().zip(bias).map(|(s, b)| (s + b).to_bits()).collect()).collect();
    let experts = logits.first().map_or(bias.len(), |r| r.len());
    let routed = moe_route(
        &f32s(&[logits.len(), experts]),
        &f32s(&[bias.len()]),
        topk,
        &scores.iter().map(|r| bits(r)).collect(),
        &biased,
    )?;
    let Routed::Rows(rows) = routed else { panic!("expected rows") };
    let mut ids = Vec::new();
    let mut weights = Vec::new();
    for row in rows {
        let own: Vec<f32> = row.scores.iter().map(|&b| f32::from_bits(b)).collect();
        let sum: f32 = own.iter().sum::<f32>() + 1e-6;
        ids.push(row.ids);
        weights.push(own.iter().map(|s| s / sum).collect());
    }
    Ok((ids, weights))
}

/// Combines outputs `(rows, topk, hidden)` slot by slot.
fn combine(x: &[f32], w: &[f32], rows: usize, topk: usize, hidden: usize) -> Vec<f32> {
    let combined = moe_combine(&f32s(&[rows, topk, hidden]), &f32s(&[rows, topk])).unwrap();
    assert_eq!(combined, Combined { dims: vec![rows, hidden], form: Form::Decomposed });
    let element = |out: usize| {
        let mut sum = 0f32;
        for slot in 0..topk {
            let t = combine_term(rows, topk, hidden, out, slot);
            sum += x[t.output] * w[t.weight];
        }
        sum
    };
    (0..rows * hidden).map(element).collect()
}

fn reference_combine(x: &[Vec<Vec<f32>>], w: &[Vec<f32>]) -> Vec<f32> {
    let mut out = Vec::new();
    for (x, w) in x.iter().zip(w) {
        for c in 0..x[0].len() {
            let mut sum = 0f32;
            for (x, w) in x.iter().zip(w) {
                sum += x[c] * w;
            }
            out.push(sum);
        }
    }
    out
}

/// A stable descending sort of the biased scores.
fn reference_route(logits: &[Vec<f32>], bias: &[f32], topk: usize) -> (Vec<Vec<u32>>, Vec<Vec<f32>>) {
    let mut ids = Vec::new();
    let mut weights = Vec::new();
    for row in logits {
        let scores: Vec<f32> = row.iter().map(|&x| sigmoid(x)).collect();
        let mut order: Vec<u32> = (0..row.len() as u32).collect();
        order.sort_by(|&a, &b| {
            let (x, y) = (scores[a as usize] + bias[a as usize], scores[b as usize] + bias[b as usize]);
            y.partial_cmp(&x).unwrap()
        });
        order.truncate(topk);
        let own: Vec<f32> = order.iter().map(|&e| scores[e as usize]).collect();
        let sum: f32 = own.iter().sum::<f32>() + 1e-6;
        weights.push(own.iter().map(|s| s / sum).collect());
        ids.push(order);
    }
    (ids, weights)
}

#[test]
fn moe_ops_cpu() {
    for (rows, experts, topk) in [(1, 32, 4), (17, 32, 4), (331, 32, 4), (3, 32, 2), (3, 7, 2)] {
        for tied in [false, true] {
            let data: Vec<f32> = (0..(rows + 1) * (experts + 2))
                .map(|i| if tied { (i % 3) as f32 } else { (i as f32 * 0.317).sin() * 10. })
                .collect();
            let x: Vec<Vec<f32>> = (1..rows + 1)
                .map(|r| data[r * (experts + 2) + 1..r * (experts + 2) + 1 + experts].to_vec())
                .collect();
            let bias: Vec<f32> =
                (1..experts + 1).map(|i| if tied { 0. } else { (i % 5) as f32 * 0.4 }).collect();
            let want = reference_route(&x, &bias, topk);
            let got = route(&x, &bias, topk).unwrap();
            assert_eq!(got.0, want.0, "expert IDs including tied ordering");
            assert_eq!(got.1, want.1, "unbiased weights and reduction order");
        }
    }
    for value in [-1000f32, 0., 1000.] {
        let x = vec![vec![value; 32]; 2];
        let bias = vec![0.; 32];
        let want = reference_route(&x, &bias, 4);
        let got = route(&x, &bias, 4).unwrap();
        assert_eq!(got, want);
    }
    for (batch, slots, h) in [(1, 4, 2048), (17, 4, 33), (3, 2, 7)] {
        let x: Vec<Vec<Vec<f32>>> = (1..batch + 1)
            .map(|r| {
                let at = |s: usize, c: usize| ((r * slots + s) * (h + 2) + c) as f32;
                (0..slots).map(|s| (1..h + 1).map(|c| (at(s, c) * 0.271).sin()).collect()).collect()
            })
            .collect();
        let w: Vec<Vec<f32>> = (1..batch + 1)
            .map(|r| (1..slots + 1).map(|s| ((r * (slots + 1) + s) as f32 * 0.417).cos()).collect())
            .collect();
        let got = combine(&x.concat().concat(), &w.concat(), batch, slots, h);
        assert_eq!(got, reference_combine(&x, &w));
    }
    let x = [1e20f32, 1., -1e20, 1.];
    let want = reference_combine(&[x.iter().map(|v| vec![*v]).collect()], &[vec![1.; 4]]);
    assert_eq!(combine(&x, &[1.; 4], 1, 4, 1), want);
    let eps = f32::EPSILON;
    assert_eq!(combine(&[1. + eps, 0., -1., 0.], &[1. - eps, 0., 1., 0.], 1, 4, 1), vec![0.]);
    // Weights that are not contiguous are still of the right shape.
    let w = Operand { contiguous: None, ..f32s(&[2, 4]) };
    let combined = Combined { dims: vec![2, 3], form: Form::Decomposed };
    assert_eq!(moe_combine(&f32s(&[2, 4, 3]), &w), Ok(combined));
    let x: Vec<Vec<Vec<f32>>> = (0..2)
        .map(|r| (0..4).map(|s| (0..3).map(|c| ((r * 4 + s) * 3 + c) as f32).collect()).collect())
        .collect();
    let w: Vec<Vec<f32>> = (0..2).map(|r| (0..4).map(|s| (s * 2 + r) as f32).collect()).collect();
    assert_eq!(combine(&x.concat().concat(), &w.concat(), 2, 4, 3), reference_combine(&x, &w));
}

#[test]
fn moe_ops_reject_invalid_inputs() {
    let x = vec![vec![0f32; 32]; 2];
    let bias = vec![0f32; 32];
    for k in [0, 33] {
        assert_eq!(route(&x, &bias, k).unwrap_err(), OpError::Invalid);
    }
    assert_eq!(route(&x, &bias[..31], 4).unwrap_err(), OpError::Invalid);
    let none: Vec<Vec<u32>> = Vec::new();
    let err = |logits: &Operand, bias: &Operand| moe_route(logits, bias, 4, &none, &none).unwrap_err();
    assert_eq!(err(&operand(Device::Cpu, DType::F64, &[2, 32]), &f32s(&[32])), OpError::Invalid);
    assert_eq!(err(&f32s(&[0, 32]), &f32s(&[32])), OpError::Invalid);
    assert_eq!(err(&f32s(&[2, 32]), &operand(Device::Cpu, DType::F64, &[32])), OpError::Invalid);
    assert_eq!(err(&f32s(&[2, 32]), &operand(Device::Other(1), DType::F32, &[32])), OpError::Invalid);
    assert_eq!(err(&f32s(&[2, 4, 32]), &f32s(&[32])), OpError::Rank);
    assert_eq!(err(&f32s(&[2, 32]), &f32s(&[1, 32])), OpError::Rank);
    let x = f32s(&[2, 4, 7]);
    assert_eq!(moe_combine(&x, &f32s(&[2, 3])), Err(OpError::Invalid));
    assert_eq!(moe_combine(&x, &operand(Device::Cpu, DType::F64, &[2, 4])), Err(OpError::Invalid));
    assert_eq!(moe_combine(&f32s(&[2, 4]), &f32s(&[2, 4])), Err(OpError::Rank));
    assert_eq!(moe_combine(&f32s(&[2, 4, 0]), &f32s(&[2, 4])), Err(OpError::Invalid));
}

#[test]
fn routing_bias_selects_but_does_not_weight() {
    let (ids, w) = route(&[vec![0f32, 2., -2.]], &[0f32, 0., 2.], 2).unwrap();
    assert_eq!(ids, vec![vec![2, 1]]);
    let a = 1. / (1. + 2f32.exp());
    let b = 1. / (1. + (-2f32).exp());
    assert!((w[0][0] - a / (a + b + 1e-6)).abs() < 1e-6);
    assert!((w[0][1] - b / (a + b + 1e-6)).abs() < 1e-6);
}

#[test]
fn extreme_biases_knock_out_and_force_in() {
    let scores = bits(&[0.9, 0.5, 0.1]);
    let out = select_experts(&scores, &bits(&[0.9 - 1e4, 0.5, 0.1]), 2);
    assert_eq!(out.ids, vec![1, 2]);
    let forced = select_experts(&scores, &bits(&[0.9, 0.5, 0.1 + 1e4]), 2);
    assert_eq!(forced.ids, vec![2, 0]);
    assert_eq!(forced.scores, bits(&[0.1, 0.9]));
}

#[test]
fn rocm_fuses_its_special_cases() {
    let gpu = Device::Rocm(0);
    let none: Vec<Vec<u32>> = Vec::new();
    let routed = moe_route(
        &operand(gpu, DType::F32, &[17, 32]),
        &operand(gpu, DType::F32, &[32]),
        4,
        &none,
        &none,
    );
    assert!(matches!(routed, Ok(Routed::Fused { grid: 17, outputs: 68 })));
    assert_eq!(
        moe_combine(&operand(gpu, DType::F32, &[17, 4, 33]), &operand(gpu, DType::F32, &[17, 4])),
        Ok(Combined { dims: vec![17, 33], form: Form::Fused { n: 17 * 33 } })
    );
    assert_eq!(
        moe_combine(&operand(gpu, DType::F32, &[17, 2, 33]), &operand(gpu, DType::F32, &[17, 2])),
        Ok(Combined { dims: vec![17, 33], form: Form::Decomposed })
    );
    assert_eq!(
        short_conv_step(
            &operand(gpu, DType::F32, &[2, 1, 99]),
            &operand(gpu, DType::F32, &[33, 3]),
            &operand(gpu, DType::F32, &[2, 33, 3]),
        ),
        Ok(ConvStep {
            out: vec![2, 1, 33],
            next: vec![2, 33, 3],
            rows: 66,
            form: StepForm::Fused { n: 2 * 33 * 4, split: 66 },
        })
    );
    let gated = swiglu(&operand(gpu, DType::F32, &[3, 514])).unwrap();
    assert_eq!(gated.dims, vec![3, 257]);
    assert_eq!(gated.form, Form::Fused { n: 3 * 257 });
}

#[test]
fn fused_lfm2_cpu() {
    let h = 33;
    let packed: Vec<f32> = (0..2 * 3 * h).map(|i| (i as f32 / 29.).sin()).collect();
    for k in [1, 3, 5] {
        let weight: Vec<f32> = (0..h * k).map(|i| (i as f32 / 17.).cos()).collect();
        let old: Vec<f32> = (0..2 * h * k).map(|i| i as f32 / 113.).collect();
        let step = |state: &Operand| short_conv_step(&f32s(&[2, 1, 3 * h]), &f32s(&[h, k]), state);
        let done = ConvStep { out: vec![2, 1, h], next: vec![2, h, k], rows: 2 * h, form: StepForm::Decomposed };
        assert_eq!(step(&f32s(&[2, h, k])), Ok(done));
        assert_eq!(step(&f32s(&[2, h - 1, k])), Err(OpError::Invalid));
        let state: Vec<Vec<f32>> = old.chunks(k).map(|row| row.to_vec()).collect();
        let channel = |row: usize| step_channel(2, h, row);
        let gated: Vec<f32> = (0..2 * h).map(|i| packed[channel(i).first] * packed[channel(i).second]).collect();
        // Weighs what a step reads, tap by tap, and gates the sum.
        let run = |state: &Vec<Vec<f32>>| {
            let (reads, next) = short_conv_rows(state, &gated);
            let out: Vec<f32> = (0..2 * h)
                .map(|i| {
                    let mut sum = 0f32;
                    for j in 0..k {
                        sum += reads[i][j] * weight[i % h * k + j];
                    }
                    sum * packed[channel(i).gate]
                })
                .collect();
            (out, next)
        };
        let expected = |old: &Vec<f32>| {
            let mut want = Vec::new();
            let mut next_want = old.clone();
            for b in 0..2 {
                for c in 0..h {
                    let bx = packed[b * 3 * h + c] * packed[b * 3 * h + 2 * h + c];
                    let mut sum = 0f32;
                    for j in 0..k {
                        let x = if j + 1 < k { old[(b * h + c) * k + j + 1] } else { bx };
                        let product = x * weight[c * k + j];
                        sum += product;
                        next_want[(b * h + c) * k + j] = x;
                    }
                    want.push(sum * packed[b * 3 * h + h + c]);
                }
            }
            (want, next_want)
        };
        let (want, next_want) = expected(&old);
        let (out, next) = run(&state);
        assert_eq!(out, want);
        assert_eq!(next.concat(), next_want);
        assert_eq!(state.concat(), old);
        for (i, row) in state.iter().enumerate() {
            let (windows, kept) = convolve_row(row, &vec![gated[i]]);
            assert_eq!(windows, vec![next[i].clone()]);
            assert_eq!(kept, next[i]);
        }
        // The state that came back is the next step's input.
        let (actual_next, _) = run(&next);
        assert_eq!(actual_next, expected(&next_want).0);
        let (again, _) = run(&state);
        assert_eq!(again, want);
    }
    let gated = swiglu(&f32s(&[3, 514])).unwrap();
    assert_eq!(gated.dims, vec![3, 257]);
    assert_eq!(gated.form, Form::Decomposed);
    let silu = |v: f32| v / (1. + (-v).exp());
    let input: Vec<f32> = (0..3 * 2 * 257).map(|i| i as f32 / 131. - 5.).collect();
    let mut want = Vec::new();
    for row in input.chunks(514) {
        want.extend((0..257).map(|i| silu(row[i]) * row[257 + i]));
    }
    let out: Vec<f32> = (0..3 * 257)
        .map(|i| gated_term(3, 257, i))
        .map(|t| silu(input[t.activated]) * input[t.factor])
        .collect();
    assert_eq!(out, want);
    assert_eq!(swiglu(&f32s(&[2, 3])).unwrap_err(), OpError::Invalid);
}

#[test]
fn other_steps_and_activations_are_refused() {
    let step = |i: &Operand, w: &Operand, p: &Operand| short_conv_step(i, w, p).unwrap_err();
    let (i, w, p) = (f32s(&[2, 1, 9]), f32s(&[3, 4]), f32s(&[2, 3, 4]));
    assert_eq!(step(&f32s(&[2, 9]), &w, &p), OpError::Rank);
    assert_eq!(step(&f32s(&[2, 2, 9]), &w, &p), OpError::Invalid);
    assert_eq!(step(&f32s(&[2, 1, 8]), &w, &p), OpError::Invalid);
    assert_eq!(step(&i, &w, &f32s(&[1, 3, 4])), OpError::Invalid);
    assert_eq!(step(&i, &operand(Device::Cpu, DType::F16, &[3, 4]), &p), OpError::Invalid);
    assert_eq!(step(&i, &w, &operand(Device::Other(2), DType::F32, &[2, 3, 4])), OpError::Invalid);
    assert_eq!(short_conv_step(&i, &w, &p).unwrap().form, StepForm::Decomposed);
    assert_eq!(swiglu(&f32s(&[])).unwrap_err(), OpError::Rank);
    assert_eq!(swiglu(&f32s(&[0, 4])).unwrap_err(), OpError::Invalid);
    assert_eq!(swiglu(&f32s(&[4, 0])).unwrap_err(), OpError::Invalid);
    assert_eq!(swiglu(&operand(Device::Cpu, DType::F16, &[2, 4])).unwrap_err(), OpError::Invalid);
}

#[test]
fn a_fused_routing_has_a_block_per_row() {
    let gpu = Device::Rocm(0);
    let logits = |rows: usize| Operand { device: gpu, dtype: DType::F32, dims: vec![rows, 32], contiguous: None };
    let bias = operand(gpu, DType::F32, &[32]);
    let none = Vec::new();
    match moe_route(&logits(17), &bias, 4, &none, &none).unwrap() {
        Routed::Fused { grid, outputs } => assert_eq!((grid, outputs), (17, 68)),
        other => panic!("{other:?}"),
    }
    let past = 1usize << 32;
    assert_eq!(moe_route(&logits(past), &bias, 4, &none, &none).unwrap_err(), OpError::TooManyRows);
}

#[test]
fn every_input_is_taken_once() {
    let (rows, topk, hidden) = (3, 4, 5);
    let mut seen = vec![0; rows * topk * hidden];
    for out in 0..rows * hidden {
        for slot in 0..topk {
            let t = combine_term(rows, topk, hidden, out, slot);
            assert_eq!((t.weight, t.output % hidden), (out / hidden * topk + slot, out % hidden));
            assert_eq!(t.output / hidden, t.weight);
            seen[t.output] += 1;
        }
    }
    assert!(seen.iter().all(|n| *n == 1));
    let mut seen = vec![0; 2 * 3 * hidden];
    for row in 0..2 * hidden {
        let c = step_channel(2, hidden, row);
        for (part, at) in [c.first, c.gate, c.second].into_iter().enumerate() {
            assert_eq!(at, row / hidden * 3 * hidden + part * hidden + row % hidden);
            seen[at] += 1;
        }
    }
    assert!(seen.iter().all(|n| *n == 1));
    let mut seen = vec![0; rows * 2 * hidden];
    for out in 0..rows * hidden {
        let t = gated_term(rows, hidden, out);
        assert_eq!((t.activated, t.factor), (out / hidden * 2 * hidden + out % hidden, t.activated + hidden));
        seen[t.activated] += 1;
        seen[t.factor] += 1;
    }
    assert!(seen.iter().all(|n| *n == 1));
}
