//! Stacking packed weights, and the bundles built on it.

use lfm2_moe::layers::{
    ExpertGateUp, ExpertSchedule, ExpertStep, ExpertWeights, Experts, LayerError, Moe, Packed,
    ProductForm, QkvProjection, RouterBias, Slice, Stack,
};
use lfm2_moe::moe::MmqShapes;
use lfm2_moe::packed::{CatError, QTensor};
use lfm2_moe::quantized::GgmlDType;
use lfm2_moe::tensor::{DType, Device};

/// Tiles for rows of 256 columns of the formats that have them.
fn mmq() -> MmqShapes {
    MmqShapes { taken: vec![(GgmlDType::Q5K, 256), (GgmlDType::Q6K, 256)] }
}

fn half(x: f32) -> [u8; 2] {
    // Positive normal numbers of half precision are all these formats need.
    let b = x.to_bits();
    let e = ((b >> 23) & 0xff) as i32 - 127 + 15;
    assert!((1..31).contains(&e));
    (((e as u16) << 10) | ((b >> 13) & 0x3ff) as u16).to_le_bytes()
}

fn from_half(b: &[u8]) -> f32 {
    let h = u16::from_le_bytes([b[0], b[1]]) as u32;
    f32::from_bits((((h >> 10) + 127 - 15) << 23) | ((h & 0x3ff) << 13))
}

fn quantize_block(dtype: GgmlDType, x: &[f32], out: &mut Vec<u8>) {
    match dtype {
        GgmlDType::F32 => out.extend(x[0].to_le_bytes()),
        GgmlDType::Q6K => {
            let amax = x.iter().fold(1e-2f32, |m, v| m.max(v.abs()));
            let d = half(amax / 31.);
            let step = from_half(&d);
            let q: Vec<u8> = x.iter().map(|v| ((v / step).round().clamp(-32., 31.) as i32 + 32) as u8).collect();
            let (mut ql, mut qh) = (vec![0u8; 128], vec![0u8; 64]);
            for n in 0..2 {
                for l in 0..32 {
                    let g = |i: usize| q[n * 128 + l + 32 * i];
                    ql[n * 64 + l] = (g(0) & 0xf) | ((g(2) & 0xf) << 4);
                    ql[n * 64 + l + 32] = (g(1) & 0xf) | ((g(3) & 0xf) << 4);
                    qh[n * 32 + l] = (g(0) >> 4) | ((g(1) >> 4) << 2) | ((g(2) >> 4) << 4) | ((g(3) >> 4) << 6);
                }
            }
            out.extend(ql);
            out.extend(qh);
            out.extend([1u8; 16]);
            out.extend(d);
        }
        GgmlDType::Q5K => {
            let min = x.iter().copied().fold(f32::MAX, f32::min).min(-1e-2);
            let max = x.iter().copied().fold(f32::MIN, f32::max);
            let d = half(((max - min) / 31.).max(1e-2));
            let dmin = half(-min);
            let (step, low) = (from_half(&d), from_half(&dmin));
            let q: Vec<u8> = x.iter().map(|v| ((v + low) / step).round().clamp(0., 31.) as u8).collect();
            out.extend(d);
            out.extend(dmin);
            // Every six-bit scale and minimum is 1.
            out.extend([1u8; 8]);
            out.extend([0x11u8; 4]);
            let (mut qh, mut qs) = (vec![0u8; 32], vec![0u8; 128]);
            for j in 0..4 {
                for l in 0..32 {
                    let (a, b) = (q[j * 64 + l], q[j * 64 + 32 + l]);
                    qs[j * 32 + l] = (a & 0xf) | ((b & 0xf) << 4);
                    qh[l] |= ((a >> 4) << (2 * j)) | ((b >> 4) << (2 * j + 1));
                }
            }
            out.extend(qh);
            out.extend(qs);
        }
        _ => unreachable!(),
    }
}

fn dequantize_block(dtype: GgmlDType, b: &[u8], out: &mut Vec<f32>) {
    match dtype {
        GgmlDType::F32 => out.push(f32::from_le_bytes([b[0], b[1], b[2], b[3]])),
        GgmlDType::Q6K => {
            let (ql, qh, scales) = (&b[..128], &b[128..192], &b[192..208]);
            let d = from_half(&b[208..210]);
            let mut y = vec![0f32; 256];
            for n in 0..2 {
                for l in 0..32 {
                    let (lo, hi) = (ql[n * 64 + l], ql[n * 64 + l + 32]);
                    let h = qh[n * 32 + l];
                    let parts = [
                        (lo & 0xf) | ((h & 3) << 4),
                        (hi & 0xf) | (((h >> 2) & 3) << 4),
                        (lo >> 4) | (((h >> 4) & 3) << 4),
                        (hi >> 4) | ((h >> 6) << 4),
                    ];
                    for (i, q) in parts.iter().enumerate() {
                        let sc = scales[n * 8 + l / 16 + 2 * i] as i8 as f32;
                        y[n * 128 + l + 32 * i] = d * sc * (*q as i32 - 32) as f32;
                    }
                }
            }
            out.extend(y);
        }
        GgmlDType::Q5K => {
            let (d, dmin) = (from_half(&b[..2]), from_half(&b[2..4]));
            let (qh, qs) = (&b[16..48], &b[48..176]);
            for j in 0..4 {
                for upper in 0..2 {
                    for l in 0..32 {
                        let low = if upper == 0 { qs[j * 32 + l] & 0xf } else { qs[j * 32 + l] >> 4 };
                        let bit = (qh[l] >> (2 * j + upper)) & 1;
                        out.push(d * (low + 16 * bit) as f32 - dmin);
                    }
                }
            }
        }
        _ => unreachable!(),
    }
}

fn quantize(x: &[f32], dims: &[usize], dtype: GgmlDType) -> QTensor {
    let mut data = Vec::new();
    for block in x.chunks(dtype.block_size()) {
        quantize_block(dtype, block, &mut data);
    }
    QTensor { dtype, dims: dims.to_vec(), data }
}

fn dequantize(t: &QTensor) -> Vec<f32> {
    let mut out = Vec::new();
    for block in t.data.chunks(t.dtype.type_size()) {
        dequantize_block(t.dtype, block, &mut out);
    }
    out
}

fn again(t: &QTensor) -> QTensor {
    QTensor { dtype: t.dtype, dims: t.dims.clone(), data: t.data.clone() }
}

#[test]
fn concatenate_packed_rows_preserves_expert_boundaries_and_quantization() {
    for dtype in [GgmlDType::F32, GgmlDType::Q5K, GgmlDType::Q6K] {
        let a: Vec<f32> = (0..2 * 3 * 256).map(|i| (i as f32 / 97.).sin()).collect();
        let b: Vec<f32> = (0..2 * 5 * 256).map(|i| (i as f32 / 71.).cos()).collect();
        let qa = quantize(&a, &[2, 3, 256], dtype);
        let qb = quantize(&b, &[2, 5, 256], dtype);
        // The packed numbers are those that were packed, to the format's step.
        for (x, y) in a.iter().zip(dequantize(&qa)) {
            assert!((x - y).abs() < 0.04, "{dtype:?}: {x} {y}");
        }
        let frozen = qa.data.clone();
        let parts = vec![again(&qa), again(&qb)];
        let packed = QTensor::cat(&parts, 1).unwrap();
        assert_eq!(packed.dtype, dtype);
        assert_eq!(packed.dims, vec![2, 8, 256]);
        let (da, db) = (dequantize(&qa), dequantize(&qb));
        let mut want = Vec::new();
        for e in 0..2 {
            want.extend(&da[e * 3 * 256..(e + 1) * 3 * 256]);
            want.extend(&db[e * 5 * 256..(e + 1) * 5 * 256]);
        }
        assert_eq!(dequantize(&packed), want);
        assert_eq!(parts[0].data, frozen);
        assert_eq!(QTensor::cat(&parts, 0).unwrap_err(), CatError::Mismatch);
        assert_eq!(QTensor::cat(&vec![again(&qa), again(&qa)], 2).unwrap_err(), CatError::Dimension);
    }
    let x = vec![0f32; 2 * 256];
    let a = quantize(&x, &[2, 256], GgmlDType::Q5K);
    let b = quantize(&x, &[2, 256], GgmlDType::Q6K);
    assert_eq!(QTensor::cat(&vec![a, b], 0).unwrap_err(), CatError::Mismatch);
    assert_eq!(QTensor::cat(&vec![], 0).unwrap_err(), CatError::Empty);
}

#[test]
fn stacking_along_the_first_dimension_appends_whole_payloads() {
    let t = |rows: usize, from: u8| QTensor {
        dtype: GgmlDType::F32,
        dims: vec![rows, 1],
        data: (0..rows as u8 * 4).map(|i| from + i).collect(),
    };
    let all = QTensor::cat(&vec![t(1, 0), t(2, 10), t(1, 50)], 0).unwrap();
    assert_eq!(all.dims, vec![4, 1]);
    assert_eq!(all.data, vec![0, 1, 2, 3, 10, 11, 12, 13, 14, 15, 16, 17, 50, 51, 52, 53]);
}

/// Rows times a vector.
fn product(w: &[f32], k: usize, x: &[f32]) -> Vec<f32> {
    w.chunks(k).map(|r| r.iter().zip(x).map(|(a, b)| a * b).sum()).collect()
}

#[test]
fn qkv_bundle_matches_independent_projections_cpu() {
    for types in [
        [GgmlDType::Q5K; 3],
        [GgmlDType::Q5K, GgmlDType::Q5K, GgmlDType::Q6K],
        [GgmlDType::Q5K, GgmlDType::Q6K, GgmlDType::Q5K],
    ] {
        let rows = [1024usize, 512, 512];
        let tensors: Vec<QTensor> = (0..3)
            .map(|i| {
                let data: Vec<f32> =
                    (0..rows[i] * 512).map(|j| ((j + i * 331) as f32 / 113.).sin()).collect();
                quantize(&data, &[rows[i], 512], types[i])
            })
            .collect();
        let packed: Vec<Packed> =
            tensors.iter().map(|t| Packed { dtype: t.dtype, dims: t.dims.iter().map(|&d| d as u64).collect() }).collect();
        let joined = QkvProjection::new(&packed[0], &packed[1], &packed[2]).unwrap();
        // The weights as they are held.
        let held: Vec<QTensor> = match joined {
            QkvProjection::Fused { .. } => {
                vec![QTensor::cat(&vec![again(&tensors[0]), again(&tensors[1]), again(&tensors[2])], 0).unwrap()]
            }
            QkvProjection::Qk { .. } => vec![
                QTensor::cat(&vec![again(&tensors[0]), again(&tensors[1])], 0).unwrap(),
                again(&tensors[2]),
            ],
            QkvProjection::Separate { .. } => tensors.iter().map(again).collect(),
        };
        let held: Vec<Vec<f32>> = held.iter().map(dequantize).collect();
        let separate: Vec<Vec<f32>> = tensors.iter().map(dequantize).collect();
        let slices = joined.slices();
        for seq in [1, 3, 17] {
            let x: Vec<f32> = (0..seq * 512).map(|i| (i as f32 / 71.).cos()).collect();
            for t in 0..seq {
                let xt = &x[t * 512..(t + 1) * 512];
                let outs: Vec<Vec<f32>> = held.iter().map(|w| product(w, 512, xt)).collect();
                for (i, s) in [slices.query, slices.key, slices.value].iter().enumerate() {
                    let got = &outs[s.weight][s.start as usize..(s.start + s.len) as usize];
                    assert_eq!(got.len(), rows[i]);
                    let expected = product(&separate[i], 512, xt);
                    let scale = expected.iter().fold(1e-6f32, |m, v| m.max(v.abs()));
                    for (a, b) in got.iter().zip(&expected) {
                        assert!((a - b).abs() < 2e-5 * scale, "{types:?} seq={seq} projection={i}: {a} vs {b}");
                    }
                }
            }
        }
    }
}

fn matrix(dtype: GgmlDType, rows: u64, width: u64) -> Packed {
    Packed { dtype, dims: vec![rows, width] }
}

#[test]
fn qkv_bundles_follow_the_formats() {
    let new = |q, k, v| {
        QkvProjection::new(&matrix(q, 8, 4), &matrix(k, 2, 4), &matrix(v, 2, 4)).unwrap()
    };
    let (a, b) = (GgmlDType::Q5K, GgmlDType::Q6K);
    assert_eq!(new(a, a, a), QkvProjection::Fused { q: 8, kv: 2 });
    assert_eq!(new(a, a, b), QkvProjection::Qk { q: 8, kv: 2 });
    assert_eq!(new(a, b, b), QkvProjection::Separate { q: 8, kv: 2 });
    assert_eq!(new(a, b, a), QkvProjection::Separate { q: 8, kv: 2 });
    let fused = new(a, a, a).slices();
    assert_eq!(fused.query, Slice { weight: 0, start: 0, len: 8 });
    assert_eq!(fused.key, Slice { weight: 0, start: 8, len: 2 });
    assert_eq!(fused.value, Slice { weight: 0, start: 10, len: 2 });
    let err = |q: Packed, k: Packed, v: Packed| QkvProjection::new(&q, &k, &v).unwrap_err();
    let cube = || Packed { dtype: a, dims: vec![1, 8, 4] };
    assert_eq!(err(cube(), matrix(a, 2, 4), matrix(a, 2, 4)), LayerError::Rank);
    assert_eq!(err(matrix(a, 8, 4), cube(), matrix(a, 2, 4)), LayerError::Rank);
    assert_eq!(err(matrix(a, 8, 4), matrix(a, 2, 4), cube()), LayerError::Incompatible);
    assert_eq!(err(matrix(a, 8, 4), matrix(a, 2, 5), matrix(a, 2, 5)), LayerError::Incompatible);
    assert_eq!(err(matrix(a, 8, 4), matrix(a, 2, 4), matrix(a, 3, 4)), LayerError::Incompatible);
    assert_eq!(err(matrix(a, 0, 4), matrix(a, 2, 4), matrix(a, 2, 4)), LayerError::Incompatible);
    assert_eq!(err(matrix(a, 8, 0), matrix(a, 2, 0), matrix(a, 2, 0)), LayerError::Incompatible);
}

#[test]
fn one_routing_is_shared_by_every_product_of_a_layer() {
    let gpu = Device::Rocm(0);
    let stack = |dtype: GgmlDType| Stack { dtype, experts: 4, n: 256, k: 256 };
    for (up, products) in [(GgmlDType::Q5K, 2), (GgmlDType::Q6K, 3)] {
        let moe = Moe {
            bias: RouterBias { experts: 4, dtype: DType::F32, device: gpu },
            gate_up: ExpertGateUp::new(stack(GgmlDType::Q5K), stack(up), gpu).unwrap(),
            down: Experts::new(stack(GgmlDType::Q6K), gpu),
            topk: 2,
        };
        assert_eq!(matches!(moe.gate_up, ExpertGateUp::Merged(_)), up == GgmlDType::Q5K);
        assert_eq!(moe.schedule(17, &mmq()), ExpertSchedule { grouped: true, products });
        assert_eq!(moe.schedule(1, &mmq()), ExpertSchedule { grouped: false, products });
    }
    // One product without grouped kernels keeps all of them on plain ids.
    let mixed = Moe {
        bias: RouterBias { experts: 4, dtype: DType::F32, device: gpu },
        gate_up: ExpertGateUp::new(stack(GgmlDType::Q5K), stack(GgmlDType::Q5K), gpu).unwrap(),
        down: Experts::new(stack(GgmlDType::Q4K), gpu),
        topk: 2,
    };
    assert!(!mixed.schedule(64, &mmq()).grouped);
    let narrow = MmqShapes { taken: vec![(GgmlDType::Q5K, 256), (GgmlDType::Q6K, 512)] };
    let down = Moe { down: Experts::new(stack(GgmlDType::Q6K), gpu), ..mixed };
    assert!(down.schedule(64, &mmq()).grouped);
    assert!(!down.schedule(64, &narrow).grouped);
    let cpu = Experts::new(stack(GgmlDType::Q5K), Device::Cpu);
    assert_eq!(cpu, Experts::Cpu(stack(GgmlDType::Q5K)));
    assert!(!cpu.supports_grouped(64, 2, &mmq()));
}

#[test]
fn gate_and_up_merge_only_in_one_format() {
    let a = Stack { dtype: GgmlDType::Q5K, experts: 4, n: 96, k: 256 };
    let merged = ExpertGateUp::new(a, a, Device::Cpu).unwrap();
    assert_eq!(merged, ExpertGateUp::Merged(Experts::Cpu(Stack { n: 192, ..a })));
    let b = Stack { dtype: GgmlDType::Q6K, ..a };
    assert_eq!(
        ExpertGateUp::new(a, b, Device::Cpu).unwrap(),
        ExpertGateUp::Separate { gate: Experts::Cpu(a), up: Experts::Cpu(b) }
    );
    let narrow = Stack { k: 512, ..a };
    assert_eq!(ExpertGateUp::new(a, narrow, Device::Cpu).unwrap_err(), LayerError::Incompatible);
}

#[test]
fn experts_run_in_order_and_show_the_routing_they_use() {
    let gpu = Device::Rocm(0);
    let stack = |dtype: GgmlDType| Stack { dtype, experts: 4, n: 256, k: 256 };
    let moe = |up: GgmlDType, device: Device| Moe {
        bias: RouterBias { experts: 4, dtype: DType::F32, device },
        gate_up: ExpertGateUp::new(stack(GgmlDType::Q5K), stack(up), device).unwrap(),
        down: Experts::new(stack(GgmlDType::Q6K), device),
        topk: 2,
    };
    let product = |weights: ExpertWeights, form: ProductForm| ExpertStep::Product { weights, form };
    assert_eq!(
        moe(GgmlDType::Q5K, gpu).steps(17, true, &mmq()),
        vec![
            ExpertStep::Router,
            ExpertStep::Route,
            ExpertStep::Tap,
            ExpertStep::Pack,
            product(ExpertWeights::GateUp, ProductForm::Grouped),
            ExpertStep::SwiGlu,
            product(ExpertWeights::Down, ProductForm::Grouped),
            ExpertStep::Combine,
        ]
    );
    assert_eq!(
        moe(GgmlDType::Q6K, gpu).steps(1, false, &mmq()),
        vec![
            ExpertStep::Router,
            ExpertStep::Route,
            product(ExpertWeights::Gate, ProductForm::Indexed),
            ExpertStep::Silu,
            product(ExpertWeights::Up, ProductForm::Indexed),
            ExpertStep::Multiply,
            product(ExpertWeights::Down, ProductForm::Indexed),
            ExpertStep::Combine,
        ]
    );
    for up in [GgmlDType::Q5K, GgmlDType::Q6K] {
        for batch in [1, 17, 64] {
            for device in [gpu, Device::Cpu, Device::Other(0)] {
                let m = moe(up, device);
                let mut seen = m.steps(batch, true, &mmq());
                assert_eq!(seen.remove(2), ExpertStep::Tap);
                assert_eq!(seen, m.steps(batch, false, &mmq()));
                assert_eq!(seen.contains(&ExpertStep::Pack), device == gpu && batch > 1);
            }
        }
    }
    let cpu = moe(GgmlDType::Q5K, Device::Cpu).steps(64, false, &mmq());
    assert_eq!(cpu[2], product(ExpertWeights::GateUp, ProductForm::Gathered));
}
