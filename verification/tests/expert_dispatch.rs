//! Dispatch of the indexed expert matmul, with the kernels' arithmetic played
//! by plain loops over the planned launches.

use lfm2_moe::moe::{
    assignment, forward, forward_impl, forward_prepared, grouped_forward, kernel_name, row_major_forced, supports,
    task_major_kernel_name, use_grouped, use_task_major, Dims, ForwardPlan, Grid, GroupedMoeRouting, MmqPlan,
    MmqShapes, MoeError, PackedRouting, Path, QStorage, RoutingPlan,
};
use lfm2_moe::quantized::{buffer_bytes, pad, GgmlDType};
use lfm2_moe::tensor::{DType, Device, Operand};

const GPU: Device = Device::Rocm(7);

/// Every dtype with an indexed kernel.
const MOE_DTYPES: [GgmlDType; 10] = [
    GgmlDType::Q2K,
    GgmlDType::Q3K,
    GgmlDType::Q4K,
    GgmlDType::Q5K,
    GgmlDType::Q6K,
    GgmlDType::Q8_0,
    GgmlDType::Q4_0,
    GgmlDType::Q4_1,
    GgmlDType::Q5_0,
    GgmlDType::Q5_1,
];

/// Tiles for rows of these widths, of the formats that have them and of one more.
fn mmq() -> MmqShapes {
    let formats = [GgmlDType::Q4K, GgmlDType::Q5K, GgmlDType::Q6K];
    let widths = [256, 512, 768, 2048];
    MmqShapes { taken: formats.iter().flat_map(|f| widths.iter().map(|k| (*f, *k))).collect() }
}

fn ramp(len: usize, div: f32) -> Vec<f32> {
    (0..len).map(|i| (i as f32 / div).sin()).collect()
}

fn operand(device: Device, dtype: DType, dims: &[usize]) -> Operand {
    let n: usize = dims.iter().product();
    Operand { device, dtype, dims: dims.to_vec(), contiguous: Some((0, n)) }
}

fn weights(dtype: GgmlDType, experts: usize, n: usize, k: usize) -> QStorage {
    QStorage { dtype, len: experts * n * k / dtype.block_size() * dtype.type_size(), device: GPU }
}

fn routes(batch: usize, topk: usize, experts: usize) -> Vec<u32> {
    (0..batch * topk).map(|i| ((i * 5 + 3) % experts) as u32).collect()
}

/// Rounds a row the way the quantized activations do: blocks of 32 values in
/// seven bits and a sign.
fn round_activations(row: &[f32]) -> Vec<f32> {
    let mut out = Vec::new();
    for block in row.chunks(32) {
        let amax = block.iter().fold(0f32, |m, v| m.max(v.abs()));
        let d = amax / 127.;
        for v in block {
            out.push(if d == 0. { 0. } else { (v / d).round() * d });
        }
    }
    out
}

/// Runs a vector launch block by block.
fn run(plan: &ForwardPlan, w: &[f32], x: &[f32], ids: &[u32]) -> Vec<f32> {
    let Path::Vector(launch) = plan.path else {
        panic!("expected the vector kernel, got {:?}", plan.path)
    };
    let d = plan.dims;
    let k = d.k;
    assert_eq!(x.len(), plan.total_rows * k);
    assert_eq!(plan.input_bytes, plan.total_rows * (launch.k_padded as usize / 32 * 36));
    let rows: Vec<Vec<f32>> = x.chunks(k).map(round_activations).collect();
    let mut out = vec![f32::NAN; plan.out_len];
    let mut written = vec![0; plan.out_len];
    for z in 0..launch.grid.z {
        for y in 0..launch.grid.y {
            for gx in 0..launch.grid.x {
                let a = assignment(&d, launch.task_major, &Grid { x: gx, y, z });
                let expert = ids[a.task] as usize;
                let row = &w[(expert * d.n + a.row) * k..(expert * d.n + a.row + 1) * k];
                out[a.out] = row.iter().zip(&rows[a.input_row]).map(|(w, x)| w * x).sum();
                written[a.out] += 1;
            }
        }
    }
    assert!(written.iter().all(|&n| n == 1), "every output once");
    out
}

/// `out[b][j] = w[ids[b][j]] @ x[b][if input_dim1 == 1 { 0 } else { j }]`.
fn reference(d: &Dims, w: &[f32], x: &[f32], ids: &[u32]) -> Vec<f32> {
    let mut out = Vec::new();
    for b in 0..d.batch {
        for j in 0..d.topk {
            let expert = ids[b * d.topk + j] as usize;
            let slot = if d.input_dim1 == 1 { 0 } else { j };
            let xr = &x[(b * d.input_dim1 + slot) * d.k..(b * d.input_dim1 + slot + 1) * d.k];
            for r in 0..d.n {
                let wr = &w[(expert * d.n + r) * d.k..(expert * d.n + r + 1) * d.k];
                out.push(wr.iter().zip(xr).map(|(w, x)| w * x).sum());
            }
        }
    }
    out
}

#[allow(clippy::too_many_arguments)]
fn check(
    dtype: GgmlDType,
    num_experts: usize,
    n: usize,
    k: usize,
    batch: usize,
    topk: usize,
    input_dim1: usize,
) {
    let w = ramp(num_experts * n * k, 61.);
    let x = ramp(batch * input_dim1 * k, 43.);
    let ids = routes(batch, topk, num_experts);
    let plan = forward(
        &weights(dtype, num_experts, n, k),
        &vec![num_experts, n, k],
        &operand(GPU, DType::F32, &[batch, input_dim1, k]),
        &operand(GPU, DType::U32, &[batch, topk]),
        &mmq(),
        false,
    )
    .unwrap();
    let Path::Vector(launch) = plan.path else { panic!("{dtype:?}") };
    assert_eq!(launch.name(), kernel_name(dtype).unwrap());
    assert_eq!((launch.block.x, launch.block.y, launch.block.z), (32, 4, 1));
    assert_eq!(plan.out_len, batch * topk * n, "{dtype:?}");
    let got = run(&plan, &w, &x, &ids);
    let want = reference(&plan.dims, &w, &x, &ids);
    let scale = want.iter().fold(0f32, |m, v| m.max(v.abs())).max(1e-6);
    for (i, (g, w)) in got.iter().zip(want.iter()).enumerate() {
        assert!(
            (g - w).abs() <= 0.02 * scale,
            "{dtype:?} experts={num_experts} n={n} k={k} batch={batch} topk={topk} \
             input_dim1={input_dim1}: element {i} is {g}, reference {w}"
        );
    }
}

#[test]
fn indexed_moe_shared_input_matches_the_cpu_rocm() {
    for dtype in MOE_DTYPES {
        check(dtype, 4, 96, 256, 3, 2, 1);
    }
}

#[test]
fn indexed_moe_per_expert_input_matches_the_cpu_rocm() {
    for dtype in MOE_DTYPES {
        check(dtype, 4, 96, 256, 3, 2, 2);
    }
}

#[test]
fn indexed_moe_unpadded_k_matches_the_cpu_rocm() {
    for dtype in [GgmlDType::Q4K, GgmlDType::Q8_0] {
        check(dtype, 3, 64, 768, 2, 2, 1);
    }
}

#[test]
fn indexed_moe_single_token_matches_the_cpu_rocm() {
    for dtype in MOE_DTYPES {
        check(dtype, 8, 128, 256, 1, 1, 1);
    }
}

#[test]
fn indexed_moe_rejects_a_dtype_without_a_kernel_rocm() {
    let err = forward(
        &weights(GgmlDType::F16, 2, 32, 256),
        &vec![2, 32, 256],
        &operand(GPU, DType::F32, &[1, 1, 256]),
        &operand(GPU, DType::U32, &[1, 1]),
        &mmq(),
        false,
    )
    .unwrap_err();
    assert_eq!(err, MoeError::NoKernel(GgmlDType::F16));
    let err = format!("{err:?}");
    assert!(err.contains("F16"), "unexpected error: {err}");
}

#[test]
fn indexed_moe_rejects_a_mismatched_batch_rocm() {
    let err = forward(
        &weights(GgmlDType::Q4K, 2, 32, 256),
        &vec![2, 32, 256],
        &operand(GPU, DType::F32, &[3, 1, 256]),
        &operand(GPU, DType::U32, &[2, 1]),
        &mmq(),
        false,
    )
    .unwrap_err();
    assert_eq!(err, MoeError::BatchMismatch { input: 3, ids: 2 });
    let err = format!("{err:?}").to_lowercase();
    assert!(err.contains("batch"), "unexpected error: {err}");
}

#[test]
fn grouped_moe_dispatch_keeps_decode_and_sparse_suffixes_on_matvec() {
    let mut d = Dims { num_experts: 32, n: 3584, k: 2048, batch: 1, topk: 4, input_dim1: 1 };
    assert!(!use_grouped(GgmlDType::Q5K, &d, &mmq()));
    d.batch = 63;
    assert!(!use_grouped(GgmlDType::Q5K, &d, &mmq()));
    d.batch = 64;
    assert!(use_grouped(GgmlDType::Q5K, &d, &mmq()));
    assert!(use_grouped(GgmlDType::Q6K, &d, &mmq()));
    assert!(!use_grouped(GgmlDType::Q4K, &d, &mmq()));
    d.k = 257;
    assert!(!use_grouped(GgmlDType::Q5K, &d, &mmq()));
}

#[test]
fn indexed_moe_task_major_is_bit_identical_to_row_major_rocm() {
    for dtype in MOE_DTYPES {
        for (batch, topk, input_dim1) in [(1, 1, 1), (3, 2, 1), (3, 2, 2), (17, 4, 1), (32, 4, 4)] {
            let (experts, n, k) = (8, 96, 256);
            let w = ramp(experts * n * k, 61.);
            let x = ramp(batch * input_dim1 * k, 43.);
            let ids = routes(batch, topk, experts);
            let vector = |task_major: bool| {
                forward_impl(
                    &weights(dtype, experts, n, k),
                    &vec![experts, n, k],
                    &operand(GPU, DType::F32, &[batch, input_dim1, k]),
                    &operand(GPU, DType::U32, &[batch, topk]),
                    Some(false),
                    None,
                    None,
                    &mmq(),
                    Some(task_major),
                    false,
                )
                .unwrap()
            };
            let (row, task) = (vector(false), vector(true));
            let Path::Vector(launch) = task.path else { panic!("{dtype:?}") };
            assert_eq!(launch.name(), task_major_kernel_name(dtype).unwrap());
            assert_eq!(row.out_len, task.out_len);
            assert_eq!(
                run(&row, &w, &x, &ids),
                run(&task, &w, &x, &ids),
                "{dtype:?} batch={batch} topk={topk} input_dim1={input_dim1}"
            );
        }
    }
}

#[test]
fn task_major_geometry_starts_at_sixteen_tokens() {
    let mut d = Dims { num_experts: 32, n: 3584, k: 2048, batch: 1, topk: 4, input_dim1: 1 };
    assert!(!use_task_major(&d, false));
    d.batch = 15;
    assert!(!use_task_major(&d, false));
    d.batch = 16;
    assert!(use_task_major(&d, false));
    // The switch turns it off for any batch.
    assert!(!use_task_major(&d, true));
}

#[test]
fn row_major_is_forced_by_any_value_but_empty_and_zero() {
    assert!(!row_major_forced(&None));
    assert!(!row_major_forced(&Some(String::new())));
    assert!(!row_major_forced(&Some("0".to_string())));
    assert!(row_major_forced(&Some("1".to_string())));
    assert!(row_major_forced(&Some("no".to_string())));
}

/// Counts per expert and of ids outside the stack, as the packing kernel
/// leaves them.
fn counts(ids: &[u32], experts: usize) -> Vec<u32> {
    let mut c = vec![0; experts + 1];
    for &id in ids {
        c[(id as usize).min(experts)] += 1;
    }
    c
}

#[test]
fn packing_plans_one_block_per_expert() {
    let ids = Operand {
        device: GPU,
        dtype: DType::U32,
        dims: vec![16, 2],
        contiguous: Some((64, 96)),
    };
    let plan = PackedRouting::plan(&ids, 5).unwrap();
    assert_eq!(plan.total_pairs, 32);
    assert_eq!(plan.scratch_len, 160);
    assert_eq!(plan.ids_offset, 64);
    assert_eq!(plan.grid, Grid { x: 5, y: 1, z: 1 });
    assert_eq!(plan.block, Grid { x: 256, y: 1, z: 1 });
    let used = routes(16, 2, 5);
    let packed = PackedRouting::finish(&plan, &counts(&used, 5)).unwrap();
    assert_eq!(packed.counts.iter().sum::<u32>(), 32);
    assert_eq!(packed.max_count as u32, *packed.counts.iter().max().unwrap());
    assert_eq!((packed.batch, packed.topk, packed.num_experts), (16, 2, 5));
}

#[test]
fn routing_rejects_bad_ids_counts_and_devices() {
    let ids = operand(GPU, DType::U32, &[32, 2]);
    let zero = vec![0u32; 64];
    assert_eq!(
        GroupedMoeRouting::new(&ids, 0, &counts(&zero, 0)).unwrap_err(),
        MoeError::ExpertCount
    );
    assert_eq!(
        GroupedMoeRouting::new(&operand(GPU, DType::F32, &[32, 2]), 4, &counts(&zero, 4)).unwrap_err(),
        MoeError::RoutingIds
    );
    // An id past the last expert.
    assert_eq!(
        GroupedMoeRouting::new(&ids, 4, &counts(&vec![4u32; 64], 4)).unwrap_err(),
        MoeError::ExpertOutside
    );
    let strided = Operand { contiguous: None, ..operand(GPU, DType::U32, &[2, 32]) };
    assert_eq!(
        GroupedMoeRouting::new(&strided, 4, &counts(&zero, 4)).unwrap_err(),
        MoeError::RoutingIds
    );
    assert_eq!(
        GroupedMoeRouting::new(&operand(Device::Cpu, DType::U32, &[32, 2]), 4, &counts(&zero, 4)).unwrap_err(),
        MoeError::NotOnDevice
    );
    assert_eq!(
        GroupedMoeRouting::new(&operand(GPU, DType::U32, &[32]), 4, &counts(&zero, 4)).unwrap_err(),
        MoeError::IdsRank
    );
    assert_eq!(
        GroupedMoeRouting::new(&operand(GPU, DType::U32, &[0, 2]), 4, &counts(&[], 4)).unwrap_err(),
        MoeError::RouteDimensions
    );
    // Pairs that no expert took.
    assert_eq!(
        GroupedMoeRouting::new(&ids, 4, &counts(&zero[..63], 4)).unwrap_err(),
        MoeError::CountsIncomplete
    );
    assert_eq!(
        PackedRouting::plan(&operand(GPU, DType::U32, &[70000, 1]), 60000).unwrap_err(),
        MoeError::ScratchOverflow
    );

    let routing = GroupedMoeRouting::new(&ids, 4, &counts(&zero, 4)).unwrap();
    let tiles = Some(MmqPlan { mmq_x: 64, mmq_y: 128, nwarps: 8 });
    let input = operand(GPU, DType::F32, &[32, 1, 256]);
    let prepared = |input: &Operand, ids: &Operand, routing: &GroupedMoeRouting| {
        forward_prepared(&weights(GgmlDType::Q5K, 2, 96, 256), &vec![2, 96, 256], input, ids, routing, tiles, &mmq())
    };
    // Made for another number of experts, on another device, for another batch.
    assert_eq!(prepared(&input, &ids, &routing).unwrap_err(), MoeError::RoutingMismatch);
    let elsewhere = Device::Rocm(8);
    let foreign =
        GroupedMoeRouting::new(&operand(elsewhere, DType::U32, &[32, 2]), 2, &counts(&zero, 2)).unwrap();
    assert_eq!(prepared(&input, &ids, &foreign).unwrap_err(), MoeError::RoutingMismatch);
    let correct = GroupedMoeRouting::new(&ids, 2, &counts(&zero, 2)).unwrap();
    assert_eq!(
        prepared(&operand(GPU, DType::F32, &[31, 1, 256]), &operand(GPU, DType::U32, &[31, 2]), &correct).unwrap_err(),
        MoeError::RoutingMismatch
    );
    let plan = prepared(&input, &ids, &correct).unwrap();
    let Path::Grouped(launch) = plan.path else { panic!("{:?}", plan.path) };
    assert_eq!(launch.grid, Grid { x: 1, y: 1, z: 2 });
    assert_eq!(launch.block, Grid { x: 32, y: 8, z: 1 });
    assert_eq!(launch.name(), "grouped_mul_mat_q5_K");
    assert_eq!(
        forward_prepared(&weights(GgmlDType::Q5K, 2, 96, 256), &vec![2, 96, 256], &input, &ids, &correct, None, &mmq())
            .unwrap_err(),
        MoeError::MissingTiles
    );
    assert!(!supports(GgmlDType::Q5K, &vec![2, 96, 256], 1, 2, &mmq()));
    assert!(supports(GgmlDType::Q5K, &vec![2, 96, 256], 32, 2, &mmq()));
    assert!(!supports(GgmlDType::Q5K, &vec![2, 96, 256], 32, 2, &MmqShapes { taken: vec![(GgmlDType::Q5K, 512)] }));
}

#[test]
fn grouped_tiles_cover_rows_and_the_busiest_expert() {
    let ids = operand(GPU, DType::U32, &[65, 4]);
    let used: Vec<u32> = (0..260).map(|i| i % 5).collect();
    let routing = GroupedMoeRouting::new(&ids, 5, &counts(&used, 5)).unwrap();
    assert_eq!(routing.packed.max_count, 52);
    let tiles = Some(MmqPlan { mmq_x: 16, mmq_y: 64, nwarps: 4 });
    let plan = forward_prepared(
        &weights(GgmlDType::Q6K, 5, 131, 768),
        &vec![5, 131, 768],
        &operand(GPU, DType::F32, &[65, 1, 768]),
        &ids,
        &routing,
        tiles,
        &mmq(),
    )
    .unwrap();
    let Path::Grouped(launch) = plan.path else { panic!("{:?}", plan.path) };
    assert_eq!(launch.grid, Grid { x: 3, y: 4, z: 5 });
    assert_eq!((launch.n, launch.k, launch.k_padded), (131, 768, 1024));
    assert_eq!((launch.total_pairs, launch.topk, launch.input_dim1), (260, 4, 1));
    assert_eq!(launch.name(), "grouped_mul_mat_q6_K");
}

#[test]
fn unprepared_large_batches_ask_for_packing() {
    let plan = forward(
        &weights(GgmlDType::Q5K, 4, 96, 256),
        &vec![4, 96, 256],
        &operand(GPU, DType::F32, &[64, 1, 256]),
        &operand(GPU, DType::U32, &[64, 2]),
        &mmq(),
        false,
    )
    .unwrap();
    let Path::Route(routing) = plan.path else { panic!("{:?}", plan.path) };
    assert_eq!((routing.batch, routing.topk, routing.num_experts), (64, 2, 4));
    assert_eq!(routing.scratch_len, 4 * 128);
}

#[test]
fn packing_on_the_way_launches_as_packing_beforehand() {
    let ids = operand(GPU, DType::U32, &[65, 4]);
    let input = operand(GPU, DType::F32, &[65, 1, 768]);
    let (q, shape) = (weights(GgmlDType::Q6K, 5, 131, 768), vec![5, 131, 768]);
    let used: Vec<u32> = (0..260).map(|i| i % 5).collect();
    let plan = forward(&q, &shape, &input, &ids, &mmq(), false).unwrap();
    let Path::Route(route) = &plan.path else { panic!("{:?}", plan.path) };
    let packed = PackedRouting::finish(route, &counts(&used, 5)).unwrap();
    let routing = GroupedMoeRouting::new(&ids, 5, &counts(&used, 5)).unwrap();
    for tiles in [Some(MmqPlan { mmq_x: 16, mmq_y: 64, nwarps: 4 }), None] {
        let prepared = forward_prepared(&q, &shape, &input, &ids, &routing, tiles, &mmq());
        match grouped_forward(&q, &plan.dims, &packed, tiles, &mmq()) {
            Ok(launch) => {
                let prepared = prepared.unwrap();
                let Path::Grouped(other) = prepared.path else { panic!("{:?}", prepared.path) };
                assert_eq!(launch, other);
                assert_eq!((plan.input_bytes, plan.out_len), (prepared.input_bytes, prepared.out_len));
            }
            Err(e) => assert_eq!(prepared.unwrap_err(), e),
        }
    }
}

#[test]
fn refused_operands_name_their_reason() {
    let q = weights(GgmlDType::Q4K, 2, 32, 256);
    let shape = vec![2, 32, 256];
    let x = || operand(GPU, DType::F32, &[2, 1, 256]);
    let i = || operand(GPU, DType::U32, &[2, 1]);
    let err = |q: &QStorage, shape: &Vec<usize>, x: &Operand, i: &Operand| {
        forward(q, shape, x, i, &mmq(), false).unwrap_err()
    };
    assert_eq!(err(&q, &shape, &operand(Device::Cpu, DType::F32, &[2, 1, 256]), &i()), MoeError::DeviceMismatch);
    assert_eq!(err(&q, &shape, &x(), &operand(Device::Rocm(9), DType::U32, &[2, 1])), MoeError::DeviceMismatch);
    assert_eq!(err(&q, &vec![2, 256], &x(), &i()), MoeError::WeightRank);
    assert_eq!(err(&q, &shape, &operand(GPU, DType::F32, &[2, 256]), &i()), MoeError::InputRank);
    assert_eq!(err(&q, &shape, &x(), &operand(GPU, DType::U32, &[2])), MoeError::IdsRank);
    assert_eq!(err(&q, &shape, &operand(GPU, DType::F32, &[2, 1, 512]), &i()), MoeError::InputWidth);
    assert_eq!(
        err(&q, &shape, &operand(GPU, DType::F32, &[2, 3, 256]), &operand(GPU, DType::U32, &[2, 2])),
        MoeError::InputSlots
    );
    assert_eq!(
        err(&q, &vec![2, 0, 256], &x(), &i()),
        MoeError::EmptyShape
    );
    assert_eq!(
        err(&q, &vec![2, 32, 255], &operand(GPU, DType::F32, &[2, 1, 255]), &i()),
        MoeError::BlockMultiple
    );
    assert_eq!(
        err(&q, &vec![1 << 12, 1 << 12, 256], &x(), &i()),
        MoeError::TooLarge
    );
    let short = QStorage { len: q.len - 144, ..q };
    assert_eq!(err(&short, &shape, &x(), &i()), MoeError::ShortWeights);
    assert_eq!(
        err(&q, &shape, &operand(GPU, DType::F16, &[2, 1, 256]), &i()),
        MoeError::InputType(DType::F16)
    );
    assert_eq!(err(&q, &shape, &Operand { contiguous: None, ..x() }, &i()), MoeError::InputNotContiguous);
    assert_eq!(
        err(&q, &shape, &x(), &operand(GPU, DType::I64, &[2, 1])),
        MoeError::IdsType(DType::I64)
    );
    assert_eq!(err(&q, &shape, &x(), &Operand { contiguous: None, ..i() }), MoeError::IdsNotContiguous);
}

#[test]
fn offsets_of_narrowed_operands_reach_the_launch() {
    let q = weights(GgmlDType::Q4K, 2, 32, 256);
    let x = Operand { contiguous: Some((512, 1024)), ..operand(GPU, DType::F32, &[2, 1, 256]) };
    let i = Operand { contiguous: Some((3, 5)), ..operand(GPU, DType::U32, &[2, 1]) };
    let plan = forward(&q, &vec![2, 32, 256], &x, &i, &mmq(), false).unwrap();
    assert_eq!((plan.input_offset, plan.ids_offset), (512, 3));
}

#[test]
fn activation_rows_are_padded_to_whole_strides() {
    assert_eq!((pad(1), pad(512), pad(513), pad(768)), (512, 512, 1024, 1024));
    assert_eq!(buffer_bytes(768, 2), 2 * 1024 / 32 * 36);
    assert_eq!(buffer_bytes(31, 3), 3 * 16 * 36);
}

#[test]
fn forced_grouping_of_other_formats_is_refused() {
    let ids = operand(GPU, DType::U32, &[16, 2]);
    let routing = GroupedMoeRouting::new(&ids, 2, &counts(&vec![0u32; 32], 2)).unwrap();
    let tiles = Some(MmqPlan { mmq_x: 8, mmq_y: 8, nwarps: 2 });
    let err = forward_prepared(
        &weights(GgmlDType::Q4K, 2, 32, 256),
        &vec![2, 32, 256],
        &operand(GPU, DType::F32, &[16, 1, 256]),
        &ids,
        &routing,
        tiles,
        &mmq(),
    )
    .unwrap_err();
    assert_eq!(err, MoeError::GroupedType);
}

#[test]
fn grouped_launches_stay_within_the_grid() {
    let tiles = |mmq_x: usize| Some(MmqPlan { mmq_x, mmq_y: 64, nwarps: 4 });
    let routing = |batch: usize, max_count: usize| PackedRouting {
        device: GPU,
        num_experts: 1,
        batch,
        topk: 1,
        max_count,
        counts: vec![max_count as u32],
    };
    let dims = |k: usize, batch: usize| Dims { num_experts: 1, n: 2, k, batch, input_dim1: 1, topk: 1 };
    let q = weights(GgmlDType::Q5K, 1, 2, 256);
    let busy = routing(70000, 65536);
    assert_eq!(grouped_forward(&q, &dims(256, 70000), &busy, tiles(1), &mmq()).unwrap_err(), MoeError::ColumnGrid);
    let launch = grouped_forward(&q, &dims(256, 70000), &busy, tiles(2), &mmq()).unwrap();
    assert_eq!(launch.grid, Grid { x: 1, y: 32768, z: 1 });
    let err = grouped_forward(&q, &dims(128, 16), &routing(16, 16), tiles(8), &mmq()).unwrap_err();
    assert_eq!(err, MoeError::GroupedDimensions);
    let many = Dims { num_experts: 65536, ..dims(256, 16) };
    let err = grouped_forward(&q, &many, &routing(16, 16), tiles(8), &mmq()).unwrap_err();
    assert_eq!(err, MoeError::GroupedDimensions);
}

#[test]
fn a_packing_of_nothing_is_refused() {
    let ids = operand(GPU, DType::U32, &[4, 2]);
    let plan = PackedRouting::plan(&ids, 3).unwrap();
    let empty = RoutingPlan { total_pairs: 0, ..plan };
    assert_eq!(PackedRouting::finish(&empty, &vec![0; 4]).unwrap_err(), MoeError::NoPairs);
    assert_eq!(PackedRouting::finish(&plan, &vec![0; 4]).unwrap_err(), MoeError::CountsIncomplete);
}
