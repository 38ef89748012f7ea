//! Dispatch of the indexed expert matmul: which kernel runs a batch of routed
//! tokens, over which grid, and which requests are refused.
//!
//! Weights are one `(experts, n, k)` stack; `ids` picks the expert of each of
//! the `batch * topk` routed pairs. Large batches of two formats go to grouped
//! tiles over pairs packed by expert; everything else goes to a vector kernel
//! with one block per output element.

use vstd::prelude::*;
use crate::tensor::{DType, Device, Operand};
use crate::quantized;
use crate::quantized::{buffer_bytes, div_ceil, pad, GgmlDType};

verus! {

/// Largest expert count and grid dimension of the grouped kernels.
pub const MAX_GRID: usize = 65535;

/// Tokens from which on the task-major geometry pays.
pub const TASK_MAJOR_MIN_BATCH: usize = 16;

/// Threads of a warp.
pub const WARP_SIZE: u32 = 32;

/// Warps per block that the vector kernel is written for.
pub const NWARPS: u32 = 4;

#[derive(Clone, Copy, PartialEq, Eq, Structural, Debug)]
pub enum MoeError {
    /// Weights, input and ids are not on one device and stream.
    DeviceMismatch,
    /// No kernel for this weight format.
    NoKernel(GgmlDType),
    /// Weights that are not `(experts, n, k)`.
    WeightRank,
    /// An input that is not `(batch, topk or 1, k)`.
    InputRank,
    /// Ids that are not `(batch, topk)`.
    IdsRank,
    /// The input's `k` is not the weights'.
    InputWidth,
    /// Input and ids differ in their batch.
    BatchMismatch { input: usize, ids: usize },
    /// The input's slot dimension is neither 1 nor `topk`.
    InputSlots,
    EmptyShape,
    /// `k` does not fill whole blocks.
    BlockMultiple,
    /// A shape past 32-bit kernel indexing.
    TooLarge,
    /// The payload is shorter than the shape says.
    ShortWeights,
    InputNotContiguous,
    InputType(DType),
    IdsNotContiguous,
    IdsType(DType),
    /// Routing for ids that are not on the accelerator.
    NotOnDevice,
    /// No pairs to route, or too many.
    RouteDimensions,
    ExpertCount,
    /// Routing ids that are not contiguous u32.
    RoutingIds,
    ScratchOverflow,
    /// An id names no expert of the stack.
    ExpertOutside,
    /// The counts of all experts do not add up to the pairs.
    CountsIncomplete,
    NoPairs,
    /// A grouped kernel for another format.
    GroupedType,
    GroupedDimensions,
    /// The device offers no tile geometry.
    MissingTiles,
    /// A routing made for other experts, another batch or another device.
    RoutingMismatch,
    /// More column tiles than a grid has.
    ColumnGrid,
}

/// Packed weights on a device: their format and payload bytes.
#[derive(Clone, Copy, PartialEq, Eq, Structural, Debug)]
pub struct QStorage {
    pub dtype: GgmlDType,
    pub len: usize,
    pub device: Device,
}

/// The shapes a launch is derived from, once validated.
#[derive(Clone, Copy, PartialEq, Eq, Structural, Debug)]
pub struct Dims {
    pub num_experts: usize,
    pub n: usize,
    pub k: usize,
    pub batch: usize,
    /// 1 when every expert of a token shares one activation row, `topk` when
    /// each routed pair carries its own.
    pub input_dim1: usize,
    pub topk: usize,
}

/// Kernel entry point of a format, or `None` when there is none.
pub open spec fn spec_kernel_name(dtype: GgmlDType) -> Option<Seq<char>> {
    match dtype {
        GgmlDType::Q2K => Some("indexed_moe_forward_q2k_q8_1"@),
        GgmlDType::Q3K => Some("indexed_moe_forward_q3k_q8_1"@),
        GgmlDType::Q4K => Some("indexed_moe_forward_q4k_q8_1"@),
        GgmlDType::Q5K => Some("indexed_moe_forward_q5k_q8_1"@),
        GgmlDType::Q6K => Some("indexed_moe_forward_q6k_q8_1"@),
        GgmlDType::Q8_0 => Some("indexed_moe_forward_q8_0_q8_1"@),
        GgmlDType::Q4_0 => Some("indexed_moe_forward_q4_0_q8_1"@),
        GgmlDType::Q4_1 => Some("indexed_moe_forward_q4_1_q8_1"@),
        GgmlDType::Q5_0 => Some("indexed_moe_forward_q5_0_q8_1"@),
        GgmlDType::Q5_1 => Some("indexed_moe_forward_q5_1_q8_1"@),
        _ => None,
    }
}

/// The same kernels with task-major geometry.
pub open spec fn spec_task_major_kernel_name(dtype: GgmlDType) -> Option<Seq<char>> {
    match dtype {
        GgmlDType::Q2K => Some("indexed_moe_forward_task_major_q2k_q8_1"@),
        GgmlDType::Q3K => Some("indexed_moe_forward_task_major_q3k_q8_1"@),
        GgmlDType::Q4K => Some("indexed_moe_forward_task_major_q4k_q8_1"@),
        GgmlDType::Q5K => Some("indexed_moe_forward_task_major_q5k_q8_1"@),
        GgmlDType::Q6K => Some("indexed_moe_forward_task_major_q6k_q8_1"@),
        GgmlDType::Q8_0 => Some("indexed_moe_forward_task_major_q8_0_q8_1"@),
        GgmlDType::Q4_0 => Some("indexed_moe_forward_task_major_q4_0_q8_1"@),
        GgmlDType::Q4_1 => Some("indexed_moe_forward_task_major_q4_1_q8_1"@),
        GgmlDType::Q5_0 => Some("indexed_moe_forward_task_major_q5_0_q8_1"@),
        GgmlDType::Q5_1 => Some("indexed_moe_forward_task_major_q5_1_q8_1"@),
        _ => None,
    }
}

pub open spec fn name_view(name: Option<&'static str>) -> Option<Seq<char>> {
    match name {
        Some(s) => Some(s@),
        None => None,
    }
}

pub fn kernel_name(dtype: GgmlDType) -> (res: Option<&'static str>)
    ensures
        name_view(res) == spec_kernel_name(dtype),
{
    match dtype {
        GgmlDType::Q2K => Some("indexed_moe_forward_q2k_q8_1"),
        GgmlDType::Q3K => Some("indexed_moe_forward_q3k_q8_1"),
        GgmlDType::Q4K => Some("indexed_moe_forward_q4k_q8_1"),
        GgmlDType::Q5K => Some("indexed_moe_forward_q5k_q8_1"),
        GgmlDType::Q6K => Some("indexed_moe_forward_q6k_q8_1"),
        GgmlDType::Q8_0 => Some("indexed_moe_forward_q8_0_q8_1"),
        GgmlDType::Q4_0 => Some("indexed_moe_forward_q4_0_q8_1"),
        GgmlDType::Q4_1 => Some("indexed_moe_forward_q4_1_q8_1"),
        GgmlDType::Q5_0 => Some("indexed_moe_forward_q5_0_q8_1"),
        GgmlDType::Q5_1 => Some("indexed_moe_forward_q5_1_q8_1"),
        _ => None,
    }
}

pub fn task_major_kernel_name(dtype: GgmlDType) -> (res: Option<&'static str>)
    ensures
        name_view(res) == spec_task_major_kernel_name(dtype),
{
    match dtype {
        GgmlDType::Q2K => Some("indexed_moe_forward_task_major_q2k_q8_1"),
        GgmlDType::Q3K => Some("indexed_moe_forward_task_major_q3k_q8_1"),
        GgmlDType::Q4K => Some("indexed_moe_forward_task_major_q4k_q8_1"),
        GgmlDType::Q5K => Some("indexed_moe_forward_task_major_q5k_q8_1"),
        GgmlDType::Q6K => Some("indexed_moe_forward_task_major_q6k_q8_1"),
        GgmlDType::Q8_0 => Some("indexed_moe_forward_task_major_q8_0_q8_1"),
        GgmlDType::Q4_0 => Some("indexed_moe_forward_task_major_q4_0_q8_1"),
        GgmlDType::Q4_1 => Some("indexed_moe_forward_task_major_q4_1_q8_1"),
        GgmlDType::Q5_0 => Some("indexed_moe_forward_task_major_q5_0_q8_1"),
        GgmlDType::Q5_1 => Some("indexed_moe_forward_task_major_q5_1_q8_1"),
        _ => None,
    }
}

/// How a kernel's name tells its weight format and that of its activations.
pub open spec fn kernel_suffix(dtype: GgmlDType) -> Option<Seq<char>> {
    match dtype {
        GgmlDType::Q2K => Some("q2k_q8_1"@),
        GgmlDType::Q3K => Some("q3k_q8_1"@),
        GgmlDType::Q4K => Some("q4k_q8_1"@),
        GgmlDType::Q5K => Some("q5k_q8_1"@),
        GgmlDType::Q6K => Some("q6k_q8_1"@),
        GgmlDType::Q8_0 => Some("q8_0_q8_1"@),
        GgmlDType::Q4_0 => Some("q4_0_q8_1"@),
        GgmlDType::Q4_1 => Some("q4_1_q8_1"@),
        GgmlDType::Q5_0 => Some("q5_0_q8_1"@),
        GgmlDType::Q5_1 => Some("q5_1_q8_1"@),
        _ => None,
    }
}

/// Law: every format with a row-major kernel has a task-major one, and no
/// other; the two are named alike but for their geometry.
pub proof fn law_every_kernel_has_both_geometries(dtype: GgmlDType)
    ensures
        spec_kernel_name(dtype) == (match kernel_suffix(dtype) {
            Some(suffix) => Some("indexed_moe_forward_"@ + suffix),
            None => None,
        }),
        spec_task_major_kernel_name(dtype) == (match kernel_suffix(dtype) {
            Some(suffix) => Some("indexed_moe_forward_task_major_"@ + suffix),
            None => None,
        }),
{
    reveal_strlit("indexed_moe_forward_");
    reveal_strlit("indexed_moe_forward_task_major_");
    match dtype {
        GgmlDType::Q2K => {
            reveal_strlit("q2k_q8_1");
            reveal_strlit("indexed_moe_forward_q2k_q8_1");
            reveal_strlit("indexed_moe_forward_task_major_q2k_q8_1");
            assert("indexed_moe_forward_q2k_q8_1"@ =~= "indexed_moe_forward_"@ + "q2k_q8_1"@);
            assert("indexed_moe_forward_task_major_q2k_q8_1"@ =~= "indexed_moe_forward_task_major_"@ + "q2k_q8_1"@);
        },
        GgmlDType::Q3K => {
            reveal_strlit("q3k_q8_1");
            reveal_strlit("indexed_moe_forward_q3k_q8_1");
            reveal_strlit("indexed_moe_forward_task_major_q3k_q8_1");
            assert("indexed_moe_forward_q3k_q8_1"@ =~= "indexed_moe_forward_"@ + "q3k_q8_1"@);
            assert("indexed_moe_forward_task_major_q3k_q8_1"@ =~= "indexed_moe_forward_task_major_"@ + "q3k_q8_1"@);
        },
        GgmlDType::Q4K => {
            reveal_strlit("q4k_q8_1");
            reveal_strlit("indexed_moe_forward_q4k_q8_1");
            reveal_strlit("indexed_moe_forward_task_major_q4k_q8_1");
            assert("indexed_moe_forward_q4k_q8_1"@ =~= "indexed_moe_forward_"@ + "q4k_q8_1"@);
            assert("indexed_moe_forward_task_major_q4k_q8_1"@ =~= "indexed_moe_forward_task_major_"@ + "q4k_q8_1"@);
        },
        GgmlDType::Q5K => {
            reveal_strlit("q5k_q8_1");
            reveal_strlit("indexed_moe_forward_q5k_q8_1");
            reveal_strlit("indexed_moe_forward_task_major_q5k_q8_1");
            assert("indexed_moe_forward_q5k_q8_1"@ =~= "indexed_moe_forward_"@ + "q5k_q8_1"@);
            assert("indexed_moe_forward_task_major_q5k_q8_1"@ =~= "indexed_moe_forward_task_major_"@ + "q5k_q8_1"@);
        },
        GgmlDType::Q6K => {
            reveal_strlit("q6k_q8_1");
            reveal_strlit("indexed_moe_forward_q6k_q8_1");
            reveal_strlit("indexed_moe_forward_task_major_q6k_q8_1");
            assert("indexed_moe_forward_q6k_q8_1"@ =~= "indexed_moe_forward_"@ + "q6k_q8_1"@);
            assert("indexed_moe_forward_task_major_q6k_q8_1"@ =~= "indexed_moe_forward_task_major_"@ + "q6k_q8_1"@);
        },
        GgmlDType::Q8_0 => {
            reveal_strlit("q8_0_q8_1");
            reveal_strlit("indexed_moe_forward_q8_0_q8_1");
            reveal_strlit("indexed_moe_forward_task_major_q8_0_q8_1");
            assert("indexed_moe_forward_q8_0_q8_1"@ =~= "indexed_moe_forward_"@ + "q8_0_q8_1"@);
            assert("indexed_moe_forward_task_major_q8_0_q8_1"@ =~= "indexed_moe_forward_task_major_"@ + "q8_0_q8_1"@);
        },
        GgmlDType::Q4_0 => {
            reveal_strlit("q4_0_q8_1");
            reveal_strlit("indexed_moe_forward_q4_0_q8_1");
            reveal_strlit("indexed_moe_forward_task_major_q4_0_q8_1");
            assert("indexed_moe_forward_q4_0_q8_1"@ =~= "indexed_moe_forward_"@ + "q4_0_q8_1"@);
            assert("indexed_moe_forward_task_major_q4_0_q8_1"@ =~= "indexed_moe_forward_task_major_"@ + "q4_0_q8_1"@);
        },
        GgmlDType::Q4_1 => {
            reveal_strlit("q4_1_q8_1");
            reveal_strlit("indexed_moe_forward_q4_1_q8_1");
            reveal_strlit("indexed_moe_forward_task_major_q4_1_q8_1");
            assert("indexed_moe_forward_q4_1_q8_1"@ =~= "indexed_moe_forward_"@ + "q4_1_q8_1"@);
            assert("indexed_moe_forward_task_major_q4_1_q8_1"@ =~= "indexed_moe_forward_task_major_"@ + "q4_1_q8_1"@);
        },
        GgmlDType::Q5_0 => {
            reveal_strlit("q5_0_q8_1");
            reveal_strlit("indexed_moe_forward_q5_0_q8_1");
            reveal_strlit("indexed_moe_forward_task_major_q5_0_q8_1");
            assert("indexed_moe_forward_q5_0_q8_1"@ =~= "indexed_moe_forward_"@ + "q5_0_q8_1"@);
            assert("indexed_moe_forward_task_major_q5_0_q8_1"@ =~= "indexed_moe_forward_task_major_"@ + "q5_0_q8_1"@);
        },
        GgmlDType::Q5_1 => {
            reveal_strlit("q5_1_q8_1");
            reveal_strlit("indexed_moe_forward_q5_1_q8_1");
            reveal_strlit("indexed_moe_forward_task_major_q5_1_q8_1");
            assert("indexed_moe_forward_q5_1_q8_1"@ =~= "indexed_moe_forward_"@ + "q5_1_q8_1"@);
            assert("indexed_moe_forward_task_major_q5_1_q8_1"@ =~= "indexed_moe_forward_task_major_"@ + "q5_1_q8_1"@);
        },
        _ => {},
    }
}

/// Law: no two formats share a kernel, in either geometry.
pub proof fn law_kernels_tell_formats_apart(a: GgmlDType, b: GgmlDType)
    requires
        a != b,
        kernel_suffix(a) is Some,
        kernel_suffix(b) is Some,
    ensures
        spec_kernel_name(a) != spec_kernel_name(b),
        spec_task_major_kernel_name(a) != spec_task_major_kernel_name(b),
{
    law_every_kernel_has_both_geometries(a);
    law_every_kernel_has_both_geometries(b);
    lemma_suffixes_differ(a, b);
    let (s, t) = (kernel_suffix(a)->0, kernel_suffix(b)->0);
    let (row, task) = ("indexed_moe_forward_"@, "indexed_moe_forward_task_major_"@);
    assert((row + s).skip(row.len() as int) =~= s);
    assert((row + t).skip(row.len() as int) =~= t);
    assert((task + s).skip(task.len() as int) =~= s);
    assert((task + t).skip(task.len() as int) =~= t);
}

proof fn lemma_suffixes_differ(a: GgmlDType, b: GgmlDType)
    requires
        a != b,
        kernel_suffix(a) is Some,
        kernel_suffix(b) is Some,
    ensures
        kernel_suffix(a) != kernel_suffix(b),
{
    reveal_strlit("q2k_q8_1");
    reveal_strlit("q3k_q8_1");
    reveal_strlit("q4k_q8_1");
    reveal_strlit("q5k_q8_1");
    reveal_strlit("q6k_q8_1");
    reveal_strlit("q8_0_q8_1");
    reveal_strlit("q4_0_q8_1");
    reveal_strlit("q4_1_q8_1");
    reveal_strlit("q5_0_q8_1");
    reveal_strlit("q5_1_q8_1");
    let (s, t) = (kernel_suffix(a)->0, kernel_suffix(b)->0);
    assert(s[1] != t[1] || s[2] != t[2] || s[3] != t[3]);
}

/// Whether the switch's value keeps the row-major geometry.
pub open spec fn spec_row_major_forced(value: Option<Seq<char>>) -> bool {
    value matches Some(v) && v.len() > 0 && v != "0"@
}

/// Reads the switch that keeps the row-major geometry: any text but none and "0".
pub fn row_major_forced(value: &Option<String>) -> (res: bool)
    ensures
        res == spec_row_major_forced(
            match *value {
                Some(v) => Some(v@),
                None => None,
            },
        ),
{
    match value {
        Some(v) => {
            let zero: String = "0".to_owned();
            let empty: String = String::new();
            proof {
                assert(v@.len() == 0 ==> v@ =~= Seq::<char>::empty());
            }
            *v != empty && *v != zero
        },
        None => false,
    }
}

/// Task-major geometry from 16 tokens on, unless it is switched off.
pub fn use_task_major(d: &Dims, row_major: bool) -> (res: bool)
    ensures
        res == (d.batch >= TASK_MAJOR_MIN_BATCH && !row_major),
{
    d.batch >= TASK_MAJOR_MIN_BATCH && !row_major
}

/// Why shapes are refused, if they are.
pub open spec fn dims_error(weights: Seq<usize>, input: Seq<usize>, ids: Seq<usize>) -> Option<MoeError> {
    if weights.len() != 3 {
        Some(MoeError::WeightRank)
    } else if input.len() != 3 {
        Some(MoeError::InputRank)
    } else if ids.len() != 2 {
        Some(MoeError::IdsRank)
    } else if input[2] != weights[2] {
        Some(MoeError::InputWidth)
    } else if ids[0] != input[0] {
        Some(MoeError::BatchMismatch { input: input[0], ids: ids[0] })
    } else if input[1] != 1 && input[1] != ids[1] {
        Some(MoeError::InputSlots)
    } else if weights[0] == 0 || ids[1] == 0 || input[0] == 0 || weights[1] == 0 || weights[2] == 0 {
        Some(MoeError::EmptyShape)
    } else {
        None
    }
}

pub open spec fn spec_dims(weights: Seq<usize>, input: Seq<usize>, ids: Seq<usize>) -> Dims {
    Dims {
        num_experts: weights[0],
        n: weights[1],
        k: weights[2],
        batch: input[0],
        input_dim1: input[1],
        topk: ids[1],
    }
}

pub fn dims(weights: &Vec<usize>, input: &Vec<usize>, ids: &Vec<usize>) -> (res: Result<Dims, MoeError>)
    ensures
        match res {
            Ok(d) => dims_error(weights@, input@, ids@) is None && d == spec_dims(weights@, input@, ids@),
            Err(e) => dims_error(weights@, input@, ids@) == Some(e),
        },
{
    if weights.len() != 3 {
        return Err(MoeError::WeightRank);
    }
    if input.len() != 3 {
        return Err(MoeError::InputRank);
    }
    if ids.len() != 2 {
        return Err(MoeError::IdsRank);
    }
    let d = Dims {
        num_experts: weights[0],
        n: weights[1],
        k: weights[2],
        batch: input[0],
        input_dim1: input[1],
        topk: ids[1],
    };
    if input[2] != d.k {
        return Err(MoeError::InputWidth);
    }
    if ids[0] != d.batch {
        return Err(MoeError::BatchMismatch { input: d.batch, ids: ids[0] });
    }
    if d.input_dim1 != 1 && d.input_dim1 != d.topk {
        return Err(MoeError::InputSlots);
    }
    if d.num_experts == 0 || d.topk == 0 || d.batch == 0 || d.n == 0 || d.k == 0 {
        return Err(MoeError::EmptyShape);
    }
    Ok(d)
}

/// What the device's shared matmul tiles take: pairs of a format and a row width.
#[derive(Debug)]
pub struct MmqShapes {
    pub taken: Vec<(GgmlDType, usize)>,
}

impl MmqShapes {
    /// The tiles take rows of `k` columns of this format.
    pub open spec fn spec_supports(self, dtype: GgmlDType, k: usize) -> bool {
        self.taken@.contains((dtype, k))
    }

    pub fn supports(&self, dtype: GgmlDType, k: usize) -> (res: bool)
        ensures
            res == self.spec_supports(dtype, k),
    {
        let mut i: usize = 0;
        while i < self.taken.len()
            invariant
                i <= self.taken@.len(),
                forall|j: int| 0 <= j < i ==> #[trigger] self.taken@[j] != (dtype, k),
            decreases self.taken@.len() - i,
        {
            if self.taken[i].0 == dtype && self.taken[i].1 == k {
                proof {
                    assert(self.taken@[i as int] == (dtype, k));
                }
                return true;
            }
            i = i + 1;
        }
        false
    }
}

/// Grouped tiles from eight routed columns per expert on, for two formats and
/// more than one token, where the shared tiles take the rows.
pub open spec fn spec_use_grouped(dtype: GgmlDType, d: Dims, mmq: MmqShapes) -> bool {
    &&& dtype == GgmlDType::Q5K || dtype == GgmlDType::Q6K
    &&& d.batch > 1
    &&& d.batch * d.topk >= 8 * d.num_experts
    &&& mmq.spec_supports(dtype, d.k)
}

pub fn use_grouped(dtype: GgmlDType, d: &Dims, mmq: &MmqShapes) -> (res: bool)
    requires
        d.num_experts > 0,
        d.batch * d.topk <= usize::MAX,
    ensures
        res == spec_use_grouped(dtype, *d, *mmq),
{
    proof {
        lemma_quotient_at_least_eight((d.batch * d.topk) as int, d.num_experts as int);
    }
    (dtype == GgmlDType::Q5K || dtype == GgmlDType::Q6K) && d.batch > 1 && d.batch * d.topk / d.num_experts >= 8
        && mmq.supports(dtype, d.k)
}

proof fn lemma_quotient_at_least_eight(a: int, b: int)
    requires
        a >= 0,
        b > 0,
    ensures
        a / b >= 8 <==> a >= 8 * b,
{
    vstd::arithmetic::div_mod::lemma_fundamental_div_mod(a, b);
    let q = a / b;
    let r = a % b;
    if q >= 8 {
        assert(b * q >= 8 * b) by (nonlinear_arith)
            requires
                q >= 8,
                b > 0,
        ;
    } else {
        assert(b * q <= 7 * b) by (nonlinear_arith)
            requires
                q <= 7,
                b > 0,
        ;
    }
}

/// Whether a weight stack can take a batch through a prepared routing.
pub open spec fn spec_supports(dtype: GgmlDType, shape: Seq<usize>, batch: usize, topk: usize, mmq: MmqShapes) -> bool {
    &&& shape.len() == 3
    &&& 0 < shape[0] <= MAX_GRID
    &&& shape[1] > 0
    &&& topk > 0
    &&& batch * topk <= i32::MAX
    &&& spec_use_grouped(
        dtype,
        Dims { num_experts: shape[0], n: shape[1], k: shape[2], batch, input_dim1: 1, topk },
        mmq,
    )
}

pub fn supports(dtype: GgmlDType, shape: &Vec<usize>, batch: usize, topk: usize, mmq: &MmqShapes) -> (res: bool)
    ensures
        res == spec_supports(dtype, shape@, batch, topk, *mmq),
{
    if shape.len() != 3 {
        return false;
    }
    let (num_experts, n, k) = (shape[0], shape[1], shape[2]);
    if num_experts == 0 || num_experts > MAX_GRID || n == 0 || topk == 0 {
        return false;
    }
    match batch.checked_mul(topk) {
        Some(pairs) => {
            pairs <= i32::MAX as usize && use_grouped(
                dtype,
                &Dims { num_experts, n, k, batch, input_dim1: 1, topk },
                mmq,
            )
        },
        None => false,
    }
}

#[derive(Clone, Copy, PartialEq, Eq, Structural, Debug)]
pub struct Grid {
    pub x: u32,
    pub y: u32,
    pub z: u32,
}

/// A launch of the vector kernel: one block per output element.
#[derive(Clone, Copy, PartialEq, Eq, Structural, Debug)]
pub struct Launch {
    pub dtype: GgmlDType,
    pub task_major: bool,
    pub grid: Grid,
    pub block: Grid,
    pub n: i32,
    pub k: i32,
    pub batch: i32,
    pub topk: i32,
    pub k_padded: i32,
    pub input_dim1: i32,
}

/// A launch of the grouped kernel: one block per tile of rows and columns of
/// an expert.
#[derive(Clone, Copy, PartialEq, Eq, Structural, Debug)]
pub struct GroupedLaunch {
    pub dtype: GgmlDType,
    pub grid: Grid,
    pub block: Grid,
    pub n: i32,
    pub k: i32,
    pub k_padded: i32,
    pub total_pairs: i32,
    pub topk: i32,
    pub input_dim1: i32,
}

/// Tile geometry of the shared matmul on a device.
#[derive(Clone, Copy, PartialEq, Eq, Structural, Debug)]
pub struct MmqPlan {
    pub mmq_x: usize,
    pub mmq_y: usize,
    pub nwarps: u32,
}

/// Launch of the packing kernel: one block per expert. It fills `scratch_len`
/// pair slots and `num_experts + 1` counts, the last of which counts ids that
/// name no expert.
#[derive(Clone, Copy, PartialEq, Eq, Structural, Debug)]
pub struct RoutingPlan {
    pub device: Device,
    pub num_experts: usize,
    pub batch: usize,
    pub topk: usize,
    pub total_pairs: usize,
    pub ids_offset: usize,
    pub scratch_len: usize,
    pub grid: Grid,
    pub block: Grid,
}

#[derive(Clone, Copy, PartialEq, Eq, Structural, Debug)]
pub enum Path {
    Vector(Launch),
    /// The grouped kernel, once the ids are packed.
    Route(RoutingPlan),
    /// The grouped kernel over a routing that was prepared before.
    Grouped(GroupedLaunch),
}

/// Everything one indexed matmul needs.
#[derive(Clone, Copy, PartialEq, Eq, Structural, Debug)]
pub struct ForwardPlan {
    pub dims: Dims,
    /// Rows of activations to quantize, and where the first starts.
    pub total_rows: usize,
    pub input_offset: usize,
    pub ids_offset: usize,
    /// Bytes of the quantized activations.
    pub input_bytes: usize,
    /// Elements of the `(batch, topk, n)` output.
    pub out_len: usize,
    pub path: Path,
}

/// Assignments of pairs to experts, checked after packing. It is a snapshot of
/// the ids it was made from.
#[derive(Debug)]
pub struct PackedRouting {
    pub device: Device,
    pub num_experts: usize,
    pub batch: usize,
    pub topk: usize,
    pub max_count: usize,
    pub counts: Vec<u32>,
}

/// Reusable packed assignments of one routing decision.
#[derive(Debug)]
pub struct GroupedMoeRouting {
    pub packed: PackedRouting,
}

/// Whether an operand of the wanted type covers exactly `n` elements.
pub open spec fn covers(x: Operand, n: nat) -> bool {
    x.contiguous matches Some((a, b)) && a <= b && b - a == n
}

/// First element of a gapless operand.
pub open spec fn start_of(x: Operand) -> usize {
    match x.contiguous {
        Some((at, _)) => at,
        None => 0,
    }
}

fn covering_offset(x: &Operand, n: usize) -> (res: Option<usize>)
    ensures
        match res {
            Some(at) => covers(*x, n as nat) && x.contiguous == Some((at, (at + n) as usize)),
            None => !covers(*x, n as nat),
        },
{
    match x.contiguous {
        Some((a, b)) => if a <= b && b - a == n {
            Some(a)
        } else {
            None
        },
        None => None,
    }
}

/// Every product that a kernel indexes by fits in 31 bits.
pub open spec fn indexable(d: Dims) -> bool {
    &&& d.num_experts * d.n * d.k <= i32::MAX
    &&& d.batch * d.topk * d.n <= i32::MAX
    &&& d.batch * d.input_dim1 * quantized::spec_pad(d.k as nat) <= i32::MAX
}

/// Elements that the payload of packed weights holds.
pub open spec fn payload_elems(q: QStorage) -> nat {
    q.len as nat / q.dtype.spec_type_size() * q.dtype.spec_block_size()
}

/// Why operands are refused before anything is allocated, if they are.
pub open spec fn operand_error(q: QStorage, shape: Seq<usize>, input: Operand, ids: Operand) -> Option<MoeError> {
    let d = spec_dims(shape, input.dims@, ids.dims@);
    if q.device != input.device || q.device != ids.device {
        Some(MoeError::DeviceMismatch)
    } else if spec_kernel_name(q.dtype) is None {
        Some(MoeError::NoKernel(q.dtype))
    } else if dims_error(shape, input.dims@, ids.dims@) is Some {
        dims_error(shape, input.dims@, ids.dims@)
    } else if d.k as nat % q.dtype.spec_block_size() != 0 {
        Some(MoeError::BlockMultiple)
    } else if !indexable(d) {
        Some(MoeError::TooLarge)
    } else if payload_elems(q) < d.num_experts * d.n * d.k {
        Some(MoeError::ShortWeights)
    } else if input.dtype != DType::F32 {
        Some(MoeError::InputType(input.dtype))
    } else if !covers(input, (d.batch * d.input_dim1 * d.k) as nat) {
        Some(MoeError::InputNotContiguous)
    } else if ids.dtype != DType::U32 {
        Some(MoeError::IdsType(ids.dtype))
    } else if !covers(ids, (d.batch * d.topk) as nat) {
        Some(MoeError::IdsNotContiguous)
    } else {
        None
    }
}

fn product_fits(a: usize, b: usize, c: usize) -> (res: bool)
    requires
        a > 0,
        b > 0,
        c > 0,
    ensures
        res == (a * b * c <= i32::MAX),
{
    proof {
        let ab: int = a * b;
        assert(ab * c >= ab) by (nonlinear_arith)
            requires
                ab >= 0,
                c >= 1,
        ;
        assert(ab >= 0) by (nonlinear_arith)
            requires
                ab == a * b,
                a >= 0,
                b >= 0,
        ;
    }
    match a.checked_mul(b) {
        Some(ab) => match ab.checked_mul(c) {
            Some(abc) => abc <= i32::MAX as usize,
            None => false,
        },
        None => false,
    }
}

/// Consequences of indexability that the launches rely on.
proof fn lemma_indexable(d: Dims)
    requires
        indexable(d),
        d.num_experts > 0,
        d.n > 0,
        d.k > 0,
        d.batch > 0,
        d.topk > 0,
        d.input_dim1 == 1 || d.input_dim1 == d.topk,
    ensures
        d.num_experts <= i32::MAX,
        d.n <= i32::MAX,
        d.k <= i32::MAX,
        d.batch <= i32::MAX,
        d.topk <= i32::MAX,
        d.num_experts * d.n <= i32::MAX,
        d.batch * d.topk <= i32::MAX,
        d.batch * d.input_dim1 <= i32::MAX,
        d.batch * d.input_dim1 * d.k <= i32::MAX,
        quantized::spec_pad(d.k as nat) <= i32::MAX,
        d.input_dim1 <= i32::MAX,
{
    quantized::lemma_div_ceil(d.k as nat, 512);
    let e = d.num_experts as int;
    let n = d.n as int;
    let k = d.k as int;
    let b = d.batch as int;
    let t = d.topk as int;
    let i = d.input_dim1 as int;
    let p = quantized::spec_pad(d.k as nat) as int;
    assert(p >= k);
    lemma_factors(e, n, k);
    lemma_factors(b, t, n);
    lemma_factors(b, i, p);
    assert(b * i * k <= b * i * p) by (nonlinear_arith)
        requires
            b * i >= 0,
            k <= p,
    ;
}

/// Positive factors are at most their product.
proof fn lemma_factors(a: int, b: int, c: int)
    requires
        a >= 1,
        b >= 1,
        c >= 1,
    ensures
        1 <= a * b <= a * b * c,
        a <= a * b * c,
        b <= a * b * c,
        c <= a * b * c,
{
    assert(a * b >= a && a * b >= b && a * b >= 1) by (nonlinear_arith)
        requires
            a >= 1,
            b >= 1,
    ;
    let ab = a * b;
    assert(ab * c >= ab && ab * c >= c) by (nonlinear_arith)
        requires
            ab >= 1,
            c >= 1,
    ;
}

/// Why ids are not packed, if they are not.
pub open spec fn routing_error(ids: Operand, num_experts: usize) -> Option<MoeError> {
    let pairs = ids.dims@[0] * ids.dims@[1];
    if ids.dims@.len() != 2 {
        Some(MoeError::IdsRank)
    } else if pairs == 0 || pairs > i32::MAX {
        Some(MoeError::RouteDimensions)
    } else if num_experts == 0 || num_experts > MAX_GRID {
        Some(MoeError::ExpertCount)
    } else if ids.dtype != DType::U32 || !covers(ids, pairs as nat) {
        Some(MoeError::RoutingIds)
    } else if num_experts * pairs > i32::MAX {
        Some(MoeError::ScratchOverflow)
    } else {
        None
    }
}

pub open spec fn spec_routing_plan(ids: Operand, num_experts: usize) -> RoutingPlan {
    let pairs = (ids.dims@[0] * ids.dims@[1]) as usize;
    RoutingPlan {
        device: ids.device,
        num_experts,
        batch: ids.dims@[0],
        topk: ids.dims@[1],
        total_pairs: pairs,
        ids_offset: start_of(ids),
        scratch_len: (num_experts * pairs) as usize,
        grid: Grid { x: num_experts as u32, y: 1, z: 1 },
        block: Grid { x: 256, y: 1, z: 1 },
    }
}

impl PackedRouting {
    /// Checks ids and sizes the packing launch.
    pub fn plan(ids: &Operand, num_experts: usize) -> (res: Result<RoutingPlan, MoeError>)
        ensures
            match res {
                Ok(plan) => routing_error(*ids, num_experts) is None && plan == spec_routing_plan(*ids, num_experts),
                Err(e) => routing_error(*ids, num_experts) == Some(e),
            },
    {
        if ids.dims.len() != 2 {
            return Err(MoeError::IdsRank);
        }
        let (batch, topk) = (ids.dims[0], ids.dims[1]);
        let total_pairs: usize = match batch.checked_mul(topk) {
            Some(n) => if n > 0 && n <= i32::MAX as usize {
                n
            } else {
                return Err(MoeError::RouteDimensions);
            },
            None => {
                return Err(MoeError::RouteDimensions);
            },
        };
        if num_experts == 0 || num_experts > MAX_GRID {
            return Err(MoeError::ExpertCount);
        }
        if ids.dtype != DType::U32 {
            return Err(MoeError::RoutingIds);
        }
        let ids_offset: usize = match covering_offset(ids, total_pairs) {
            Some(at) => at,
            None => {
                return Err(MoeError::RoutingIds);
            },
        };
        let scratch_len: usize = match num_experts.checked_mul(total_pairs) {
            Some(n) => if n <= i32::MAX as usize {
                n
            } else {
                return Err(MoeError::ScratchOverflow);
            },
            None => {
                return Err(MoeError::ScratchOverflow);
            },
        };
        Ok(
            RoutingPlan {
                device: ids.device,
                num_experts,
                batch,
                topk,
                total_pairs,
                ids_offset,
                scratch_len,
                grid: Grid { x: num_experts as u32, y: 1, z: 1 },
                block: Grid { x: 256, y: 1, z: 1 },
            },
        )
    }

    /// Accepts the counts that the packing kernel left, or says what is wrong
    /// with them.
    pub fn finish(plan: &RoutingPlan, counts: &Vec<u32>) -> (res: Result<PackedRouting, MoeError>)
        requires
            0 < plan.num_experts <= MAX_GRID,
            counts@.len() == plan.num_experts + 1,
        ensures
            match res {
                Ok(r) => counts_error(*plan, counts@) is None && packs(r, *plan, counts@),
                Err(e) => counts_error(*plan, counts@) == Some(e),
            },
    {
        let experts: usize = plan.num_experts;
        if counts[experts] != 0 {
            return Err(MoeError::ExpertOutside);
        }
        let ghost own = counts@.take(experts as int);
        let mut accounted: u64 = 0;
        let mut max_count: u32 = 0;
        let mut kept: Vec<u32> = Vec::new();
        let mut i: usize = 0;
        while i < experts
            invariant
                i <= experts <= MAX_GRID,
                counts@.len() == experts + 1,
                own == counts@.take(experts as int),
                accounted == total(own.take(i as int)),
                accounted <= i * 0x1_0000_0000,
                max_count == busiest(own.take(i as int)),
                kept@ == own.take(i as int),
            decreases experts - i,
        {
            let c: u32 = counts[i];
            accounted = accounted + c as u64;
            if c > max_count {
                max_count = c;
            }
            kept.push(c);
            i = i + 1;
            proof {
                assert(own.take(i as int) =~= own.take(i - 1).push(c));
                assert(own.take(i as int).drop_last() =~= own.take(i - 1));
            }
        }
        proof {
            assert(own.take(experts as int) =~= own);
        }
        if accounted != plan.total_pairs as u64 {
            return Err(MoeError::CountsIncomplete);
        }
        if max_count == 0 {
            return Err(MoeError::NoPairs);
        }
        Ok(
            PackedRouting {
                device: plan.device,
                num_experts: experts,
                batch: plan.batch,
                topk: plan.topk,
                max_count: max_count as usize,
                counts: kept,
            },
        )
    }
}

/// Sum of all counts.
pub open spec fn total(counts: Seq<u32>) -> nat
    decreases counts.len(),
{
    if counts.len() == 0 {
        0
    } else {
        total(counts.drop_last()) + counts.last() as nat
    }
}

/// Largest count.
pub open spec fn busiest(counts: Seq<u32>) -> nat
    decreases counts.len(),
{
    if counts.len() == 0 {
        0
    } else if counts.last() > busiest(counts.drop_last()) {
        counts.last() as nat
    } else {
        busiest(counts.drop_last())
    }
}

/// Why the counts of a packing are refused, if they are.
pub open spec fn counts_error(plan: RoutingPlan, counts: Seq<u32>) -> Option<MoeError> {
    let own = counts.take(plan.num_experts as int);
    if counts[plan.num_experts as int] != 0 {
        Some(MoeError::ExpertOutside)
    } else if total(own) != plan.total_pairs {
        Some(MoeError::CountsIncomplete)
    } else if busiest(own) == 0 {
        Some(MoeError::NoPairs)
    } else {
        None
    }
}

/// `r` is the routing of a packing that left `counts`.
pub open spec fn packs(r: PackedRouting, plan: RoutingPlan, counts: Seq<u32>) -> bool {
    &&& r.device == plan.device
    &&& r.num_experts == plan.num_experts
    &&& r.batch == plan.batch
    &&& r.topk == plan.topk
    &&& r.counts@ == counts.take(plan.num_experts as int)
    &&& r.max_count == busiest(r.counts@)
}

proof fn lemma_counts(counts: Seq<u32>)
    ensures
        busiest(counts) <= total(counts),
        total(counts) > 0 ==> busiest(counts) > 0,
        forall|i: int| 0 <= i < counts.len() ==> (#[trigger] counts[i]) <= busiest(counts),
    decreases counts.len(),
{
    if counts.len() > 0 {
        lemma_counts(counts.drop_last());
        assert forall|i: int| 0 <= i < counts.len() implies (#[trigger] counts[i]) <= busiest(counts) by {
            if i < counts.len() - 1 {
                assert(counts.drop_last()[i] == counts[i]);
            }
        }
    }
}

/// Law: an accepted routing accounts for every pair, its busiest expert has at
/// least one and no expert has more; packing that accounts for every pair is
/// never refused for having routed none.
pub proof fn law_accepted_routing_accounts_for_every_pair(plan: RoutingPlan, counts: Seq<u32>)
    requires
        plan.total_pairs > 0,
        counts.len() == plan.num_experts + 1,
    ensures
        counts_error(plan, counts) != Some(MoeError::NoPairs),
        counts_error(plan, counts) is None ==> ({
            let own = counts.take(plan.num_experts as int);
            &&& total(own) == plan.total_pairs
            &&& 0 < busiest(own) <= plan.total_pairs
            &&& forall|i: int| 0 <= i < own.len() ==> (#[trigger] own[i]) <= busiest(own)
        }),
{
    lemma_counts(counts.take(plan.num_experts as int));
}

/// Why a reusable routing is refused, if it is.
pub open spec fn grouped_routing_error(ids: Operand, num_experts: usize, counts: Seq<u32>) -> Option<MoeError> {
    if !ids.device.spec_is_rocm() {
        Some(MoeError::NotOnDevice)
    } else if routing_error(ids, num_experts) is Some {
        routing_error(ids, num_experts)
    } else {
        counts_error(spec_routing_plan(ids, num_experts), counts)
    }
}

impl GroupedMoeRouting {
    /// The routing of `ids`, given the counts that packing them left. It does
    /// not follow later changes of the ids.
    pub fn new(ids: &Operand, num_experts: usize, counts: &Vec<u32>) -> (res: Result<Self, MoeError>)
        requires
            ids.device.spec_is_rocm() && routing_error(*ids, num_experts) is None ==> counts@.len() == num_experts + 1,
        ensures
            match res {
                Ok(r) => grouped_routing_error(*ids, num_experts, counts@) is None && packs(
                    r.packed,
                    spec_routing_plan(*ids, num_experts),
                    counts@,
                ),
                Err(e) => grouped_routing_error(*ids, num_experts, counts@) == Some(e),
            },
    {
        if !ids.device.is_rocm() {
            return Err(MoeError::NotOnDevice);
        }
        let plan = match PackedRouting::plan(ids, num_experts) {
            Ok(plan) => plan,
            Err(e) => {
                return Err(e);
            },
        };
        match PackedRouting::finish(&plan, counts) {
            Ok(packed) => Ok(GroupedMoeRouting { packed }),
            Err(e) => Err(e),
        }
    }
}

/// Why the grouped kernel is not launched, if it is not.
pub open spec fn grouped_error(
    q: QStorage,
    d: Dims,
    routing: PackedRouting,
    tiles: Option<MmqPlan>,
    mmq: MmqShapes,
) -> Option<MoeError> {
    if q.dtype != GgmlDType::Q5K && q.dtype != GgmlDType::Q6K {
        Some(MoeError::GroupedType)
    } else if !mmq.spec_supports(q.dtype, d.k) || d.num_experts > MAX_GRID {
        Some(MoeError::GroupedDimensions)
    } else if tiles is None {
        Some(MoeError::MissingTiles)
    } else if routing.num_experts != d.num_experts || routing.batch != d.batch || routing.topk != d.topk
        || routing.device != q.device {
        Some(MoeError::RoutingMismatch)
    } else if quantized::spec_div_ceil(routing.max_count as nat, tiles->0.mmq_x as nat) > MAX_GRID {
        Some(MoeError::ColumnGrid)
    } else {
        None
    }
}

pub open spec fn spec_grouped_launch(q: QStorage, d: Dims, max_count: usize, tiles: MmqPlan) -> GroupedLaunch {
    GroupedLaunch {
        dtype: q.dtype,
        grid: Grid {
            x: quantized::spec_div_ceil(d.n as nat, tiles.mmq_y as nat) as u32,
            y: quantized::spec_div_ceil(max_count as nat, tiles.mmq_x as nat) as u32,
            z: d.num_experts as u32,
        },
        block: Grid { x: WARP_SIZE, y: tiles.nwarps, z: 1 },
        n: d.n as i32,
        k: d.k as i32,
        k_padded: quantized::spec_pad(d.k as nat) as i32,
        total_pairs: (d.batch * d.topk) as i32,
        topk: d.topk as i32,
        input_dim1: d.input_dim1 as i32,
    }
}

/// Validated dimensions: nothing empty, one slot per token or per pair, and
/// every kernel index in range.
pub open spec fn launchable(d: Dims) -> bool {
    &&& d.num_experts > 0
    &&& d.n > 0
    &&& d.k > 0
    &&& d.batch > 0
    &&& d.topk > 0
    &&& d.input_dim1 == 1 || d.input_dim1 == d.topk
    &&& indexable(d)
}

pub open spec fn usable_tiles(tiles: Option<MmqPlan>) -> bool {
    tiles matches Some(t) ==> t.mmq_x > 0 && t.mmq_y > 0
}

/// The grouped launch over a packed routing.
pub fn grouped_forward(
    q: &QStorage,
    d: &Dims,
    routing: &PackedRouting,
    tiles: Option<MmqPlan>,
    mmq: &MmqShapes,
) -> (res: Result<GroupedLaunch, MoeError>)
    requires
        launchable(*d),
        usable_tiles(tiles),
    ensures
        match res {
            Ok(launch) => grouped_error(*q, *d, *routing, tiles, *mmq) is None && launch == spec_grouped_launch(
                *q,
                *d,
                routing.max_count,
                tiles->0,
            ),
            Err(e) => grouped_error(*q, *d, *routing, tiles, *mmq) == Some(e),
        },
{
    proof {
        lemma_indexable(*d);
    }
    if q.dtype != GgmlDType::Q5K && q.dtype != GgmlDType::Q6K {
        return Err(MoeError::GroupedType);
    }
    if !mmq.supports(q.dtype, d.k) || d.num_experts > MAX_GRID {
        return Err(MoeError::GroupedDimensions);
    }
    let plan = match tiles {
        Some(plan) => plan,
        None => {
            return Err(MoeError::MissingTiles);
        },
    };
    if routing.num_experts != d.num_experts || routing.batch != d.batch || routing.topk != d.topk
        || !routing.device.same_device(&q.device) {
        return Err(MoeError::RoutingMismatch);
    }
    let columns: usize = div_ceil(routing.max_count, plan.mmq_x);
    if columns > MAX_GRID {
        return Err(MoeError::ColumnGrid);
    }
    let rows: usize = div_ceil(d.n, plan.mmq_y);
    let pairs: usize = d.batch * d.topk;
    let k_padded: usize = pad(d.k);
    Ok(
        GroupedLaunch {
            dtype: q.dtype,
            grid: Grid { x: rows as u32, y: columns as u32, z: d.num_experts as u32 },
            block: Grid { x: WARP_SIZE, y: plan.nwarps, z: 1 },
            n: d.n as i32,
            k: d.k as i32,
            k_padded: k_padded as i32,
            total_pairs: pairs as i32,
            topk: d.topk as i32,
            input_dim1: d.input_dim1 as i32,
        },
    )
}

pub open spec fn spec_vector_launch(q: QStorage, d: Dims, task_major: bool) -> Launch {
    Launch {
        dtype: q.dtype,
        task_major,
        grid: if task_major {
            Grid { x: (d.batch * d.topk) as u32, y: d.n as u32, z: 1 }
        } else {
            Grid { x: d.n as u32, y: d.batch as u32, z: d.topk as u32 }
        },
        block: Grid { x: WARP_SIZE, y: NWARPS, z: 1 },
        n: d.n as i32,
        k: d.k as i32,
        batch: d.batch as i32,
        topk: d.topk as i32,
        k_padded: quantized::spec_pad(d.k as nat) as i32,
        input_dim1: d.input_dim1 as i32,
    }
}

fn vector_launch(q: &QStorage, d: &Dims, task_major: bool) -> (res: Launch)
    requires
        launchable(*d),
    ensures
        res == spec_vector_launch(*q, *d, task_major),
{
    proof {
        lemma_indexable(*d);
    }
    let pairs: usize = d.batch * d.topk;
    let k_padded: usize = pad(d.k);
    let grid = if task_major {
        Grid { x: pairs as u32, y: d.n as u32, z: 1 }
    } else {
        Grid { x: d.n as u32, y: d.batch as u32, z: d.topk as u32 }
    };
    Launch {
        dtype: q.dtype,
        task_major,
        grid,
        block: Grid { x: WARP_SIZE, y: NWARPS, z: 1 },
        n: d.n as i32,
        k: d.k as i32,
        batch: d.batch as i32,
        topk: d.topk as i32,
        k_padded: k_padded as i32,
        input_dim1: d.input_dim1 as i32,
    }
}

pub open spec fn grouped_choice(q: QStorage, d: Dims, choice: Option<bool>, mmq: MmqShapes) -> bool {
    match choice {
        Some(g) => g,
        None => spec_use_grouped(q.dtype, d, mmq),
    }
}

pub open spec fn task_major_choice(d: Dims, choice: Option<bool>, row_major: bool) -> bool {
    match choice {
        Some(t) => t,
        None => d.batch >= TASK_MAJOR_MIN_BATCH && !row_major,
    }
}

/// Why an indexed matmul is refused before its first launch, if it is.
pub open spec fn forward_error(
    q: QStorage,
    shape: Seq<usize>,
    input: Operand,
    ids: Operand,
    grouped: Option<bool>,
    prepared: Option<PackedRouting>,
    tiles: Option<MmqPlan>,
    mmq: MmqShapes,
) -> Option<MoeError> {
    let d = spec_dims(shape, input.dims@, ids.dims@);
    if operand_error(q, shape, input, ids) is Some {
        operand_error(q, shape, input, ids)
    } else if !grouped_choice(q, d, grouped, mmq) {
        None
    } else {
        match prepared {
            Some(r) => grouped_error(q, d, r, tiles, mmq),
            None => routing_error(ids, d.num_experts),
        }
    }
}

pub open spec fn spec_forward_plan(
    q: QStorage,
    shape: Seq<usize>,
    input: Operand,
    ids: Operand,
    grouped: Option<bool>,
    prepared: Option<PackedRouting>,
    tiles: Option<MmqPlan>,
    mmq: MmqShapes,
    task_major: Option<bool>,
    row_major: bool,
) -> ForwardPlan {
    let d = spec_dims(shape, input.dims@, ids.dims@);
    ForwardPlan {
        dims: d,
        total_rows: (d.batch * d.input_dim1) as usize,
        input_offset: start_of(input),
        ids_offset: start_of(ids),
        input_bytes: quantized::spec_buffer_bytes(d.k as nat, (d.batch * d.input_dim1) as nat) as usize,
        out_len: (d.batch * d.topk * d.n) as usize,
        path: if grouped_choice(q, d, grouped, mmq) {
            match prepared {
                Some(r) => Path::Grouped(spec_grouped_launch(q, d, r.max_count, tiles->0)),
                None => Path::Route(spec_routing_plan(ids, d.num_experts)),
            }
        } else {
            Path::Vector(spec_vector_launch(q, d, task_major_choice(d, task_major, row_major)))
        },
    }
}

/// Plans an indexed matmul: validates the operands, sizes the buffers and
/// chooses kernel and grid. `grouped` and `task_major` override the choices;
/// `row_major` is the switch that turns the task-major geometry off.
pub fn forward_impl(
    q: &QStorage,
    shape: &Vec<usize>,
    input: &Operand,
    ids: &Operand,
    grouped: Option<bool>,
    prepared: Option<&PackedRouting>,
    tiles: Option<MmqPlan>,
    mmq: &MmqShapes,
    task_major: Option<bool>,
    row_major: bool,
) -> (res: Result<ForwardPlan, MoeError>)
    requires
        usable_tiles(tiles),
    ensures
        ({
            let given = match prepared {
                Some(r) => Some(*r),
                None => None,
            };
            match res {
                Ok(plan) => forward_error(*q, shape@, *input, *ids, grouped, given, tiles, *mmq) is None && plan
                    == spec_forward_plan(
                    *q,
                    shape@,
                    *input,
                    *ids,
                    grouped,
                    given,
                    tiles,
                    *mmq,
                    task_major,
                    row_major,
                ) && launchable(plan.dims),
                Err(e) => forward_error(*q, shape@, *input, *ids, grouped, given, tiles, *mmq) == Some(e),
            }
        }),
{
    if !q.device.same_device(&input.device) || !q.device.same_device(&ids.device) {
        return Err(MoeError::DeviceMismatch);
    }
    if kernel_name(q.dtype).is_none() {
        return Err(MoeError::NoKernel(q.dtype));
    }
    let d = match dims(shape, &input.dims, &ids.dims) {
        Ok(d) => d,
        Err(e) => {
            return Err(e);
        },
    };
    if d.k % q.dtype.block_size() != 0 {
        return Err(MoeError::BlockMultiple);
    }
    // Local indices of the kernels are signed 32-bit numbers.
    if !product_fits(d.num_experts, d.n, d.k) || !product_fits(d.batch, d.topk, d.n) {
        return Err(MoeError::TooLarge);
    }
    proof {
        lemma_factors(d.num_experts as int, d.n as int, d.k as int);
    }
    if !product_fits(d.batch, d.input_dim1, pad(d.k)) {
        return Err(MoeError::TooLarge);
    }
    proof {
        lemma_indexable(d);
    }
    // Experts are strided without a bound, so a short payload would be overrun.
    let blocks: u128 = (q.len / q.dtype.type_size()) as u128;
    let block_size: u128 = q.dtype.block_size() as u128;
    proof {
        assert(blocks * block_size <= 0xffff_ffff_ffff_ffff * 256) by (nonlinear_arith)
            requires
                blocks <= 0xffff_ffff_ffff_ffff,
                block_size <= 256,
        ;
    }
    let elems: u128 = blocks * block_size;
    if elems < (d.num_experts * d.n * d.k) as u128 {
        return Err(MoeError::ShortWeights);
    }
    if input.dtype != DType::F32 {
        return Err(MoeError::InputType(input.dtype));
    }
    let input_offset: usize = match covering_offset(input, d.batch * d.input_dim1 * d.k) {
        Some(at) => at,
        None => {
            return Err(MoeError::InputNotContiguous);
        },
    };
    if ids.dtype != DType::U32 {
        return Err(MoeError::IdsType(ids.dtype));
    }
    let ids_offset: usize = match covering_offset(ids, d.batch * d.topk) {
        Some(at) => at,
        None => {
            return Err(MoeError::IdsNotContiguous);
        },
    };
    let total_rows: usize = d.batch * d.input_dim1;
    let input_bytes: usize = buffer_bytes(d.k, total_rows);
    let out_len: usize = d.batch * d.topk * d.n;
    let is_grouped = match grouped {
        Some(g) => g,
        None => use_grouped(q.dtype, &d, mmq),
    };
    let path = if is_grouped {
        match prepared {
            Some(r) => match grouped_forward(q, &d, r, tiles, mmq) {
                Ok(launch) => Path::Grouped(launch),
                Err(e) => {
                    return Err(e);
                },
            },
            None => match PackedRouting::plan(ids, d.num_experts) {
                Ok(plan) => Path::Route(plan),
                Err(e) => {
                    return Err(e);
                },
            },
        }
    } else {
        let by_task = match task_major {
            Some(t) => t,
            None => use_task_major(&d, row_major),
        };
        Path::Vector(vector_launch(q, &d, by_task))
    };
    Ok(ForwardPlan { dims: d, total_rows, input_offset, ids_offset, input_bytes, out_len, path })
}

/// Plans an indexed matmul over ids that are not packed yet.
pub fn forward(
    q: &QStorage,
    shape: &Vec<usize>,
    input: &Operand,
    ids: &Operand,
    mmq: &MmqShapes,
    row_major: bool,
) -> (res: Result<ForwardPlan, MoeError>)
    ensures
        match res {
            Ok(plan) => forward_error(*q, shape@, *input, *ids, None, None, None, *mmq) is None && plan == spec_forward_plan(
                *q,
                shape@,
                *input,
                *ids,
                None,
                None,
                None,
                *mmq,
                None,
                row_major,
            ) && launchable(plan.dims),
            Err(e) => forward_error(*q, shape@, *input, *ids, None, None, None, *mmq) == Some(e),
        },
{
    forward_impl(q, shape, input, ids, None, None, None, mmq, None, row_major)
}

/// Plans an indexed matmul over a prepared routing; it always takes the
/// grouped kernel.
pub fn forward_prepared(
    q: &QStorage,
    shape: &Vec<usize>,
    input: &Operand,
    ids: &Operand,
    routing: &GroupedMoeRouting,
    tiles: Option<MmqPlan>,
    mmq: &MmqShapes,
) -> (res: Result<ForwardPlan, MoeError>)
    requires
        usable_tiles(tiles),
    ensures
        match res {
            Ok(plan) => forward_error(*q, shape@, *input, *ids, Some(true), Some(routing.packed), tiles, *mmq) is None && plan
                == spec_forward_plan(
                *q,
                shape@,
                *input,
                *ids,
                Some(true),
                Some(routing.packed),
                tiles,
                *mmq,
                None,
                false,
            ) && launchable(plan.dims),
            Err(e) => forward_error(*q, shape@, *input, *ids, Some(true), Some(routing.packed), tiles, *mmq) == Some(e),
        },
{
    forward_impl(q, shape, input, ids, Some(true), Some(&routing.packed), tiles, mmq, None, false)
}

/// Law: packing on the way and packing beforehand come to the same launch. A
/// product that is planned over plain ids, packed as its plan says and launched
/// over what the packing left has the buffers, the launch and the refusals of
/// one planned over the prepared routing of these ids.
pub proof fn law_unpacked_ids_launch_as_prepared(
    q: QStorage,
    shape: Seq<usize>,
    input: Operand,
    ids: Operand,
    mmq: MmqShapes,
    tiles: Option<MmqPlan>,
    row_major: bool,
    counts: Seq<u32>,
    packed: PackedRouting,
    prepared: GroupedMoeRouting,
)
    requires
        ids.device.spec_is_rocm(),
        forward_error(q, shape, input, ids, None, None, None, mmq) is None,
        ({
            let plan = spec_forward_plan(q, shape, input, ids, None, None, None, mmq, None, row_major);
            &&& plan.path is Route
            &&& counts_error(plan.path->Route_0, counts) is None
            &&& packs(packed, plan.path->Route_0, counts)
            &&& packs(prepared.packed, spec_routing_plan(ids, plan.dims.num_experts), counts)
        }),
    ensures
        ({
            let plan = spec_forward_plan(q, shape, input, ids, None, None, None, mmq, None, row_major);
            let refused = grouped_error(q, plan.dims, packed, tiles, mmq);
            &&& grouped_routing_error(ids, plan.dims.num_experts, counts) is None
            &&& forward_error(q, shape, input, ids, Some(true), Some(prepared.packed), tiles, mmq) == refused
            &&& refused is None || refused == Some(MoeError::MissingTiles) || refused == Some(MoeError::ColumnGrid)
            &&& refused is None ==> spec_forward_plan(
                q,
                shape,
                input,
                ids,
                Some(true),
                Some(prepared.packed),
                tiles,
                mmq,
                None,
                false,
            ) == (ForwardPlan {
                path: Path::Grouped(spec_grouped_launch(q, plan.dims, packed.max_count, tiles->0)),
                ..plan
            })
        }),
{
    let plan = spec_forward_plan(q, shape, input, ids, None, None, None, mmq, None, row_major);
    assert(plan.path->Route_0 == spec_routing_plan(ids, plan.dims.num_experts));
    assert(packed.counts@ == prepared.packed.counts@);
}

impl Launch {
    /// Name of the kernel that a launch runs.
    pub fn name(&self) -> (res: &'static str)
        requires
            spec_kernel_name(self.dtype) is Some,
        ensures
            Some(res@) == (if self.task_major {
                spec_task_major_kernel_name(self.dtype)
            } else {
                spec_kernel_name(self.dtype)
            }),
    {
        let name = if self.task_major {
            task_major_kernel_name(self.dtype)
        } else {
            kernel_name(self.dtype)
        };
        match name {
            Some(name) => name,
            None => "",
        }
    }
}

impl GroupedLaunch {
    /// Name of the kernel that a launch runs.
    pub fn name(&self) -> (res: &'static str)
        requires
            self.dtype == GgmlDType::Q5K || self.dtype == GgmlDType::Q6K,
        ensures
            res@ == (if self.dtype == GgmlDType::Q5K {
                "grouped_mul_mat_q5_K"@
            } else {
                "grouped_mul_mat_q6_K"@
            }),
    {
        if self.dtype == GgmlDType::Q5K {
            "grouped_mul_mat_q5_K"
        } else {
            "grouped_mul_mat_q6_K"
        }
    }
}

/// What one block of the vector kernel computes: weight row `row` of the
/// expert that `ids[task]` names, times activation row `input_row`, into
/// element `out` of the output.
#[derive(Clone, Copy, PartialEq, Eq, Structural, Debug)]
pub struct Assignment {
    pub row: usize,
    pub task: usize,
    pub input_row: usize,
    pub out: usize,
}

pub open spec fn vector_grid(d: Dims, task_major: bool) -> Grid {
    if task_major {
        Grid { x: (d.batch * d.topk) as u32, y: d.n as u32, z: 1 }
    } else {
        Grid { x: d.n as u32, y: d.batch as u32, z: d.topk as u32 }
    }
}

pub open spec fn in_grid(at: Grid, grid: Grid) -> bool {
    at.x < grid.x && at.y < grid.y && at.z < grid.z
}

/// The routed pair that block `at` works on.
pub open spec fn task_of(d: Dims, task_major: bool, at: Grid) -> int {
    if task_major {
        at.x as int
    } else {
        at.y * d.topk + at.z
    }
}

pub open spec fn row_of(task_major: bool, at: Grid) -> int {
    if task_major {
        at.y as int
    } else {
        at.x as int
    }
}

/// The activation row of a routed pair: its token's only row, or its own.
pub open spec fn input_row_of(d: Dims, task: int) -> int {
    if d.input_dim1 == 1 {
        task / d.topk as int
    } else {
        task
    }
}

pub open spec fn assigned(d: Dims, task_major: bool, at: Grid) -> (int, int, int, int) {
    let task = task_of(d, task_major, at);
    let row = row_of(task_major, at);
    (row, task, input_row_of(d, task), task * d.n + row)
}

/// The block that computes output element `out`.
pub open spec fn block_of(d: Dims, task_major: bool, out: int) -> Grid {
    let task = out / d.n as int;
    let row = out % d.n as int;
    if task_major {
        Grid { x: task as u32, y: row as u32, z: 0 }
    } else {
        Grid { x: row as u32, y: (task / d.topk as int) as u32, z: (task % d.topk as int) as u32 }
    }
}

proof fn lemma_assigned(d: Dims, task_major: bool, at: Grid)
    requires
        launchable(d),
        in_grid(at, vector_grid(d, task_major)),
    ensures
        0 <= row_of(task_major, at) < d.n,
        0 <= task_of(d, task_major, at) < d.batch * d.topk,
        0 <= task_of(d, task_major, at) * d.n + row_of(task_major, at) < d.batch * d.topk * d.n,
        task_of(d, task_major, at) * d.n <= i32::MAX,
        0 <= input_row_of(d, task_of(d, task_major, at)) < d.batch * d.input_dim1,
        block_of(d, task_major, task_of(d, task_major, at) * d.n + row_of(task_major, at)) == at,
{
    lemma_indexable(d);
    let b = d.batch as int;
    let t = d.topk as int;
    let n = d.n as int;
    let task = task_of(d, task_major, at);
    let row = row_of(task_major, at);
    if !task_major {
        let y = at.y as int;
        let z = at.z as int;
        assert(y * t + z < b * t) by (nonlinear_arith)
            requires
                0 <= y <= b - 1,
                0 <= z < t,
        ;
        assert(0 <= y * t) by (nonlinear_arith)
            requires
                0 <= y,
                0 <= t,
        ;
        vstd::arithmetic::div_mod::lemma_fundamental_div_mod_converse(y * t + z, t, y, z);
    }
    let pairs = b * t;
    assert(task * n + row < pairs * n) by (nonlinear_arith)
        requires
            0 <= task <= pairs - 1,
            0 <= row < n,
    ;
    assert(0 <= task * n) by (nonlinear_arith)
        requires
            0 <= task,
            0 <= n,
    ;
    vstd::arithmetic::div_mod::lemma_fundamental_div_mod_converse(task * n + row, n, task, row);
    if d.input_dim1 == 1 {
        vstd::arithmetic::div_mod::lemma_fundamental_div_mod(task, t);
        let q = task / t;
        assert(q < b) by (nonlinear_arith)
            requires
                t * q <= task,
                task < b * t,
                t > 0,
        ;
        assert(q >= 0) by {
            vstd::arithmetic::div_mod::lemma_div_pos_is_pos(task, t);
        }
        let i = d.input_dim1 as int;
        assert(b * i == b) by (nonlinear_arith)
            requires
                i == 1,
        ;
    }
}

proof fn lemma_block_of(d: Dims, task_major: bool, out: int)
    requires
        launchable(d),
        0 <= out < d.batch * d.topk * d.n,
    ensures
        in_grid(block_of(d, task_major, out), vector_grid(d, task_major)),
        task_of(d, task_major, block_of(d, task_major, out)) == out / d.n as int,
        row_of(task_major, block_of(d, task_major, out)) == out % d.n as int,
        (out / d.n as int) * d.n + out % d.n as int == out,
{
    lemma_indexable(d);
    let b = d.batch as int;
    let t = d.topk as int;
    let n = d.n as int;
    let pairs = b * t;
    vstd::arithmetic::div_mod::lemma_fundamental_div_mod(out, n);
    vstd::arithmetic::div_mod::lemma_div_pos_is_pos(out, n);
    let task = out / n;
    assert(n * task == task * n) by (nonlinear_arith);
    assert(task < pairs) by (nonlinear_arith)
        requires
            n * task <= out,
            out < pairs * n,
            n > 0,
    ;
    vstd::arithmetic::div_mod::lemma_fundamental_div_mod(task, t);
    vstd::arithmetic::div_mod::lemma_div_pos_is_pos(task, t);
    let y = task / t;
    assert(t * y == y * t) by (nonlinear_arith);
    assert(y < b) by (nonlinear_arith)
        requires
            t * y <= task,
            task < b * t,
            t > 0,
    ;
}

/// What block `at` of a vector launch computes.
pub fn assignment(d: &Dims, task_major: bool, at: &Grid) -> (res: Assignment)
    requires
        launchable(*d),
        in_grid(*at, vector_grid(*d, task_major)),
    ensures
        (res.row as int, res.task as int, res.input_row as int, res.out as int) == assigned(*d, task_major, *at),
        res.row < d.n,
        res.task < d.batch * d.topk,
        res.input_row < d.batch * d.input_dim1,
        res.out < d.batch * d.topk * d.n,
{
    proof {
        lemma_indexable(*d);
        lemma_assigned(*d, task_major, *at);
        if !task_major {
            let y = at.y as int;
            let t = d.topk as int;
            assert(0 <= y * t) by (nonlinear_arith)
                requires
                    0 <= y,
                    0 <= t,
            ;
        }
    }
    let row: usize = if task_major {
        at.y as usize
    } else {
        at.x as usize
    };
    let task: usize = if task_major {
        at.x as usize
    } else {
        at.y as usize * d.topk + at.z as usize
    };
    let input_row: usize = if d.input_dim1 == 1 {
        task / d.topk
    } else {
        task
    };
    Assignment { row, task, input_row, out: task * d.n + row }
}

/// Law: both geometries compute every output element exactly once.
pub proof fn law_every_output_has_one_block(d: Dims, task_major: bool, out: int, at: Grid)
    requires
        launchable(d),
        0 <= out < d.batch * d.topk * d.n,
        in_grid(at, vector_grid(d, task_major)),
    ensures
        in_grid(block_of(d, task_major, out), vector_grid(d, task_major)),
        assigned(d, task_major, block_of(d, task_major, out)).3 == out,
        assigned(d, task_major, at).3 == out <==> at == block_of(d, task_major, out),
        0 <= assigned(d, task_major, at).3 < d.batch * d.topk * d.n,
{
    lemma_block_of(d, task_major, out);
    lemma_assigned(d, task_major, at);
}

/// Law: the geometries differ in nothing but the order of blocks. For every
/// output element both read the same weight row, the same pair's expert and
/// the same activation row.
pub proof fn law_geometries_compute_the_same(d: Dims, out: int)
    requires
        launchable(d),
        0 <= out < d.batch * d.topk * d.n,
    ensures
        assigned(d, true, block_of(d, true, out)) == assigned(d, false, block_of(d, false, out)),
{
    lemma_block_of(d, true, out);
    lemma_block_of(d, false, out);
}

/// Law: the tiles of a grouped launch reach every weight row and every pair of
/// every expert.
pub proof fn law_grouped_tiles_cover_every_pair(
    q: QStorage,
    d: Dims,
    routing: PackedRouting,
    tiles: MmqPlan,
    mmq: MmqShapes,
    row: int,
    expert: int,
    column: int,
)
    requires
        launchable(d),
        tiles.mmq_x > 0,
        tiles.mmq_y > 0,
        grouped_error(q, d, routing, Some(tiles), mmq) is None,
        routing.counts@.len() == routing.num_experts,
        routing.max_count == busiest(routing.counts@),
        0 <= row < d.n,
        0 <= expert < d.num_experts,
        0 <= column < routing.counts@[expert],
    ensures
        ({
            let grid = spec_grouped_launch(q, d, routing.max_count, tiles).grid;
            &&& grid.x > row / tiles.mmq_y as int >= 0
            &&& grid.y > column / tiles.mmq_x as int >= 0
            &&& expert < grid.z
        }),
{
    lemma_indexable(d);
    lemma_counts(routing.counts@);
    lemma_tile(row, d.n as int, tiles.mmq_y as int);
    lemma_tile(column, routing.max_count as int, tiles.mmq_x as int);
    quantized::lemma_div_ceil(d.n as nat, tiles.mmq_y as nat);
}

proof fn lemma_tile(i: int, n: int, t: int)
    requires
        0 <= i < n,
        t > 0,
    ensures
        0 <= i / t < quantized::spec_div_ceil(n as nat, t as nat),
{
    quantized::lemma_div_ceil(n as nat, t as nat);
    vstd::arithmetic::div_mod::lemma_fundamental_div_mod(i, t);
    vstd::arithmetic::div_mod::lemma_div_pos_is_pos(i, t);
    let q = i / t;
    let c = quantized::spec_div_ceil(n as nat, t as nat) as int;
    assert(q < c) by (nonlinear_arith)
        requires
            t * q <= i,
            i < n,
            n <= c * t,
            t > 0,
    ;
}

} // verus!
