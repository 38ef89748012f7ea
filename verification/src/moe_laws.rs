//! Laws of the indexed expert matmul: what it takes and refuses, what its
//! launches cover, and what its kernels are called.

use vstd::prelude::*;
use crate::gguf;
use crate::moe;
use crate::moe::{
    Dims, Grid, GroupedLaunch, Launch, MmqPlan, MmqShapes, MoeError, PackedRouting, Path, QStorage, RoutingPlan,
};
use crate::quantized;
use crate::quantized::GgmlDType;
use crate::tensor::{DType, Operand};

verus! {

/// Law: a kernel's name spells its weight format: `q`, the bits of a value, and
/// `k` for blocks of 256 values, or `_0` and `_1` for blocks of 32 with a scale
/// alone and with a minimum. Formats without a block of their own, and those
/// that only activations are held in, have no kernel.
#[verifier::rlimit(40)]
pub proof fn law_kernel_names_spell_the_format(dtype: GgmlDType)
    ensures
        moe::spec_kernel_name(dtype) is None <==> quantized::value_bits(dtype) > 8 || dtype is Q8_1 || dtype is Q8K,
        moe::spec_kernel_name(dtype) matches Some(name) ==> {
            let at = "indexed_moe_forward_"@.len() as int;
            &&& name[at] == 'q'
            &&& name[at + 1] == gguf::digit_char(quantized::value_bits(dtype) as int)
            &&& name[at + 2] == 'k' <==> dtype.spec_block_size() == 256
            &&& name[at + 2] == '_' <==> dtype.spec_block_size() == 32
            &&& dtype.spec_block_size() == 32 ==> name[at + 3] == (if quantized::scale_bits(dtype) == 16 { '0' } else { '1' })
        },
{
    moe::law_every_kernel_has_both_geometries(dtype);
    if let Some(suffix) = moe::kernel_suffix(dtype) {
        let prefix = "indexed_moe_forward_"@;
        reveal_strlit("q2k_q8_1");
        reveal_strlit("q3k_q8_1");
        reveal_strlit("q4k_q8_1");
        reveal_strlit("q5k_q8_1");
        reveal_strlit("q6k_q8_1");
        reveal_strlit("q8_0_q8_1");
        reveal_strlit("q4_0_q8_1");
        reveal_strlit("q4_1_q8_1");
        reveal_strlit("q5_0_q8_1");
        reveal_strlit("q5_1_q8_1");
        let name = prefix + suffix;
        let at = prefix.len() as int;
        assert(name[at] == suffix[0]);
        assert(name[at + 1] == suffix[1]);
        assert(name[at + 2] == suffix[2]);
        assert(name[at + 3] == suffix[3]);
    }
}

/// Law: the switch keeps the row-major geometry for every text but the empty
/// one and a single zero, and is off without a text.
pub proof fn law_switch_is_on_for_any_other_text(value: Option<Seq<char>>)
    ensures
        moe::spec_row_major_forced(value) <==> value is Some && value->0.len() >= 1 && !(value->0.len() == 1 && value->0[0] == '0'),
{
    reveal_strlit("0");
    if let Some(v) = value {
        if v.len() == 1 && v[0] == '0' {
            assert(v =~= "0"@);
        }
    }
}

/// Law: unless it is asked for or switched off, the task-major geometry is taken
/// from 16 tokens on.
pub proof fn law_task_major_from_sixteen_tokens(d: Dims, choice: Option<bool>, row_major: bool)
    ensures
        moe::task_major_choice(d, None, row_major) <==> !row_major && 16 <= d.batch,
        choice matches Some(asked) ==> moe::task_major_choice(d, choice, row_major) == asked,
{
}

/// Law: shapes are taken exactly when the weights are `(experts, n, k)`, the
/// input `(batch, slots, k)` and the ids `(batch, topk)`, nothing is empty, and
/// a token has one input row or one per expert.
pub proof fn law_shapes_fit_together(weights: Seq<usize>, input: Seq<usize>, ids: Seq<usize>, d: Dims)
    ensures
        moe::dims_error(weights, input, ids) is None && moe::spec_dims(weights, input, ids) == d <==> {
            &&& weights == seq![d.num_experts, d.n, d.k]
            &&& input == seq![d.batch, d.input_dim1, d.k]
            &&& ids == seq![d.batch, d.topk]
            &&& d.num_experts > 0 && d.n > 0 && d.k > 0 && d.batch > 0 && d.topk > 0
            &&& d.input_dim1 == 1 || d.input_dim1 == d.topk
        },
{
    if moe::dims_error(weights, input, ids) is None && moe::spec_dims(weights, input, ids) == d {
        assert(weights =~= seq![d.num_experts, d.n, d.k]);
        assert(input =~= seq![d.batch, d.input_dim1, d.k]);
        assert(ids =~= seq![d.batch, d.topk]);
    }
}

/// Law: of several things wrong with shapes the first is named: the rank of
/// weights, of the input, of the ids, then the width, the batch, the slots, and
/// last an empty dimension.
pub proof fn law_first_bad_shape_is_named(weights: Seq<usize>, input: Seq<usize>, ids: Seq<usize>)
    ensures
        ({
            let e = moe::dims_error(weights, input, ids);
            let ranks = weights.len() == 3 && input.len() == 3 && ids.len() == 2;
            &&& e == Some(MoeError::WeightRank) <==> weights.len() != 3
            &&& e == Some(MoeError::InputRank) <==> weights.len() == 3 && input.len() != 3
            &&& e == Some(MoeError::IdsRank) <==> weights.len() == 3 && input.len() == 3 && ids.len() != 2
            &&& e == Some(MoeError::InputWidth) <==> ranks && input[2] != weights[2]
            &&& ranks && input[2] == weights[2] && ids[0] != input[0] ==> e == Some(
                MoeError::BatchMismatch { input: input[0], ids: ids[0] },
            )
            &&& e == Some(MoeError::InputSlots) <==> ranks && input[2] == weights[2] && ids[0] == input[0] && input[1]
                != 1 && input[1] != ids[1]
            &&& e == Some(MoeError::EmptyShape) <==> ranks && input[2] == weights[2] && ids[0] == input[0] && (input[1]
                == 1 || input[1] == ids[1]) && (weights.contains(0) || ids.contains(0))
        }),
{
    if weights.len() == 3 && ids.len() == 2 {
        if weights.contains(0) {
            let i = choose|i: int| 0 <= i < weights.len() && weights[i] == 0;
            assert(i == 0 || i == 1 || i == 2);
        }
        if ids.contains(0) {
            let i = choose|i: int| 0 <= i < ids.len() && ids[i] == 0;
            assert(i == 0 || i == 1);
        }
        if weights[0] == 0 || weights[1] == 0 || weights[2] == 0 {
            assert(weights.contains(0));
        }
        if ids[0] == 0 || ids[1] == 0 {
            assert(ids.contains(0));
        }
    }
}

/// Law: the shared tiles take a row exactly when they are listed with its
/// format and width, wherever in the list.
pub proof fn law_tiles_take_what_is_listed(mmq: MmqShapes, dtype: GgmlDType, k: usize)
    ensures
        mmq.spec_supports(dtype, k) <==> exists|i: int|
            0 <= i < mmq.taken@.len() && #[trigger] mmq.taken@[i].0 == dtype && mmq.taken@[i].1 == k,
{
    if mmq.spec_supports(dtype, k) {
        let i = choose|i: int| 0 <= i < mmq.taken@.len() && mmq.taken@[i] == (dtype, k);
        assert(mmq.taken@[i].0 == dtype && mmq.taken@[i].1 == k);
    }
    if exists|i: int| 0 <= i < mmq.taken@.len() && #[trigger] mmq.taken@[i].0 == dtype && mmq.taken@[i].1 == k {
        let i = choose|i: int| 0 <= i < mmq.taken@.len() && #[trigger] mmq.taken@[i].0 == dtype && mmq.taken@[i].1 == k;
        assert(mmq.taken@[i] == (dtype, k));
    }
}

/// Law: the grouped kernels run on two formats only, never for a single token,
/// and exactly when every expert has eight pairs or more on average, where the
/// shared tiles take the rows.
pub proof fn law_grouped_from_eight_pairs_per_expert(dtype: GgmlDType, d: Dims, mmq: MmqShapes)
    requires
        d.num_experts > 0,
    ensures
        moe::spec_use_grouped(dtype, d, mmq) <==> {
            &&& dtype is Q5K || dtype is Q6K
            &&& d.batch >= 2
            &&& (d.batch * d.topk) / (d.num_experts as int) >= 8
            &&& mmq.spec_supports(dtype, d.k)
        },
{
    let (a, b) = (d.batch * d.topk, d.num_experts as int);
    vstd::arithmetic::div_mod::lemma_fundamental_div_mod(a, b);
    let q = a / b;
    assert(a >= 0) by (nonlinear_arith)
        requires
            a == d.batch * d.topk,
    ;
    if q >= 8 {
        assert(b * q >= 8 * b) by (nonlinear_arith)
            requires
                q >= 8,
                b > 0,
        ;
    } else {
        assert(b * q <= 7 * b) by (nonlinear_arith)
            requires
                q <= 7,
                b > 0,
        ;
    }
}

/// Law: a stack takes a batch through a prepared routing exactly when it would
/// choose the grouped kernels for it, has at most 65535 experts, and the pairs
/// can be indexed.
pub proof fn law_prepared_routing_needs_a_grouped_stack(
    dtype: GgmlDType,
    shape: Seq<usize>,
    batch: usize,
    topk: usize,
    slots: usize,
    mmq: MmqShapes,
)
    ensures
        moe::spec_supports(dtype, shape, batch, topk, mmq) <==> {
            &&& shape.len() == 3
            &&& 1 <= shape[0] <= 65535
            &&& shape[1] >= 1
            &&& topk >= 1
            &&& batch * topk <= 0x7fff_ffff
            &&& moe::spec_use_grouped(
                dtype,
                Dims { num_experts: shape[0], n: shape[1], k: shape[2], batch, input_dim1: slots, topk },
                mmq,
            )
        },
{
}

/// Law: a payload that holds every value and scale of its stack is never refused
/// as short, and one that lacks a bit of them always is refused.
pub proof fn law_short_payloads_are_refused(q: QStorage, shape: Seq<usize>, input: Operand, ids: Operand, blocks: int)
    requires
        moe::dims_error(shape, input.dims@, ids.dims@) is None,
        shape[0] * shape[1] * shape[2] == blocks * q.dtype.spec_block_size(),
        0 <= blocks,
    ensures
        ({
            let bits = blocks * (q.dtype.spec_block_size() * quantized::value_bits(q.dtype) + quantized::scale_bits(q.dtype));
            &&& 8 * q.len >= bits ==> moe::operand_error(q, shape, input, ids) != Some(MoeError::ShortWeights)
            &&& 8 * q.len < bits ==> moe::operand_error(q, shape, input, ids) is Some
        }),
{
    let t = q.dtype;
    quantized::law_blocks_hold_their_values_and_scales(t, blocks as nat);
    let (ty, bl, v, s, len) = (
        t.spec_type_size() as int,
        t.spec_block_size() as int,
        quantized::value_bits(t) as int,
        quantized::scale_bits(t) as int,
        q.len as int,
    );
    assert(blocks * (bl * v + s) == blocks * bl * v + blocks * s) by (nonlinear_arith);
    assert(8 * (blocks * ty) == blocks * (bl * v + s));
    assert(ty > 0 && bl > 0);
    let held = len / ty;
    vstd::arithmetic::div_mod::lemma_fundamental_div_mod(len, ty);
    let r = len % ty;
    assert(len == ty * held + r && 0 <= r < ty);
    if len >= blocks * ty {
        assert(held >= blocks) by (nonlinear_arith)
            requires
                len == ty * held + r,
                0 <= r < ty,
                len >= blocks * ty,
        ;
        assert(held * bl >= blocks * bl) by (nonlinear_arith)
            requires
                held >= blocks,
                bl > 0,
        ;
    } else {
        assert(held < blocks) by (nonlinear_arith)
            requires
                len == ty * held + r,
                0 <= r,
                len < blocks * ty,
                ty > 0,
        ;
        assert(held * bl < blocks * bl) by (nonlinear_arith)
            requires
                held < blocks,
                bl > 0,
        ;
    }
}

/// Elements `at..at + n` of an operand's storage are all of it, without gaps.
pub open spec fn lies_at(x: Operand, at: int, n: int) -> bool {
    x.contiguous matches Some((start, end)) && start == at && end == at + n
}

/// Law: operands are taken exactly when they lie on the weights' device, the
/// format has a kernel, the shapes fit, rows are whole blocks, every index fits
/// in 31 bits, the payload is complete, and input and ids are single-precision
/// numbers and 32-bit ids without gaps.
pub proof fn law_operands_are_taken(q: QStorage, shape: Seq<usize>, input: Operand, ids: Operand, at: int, ids_at: int)
    requires
        moe::dims_error(shape, input.dims@, ids.dims@) is None,
    ensures
        ({
            let (e, n, k) = (shape[0] as int, shape[1] as int, shape[2] as int);
            let (b, s, t) = (input.dims@[0] as int, input.dims@[1] as int, ids.dims@[1] as int);
            &&& moe::operand_error(q, shape, input, ids) is None ==> {
                &&& input.device == q.device && ids.device == q.device
                &&& moe::spec_kernel_name(q.dtype) is Some
                &&& k % (q.dtype.spec_block_size() as int) == 0
                &&& e * n * k <= 0x7fff_ffff
                &&& b * t * n <= 0x7fff_ffff
                &&& b * s * quantized::spec_pad(k as nat) <= 0x7fff_ffff
                &&& input.dtype == DType::F32 && ids.dtype == DType::U32
                &&& lies_at(input, moe::start_of(input) as int, b * s * k)
                &&& lies_at(ids, moe::start_of(ids) as int, b * t)
            }
            &&& input.device == q.device && ids.device == q.device && moe::spec_kernel_name(q.dtype) is Some && k % (
            q.dtype.spec_block_size() as int) == 0 && e * n * k <= 0x7fff_ffff && b * t * n <= 0x7fff_ffff && b * s
                * quantized::spec_pad(k as nat) <= 0x7fff_ffff && input.dtype == DType::F32 && ids.dtype == DType::U32
                && lies_at(input, at, b * s * k) && lies_at(ids, ids_at, b * t) && moe::operand_error(q, shape, input, ids)
                != Some(MoeError::ShortWeights) ==> moe::operand_error(q, shape, input, ids) is None && moe::start_of(input)
                == at && moe::start_of(ids) == ids_at
        }),
{
    let (b, s, t, k) = (input.dims@[0] as int, input.dims@[1] as int, ids.dims@[1] as int, shape[2] as int);
    assert(b * s * k >= 0 && b * t >= 0) by (nonlinear_arith)
        requires
            b >= 0,
            s >= 0,
            t >= 0,
            k >= 0,
    ;
}

/// Law: of several things wrong with operands the first is named: the device,
/// the format, the shapes, then partial blocks, then sizes past 31 bits; the
/// payload, the input's type and gaps, and last those of the ids.
pub proof fn law_first_bad_operand_is_named(q: QStorage, shape: Seq<usize>, input: Operand, ids: Operand)
    ensures
        ({
            let e = moe::operand_error(q, shape, input, ids);
            let d = moe::spec_dims(shape, input.dims@, ids.dims@);
            let together = q.device == input.device && q.device == ids.device;
            let known = together && moe::spec_kernel_name(q.dtype) is Some;
            let shaped = known && moe::dims_error(shape, input.dims@, ids.dims@) is None;
            let whole = shaped && d.k as int % (q.dtype.spec_block_size() as int) == 0;
            let small = whole && d.num_experts * d.n * d.k <= 0x7fff_ffff && d.batch * d.topk * d.n <= 0x7fff_ffff
                && d.batch * d.input_dim1 * quantized::spec_pad(d.k as nat) <= 0x7fff_ffff;
            let full = small && e != Some(MoeError::ShortWeights);
            &&& e == Some(MoeError::DeviceMismatch) <==> !together
            &&& together && !known ==> e == Some(MoeError::NoKernel(q.dtype))
            &&& known && !shaped ==> e == moe::dims_error(shape, input.dims@, ids.dims@)
            &&& shaped && !whole ==> e == Some(MoeError::BlockMultiple)
            &&& whole && !small ==> e == Some(MoeError::TooLarge)
            &&& full && input.dtype != DType::F32 ==> e == Some(MoeError::InputType(input.dtype))
            &&& full && input.dtype == DType::F32 && !moe::covers(input, (d.batch * d.input_dim1 * d.k) as nat) ==> e == Some(
                MoeError::InputNotContiguous,
            )
            &&& full && input.dtype == DType::F32 && moe::covers(input, (d.batch * d.input_dim1 * d.k) as nat) && ids.dtype
                != DType::U32 ==> e == Some(MoeError::IdsType(ids.dtype))
            &&& full && input.dtype == DType::F32 && moe::covers(input, (d.batch * d.input_dim1 * d.k) as nat) && ids.dtype
                == DType::U32 && !moe::covers(ids, (d.batch * d.topk) as nat) ==> e == Some(MoeError::IdsNotContiguous)
        }),
{
}

/// Law: an operand covers `n` elements exactly when its elements, counted from
/// its first one, are `n` and have no gaps.
pub proof fn law_covering_counts_elements(x: Operand, n: nat)
    ensures
        moe::covers(x, n) <==> lies_at(x, moe::start_of(x) as int, n as int),
        x.contiguous is None ==> !moe::covers(x, n),
{
}

/// Law: ids are packed exactly when they are `(batch, topk)` without gaps, some
/// and at most 2^31 - 1 pairs for some and at most 65535 experts, with a slot
/// per expert and pair within 31 bits. One block of 256 threads serves each
/// expert.
pub proof fn law_routing_plans(ids: Operand, num_experts: usize, batch: usize, topk: usize, at: int)
    requires
        ids.dims@ == seq![batch, topk],
    ensures
        ({
            let pairs = batch * topk;
            let plan = moe::spec_routing_plan(ids, num_experts);
            let e = moe::routing_error(ids, num_experts);
            &&& e == Some(MoeError::RouteDimensions) <==> !(1 <= pairs <= 0x7fff_ffff)
            &&& e == Some(MoeError::ExpertCount) <==> 1 <= pairs <= 0x7fff_ffff && !(1 <= num_experts <= 65535)
            &&& e is None <==> {
                &&& 1 <= pairs <= 0x7fff_ffff
                &&& 1 <= num_experts <= 65535
                &&& num_experts * pairs <= 0x7fff_ffff
                &&& ids.dtype == DType::U32
                &&& lies_at(ids, moe::start_of(ids) as int, pairs)
            }
            &&& e == Some(MoeError::ScratchOverflow) <==> 1 <= pairs <= 0x7fff_ffff && 1 <= num_experts <= 65535 && ids.dtype
                == DType::U32 && lies_at(ids, moe::start_of(ids) as int, pairs) && num_experts * pairs > 0x7fff_ffff
            &&& e is None ==> {
                &&& plan.device == ids.device && plan.num_experts == num_experts
                &&& plan.batch == batch && plan.topk == topk
                &&& plan.total_pairs == pairs
                &&& plan.scratch_len == num_experts * pairs
                &&& plan.grid == (Grid { x: num_experts as u32, y: 1, z: 1 })
                &&& plan.block == (Grid { x: 256, y: 1, z: 1 })
                &&& lies_at(ids, at, pairs) ==> plan.ids_offset == at
            }
        }),
{
    assert(ids.dims@.len() == 2 && ids.dims@[0] == batch && ids.dims@[1] == topk);
    assert(batch * topk >= 0) by (nonlinear_arith);
}

/// Law: ids of any other rank are refused for it.
pub proof fn law_routing_ids_are_pairs(ids: Operand, num_experts: usize)
    ensures
        moe::routing_error(ids, num_experts) == Some(MoeError::IdsRank) <==> ids.dims@.len() != 2,
{
}

/// Law: counts add up, and the busiest expert is one of them, with no fewer
/// pairs than any other.
pub proof fn law_counts_add_up(a: Seq<u32>, b: Seq<u32>, i: int)
    requires
        0 <= i < a.len(),
    ensures
        moe::total(a + b) == moe::total(a) + moe::total(b),
        moe::total(seq![a[i]]) == a[i],
        moe::total(Seq::empty()) == 0,
        a[i] <= moe::busiest(a),
        exists|j: int| 0 <= j < a.len() && #[trigger] a[j] == moe::busiest(a),
{
    lemma_total_concat(a, b);
    assert(seq![a[i]].drop_last().len() == 0);
    assert(moe::total(seq![a[i]].drop_last()) == 0);
    lemma_busiest(a);
}

proof fn lemma_total_concat(a: Seq<u32>, b: Seq<u32>)
    ensures
        moe::total(a + b) == moe::total(a) + moe::total(b),
    decreases b.len(),
{
    if b.len() == 0 {
        assert(a + b =~= a);
    } else {
        lemma_total_concat(a, b.drop_last());
        assert((a + b).drop_last() =~= a + b.drop_last());
    }
}

proof fn lemma_busiest(a: Seq<u32>)
    requires
        a.len() > 0,
    ensures
        forall|i: int| 0 <= i < a.len() ==> #[trigger] a[i] <= moe::busiest(a),
        exists|j: int| 0 <= j < a.len() && #[trigger] a[j] == moe::busiest(a),
    decreases a.len(),
{
    let rest = a.drop_last();
    if rest.len() > 0 {
        lemma_busiest(rest);
        let j = choose|j: int| 0 <= j < rest.len() && #[trigger] rest[j] == moe::busiest(rest);
        assert(a[j] == rest[j]);
        assert forall|i: int| 0 <= i < a.len() implies #[trigger] a[i] <= moe::busiest(a) by {
            if i < a.len() - 1 {
                assert(rest[i] == a[i]);
            }
        }
        if a.last() > moe::busiest(rest) {
            assert(a[a.len() - 1] == moe::busiest(a));
        }
    } else {
        assert(moe::busiest(rest) == 0);
        assert(a[0] == a.last());
        assert(moe::busiest(a) == a[0]);
    }
}

/// Law: a packing is refused when any id named no expert, and otherwise exactly
/// when its counts do not add up to the pairs; a reusable routing exists on the
/// accelerator only.
pub proof fn law_packings_are_refused_for(ids: Operand, num_experts: usize, plan: RoutingPlan, own: Seq<u32>, outside: u32)
    requires
        own.len() == plan.num_experts,
        plan.total_pairs > 0,
    ensures
        ({
            let counts = own.push(outside);
            let e = moe::counts_error(plan, counts);
            &&& e == Some(MoeError::ExpertOutside) <==> outside > 0
            &&& e == Some(MoeError::CountsIncomplete) <==> outside == 0 && moe::total(own) != plan.total_pairs
            &&& e is None <==> outside == 0 && moe::total(own) == plan.total_pairs
            &&& !(ids.device is Rocm) ==> moe::grouped_routing_error(ids, num_experts, counts) == Some(
                MoeError::NotOnDevice,
            )
            &&& ids.device is Rocm && moe::routing_error(ids, num_experts) is Some ==> moe::grouped_routing_error(
                ids,
                num_experts,
                counts,
            ) == moe::routing_error(ids, num_experts)
            &&& ids.device is Rocm && moe::routing_error(ids, num_experts) is None ==> moe::grouped_routing_error(
                ids,
                num_experts,
                counts,
            ) == moe::counts_error(moe::spec_routing_plan(ids, num_experts), counts)
        }),
{
    let counts = own.push(outside);
    assert(counts.take(plan.num_experts as int) =~= own);
    moe::law_accepted_routing_accounts_for_every_pair(plan, counts);
}

/// Law: the grouped kernel is launched exactly for its two formats, on rows that
/// the shared tiles take, of at most 65535 experts, over a routing of the same
/// experts, batch, slots and device, with at most 65535 column tiles.
pub proof fn law_grouped_launches_are_refused_for(q: QStorage, d: Dims, r: PackedRouting, tiles: Option<MmqPlan>, mmq: MmqShapes)
    ensures
        ({
            let e = moe::grouped_error(q, d, r, tiles, mmq);
            let format = q.dtype is Q5K || q.dtype is Q6K;
            let rows = mmq.spec_supports(q.dtype, d.k) && d.num_experts <= 65535;
            let same = r.num_experts == d.num_experts && r.batch == d.batch && r.topk == d.topk && r.device == q.device;
            &&& e == Some(MoeError::GroupedType) <==> !format
            &&& e == Some(MoeError::GroupedDimensions) <==> format && !rows
            &&& e == Some(MoeError::MissingTiles) <==> format && rows && tiles is None
            &&& e == Some(MoeError::RoutingMismatch) <==> format && rows && tiles is Some && !same
            &&& tiles is Some && tiles->0.mmq_x > 0 ==> (e == Some(MoeError::ColumnGrid) <==> format && rows && same && r.max_count
                > 65535 * tiles->0.mmq_x)
            &&& tiles is Some && tiles->0.mmq_x > 0 ==> (e is None <==> format && rows && same && r.max_count <= 65535
                * tiles->0.mmq_x)
        }),
{
    if tiles is Some && tiles->0.mmq_x > 0 {
        quantized::law_rounding_up_is_the_least_cover(r.max_count as nat, tiles->0.mmq_x as nat, 65535);
    }
}

/// Law: a grouped launch has the fewest row tiles that cover the rows, the
/// fewest column tiles that cover the busiest expert, and one layer per expert;
/// its blocks are the tiles' warps of 32 threads, and it is told the sizes.
pub proof fn law_grouped_grids_are_the_least(q: QStorage, d: Dims, max_count: usize, tiles: MmqPlan)
    requires
        moe::launchable(d),
        tiles.mmq_x > 0,
        tiles.mmq_y > 0,
        d.num_experts <= 65535,
        max_count <= 65535 * tiles.mmq_x,
        d.n <= 0x7fff_ffff && d.k <= 0x7fff_ffff && d.topk <= 0x7fff_ffff && d.input_dim1 <= 0x7fff_ffff,
        d.batch * d.topk <= 0x7fff_ffff,
        quantized::spec_pad(d.k as nat) <= 0x7fff_ffff,
    ensures
        ({
            let l: GroupedLaunch = moe::spec_grouped_launch(q, d, max_count, tiles);
            &&& d.n <= l.grid.x * tiles.mmq_y < d.n + tiles.mmq_y
            &&& max_count <= l.grid.y * tiles.mmq_x < max_count + tiles.mmq_x
            &&& l.grid.z == d.num_experts
            &&& l.block == (Grid { x: 32, y: tiles.nwarps, z: 1 })
            &&& l.dtype == q.dtype
            &&& l.n == d.n && l.k == d.k && l.topk == d.topk && l.input_dim1 == d.input_dim1
            &&& l.total_pairs == d.batch * d.topk
            &&& l.k_padded % 512 == 0 && d.k <= l.k_padded < d.k + 512
        }),
{
    quantized::lemma_div_ceil(d.n as nat, tiles.mmq_y as nat);
    quantized::lemma_div_ceil(max_count as nat, tiles.mmq_x as nat);
    quantized::law_rounding_up_is_the_least_cover(max_count as nat, tiles.mmq_x as nat, 65535);
    quantized::law_padding_is_the_least_multiple(d.k as nat);
}

/// Law: a vector launch has one block of four warps of 32 threads per output
/// element, and is told the sizes.
pub proof fn law_vector_launches_have_a_block_per_output(q: QStorage, d: Dims, task_major: bool)
    requires
        moe::launchable(d),
        d.n <= 0x7fff_ffff && d.k <= 0x7fff_ffff && d.topk <= 0x7fff_ffff && d.input_dim1 <= 0x7fff_ffff,
        d.batch <= 0x7fff_ffff && d.batch * d.topk <= 0x7fff_ffff,
        quantized::spec_pad(d.k as nat) <= 0x7fff_ffff,
    ensures
        ({
            let l: Launch = moe::spec_vector_launch(q, d, task_major);
            &&& l.grid.x * l.grid.y * l.grid.z == d.batch * d.topk * d.n
            &&& l.grid == moe::vector_grid(d, task_major)
            &&& task_major ==> l.grid.x == d.batch * d.topk && l.grid.y == d.n
            &&& !task_major ==> l.grid.x == d.n && l.grid.y == d.batch && l.grid.z == d.topk
            &&& l.block == (Grid { x: 32, y: 4, z: 1 })
            &&& l.dtype == q.dtype && l.task_major == task_major
            &&& l.n == d.n && l.k == d.k && l.batch == d.batch && l.topk == d.topk && l.input_dim1 == d.input_dim1
            &&& l.k_padded % 512 == 0 && d.k <= l.k_padded < d.k + 512
        }),
{
    quantized::law_padding_is_the_least_multiple(d.k as nat);
    let (b, t, n) = (d.batch as int, d.topk as int, d.n as int);
    assert(n * b * t == b * t * n) by (nonlinear_arith);
    assert(b * t * n * 1 == b * t * n) by (nonlinear_arith);
}

/// Law: the block of token `token`, slot `slot` and row `row` reads that row of
/// the expert that the pair's id names and the token's own activation row, one
/// for all its slots or one each, and writes the element of `(batch, topk, n)`
/// that the three name.
pub proof fn law_blocks_read_their_own_pair(d: Dims, task_major: bool, token: int, slot: int, row: int)
    requires
        moe::launchable(d),
        0 <= token < d.batch,
        0 <= slot < d.topk,
        0 <= row < d.n,
        d.n <= 0x7fff_ffff && d.topk <= 0x7fff_ffff && d.batch <= 0x7fff_ffff && d.batch * d.topk <= 0x7fff_ffff,
    ensures
        ({
            let pair = token * d.topk + slot;
            let at = if task_major {
                Grid { x: pair as u32, y: row as u32, z: 0 }
            } else {
                Grid { x: row as u32, y: token as u32, z: slot as u32 }
            };
            moe::assigned(d, task_major, at) == (
                row,
                pair,
                if d.input_dim1 == 1 { token } else { pair },
                pair * d.n + row,
            )
        }),
{
    let (b, t) = (d.batch as int, d.topk as int);
    assert(0 <= token * t && token * t + slot < b * t) by (nonlinear_arith)
        requires
            0 <= token <= b - 1,
            0 <= slot < t,
    ;
    vstd::arithmetic::div_mod::lemma_fundamental_div_mod_converse(token * t + slot, t, token, slot);
}

/// Law: a plan quantizes one row per token, or per pair where each has its own,
/// and writes `n` elements per pair. It routes or takes the prepared routing
/// exactly when the grouped kernels are chosen; a choice that is asked for is
/// the one made.
pub proof fn law_plans_size_their_buffers(
    q: QStorage,
    shape: Seq<usize>,
    input: Operand,
    ids: Operand,
    grouped: Option<bool>,
    prepared: Option<PackedRouting>,
    tiles: Option<MmqPlan>,
    mmq: MmqShapes,
    task_major: Option<bool>,
    row_major: bool,
    blocks: nat,
)
    requires
        moe::operand_error(q, shape, input, ids) is None,
        shape[2] <= 512 * blocks < shape[2] + 512,
    ensures
        ({
            let plan = moe::spec_forward_plan(q, shape, input, ids, grouped, prepared, tiles, mmq, task_major, row_major);
            let d = moe::spec_dims(shape, input.dims@, ids.dims@);
            let (b, s, t) = (input.dims@[0] as int, input.dims@[1] as int, ids.dims@[1] as int);
            let group = if grouped is Some { grouped->0 } else { moe::spec_use_grouped(q.dtype, d, mmq) };
            &&& plan.dims == d
            &&& plan.total_rows == b * s
            &&& plan.input_bytes == b * s * (576 * blocks)
            &&& plan.out_len == b * t * shape[1]
            &&& plan.input_offset == moe::start_of(input)
            &&& plan.ids_offset == moe::start_of(ids)
            &&& plan.path is Vector <==> !group
            &&& plan.path is Route <==> group && prepared is None
            &&& plan.path is Grouped <==> group && prepared is Some
            &&& plan.path matches Path::Vector(l) ==> l == moe::spec_vector_launch(q, d, moe::task_major_choice(
                d,
                task_major,
                row_major,
            ))
            &&& plan.path matches Path::Route(r) ==> r == moe::spec_routing_plan(ids, shape[0])
            &&& plan.path matches Path::Grouped(l) ==> l == moe::spec_grouped_launch(q, d, prepared->0.max_count, tiles->0)
            &&& moe::forward_error(q, shape, input, ids, grouped, prepared, tiles, mmq) == (if !group {
                None
            } else if prepared is Some {
                moe::grouped_error(q, d, prepared->0, tiles, mmq)
            } else {
                moe::routing_error(ids, shape[0])
            })
        }),
{
    let d = moe::spec_dims(shape, input.dims@, ids.dims@);
    let (b, s, t, n, k) = (d.batch as int, d.input_dim1 as int, d.topk as int, d.n as int, d.k as int);
    let rows = b * s;
    quantized::law_padding_is_the_least_multiple(d.k as nat);
    let p = quantized::spec_pad(d.k as nat) as int;
    assert(b > 0 && s > 0 && t > 0 && n > 0 && k > 0);
    assert(rows > 0) by (nonlinear_arith)
        requires
            rows == b * s,
            b > 0,
            s > 0,
    ;
    assert(rows <= rows * p) by (nonlinear_arith)
        requires
            rows > 0,
            p >= 1,
    ;
    lemma_row_bytes(d.k as nat, rows as nat, blocks);
    assert(p == 512 * blocks);
    assert(rows * (576 * blocks) <= 2 * (rows * p)) by (nonlinear_arith)
        requires
            rows > 0,
            p == 512 * blocks,
    ;
    assert(b * t * n >= 0) by (nonlinear_arith)
        requires
            b > 0,
            t > 0,
            n > 0,
    ;
}

proof fn lemma_row_bytes(k: nat, rows: nat, blocks: nat)
    requires
        k <= 512 * blocks < k + 512,
    ensures
        quantized::spec_buffer_bytes(k, rows) == rows * (576 * blocks),
        quantized::spec_pad(k) == 512 * blocks,
    decreases rows,
{
    quantized::lemma_div_ceil(k, 512);
    quantized::law_activation_rows_take_equal_space(k, rows, blocks);
    if rows > 0 {
        lemma_row_bytes(k, (rows - 1) as nat, blocks);
        quantized::law_activation_rows_take_equal_space(k, (rows - 1) as nat, blocks);
        let (r, x) = (rows as int, (576 * blocks) as int);
        assert((r - 1) * x + x == r * x) by (nonlinear_arith);
    } else {
        let x = (576 * blocks) as int;
        assert(0 * x == 0) by (nonlinear_arith);
    }
}

/// Law: a packed routing keeps the experts' counts in order and knows the
/// greatest; it is that of its plan's device, experts, batch and slots.
pub proof fn law_packed_routings_keep_the_counts(r: PackedRouting, plan: RoutingPlan, counts: Seq<u32>, i: int)
    requires
        moe::packs(r, plan, counts),
        counts.len() == plan.num_experts + 1,
        0 <= i < plan.num_experts,
    ensures
        r.counts@.len() == plan.num_experts,
        r.counts@[i] == counts[i],
        r.counts@[i] <= r.max_count,
        exists|j: int| 0 <= j < plan.num_experts && #[trigger] counts[j] == r.max_count,
        r.device == plan.device && r.num_experts == plan.num_experts && r.batch == plan.batch && r.topk == plan.topk,
{
    lemma_busiest(r.counts@);
    let j = choose|j: int| 0 <= j < r.counts@.len() && #[trigger] r.counts@[j] == moe::busiest(r.counts@);
    assert(counts[j] == r.counts@[j]);
}

/// Law: whatever dimensions are taken, they are those of weights `(experts, n,
/// k)`, input `(batch, slots, k)` and ids `(batch, topk)`; shapes that fit are
/// always taken.
pub proof fn law_taken_dimensions_fit(weights: Vec<usize>, input: Vec<usize>, ids: Vec<usize>, got: Result<Dims, MoeError>, d: Dims)
    requires
        call_ensures(moe::dims, (&weights, &input, &ids), got),
    ensures
        got == Ok::<Dims, MoeError>(d) <==> {
            &&& weights@ == seq![d.num_experts, d.n, d.k]
            &&& input@ == seq![d.batch, d.input_dim1, d.k]
            &&& ids@ == seq![d.batch, d.topk]
            &&& d.num_experts > 0 && d.n > 0 && d.k > 0 && d.batch > 0 && d.topk > 0
            &&& d.input_dim1 == 1 || d.input_dim1 == d.topk
        },
{
    law_shapes_fit_together(weights@, input@, ids@, d);
}

/// Law: whatever is chosen for a batch, the task-major geometry is taken from 16
/// tokens on unless the switch holds a text other than none and a single zero.
pub proof fn law_chosen_geometry(d: Dims, switch: Option<String>, forced: bool, task_major: bool)
    requires
        call_ensures(moe::row_major_forced, (&switch,), forced),
        call_ensures(moe::use_task_major, (&d, forced), task_major),
    ensures
        task_major <==> d.batch >= 16 && (switch matches Some(text) ==> text@.len() == 0 || (text@.len() == 1 && text@[0]
            == '0')),
{
    law_switch_is_on_for_any_other_text(
        match switch {
            Some(v) => Some(v@),
            None => None,
        },
    );
}

/// Law: whatever is chosen for a batch, the grouped kernels are taken for two
/// formats, more than one token, eight pairs per expert and listed rows.
pub proof fn law_chosen_kernels(dtype: GgmlDType, d: Dims, mmq: MmqShapes, grouped: bool)
    requires
        call_ensures(moe::use_grouped, (dtype, &d, &mmq), grouped),
        d.num_experts > 0,
    ensures
        grouped <==> (dtype is Q5K || dtype is Q6K) && d.batch >= 2 && (d.batch * d.topk) / (d.num_experts as int) >= 8
            && exists|i: int| 0 <= i < mmq.taken@.len() && #[trigger] mmq.taken@[i].0 == dtype && mmq.taken@[i].1 == d.k,
{
    law_grouped_from_eight_pairs_per_expert(dtype, d, mmq);
    law_tiles_take_what_is_listed(mmq, dtype, d.k);
}

/// Law: whatever name a launch has, it begins with its geometry and spells its
/// weight format; the grouped kernels are named for their format's bits.
pub proof fn law_launch_names(l: Launch, name: &'static str, g: GroupedLaunch, grouped: &'static str)
    requires
        moe::spec_kernel_name(l.dtype) is Some,
        call_ensures(Launch::name, (&l,), name),
        g.dtype is Q5K || g.dtype is Q6K,
        call_ensures(GroupedLaunch::name, (&g,), grouped),
    ensures
        ({
            let prefix = if l.task_major { "indexed_moe_forward_task_major_"@ } else { "indexed_moe_forward_"@ };
            let at = prefix.len() as int;
            &&& name@.take(at) == prefix
            &&& name@[at] == 'q'
            &&& name@[at + 1] == gguf::digit_char(quantized::value_bits(l.dtype) as int)
        }),
        grouped@.len() == 20,
        grouped@[17] == gguf::digit_char(quantized::value_bits(g.dtype) as int),
        grouped@.take(17) == "grouped_mul_mat_q"@,
{
    moe::law_every_kernel_has_both_geometries(l.dtype);
    let suffix = moe::kernel_suffix(l.dtype)->0;
    let prefix = if l.task_major { "indexed_moe_forward_task_major_"@ } else { "indexed_moe_forward_"@ };
    reveal_strlit("q2k_q8_1");
    reveal_strlit("q3k_q8_1");
    reveal_strlit("q4k_q8_1");
    reveal_strlit("q5k_q8_1");
    reveal_strlit("q6k_q8_1");
    reveal_strlit("q8_0_q8_1");
    reveal_strlit("q4_0_q8_1");
    reveal_strlit("q4_1_q8_1");
    reveal_strlit("q5_0_q8_1");
    reveal_strlit("q5_1_q8_1");
    reveal_strlit("grouped_mul_mat_q5_K");
    reveal_strlit("grouped_mul_mat_q6_K");
    reveal_strlit("grouped_mul_mat_q");
    assert(name@ == prefix + suffix);
    assert(name@.take(prefix.len() as int) =~= prefix);
    assert(name@[prefix.len() as int] == suffix[0]);
    assert(name@[prefix.len() as int + 1] == suffix[1]);
    assert(grouped@.take(17) =~= "grouped_mul_mat_q"@);
}

/// Law: whatever ids are packed for, the plan has a slot per expert and pair and
/// a block of 256 threads per expert.
pub proof fn law_given_routing_plans(ids: Operand, num_experts: usize, got: Result<RoutingPlan, MoeError>, batch: usize, topk: usize)
    requires
        call_ensures(PackedRouting::plan, (&ids, num_experts), got),
        ids.dims@ == seq![batch, topk],
    ensures
        got matches Ok(plan) ==> {
            &&& plan.total_pairs == batch * topk
            &&& plan.scratch_len == num_experts * (batch * topk)
            &&& plan.grid == (Grid { x: num_experts as u32, y: 1, z: 1 })
            &&& plan.block == (Grid { x: 256, y: 1, z: 1 })
            &&& plan.batch == batch && plan.topk == topk && plan.num_experts == num_experts && plan.device == ids.device
            &&& lies_at(ids, plan.ids_offset as int, batch * topk)
        },
        got is Ok <==> 1 <= batch * topk <= 0x7fff_ffff && 1 <= num_experts <= 65535 && num_experts * (batch * topk)
            <= 0x7fff_ffff && ids.dtype == DType::U32 && lies_at(ids, moe::start_of(ids) as int, batch * topk),
{
    law_routing_plans(ids, num_experts, batch, topk, moe::start_of(ids) as int);
}

/// Law: whatever counts are accepted, none was of an id without expert, all add
/// up to the pairs, and the greatest is known.
pub proof fn law_accepted_counts_add_up(plan: RoutingPlan, own: Seq<u32>, outside: u32, counts: Vec<u32>, got: Result<PackedRouting, MoeError>)
    requires
        call_ensures(PackedRouting::finish, (&plan, &counts), got),
        counts@ == own.push(outside),
        own.len() == plan.num_experts,
        plan.total_pairs > 0,
    ensures
        got is Ok <==> outside == 0 && moe::total(own) == plan.total_pairs,
        got matches Ok(r) ==> r.counts@ == own && r.max_count == moe::busiest(own),
{
    moe::law_accepted_routing_accounts_for_every_pair(plan, counts@);
    assert(counts@.take(plan.num_experts as int) =~= own);
}

/// Law: whatever plan is made for plain ids, it quantizes a row per token or per
/// pair and writes `n` numbers per pair; it takes the vector kernel, in the
/// geometry of its batch, unless the grouped kernels are chosen.
pub proof fn law_given_plans_size_their_buffers(
    q: QStorage,
    shape: Vec<usize>,
    input: Operand,
    ids: Operand,
    mmq: MmqShapes,
    row_major: bool,
    got: Result<moe::ForwardPlan, MoeError>,
    blocks: nat,
)
    requires
        call_ensures(moe::forward, (&q, &shape, &input, &ids, &mmq, row_major), got),
        shape@[2] <= 512 * blocks < shape@[2] + 512,
    ensures
        got matches Ok(plan) ==> ({
            let (b, s, t) = (input.dims@[0] as int, input.dims@[1] as int, ids.dims@[1] as int);
            let group = moe::spec_use_grouped(q.dtype, plan.dims, mmq);
            &&& plan.total_rows == b * s
            &&& plan.input_bytes == b * s * (576 * blocks)
            &&& plan.out_len == b * t * shape@[1]
            &&& plan.path is Vector <==> !group
            &&& plan.path is Route <==> group
            &&& plan.path matches Path::Vector(l) ==> (l.task_major <==> b >= 16 && !row_major)
        }),
{
    if let Ok(plan) = got {
        law_plans_size_their_buffers(q, shape@, input, ids, None, None, None, mmq, None, row_major, blocks);
        law_task_major_from_sixteen_tokens(plan.dims, None, row_major);
    }
}

/// Law: whatever block of a vector launch is asked for, it computes one row of the
/// expert of its pair from the pair's own activation row, or from its token's
/// only one, into that pair's element of that row.
pub proof fn law_assigned_blocks_read_their_own_pair(d: Dims, task_major: bool, at: Grid, got: moe::Assignment)
    requires
        call_ensures(moe::assignment, (&d, task_major, &at), got),
        moe::launchable(d),
        moe::in_grid(at, moe::vector_grid(d, task_major)),
    ensures
        task_major ==> got.task == at.x && got.row == at.y,
        !task_major ==> got.task == at.y * d.topk + at.z && got.row == at.x,
        d.input_dim1 != 1 ==> got.input_row == got.task,
        d.input_dim1 == 1 ==> got.input_row * d.topk <= got.task < got.input_row * d.topk + d.topk,
        got.out == got.task * d.n + got.row,
{
    let t = d.topk as int;
    vstd::arithmetic::div_mod::lemma_fundamental_div_mod(got.task as int, t);
    let q = got.task as int / t;
    assert(t * q == q * t) by (nonlinear_arith);
}

/// Law: whatever plan is made over a prepared routing, it takes the grouped
/// kernel, over a routing of its own experts, batch, slots and device; the grid
/// covers every row and the busiest expert.
pub proof fn law_prepared_plans_are_grouped(
    q: QStorage,
    shape: Vec<usize>,
    input: Operand,
    ids: Operand,
    routing: moe::GroupedMoeRouting,
    tiles: MmqPlan,
    mmq: MmqShapes,
    got: Result<moe::ForwardPlan, MoeError>,
)
    requires
        call_ensures(moe::forward_prepared, (&q, &shape, &input, &ids, &routing, Some(tiles), &mmq), got),
        tiles.mmq_x > 0,
        tiles.mmq_y > 0,
    ensures
        got matches Ok(plan) ==> {
            &&& plan.path is Grouped
            &&& q.dtype is Q5K || q.dtype is Q6K
            &&& routing.packed.num_experts == shape@[0] && routing.packed.batch == input.dims@[0] && routing.packed.topk
                == ids.dims@[1] && routing.packed.device == q.device
            &&& routing.packed.max_count <= 65535 * tiles.mmq_x
            &&& plan.path->Grouped_0.grid.z == shape@[0]
            &&& plan.path->Grouped_0.block == (Grid { x: 32, y: tiles.nwarps, z: 1 })
        },
{
    if got is Ok {
        let d = got->Ok_0.dims;
        law_grouped_launches_are_refused_for(q, d, routing.packed, Some(tiles), mmq);
    }
}

/// Law: whatever stack supports a batch, it has a grouped format, eight pairs per
/// expert, more than one token and at most 65535 experts.
pub proof fn law_supported_batches(dtype: GgmlDType, shape: Vec<usize>, batch: usize, topk: usize, mmq: MmqShapes, told: bool)
    requires
        call_ensures(moe::supports, (dtype, &shape, batch, topk, &mmq), told),
    ensures
        told ==> {
            &&& dtype is Q5K || dtype is Q6K
            &&& shape@.len() == 3 && 1 <= shape@[0] <= 65535 && shape@[1] >= 1
            &&& batch >= 2 && topk >= 1 && batch * topk <= 0x7fff_ffff
            &&& 8 * shape@[0] <= batch * topk
            &&& mmq.spec_supports(dtype, shape@[2])
        },
        (dtype is Q5K || dtype is Q6K) && shape@.len() == 3 && 1 <= shape@[0] <= 65535 && shape@[1] >= 1 && batch >= 2 && topk
            >= 1 && batch * topk <= 0x7fff_ffff && 8 * shape@[0] <= batch * topk && mmq.spec_supports(dtype, shape@[2]) ==> told,
{
}

} // verus!
