//! Routing, combination, gated convolution step and gated activation: which
//! inputs they take, which of their two forms runs, and what the routing picks.
//!
//! A fused form is one kernel of its own on ROCm; the decomposed form is the
//! plain tensor expression. Numbers are single-precision bit patterns.

use vstd::prelude::*;
use crate::conv;
use crate::conv::convolve_row;
use crate::gguf;
use crate::ieee;
use crate::ieee::order_key;
use crate::tensor;
use crate::tensor::{elem_count, DType, Operand};

verus! {

/// Kernels of the fused forms.
pub const ROUTE_KERNEL: &'static str = "lfm2_route_32_4";

pub const COMBINE_KERNEL: &'static str = "lfm2_combine_4";

pub const STEP_KERNEL: &'static str = "lfm2_conv_step";

pub const SWIGLU_KERNEL: &'static str = "lfm2_swiglu";

/// Threads that route one row.
pub const ROUTE_BLOCK: u32 = 32;

#[derive(Clone, Copy, PartialEq, Eq, Structural, Debug)]
pub enum OpError {
    /// A tensor of another rank than the operation takes.
    Rank,
    /// Inputs that do not fit together.
    Invalid,
    /// More rows than a grid has.
    TooManyRows,
}

/// What a routing gives: ids and weights for the fused kernel to fill, or the
/// picked experts with their scores, still to be divided by their sum.
#[derive(Debug)]
pub enum Routed {
    /// One block per row; `outputs` ids and as many weights.
    Fused { grid: u32, outputs: usize },
    Rows(Vec<Picked>),
}

/// One token's experts, best first, and each one's own score.
#[derive(Debug)]
pub struct Picked {
    pub ids: Vec<u32>,
    pub scores: Vec<u32>,
}

pub open spec fn moe_route_error(logits: Operand, bias: Operand, topk: usize) -> Option<OpError> {
    if logits.dims@.len() != 2 {
        Some(OpError::Rank)
    } else if logits.dims@[0] == 0 || topk == 0 || topk > logits.dims@[1] {
        Some(OpError::Invalid)
    } else if bias.dims@.len() != 1 {
        Some(OpError::Rank)
    } else if bias.dims@[0] != logits.dims@[1] || logits.dtype != DType::F32 || bias.dtype != DType::F32
        || logits.device != bias.device {
        Some(OpError::Invalid)
    } else if spec_route_is_fused(logits, topk) && logits.dims@[0] > u32::MAX {
        Some(OpError::TooManyRows)
    } else {
        None
    }
}

/// The fused kernel takes 32 experts of which 4 are used.
pub open spec fn spec_route_is_fused(logits: Operand, topk: usize) -> bool {
    logits.device.spec_is_rocm() && logits.dims@[1] == 32 && topk == 4
}

/// Whether a routing of these logits is the fused kernel's.
pub fn route_is_fused(logits: &Operand, topk: usize) -> (res: bool)
    requires
        logits.dims@.len() == 2,
    ensures
        res == spec_route_is_fused(*logits, topk),
{
    logits.device.is_rocm() && logits.dims[1] == 32 && topk == 4
}

/// Expert `a` is picked before expert `b`: a greater biased score, or an equal
/// one and the lower number.
pub open spec fn picked_before(biased: Seq<u32>, a: int, b: int) -> bool {
    ieee::spec_order_key(biased[a]) > ieee::spec_order_key(biased[b]) || (ieee::spec_order_key(biased[a])
        == ieee::spec_order_key(biased[b]) && a < b)
}

/// Expert `e` is not among `ids`.
pub open spec fn left_out(ids: Seq<u32>, e: int) -> bool {
    !ids.contains(e as u32)
}

/// `ids` are the first of all experts in the order of picking.
pub open spec fn is_selection(biased: Seq<u32>, ids: Seq<u32>) -> bool {
    &&& forall|p: int| 0 <= p < ids.len() ==> #[trigger] ids[p] < biased.len()
    &&& forall|p: int, q: int|
        0 <= p < q < ids.len() ==> picked_before(biased, #[trigger] ids[p] as int, #[trigger] ids[q] as int)
    &&& forall|p: int, e: int|
        0 <= p < ids.len() && 0 <= e < biased.len() && left_out(ids, e) ==> #[trigger] picked_before(
            biased,
            ids[p] as int,
            e,
        )
}

/// Each picked expert's own score, whatever the bias was.
pub open spec fn own_scores(scores: Seq<u32>, ids: Seq<u32>) -> Seq<u32> {
    ids.map_values(|e: u32| scores[e as int])
}

pub open spec fn is_picked(scores: Seq<u32>, biased: Seq<u32>, topk: nat, p: Picked) -> bool {
    &&& p.ids@.len() == topk
    &&& is_selection(biased, p.ids@)
    &&& p.scores@ == own_scores(scores, p.ids@)
}

fn contains_id(ids: &Vec<u32>, e: u32) -> (res: bool)
    ensures
        res == ids@.contains(e),
{
    let mut i: usize = 0;
    while i < ids.len()
        invariant
            i <= ids@.len(),
            forall|j: int| 0 <= j < i ==> ids@[j] != e,
        decreases ids@.len() - i,
    {
        if ids[i] == e {
            return true;
        }
        i = i + 1;
    }
    false
}

/// The next expert in the order of picking after those in `ids`.
fn next_pick(biased: &Vec<u32>, ids: &Vec<u32>) -> (res: u32)
    requires
        biased@.len() <= u32::MAX,
        exists|e: int| 0 <= e < biased@.len() && #[trigger] left_out(ids@, e),
    ensures
        res < biased@.len(),
        !ids@.contains(res),
        forall|e: int|
            0 <= e < biased@.len() && e != res && left_out(ids@, e) ==> #[trigger] picked_before(
                biased@,
                res as int,
                e,
            ),
{
    let mut best: usize = 0;
    let mut found = false;
    let mut i: usize = 0;
    while i < biased.len()
        invariant
            i <= biased@.len() <= u32::MAX,
            found ==> best < i && !ids@.contains(best as u32),
            !found ==> forall|e: int| 0 <= e < i ==> !#[trigger] left_out(ids@, e),
            found ==> forall|e: int|
                0 <= e < i && e != best && left_out(ids@, e) ==> #[trigger] picked_before(biased@, best as int, e),
        decreases biased@.len() - i,
    {
        let ghost (was, had) = (best as int, found);
        if !contains_id(ids, i as u32) {
            if !found {
                best = i;
                found = true;
            } else if order_key(biased[i]) > order_key(biased[best]) {
                best = i;
            }
        }
        proof {
            assert forall|e: int| found && 0 <= e < i + 1 && e != best && left_out(ids@, e) implies #[trigger] picked_before(
                biased@,
                best as int,
                e,
            ) by {
                if e < i && e != was && had {
                    assert(picked_before(biased@, was, e));
                }
            }
        }
        i = i + 1;
    }
    best as u32
}

/// Picks one token's `topk` experts by their biased scores.
pub fn select_experts(scores: &Vec<u32>, biased: &Vec<u32>, topk: usize) -> (res: Picked)
    requires
        scores@.len() == biased@.len(),
        biased@.len() <= u32::MAX,
        topk <= biased@.len(),
    ensures
        is_picked(scores@, biased@, topk as nat, res),
{
    let mut ids: Vec<u32> = Vec::new();
    let mut own: Vec<u32> = Vec::new();
    let mut i: usize = 0;
    while i < topk
        invariant
            i <= topk <= biased@.len(),
            biased@.len() <= u32::MAX,
            scores@.len() == biased@.len(),
            ids@.len() == i,
            is_selection(biased@, ids@),
            own@ == own_scores(scores@, ids@),
        decreases topk - i,
    {
        proof {
            lemma_some_expert_is_left(biased@.len(), ids@);
        }
        let e: u32 = next_pick(biased, &ids);
        let ghost before = ids@;
        ids.push(e);
        own.push(scores[e as usize]);
        proof {
            assert forall|p: int, q: int| 0 <= p < q < ids@.len() implies picked_before(
                biased@,
                #[trigger] ids@[p] as int,
                #[trigger] ids@[q] as int,
            ) by {
                if q == i {
                    assert(before[p] == ids@[p]);
                    assert(picked_before(biased@, before[p] as int, e as int));
                } else {
                    assert(before[p] == ids@[p] && before[q] == ids@[q]);
                }
            }
            assert forall|p: int, x: int|
                0 <= p < ids@.len() && 0 <= x < biased@.len() && left_out(ids@, x) implies #[trigger] picked_before(
                biased@,
                ids@[p] as int,
                x,
            ) by {
                assert(ids@[i as int] == e);
                if before.contains(x as u32) {
                    let j = choose|j: int| 0 <= j < before.len() && before[j] == x as u32;
                    assert(ids@[j] == x as u32);
                }
                if p < i {
                    assert(before[p] == ids@[p]);
                    assert(picked_before(biased@, before[p] as int, x));
                }
            }
            assert(own@ =~= own_scores(scores@, ids@));
        }
        i = i + 1;
    }
    Picked { ids, scores: own }
}

/// Fewer ids than experts leave an expert out.
proof fn lemma_some_expert_is_left(n: nat, ids: Seq<u32>)
    requires
        ids.len() < n <= u32::MAX,
    ensures
        exists|e: int| 0 <= e < n && #[trigger] left_out(ids, e),
    decreases n,
{
    if forall|e: int| 0 <= e < n ==> !#[trigger] left_out(ids, e) {
        let last = (n - 1) as u32;
        assert(!left_out(ids, n - 1));
        let p = choose|p: int| 0 <= p < ids.len() && ids[p] == last;
        let rest = ids.remove(p);
        lemma_some_expert_is_left_rest(n, ids, p);
        lemma_some_expert_is_left((n - 1) as nat, rest);
        let e = choose|e: int| 0 <= e < n - 1 && #[trigger] left_out(rest, e);
        assert(!left_out(rest, e));
    }
}

proof fn lemma_some_expert_is_left_rest(n: nat, ids: Seq<u32>, p: int)
    requires
        0 < n <= u32::MAX,
        0 <= p < ids.len(),
        ids[p] == n - 1,
        forall|e: int| 0 <= e < n ==> !#[trigger] left_out(ids, e),
    ensures
        ids.remove(p).len() == ids.len() - 1,
        forall|e: int| 0 <= e < n - 1 ==> !#[trigger] left_out(ids.remove(p), e),
{
    let rest = ids.remove(p);
    assert forall|e: int| 0 <= e < n - 1 implies !#[trigger] left_out(rest, e) by {
        assert(!left_out(ids, e));
        let q = choose|q: int| 0 <= q < ids.len() && ids[q] == e as u32;
        assert(q != p);
        if q < p {
            assert(rest[q] == e as u32);
        } else {
            assert(rest[q - 1] == e as u32);
        }
    }
}

/// A matrix of `rows` rows of `width`.
pub open spec fn is_matrix(m: Seq<Vec<u32>>, rows: nat, width: nat) -> bool {
    m.len() == rows && forall|r: int| 0 <= r < m.len() ==> (#[trigger] m[r])@.len() == width
}

/// Chooses each token's experts by score plus bias. `scores` are the sigmoid
/// scores of the logits and `biased` those plus the bias; the fused kernel
/// computes its own and reads neither.
pub fn moe_route(
    logits: &Operand,
    bias: &Operand,
    topk: usize,
    scores: &Vec<Vec<u32>>,
    biased: &Vec<Vec<u32>>,
) -> (res: Result<Routed, OpError>)
    requires
        logits.wf(),
        moe_route_error(*logits, *bias, topk) is None && !spec_route_is_fused(*logits, topk) ==> {
            &&& logits.dims@[1] <= u32::MAX
            &&& is_matrix(scores@, logits.dims@[0] as nat, logits.dims@[1] as nat)
            &&& is_matrix(biased@, logits.dims@[0] as nat, logits.dims@[1] as nat)
        },
    ensures
        match res {
            Ok(Routed::Fused { grid, outputs }) => {
                &&& moe_route_error(*logits, *bias, topk) is None
                &&& spec_route_is_fused(*logits, topk)
                &&& grid == logits.dims@[0]
                &&& outputs == logits.dims@[0] * 4
            },
            Ok(Routed::Rows(rows)) => {
                &&& moe_route_error(*logits, *bias, topk) is None
                &&& !spec_route_is_fused(*logits, topk)
                &&& rows@.len() == logits.dims@[0]
                &&& forall|r: int|
                    0 <= r < rows@.len() ==> is_picked(scores@[r]@, biased@[r]@, topk as nat, #[trigger] rows@[r])
            },
            Err(e) => moe_route_error(*logits, *bias, topk) == Some(e),
        },
{
    if logits.dims.len() != 2 {
        return Err(OpError::Rank);
    }
    let rows: usize = logits.dims[0];
    let experts: usize = logits.dims[1];
    if rows == 0 || topk == 0 || topk > experts {
        return Err(OpError::Invalid);
    }
    if bias.dims.len() != 1 {
        return Err(OpError::Rank);
    }
    if bias.dims[0] != experts || logits.dtype != DType::F32 || bias.dtype != DType::F32
        || !logits.device.same_device(&bias.device) {
        return Err(OpError::Invalid);
    }
    if route_is_fused(logits, topk) {
        if rows > u32::MAX as usize {
            return Err(OpError::TooManyRows);
        }
        proof {
            tensor::lemma_elements(logits.dims@);
        }
        return Ok(Routed::Fused { grid: rows as u32, outputs: rows * 4 });
    }
    let mut out: Vec<Picked> = Vec::new();
    let mut r: usize = 0;
    while r < rows
        invariant
            r <= rows,
            topk <= experts <= u32::MAX,
            is_matrix(scores@, rows as nat, experts as nat),
            is_matrix(biased@, rows as nat, experts as nat),
            out@.len() == r,
            forall|q: int| 0 <= q < r ==> is_picked(scores@[q]@, biased@[q]@, topk as nat, #[trigger] out@[q]),
        decreases rows - r,
    {
        proof {
            assert(scores@[r as int]@.len() == experts);
            assert(biased@[r as int]@.len() == experts);
        }
        out.push(select_experts(&scores[r], &biased[r], topk));
        r = r + 1;
    }
    Ok(Routed::Rows(out))
}

/// Law: biased scores determine the picked experts and their order.
pub proof fn law_selection_is_unique(biased: Seq<u32>, a: Seq<u32>, b: Seq<u32>)
    requires
        biased.len() <= u32::MAX,
        a.len() == b.len(),
        is_selection(biased, a),
        is_selection(biased, b),
    ensures
        a == b,
{
    assert forall|p: int| 0 <= p < a.len() implies a[p] == b[p] by {
        lemma_selection_agrees(biased, a, b, p);
    }
    assert(a =~= b);
}

proof fn lemma_selection_agrees(biased: Seq<u32>, a: Seq<u32>, b: Seq<u32>, p: int)
    requires
        biased.len() <= u32::MAX,
        a.len() == b.len(),
        is_selection(biased, a),
        is_selection(biased, b),
        0 <= p < a.len(),
    ensures
        a[p] == b[p],
    decreases p,
{
    assert forall|q: int| 0 <= q < p implies a[q] == b[q] by {
        lemma_selection_agrees(biased, a, b, q);
    }
    if a[p] != b[p] {
        lemma_comes_first(biased, b, a, p);
        lemma_comes_first(biased, a, b, p);
    }
}

/// With equal heads, `a[p]` is picked before `b[p]` unless they are the same.
proof fn lemma_comes_first(biased: Seq<u32>, a: Seq<u32>, b: Seq<u32>, p: int)
    requires
        is_selection(biased, a),
        is_selection(biased, b),
        a.len() == b.len(),
        0 <= p < a.len(),
        a[p] != b[p],
        forall|q: int| 0 <= q < p ==> a[q] == b[q],
    ensures
        picked_before(biased, a[p] as int, b[p] as int),
{
    let e = b[p];
    assert(e < biased.len());
    if a.contains(e) {
        let q = choose|q: int| 0 <= q < a.len() && a[q] == e;
        if q < p {
            assert(b[q] == e);
            assert(picked_before(biased, b[q] as int, b[p] as int));
        } else {
            assert(picked_before(biased, a[p] as int, a[q] as int));
        }
    } else {
        assert(picked_before(biased, a[p] as int, e as int));
    }
}

/// Law: no expert is picked twice.
pub proof fn law_picked_experts_differ(biased: Seq<u32>, ids: Seq<u32>, p: int, q: int)
    requires
        is_selection(biased, ids),
        0 <= p < q < ids.len(),
    ensures
        ids[p] != ids[q],
{
    assert(picked_before(biased, ids[p] as int, ids[q] as int));
}

/// Law: an expert below all others is out, unless all are used.
pub proof fn law_lowest_expert_is_knocked_out(biased: Seq<u32>, ids: Seq<u32>, e: int)
    requires
        is_selection(biased, ids),
        ids.len() < biased.len() <= u32::MAX,
        0 <= e < biased.len(),
        forall|x: int|
            0 <= x < biased.len() && x != e ==> ieee::spec_order_key(biased[e]) < ieee::spec_order_key(
                #[trigger] biased[x],
            ),
    ensures
        left_out(ids, e),
{
    if ids.contains(e as u32) {
        let p = choose|p: int| 0 <= p < ids.len() && ids[p] == e as u32;
        lemma_some_expert_is_left(biased.len(), ids);
        let x = choose|x: int| 0 <= x < biased.len() && #[trigger] left_out(ids, x);
        assert(picked_before(biased, ids[p] as int, x));
        assert(ieee::spec_order_key(biased[e]) < ieee::spec_order_key(biased[x]));
    }
}

/// Law: an expert above all others is picked first.
pub proof fn law_highest_expert_is_forced_in(biased: Seq<u32>, ids: Seq<u32>, e: int)
    requires
        is_selection(biased, ids),
        ids.len() > 0,
        biased.len() <= u32::MAX,
        0 <= e < biased.len(),
        forall|x: int|
            0 <= x < biased.len() && x != e ==> ieee::spec_order_key(biased[e]) > ieee::spec_order_key(
                #[trigger] biased[x],
            ),
    ensures
        ids[0] == e,
{
    let first = ids[0] as int;
    assert(ids[0] < biased.len());
    if first != e {
        assert(ieee::spec_order_key(biased[e]) > ieee::spec_order_key(biased[first]));
        if ids.contains(e as u32) {
            let p = choose|p: int| 0 <= p < ids.len() && ids[p] == e as u32;
            assert(picked_before(biased, ids[0] as int, ids[p] as int));
        } else {
            assert(picked_before(biased, ids[0] as int, e));
        }
    }
}

/// Law: a bias selects and never weights. Two biased rows that pick the same
/// experts give them the same scores.
pub proof fn law_bias_does_not_weight(scores: Seq<u32>, one: Seq<u32>, other: Seq<u32>, topk: nat, a: Picked, b: Picked)
    requires
        is_picked(scores, one, topk, a),
        is_picked(scores, other, topk, b),
        a.ids@ == b.ids@,
    ensures
        a.scores@ == b.scores@,
        forall|p: int| 0 <= p < topk ==> #[trigger] a.scores@[p] == scores[a.ids@[p] as int],
{
}

/// Which form runs, and what it fills: `n` elements in one kernel, or the
/// tensor expression.
#[derive(Clone, Copy, PartialEq, Eq, Structural, Debug)]
pub enum Form {
    Fused { n: usize },
    Decomposed,
}

pub open spec fn moe_combine_error(outputs: Operand, weights: Operand) -> Option<OpError> {
    if outputs.dims@.len() != 3 {
        Some(OpError::Rank)
    } else if outputs.dims@[0] == 0 || outputs.dims@[1] == 0 || outputs.dims@[2] == 0 || weights.dims@ != seq![
        outputs.dims@[0],
        outputs.dims@[1],
    ] || outputs.dtype != DType::F32 || weights.dtype != DType::F32 || outputs.device != weights.device {
        Some(OpError::Invalid)
    } else {
        None
    }
}

/// What a combination gives: its dimensions, and how they are filled.
#[derive(PartialEq, Eq, Debug)]
pub struct Combined {
    pub dims: Vec<usize>,
    pub form: Form,
}

/// Weights and sums expert outputs `(tokens, topk, hidden)` into
/// `(tokens, hidden)`; [`crate::elements::combine_term`] says which output and
/// weight each slot adds to an element.
pub fn moe_combine(outputs: &Operand, weights: &Operand) -> (res: Result<Combined, OpError>)
    requires
        outputs.wf(),
    ensures
        match res {
            Ok(c) => {
                &&& moe_combine_error(*outputs, *weights) is None
                &&& c.dims@ == seq![outputs.dims@[0], outputs.dims@[2]]
                &&& c.form == (if outputs.device.spec_is_rocm() && outputs.dims@[1] == 4 {
                    Form::Fused { n: (outputs.dims@[0] * outputs.dims@[2]) as usize }
                } else {
                    Form::Decomposed
                })
                &&& outputs.dims@[0] * outputs.dims@[2] <= usize::MAX
            },
            Err(e) => moe_combine_error(*outputs, *weights) == Some(e),
        },
{
    if outputs.dims.len() != 3 {
        return Err(OpError::Rank);
    }
    let rows: usize = outputs.dims[0];
    let topk: usize = outputs.dims[1];
    let hidden: usize = outputs.dims[2];
    if rows == 0 || topk == 0 || hidden == 0 || weights.dims.len() != 2 || weights.dims[0] != rows || weights.dims[1]
        != topk || outputs.dtype != DType::F32 || weights.dtype != DType::F32 || !outputs.device.same_device(
        &weights.device,
    ) {
        proof {
            let want = seq![outputs.dims@[0], outputs.dims@[1]];
            if weights.dims@ == want {
                assert(weights.dims@.len() == 2);
                assert(weights.dims@[0] == rows && weights.dims@[1] == topk);
            }
        }
        return Err(OpError::Invalid);
    }
    proof {
        assert(weights.dims@ =~= seq![outputs.dims@[0], outputs.dims@[1]]);
        tensor::lemma_elements(outputs.dims@);
        assert(rows * hidden <= rows * topk * hidden) by (nonlinear_arith)
            requires
                rows > 0,
                topk > 0,
                hidden > 0,
        ;
    }
    let mut dims: Vec<usize> = Vec::new();
    dims.push(rows);
    dims.push(hidden);
    proof {
        assert(dims@ =~= seq![outputs.dims@[0], outputs.dims@[2]]);
    }
    let form = if outputs.device.is_rocm() && topk == 4 {
        Form::Fused { n: rows * hidden }
    } else {
        Form::Decomposed
    };
    Ok(Combined { dims, form })
}

pub open spec fn short_conv_step_error(input: Operand, weight: Operand, previous: Operand) -> Option<OpError> {
    if input.dims@.len() != 3 || weight.dims@.len() != 2 {
        Some(OpError::Rank)
    } else {
        let (b, h, k) = (input.dims@[0], weight.dims@[0], weight.dims@[1]);
        if input.dims@[1] != 1 || h == 0 || k == 0 || b == 0 || input.dims@[2] != 3 * h || previous.dims@ != seq![b, h, k]
            || input.dtype != DType::F32 || weight.dtype != DType::F32 || previous.dtype != DType::F32 || weight.device
            != input.device || previous.device != input.device {
            Some(OpError::Invalid)
        } else {
            None
        }
    }
}

/// How a convolution step runs. The fused kernel fills one buffer: the outputs
/// in its first `split` elements, the next states in the rest.
#[derive(Clone, Copy, PartialEq, Eq, Structural, Debug)]
pub enum StepForm {
    Fused { n: usize, split: usize },
    Decomposed,
}

/// What a convolution step gives: outputs `(batch, 1, hidden)` and next states
/// `(batch, hidden, k)`, of as many rows as there are channels over all tokens.
#[derive(PartialEq, Eq, Debug)]
pub struct ConvStep {
    pub out: Vec<usize>,
    pub next: Vec<usize>,
    /// Rows of [`short_conv_rows`].
    pub rows: usize,
    pub form: StepForm,
}

/// One gated convolution step: input `(batch, 1, 3 * hidden)`, weights
/// `(hidden, k)`, previous states `(batch, hidden, k)`, which stay untouched.
/// Its rows are the channels token by token: [`crate::elements::step_channel`]
/// says where a row's inputs stand, and [`short_conv_rows`] what it reads and
/// keeps.
pub fn short_conv_step(input: &Operand, weight: &Operand, previous: &Operand) -> (res: Result<ConvStep, OpError>)
    requires
        previous.wf(),
        input.device.spec_is_rocm() && previous.dims@.len() == 3 ==> previous.dims@[0] * previous.dims@[1] * (
        previous.dims@[2] + 1) <= usize::MAX,
    ensures
        match res {
            Ok(step) => {
                let (b, h, k) = (previous.dims@[0], previous.dims@[1], previous.dims@[2]);
                &&& short_conv_step_error(*input, *weight, *previous) is None
                &&& step.out@ == seq![b, 1, h]
                &&& step.next@ == seq![b, h, k]
                &&& step.rows == b * h
                &&& step.form == (if input.device.spec_is_rocm() {
                    StepForm::Fused { n: (b * h * (k + 1)) as usize, split: (b * h) as usize }
                } else {
                    StepForm::Decomposed
                })
            },
            Err(e) => short_conv_step_error(*input, *weight, *previous) == Some(e),
        },
{
    if input.dims.len() != 3 || weight.dims.len() != 2 {
        return Err(OpError::Rank);
    }
    let b: usize = input.dims[0];
    let h: usize = weight.dims[0];
    let k: usize = weight.dims[1];
    let triple = match h.checked_mul(3) {
        Some(n) => n == input.dims[2],
        None => false,
    };
    if input.dims[1] != 1 || h == 0 || k == 0 || b == 0 || !triple || previous.dims.len() != 3 || previous.dims[0] != b
        || previous.dims[1] != h || previous.dims[2] != k || input.dtype != DType::F32 || weight.dtype != DType::F32
        || previous.dtype != DType::F32 || !weight.device.same_device(&input.device) || !previous.device.same_device(
        &input.device,
    ) {
        proof {
            let want = seq![b, h, k];
            if previous.dims@ == want {
                assert(previous.dims@.len() == 3);
                assert(previous.dims@[0] == b && previous.dims@[1] == h && previous.dims@[2] == k);
            }
        }
        return Err(OpError::Invalid);
    }
    proof {
        assert(previous.dims@ =~= seq![b, h, k]);
        tensor::lemma_elements(previous.dims@);
        assert(b * h <= b * h * k) by (nonlinear_arith)
            requires
                b > 0,
                h > 0,
                k > 0,
        ;
    }
    let rows: usize = b * h;
    let mut out: Vec<usize> = Vec::new();
    out.push(b);
    out.push(1);
    out.push(h);
    let mut next: Vec<usize> = Vec::new();
    next.push(b);
    next.push(h);
    next.push(k);
    proof {
        assert(out@ =~= seq![b, 1, h]);
        assert(next@ =~= seq![b, h, k]);
    }
    let form = if input.device.is_rocm() {
        proof {
            assert(k + 1 <= b * h * (k + 1)) by (nonlinear_arith)
                requires
                    b > 0,
                    h > 0,
                    k > 0,
            ;
        }
        StepForm::Fused { n: rows * (k + 1), split: rows }
    } else {
        StepForm::Decomposed
    };
    Ok(ConvStep { out, next, rows, form })
}

/// Law: what a fused step returns are two ranges of one buffer that share no
/// element and leave none out: the outputs, and the states after them.
pub proof fn law_step_ranges_partition_the_buffer(b: nat, h: nat, k: nat)
    ensures
        b * h + b * h * k == b * h * (k + 1),
{
    assert(b * h + b * h * k == b * h * (k + 1)) by (nonlinear_arith);
}

/// What one channel's state becomes with a new gated input: the oldest of its
/// inputs goes, the new one comes last.
pub open spec fn stepped<C>(previous: Seq<C>, gated: C) -> Seq<C> {
    previous.skip(1).push(gated)
}

/// What a convolution step reads and keeps: per row, the inputs that the output
/// weighs, and the next state. `previous` holds a state of `k` inputs per row,
/// and `gated` each row's new input.
pub fn short_conv_rows<C: Copy>(previous: &Vec<Vec<C>>, gated: &Vec<C>) -> (res: (Vec<Vec<C>>, Vec<Vec<C>>))
    requires
        previous@.len() == gated@.len(),
        forall|i: int| 0 <= i < previous@.len() ==> (#[trigger] previous@[i])@.len() > 0,
    ensures
        res.0@.len() == previous@.len(),
        res.1@.len() == previous@.len(),
        forall|i: int| 0 <= i < previous@.len() ==> (#[trigger] res.0@[i])@ == stepped(previous@[i]@, gated@[i]),
        forall|i: int| 0 <= i < previous@.len() ==> (#[trigger] res.1@[i])@ == stepped(previous@[i]@, gated@[i]),
{
    let mut reads: Vec<Vec<C>> = Vec::new();
    let mut next: Vec<Vec<C>> = Vec::new();
    let mut i: usize = 0;
    while i < previous.len()
        invariant
            i <= previous@.len() == gated@.len(),
            forall|j: int| 0 <= j < previous@.len() ==> (#[trigger] previous@[j])@.len() > 0,
            reads@.len() == i,
            next@.len() == i,
            forall|j: int| 0 <= j < i ==> (#[trigger] reads@[j])@ == stepped(previous@[j]@, gated@[j]),
            forall|j: int| 0 <= j < i ==> (#[trigger] next@[j])@ == stepped(previous@[j]@, gated@[j]),
        decreases previous@.len() - i,
    {
        let mut column: Vec<C> = Vec::new();
        column.push(gated[i]);
        let (mut windows, kept) = convolve_row(&previous[i], &column);
        proof {
            assert(column@ =~= seq![gated@[i as int]]);
            law_step_reads_what_it_keeps(previous@[i as int]@, gated@[i as int]);
            let all = conv::views(windows@);
            assert(all.len() == 1);
            assert(windows@[0]@ == all[0]);
        }
        reads.push(windows.remove(0));
        next.push(kept);
        i = i + 1;
    }
    (reads, next)
}

/// Law: a step keeps exactly the inputs it read. The window of its one output
/// is the history it leaves, the previous one without its oldest column and
/// with the new one; so a step agrees with a longer convolution of one position.
pub proof fn law_step_reads_what_it_keeps<C>(history: Seq<C>, column: C)
    requires
        history.len() > 0,
    ensures
        conv::windows(history, seq![column], history.len()) == seq![stepped(history, column)],
        conv::next_history(history, seq![column]) == stepped(history, column),
{
    let bx = seq![column];
    let k = history.len();
    assert(conv::next_history(history, bx) =~= stepped(history, column));
    assert(conv::window(history, bx, k, 0) =~= stepped(history, column));
    assert(conv::windows(history, bx, k) =~= seq![stepped(history, column)]);
}

/// Law: steps one by one come to what a convolution of several positions comes
/// to. Where a history has taken in `bx`, a step with the next input reads the
/// window of that position and leaves the history of the longer run.
pub proof fn law_steps_agree_with_a_longer_convolution<C>(history: Seq<C>, bx: Seq<C>, column: C)
    requires
        history.len() > 0,
    ensures
        stepped(conv::next_history(history, bx), column) == conv::next_history(history, bx.push(column)),
        stepped(conv::next_history(history, bx), column) == conv::window(
            history,
            bx.push(column),
            history.len(),
            bx.len() as int,
        ),
{
    let mid = conv::next_history(history, bx);
    let all = bx.push(column);
    assert(stepped(mid, column) =~= conv::next_history(history, all));
    assert(stepped(mid, column) =~= conv::window(history, all, history.len(), bx.len() as int));
}

pub open spec fn swiglu_error(input: Operand) -> Option<OpError> {
    if input.dims@.len() == 0 {
        Some(OpError::Rank)
    } else if tensor::elements(input.dims@) == 0 || input.dims@.last() % 2 != 0 || input.dtype != DType::F32 {
        Some(OpError::Invalid)
    } else {
        None
    }
}

/// Dimensions of what the gated activation gives: half the width.
pub open spec fn halved(dims: Seq<usize>) -> Seq<usize> {
    dims.update(dims.len() - 1, dims.last() / 2)
}

#[derive(Debug)]
pub struct Gated {
    pub dims: Vec<usize>,
    pub form: Form,
}

/// Gates the first half of each row by its second half;
/// [`crate::elements::gated_term`] says which two elements make one.
pub fn swiglu(input: &Operand) -> (res: Result<Gated, OpError>)
    requires
        input.wf(),
    ensures
        match res {
            Ok(g) => {
                &&& swiglu_error(*input) is None
                &&& g.dims@ == halved(input.dims@)
                &&& g.form == (if input.device.spec_is_rocm() {
                    Form::Fused { n: (tensor::elements(input.dims@) / 2) as usize }
                } else {
                    Form::Decomposed
                })
            },
            Err(e) => swiglu_error(*input) == Some(e),
        },
{
    if input.dims.len() == 0 {
        return Err(OpError::Rank);
    }
    let last: usize = input.dims.len() - 1;
    let width: usize = input.dims[last];
    let count: usize = elem_count(&input.dims);
    proof {
        if width == 0 {
            assert(tensor::elements(input.dims@.drop_last()) * 0 == 0) by (nonlinear_arith);
        }
    }
    if count == 0 || width == 0 || width % 2 != 0 || input.dtype != DType::F32 {
        return Err(OpError::Invalid);
    }
    let mut dims = crate::conv::copied(&input.dims);
    dims.set(last, width / 2);
    let form = if input.device.is_rocm() {
        Form::Fused { n: count / 2 }
    } else {
        Form::Decomposed
    };
    Ok(Gated { dims, form })
}

/// Law: the gated activation fills what its dimensions hold: half the elements.
pub proof fn law_gating_halves_the_elements(dims: Seq<usize>)
    requires
        dims.len() > 0,
        dims.last() % 2 == 0,
    ensures
        tensor::elements(halved(dims)) * 2 == tensor::elements(dims),
{
    assert(halved(dims).drop_last() =~= dims.drop_last());
    let e = tensor::elements(dims.drop_last()) as int;
    let w = dims.last() as int;
    assert((e * (w / 2)) * 2 == e * w) by (nonlinear_arith)
        requires
            w % 2 == 0,
    ;
}

/// Law: logits are routed exactly when they are `(rows, experts)` with a bias of
/// one number per expert, both single precision on one device, there is a row,
/// and some and at most all experts are used. The fused kernel serves 32 experts
/// of which 4 are used, for as many rows as a grid has.
pub proof fn law_routing_takes(logits: Operand, bias: Operand, topk: usize)
    ensures
        ({
            let e = moe_route_error(logits, bias, topk);
            let rows = logits.dims@[0];
            let experts = logits.dims@[1];
            let asked = logits.dims@.len() == 2 && rows >= 1 && 1 <= topk <= experts;
            let fits = asked && bias.dims@ == seq![experts] && logits.dtype == DType::F32 && bias.dtype == DType::F32
                && logits.device == bias.device;
            let fused = logits.device is Rocm && experts == 32 && topk == 4;
            &&& spec_route_is_fused(logits, topk) <==> fused
            &&& e is None <==> fits && (fused ==> rows <= 0xffff_ffff)
            &&& e == Some(OpError::Rank) <==> logits.dims@.len() != 2 || (asked && bias.dims@.len() != 1)
            &&& e == Some(OpError::TooManyRows) <==> fits && fused && rows > 0xffff_ffff
        }),
{
    let experts = logits.dims@[1];
    if bias.dims@.len() == 1 && bias.dims@[0] == experts {
        assert(bias.dims@ =~= seq![experts]);
    }
    if bias.dims@ == seq![experts] {
        assert(bias.dims@.len() == 1 && bias.dims@[0] == experts);
    }
}

/// Law: picked experts come by falling biased score, as numbers; equal scores by
/// rising number; and an expert that is left out has no greater score than any
/// that is picked, nor an equal one and a lower number.
pub proof fn law_experts_come_by_falling_score(biased: Seq<u32>, ids: Seq<u32>, p: int, q: int, e: int)
    requires
        is_selection(biased, ids),
        0 <= p < q < ids.len(),
        0 <= e < biased.len() <= u32::MAX,
        forall|r: int| 0 <= r < ids.len() ==> #[trigger] ids[r] != e,
    ensures
        ({
            let score = |x: int| ieee::number(biased[x]);
            let (a, b) = (ids[p] as int, ids[q] as int);
            &&& 0 <= a < biased.len() && 0 <= b < biased.len() && a != b
            &&& score(a) > score(b) || (score(a) == score(b) && a < b)
            &&& score(b) > score(e) || (score(b) == score(e) && b < e)
        }),
{
    let (a, b) = (ids[p] as int, ids[q] as int);
    assert(ids[p] < biased.len() && ids[q] < biased.len());
    assert(picked_before(biased, ids[p] as int, ids[q] as int));
    if ids.contains(e as u32) {
        let r = choose|r: int| 0 <= r < ids.len() && ids[r] == e as u32;
        assert(ids[r] != e);
    }
    assert(left_out(ids, e));
    assert(picked_before(biased, ids[q] as int, e));
    ieee::law_keys_order_as_the_numbers_do(biased[b], biased[a]);
    ieee::law_keys_order_as_the_numbers_do(biased[e], biased[b]);
}

/// Law: ids that come in that order, each expert at most once, are the selection.
pub proof fn law_falling_scores_are_the_selection(biased: Seq<u32>, ids: Seq<u32>)
    requires
        biased.len() <= u32::MAX,
        forall|p: int| 0 <= p < ids.len() ==> #[trigger] ids[p] < biased.len(),
        forall|p: int, q: int|
            0 <= p < q < ids.len() ==> ieee::number(biased[#[trigger] ids[p] as int]) > ieee::number(
                biased[#[trigger] ids[q] as int],
            ) || (ieee::number(biased[ids[p] as int]) == ieee::number(biased[ids[q] as int]) && ids[p] < ids[q]),
        forall|p: int, e: int|
            0 <= p < ids.len() && 0 <= e < biased.len() && !ids.contains(e as u32) ==> ieee::number(
                biased[#[trigger] ids[p] as int],
            ) > ieee::number(#[trigger] biased[e]) || (ieee::number(biased[ids[p] as int]) == ieee::number(biased[e])
                && ids[p] < e),
    ensures
        is_selection(biased, ids),
{
    assert forall|p: int, q: int| 0 <= p < q < ids.len() implies picked_before(
        biased,
        #[trigger] ids[p] as int,
        #[trigger] ids[q] as int,
    ) by {
        ieee::law_keys_order_as_the_numbers_do(biased[ids[q] as int], biased[ids[p] as int]);
    }
    assert forall|p: int, e: int|
        0 <= p < ids.len() && 0 <= e < biased.len() && left_out(ids, e) implies #[trigger] picked_before(
        biased,
        ids[p] as int,
        e,
    ) by {
        let (a, b) = (biased[ids[p] as int], biased[e]);
        ieee::law_keys_order_as_the_numbers_do(b, a);
        assert(ieee::number(a) > ieee::number(b) || (ieee::number(a) == ieee::number(b) && ids[p] < e));
    }
}

/// Law: a routing gives every token `topk` experts, each with the score that
/// the token gave this expert.
pub proof fn law_picked_scores_are_their_own(scores: Seq<u32>, biased: Seq<u32>, topk: nat, picked: Picked, p: int)
    requires
        is_picked(scores, biased, topk, picked),
        0 <= p < topk,
    ensures
        picked.ids@.len() == topk,
        picked.scores@.len() == topk,
        picked.scores@[p] == scores[picked.ids@[p] as int],
        is_selection(biased, picked.ids@),
{
}

/// Law: expert outputs are combined exactly when they are `(rows, topk, hidden)`
/// and the weights `(rows, topk)`, nothing empty, both single precision on one
/// device.
pub proof fn law_combination_takes(outputs: Operand, weights: Operand)
    ensures
        moe_combine_error(outputs, weights) is None <==> {
            &&& outputs.dims@.len() == 3
            &&& outputs.dims@[0] > 0 && outputs.dims@[1] > 0 && outputs.dims@[2] > 0
            &&& weights.dims@.len() == 2
            &&& weights.dims@[0] == outputs.dims@[0] && weights.dims@[1] == outputs.dims@[1]
            &&& outputs.dtype == DType::F32 && weights.dtype == DType::F32
            &&& outputs.device == weights.device
        },
        moe_combine_error(outputs, weights) == Some(OpError::Rank) <==> outputs.dims@.len() != 3,
        moe_combine_error(outputs, weights) matches Some(e) ==> e is Rank || e is Invalid,
{
    let want = seq![outputs.dims@[0], outputs.dims@[1]];
    if weights.dims@.len() == 2 && weights.dims@[0] == want[0] && weights.dims@[1] == want[1] {
        assert(weights.dims@ =~= want);
    }
    if weights.dims@ == want {
        assert(weights.dims@.len() == 2 && weights.dims@[0] == want[0] && weights.dims@[1] == want[1]);
    }
}

/// Law: a convolution step is taken exactly when the input is `(batch, 1, 3 *
/// hidden)`, the weights `(hidden, k)` and the states `(batch, hidden, k)`,
/// nothing empty, all single precision on one device.
pub proof fn law_steps_take(input: Operand, weight: Operand, previous: Operand)
    ensures
        short_conv_step_error(input, weight, previous) is None <==> {
            &&& input.dims@.len() == 3 && weight.dims@.len() == 2 && previous.dims@.len() == 3
            &&& previous.dims@[0] > 0 && previous.dims@[1] > 0 && previous.dims@[2] > 0
            &&& input.dims@[0] == previous.dims@[0]
            &&& input.dims@[1] == 1
            &&& input.dims@[2] == previous.dims@[1] + previous.dims@[1] + previous.dims@[1]
            &&& weight.dims@[0] == previous.dims@[1] && weight.dims@[1] == previous.dims@[2]
            &&& input.dtype == DType::F32 && weight.dtype == DType::F32 && previous.dtype == DType::F32
            &&& input.device == weight.device && input.device == previous.device
        },
        short_conv_step_error(input, weight, previous) == Some(OpError::Rank) <==> input.dims@.len() != 3
            || weight.dims@.len() != 2,
        short_conv_step_error(input, weight, previous) matches Some(e) ==> e is Rank || e is Invalid,
{
    let want = seq![input.dims@[0], weight.dims@[0], weight.dims@[1]];
    if previous.dims@.len() == 3 && previous.dims@[0] == want[0] && previous.dims@[1] == want[1] && previous.dims@[2]
        == want[2] {
        assert(previous.dims@ =~= want);
    }
    if previous.dims@ == want {
        assert(previous.dims@.len() == 3 && previous.dims@[0] == want[0] && previous.dims@[1] == want[1]
            && previous.dims@[2] == want[2]);
    }
}

/// Law: rows are gated exactly when there are any, of an even width, in single
/// precision; every dimension but the last is kept, and that is halved.
pub proof fn law_gating_takes(input: Operand, i: int)
    ensures
        swiglu_error(input) is None <==> {
            &&& input.dims@.len() >= 1
            &&& tensor::elements(input.dims@) > 0
            &&& exists|half: int| input.dims@.last() == #[trigger] (half + half)
            &&& input.dtype == DType::F32
        },
        swiglu_error(input) == Some(OpError::Rank) <==> input.dims@.len() == 0,
        input.dims@.len() > 0 ==> halved(input.dims@).len() == input.dims@.len(),
        0 <= i < input.dims@.len() - 1 ==> halved(input.dims@)[i] == input.dims@[i],
        swiglu_error(input) is None ==> 2 * halved(input.dims@).last() == input.dims@.last(),
{
    if input.dims@.len() > 0 {
        let width = input.dims@.last() as int;
        if width % 2 == 0 {
            let half = width / 2;
            assert(input.dims@.last() == half + half);
        }
        if exists|half: int| input.dims@.last() == #[trigger] (half + half) {
            let half = choose|half: int| input.dims@.last() == #[trigger] (half + half);
            assert(width == half + half);
        }
    }
}

/// Law: a step forgets the oldest input and appends the new one; every other
/// moves one place towards the front.
pub proof fn law_steps_shift_by_one<C>(previous: Seq<C>, gated: C, j: int)
    requires
        previous.len() > 0,
        0 <= j < previous.len(),
    ensures
        stepped(previous, gated).len() == previous.len(),
        stepped(previous, gated)[j] == (if j == previous.len() - 1 {
            gated
        } else {
            previous[j + 1]
        }),
{
}

/// Law: the fused routing kernel spells in its name the experts and the used
/// ones that it serves, and one warp routes a row; the combining kernel spells
/// the slots it sums.
pub proof fn law_fused_kernels_spell_their_counts(logits: Operand, topk: usize)
    requires
        spec_route_is_fused(logits, topk),
    ensures
        ROUTE_KERNEL@ == "lfm2_route_"@ + gguf::decimal(logits.dims@[1] as nat) + "_"@ + gguf::decimal(topk as nat),
        COMBINE_KERNEL@ == "lfm2_combine_"@ + gguf::decimal(topk as nat),
        STEP_KERNEL@ == "lfm2_conv_step"@,
        SWIGLU_KERNEL@ == "lfm2_swiglu"@,
        ROUTE_BLOCK == 32,
{
    reveal_strlit("lfm2_route_32_4");
    reveal_strlit("lfm2_route_");
    reveal_strlit("_");
    reveal_strlit("lfm2_combine_4");
    reveal_strlit("lfm2_combine_");
    reveal_with_fuel(gguf::decimal, 2);
    assert(gguf::decimal(3) =~= seq!['3']);
    assert(gguf::decimal(32) =~= seq!['3', '2']);
    assert(gguf::decimal(4) =~= seq!['4']);
    assert(ROUTE_KERNEL@ =~= "lfm2_route_"@ + gguf::decimal(32) + "_"@ + gguf::decimal(4));
    assert(COMBINE_KERNEL@ =~= "lfm2_combine_"@ + gguf::decimal(4));
}

/// Law: whatever a routing gives row `r` where it is not fused, it picks `topk`
/// experts by falling biased score and lower number, gives each its own score,
/// and leaves out none that comes before one it picks. A fused one has a block
/// per row and four results each.
pub proof fn law_routed_rows_pick_the_greatest(
    logits: Operand,
    bias: Operand,
    topk: usize,
    scores: Vec<Vec<u32>>,
    biased: Vec<Vec<u32>>,
    routed: Result<Routed, OpError>,
    r: int,
    p: int,
    q: int,
    e: int,
)
    requires
        call_ensures(moe_route, (&logits, &bias, topk, &scores, &biased), routed),
        0 <= r < logits.dims@[0],
        0 <= p < q < topk,
        biased@[r]@.len() <= u32::MAX,
    ensures
        routed matches Ok(Routed::Fused { grid, outputs }) ==> {
            &&& logits.device is Rocm && logits.dims@[1] == 32 && topk == 4
            &&& grid == logits.dims@[0]
            &&& outputs == topk * logits.dims@[0]
        },
        routed matches Ok(Routed::Rows(rows)) ==> ({
            let ids = rows@[r].ids@;
            let score = |x: int| ieee::number(biased@[r]@[x]);
            &&& !(logits.device is Rocm && logits.dims@[1] == 32 && topk == 4)
            &&& rows@.len() == logits.dims@[0]
            &&& ids.len() == topk && rows@[r].scores@.len() == topk
            &&& rows@[r].scores@[p] == scores@[r]@[ids[p] as int]
            &&& score(ids[p] as int) > score(ids[q] as int) || (score(ids[p] as int) == score(ids[q] as int) && ids[p]
                < ids[q])
            &&& 0 <= e < biased@[r]@.len() && (forall|x: int| 0 <= x < topk ==> #[trigger] ids[x] != e) ==> score(
                ids[q] as int,
            ) > score(e) || (score(ids[q] as int) == score(e) && ids[q] < e)
        }),
{
    if let Ok(Routed::Rows(rows)) = routed {
        let ids = rows@[r].ids@;
        assert(is_picked(scores@[r]@, biased@[r]@, topk as nat, rows@[r]));
        assert(picked_before(biased@[r]@, ids[p] as int, ids[q] as int));
        ieee::law_keys_order_as_the_numbers_do(biased@[r]@[ids[q] as int], biased@[r]@[ids[p] as int]);
        if 0 <= e < biased@[r]@.len() && (forall|x: int| 0 <= x < topk ==> #[trigger] ids[x] != e) {
            law_experts_come_by_falling_score(biased@[r]@, ids, p, q, e);
        }
    } else if let Ok(Routed::Fused { grid, outputs }) = routed {
        assert(logits.dims@[0] * 4 == 4 * logits.dims@[0]);
    }
}

/// Law: whatever a combination gives is `(rows, hidden)`, filled by one kernel
/// exactly on the accelerator where a token has four slots.
pub proof fn law_combined_rows_keep_their_width(outputs: Operand, weights: Operand, got: Result<Combined, OpError>)
    requires
        call_ensures(moe_combine, (&outputs, &weights), got),
    ensures
        got matches Ok(c) ==> {
            &&& outputs.dims@.len() == 3 && c.dims@.len() == 2
            &&& c.dims@[0] == outputs.dims@[0] && c.dims@[1] == outputs.dims@[2]
            &&& c.form is Fused <==> outputs.device is Rocm && outputs.dims@[1] == 4
            &&& c.form matches Form::Fused { n } ==> n == outputs.dims@[0] * outputs.dims@[2]
        },
        got is Ok <==> moe_combine_error(outputs, weights) is None,
{
}

/// Law: whatever a convolution step gives, the outputs are `(batch, 1, hidden)`
/// and the next states shaped as the previous ones; a fused step, on the
/// accelerator only, fills both in one buffer, the outputs first.
pub proof fn law_steps_keep_the_state_shape(input: Operand, weight: Operand, previous: Operand, got: Result<ConvStep, OpError>)
    requires
        call_ensures(short_conv_step, (&input, &weight, &previous), got),
        input.device is Rocm && previous.dims@.len() == 3 ==> previous.dims@[0] * previous.dims@[1] * (previous.dims@[2] + 1)
            <= usize::MAX,
        previous.dims@.len() == 3 ==> previous.dims@[0] * previous.dims@[1] <= usize::MAX,
    ensures
        got matches Ok(step) ==> {
            &&& previous.dims@.len() == 3
            &&& step.next@ == previous.dims@
            &&& step.out@ == seq![previous.dims@[0], 1usize, previous.dims@[1]]
            &&& step.rows == previous.dims@[0] * previous.dims@[1]
            &&& step.form is Fused <==> input.device is Rocm
            &&& step.form matches StepForm::Fused { n, split } ==> split == step.rows && n == split + previous.dims@[0]
                * previous.dims@[1] * previous.dims@[2]
        },
        got is Ok <==> short_conv_step_error(input, weight, previous) is None,
{
    if let Ok(step) = got {
        law_steps_take(input, weight, previous);
        assert(step.next@ =~= previous.dims@);
        let (b, h, k) = (previous.dims@[0] as int, previous.dims@[1] as int, previous.dims@[2] as int);
        assert(b * h * (k + 1) == b * h + b * h * k && b * h >= 0 && b * h * (k + 1) >= 0) by (nonlinear_arith)
            requires
                b >= 0,
                h >= 0,
                k >= 0,
        ;
    }
}

/// Law: whatever rows a step reads and keeps, each is the previous one without
/// its oldest input and with the new one last.
pub proof fn law_step_rows_shift_by_one<C: Copy>(previous: Vec<Vec<C>>, gated: Vec<C>, got: (Vec<Vec<C>>, Vec<Vec<C>>), i: int, j: int)
    requires
        call_ensures(short_conv_rows::<C>, (&previous, &gated), got),
        0 <= i < previous@.len(),
        0 <= j < previous@[i]@.len(),
    ensures
        got.0@.len() == previous@.len() && got.1@.len() == previous@.len(),
        got.0@[i]@.len() == previous@[i]@.len() && got.1@[i]@ == got.0@[i]@,
        got.0@[i]@[j] == (if j + 1 < previous@[i]@.len() {
            previous@[i]@[j + 1]
        } else {
            gated@[i]
        }),
{
}

/// Law: whatever a gated activation gives keeps every dimension but the last,
/// which it halves, and fills half as many elements as it was given: by one
/// kernel exactly on the accelerator.
pub proof fn law_gated_rows_are_half_as_wide(input: Operand, got: Result<Gated, OpError>, i: int)
    requires
        call_ensures(swiglu, (&input,), got),
        input.wf(),
    ensures
        got matches Ok(g) ==> {
            &&& g.dims@.len() == input.dims@.len() && g.dims@.len() > 0
            &&& 0 <= i < g.dims@.len() - 1 ==> g.dims@[i] == input.dims@[i]
            &&& 2 * g.dims@.last() == input.dims@.last()
            &&& g.form is Fused <==> input.device is Rocm
            &&& g.form matches Form::Fused { n } ==> 2 * n == tensor::elements(input.dims@)
        },
        got is Ok <==> swiglu_error(input) is None,
{
    if let Ok(g) = got {
        law_gating_halves_the_elements(input.dims@);
    }
}

} // verus!
