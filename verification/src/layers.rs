//! What a decoder layer is made of, and how its packed weights are bundled.
//!
//! Weights of one format that read the same input are stacked once at load, so
//! that one product serves them all. Weights of different formats stay apart:
//! nothing is requantized to force a merge.

use vstd::prelude::*;
use crate::moe;
use crate::moe::{supports, MmqShapes};
use crate::quantized::GgmlDType;
use crate::tensor::{DType, Device};

verus! {

/// A packed matrix, or a stack of them, by its shape.
#[derive(Debug)]
pub struct Packed {
    pub dtype: GgmlDType,
    pub dims: Vec<u64>,
}

#[derive(Clone, Copy, PartialEq, Eq, Structural, Debug)]
pub enum LayerError {
    /// A projection that is not `(rows, width)`.
    Rank,
    /// Weights that do not fit together.
    Incompatible,
}

/// How the query, key and value projections are held: `q` query rows and `kv`
/// rows each of keys and values.
#[derive(Clone, Copy, PartialEq, Eq, Structural, Debug)]
pub enum QkvProjection {
    /// One stack of all three.
    Fused { q: u64, kv: u64 },
    /// One stack of queries and keys; values apart.
    Qk { q: u64, kv: u64 },
    Separate { q: u64, kv: u64 },
}

/// Rows `start..start + len` of what weight number `weight` gives.
#[derive(Clone, Copy, PartialEq, Eq, Structural, Debug)]
pub struct Slice {
    pub weight: usize,
    pub start: u64,
    pub len: u64,
}

/// Where queries, keys and values are read.
#[derive(Clone, Copy, PartialEq, Eq, Structural, Debug)]
pub struct QkvSlices {
    pub query: Slice,
    pub key: Slice,
    pub value: Slice,
}

pub open spec fn qkv_error(query: Packed, key: Packed, value: Packed) -> Option<LayerError> {
    if query.dims@.len() != 2 || key.dims@.len() != 2 {
        Some(LayerError::Rank)
    } else if query.dims@[0] == 0 || key.dims@[0] == 0 || query.dims@[1] == 0 || key.dims@[1] != query.dims@[1]
        || value.dims@ != key.dims@ {
        Some(LayerError::Incompatible)
    } else {
        None
    }
}

pub open spec fn spec_qkv(query: GgmlDType, key: GgmlDType, value: GgmlDType, q: u64, kv: u64) -> QkvProjection {
    if query == key && key == value {
        QkvProjection::Fused { q, kv }
    } else if query == key {
        QkvProjection::Qk { q, kv }
    } else {
        QkvProjection::Separate { q, kv }
    }
}

impl QkvProjection {
    pub open spec fn q(self) -> u64 {
        match self {
            QkvProjection::Fused { q, .. } => q,
            QkvProjection::Qk { q, .. } => q,
            QkvProjection::Separate { q, .. } => q,
        }
    }

    pub open spec fn kv(self) -> u64 {
        match self {
            QkvProjection::Fused { kv, .. } => kv,
            QkvProjection::Qk { kv, .. } => kv,
            QkvProjection::Separate { kv, .. } => kv,
        }
    }

    /// The stacked rows can be counted.
    pub open spec fn wf(self) -> bool {
        self.q() + 2 * self.kv() <= u64::MAX
    }

    pub fn new(query: &Packed, key: &Packed, value: &Packed) -> (res: Result<QkvProjection, LayerError>)
        ensures
            match res {
                Ok(p) => qkv_error(*query, *key, *value) is None && p == spec_qkv(
                    query.dtype,
                    key.dtype,
                    value.dtype,
                    query.dims@[0],
                    key.dims@[0],
                ),
                Err(e) => qkv_error(*query, *key, *value) == Some(e),
            },
    {
        if query.dims.len() != 2 || key.dims.len() != 2 {
            return Err(LayerError::Rank);
        }
        let q: u64 = query.dims[0];
        let k: u64 = query.dims[1];
        let kv: u64 = key.dims[0];
        if q == 0 || kv == 0 || k == 0 || key.dims[1] != k || value.dims.len() != 2 || value.dims[0] != kv
            || value.dims[1] != k {
            proof {
                if value.dims@ == key.dims@ {
                    assert(value.dims@.len() == 2);
                }
            }
            return Err(LayerError::Incompatible);
        }
        proof {
            assert(value.dims@ =~= key.dims@);
        }
        if query.dtype == key.dtype && key.dtype == value.dtype {
            Ok(QkvProjection::Fused { q, kv })
        } else if query.dtype == key.dtype {
            Ok(QkvProjection::Qk { q, kv })
        } else {
            Ok(QkvProjection::Separate { q, kv })
        }
    }

    pub open spec fn spec_slices(self) -> QkvSlices {
        match self {
            QkvProjection::Fused { q, kv } => QkvSlices {
                query: Slice { weight: 0, start: 0, len: q },
                key: Slice { weight: 0, start: q, len: kv },
                value: Slice { weight: 0, start: (q + kv) as u64, len: kv },
            },
            QkvProjection::Qk { q, kv } => QkvSlices {
                query: Slice { weight: 0, start: 0, len: q },
                key: Slice { weight: 0, start: q, len: kv },
                value: Slice { weight: 1, start: 0, len: kv },
            },
            QkvProjection::Separate { q, kv } => QkvSlices {
                query: Slice { weight: 0, start: 0, len: q },
                key: Slice { weight: 1, start: 0, len: kv },
                value: Slice { weight: 2, start: 0, len: kv },
            },
        }
    }

    /// Where the products of the held weights have queries, keys and values.
    pub fn slices(&self) -> (res: QkvSlices)
        requires
            self.wf(),
        ensures
            res == self.spec_slices(),
    {
        match *self {
            QkvProjection::Fused { q, kv } => QkvSlices {
                query: Slice { weight: 0, start: 0, len: q },
                key: Slice { weight: 0, start: q, len: kv },
                value: Slice { weight: 0, start: q + kv, len: kv },
            },
            QkvProjection::Qk { q, kv } => QkvSlices {
                query: Slice { weight: 0, start: 0, len: q },
                key: Slice { weight: 0, start: q, len: kv },
                value: Slice { weight: 1, start: 0, len: kv },
            },
            QkvProjection::Separate { q, kv } => QkvSlices {
                query: Slice { weight: 0, start: 0, len: q },
                key: Slice { weight: 1, start: 0, len: kv },
                value: Slice { weight: 2, start: 0, len: kv },
            },
        }
    }

    /// The rows of the held weights, given the rows of the three projections.
    pub open spec fn stacked<R>(self, query: Seq<R>, key: Seq<R>, value: Seq<R>) -> Seq<Seq<R>> {
        match self {
            QkvProjection::Fused { .. } => seq![query + key + value],
            QkvProjection::Qk { .. } => seq![query + key, value],
            QkvProjection::Separate { .. } => seq![query, key, value],
        }
    }
}

/// The rows that a slice picks out of the held weights.
pub open spec fn sliced<R>(weights: Seq<Seq<R>>, s: Slice) -> Seq<R> {
    weights[s.weight as int].subrange(s.start as int, s.start + s.len)
}

/// Law: however the projections are bundled, the slices give back exactly the
/// rows of the query, key and value projections.
pub proof fn law_bundle_matches_independent_projections<R>(p: QkvProjection, query: Seq<R>, key: Seq<R>, value: Seq<R>)
    requires
        p.wf(),
        query.len() == p.q(),
        key.len() == p.kv(),
        value.len() == p.kv(),
    ensures
        sliced(p.stacked(query, key, value), p.spec_slices().query) == query,
        sliced(p.stacked(query, key, value), p.spec_slices().key) == key,
        sliced(p.stacked(query, key, value), p.spec_slices().value) == value,
{
    let w = p.stacked(query, key, value);
    let s = p.spec_slices();
    assert(sliced(w, s.query) =~= query);
    assert(sliced(w, s.key) =~= key);
    assert(sliced(w, s.value) =~= value);
}

/// A packed `(experts, n, k)` stack.
#[derive(Clone, Copy, PartialEq, Eq, Structural, Debug)]
pub struct Stack {
    pub dtype: GgmlDType,
    pub experts: u64,
    pub n: u64,
    pub k: u64,
}

/// Expert weights: packed on an accelerator, unpacked on the CPU, which is a
/// reference and not a fallback.
#[derive(Clone, Copy, PartialEq, Eq, Structural, Debug)]
pub enum Experts {
    Quantized { stack: Stack, device: Device },
    Cpu(Stack),
}

pub open spec fn spec_experts(stack: Stack, device: Device) -> Experts {
    if device.spec_is_cpu() {
        Experts::Cpu(stack)
    } else {
        Experts::Quantized { stack, device }
    }
}

impl Experts {
    pub fn new(stack: Stack, device: Device) -> (res: Experts)
        ensures
            res == spec_experts(stack, device),
    {
        if device.is_cpu() {
            Experts::Cpu(stack)
        } else {
            Experts::Quantized { stack, device }
        }
    }

    /// A batch is large enough, and the format right, for the grouped kernels.
    pub open spec fn spec_supports_grouped(self, batch: usize, topk: usize, mmq: MmqShapes) -> bool {
        match self {
            Experts::Quantized { stack, device } => {
                &&& device.spec_is_rocm()
                &&& stack.experts <= usize::MAX
                &&& stack.n <= usize::MAX
                &&& stack.k <= usize::MAX
                &&& moe::spec_supports(
                    stack.dtype,
                    seq![stack.experts as usize, stack.n as usize, stack.k as usize],
                    batch,
                    topk,
                    mmq,
                )
            },
            Experts::Cpu(_) => false,
        }
    }

    pub fn supports_grouped(&self, batch: usize, topk: usize, mmq: &MmqShapes) -> (res: bool)
        ensures
            res == self.spec_supports_grouped(batch, topk, *mmq),
    {
        match *self {
            Experts::Quantized { stack, device } => {
                let most: u64 = usize::MAX as u64;
                if !device.is_rocm() || stack.experts > most || stack.n > most || stack.k > most {
                    return false;
                }
                let mut shape: Vec<usize> = Vec::new();
                shape.push(stack.experts as usize);
                shape.push(stack.n as usize);
                shape.push(stack.k as usize);
                proof {
                    assert(shape@ =~= seq![stack.experts as usize, stack.n as usize, stack.k as usize]);
                }
                supports(stack.dtype, &shape, batch, topk, mmq)
            },
            Experts::Cpu(_) => false,
        }
    }
}

/// Gate and up weights of the experts: one stack with each expert's gate rows
/// above its up rows when both have one format.
#[derive(Clone, Copy, PartialEq, Eq, Structural, Debug)]
pub enum ExpertGateUp {
    Merged(Experts),
    Separate { gate: Experts, up: Experts },
}

pub open spec fn spec_gate_up(gate: Stack, up: Stack, device: Device) -> ExpertGateUp {
    if gate.dtype == up.dtype {
        ExpertGateUp::Merged(spec_experts(Stack { n: (gate.n + up.n) as u64, ..gate }, device))
    } else {
        ExpertGateUp::Separate { gate: spec_experts(gate, device), up: spec_experts(up, device) }
    }
}

/// Stacks of one format can be merged: the same experts over the same width.
pub open spec fn gate_up_error(gate: Stack, up: Stack) -> Option<LayerError> {
    if gate.dtype == up.dtype && (gate.experts != up.experts || gate.k != up.k) {
        Some(LayerError::Incompatible)
    } else {
        None
    }
}

impl ExpertGateUp {
    pub fn new(gate: Stack, up: Stack, device: Device) -> (res: Result<ExpertGateUp, LayerError>)
        requires
            gate.n + up.n <= u64::MAX,
        ensures
            match res {
                Ok(w) => gate_up_error(gate, up) is None && w == spec_gate_up(gate, up, device),
                Err(e) => gate_up_error(gate, up) == Some(e),
            },
    {
        if gate.dtype == up.dtype {
            if gate.experts != up.experts || gate.k != up.k {
                return Err(LayerError::Incompatible);
            }
            let merged = Stack { dtype: gate.dtype, experts: gate.experts, n: gate.n + up.n, k: gate.k };
            Ok(ExpertGateUp::Merged(Experts::new(merged, device)))
        } else {
            Ok(ExpertGateUp::Separate { gate: Experts::new(gate, device), up: Experts::new(up, device) })
        }
    }

    pub open spec fn spec_supports_grouped(self, batch: usize, topk: usize, mmq: MmqShapes) -> bool {
        match self {
            ExpertGateUp::Merged(w) => w.spec_supports_grouped(batch, topk, mmq),
            ExpertGateUp::Separate { gate, up } => gate.spec_supports_grouped(batch, topk, mmq)
                && up.spec_supports_grouped(batch, topk, mmq),
        }
    }

    pub fn supports_grouped(&self, batch: usize, topk: usize, mmq: &MmqShapes) -> (res: bool)
        ensures
            res == self.spec_supports_grouped(batch, topk, *mmq),
    {
        match self {
            ExpertGateUp::Merged(w) => w.supports_grouped(batch, topk, mmq),
            ExpertGateUp::Separate { gate, up } => gate.supports_grouped(batch, topk, mmq) && up.supports_grouped(
                batch,
                topk,
                mmq,
            ),
        }
    }

    /// Products that one activation takes.
    pub open spec fn spec_products(self) -> nat {
        match self {
            ExpertGateUp::Merged(_) => 1,
            ExpertGateUp::Separate { .. } => 2,
        }
    }

    pub fn products(&self) -> (res: usize)
        ensures
            res == self.spec_products(),
    {
        match self {
            ExpertGateUp::Merged(_) => 1,
            ExpertGateUp::Separate { .. } => 2,
        }
    }
}

/// A selection bias by its shape. It chooses experts and never weights them.
#[derive(Clone, Copy, PartialEq, Eq, Structural, Debug)]
pub struct RouterBias {
    pub experts: usize,
    pub dtype: DType,
    pub device: Device,
}

#[derive(Clone, Copy, PartialEq, Eq, Structural, Debug)]
pub struct Moe {
    pub bias: RouterBias,
    pub gate_up: ExpertGateUp,
    pub down: Experts,
    pub topk: usize,
}

/// How one batch goes through the experts of a layer.
#[derive(Clone, Copy, PartialEq, Eq, Structural, Debug)]
pub struct ExpertSchedule {
    /// One routing is packed by expert and shared by every product; otherwise
    /// each product takes the plain expert ids.
    pub grouped: bool,
    /// Products that take the routing.
    pub products: usize,
}

impl Moe {
    pub open spec fn spec_schedule(self, batch: usize, mmq: MmqShapes) -> ExpertSchedule {
        ExpertSchedule {
            grouped: self.gate_up.spec_supports_grouped(batch, self.topk, mmq) && self.down.spec_supports_grouped(
                batch,
                self.topk,
                mmq,
            ),
            products: (self.gate_up.spec_products() + 1) as usize,
        }
    }

    /// The schedule for `batch` tokens.
    pub fn schedule(&self, batch: usize, mmq: &MmqShapes) -> (res: ExpertSchedule)
        ensures
            res == self.spec_schedule(batch, *mmq),
    {
        let grouped = self.gate_up.supports_grouped(batch, self.topk, mmq) && self.down.supports_grouped(batch, self.topk, mmq);
        ExpertSchedule { grouped, products: self.gate_up.products() + 1 }
    }
}

/// Law: a grouped routing is only built when every product that takes it has
/// grouped kernels, and never on the CPU.
pub proof fn law_one_routing_serves_every_product(m: Moe, batch: usize, mmq: MmqShapes)
    ensures
        m.spec_schedule(batch, mmq).grouped ==> {
            &&& m.down.spec_supports_grouped(batch, m.topk, mmq)
            &&& match m.gate_up {
                ExpertGateUp::Merged(w) => w.spec_supports_grouped(batch, m.topk, mmq),
                ExpertGateUp::Separate { gate, up } => gate.spec_supports_grouped(batch, m.topk, mmq)
                    && up.spec_supports_grouped(batch, m.topk, mmq),
            }
        },
        m.down is Cpu ==> !m.spec_schedule(batch, mmq).grouped,
{
}

/// How one product with expert weights runs.
#[derive(Clone, Copy, PartialEq, Eq, Structural, Debug)]
pub enum ProductForm {
    /// Over the packed routing.
    Grouped,
    /// Over the plain expert ids.
    Indexed,
    /// With each pair's weights gathered, on the CPU.
    Gathered,
}

/// Which of the experts' weights a product takes.
#[derive(Clone, Copy, PartialEq, Eq, Structural, Debug)]
pub enum ExpertWeights {
    GateUp,
    Gate,
    Up,
    Down,
}

/// A step of a layer's experts.
#[derive(Clone, Copy, PartialEq, Eq, Structural, Debug)]
pub enum ExpertStep {
    /// Router logits of every token.
    Router,
    /// Choose experts and weight them.
    Route,
    /// Show logits, ids and weights to the observer.
    Tap,
    /// Pack the routing by expert.
    Pack,
    Product { weights: ExpertWeights, form: ProductForm },
    /// Gate the merged product's halves.
    SwiGlu,
    /// Activate the product with the gating weights.
    Silu,
    /// Multiply it by the product with the up weights.
    Multiply,
    /// Weight and sum the experts of each token.
    Combine,
}

impl Experts {
    pub open spec fn spec_form(self, grouped: bool) -> ProductForm {
        match self {
            Experts::Cpu(_) => ProductForm::Gathered,
            Experts::Quantized { .. } => if grouped {
                ProductForm::Grouped
            } else {
                ProductForm::Indexed
            },
        }
    }

    /// How a product with these weights runs, with or without a packed routing.
    pub fn form(&self, grouped: bool) -> (res: ProductForm)
        ensures
            res == self.spec_form(grouped),
    {
        match self {
            Experts::Cpu(_) => ProductForm::Gathered,
            Experts::Quantized { .. } => if grouped {
                ProductForm::Grouped
            } else {
                ProductForm::Indexed
            },
        }
    }
}

/// From the router to the observer.
pub open spec fn routing_steps(tapped: bool) -> Seq<ExpertStep> {
    if tapped {
        seq![ExpertStep::Router, ExpertStep::Route, ExpertStep::Tap]
    } else {
        seq![ExpertStep::Router, ExpertStep::Route]
    }
}

pub open spec fn packing_steps(grouped: bool) -> Seq<ExpertStep> {
    if grouped {
        seq![ExpertStep::Pack]
    } else {
        Seq::empty()
    }
}

impl ExpertGateUp {
    /// The steps from the routed tokens to the activations.
    pub open spec fn spec_steps(self, grouped: bool) -> Seq<ExpertStep> {
        match self {
            ExpertGateUp::Merged(w) => seq![
                ExpertStep::Product { weights: ExpertWeights::GateUp, form: w.spec_form(grouped) },
                ExpertStep::SwiGlu,
            ],
            ExpertGateUp::Separate { gate, up } => seq![
                ExpertStep::Product { weights: ExpertWeights::Gate, form: gate.spec_form(grouped) },
                ExpertStep::Silu,
                ExpertStep::Product { weights: ExpertWeights::Up, form: up.spec_form(grouped) },
                ExpertStep::Multiply,
            ],
        }
    }
}

impl Moe {
    /// All steps of the experts for `batch` tokens.
    pub open spec fn spec_steps(self, batch: usize, tapped: bool, mmq: MmqShapes) -> Seq<ExpertStep> {
        let grouped = self.spec_schedule(batch, mmq).grouped;
        routing_steps(tapped) + packing_steps(grouped) + self.gate_up.spec_steps(grouped) + seq![
            ExpertStep::Product { weights: ExpertWeights::Down, form: self.down.spec_form(grouped) },
            ExpertStep::Combine,
        ]
    }

    /// The steps of the experts for `batch` tokens, shown to an observer when
    /// `tapped`.
    pub fn steps(&self, batch: usize, tapped: bool, mmq: &MmqShapes) -> (res: Vec<ExpertStep>)
        ensures
            res@ == self.spec_steps(batch, tapped, *mmq),
    {
        let grouped = self.schedule(batch, mmq).grouped;
        let mut to: Vec<ExpertStep> = Vec::new();
        to.push(ExpertStep::Router);
        to.push(ExpertStep::Route);
        if tapped {
            to.push(ExpertStep::Tap);
        }
        if grouped {
            to.push(ExpertStep::Pack);
        }
        match self.gate_up {
            ExpertGateUp::Merged(w) => {
                to.push(ExpertStep::Product { weights: ExpertWeights::GateUp, form: w.form(grouped) });
                to.push(ExpertStep::SwiGlu);
            },
            ExpertGateUp::Separate { gate, up } => {
                to.push(ExpertStep::Product { weights: ExpertWeights::Gate, form: gate.form(grouped) });
                to.push(ExpertStep::Silu);
                to.push(ExpertStep::Product { weights: ExpertWeights::Up, form: up.form(grouped) });
                to.push(ExpertStep::Multiply);
            },
        }
        to.push(ExpertStep::Product { weights: ExpertWeights::Down, form: self.down.form(grouped) });
        to.push(ExpertStep::Combine);
        proof {
            assert(to@ =~= self.spec_steps(batch, tapped, *mmq));
        }
        to
    }
}

/// Law: the observer sees the routing that runs. Its tap stands right after
/// the routing and before anything reads it, and taking it away leaves exactly
/// the steps of the experts without an observer.
pub proof fn law_tap_shows_the_routing_that_runs(m: Moe, batch: usize, mmq: MmqShapes)
    ensures
        m.spec_steps(batch, true, mmq)[1] is Route,
        m.spec_steps(batch, true, mmq)[2] is Tap,
        m.spec_steps(batch, true, mmq).remove(2) == m.spec_steps(batch, false, mmq),
{
    assert(m.spec_steps(batch, true, mmq).remove(2) =~= m.spec_steps(batch, false, mmq));
}

/// Law: a routing is packed at most once, right after it is made, and then
/// every product takes it; without packing no product asks for it.
pub proof fn law_packed_routing_is_shared(m: Moe, batch: usize, tapped: bool, mmq: MmqShapes, i: int)
    requires
        0 <= i < m.spec_steps(batch, tapped, mmq).len(),
    ensures
        m.spec_steps(batch, tapped, mmq)[i] is Pack <==> m.spec_schedule(batch, mmq).grouped && i == routing_steps(tapped).len(),
        m.spec_steps(batch, tapped, mmq)[i] is Product && m.spec_schedule(batch, mmq).grouped
            ==> m.spec_steps(batch, tapped, mmq)[i]->Product_form is Grouped,
        m.spec_steps(batch, tapped, mmq)[i] is Product && m.spec_steps(batch, tapped, mmq)[i]->Product_form is Grouped
            ==> m.spec_schedule(batch, mmq).grouped,
{
}

#[derive(Clone, Copy, PartialEq, Eq, Structural, Debug)]
pub enum FeedForward {
    Dense,
    Moe(Moe),
}

#[derive(Clone, Copy, PartialEq, Eq, Structural, Debug)]
pub struct AttentionLayer {
    pub qkv: QkvProjection,
    pub n_head: usize,
    pub n_kv_head: usize,
    pub head_dim: usize,
}

#[derive(Clone, Copy, PartialEq, Eq, Structural, Debug)]
pub enum Operator {
    Attention(AttentionLayer),
    /// Gated short convolution with this many taps.
    Conv { k: usize },
}

#[derive(Clone, Copy, PartialEq, Eq, Structural, Debug)]
pub struct Layer {
    pub operator: Operator,
    pub ffn: FeedForward,
}

/// What one layer is made of, for labelling an observer's taps.
#[derive(Clone, Copy, PartialEq, Eq, Debug)]
pub struct LayerInfo {
    /// Full attention; otherwise the gated short convolution.
    pub attention: bool,
    /// `(experts, experts used per token)`; `None` for a dense feed-forward.
    pub experts: Option<(usize, usize)>,
}

impl Layer {
    pub open spec fn spec_info(self) -> LayerInfo {
        LayerInfo {
            attention: self.operator is Attention,
            experts: match self.ffn {
                FeedForward::Dense => None,
                FeedForward::Moe(m) => Some((m.bias.experts, m.topk)),
            },
        }
    }

    pub fn info(&self) -> (res: LayerInfo)
        ensures
            res == self.spec_info(),
    {
        LayerInfo {
            attention: match self.operator {
                Operator::Attention(_) => true,
                Operator::Conv { .. } => false,
            },
            experts: match self.ffn {
                FeedForward::Dense => None,
                FeedForward::Moe(m) => Some((m.bias.experts, m.topk)),
            },
        }
    }

    pub open spec fn spec_router_bias(self) -> Option<RouterBias> {
        match self.ffn {
            FeedForward::Dense => None,
            FeedForward::Moe(m) => Some(m.bias),
        }
    }

    /// An expert layer's selection bias; `None` for a dense layer.
    pub fn router_bias(&self) -> (res: Option<RouterBias>)
        ensures
            res == self.spec_router_bias(),
    {
        match self.ffn {
            FeedForward::Dense => None,
            FeedForward::Moe(m) => Some(m.bias),
        }
    }
}

/// Law: projections share a stack exactly when they have one format, keys only
/// with queries and values only with both; whichever share, the bundle holds
/// `q` query rows and `kv` rows each of keys and values.
pub proof fn law_only_one_format_is_stacked(query: GgmlDType, key: GgmlDType, value: GgmlDType, q: u64, kv: u64)
    ensures
        ({
            let s = spec_qkv(query, key, value, q, kv).spec_slices();
            &&& s.key.weight == s.query.weight <==> query == key
            &&& s.value.weight == s.query.weight <==> query == key && key == value
            &&& s.value.weight == s.key.weight <==> query == key && key == value
            &&& s.query.len == q && s.key.len == kv && s.value.len == kv
            &&& s.query.start == 0
            &&& query != key ==> s.key.start == 0
            &&& !(query == key && key == value) ==> s.value.start == 0
        }),
{
}

/// Law: three projections are bundled exactly when queries are `(q, width)` and
/// keys and values both `(kv, width)`, none of them empty; queries or keys that
/// are no matrices are refused for their rank, and all else as incompatible.
pub proof fn law_projections_share_their_width(query: Packed, key: Packed, value: Packed)
    ensures
        qkv_error(query, key, value) is None <==> exists|q: u64, kv: u64, width: u64|
            q > 0 && kv > 0 && width > 0 && query.dims@ == #[trigger] seq![q, width] && key.dims@ == #[trigger] seq![kv, width]
                && value.dims@ == seq![kv, width],
        qkv_error(query, key, value) == Some(LayerError::Rank) <==> query.dims@.len() != 2 || key.dims@.len() != 2,
{
    if qkv_error(query, key, value) is None {
        let (q, kv, width) = (query.dims@[0], key.dims@[0], query.dims@[1]);
        assert(query.dims@ =~= seq![q, width] && key.dims@ =~= seq![kv, width] && value.dims@ =~= seq![kv, width]);
    }
    if exists|q: u64, kv: u64, width: u64|
        q > 0 && kv > 0 && width > 0 && query.dims@ == #[trigger] seq![q, width] && key.dims@ == #[trigger] seq![kv, width]
            && value.dims@ == seq![kv, width] {
        let (q, kv, width) = choose|q: u64, kv: u64, width: u64|
            q > 0 && kv > 0 && width > 0 && query.dims@ == #[trigger] seq![q, width] && key.dims@ == #[trigger] seq![kv, width]
                && value.dims@ == seq![kv, width];
        assert(query.dims@[0] == q && query.dims@[1] == width && key.dims@[0] == kv && key.dims@[1] == width);
    }
}

/// Law: stacks of one format are merged or refused, never kept apart, and
/// stacks of two formats are kept apart, never refused; merging adds up the
/// rows and changes nothing else.
pub proof fn law_gate_and_up_merge_in_one_format(gate: Stack, up: Stack, device: Device)
    requires
        gate.n + up.n <= u64::MAX,
    ensures
        gate_up_error(gate, up) is Some <==> gate.dtype == up.dtype && !(gate.experts == up.experts && gate.k == up.k),
        gate_up_error(gate, up) matches Some(e) ==> e is Incompatible,
        match spec_gate_up(gate, up, device) {
            ExpertGateUp::Merged(Experts::Quantized { stack, device: on }) => {
                &&& gate.dtype == up.dtype && on == device && device != Device::Cpu
                &&& stack.n == gate.n + up.n && stack.dtype == gate.dtype && stack.experts == gate.experts && stack.k
                    == gate.k
            },
            ExpertGateUp::Merged(Experts::Cpu(stack)) => {
                &&& gate.dtype == up.dtype && device == Device::Cpu
                &&& stack.n == gate.n + up.n && stack.dtype == gate.dtype && stack.experts == gate.experts && stack.k
                    == gate.k
            },
            ExpertGateUp::Separate { gate: g, up: u } => {
                &&& gate.dtype != up.dtype
                &&& device == Device::Cpu ==> g == Experts::Cpu(gate) && u == Experts::Cpu(up)
                &&& device != Device::Cpu ==> g == (Experts::Quantized { stack: gate, device }) && u
                    == (Experts::Quantized { stack: up, device })
            },
        },
{
}

/// Law: the experts' steps compute a gated feed-forward. The router scores and
/// routes first; the merged product is gated at once, separate gate and up
/// products are activated and multiplied; the product with the down weights
/// follows, and the weighted sum ends it. Packing and tapping add one step each
/// and nothing else is done. On the CPU every product gathers its weights.
pub proof fn law_experts_compute_a_gated_feed_forward(m: Moe, batch: usize, tapped: bool, mmq: MmqShapes)
    ensures
        ({
            let s = m.spec_steps(batch, tapped, mmq);
            let n = s.len() as int;
            let extra = (if tapped { 1int } else { 0 }) + (if m.spec_schedule(batch, mmq).grouped { 1int } else { 0 });
            &&& s[0] == ExpertStep::Router && s[1] == ExpertStep::Route
            &&& s[n - 1] == ExpertStep::Combine
            &&& s[n - 2] matches ExpertStep::Product { weights, form } && weights == ExpertWeights::Down && (form
                == ProductForm::Gathered <==> m.down is Cpu)
            &&& match m.gate_up {
                ExpertGateUp::Merged(w) => {
                    &&& n == 6 + extra
                    &&& s[n - 3] == ExpertStep::SwiGlu
                    &&& s[n - 4] matches ExpertStep::Product { weights, form } && weights == ExpertWeights::GateUp && (form
                        == ProductForm::Gathered <==> w is Cpu)
                },
                ExpertGateUp::Separate { gate, up } => {
                    &&& n == 8 + extra
                    &&& s[n - 3] == ExpertStep::Multiply
                    &&& s[n - 4] matches ExpertStep::Product { weights, form } && weights == ExpertWeights::Up && (form
                        == ProductForm::Gathered <==> up is Cpu)
                    &&& s[n - 5] == ExpertStep::Silu
                    &&& s[n - 6] matches ExpertStep::Product { weights, form } && weights == ExpertWeights::Gate && (form
                        == ProductForm::Gathered <==> gate is Cpu)
                },
            }
            &&& m.spec_schedule(batch, mmq).products == (if m.gate_up is Merged { 2int } else { 3 })
        }),
{
}

/// Law: a layer's label tells attention from convolution, and an expert layer
/// by its counts; its bias is there exactly when it has experts.
pub proof fn law_labels_tell_layers_apart(l: Layer)
    ensures
        l.spec_info().attention <==> !(l.operator is Conv),
        l.spec_info().experts is None <==> l.ffn is Dense,
        l.spec_router_bias() is None <==> l.ffn is Dense,
        l.ffn matches FeedForward::Moe(m) ==> l.spec_info().experts == Some((m.bias.experts, m.topk))
            && l.spec_router_bias() == Some(m.bias),
{
}

/// Law: expert weights take a grouped routing exactly when they are packed on
/// the accelerator and their stack does; merged gate and up weights as one, kept
/// apart only both; and a batch is grouped exactly when every product's weights
/// take it.
pub proof fn law_grouping_is_decided_by_every_stack(m: Moe, stack: Stack, device: Device, batch: usize, topk: usize, mmq: MmqShapes)
    requires
        stack.experts <= usize::MAX,
        stack.n <= usize::MAX,
        stack.k <= usize::MAX,
    ensures
        !Experts::Cpu(stack).spec_supports_grouped(batch, topk, mmq),
        (Experts::Quantized { stack, device }).spec_supports_grouped(batch, topk, mmq) <==> device is Rocm && moe::spec_supports(
            stack.dtype,
            seq![stack.experts as usize, stack.n as usize, stack.k as usize],
            batch,
            topk,
            mmq,
        ),
        m.spec_schedule(batch, mmq).grouped <==> m.down.spec_supports_grouped(batch, m.topk, mmq) && match m.gate_up {
            ExpertGateUp::Merged(w) => w.spec_supports_grouped(batch, m.topk, mmq),
            ExpertGateUp::Separate { gate, up } => gate.spec_supports_grouped(batch, m.topk, mmq) && up.spec_supports_grouped(
                batch,
                m.topk,
                mmq,
            ),
        },
{
}

/// Law: whatever bundle is made of three projections and wherever it is sliced,
/// the slices hold as many rows as the projections, and two of them share a
/// stack exactly when all up to the later one have one format.
pub proof fn law_bundles_slice_into_projections(query: Packed, key: Packed, value: Packed, got: Result<QkvProjection, LayerError>, s: QkvSlices)
    requires
        call_ensures(QkvProjection::new, (&query, &key, &value), got),
        got is Ok ==> got->Ok_0.wf() && call_ensures(QkvProjection::slices, (&got->Ok_0,), s),
    ensures
        got is Ok <==> query.dims@.len() == 2 && key.dims@.len() == 2 && value.dims@ == key.dims@ && query.dims@[0] > 0
            && key.dims@[0] > 0 && query.dims@[1] > 0 && key.dims@[1] == query.dims@[1],
        got is Ok ==> {
            &&& s.query.len == query.dims@[0] && s.key.len == key.dims@[0] && s.value.len == value.dims@[0]
            &&& s.query.weight == 0 && s.query.start == 0
            &&& s.key.weight == s.query.weight <==> query.dtype == key.dtype
            &&& s.value.weight == s.key.weight <==> query.dtype == key.dtype && key.dtype == value.dtype
            &&& s.key.weight == s.query.weight ==> s.key.start == s.query.len
            &&& s.value.weight == s.key.weight ==> s.value.start == s.query.len + s.key.len
            &&& s.key.weight != s.query.weight ==> s.key.start == 0
            &&& s.value.weight != s.key.weight ==> s.value.start == 0 && s.value.weight == s.key.weight + 1
        },
{
}

/// Law: whatever experts are made of a stack, they are unpacked on the CPU and
/// packed elsewhere, and hold the stack as it is.
pub proof fn law_experts_are_packed_off_the_cpu(stack: Stack, device: Device, made: Experts)
    requires
        call_ensures(Experts::new, (stack, device), made),
    ensures
        device == Device::Cpu ==> made == Experts::Cpu(stack),
        device != Device::Cpu ==> made == (Experts::Quantized { stack, device }),
{
}

/// Law: whatever steps run the experts, the first two route, the last two are
/// the product with the down weights and the weighted sum; the observer's tap,
/// if any, is third; and a label tells an expert layer by its counts.
pub proof fn law_expert_steps_begin_and_end(m: Moe, batch: usize, tapped: bool, mmq: MmqShapes, steps: Vec<ExpertStep>, l: Layer, label: LayerInfo)
    requires
        call_ensures(Moe::steps, (&m, batch, tapped, &mmq), steps),
        call_ensures(Layer::info, (&l,), label),
    ensures
        ({
            let s = steps@;
            let n = s.len() as int;
            &&& n >= 6
            &&& s[0] == ExpertStep::Router && s[1] == ExpertStep::Route
            &&& s[2] == ExpertStep::Tap <==> tapped
            &&& s[n - 1] == ExpertStep::Combine
            &&& s[n - 2] is Product && s[n - 2]->Product_weights == ExpertWeights::Down
            &&& s[n - 3] == (if m.gate_up is Merged { ExpertStep::SwiGlu } else { ExpertStep::Multiply })
        }),
        label.attention <==> l.operator is Attention,
        l.ffn is Dense ==> label.experts is None,
        l.ffn matches FeedForward::Moe(x) ==> label.experts == Some((x.bias.experts, x.topk)),
{
    law_experts_compute_a_gated_feed_forward(m, batch, tapped, mmq);
}

} // verus!
