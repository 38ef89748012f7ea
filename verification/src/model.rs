//! A loaded decoder, and the states its sequences are in.

use vstd::prelude::*;
use crate::conv::{copied, ConvState};
use crate::gguf;
use crate::gguf::{check_requests, find_tensor, BlockTensor, Config, ConfigView, Content, LoadError, Request, TensorEntry,
    TensorName};
use crate::kv_cache::KvCache;
use crate::layers;
use crate::layers::{AttentionLayer, ExpertGateUp, Experts, FeedForward, Layer, LayerInfo, Moe, Operator, Packed,
    QkvProjection, RouterBias, Stack};
use crate::quantized::GgmlDType;
use crate::tensor::{DType, Device};

verus! {

/// A decoder. `owner` tells instances apart, also when they have one shape.
#[derive(Debug)]
pub struct Model {
    config: Config,
    layers: Vec<Layer>,
    owner: u64,
    device: Device,
    tied: bool,
}

pub struct ModelView {
    pub config: ConfigView,
    pub layers: Seq<Layer>,
    pub owner: u64,
    pub device: Device,
    /// The output projection is the embedding table.
    pub tied: bool,
}

/// A snapshot of everything a sequence's future depends on. It belongs to one
/// model instance.
#[derive(Debug)]
pub struct State {
    owner: u64,
    len: usize,
    kv: Vec<Option<KvCache>>,
    conv: Vec<Option<ConvState>>,
}

#[verifier::ext_equal]
pub struct StateView {
    pub owner: u64,
    pub len: usize,
    pub kv: Seq<Option<KvCache>>,
    pub conv: Seq<Option<ConvState>>,
}

impl View for Model {
    type V = ModelView;

    closed spec fn view(&self) -> ModelView {
        ModelView {
            config: self.config@,
            layers: self.layers@,
            owner: self.owner,
            device: self.device,
            tied: self.tied,
        }
    }
}

impl Model {
    #[verifier::type_invariant]
    spec fn inv(self) -> bool {
        self@.wf()
    }
}

impl View for State {
    type V = StateView;

    closed spec fn view(&self) -> StateView {
        StateView { owner: self.owner, len: self.len, kv: self.kv@, conv: self.conv@ }
    }
}

impl ModelView {
    /// The layers are those of the configuration.
    pub open spec fn wf(self) -> bool {
        &&& self.config.valid()
        &&& self.layers.len() == self.config.layers
        &&& forall|i: int|
            0 <= i < self.layers.len() ==> match (#[trigger] self.layers[i]).operator {
                Operator::Attention(_) => self.config.kv[i] > 0,
                Operator::Conv { k } => self.config.kv[i] == 0 && k == self.config.kernel,
            }
    }

    pub open spec fn router_bias(self, layer: int) -> Option<RouterBias> {
        if 0 <= layer < self.layers.len() {
            self.layers[layer].spec_router_bias()
        } else {
            None
        }
    }

    /// The state was made by this instance, with a slot for each of its layers.
    pub open spec fn owns(self, state: StateView) -> bool {
        &&& state.owner == self.owner
        &&& state.kv.len() == self.layers.len()
        &&& state.conv.len() == self.layers.len()
    }
}

/// The state of a sequence of no tokens.
pub open spec fn empty_state(model: ModelView) -> StateView {
    StateView {
        owner: model.owner,
        len: 0,
        kv: Seq::new(model.layers.len(), |i: int| None),
        conv: Seq::new(model.layers.len(), |i: int| None),
    }
}

impl State {
    pub fn len(&self) -> (res: usize)
        ensures
            res == self@.len,
    {
        self.len
    }

    pub fn is_empty(&self) -> (res: bool)
        ensures
            res == (self@.len == 0),
    {
        self.len == 0
    }

    /// Where layer `layer` keeps this sequence's keys and values.
    pub fn kv(&self, layer: usize) -> (res: Option<KvCache>)
        requires
            layer < self@.kv.len(),
        ensures
            res == self@.kv[layer as int],
    {
        self.kv[layer]
    }

    /// Where layer `layer` keeps this sequence's convolution history.
    pub fn conv(&self, layer: usize) -> (res: Option<ConvState>)
        requires
            layer < self@.conv.len(),
        ensures
            res == self@.conv[layer as int],
    {
        self.conv[layer]
    }

    pub(crate) fn put_kv(&mut self, layer: usize, next: KvCache)
        requires
            layer < old(self)@.kv.len(),
        ensures
            final(self)@ == (StateView { kv: old(self)@.kv.update(layer as int, Some(next)), ..old(self)@ }),
    {
        self.kv.set(layer, Some(next));
    }

    pub(crate) fn put_conv(&mut self, layer: usize, next: Option<ConvState>)
        requires
            layer < old(self)@.conv.len(),
        ensures
            final(self)@ == (StateView { conv: old(self)@.conv.update(layer as int, next), ..old(self)@ }),
    {
        self.conv.set(layer, next);
    }

    pub(crate) fn advance(&mut self, seq: usize)
        requires
            old(self)@.len + seq <= usize::MAX,
        ensures
            final(self)@ == (StateView { len: (old(self)@.len + seq) as usize, ..old(self)@ }),
    {
        self.len = self.len + seq;
    }
}

impl Clone for State {
    fn clone(&self) -> (res: Self)
        ensures
            res@ == self@,
    {
        State { owner: self.owner, len: self.len, kv: copied(&self.kv), conv: copied(&self.conv) }
    }
}

impl Model {
    pub fn new_state(&self) -> (res: State)
        ensures
            res@ == empty_state(self@),
    {
        let n: usize = self.layers.len();
        let mut kv: Vec<Option<KvCache>> = Vec::new();
        let mut conv: Vec<Option<ConvState>> = Vec::new();
        let mut i: usize = 0;
        while i < n
            invariant
                i <= n,
                kv@ == Seq::new(i as nat, |j: int| None::<KvCache>),
                conv@ == Seq::new(i as nat, |j: int| None::<ConvState>),
            decreases n - i,
        {
            kv.push(None);
            conv.push(None);
            i = i + 1;
            proof {
                assert(kv@ =~= Seq::new(i as nat, |j: int| None::<KvCache>));
                assert(conv@ =~= Seq::new(i as nat, |j: int| None::<ConvState>));
            }
        }
        let res = State { owner: self.owner, len: 0, kv, conv };
        proof {
            assert(res@ =~= empty_state(self@));
        }
        res
    }

    /// Whether a snapshot belongs to this instance.
    pub fn owns_state(&self, state: &State) -> (res: bool)
        ensures
            res == self@.owns(state@),
    {
        state.owner == self.owner && state.kv.len() == self.layers.len() && state.conv.len() == self.layers.len()
    }

    pub fn context_length(&self) -> (res: usize)
        ensures
            res == self@.config.context,
    {
        self.config.context
    }

    pub fn vocab_size(&self) -> (res: usize)
        ensures
            res == self@.config.vocab,
    {
        self.config.vocab
    }

    pub fn hidden_size(&self) -> (res: usize)
        ensures
            res == self@.config.hidden,
    {
        self.config.hidden
    }

    pub fn device(&self) -> (res: &Device)
        ensures
            *res == self@.device,
    {
        &self.device
    }

    /// The configuration the model was built from.
    pub fn config(&self) -> (res: &Config)
        ensures
            res@ == self@.config,
    {
        &self.config
    }

    /// Whether the output projection is the embedding table.
    pub fn is_tied(&self) -> (res: bool)
        ensures
            res == self@.tied,
    {
        self.tied
    }

    /// An expert layer's selection bias; `None` for a dense layer, and for a
    /// layer that does not exist.
    pub fn router_bias(&self, layer: usize) -> (res: Option<RouterBias>)
        ensures
            res == self@.router_bias(layer as int),
    {
        if layer < self.layers.len() {
            self.layers[layer].router_bias()
        } else {
            None
        }
    }

    /// All layers' parts.
    pub fn parts(&self) -> (res: &Vec<Layer>)
        ensures
            res@ == self@.layers,
            self@.wf(),
    {
        proof {
            use_type_invariant(&*self);
        }
        &self.layers
    }

    pub fn layers(&self) -> (res: Vec<LayerInfo>)
        ensures
            res@ == self@.layers.map_values(|l: Layer| l.spec_info()),
    {
        let mut res: Vec<LayerInfo> = Vec::new();
        let mut i: usize = 0;
        while i < self.layers.len()
            invariant
                i <= self.layers@.len(),
                res@.len() == i,
                forall|j: int| 0 <= j < i ==> #[trigger] res@[j] == self.layers@[j].spec_info(),
            decreases self.layers@.len() - i,
        {
            res.push(self.layers[i].info());
            i = i + 1;
        }
        proof {
            assert(res@ =~= self@.layers.map_values(|l: Layer| l.spec_info()));
        }
        res
    }
}

/// Format of a tensor that the file has.
pub open spec fn dtype_of(t: Seq<TensorEntry>, name: TensorName) -> GgmlDType {
    t[gguf::tensor_index(t, name.spec_text())->0].dtype
}

pub open spec fn block_dtype(t: Seq<TensorEntry>, i: int, part: BlockTensor) -> GgmlDType {
    dtype_of(t, TensorName::Block { layer: i as usize, part })
}

pub open spec fn spec_operator(c: ConfigView, t: Seq<TensorEntry>, i: int) -> Operator {
    if c.kv[i] > 0 {
        Operator::Attention(AttentionLayer {
            qkv: layers::spec_qkv(
                block_dtype(t, i, BlockTensor::Query),
                block_dtype(t, i, BlockTensor::Key),
                block_dtype(t, i, BlockTensor::Value),
                c.hidden as u64,
                gguf::kv_rows(c, i),
            ),
            n_head: c.heads,
            n_kv_head: c.kv[i],
            head_dim: gguf::head_dim(c),
        })
    } else {
        Operator::Conv { k: c.kernel }
    }
}

pub open spec fn spec_stack(c: ConfigView, t: Seq<TensorEntry>, i: int, part: BlockTensor) -> Stack {
    let (e, f, h) = (c.experts as u64, c.expert_ff as u64, c.hidden as u64);
    Stack {
        dtype: block_dtype(t, i, part),
        experts: e,
        n: if part == BlockTensor::DownExperts { h } else { f },
        k: if part == BlockTensor::DownExperts { f } else { h },
    }
}

pub open spec fn spec_ffn(c: ConfigView, t: Seq<TensorEntry>, device: Device, i: int) -> FeedForward {
    if i < c.dense {
        FeedForward::Dense
    } else {
        FeedForward::Moe(Moe {
            bias: RouterBias { experts: c.experts, dtype: DType::F32, device },
            gate_up: layers::spec_gate_up(
                spec_stack(c, t, i, BlockTensor::GateExperts),
                spec_stack(c, t, i, BlockTensor::UpExperts),
                device,
            ),
            down: layers::spec_experts(spec_stack(c, t, i, BlockTensor::DownExperts), device),
            topk: c.topk,
        })
    }
}

pub open spec fn spec_layer(c: ConfigView, t: Seq<TensorEntry>, device: Device, i: int) -> Layer {
    Layer { operator: spec_operator(c, t, i), ffn: spec_ffn(c, t, device, i) }
}

pub open spec fn has_output(t: Seq<TensorEntry>) -> bool {
    gguf::tensor_index(t, TensorName::Output.spec_text()) is Some
}

/// The requests that the file's own configuration leads to.
pub open spec fn file_requests(content: Content) -> Seq<(TensorName, Seq<u64>)> {
    gguf::all_requests(gguf::spec_config(content.metadata@), has_output(content.tensors@))
}

/// Why no model can be loaded, if none can; the first reason counts.
pub open spec fn load_error(content: Content) -> Option<LoadError> {
    gguf::either(
        gguf::config_error(content.metadata@),
        gguf::first_error(content.tensors@, file_requests(content)),
    )
}

/// The model that a file describes.
pub open spec fn loaded(content: Content, device: Device, owner: u64) -> ModelView {
    let c = gguf::spec_config(content.metadata@);
    ModelView {
        config: c,
        layers: Seq::new(c.layers as nat, |i: int| spec_layer(c, content.tensors@, device, i)),
        owner,
        device,
        tied: !has_output(content.tensors@),
    }
}

/// A tensor that every request of the model covers has an entry.
proof fn lemma_requested(c: ConfigView, t: Seq<TensorEntry>, out: bool, i: int, j: int)
    requires
        gguf::first_error(t, gguf::all_requests(c, out)) is None,
        0 <= i < c.kv.len(),
        0 <= j < gguf::block_requests(c, i).len(),
    ensures
        gguf::request_error(t, gguf::block_requests(c, i)[j]) is None,
{
    let all = gguf::all_requests(c, out);
    let at = lemma_block_position(c, c.kv.len(), i, j);
    let head = gguf::head_requests(c, out);
    assert(all[head.len() + at] == gguf::block_requests(c, i)[j]);
    gguf::lemma_no_first_error(t, all, head.len() + at);
}

proof fn lemma_block_position(c: ConfigView, n: nat, i: int, j: int) -> (at: int)
    requires
        0 <= i < n,
        0 <= j < gguf::block_requests(c, i).len(),
    ensures
        0 <= at < gguf::blocks_requests(c, n).len(),
        gguf::blocks_requests(c, n)[at] == gguf::block_requests(c, i)[j],
    decreases n,
{
    let before = gguf::blocks_requests(c, (n - 1) as nat);
    if i == n - 1 {
        before.len() + j
    } else {
        lemma_block_position(c, (n - 1) as nat, i, j)
    }
}

fn entry_dtype(t: &Vec<TensorEntry>, layer: usize, part: BlockTensor) -> (res: GgmlDType)
    requires
        gguf::tensor_index(t@, (TensorName::Block { layer, part }).spec_text()) is Some,
    ensures
        res == block_dtype(t@, layer as int, part),
{
    match find_tensor(t, &TensorName::Block { layer, part }) {
        Some(i) => t[i].dtype,
        None => GgmlDType::F32,
    }
}

fn packed(dtype: GgmlDType, rows: u64, width: u64) -> (res: Packed)
    ensures
        res.dtype == dtype,
        res.dims@ == seq![rows, width],
{
    let mut dims: Vec<u64> = Vec::new();
    dims.push(rows);
    dims.push(width);
    Packed { dtype, dims }
}

fn build_operator(c: &Config, t: &Vec<TensorEntry>, i: usize, Ghost(out): Ghost<bool>) -> (res: Operator)
    requires
        c@.valid(),
        c@.bounded(),
        i < c.kv@.len(),
        gguf::first_error(t@, gguf::all_requests(c@, out)) is None,
    ensures
        res == spec_operator(c@, t@, i as int),
{
    let n_kv_head: usize = c.kv[i];
    if n_kv_head == 0 {
        return Operator::Conv { k: c.kernel };
    }
    proof {
        assert forall|j: int| 0 <= j < gguf::operator_requests(c@, i as int).len() implies gguf::request_error(
            t@,
            #[trigger] gguf::operator_requests(c@, i as int)[j],
        ) is None by {
            let before = gguf::norm_requests(c@, i as int) + gguf::ffn_requests(c@, i as int);
            lemma_requested(c@, t@, out, i as int, before.len() + j);
            assert(gguf::block_requests(c@, i as int)[before.len() + j] == gguf::operator_requests(c@, i as int)[j]);
        }
        let asked = gguf::operator_requests(c@, i as int);
        assert(gguf::request_error(t@, asked[0]) is None);
        assert(gguf::request_error(t@, asked[1]) is None);
        assert(gguf::request_error(t@, asked[2]) is None);
    }
    let h: u64 = c.hidden as u64;
    let rows: u64 = c.kv_rows(i);
    let query = packed(entry_dtype(t, i, BlockTensor::Query), h, h);
    let key = packed(entry_dtype(t, i, BlockTensor::Key), rows, h);
    let value = packed(entry_dtype(t, i, BlockTensor::Value), rows, h);
    proof {
        assert(layers::qkv_error(query, key, value) is None);
    }
    let qkv = match QkvProjection::new(&query, &key, &value) {
        Ok(p) => p,
        Err(_) => QkvProjection::Separate { q: h, kv: rows },
    };
    Operator::Attention(AttentionLayer { qkv, n_head: c.heads, n_kv_head, head_dim: c.hidden / c.heads })
}

fn build_ffn(c: &Config, t: &Vec<TensorEntry>, device: Device, i: usize, Ghost(out): Ghost<bool>) -> (res: FeedForward)
    requires
        c@.valid(),
        c@.bounded(),
        i < c.kv@.len(),
        gguf::first_error(t@, gguf::all_requests(c@, out)) is None,
    ensures
        res == spec_ffn(c@, t@, device, i as int),
{
    if i < c.dense {
        return FeedForward::Dense;
    }
    proof {
        assert forall|j: int| 0 <= j < gguf::ffn_requests(c@, i as int).len() implies gguf::request_error(
            t@,
            #[trigger] gguf::ffn_requests(c@, i as int)[j],
        ) is None by {
            lemma_requested(c@, t@, out, i as int, 2 + j);
            assert(gguf::block_requests(c@, i as int)[2 + j] == gguf::ffn_requests(c@, i as int)[j]);
        }
        let asked = gguf::ffn_requests(c@, i as int);
        assert(gguf::request_error(t@, asked[2]) is None);
        assert(gguf::request_error(t@, asked[3]) is None);
        assert(gguf::request_error(t@, asked[4]) is None);
    }
    let e: u64 = c.experts as u64;
    let f: u64 = c.expert_ff as u64;
    let h: u64 = c.hidden as u64;
    let gate = Stack { dtype: entry_dtype(t, i, BlockTensor::GateExperts), experts: e, n: f, k: h };
    let up = Stack { dtype: entry_dtype(t, i, BlockTensor::UpExperts), experts: e, n: f, k: h };
    let down = Stack { dtype: entry_dtype(t, i, BlockTensor::DownExperts), experts: e, n: h, k: f };
    let gate_up = match ExpertGateUp::new(gate, up, device) {
        Ok(w) => w,
        Err(_) => ExpertGateUp::Merged(Experts::new(gate, device)),
    };
    FeedForward::Moe(
        Moe {
            bias: RouterBias { experts: c.experts, dtype: DType::F32, device },
            gate_up,
            down: Experts::new(down, device),
            topk: c.topk,
        },
    )
}

impl Model {
    /// Builds the model a file describes, and lists the tensors to read for it
    /// in order. `owner` must be a number that no other instance has.
    pub fn from_gguf(content: &Content, device: Device, owner: u64) -> (res: Result<(Model, Vec<Request>), LoadError>)
        ensures
            match res {
                Ok((model, requests)) => {
                    &&& load_error(*content) is None
                    &&& model@ == loaded(*content, device, owner)
                    &&& model@.wf()
                    &&& gguf::wanted(requests@) == file_requests(*content)
                },
                Err(e) => load_error(*content) == Some(e),
            },
    {
        let config = match Config::read(&content.metadata) {
            Ok(c) => c,
            Err(e) => {
                return Err(e);
            },
        };
        let tied = match find_tensor(&content.tensors, &TensorName::Output) {
            Some(_) => false,
            None => true,
        };
        let requests = config.requests(!tied);
        match check_requests(&content.tensors, &requests) {
            Ok(_) => {},
            Err(e) => {
                return Err(e);
            },
        }
        let ghost c = config@;
        let ghost t = content.tensors@;
        let mut built: Vec<Layer> = Vec::new();
        let mut i: usize = 0;
        while i < config.kv.len()
            invariant
                i <= config.kv@.len(),
                c == config@,
                t == content.tensors@,
                c.valid(),
                c.bounded(),
                gguf::first_error(t, gguf::all_requests(c, !tied)) is None,
                built@.len() == i,
                forall|j: int| 0 <= j < i ==> #[trigger] built@[j] == spec_layer(c, t, device, j),
            decreases config.kv@.len() - i,
        {
            let ffn = build_ffn(&config, &content.tensors, device, i, Ghost(!tied));
            let operator = build_operator(&config, &content.tensors, i, Ghost(!tied));
            built.push(Layer { operator, ffn });
            i = i + 1;
        }
        let model = Model { config, layers: built, owner, device, tied };
        proof {
            assert(model@.layers =~= loaded(*content, device, owner).layers);
            use_type_invariant(&model);
        }
        Ok((model, requests))
    }
}

/// Law: the attention layers of a loaded model fit together. Heads times
/// channels is the hidden size, channels pair up for rotation, each key/value
/// head serves a whole number of query heads, and the bundle holds exactly
/// these rows.
pub proof fn law_loaded_attention_fits_together(content: Content, device: Device, owner: u64, i: int)
    requires
        load_error(content) is None,
        0 <= i < loaded(content, device, owner).layers.len(),
        loaded(content, device, owner).layers[i].operator is Attention,
    ensures
        ({
            let hidden = loaded(content, device, owner).config.hidden;
            let a = loaded(content, device, owner).layers[i].operator->Attention_0;
            &&& a.qkv.wf()
            &&& a.n_head * a.head_dim == hidden
            &&& a.head_dim % 2 == 0
            &&& 0 < a.n_kv_head <= a.n_head
            &&& a.n_head % a.n_kv_head == 0
            &&& a.qkv.q() == hidden
            &&& a.qkv.kv() == a.n_kv_head * a.head_dim
            &&& 0 < a.qkv.kv() <= hidden
        }),
{
    let c = gguf::spec_config(content.metadata@);
    assert(c.valid());
    assert(gguf::kv_heads_fit(c.kv[i], c.heads));
    gguf::lemma_kv_rows(c.kv[i] as int, c.heads as int, c.hidden as int);
    let d = gguf::head_dim(c) as int;
    vstd::arithmetic::div_mod::lemma_fundamental_div_mod(c.hidden as int, c.heads as int);
}

/// Law: the expert layers of a loaded model fit together. The router scores as
/// many experts as every stack holds, some and at most all of them are used,
/// and the products go from the hidden size to twice the expert width (or once,
/// two times) and back.
pub proof fn law_loaded_experts_fit_together(content: Content, device: Device, owner: u64, i: int)
    requires
        load_error(content) is None,
        0 <= i < loaded(content, device, owner).layers.len(),
        loaded(content, device, owner).layers[i].ffn is Moe,
    ensures
        ({
            let c = loaded(content, device, owner).config;
            let m = loaded(content, device, owner).layers[i].ffn->Moe_0;
            let (e, f, h) = (c.experts as u64, c.expert_ff as u64, c.hidden as u64);
            &&& m.bias == (RouterBias { experts: c.experts, dtype: DType::F32, device })
            &&& 0 < m.topk <= c.experts
            &&& stack_of(m.down).experts == e && stack_of(m.down).n == h && stack_of(m.down).k == f
            &&& match m.gate_up {
                ExpertGateUp::Merged(w) => stack_of(w).experts == e && stack_of(w).n == 2 * f && stack_of(w).k == h,
                ExpertGateUp::Separate { gate, up } => {
                    &&& stack_of(gate).experts == e && stack_of(gate).n == f && stack_of(gate).k == h
                    &&& stack_of(up).experts == e && stack_of(up).n == f && stack_of(up).k == h
                    &&& stack_of(gate).dtype != stack_of(up).dtype
                },
            }
        }),
{
    let c = gguf::spec_config(content.metadata@);
    assert(c.valid());
}

/// The weights behind either form of expert weights.
pub open spec fn stack_of(w: Experts) -> Stack {
    match w {
        Experts::Quantized { stack, .. } => stack,
        Experts::Cpu(stack) => stack,
    }
}

} // verus!
