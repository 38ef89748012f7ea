//! What a model file says about the model in it: metadata, tensor entries, the
//! configuration read from them, and the tensors that configuration asks for.

use vstd::prelude::*;
use crate::ieee;
use crate::ieee::is_positive_finite;
use crate::quantized::GgmlDType;

verus! {

/// An element of a metadata list.
#[derive(Clone, Copy, PartialEq, Eq, Structural, Debug)]
pub enum ListItem {
    U32(u32),
    I32(i32),
    Other,
}

/// A metadata value. `F32` holds a bit pattern.
#[derive(Debug)]
pub enum MetaValue {
    U32(u32),
    F32(u32),
    Text(String),
    List(Vec<ListItem>),
    Other,
}

#[derive(Debug)]
pub struct TensorEntry {
    pub name: String,
    pub dims: Vec<u64>,
    pub dtype: GgmlDType,
}

/// The header of a model file. Of entries with one name, the last counts.
#[derive(Debug)]
pub struct Content {
    pub metadata: Vec<(String, MetaValue)>,
    pub tensors: Vec<TensorEntry>,
}

/// The metadata that a configuration is read from.
#[derive(Clone, Copy, PartialEq, Eq, Structural, Debug)]
pub enum MetaKey {
    Architecture,
    BlockCount,
    EmbeddingLength,
    HeadCount,
    LeadingDenseBlockCount,
    FeedForwardLength,
    ExpertCount,
    ExpertUsedCount,
    ExpertFeedForwardLength,
    ContextLength,
    VocabSize,
    ShortConvCache,
    ExpertGatingFunc,
    RmsEpsilon,
    RopeFreqBase,
    HeadCountKv,
}

impl MetaKey {
    pub open spec fn spec_text(self) -> Seq<char> {
        match self {
            MetaKey::Architecture => "general.architecture"@,
            MetaKey::BlockCount => "lfm2moe.block_count"@,
            MetaKey::EmbeddingLength => "lfm2moe.embedding_length"@,
            MetaKey::HeadCount => "lfm2moe.attention.head_count"@,
            MetaKey::LeadingDenseBlockCount => "lfm2moe.leading_dense_block_count"@,
            MetaKey::FeedForwardLength => "lfm2moe.feed_forward_length"@,
            MetaKey::ExpertCount => "lfm2moe.expert_count"@,
            MetaKey::ExpertUsedCount => "lfm2moe.expert_used_count"@,
            MetaKey::ExpertFeedForwardLength => "lfm2moe.expert_feed_forward_length"@,
            MetaKey::ContextLength => "lfm2moe.context_length"@,
            MetaKey::VocabSize => "lfm2moe.vocab_size"@,
            MetaKey::ShortConvCache => "lfm2moe.shortconv.l_cache"@,
            MetaKey::ExpertGatingFunc => "lfm2moe.expert_gating_func"@,
            MetaKey::RmsEpsilon => "lfm2moe.attention.layer_norm_rms_epsilon"@,
            MetaKey::RopeFreqBase => "lfm2moe.rope.freq_base"@,
            MetaKey::HeadCountKv => "lfm2moe.attention.head_count_kv"@,
        }
    }

    pub fn text(&self) -> (res: &'static str)
        ensures
            res@ == self.spec_text(),
    {
        match self {
            MetaKey::Architecture => "general.architecture",
            MetaKey::BlockCount => "lfm2moe.block_count",
            MetaKey::EmbeddingLength => "lfm2moe.embedding_length",
            MetaKey::HeadCount => "lfm2moe.attention.head_count",
            MetaKey::LeadingDenseBlockCount => "lfm2moe.leading_dense_block_count",
            MetaKey::FeedForwardLength => "lfm2moe.feed_forward_length",
            MetaKey::ExpertCount => "lfm2moe.expert_count",
            MetaKey::ExpertUsedCount => "lfm2moe.expert_used_count",
            MetaKey::ExpertFeedForwardLength => "lfm2moe.expert_feed_forward_length",
            MetaKey::ContextLength => "lfm2moe.context_length",
            MetaKey::VocabSize => "lfm2moe.vocab_size",
            MetaKey::ShortConvCache => "lfm2moe.shortconv.l_cache",
            MetaKey::ExpertGatingFunc => "lfm2moe.expert_gating_func",
            MetaKey::RmsEpsilon => "lfm2moe.attention.layer_norm_rms_epsilon",
            MetaKey::RopeFreqBase => "lfm2moe.rope.freq_base",
            MetaKey::HeadCountKv => "lfm2moe.attention.head_count_kv",
        }
    }
}

/// A tensor of one block.
#[derive(Clone, Copy, PartialEq, Eq, Structural, Debug)]
pub enum BlockTensor {
    AttnNorm,
    FfnNorm,
    FfnGate,
    FfnDown,
    FfnUp,
    Router,
    RouterBias,
    GateExperts,
    UpExperts,
    DownExperts,
    Query,
    Key,
    Value,
    AttnOutput,
    QueryNorm,
    KeyNorm,
    ConvInput,
    ConvOutput,
    ConvWeight,
}

impl BlockTensor {
    pub open spec fn spec_text(self) -> Seq<char> {
        match self {
            BlockTensor::AttnNorm => "attn_norm.weight"@,
            BlockTensor::FfnNorm => "ffn_norm.weight"@,
            BlockTensor::FfnGate => "ffn_gate.weight"@,
            BlockTensor::FfnDown => "ffn_down.weight"@,
            BlockTensor::FfnUp => "ffn_up.weight"@,
            BlockTensor::Router => "ffn_gate_inp.weight"@,
            BlockTensor::RouterBias => "exp_probs_b.bias"@,
            BlockTensor::GateExperts => "ffn_gate_exps.weight"@,
            BlockTensor::UpExperts => "ffn_up_exps.weight"@,
            BlockTensor::DownExperts => "ffn_down_exps.weight"@,
            BlockTensor::Query => "attn_q.weight"@,
            BlockTensor::Key => "attn_k.weight"@,
            BlockTensor::Value => "attn_v.weight"@,
            BlockTensor::AttnOutput => "attn_output.weight"@,
            BlockTensor::QueryNorm => "attn_q_norm.weight"@,
            BlockTensor::KeyNorm => "attn_k_norm.weight"@,
            BlockTensor::ConvInput => "shortconv.in_proj.weight"@,
            BlockTensor::ConvOutput => "shortconv.out_proj.weight"@,
            BlockTensor::ConvWeight => "shortconv.conv.weight"@,
        }
    }

    pub fn text(&self) -> (res: &'static str)
        ensures
            res@ == self.spec_text(),
    {
        match self {
            BlockTensor::AttnNorm => "attn_norm.weight",
            BlockTensor::FfnNorm => "ffn_norm.weight",
            BlockTensor::FfnGate => "ffn_gate.weight",
            BlockTensor::FfnDown => "ffn_down.weight",
            BlockTensor::FfnUp => "ffn_up.weight",
            BlockTensor::Router => "ffn_gate_inp.weight",
            BlockTensor::RouterBias => "exp_probs_b.bias",
            BlockTensor::GateExperts => "ffn_gate_exps.weight",
            BlockTensor::UpExperts => "ffn_up_exps.weight",
            BlockTensor::DownExperts => "ffn_down_exps.weight",
            BlockTensor::Query => "attn_q.weight",
            BlockTensor::Key => "attn_k.weight",
            BlockTensor::Value => "attn_v.weight",
            BlockTensor::AttnOutput => "attn_output.weight",
            BlockTensor::QueryNorm => "attn_q_norm.weight",
            BlockTensor::KeyNorm => "attn_k_norm.weight",
            BlockTensor::ConvInput => "shortconv.in_proj.weight",
            BlockTensor::ConvOutput => "shortconv.out_proj.weight",
            BlockTensor::ConvWeight => "shortconv.conv.weight",
        }
    }
}

#[derive(Clone, Copy, PartialEq, Eq, Structural, Debug)]
pub enum TensorName {
    Embedding,
    Output,
    FinalNorm,
    Block { layer: usize, part: BlockTensor },
}

pub open spec fn digit_char(d: int) -> char {
    if d == 0 {
        '0'
    } else if d == 1 {
        '1'
    } else if d == 2 {
        '2'
    } else if d == 3 {
        '3'
    } else if d == 4 {
        '4'
    } else if d == 5 {
        '5'
    } else if d == 6 {
        '6'
    } else if d == 7 {
        '7'
    } else if d == 8 {
        '8'
    } else {
        '9'
    }
}

/// `n` in decimal, without leading zeros.
pub open spec fn decimal(n: nat) -> Seq<char>
    decreases n,
{
    if n < 10 {
        seq![digit_char(n as int)]
    } else {
        decimal(n / 10).push(digit_char((n % 10) as int))
    }
}

fn append_digit(s: &mut String, d: usize)
    requires
        d < 10,
    ensures
        final(s)@ == old(s)@.push(digit_char(d as int)),
{
    proof {
        reveal_strlit("0");
        reveal_strlit("1");
        reveal_strlit("2");
        reveal_strlit("3");
        reveal_strlit("4");
        reveal_strlit("5");
        reveal_strlit("6");
        reveal_strlit("7");
        reveal_strlit("8");
        reveal_strlit("9");
    }
    let text = if d == 0 {
        "0"
    } else if d == 1 {
        "1"
    } else if d == 2 {
        "2"
    } else if d == 3 {
        "3"
    } else if d == 4 {
        "4"
    } else if d == 5 {
        "5"
    } else if d == 6 {
        "6"
    } else if d == 7 {
        "7"
    } else if d == 8 {
        "8"
    } else {
        "9"
    };
    let ghost before = s@;
    s.append(text);
    proof {
        assert(text@ =~= seq![digit_char(d as int)]);
        assert(s@ =~= before.push(digit_char(d as int)));
    }
}

fn append_decimal(s: &mut String, n: usize)
    ensures
        final(s)@ == old(s)@ + decimal(n as nat),
    decreases n,
{
    let ghost before = s@;
    if n >= 10 {
        append_decimal(s, n / 10);
    }
    append_digit(s, n % 10);
    proof {
        assert(s@ =~= before + decimal(n as nat));
    }
}

impl TensorName {
    pub open spec fn spec_text(self) -> Seq<char> {
        match self {
            TensorName::Embedding => "token_embd.weight"@,
            TensorName::Output => "output.weight"@,
            TensorName::FinalNorm => "token_embd_norm.weight"@,
            TensorName::Block { layer, part } => "blk."@ + decimal(layer as nat) + "."@ + part.spec_text(),
        }
    }

    pub fn text(&self) -> (res: String)
        ensures
            res@ == self.spec_text(),
    {
        match self {
            TensorName::Embedding => "token_embd.weight".to_owned(),
            TensorName::Output => "output.weight".to_owned(),
            TensorName::FinalNorm => "token_embd_norm.weight".to_owned(),
            TensorName::Block { layer, part } => {
                let mut s: String = "blk.".to_owned();
                append_decimal(&mut s, *layer);
                s.append(".");
                s.append(part.text());
                s
            },
        }
    }
}

#[derive(Clone, Copy, PartialEq, Eq, Structural, Debug)]
pub enum LoadError {
    MissingMetadata(MetaKey),
    /// The value has another type than the key calls for.
    MetadataType(MetaKey),
    Architecture,
    /// Experts are gated by anything but a sigmoid.
    Gating,
    /// A key/value head count that is no nonnegative integer.
    KvCount,
    /// Key/value head counts that are not given per layer.
    KvCountsNotListed,
    InvalidConfig,
    MissingTensor(TensorName),
    TensorShape(TensorName),
}

/// Position of the entry that counts for `key`.
pub open spec fn meta_index(m: Seq<(String, MetaValue)>, key: Seq<char>) -> Option<int>
    decreases m.len(),
{
    if m.len() == 0 {
        None
    } else if m.last().0@ == key {
        Some(m.len() - 1)
    } else {
        meta_index(m.drop_last(), key)
    }
}

/// Position of the entry that counts for a tensor's name.
pub open spec fn tensor_index(t: Seq<TensorEntry>, name: Seq<char>) -> Option<int>
    decreases t.len(),
{
    if t.len() == 0 {
        None
    } else if t.last().name@ == name {
        Some(t.len() - 1)
    } else {
        tensor_index(t.drop_last(), name)
    }
}

fn find_meta(m: &Vec<(String, MetaValue)>, key: MetaKey) -> (res: Option<usize>)
    ensures
        match res {
            Some(i) => i < m@.len() && meta_index(m@, key.spec_text()) == Some(i as int),
            None => meta_index(m@, key.spec_text()) is None,
        },
{
    let wanted: String = key.text().to_owned();
    let mut i: usize = m.len();
    proof {
        assert(m@.take(i as int) =~= m@);
    }
    while i > 0
        invariant
            i <= m@.len(),
            wanted@ == key.spec_text(),
            meta_index(m@, wanted@) == meta_index(m@.take(i as int), wanted@),
        decreases i,
    {
        proof {
            assert(m@.take(i as int).drop_last() =~= m@.take(i - 1));
        }
        if m[i - 1].0 == wanted {
            return Some(i - 1);
        }
        i = i - 1;
    }
    None
}

pub fn find_tensor(t: &Vec<TensorEntry>, name: &TensorName) -> (res: Option<usize>)
    ensures
        match res {
            Some(i) => i < t@.len() && tensor_index(t@, name.spec_text()) == Some(i as int),
            None => tensor_index(t@, name.spec_text()) is None,
        },
{
    let wanted: String = name.text();
    let mut i: usize = t.len();
    proof {
        assert(t@.take(i as int) =~= t@);
    }
    while i > 0
        invariant
            i <= t@.len(),
            wanted@ == name.spec_text(),
            tensor_index(t@, wanted@) == tensor_index(t@.take(i as int), wanted@),
        decreases i,
    {
        proof {
            assert(t@.take(i as int).drop_last() =~= t@.take(i - 1));
        }
        if t[i - 1].name == wanted {
            return Some(i - 1);
        }
        i = i - 1;
    }
    None
}

/// The value that counts for `key`.
pub open spec fn meta_value(m: Seq<(String, MetaValue)>, key: MetaKey) -> Option<MetaValue> {
    match meta_index(m, key.spec_text()) {
        Some(i) => Some(m[i].1),
        None => None,
    }
}

pub open spec fn number_error(m: Seq<(String, MetaValue)>, key: MetaKey) -> Option<LoadError> {
    match meta_value(m, key) {
        None => Some(LoadError::MissingMetadata(key)),
        Some(MetaValue::U32(_)) => None,
        Some(_) => Some(LoadError::MetadataType(key)),
    }
}

pub open spec fn number_value(m: Seq<(String, MetaValue)>, key: MetaKey) -> usize {
    match meta_value(m, key) {
        Some(MetaValue::U32(v)) => v as usize,
        _ => 0,
    }
}

fn number(m: &Vec<(String, MetaValue)>, key: MetaKey) -> (res: Result<usize, LoadError>)
    ensures
        match res {
            Ok(v) => number_error(m@, key) is None && v == number_value(m@, key) && v <= u32::MAX,
            Err(e) => number_error(m@, key) == Some(e),
        },
{
    match find_meta(m, key) {
        None => Err(LoadError::MissingMetadata(key)),
        Some(i) => match &m[i].1 {
            MetaValue::U32(v) => Ok(*v as usize),
            _ => Err(LoadError::MetadataType(key)),
        },
    }
}

pub open spec fn float_error(m: Seq<(String, MetaValue)>, key: MetaKey) -> Option<LoadError> {
    match meta_value(m, key) {
        None => Some(LoadError::MissingMetadata(key)),
        Some(MetaValue::F32(_)) => None,
        Some(_) => Some(LoadError::MetadataType(key)),
    }
}

pub open spec fn float_value(m: Seq<(String, MetaValue)>, key: MetaKey) -> u32 {
    match meta_value(m, key) {
        Some(MetaValue::F32(bits)) => bits,
        _ => 0,
    }
}

fn float_bits(m: &Vec<(String, MetaValue)>, key: MetaKey) -> (res: Result<u32, LoadError>)
    ensures
        match res {
            Ok(v) => float_error(m@, key) is None && v == float_value(m@, key),
            Err(e) => float_error(m@, key) == Some(e),
        },
{
    match find_meta(m, key) {
        None => Err(LoadError::MissingMetadata(key)),
        Some(i) => match &m[i].1 {
            MetaValue::F32(v) => Ok(*v),
            _ => Err(LoadError::MetadataType(key)),
        },
    }
}

pub open spec fn architecture_error(m: Seq<(String, MetaValue)>) -> Option<LoadError> {
    match meta_value(m, MetaKey::Architecture) {
        None => Some(LoadError::MissingMetadata(MetaKey::Architecture)),
        Some(MetaValue::Text(s)) => if s@ == "lfm2moe"@ {
            None
        } else {
            Some(LoadError::Architecture)
        },
        Some(_) => Some(LoadError::MetadataType(MetaKey::Architecture)),
    }
}

fn check_architecture(m: &Vec<(String, MetaValue)>) -> (res: Result<(), LoadError>)
    ensures
        match res {
            Ok(_) => architecture_error(m@) is None,
            Err(e) => architecture_error(m@) == Some(e),
        },
{
    match find_meta(m, MetaKey::Architecture) {
        None => Err(LoadError::MissingMetadata(MetaKey::Architecture)),
        Some(i) => match &m[i].1 {
            MetaValue::Text(s) => {
                let wanted: String = "lfm2moe".to_owned();
                if *s == wanted {
                    Ok(())
                } else {
                    Err(LoadError::Architecture)
                }
            },
            _ => Err(LoadError::MetadataType(MetaKey::Architecture)),
        },
    }
}

pub open spec fn is_count(item: ListItem) -> bool {
    match item {
        ListItem::U32(_) => true,
        ListItem::I32(v) => v >= 0,
        ListItem::Other => false,
    }
}

pub open spec fn count_value(item: ListItem) -> usize {
    match item {
        ListItem::U32(v) => v as usize,
        ListItem::I32(v) => v as usize,
        ListItem::Other => 0,
    }
}

pub open spec fn kv_error(m: Seq<(String, MetaValue)>) -> Option<LoadError> {
    match meta_value(m, MetaKey::HeadCountKv) {
        None => Some(LoadError::MissingMetadata(MetaKey::HeadCountKv)),
        Some(MetaValue::List(v)) => if all_counts(v@) {
            None
        } else {
            Some(LoadError::KvCount)
        },
        Some(_) => Some(LoadError::KvCountsNotListed),
    }
}

pub open spec fn all_counts(items: Seq<ListItem>) -> bool {
    forall|i: int| 0 <= i < items.len() ==> is_count(#[trigger] items[i])
}

/// Key/value heads per layer.
pub open spec fn kv_value(m: Seq<(String, MetaValue)>) -> Seq<usize> {
    match meta_value(m, MetaKey::HeadCountKv) {
        Some(MetaValue::List(v)) => v@.map_values(|item: ListItem| count_value(item)),
        _ => Seq::empty(),
    }
}

fn kv_counts(m: &Vec<(String, MetaValue)>) -> (res: Result<Vec<usize>, LoadError>)
    ensures
        match res {
            Ok(v) => kv_error(m@) is None && v@ == kv_value(m@),
            Err(e) => kv_error(m@) == Some(e),
        },
{
    let at: usize = match find_meta(m, MetaKey::HeadCountKv) {
        None => {
            return Err(LoadError::MissingMetadata(MetaKey::HeadCountKv));
        },
        Some(i) => i,
    };
    match &m[at].1 {
        MetaValue::List(items) => {
            let mut res: Vec<usize> = Vec::new();
            let mut i: usize = 0;
            while i < items.len()
                invariant
                    i <= items@.len(),
                    res@.len() == i,
                    forall|j: int| 0 <= j < i ==> is_count(#[trigger] items@[j]),
                    forall|j: int| 0 <= j < i ==> #[trigger] res@[j] == count_value(items@[j]),
                    meta_value(m@, MetaKey::HeadCountKv) == Some(MetaValue::List(*items)),
                decreases items@.len() - i,
            {
                match items[i] {
                    ListItem::U32(v) => {
                        res.push(v as usize);
                    },
                    ListItem::I32(v) => {
                        if v < 0 {
                            proof {
                                assert(!is_count(items@[i as int]));
                                assert(!all_counts(items@));
                            }
                            return Err(LoadError::KvCount);
                        }
                        res.push(v as usize);
                    },
                    ListItem::Other => {
                        proof {
                            assert(!is_count(items@[i as int]));
                            assert(!all_counts(items@));
                        }
                        return Err(LoadError::KvCount);
                    },
                }
                i = i + 1;
            }
            proof {
                assert(all_counts(items@));
                assert(res@ =~= kv_value(m@));
            }
            Ok(res)
        },
        _ => Err(LoadError::KvCountsNotListed),
    }
}

/// The numbers a decoder is built from. `eps` and `theta` are bit patterns;
/// `kv` holds each layer's key/value heads, 0 for a convolution layer.
#[derive(Debug)]
pub struct Config {
    pub layers: usize,
    pub hidden: usize,
    pub heads: usize,
    pub dense: usize,
    pub dense_ff: usize,
    pub experts: usize,
    pub topk: usize,
    pub expert_ff: usize,
    pub context: usize,
    pub vocab: usize,
    pub kernel: usize,
    pub eps: u32,
    pub theta: u32,
    pub kv: Vec<usize>,
}

#[verifier::ext_equal]
pub struct ConfigView {
    pub layers: usize,
    pub hidden: usize,
    pub heads: usize,
    pub dense: usize,
    pub dense_ff: usize,
    pub experts: usize,
    pub topk: usize,
    pub expert_ff: usize,
    pub context: usize,
    pub vocab: usize,
    pub kernel: usize,
    pub eps: u32,
    pub theta: u32,
    pub kv: Seq<usize>,
}

impl View for Config {
    type V = ConfigView;

    open spec fn view(&self) -> ConfigView {
        ConfigView {
            layers: self.layers,
            hidden: self.hidden,
            heads: self.heads,
            dense: self.dense,
            dense_ff: self.dense_ff,
            experts: self.experts,
            topk: self.topk,
            expert_ff: self.expert_ff,
            context: self.context,
            vocab: self.vocab,
            kernel: self.kernel,
            eps: self.eps,
            theta: self.theta,
            kv: self.kv@,
        }
    }
}

/// A layer's key/value heads divide the query heads; 0 means no attention.
pub open spec fn kv_heads_fit(v: usize, heads: usize) -> bool {
    v <= heads && (v > 0 ==> heads % v == 0)
}

impl ConfigView {
    /// A decoder can be built from these numbers.
    pub open spec fn valid(self) -> bool {
        &&& self.hidden > 0
        &&& self.heads > 0
        &&& self.hidden % self.heads == 0
        &&& (self.hidden / self.heads) % 2 == 0
        &&& self.layers > 0
        &&& self.kv.len() == self.layers
        &&& self.dense <= self.layers
        &&& self.dense_ff > 0
        &&& self.expert_ff > 0
        &&& self.experts > 0
        &&& 0 < self.topk <= self.experts
        &&& self.kernel > 0
        &&& 0 < self.context <= u32::MAX
        &&& self.vocab > 0
        &&& forall|i: int| 0 <= i < self.kv.len() ==> kv_heads_fit(#[trigger] self.kv[i], self.heads)
        &&& ieee::spec_is_positive_finite(self.eps)
        &&& ieee::spec_is_positive_finite(self.theta)
    }

    /// The sizes are numbers that a file can hold.
    pub open spec fn bounded(self) -> bool {
        &&& self.hidden <= u32::MAX
        &&& self.heads <= u32::MAX
        &&& self.expert_ff <= u32::MAX
    }
}

/// The numbers in a file's metadata.
pub open spec fn spec_config(m: Seq<(String, MetaValue)>) -> ConfigView {
    ConfigView {
        layers: number_value(m, MetaKey::BlockCount),
        hidden: number_value(m, MetaKey::EmbeddingLength),
        heads: number_value(m, MetaKey::HeadCount),
        dense: number_value(m, MetaKey::LeadingDenseBlockCount),
        dense_ff: number_value(m, MetaKey::FeedForwardLength),
        experts: number_value(m, MetaKey::ExpertCount),
        topk: number_value(m, MetaKey::ExpertUsedCount),
        expert_ff: number_value(m, MetaKey::ExpertFeedForwardLength),
        context: number_value(m, MetaKey::ContextLength),
        vocab: number_value(m, MetaKey::VocabSize),
        kernel: number_value(m, MetaKey::ShortConvCache),
        eps: float_value(m, MetaKey::RmsEpsilon),
        theta: float_value(m, MetaKey::RopeFreqBase),
        kv: kv_value(m),
    }
}

/// `a` if it is an error, else `b`.
pub open spec fn either(a: Option<LoadError>, b: Option<LoadError>) -> Option<LoadError> {
    if a is Some {
        a
    } else {
        b
    }
}

/// The first of the plain numbers that is missing or no number.
pub open spec fn numbers_error(m: Seq<(String, MetaValue)>) -> Option<LoadError> {
    either(number_error(m, MetaKey::BlockCount),
    either(number_error(m, MetaKey::EmbeddingLength),
    either(number_error(m, MetaKey::HeadCount),
    either(number_error(m, MetaKey::LeadingDenseBlockCount),
    either(number_error(m, MetaKey::FeedForwardLength),
    either(number_error(m, MetaKey::ExpertCount),
    either(number_error(m, MetaKey::ExpertUsedCount),
    either(number_error(m, MetaKey::ExpertFeedForwardLength),
    either(number_error(m, MetaKey::ContextLength),
    either(number_error(m, MetaKey::VocabSize), number_error(m, MetaKey::ShortConvCache)))))))))))
}

pub open spec fn gating_error(m: Seq<(String, MetaValue)>) -> Option<LoadError> {
    either(
        number_error(m, MetaKey::ExpertGatingFunc),
        if number_value(m, MetaKey::ExpertGatingFunc) != 2 {
            Some(LoadError::Gating)
        } else {
            None
        },
    )
}

/// Why no configuration can be read, if none can; the first reason counts.
pub open spec fn config_error(m: Seq<(String, MetaValue)>) -> Option<LoadError> {
    either(architecture_error(m),
    either(numbers_error(m),
    either(gating_error(m),
    either(float_error(m, MetaKey::RmsEpsilon),
    either(float_error(m, MetaKey::RopeFreqBase),
    either(kv_error(m),
    if spec_config(m).valid() {
        None
    } else {
        Some(LoadError::InvalidConfig)
    }))))))
}

fn heads_fit(kv: &Vec<usize>, heads: usize) -> (res: bool)
    ensures
        res == forall|i: int| 0 <= i < kv@.len() ==> kv_heads_fit(#[trigger] kv@[i], heads),
{
    let mut i: usize = 0;
    while i < kv.len()
        invariant
            i <= kv@.len(),
            forall|j: int| 0 <= j < i ==> kv_heads_fit(#[trigger] kv@[j], heads),
        decreases kv@.len() - i,
    {
        let v: usize = kv[i];
        if v > heads || (v > 0 && heads % v != 0) {
            proof {
                assert(!kv_heads_fit(kv@[i as int], heads));
            }
            return false;
        }
        i = i + 1;
    }
    true
}

impl Config {
    fn is_valid(&self) -> (res: bool)
        ensures
            res == self@.valid(),
    {
        self.hidden != 0 && self.heads != 0 && self.hidden % self.heads == 0 && (self.hidden / self.heads) % 2 == 0
            && self.layers != 0 && self.kv.len() == self.layers && self.dense <= self.layers && self.dense_ff != 0
            && self.expert_ff != 0 && self.experts != 0 && self.topk != 0 && self.topk <= self.experts && self.kernel
            != 0 && self.context != 0 && self.context <= u32::MAX as usize && self.vocab != 0 && heads_fit(
            &self.kv,
            self.heads,
        ) && is_positive_finite(self.eps) && is_positive_finite(self.theta)
    }

    /// Reads and validates the configuration.
    pub fn read(m: &Vec<(String, MetaValue)>) -> (res: Result<Config, LoadError>)
        ensures
            match res {
                Ok(c) => config_error(m@) is None && c@ == spec_config(m@) && c@.valid() && c@.bounded(),
                Err(e) => config_error(m@) == Some(e),
            },
    {
        match check_architecture(m) {
            Ok(_) => {},
            Err(e) => {
                return Err(e);
            },
        }
        let layers: usize = match number(m, MetaKey::BlockCount) {
            Ok(v) => v,
            Err(e) => {
                return Err(e);
            },
        };
        let hidden: usize = match number(m, MetaKey::EmbeddingLength) {
            Ok(v) => v,
            Err(e) => {
                return Err(e);
            },
        };
        let heads: usize = match number(m, MetaKey::HeadCount) {
            Ok(v) => v,
            Err(e) => {
                return Err(e);
            },
        };
        let dense: usize = match number(m, MetaKey::LeadingDenseBlockCount) {
            Ok(v) => v,
            Err(e) => {
                return Err(e);
            },
        };
        let dense_ff: usize = match number(m, MetaKey::FeedForwardLength) {
            Ok(v) => v,
            Err(e) => {
                return Err(e);
            },
        };
        let experts: usize = match number(m, MetaKey::ExpertCount) {
            Ok(v) => v,
            Err(e) => {
                return Err(e);
            },
        };
        let topk: usize = match number(m, MetaKey::ExpertUsedCount) {
            Ok(v) => v,
            Err(e) => {
                return Err(e);
            },
        };
        let expert_ff: usize = match number(m, MetaKey::ExpertFeedForwardLength) {
            Ok(v) => v,
            Err(e) => {
                return Err(e);
            },
        };
        let context: usize = match number(m, MetaKey::ContextLength) {
            Ok(v) => v,
            Err(e) => {
                return Err(e);
            },
        };
        let vocab: usize = match number(m, MetaKey::VocabSize) {
            Ok(v) => v,
            Err(e) => {
                return Err(e);
            },
        };
        let kernel: usize = match number(m, MetaKey::ShortConvCache) {
            Ok(v) => v,
            Err(e) => {
                return Err(e);
            },
        };
        let gating: usize = match number(m, MetaKey::ExpertGatingFunc) {
            Ok(v) => v,
            Err(e) => {
                return Err(e);
            },
        };
        if gating != 2 {
            return Err(LoadError::Gating);
        }
        let eps: u32 = match float_bits(m, MetaKey::RmsEpsilon) {
            Ok(v) => v,
            Err(e) => {
                return Err(e);
            },
        };
        let theta: u32 = match float_bits(m, MetaKey::RopeFreqBase) {
            Ok(v) => v,
            Err(e) => {
                return Err(e);
            },
        };
        let kv = match kv_counts(m) {
            Ok(v) => v,
            Err(e) => {
                return Err(e);
            },
        };
        let c = Config {
            layers,
            hidden,
            heads,
            dense,
            dense_ff,
            experts,
            topk,
            expert_ff,
            context,
            vocab,
            kernel,
            eps,
            theta,
            kv,
        };
        proof {
            assert(c@ =~= spec_config(m@));
        }
        if c.is_valid() {
            Ok(c)
        } else {
            Err(LoadError::InvalidConfig)
        }
    }
}

/// A tensor to read, with the dimensions it must have.
#[derive(Debug)]
pub struct Request {
    pub name: TensorName,
    pub dims: Vec<u64>,
}

pub open spec fn wants(r: Request) -> (TensorName, Seq<u64>) {
    (r.name, r.dims@)
}

pub open spec fn wanted(r: Seq<Request>) -> Seq<(TensorName, Seq<u64>)> {
    r.map_values(|x: Request| wants(x))
}

pub open spec fn part(i: int, part: BlockTensor, dims: Seq<u64>) -> (TensorName, Seq<u64>) {
    (TensorName::Block { layer: i as usize, part }, dims)
}

/// The tensors outside the blocks. The output projection is the embedding
/// again when the file has none of its own.
pub open spec fn head_requests(c: ConfigView, has_output: bool) -> Seq<(TensorName, Seq<u64>)> {
    let table = seq![c.vocab as u64, c.hidden as u64];
    let norm = (TensorName::FinalNorm, seq![c.hidden as u64]);
    if has_output {
        seq![(TensorName::Embedding, table), (TensorName::Output, table), norm]
    } else {
        seq![(TensorName::Embedding, table), norm]
    }
}

/// The feed-forward tensors of block `i`: dense in the leading blocks.
pub open spec fn ffn_requests(c: ConfigView, i: int) -> Seq<(TensorName, Seq<u64>)> {
    let h = c.hidden as u64;
    if i < c.dense {
        let f = c.dense_ff as u64;
        seq![
            part(i, BlockTensor::FfnGate, seq![f, h]),
            part(i, BlockTensor::FfnDown, seq![h, f]),
            part(i, BlockTensor::FfnUp, seq![f, h]),
        ]
    } else {
        let (e, f) = (c.experts as u64, c.expert_ff as u64);
        seq![
            part(i, BlockTensor::Router, seq![e, h]),
            part(i, BlockTensor::RouterBias, seq![e]),
            part(i, BlockTensor::GateExperts, seq![e, f, h]),
            part(i, BlockTensor::UpExperts, seq![e, f, h]),
            part(i, BlockTensor::DownExperts, seq![e, h, f]),
        ]
    }
}

/// Channels of one head.
pub open spec fn head_dim(c: ConfigView) -> usize {
    c.hidden / c.heads
}

/// Rows of a key or value projection of block `i`.
pub open spec fn kv_rows(c: ConfigView, i: int) -> u64 {
    (c.kv[i] * head_dim(c)) as u64
}

/// The tensors of block `i`'s attention or convolution.
pub open spec fn operator_requests(c: ConfigView, i: int) -> Seq<(TensorName, Seq<u64>)> {
    let h = c.hidden as u64;
    if c.kv[i] > 0 {
        let d = head_dim(c) as u64;
        seq![
            part(i, BlockTensor::Query, seq![h, h]),
            part(i, BlockTensor::Key, seq![kv_rows(c, i), h]),
            part(i, BlockTensor::Value, seq![kv_rows(c, i), h]),
            part(i, BlockTensor::AttnOutput, seq![h, h]),
            part(i, BlockTensor::QueryNorm, seq![d]),
            part(i, BlockTensor::KeyNorm, seq![d]),
        ]
    } else {
        seq![
            part(i, BlockTensor::ConvInput, seq![(3 * h) as u64, h]),
            part(i, BlockTensor::ConvOutput, seq![h, h]),
            part(i, BlockTensor::ConvWeight, seq![h, c.kernel as u64]),
        ]
    }
}

pub open spec fn norm_requests(c: ConfigView, i: int) -> Seq<(TensorName, Seq<u64>)> {
    let h = c.hidden as u64;
    seq![part(i, BlockTensor::AttnNorm, seq![h]), part(i, BlockTensor::FfnNorm, seq![h])]
}

pub open spec fn block_requests(c: ConfigView, i: int) -> Seq<(TensorName, Seq<u64>)> {
    norm_requests(c, i) + ffn_requests(c, i) + operator_requests(c, i)
}

/// The tensors of the first `n` blocks.
pub open spec fn blocks_requests(c: ConfigView, n: nat) -> Seq<(TensorName, Seq<u64>)>
    decreases n,
{
    if n == 0 {
        Seq::empty()
    } else {
        blocks_requests(c, (n - 1) as nat) + block_requests(c, n - 1)
    }
}

/// Every tensor of the model, in the order in which they are read.
pub open spec fn all_requests(c: ConfigView, has_output: bool) -> Seq<(TensorName, Seq<u64>)> {
    head_requests(c, has_output) + blocks_requests(c, c.kv.len())
}

/// Why a request cannot be met, if it cannot.
pub open spec fn request_error(t: Seq<TensorEntry>, r: (TensorName, Seq<u64>)) -> Option<LoadError> {
    match tensor_index(t, r.0.spec_text()) {
        None => Some(LoadError::MissingTensor(r.0)),
        Some(i) => if t[i].dims@ == r.1 {
            None
        } else {
            Some(LoadError::TensorShape(r.0))
        },
    }
}

/// The first request that cannot be met.
pub open spec fn first_error(t: Seq<TensorEntry>, r: Seq<(TensorName, Seq<u64>)>) -> Option<LoadError>
    decreases r.len(),
{
    if r.len() == 0 {
        None
    } else {
        either(first_error(t, r.drop_last()), request_error(t, r.last()))
    }
}

/// When nothing is wrong, every request is met.
pub proof fn lemma_no_first_error(t: Seq<TensorEntry>, r: Seq<(TensorName, Seq<u64>)>, i: int)
    requires
        first_error(t, r) is None,
        0 <= i < r.len(),
    ensures
        request_error(t, r[i]) is None,
    decreases r.len(),
{
    if i < r.len() - 1 {
        lemma_no_first_error(t, r.drop_last(), i);
    }
}

/// The first bad request decides, whatever follows it.
proof fn lemma_first_error_prefix(t: Seq<TensorEntry>, r: Seq<(TensorName, Seq<u64>)>, n: int)
    requires
        0 <= n <= r.len(),
        first_error(t, r.take(n)) is Some,
    ensures
        first_error(t, r) == first_error(t, r.take(n)),
    decreases r.len() - n,
{
    if n < r.len() {
        assert(r.take(n + 1).drop_last() =~= r.take(n));
        lemma_first_error_prefix(t, r, n + 1);
    } else {
        assert(r.take(n) =~= r);
    }
}

fn ask(to: &mut Vec<Request>, name: TensorName, dims: Vec<u64>)
    ensures
        wanted(final(to)@) == wanted(old(to)@).push((name, dims@)),
{
    let ghost before = to@;
    to.push(Request { name, dims });
    proof {
        assert(wanted(to@) =~= wanted(before).push((name, dims@)));
    }
}

fn one(a: u64) -> (res: Vec<u64>)
    ensures
        res@ == seq![a],
{
    let mut v: Vec<u64> = Vec::new();
    v.push(a);
    v
}

fn two(a: u64, b: u64) -> (res: Vec<u64>)
    ensures
        res@ == seq![a, b],
{
    let mut v: Vec<u64> = Vec::new();
    v.push(a);
    v.push(b);
    v
}

fn three(a: u64, b: u64, c: u64) -> (res: Vec<u64>)
    ensures
        res@ == seq![a, b, c],
{
    let mut v: Vec<u64> = Vec::new();
    v.push(a);
    v.push(b);
    v.push(c);
    v
}

impl Config {
    fn ask_ffn(&self, to: &mut Vec<Request>, i: usize)
        ensures
            wanted(final(to)@) == wanted(old(to)@) + ffn_requests(self@, i as int),
    {
        let ghost before = wanted(to@);
        let h: u64 = self.hidden as u64;
        if i < self.dense {
            let f: u64 = self.dense_ff as u64;
            ask(to, TensorName::Block { layer: i, part: BlockTensor::FfnGate }, two(f, h));
            ask(to, TensorName::Block { layer: i, part: BlockTensor::FfnDown }, two(h, f));
            ask(to, TensorName::Block { layer: i, part: BlockTensor::FfnUp }, two(f, h));
        } else {
            let e: u64 = self.experts as u64;
            let f: u64 = self.expert_ff as u64;
            ask(to, TensorName::Block { layer: i, part: BlockTensor::Router }, two(e, h));
            ask(to, TensorName::Block { layer: i, part: BlockTensor::RouterBias }, one(e));
            ask(to, TensorName::Block { layer: i, part: BlockTensor::GateExperts }, three(e, f, h));
            ask(to, TensorName::Block { layer: i, part: BlockTensor::UpExperts }, three(e, f, h));
            ask(to, TensorName::Block { layer: i, part: BlockTensor::DownExperts }, three(e, h, f));
        }
        proof {
            assert(wanted(to@) =~= before + ffn_requests(self@, i as int));
        }
    }

    fn ask_operator(&self, to: &mut Vec<Request>, i: usize)
        requires
            self@.valid(),
            self@.bounded(),
            i < self.kv@.len(),
        ensures
            wanted(final(to)@) == wanted(old(to)@) + operator_requests(self@, i as int),
    {
        let ghost before = wanted(to@);
        let h: u64 = self.hidden as u64;
        if self.kv[i] > 0 {
            let d: u64 = (self.hidden / self.heads) as u64;
            let rows: u64 = self.kv_rows(i);
            ask(to, TensorName::Block { layer: i, part: BlockTensor::Query }, two(h, h));
            ask(to, TensorName::Block { layer: i, part: BlockTensor::Key }, two(rows, h));
            ask(to, TensorName::Block { layer: i, part: BlockTensor::Value }, two(rows, h));
            ask(to, TensorName::Block { layer: i, part: BlockTensor::AttnOutput }, two(h, h));
            ask(to, TensorName::Block { layer: i, part: BlockTensor::QueryNorm }, one(d));
            ask(to, TensorName::Block { layer: i, part: BlockTensor::KeyNorm }, one(d));
        } else {
            ask(to, TensorName::Block { layer: i, part: BlockTensor::ConvInput }, two(3 * h, h));
            ask(to, TensorName::Block { layer: i, part: BlockTensor::ConvOutput }, two(h, h));
            ask(to, TensorName::Block { layer: i, part: BlockTensor::ConvWeight }, two(h, self.kernel as u64));
        }
        proof {
            assert(wanted(to@) =~= before + operator_requests(self@, i as int));
        }
    }

    /// Rows of a key or value projection of block `i`; never more than the
    /// hidden size.
    pub fn kv_rows(&self, i: usize) -> (res: u64)
        requires
            self@.valid(),
            self@.bounded(),
            i < self.kv@.len(),
        ensures
            res == kv_rows(self@, i as int),
            res <= self.hidden,
            self.kv@[i as int] > 0 ==> res > 0,
            res == self.kv@[i as int] * head_dim(self@),
    {
        let d: usize = self.hidden / self.heads;
        let n: usize = self.kv[i];
        proof {
            assert(kv_heads_fit(self.kv@[i as int], self.heads));
            lemma_kv_rows(n as int, self.heads as int, self.hidden as int);
        }
        (n as u64) * (d as u64)
    }

    /// Every tensor of the model, in the order in which they are to be read.
    pub fn requests(&self, has_output: bool) -> (res: Vec<Request>)
        requires
            self@.valid(),
            self@.bounded(),
        ensures
            wanted(res@) == all_requests(self@, has_output),
    {
        let mut to: Vec<Request> = Vec::new();
        let h: u64 = self.hidden as u64;
        let v: u64 = self.vocab as u64;
        ask(&mut to, TensorName::Embedding, two(v, h));
        if has_output {
            ask(&mut to, TensorName::Output, two(v, h));
        }
        ask(&mut to, TensorName::FinalNorm, one(h));
        proof {
            assert(wanted(to@) =~= head_requests(self@, has_output) + blocks_requests(self@, 0));
        }
        let mut i: usize = 0;
        while i < self.kv.len()
            invariant
                i <= self.kv@.len(),
                self@.valid(),
                self@.bounded(),
                wanted(to@) == head_requests(self@, has_output) + blocks_requests(self@, i as nat),
            decreases self.kv@.len() - i,
        {
            let ghost before = wanted(to@);
            let h: u64 = self.hidden as u64;
            ask(&mut to, TensorName::Block { layer: i, part: BlockTensor::AttnNorm }, one(h));
            ask(&mut to, TensorName::Block { layer: i, part: BlockTensor::FfnNorm }, one(h));
            proof {
                assert(wanted(to@) =~= before + norm_requests(self@, i as int));
            }
            self.ask_ffn(&mut to, i);
            self.ask_operator(&mut to, i);
            i = i + 1;
            proof {
                assert(wanted(to@) =~= head_requests(self@, has_output) + blocks_requests(self@, i as nat));
            }
        }
        to
    }
}

/// Fewer heads of the same channels take no more rows.
pub proof fn lemma_kv_rows(n: int, heads: int, hidden: int)
    requires
        0 <= n <= heads,
        0 < heads,
        0 < hidden <= u32::MAX,
        hidden % heads == 0,
    ensures
        0 <= n * (hidden / heads) <= hidden,
        n > 0 ==> n * (hidden / heads) > 0,
{
    let d = hidden / heads;
    vstd::arithmetic::div_mod::lemma_fundamental_div_mod(hidden, heads);
    assert(d * heads == hidden && d > 0) by (nonlinear_arith)
        requires
            hidden == heads * d + hidden % heads,
            hidden % heads == 0,
            hidden > 0,
            heads > 0,
    ;
    assert(0 <= n * d <= hidden && (n > 0 ==> n * d > 0)) by (nonlinear_arith)
        requires
            0 <= n <= heads,
            d > 0,
            d * heads == hidden,
    ;
}

/// Checks that every request can be met, in order.
pub fn check_requests(t: &Vec<TensorEntry>, r: &Vec<Request>) -> (res: Result<(), LoadError>)
    ensures
        match res {
            Ok(_) => first_error(t@, wanted(r@)) is None,
            Err(e) => first_error(t@, wanted(r@)) == Some(e),
        },
{
    let ghost all = wanted(r@);
    let mut i: usize = 0;
    proof {
        assert(all.take(0).len() == 0);
    }
    while i < r.len()
        invariant
            i <= r@.len(),
            all == wanted(r@),
            first_error(t@, all.take(i as int)) is None,
        decreases r@.len() - i,
    {
        proof {
            assert(all.take(i + 1).drop_last() =~= all.take(i as int));
            assert(all.take(i + 1).last() == wants(r@[i as int]));
        }
        match find_tensor(t, &r[i].name) {
            None => {
                proof {
                    lemma_first_error_prefix(t@, all, i + 1);
                }
                return Err(LoadError::MissingTensor(r[i].name));
            },
            Some(at) => {
                if !same_dims(&t[at].dims, &r[i].dims) {
                    proof {
                        lemma_first_error_prefix(t@, all, i + 1);
                    }
                    return Err(LoadError::TensorShape(r[i].name));
                }
            },
        }
        i = i + 1;
    }
    proof {
        assert(all.take(i as int) =~= all);
    }
    Ok(())
}

fn same_dims(a: &Vec<u64>, b: &Vec<u64>) -> (res: bool)
    ensures
        res == (a@ == b@),
{
    if a.len() != b.len() {
        return false;
    }
    let mut i: usize = 0;
    while i < a.len()
        invariant
            i <= a@.len() == b@.len(),
            forall|j: int| 0 <= j < i ==> a@[j] == b@[j],
        decreases a@.len() - i,
    {
        if a[i] != b[i] {
            return false;
        }
        i = i + 1;
    }
    proof {
        assert(a@ =~= b@);
    }
    true
}

} // verus!
