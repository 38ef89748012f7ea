//! Reading a model's configuration and tensors from a file header.

use lfm2_moe::gguf::{
    find_tensor, BlockTensor, Config, Content, ListItem, LoadError, MetaKey, MetaValue, TensorEntry, TensorName,
};
use lfm2_moe::layers::{ExpertGateUp, Experts, FeedForward, LayerInfo, Operator, QkvProjection, Stack};
use lfm2_moe::model::Model;
use lfm2_moe::quantized::GgmlDType;
use lfm2_moe::tensor::Device;

fn metadata() -> Vec<(String, MetaValue)> {
    let n = |key: MetaKey, v: u32| (key.text().to_string(), MetaValue::U32(v));
    vec![
        (MetaKey::Architecture.text().to_string(), MetaValue::Text("lfm2moe".to_string())),
        n(MetaKey::BlockCount, 2),
        n(MetaKey::EmbeddingLength, 512),
        n(MetaKey::HeadCount, 8),
        n(MetaKey::LeadingDenseBlockCount, 1),
        n(MetaKey::FeedForwardLength, 1024),
        n(MetaKey::ExpertCount, 4),
        n(MetaKey::ExpertUsedCount, 2),
        n(MetaKey::ExpertFeedForwardLength, 256),
        n(MetaKey::ContextLength, 128),
        n(MetaKey::VocabSize, 1000),
        n(MetaKey::ShortConvCache, 3),
        n(MetaKey::ExpertGatingFunc, 2),
        (MetaKey::RmsEpsilon.text().to_string(), MetaValue::F32(1e-5f32.to_bits())),
        (MetaKey::RopeFreqBase.text().to_string(), MetaValue::F32(1e6f32.to_bits())),
        (
            MetaKey::HeadCountKv.text().to_string(),
            MetaValue::List(vec![ListItem::U32(0), ListItem::I32(2)]),
        ),
    ]
}

fn set(m: &mut Vec<(String, MetaValue)>, key: MetaKey, value: MetaValue) {
    m.retain(|(k, _)| k != key.text());
    m.push((key.text().to_string(), value));
}

fn without(key: MetaKey) -> Vec<(String, MetaValue)> {
    let mut m = metadata();
    m.retain(|(k, _)| k != key.text());
    m
}

fn with(key: MetaKey, value: MetaValue) -> Vec<(String, MetaValue)> {
    let mut m = metadata();
    set(&mut m, key, value);
    m
}

fn tensors(output: bool) -> Vec<TensorEntry> {
    let config = Config::read(&metadata()).unwrap();
    config
        .requests(output)
        .into_iter()
        .map(|r| TensorEntry { name: r.name.text(), dims: r.dims, dtype: GgmlDType::Q5K })
        .collect()
}

const NUMBERS: [MetaKey; 12] = [
    MetaKey::BlockCount,
    MetaKey::EmbeddingLength,
    MetaKey::HeadCount,
    MetaKey::LeadingDenseBlockCount,
    MetaKey::FeedForwardLength,
    MetaKey::ExpertCount,
    MetaKey::ExpertUsedCount,
    MetaKey::ExpertFeedForwardLength,
    MetaKey::ContextLength,
    MetaKey::VocabSize,
    MetaKey::ShortConvCache,
    MetaKey::ExpertGatingFunc,
];

#[test]
fn a_configuration_is_read_as_written() {
    let c = Config::read(&metadata()).unwrap();
    assert_eq!((c.layers, c.hidden, c.heads, c.dense), (2, 512, 8, 1));
    assert_eq!((c.dense_ff, c.experts, c.topk, c.expert_ff), (1024, 4, 2, 256));
    assert_eq!((c.context, c.vocab, c.kernel), (128, 1000, 3));
    assert_eq!((f32::from_bits(c.eps), f32::from_bits(c.theta)), (1e-5, 1e6));
    assert_eq!(c.kv, vec![0, 2]);
    assert_eq!((c.kv_rows(0), c.kv_rows(1)), (0, 128));
}

#[test]
fn missing_and_mistyped_metadata_is_named() {
    for key in NUMBERS {
        assert_eq!(Config::read(&without(key)).unwrap_err(), LoadError::MissingMetadata(key));
        assert_eq!(Config::read(&with(key, MetaValue::Other)).unwrap_err(), LoadError::MetadataType(key));
    }
    for key in [MetaKey::Architecture, MetaKey::RmsEpsilon, MetaKey::RopeFreqBase] {
        assert_eq!(Config::read(&without(key)).unwrap_err(), LoadError::MissingMetadata(key));
        assert_eq!(Config::read(&with(key, MetaValue::U32(1))).unwrap_err(), LoadError::MetadataType(key));
    }
    let key = MetaKey::HeadCountKv;
    assert_eq!(Config::read(&without(key)).unwrap_err(), LoadError::MissingMetadata(key));
    assert_eq!(Config::read(&with(key, MetaValue::U32(2))).unwrap_err(), LoadError::KvCountsNotListed);
    for bad in [ListItem::I32(-1), ListItem::Other] {
        let m = with(key, MetaValue::List(vec![ListItem::U32(0), bad]));
        assert_eq!(Config::read(&m).unwrap_err(), LoadError::KvCount);
    }
    let m = with(MetaKey::Architecture, MetaValue::Text("lfm2".to_string()));
    assert_eq!(Config::read(&m).unwrap_err(), LoadError::Architecture);
    let m = with(MetaKey::ExpertGatingFunc, MetaValue::U32(1));
    assert_eq!(Config::read(&m).unwrap_err(), LoadError::Gating);
}

#[test]
fn the_first_problem_is_the_one_reported() {
    let mut m = without(MetaKey::VocabSize);
    set(&mut m, MetaKey::ExpertGatingFunc, MetaValue::U32(1));
    assert_eq!(Config::read(&m).unwrap_err(), LoadError::MissingMetadata(MetaKey::VocabSize));
    set(&mut m, MetaKey::Architecture, MetaValue::Text(String::new()));
    assert_eq!(Config::read(&m).unwrap_err(), LoadError::Architecture);
}

#[test]
fn the_last_of_two_entries_counts() {
    let mut m = metadata();
    m.push((MetaKey::VocabSize.text().to_string(), MetaValue::U32(77)));
    assert_eq!(Config::read(&m).unwrap().vocab, 77);
}

#[test]
fn impossible_numbers_are_refused() {
    let n = |key: MetaKey, v: u32| (key, MetaValue::U32(v));
    let f = |key: MetaKey, v: f32| (key, MetaValue::F32(v.to_bits()));
    let kv = |v: &[u32]| {
        (MetaKey::HeadCountKv, MetaValue::List(v.iter().map(|&n| ListItem::U32(n)).collect()))
    };
    for (key, value) in [
        n(MetaKey::EmbeddingLength, 0),
        n(MetaKey::HeadCount, 0),
        // Heads do not divide the width, or leave an odd one.
        n(MetaKey::HeadCount, 7),
        n(MetaKey::HeadCount, 512),
        n(MetaKey::BlockCount, 0),
        n(MetaKey::BlockCount, 3),
        n(MetaKey::LeadingDenseBlockCount, 3),
        n(MetaKey::FeedForwardLength, 0),
        n(MetaKey::ExpertFeedForwardLength, 0),
        n(MetaKey::ExpertCount, 0),
        n(MetaKey::ExpertUsedCount, 0),
        n(MetaKey::ExpertUsedCount, 5),
        n(MetaKey::ShortConvCache, 0),
        n(MetaKey::ContextLength, 0),
        n(MetaKey::VocabSize, 0),
        kv(&[0]),
        kv(&[0, 3]),
        kv(&[0, 16]),
        f(MetaKey::RmsEpsilon, 0.),
        f(MetaKey::RmsEpsilon, -1e-5),
        f(MetaKey::RmsEpsilon, f32::NAN),
        f(MetaKey::RopeFreqBase, f32::INFINITY),
        f(MetaKey::RopeFreqBase, -0.),
    ] {
        assert_eq!(Config::read(&with(key, value)).unwrap_err(), LoadError::InvalidConfig, "{key:?}");
    }
    assert!(Config::read(&with(MetaKey::LeadingDenseBlockCount, MetaValue::U32(2))).is_ok());
}

#[test]
fn names_are_those_of_the_file_format() {
    assert_eq!(MetaKey::ShortConvCache.text(), "lfm2moe.shortconv.l_cache");
    assert_eq!(TensorName::Embedding.text(), "token_embd.weight");
    let name = |layer: usize, part: BlockTensor| TensorName::Block { layer, part }.text();
    assert_eq!(name(0, BlockTensor::AttnNorm), "blk.0.attn_norm.weight");
    assert_eq!(name(9, BlockTensor::ConvInput), "blk.9.shortconv.in_proj.weight");
    assert_eq!(name(10, BlockTensor::RouterBias), "blk.10.exp_probs_b.bias");
    assert_eq!(name(1203, BlockTensor::DownExperts), "blk.1203.ffn_down_exps.weight");
    let t = tensors(false);
    let at = find_tensor(&t, &TensorName::Block { layer: 1, part: BlockTensor::Query }).unwrap();
    assert_eq!(t[at].name, "blk.1.attn_q.weight");
    assert!(find_tensor(&t, &TensorName::Output).is_none());
}

#[test]
fn tensors_are_asked_for_in_reading_order() {
    let config = Config::read(&metadata()).unwrap();
    let asked: Vec<(String, Vec<u64>)> =
        config.requests(true).into_iter().map(|r| (r.name.text(), r.dims)).collect();
    let want: Vec<(&str, Vec<u64>)> = vec![
        ("token_embd.weight", vec![1000, 512]),
        ("output.weight", vec![1000, 512]),
        ("token_embd_norm.weight", vec![512]),
        ("blk.0.attn_norm.weight", vec![512]),
        ("blk.0.ffn_norm.weight", vec![512]),
        ("blk.0.ffn_gate.weight", vec![1024, 512]),
        ("blk.0.ffn_down.weight", vec![512, 1024]),
        ("blk.0.ffn_up.weight", vec![1024, 512]),
        ("blk.0.shortconv.in_proj.weight", vec![1536, 512]),
        ("blk.0.shortconv.out_proj.weight", vec![512, 512]),
        ("blk.0.shortconv.conv.weight", vec![512, 3]),
        ("blk.1.attn_norm.weight", vec![512]),
        ("blk.1.ffn_norm.weight", vec![512]),
        ("blk.1.ffn_gate_inp.weight", vec![4, 512]),
        ("blk.1.exp_probs_b.bias", vec![4]),
        ("blk.1.ffn_gate_exps.weight", vec![4, 256, 512]),
        ("blk.1.ffn_up_exps.weight", vec![4, 256, 512]),
        ("blk.1.ffn_down_exps.weight", vec![4, 512, 256]),
        ("blk.1.attn_q.weight", vec![512, 512]),
        ("blk.1.attn_k.weight", vec![128, 512]),
        ("blk.1.attn_v.weight", vec![128, 512]),
        ("blk.1.attn_output.weight", vec![512, 512]),
        ("blk.1.attn_q_norm.weight", vec![64]),
        ("blk.1.attn_k_norm.weight", vec![64]),
    ];
    assert_eq!(asked.len(), want.len());
    for (got, want) in asked.iter().zip(&want) {
        assert_eq!((got.0.as_str(), &got.1), (want.0, &want.1));
    }
}

#[test]
fn a_model_is_built_from_its_file() {
    for output in [false, true] {
        let content = Content { metadata: metadata(), tensors: tensors(output) };
        let (model, requests) = Model::from_gguf(&content, Device::Rocm(0), 5).unwrap();
        assert_eq!(requests.len(), if output { 24 } else { 23 });
        assert_eq!(model.is_tied(), !output);
        assert_eq!((model.context_length(), model.vocab_size(), model.hidden_size()), (128, 1000, 512));
        assert_eq!(*model.device(), Device::Rocm(0));
        assert_eq!(
            model.layers(),
            vec![
                LayerInfo { attention: false, experts: None },
                LayerInfo { attention: true, experts: Some((4, 2)) },
            ]
        );
        let parts = model.parts();
        assert_eq!(parts[0].operator, Operator::Conv { k: 3 });
        let Operator::Attention(a) = parts[1].operator else { panic!("{:?}", parts[1]) };
        assert_eq!(a.qkv, QkvProjection::Fused { q: 512, kv: 128 });
        assert_eq!((a.n_head, a.n_kv_head, a.head_dim), (8, 2, 64));
        let FeedForward::Moe(moe) = parts[1].ffn else { panic!("{:?}", parts[1]) };
        let stack = |n: u64, k: u64| Stack { dtype: GgmlDType::Q5K, experts: 4, n, k };
        let on = |stack: Stack| Experts::Quantized { stack, device: Device::Rocm(0) };
        assert_eq!(moe.gate_up, ExpertGateUp::Merged(on(stack(512, 512))));
        assert_eq!(moe.down, on(stack(512, 256)));
        let state = model.new_state();
        assert!(model.owns_state(&state) && state.is_empty());
    }
}

#[test]
fn mixed_formats_are_kept_apart() {
    let mut t = tensors(false);
    for e in &mut t {
        if e.name == "blk.1.attn_v.weight" || e.name == "blk.1.ffn_up_exps.weight" {
            e.dtype = GgmlDType::Q6K;
        }
    }
    let (model, _) = Model::from_gguf(&Content { metadata: metadata(), tensors: t }, Device::Cpu, 1).unwrap();
    let Operator::Attention(a) = model.parts()[1].operator else { panic!() };
    assert_eq!(a.qkv, QkvProjection::Qk { q: 512, kv: 128 });
    let FeedForward::Moe(moe) = model.parts()[1].ffn else { panic!() };
    assert!(matches!(moe.gate_up, ExpertGateUp::Separate { .. }));
}

#[test]
fn missing_and_misshapen_tensors_are_named() {
    let config = Config::read(&metadata()).unwrap();
    for (i, r) in config.requests(true).iter().enumerate() {
        // Without an output tensor the embedding serves, so none is missing.
        if r.name != TensorName::Output {
            let mut t = tensors(true);
            t.remove(i);
            let err = Model::from_gguf(&Content { metadata: metadata(), tensors: t }, Device::Cpu, 1).unwrap_err();
            assert_eq!(err, LoadError::MissingTensor(r.name));
        }
        let mut t = tensors(true);
        t[i].dims.push(1);
        let err = Model::from_gguf(&Content { metadata: metadata(), tensors: t }, Device::Cpu, 1).unwrap_err();
        assert_eq!(err, LoadError::TensorShape(r.name));
    }
    // The first of two problems, in reading order.
    let mut t = tensors(true);
    t.remove(20);
    t[3].dims[0] += 1;
    let err = Model::from_gguf(&Content { metadata: metadata(), tensors: t }, Device::Cpu, 1).unwrap_err();
    let first = TensorName::Block { layer: 0, part: BlockTensor::AttnNorm };
    assert_eq!(err, LoadError::TensorShape(first));
    let err = Model::from_gguf(&Content { metadata: vec![], tensors: tensors(true) }, Device::Cpu, 1).unwrap_err();
    assert_eq!(err, LoadError::MissingMetadata(MetaKey::Architecture));
}
