//! Whole passes of a tiny decoder: convolution, attention, convolution; one
//! leading dense block, then three experts of which two are used. The numeric
//! steps are plain loops here; everything between them is the library's.

use std::cell::RefCell;
use std::collections::HashMap;

use lfm2_moe::attention::causal_mask;
use lfm2_moe::conv::ConvStore;
use lfm2_moe::gguf::{BlockTensor, Content, ListItem, MetaKey, MetaValue, TensorEntry, TensorName};
use lfm2_moe::kv_cache::{KvChunk, KvFormat, KvStore};
use lfm2_moe::layers::{LayerInfo, Operator};
use lfm2_moe::model::{Model, State};
use lfm2_moe::ops::{moe_route, Routed};
use lfm2_moe::pass::{Action, Pass, RunError};
use lfm2_moe::quantized::GgmlDType;
use lfm2_moe::steering::{Steering, SteeringBias, SteeringError};
use lfm2_moe::tensor::{DType, Device, Operand};

const H: usize = 8;
const HEAD: usize = 4;
const K: usize = 3;

fn content() -> Content {
    let n = |key: MetaKey, v: u32| (key.text().to_string(), MetaValue::U32(v));
    let metadata = vec![
        (MetaKey::Architecture.text().to_string(), MetaValue::Text("lfm2moe".to_string())),
        n(MetaKey::BlockCount, 3),
        n(MetaKey::EmbeddingLength, 8),
        n(MetaKey::HeadCount, 2),
        n(MetaKey::LeadingDenseBlockCount, 1),
        n(MetaKey::FeedForwardLength, 12),
        n(MetaKey::ExpertCount, 3),
        n(MetaKey::ExpertUsedCount, 2),
        n(MetaKey::ExpertFeedForwardLength, 6),
        n(MetaKey::ContextLength, 32),
        n(MetaKey::VocabSize, 16),
        n(MetaKey::ShortConvCache, 3),
        n(MetaKey::ExpertGatingFunc, 2),
        (MetaKey::RmsEpsilon.text().to_string(), MetaValue::F32(1e-5f32.to_bits())),
        (MetaKey::RopeFreqBase.text().to_string(), MetaValue::F32(10000f32.to_bits())),
        (
            MetaKey::HeadCountKv.text().to_string(),
            MetaValue::List(vec![ListItem::U32(0), ListItem::I32(1), ListItem::U32(0)]),
        ),
    ];
    let mut tensors = Vec::new();
    let mut add = |name: TensorName, dims: &[u64]| {
        tensors.push(TensorEntry { name: name.text(), dims: dims.to_vec(), dtype: GgmlDType::F32 })
    };
    add(TensorName::Embedding, &[16, 8]);
    add(TensorName::FinalNorm, &[8]);
    for layer in 0..3 {
        let mut part = |part: BlockTensor, dims: &[u64]| add(TensorName::Block { layer, part }, dims);
        part(BlockTensor::AttnNorm, &[8]);
        part(BlockTensor::FfnNorm, &[8]);
        if layer == 0 {
            part(BlockTensor::FfnGate, &[12, 8]);
            part(BlockTensor::FfnDown, &[8, 12]);
            part(BlockTensor::FfnUp, &[12, 8]);
        } else {
            part(BlockTensor::Router, &[3, 8]);
            part(BlockTensor::RouterBias, &[3]);
            part(BlockTensor::GateExperts, &[3, 6, 8]);
            part(BlockTensor::UpExperts, &[3, 6, 8]);
            part(BlockTensor::DownExperts, &[3, 8, 6]);
        }
        if layer == 1 {
            part(BlockTensor::Query, &[8, 8]);
            part(BlockTensor::Key, &[4, 8]);
            part(BlockTensor::Value, &[4, 8]);
            part(BlockTensor::AttnOutput, &[8, 8]);
            part(BlockTensor::QueryNorm, &[4]);
            part(BlockTensor::KeyNorm, &[4]);
        } else {
            part(BlockTensor::ConvInput, &[24, 8]);
            part(BlockTensor::ConvOutput, &[8, 8]);
            part(BlockTensor::ConvWeight, &[8, 3]);
        }
    }
    Content { metadata, tensors }
}

#[derive(Clone, Copy, PartialEq)]
enum Broken {
    Nothing,
    Output,
    ConvOutput,
}

struct Tiny {
    model: Model,
    weights: HashMap<String, Vec<f32>>,
    kv: RefCell<KvStore<[f32; HEAD]>>,
    conv: RefCell<ConvStore<[f32; H]>>,
    broken: Broken,
}

#[derive(Default)]
struct Recorder {
    embedding: Vec<Vec<f32>>,
    residual: Vec<(usize, Vec<f32>)>,
    routing: Vec<(usize, Vec<Vec<f32>>, Vec<Vec<u32>>, Vec<Vec<f32>>)>,
    fail_at_layer: Option<usize>,
}

type Rows = Vec<Vec<Vec<f32>>>;

fn matvec(w: &[f32], x: &[f32]) -> Vec<f32> {
    w.chunks(x.len()).map(|r| r.iter().zip(x).map(|(a, b)| a * b).sum()).collect()
}

fn rms(x: &[f32], w: &[f32]) -> Vec<f32> {
    let scale = (x.iter().map(|v| v * v).sum::<f32>() / x.len() as f32 + 1e-5).sqrt();
    x.iter().zip(w).map(|(v, w)| v / scale * w).collect()
}

fn silu(x: f32) -> f32 {
    x / (1. + (-x).exp())
}

fn sigmoid(x: f32) -> f32 {
    1. / (1. + (-x).exp())
}

fn rope(x: &[f32], pos: usize) -> Vec<f32> {
    let half = x.len() / 2;
    let mut out = vec![0.; x.len()];
    for i in 0..half {
        let angle = pos as f32 / 10000f32.powf(2. * i as f32 / x.len() as f32);
        let (sin, cos) = angle.sin_cos();
        out[i] = x[i] * cos - x[i + half] * sin;
        out[i + half] = x[i] * sin + x[i + half] * cos;
    }
    out
}

fn each(x: &Rows, f: impl Fn(&[f32]) -> Vec<f32>) -> Rows {
    x.iter().map(|row| row.iter().map(|t| f(t)).collect()).collect()
}

fn added(x: &Rows, y: &Rows) -> Rows {
    x.iter()
        .zip(y)
        .map(|(a, b)| a.iter().zip(b).map(|(a, b)| a.iter().zip(b).map(|(a, b)| a + b).collect()).collect())
        .collect()
}

fn flat(x: &Rows) -> Vec<f32> {
    x.iter().flatten().flatten().copied().collect()
}

fn tiny(owner: u64) -> Tiny {
    let content = content();
    let (model, requests) = Model::from_gguf(&content, Device::Cpu, owner).unwrap();
    let mut weights = HashMap::new();
    for r in &requests {
        let name = r.name.text();
        let n: u64 = r.dims.iter().product();
        let seed: usize = name.bytes().map(|b| b as usize).sum();
        let values = (0..n as usize)
            .map(|i| {
                let v = ((i * 7 + seed) as f32 * 0.37).sin();
                if name.contains("norm") { 1. + 0.1 * v } else { v * 0.6 }
            })
            .collect();
        weights.insert(name, values);
    }
    Tiny {
        model,
        weights,
        kv: RefCell::new(KvStore::new([0.; HEAD])),
        conv: RefCell::new(ConvStore::new([0.; H])),
        broken: Broken::Nothing,
    }
}

impl Tiny {
    fn w(&self, layer: usize, part: BlockTensor) -> &[f32] {
        &self.weights[&TensorName::Block { layer, part }.text()]
    }

    fn head(&self, x: &[f32]) -> Vec<f32> {
        let normed = rms(x, &self.weights[&TensorName::FinalNorm.text()]);
        matvec(&self.weights[&TensorName::Embedding.text()], &normed)
    }

    fn attend(&self, pass: &mut Pass, layer: usize, x: &Rows) -> Result<Rows, String> {
        let format = KvFormat { batch: 1, heads: 1, width: HEAD, dtype: DType::F32, device: Device::Cpu };
        let pos = pass.positions().clone();
        let mut q: Vec<Vec<Vec<f32>>> = Vec::new();
        let (mut ks, mut vs) = (Vec::new(), Vec::new());
        for (r, row) in x.iter().enumerate() {
            let (mut qr, mut k, mut v) = (Vec::new(), Vec::new(), Vec::new());
            for (t, xt) in row.iter().enumerate() {
                let at = pos[r] + t;
                let heads: Vec<f32> = matvec(self.w(layer, BlockTensor::Query), xt)
                    .chunks(HEAD)
                    .flat_map(|h| rope(&rms(h, self.w(layer, BlockTensor::QueryNorm)), at))
                    .collect();
                qr.push(heads);
                let key = matvec(self.w(layer, BlockTensor::Key), xt);
                let key = rope(&rms(&key, self.w(layer, BlockTensor::KeyNorm)), at);
                k.push(<[f32; HEAD]>::try_from(key).unwrap());
                v.push(<[f32; HEAD]>::try_from(matvec(self.w(layer, BlockTensor::Value), xt)).unwrap());
            }
            q.push(qr);
            ks.push(KvChunk { format, rows: k });
            vs.push(KvChunk { format, rows: v });
        }
        let mut store = self.kv.borrow_mut();
        let caches = pass.attend(&mut store, &ks, &vs).map_err(|e| format!("{e:?}"))?;
        let mut out = Vec::new();
        for (r, cache) in caches.iter().enumerate() {
            let (keys, values) = store.current(cache);
            let mask = if pass.masked() { Some(causal_mask(pass.seq(), pos[r])) } else { None };
            let mut row = Vec::new();
            for (t, qt) in q[r].iter().enumerate() {
                let mut y = Vec::new();
                for h in qt.chunks(HEAD) {
                    let scores: Vec<f32> = keys
                        .iter()
                        .enumerate()
                        .map(|(j, k)| match &mask {
                            Some(m) if m[t][j] => f32::NEG_INFINITY,
                            _ => h.iter().zip(k).map(|(a, b)| a * b).sum::<f32>() / (HEAD as f32).sqrt(),
                        })
                        .collect();
                    let max = scores.iter().copied().fold(f32::NEG_INFINITY, f32::max);
                    let e: Vec<f32> = scores.iter().map(|s| (s - max).exp()).collect();
                    let sum: f32 = e.iter().sum();
                    for d in 0..HEAD {
                        y.push(e.iter().zip(&values).map(|(w, v)| w / sum * v[d]).sum());
                    }
                }
                row.push(matvec(self.w(layer, BlockTensor::AttnOutput), &y));
            }
            out.push(row);
        }
        Ok(out)
    }

    fn convolve(&self, pass: &mut Pass, layer: usize, x: &Rows) -> Result<Rows, String> {
        let projected = each(x, |t| matvec(self.w(layer, BlockTensor::ConvInput), t));
        let inputs: Vec<Vec<[f32; H]>> = projected
            .iter()
            .map(|row| {
                row.iter()
                    .map(|t| {
                        let mut bx = [0.; H];
                        for c in 0..H {
                            bx[c] = t[c] * t[2 * H + c];
                        }
                        bx
                    })
                    .collect()
            })
            .collect();
        let windows = pass.convolve(&mut self.conv.borrow_mut(), &inputs);
        if self.broken == Broken::ConvOutput && layer == 2 {
            return Err("shape mismatch".to_string());
        }
        let weight = self.w(layer, BlockTensor::ConvWeight);
        Ok(windows
            .iter()
            .zip(&projected)
            .map(|(w, p)| {
                w.iter()
                    .zip(p)
                    .map(|(window, p)| {
                        let y: Vec<f32> = (0..H)
                            .map(|c| p[H + c] * (0..K).map(|j| window[j][c] * weight[c * K + j]).sum::<f32>())
                            .collect();
                        matvec(self.w(layer, BlockTensor::ConvOutput), &y)
                    })
                    .collect()
            })
            .collect())
    }

    fn dense(&self, layer: usize, x: &Rows) -> Rows {
        each(x, |t| {
            let gate = matvec(self.w(layer, BlockTensor::FfnGate), t);
            let up = matvec(self.w(layer, BlockTensor::FfnUp), t);
            let y: Vec<f32> = gate.iter().zip(&up).map(|(g, u)| silu(*g) * u).collect();
            matvec(self.w(layer, BlockTensor::FfnDown), &y)
        })
    }

    fn experts(&self, layer: usize, bias: &[f32], x: &Rows, rec: Option<&mut Recorder>) -> Rows {
        let tokens: Vec<&Vec<f32>> = x.iter().flatten().collect();
        let logits: Vec<Vec<f32>> = tokens.iter().map(|t| matvec(self.w(layer, BlockTensor::Router), t)).collect();
        let scores: Vec<Vec<u32>> =
            logits.iter().map(|l| l.iter().map(|&v| sigmoid(v).to_bits()).collect()).collect();
        let biased = logits
            .iter()
            .map(|l| l.iter().zip(bias).map(|(&v, b)| (sigmoid(v) + b).to_bits()).collect())
            .collect();
        let of = |dims: Vec<usize>| Operand { device: Device::Cpu, dtype: DType::F32, dims, contiguous: None };
        let routed = moe_route(&of(vec![tokens.len(), 3]), &of(vec![3]), 2, &scores, &biased).unwrap();
        let Routed::Rows(picked) = routed else { panic!("expected rows") };
        let mut ids = Vec::new();
        let mut weights = Vec::new();
        for p in picked {
            let own: Vec<f32> = p.scores.iter().map(|&b| f32::from_bits(b)).collect();
            let sum = own.iter().sum::<f32>() + 1e-6;
            ids.push(p.ids);
            weights.push(own.iter().map(|s| s / sum).collect::<Vec<f32>>());
        }
        if let Some(rec) = rec {
            rec.routing.push((layer, logits, ids.clone(), weights.clone()));
        }
        let mut out = tokens.iter().enumerate().map(|(n, t)| {
            let mut y = vec![0.; H];
            for (id, w) in ids[n].iter().zip(&weights[n]) {
                let e = *id as usize;
                let gate = matvec(&self.w(layer, BlockTensor::GateExperts)[e * 48..(e + 1) * 48], t);
                let up = matvec(&self.w(layer, BlockTensor::UpExperts)[e * 48..(e + 1) * 48], t);
                let a: Vec<f32> = gate.iter().zip(&up).map(|(g, u)| silu(*g) * u).collect();
                let down = matvec(&self.w(layer, BlockTensor::DownExperts)[e * 48..(e + 1) * 48], &a);
                for c in 0..H {
                    y[c] += w * down[c];
                }
            }
            y
        });
        x.iter().map(|row| row.iter().map(|_| out.next().unwrap()).collect()).collect()
    }

    /// Runs a pass to its end.
    fn drive(
        &self,
        mut pass: Pass,
        tokens: &[Vec<u32>],
        mut rec: Option<&mut Recorder>,
        biases: &HashMap<usize, Vec<f32>>,
    ) -> Result<(Pass, Vec<Vec<f32>>), String> {
        let table = &self.weights[&TensorName::Embedding.text()];
        let (mut x, mut y): (Rows, Rows) = (Vec::new(), Vec::new());
        let mut logits = Vec::new();
        while let Some(action) = pass.action() {
            match action {
                Action::Embed => {
                    x = tokens
                        .iter()
                        .map(|row| row.iter().map(|&t| table[t as usize * H..(t as usize + 1) * H].to_vec()).collect())
                        .collect()
                }
                Action::TapEmbedding => rec.as_deref_mut().unwrap().embedding.push(flat(&x)),
                Action::Norm { layer } => y = each(&x, |t| rms(t, self.w(layer, BlockTensor::AttnNorm))),
                Action::Attend { layer } => {
                    y = self.attend(&mut pass, layer, &y)?;
                    continue;
                }
                Action::Convolve { layer } => {
                    y = self.convolve(&mut pass, layer, &y)?;
                    continue;
                }
                Action::AddOperator { .. } | Action::AddFeedForward { .. } => x = added(&x, &y),
                Action::FfnNorm { layer } => y = each(&x, |t| rms(t, self.w(layer, BlockTensor::FfnNorm))),
                Action::Dense { layer } => y = self.dense(layer, &y),
                Action::Experts { layer, steered, tapped } => {
                    let bias = if steered { &biases[&layer] } else { self.w(layer, BlockTensor::RouterBias) };
                    let tap = if tapped { rec.as_deref_mut() } else { None };
                    y = self.experts(layer, bias, &y, tap);
                }
                Action::TapResidual { layer } => {
                    let rec = rec.as_deref_mut().unwrap();
                    if rec.fail_at_layer == Some(layer) {
                        return Err(format!("observer refused layer {layer}"));
                    }
                    rec.residual.push((layer, flat(&x)));
                }
                Action::FinalNorm => {}
                Action::Output => {
                    if self.broken == Broken::Output {
                        return Err("shape mismatch".to_string());
                    }
                    logits = x.iter().map(|row| self.head(row.last().unwrap())).collect();
                }
            }
            pass.step();
        }
        assert!(pass.is_finished());
        Ok((pass, logits))
    }

    fn finish(
        &self,
        pass: Pass,
        tokens: &[u32],
        state: &mut State,
        rec: Option<&mut Recorder>,
        biases: &HashMap<usize, Vec<f32>>,
    ) -> Result<Vec<f32>, String> {
        let (pass, mut logits) = self.drive(pass, &[tokens.to_vec()], rec, biases)?;
        let mut states = vec![state.clone()];
        assert!(pass.commit(&mut states));
        *state = states.pop().unwrap();
        Ok(logits.pop().unwrap())
    }

    fn forward(&self, tokens: &[u32], state: &mut State) -> Result<Vec<f32>, String> {
        let pass = self.model.forward(&tokens.to_vec(), state).map_err(|e| format!("{e:?}"))?;
        self.finish(pass, tokens, state, None, &HashMap::new())
    }

    fn forward_observed(&self, tokens: &[u32], state: &mut State, rec: &mut Recorder) -> Result<Vec<f32>, String> {
        let pass = self.model.forward_observed(&tokens.to_vec(), state).map_err(|e| format!("{e:?}"))?;
        self.finish(pass, tokens, state, Some(rec), &HashMap::new())
    }

    fn forward_steered(
        &self,
        tokens: &[u32],
        state: &mut State,
        biases: &HashMap<usize, Vec<f32>>,
        rec: Option<&mut Recorder>,
    ) -> Result<Vec<f32>, String> {
        let mut steering = Steering::default();
        for (&layer, b) in biases {
            steering.set_bias(layer, bias_of(&[b.len()], DType::F32));
        }
        assert_eq!(steering.is_empty(), biases.is_empty());
        let pass = self
            .model
            .forward_steered(&tokens.to_vec(), state, &steering, rec.is_some())
            .map_err(|e| format!("{e:?}"))?;
        self.finish(pass, tokens, state, rec, biases)
    }

    fn decode_batch(&self, tokens: &[u32], states: &mut [&mut State]) -> Result<Vec<Vec<f32>>, String> {
        let mut copies: Vec<State> = states.iter().map(|s| (**s).clone()).collect();
        let pass = self.model.decode_batch(&tokens.to_vec(), &copies).map_err(|e| format!("{e:?}"))?;
        let rows: Vec<Vec<u32>> = tokens.iter().map(|&t| vec![t]).collect();
        let (pass, logits) = self.drive(pass, &rows, None, &HashMap::new())?;
        assert!(pass.commit(&mut copies));
        for (s, n) in states.iter_mut().zip(copies) {
            **s = n;
        }
        Ok(logits)
    }

    fn prefilled(&self, tokens: &[u32]) -> State {
        let mut s = self.model.new_state();
        if !tokens.is_empty() {
            self.forward(tokens, &mut s).unwrap();
        }
        s
    }

    /// A single step on a copy of `state`, and the step after it.
    fn single(&self, state: &State, t: u32, then: u32) -> (Vec<f32>, Vec<f32>) {
        let mut s = state.clone();
        let a = self.forward(&[t], &mut s).unwrap();
        let b = self.forward(&[then], &mut s).unwrap();
        (a, b)
    }

    fn new_state(&self) -> State {
        self.model.new_state()
    }
}

fn bias_of(dims: &[usize], dtype: DType) -> SteeringBias {
    SteeringBias { dims: dims.to_vec(), dtype, device: Device::Cpu }
}

fn close(a: &[f32], b: &[f32], tolerance: f32) {
    assert_eq!(a.len(), b.len());
    for (i, (a, b)) in a.iter().zip(b).enumerate() {
        assert!((a - b).abs() < tolerance, "logit {i}: {a} vs {b}");
    }
}

const CPU_TOL: f32 = 1e-5;

fn check_failed_forward(broken: Broken) {
    let mut model = tiny(1);
    let mut prefix = model.new_state();
    model.forward(&[1, 2, 3], &mut prefix).unwrap();
    let saved = prefix.clone();
    model.broken = broken;
    assert!(model.forward(&[4, 5], &mut prefix).is_err());
    assert_eq!(prefix.len(), 3);
    model.broken = Broken::Nothing;
    let a = model.forward(&[9, 8, 7], &mut prefix).unwrap();
    let b = model.forward(&[9, 8, 7], &mut saved.clone()).unwrap();
    let cold = model.forward(&[1, 2, 3, 9, 8, 7], &mut model.new_state()).unwrap();
    close(&a, &cold, 2e-5);
    assert_eq!(a, b);
}

#[test]
fn failure_after_all_layers_does_not_commit_state() {
    check_failed_forward(Broken::Output);
}

#[test]
fn failure_inside_convolution_does_not_commit_state() {
    check_failed_forward(Broken::ConvOutput);
}

#[test]
fn observed_forward_is_bit_identical_to_the_unobserved_one() {
    let model = tiny(1);
    let (mut plain, mut seen) = (model.new_state(), model.new_state());
    let mut rec = Recorder::default();
    let a = model.forward(&[1, 2, 3, 4, 5], &mut plain).unwrap();
    let b = model.forward_observed(&[1, 2, 3, 4, 5], &mut seen, &mut rec).unwrap();
    assert_eq!(a, b);
    assert_eq!(seen.len(), plain.len());
    assert_eq!(model.forward(&[6, 7], &mut plain).unwrap(), model.forward(&[6, 7], &mut seen).unwrap());
}

#[test]
fn observer_sees_every_layer_once_and_routing_only_where_experts_are() {
    let model = tiny(1);
    let mut rec = Recorder::default();
    model.forward_observed(&[1, 2, 3, 4, 5], &mut model.new_state(), &mut rec).unwrap();
    assert_eq!(rec.embedding.len(), 1);
    assert_eq!(rec.embedding[0].len(), 5 * 8);
    assert_eq!(rec.residual.iter().map(|r| r.0).collect::<Vec<_>>(), vec![0, 1, 2]);
    for (_, x) in &rec.residual {
        assert_eq!(x.len(), 5 * 8);
    }
    let moe = Some((3, 2));
    assert_eq!(
        model.model.layers(),
        vec![
            LayerInfo { attention: false, experts: None },
            LayerInfo { attention: true, experts: moe },
            LayerInfo { attention: false, experts: moe },
        ]
    );
    assert_eq!(rec.routing.iter().map(|r| r.0).collect::<Vec<_>>(), vec![1, 2]);
    assert!(model.model.router_bias(0).is_none() && model.model.router_bias(3).is_none());
    for (layer, logits, ids, weights) in &rec.routing {
        assert_eq!((logits.len(), ids.len(), weights.len()), (5, 5, 5));
        assert_eq!(model.model.router_bias(*layer).unwrap().experts, 3);
        let bias = model.w(*layer, BlockTensor::RouterBias);
        for (l, i) in logits.iter().zip(ids) {
            let mut order: Vec<u32> = (0..3).collect();
            let score = |e: &u32| 1. / (1. + (-l[*e as usize]).exp()) + bias[*e as usize];
            order.sort_by(|a, b| score(b).total_cmp(&score(a)));
            let (mut got, mut want) = (i.clone(), order[..2].to_vec());
            got.sort();
            want.sort();
            assert_eq!(got, want, "layer {layer}");
        }
        for ((l, i), w) in logits.iter().zip(ids).zip(weights) {
            assert_eq!((l.len(), i.len(), w.len()), (3, 2, 2), "layer {layer}");
            assert!(i[0] != i[1] && i.iter().all(|&e| e < 3), "{i:?}");
            let s: Vec<f32> = i.iter().map(|&e| 1. / (1. + (-l[e as usize]).exp())).collect();
            for (got, score) in w.iter().zip(&s) {
                let want = score / (s[0] + s[1] + 1e-6);
                assert!((got - want).abs() < 1e-6, "{got} vs {want}");
            }
        }
    }
}

#[test]
fn observation_is_causal_across_chunk_boundaries() {
    let model = tiny(1);
    let mut whole = Recorder::default();
    model.forward_observed(&[1, 2, 3, 4, 5], &mut model.new_state(), &mut whole).unwrap();
    let (mut head, mut tail) = (Recorder::default(), Recorder::default());
    let mut state = model.new_state();
    model.forward_observed(&[1, 2, 3], &mut state, &mut head).unwrap();
    model.forward_observed(&[4, 5], &mut state, &mut tail).unwrap();
    for n in 0..2 {
        let mut ids = head.routing[n].2.clone();
        ids.extend(tail.routing[n].2.clone());
        assert_eq!(ids, whole.routing[n].2, "router {n}");
    }
    for n in 0..3 {
        let mut x = head.residual[n].1.clone();
        x.extend(tail.residual[n].1.clone());
        for (got, want) in x.iter().zip(&whole.residual[n].1) {
            assert!((got - want).abs() < 2e-5, "layer {n}: {got} vs {want}");
        }
    }
}

#[test]
fn projecting_the_last_residual_reproduces_the_returned_logits() {
    let model = tiny(1);
    let mut rec = Recorder::default();
    let logits = model.forward_observed(&[1, 2, 3, 4], &mut model.new_state(), &mut rec).unwrap();
    let lens = |residual: &[f32]| -> Vec<Vec<f32>> {
        let p = model.model.project(&vec![1, residual.len() / H, H]).unwrap();
        assert_eq!(p.steps, vec![Action::FinalNorm, Action::Output]);
        assert_eq!(p.dims, vec![1, 4, 16]);
        residual.chunks(H).map(|x| model.head(x)).collect()
    };
    assert_eq!(lens(&rec.residual.last().unwrap().1)[3], logits);
    assert_ne!(lens(&rec.residual[0].1)[3], logits);
    assert_eq!(model.model.project(&vec![1, 4, 7]).unwrap_err(), RunError::Residual);
    assert_eq!(model.model.project(&vec![2, 4, 8]).unwrap_err(), RunError::Residual);
    assert_eq!(model.model.project(&vec![4, 8]).unwrap_err(), RunError::Residual);
}

fn own_bias(model: &Tiny, layer: usize) -> Vec<f32> {
    model.w(layer, BlockTensor::RouterBias).to_vec()
}

#[test]
fn steering_with_the_models_own_bias_changes_nothing() {
    let model = tiny(1);
    let own: HashMap<usize, Vec<f32>> = [1, 2].iter().map(|&l| (l, own_bias(&model, l))).collect();
    let (mut plain, mut steered) = (model.new_state(), model.new_state());
    let a = model.forward(&[1, 2, 3, 4, 5], &mut plain).unwrap();
    let b = model.forward_steered(&[1, 2, 3, 4, 5], &mut steered, &own, None).unwrap();
    assert_eq!(a, b);
    let c = model.forward_steered(&[1, 2, 3, 4, 5], &mut model.new_state(), &HashMap::new(), None).unwrap();
    assert_eq!(a, c);
}

fn chosen(model: &Tiny, tokens: &[u32], biases: &HashMap<usize, Vec<f32>>, layer: usize) -> Vec<Vec<u32>> {
    let mut rec = Recorder::default();
    model.forward_steered(tokens, &mut model.new_state(), biases, Some(&mut rec)).unwrap();
    rec.routing.into_iter().find(|r| r.0 == layer).unwrap().2
}

#[test]
fn a_large_negative_bias_knocks_an_expert_out_and_a_large_positive_one_forces_it_in() {
    let model = tiny(1);
    let tokens = [1u32, 2, 3, 4, 5];
    let baseline = chosen(&model, &tokens, &HashMap::new(), 1);
    let used = baseline[0][0];
    let with = |delta: f32| {
        let mut b = own_bias(&model, 1);
        b[used as usize] += delta;
        HashMap::from([(1, b)])
    };
    let out = chosen(&model, &tokens, &with(-1e4), 1);
    assert!(out.iter().all(|row| !row.contains(&used)), "{out:?}");
    assert!(out.iter().all(|row| row.len() == 2));
    let forced = chosen(&model, &tokens, &with(1e4), 1);
    assert!(forced.iter().all(|row| row.contains(&used)), "{forced:?}");
    let plain = model.forward(&tokens, &mut model.new_state()).unwrap();
    let steered = model.forward_steered(&tokens, &mut model.new_state(), &with(-1e4), None).unwrap();
    assert_ne!(plain, steered);
}

#[test]
fn a_forced_expert_is_weighted_by_its_own_score_not_by_the_bias() {
    let model = tiny(1);
    let mut b = own_bias(&model, 2);
    b[0] += 1e4;
    let mut rec = Recorder::default();
    model
        .forward_steered(&[1, 2, 3], &mut model.new_state(), &HashMap::from([(2, b)]), Some(&mut rec))
        .unwrap();
    let (_, logits, ids, weights) = rec.routing.iter().find(|r| r.0 == 2).unwrap();
    for ((l, i), w) in logits.iter().zip(ids).zip(weights) {
        assert_eq!(i[0], 0);
        let s: Vec<f32> = i.iter().map(|&e| 1. / (1. + (-l[e as usize]).exp())).collect();
        for (got, score) in w.iter().zip(&s) {
            assert!((got - score / (s[0] + s[1] + 1e-6)).abs() < 1e-6, "{got}");
            assert!(*got < 1.0);
        }
    }
}

#[test]
fn steering_that_cannot_apply_is_refused_and_commits_nothing() {
    let model = tiny(1);
    let mut state = model.new_state();
    model.forward(&[1, 2, 3], &mut state).unwrap();
    // Layer 0 is dense, layer 9 does not exist, and a router has 3 experts here.
    for (layer, bias, error) in [
        (0, bias_of(&[3], DType::F32), SteeringError::NoRouter(0)),
        (9, bias_of(&[3], DType::F32), SteeringError::NoRouter(9)),
        (1, bias_of(&[4], DType::F32), SteeringError::Mismatch(1)),
        (1, bias_of(&[3], DType::F64), SteeringError::Mismatch(1)),
        (1, bias_of(&[1, 3], DType::F32), SteeringError::Mismatch(1)),
    ] {
        let mut steering = Steering::default();
        steering.set_bias(layer, bias);
        let err = model.model.forward_steered(&vec![4, 5], &state, &steering, false).unwrap_err();
        assert_eq!(err, RunError::Steering(error));
        assert_eq!(state.len(), 3);
    }
    // The lowest misfit is reported, and a bias set again replaces the first.
    let mut steering = Steering::default();
    steering.set_bias(9, bias_of(&[3], DType::F32));
    steering.set_bias(2, bias_of(&[5], DType::F32));
    steering.set_bias(1, bias_of(&[5], DType::F32));
    steering.set_bias(1, bias_of(&[3], DType::F32));
    let err = model.model.forward_steered(&vec![4, 5], &state, &steering, false).unwrap_err();
    assert_eq!(err, RunError::Steering(SteeringError::Mismatch(2)));
    assert!(steering.steers(1) && !steering.steers(0));
}

#[test]
fn failing_observer_fails_the_forward_and_does_not_commit_state() {
    let model = tiny(1);
    let mut state = model.new_state();
    model.forward(&[1, 2, 3], &mut state).unwrap();
    let mut rec = Recorder { fail_at_layer: Some(1), ..Default::default() };
    assert!(model.forward_observed(&[4, 5], &mut state, &mut rec).is_err());
    assert_eq!(state.len(), 3);
    let a = model.forward(&[4, 5], &mut state).unwrap();
    let cold = model.forward(&[1, 2, 3, 4, 5], &mut model.new_state()).unwrap();
    close(&a, &cold, 2e-5);
}

#[test]
fn snapshot_a_b_a_and_rejections_leave_prefix_usable() {
    let m = tiny(1);
    let mut prefix = m.new_state();
    m.forward(&[1, 2, 3], &mut prefix).unwrap();
    let mut branch = prefix.clone();
    let a = m.forward(&[4, 5, 6], &mut branch).unwrap();
    assert_eq!(prefix.len(), 3);
    m.forward(&[9, 8, 7], &mut prefix.clone()).unwrap();
    close(&a, &m.forward(&[4, 5, 6], &mut prefix.clone()).unwrap(), 2e-5);
    close(&a, &m.forward(&[1, 2, 3, 4, 5, 6], &mut m.new_state()).unwrap(), 2e-5);
    for invalid in [vec![], vec![16], vec![1; 32]] {
        assert!(m.forward(&invalid, &mut prefix).is_err());
        assert_eq!(prefix.len(), 3);
    }
    let other = tiny(2);
    assert!(!other.model.owns_state(&prefix));
    assert_eq!(other.model.forward(&vec![4], &prefix).unwrap_err(), RunError::Foreign);
    close(&a, &m.forward(&[4, 5, 6], &mut prefix).unwrap(), 2e-5);
}

#[test]
fn whole_and_incremental_logits_agree() {
    let m = tiny(1);
    let tokens = [3u32, 1, 4, 1, 5, 9, 2, 6];
    let whole = m.forward(&tokens, &mut m.new_state()).unwrap();
    let mut state = m.new_state();
    let mut last = Vec::new();
    for t in tokens {
        last = m.forward(&[t], &mut state).unwrap();
    }
    close(&whole, &last, 2e-5);
    for split in 1..tokens.len() {
        let mut state = m.new_state();
        m.forward(&tokens[..split], &mut state).unwrap();
        close(&whole, &m.forward(&tokens[split..], &mut state).unwrap(), 2e-5);
        assert_eq!(state.len(), tokens.len());
    }
}

/// Numbers in place of keys, values and columns: what position `at` of sequence
/// `id` puts into `layer`.
fn mark(id: u64, layer: usize, at: usize, part: u64) -> u64 {
    id * 1_000_000 + layer as u64 * 10_000 + at as u64 * 10 + part
}

/// Stores whose contents are such numbers.
struct Marks {
    kv: KvStore<u64>,
    conv: ConvStore<u64>,
}

impl Marks {
    fn new() -> Self {
        Marks { kv: KvStore::new(0), conv: ConvStore::new(0) }
    }

    /// Runs a pass of the sequences `ids` to its end and commits it.
    fn run(&mut self, mut pass: Pass, ids: &[u64], states: &mut Vec<State>) {
        let format = KvFormat { batch: 1, heads: 1, width: 4, dtype: DType::F32, device: Device::Cpu };
        while let Some(action) = pass.action() {
            let pos = pass.positions().clone();
            let seq = pass.seq();
            let rows = |layer: usize, part: u64| -> Vec<Vec<u64>> {
                let row = |(id, at): (&u64, &usize)| (*at..at + seq).map(|t| mark(*id, layer, t, part)).collect();
                ids.iter().zip(&pos).map(row).collect()
            };
            match action {
                Action::Attend { layer } => {
                    let chunks = |part: u64| rows(layer, part).into_iter().map(|rows| KvChunk { format, rows }).collect();
                    pass.attend(&mut self.kv, &chunks(1), &chunks(2)).unwrap();
                }
                Action::Convolve { layer } => {
                    pass.convolve(&mut self.conv, &rows(layer, 3));
                }
                _ => pass.step(),
            }
        }
        assert!(pass.commit(states));
    }

    fn forward(&mut self, model: &Model, id: u64, tokens: usize, state: &State) -> State {
        let pass = model.forward(&vec![1; tokens], state).unwrap();
        let mut states = vec![state.clone()];
        self.run(pass, &[id], &mut states);
        states.pop().unwrap()
    }

    /// Everything a state shows, layer by layer.
    fn shown(&self, model: &Model, state: &State) -> Vec<(Vec<u64>, Vec<u64>)> {
        (0..model.parts().len())
            .map(|layer| match model.parts()[layer].operator {
                Operator::Attention(_) => state.kv(layer).map_or((vec![], vec![]), |c| self.kv.current(&c)),
                Operator::Conv { .. } => (state.conv(layer).map_or(vec![0; K], |c| self.conv.row(&c)), vec![]),
            })
            .collect()
    }
}

#[test]
fn passes_tell_the_shapes_they_show() {
    let model = tiny(1).model;
    let state = model.new_state();
    let pass = model.forward_observed(&vec![1, 2, 3, 4, 5], &state).unwrap();
    assert_eq!(model.stream_dims(&pass), vec![1, 5, H]);
    assert_eq!(model.logits_dims(&pass), vec![1, model.vocab_size()]);
    assert!(model.routing_dims(&pass, 0).is_none());
    for layer in [1, 2] {
        let dims = model.routing_dims(&pass, layer).unwrap();
        assert_eq!((dims.logits, dims.ids, dims.weights), (vec![5, 3], vec![5, 2], vec![5, 2]));
    }
    let batch = model.decode_batch(&vec![1, 2, 3, 4], &vec![state.clone(), state.clone(), state.clone(), state]).unwrap();
    assert_eq!(model.logits_dims(&batch), vec![4, model.vocab_size()]);
    assert_eq!(model.stream_dims(&batch), vec![4, 1, H]);
}

#[test]
fn chunks_leave_in_every_layer_what_the_whole_leaves() {
    let model = tiny(1).model;
    let mut marks = Marks::new();
    let start = marks.forward(&model, 1, 4, &model.new_state());
    let before = marks.shown(&model, &start);
    assert_eq!(before[1].0, (0..4).map(|t| mark(1, 1, t, 1)).collect::<Vec<u64>>());
    assert_eq!(before[2].0, (1..4).map(|t| mark(1, 2, t, 3)).collect::<Vec<u64>>());
    for whole in 2..9 {
        let all = marks.forward(&model, 1, whole, &start);
        for head in 1..whole {
            let mid = marks.forward(&model, 1, head, &start);
            let end = marks.forward(&model, 1, whole - head, &mid);
            assert_eq!(end.len(), all.len());
            assert_eq!(marks.shown(&model, &end), marks.shown(&model, &all), "{head} of {whole}");
        }
        assert_eq!(marks.shown(&model, &start), before);
    }
}

#[test]
fn a_batch_leaves_in_every_row_what_its_own_pass_leaves() {
    let model = tiny(1).model;
    let mut marks = Marks::new();
    let parent = marks.forward(&model, 9, 3, &model.new_state());
    let mut states = vec![model.new_state(), parent.clone(), parent.clone()];
    states.push(marks.forward(&model, 4, 2, &parent));
    for _ in 0..3 {
        let ids = [5, 6, 7, 8];
        let singles: Vec<State> =
            states.iter().zip(ids).map(|(s, id)| marks.forward(&model, id, 1, s)).collect();
        let pass = model.decode_batch(&vec![1, 2, 3, 4], &states).unwrap();
        marks.run(pass, &ids, &mut states);
        for (together, alone) in states.iter().zip(&singles) {
            assert_eq!(together.len(), alone.len());
            assert_eq!(marks.shown(&model, together), marks.shown(&model, alone));
        }
    }
}

#[test]
fn refused_tokens_name_their_reason() {
    let m = tiny(1);
    let state = m.prefilled(&[1, 2, 3]);
    let err = |tokens: Vec<u32>| m.model.forward(&tokens, &state).unwrap_err();
    assert_eq!(err(vec![]), RunError::EmptyOrLimit);
    assert_eq!(err(vec![1; 30]), RunError::EmptyOrLimit);
    assert_eq!(err(vec![1, 16]), RunError::Vocabulary);
    assert!(m.model.forward(&vec![1; 29], &state).is_ok());
    assert!(!state.is_empty() && m.new_state().is_empty());
}

#[test]
fn an_unfinished_pass_commits_nothing() {
    let m = tiny(1);
    let before = m.prefilled(&[1, 2]);
    let mut pass = m.model.forward(&vec![3], &before).unwrap();
    assert_eq!(pass.action(), Some(Action::Embed));
    pass.step();
    let mut states = vec![before.clone()];
    assert!(!pass.commit(&mut states));
    assert_eq!(states[0].len(), 2);
    assert_eq!(m.single(&states[0], 3, 4), m.single(&before, 3, 4));
}

#[test]
fn mixed_lengths_match_per_row_single_steps_and_commit_the_same_state() {
    let model = tiny(1);
    let prefixes: [&[u32]; 4] = [&[], &[5], &[1, 2, 3], &[9, 8, 7, 6, 5, 4, 3]];
    let tokens = [11u32, 2, 4, 15];
    let mut states: Vec<State> = prefixes.iter().map(|p| model.prefilled(p)).collect();
    let expected: Vec<_> = states.iter().zip(tokens).map(|(s, t)| model.single(s, t, 7)).collect();
    let mut refs: Vec<&mut State> = states.iter_mut().collect();
    let got = model.decode_batch(&tokens, &mut refs).unwrap();
    assert_eq!((got.len(), got[0].len()), (4, model.model.vocab_size()));
    for (row, (want, _)) in got.iter().zip(&expected) {
        close(row, want, CPU_TOL);
    }
    for (i, (s, (_, then))) in states.iter_mut().zip(&expected).enumerate() {
        assert_eq!(s.len(), prefixes[i].len() + 1);
        close(&model.forward(&[7], s).unwrap(), then, CPU_TOL);
    }
}

#[test]
fn repeated_batched_steps_track_single_step_decoding() {
    let model = tiny(1);
    let mut batched: Vec<State> =
        [&[1u32, 2][..], &[3, 4, 5, 6, 7]].iter().map(|p| model.prefilled(p)).collect();
    let mut singles = batched.clone();
    for step in 0..6u32 {
        let tokens = [step % 16, (step * 5 + 3) % 16];
        let mut refs: Vec<&mut State> = batched.iter_mut().collect();
        let got = model.decode_batch(&tokens, &mut refs).unwrap();
        for (i, s) in singles.iter_mut().enumerate() {
            close(&got[i], &model.forward(&[tokens[i]], s).unwrap(), CPU_TOL);
        }
    }
}

#[test]
fn a_batched_step_reads_the_previous_batch_only_for_the_same_rows_in_order() {
    let model = tiny(1);
    let mut s: Vec<State> = [&[1u32][..], &[2, 3], &[4, 5, 6]].iter().map(|p| model.prefilled(p)).collect();
    let layer = model.model.parts().iter().position(|l| matches!(l.operator, Operator::Conv { .. })).unwrap();
    let conv = |s: &[State]| {
        let states = s.iter().map(|s| s.conv(layer)).collect();
        model.conv.borrow().previous_batch(&states)
    };
    // After single prefills: separate tensors, gather.
    assert!(conv(&s).is_none());
    let mut refs: Vec<&mut State> = s.iter_mut().collect();
    model.decode_batch(&[7, 8, 9], &mut refs).unwrap();
    // The same rows in the same order: the step's own tensor, as is.
    let whole = conv(&s).expect("same rows, same order");
    for (i, state) in s.iter().enumerate() {
        let at = state.conv(layer).unwrap();
        assert_eq!((at.tensor, at.row), (whole, i));
        assert_eq!(model.conv.borrow().row(&at).len(), K);
    }
    // Any other arrangement gathers: permuted, a subset, a clone repeated.
    s.swap(0, 1);
    assert!(conv(&s).is_none());
    s.swap(0, 1);
    assert!(conv(&s[..2]).is_none());
    let twice = vec![s[0].clone(), s[0].clone(), s[2].clone()];
    assert!(conv(&twice).is_none());
    // A single step on one row leaves the others' shared tensor usable, but
    // the batch no longer matches it.
    model.forward(&[1], &mut s[1]).unwrap();
    assert!(conv(&s).is_none());
    // Row 0 of one batch beside row 1 of another batch of the same size.
    let mut x: Vec<State> = [&[1u32][..], &[2, 3]].iter().map(|p| model.prefilled(p)).collect();
    let mut y: Vec<State> = [&[9u32, 9, 9][..], &[4]].iter().map(|p| model.prefilled(p)).collect();
    for pair in [&mut x, &mut y] {
        let mut refs: Vec<&mut State> = pair.iter_mut().collect();
        model.decode_batch(&[5, 6], &mut refs).unwrap();
    }
    let mut mixed = vec![x[0].clone(), y[1].clone()];
    assert!(conv(&mixed).is_none());
    let want: Vec<Vec<f32>> = mixed.iter().map(|st| model.forward(&[11], &mut st.clone()).unwrap()).collect();
    let mut refs: Vec<&mut State> = mixed.iter_mut().collect();
    let got = model.decode_batch(&[11, 11], &mut refs).unwrap();
    for i in 0..2 {
        close(&got[i], &want[i], CPU_TOL);
    }
}

#[test]
fn rows_rearranged_between_batched_steps_still_track_single_steps() {
    let model = tiny(1);
    let mut batched: Vec<State> =
        [&[1u32, 2][..], &[3], &[4, 5, 6], &[7, 8]].iter().map(|p| model.prefilled(p)).collect();
    let mut singles = batched.clone();
    let orders: [&[usize]; 6] = [&[0, 1, 2, 3], &[0, 1, 2, 3], &[3, 1, 0, 2], &[1, 2], &[0, 1, 2, 3], &[2, 0]];
    for (step, order) in orders.iter().enumerate() {
        let tokens: Vec<u32> = order.iter().map(|&i| ((step * 3 + i) % 16) as u32).collect();
        let mut picked: Vec<State> = order.iter().map(|&i| batched[i].clone()).collect();
        let mut refs: Vec<&mut State> = picked.iter_mut().collect();
        let got = model.decode_batch(&tokens, &mut refs).unwrap();
        for (j, &i) in order.iter().enumerate() {
            let want = model.forward(&[tokens[j]], &mut singles[i]).unwrap();
            close(&got[j], &want, CPU_TOL);
            batched[i] = picked[j].clone();
        }
    }
}

#[test]
fn a_batch_of_one_is_bit_identical_to_forward() {
    let model = tiny(1);
    for prefix in [&[][..], &[3], &[1, 2, 3, 4, 5]] {
        let mut a = model.prefilled(prefix);
        let mut b = a.clone();
        let want = model.forward(&[9], &mut a).unwrap();
        let got = model.decode_batch(&[9], &mut [&mut b]).unwrap();
        assert_eq!(got, vec![want]);
        assert_eq!(model.forward(&[4, 2], &mut a).unwrap(), model.forward(&[4, 2], &mut b).unwrap());
    }
}

#[test]
fn siblings_of_one_parent_decode_together_without_touching_each_other() {
    let model = tiny(1);
    let parent = model.prefilled(&[1, 2, 3, 4]);
    let parent_next = model.single(&parent, 6, 1);
    let mut a = parent.clone();
    let mut b = parent.clone();
    // c already ran ahead: it holds a reservation past the parent's length.
    let mut c = parent.clone();
    model.forward(&[10, 11], &mut c).unwrap();
    let a_want = model.single(&a, 6, 12);
    let b_want = model.single(&b, 13, 14);
    let c_want = model.single(&c, 2, 3);
    let mut p = parent.clone();
    let p_want = model.single(&p, 8, 9);
    let got = model.decode_batch(&[6, 13, 2, 8], &mut [&mut a, &mut b, &mut c, &mut p]).unwrap();
    for (i, want) in [&a_want, &b_want, &c_want, &p_want].iter().enumerate() {
        close(&got[i], &want.0, CPU_TOL);
    }
    for (s, t, want) in [(&mut a, 12, &a_want), (&mut b, 14, &b_want), (&mut c, 3, &c_want), (&mut p, 9, &p_want)] {
        close(&model.forward(&[t], s).unwrap(), &want.1, CPU_TOL);
    }
    assert_eq!(parent.len(), 4);
    assert_eq!(model.single(&parent, 6, 1), parent_next);
}

#[test]
fn bad_input_fails_loudly_and_commits_nothing() {
    let model = tiny(1);
    let other = tiny(2);
    let base = model.prefilled(&[1, 2, 3]);
    let want = model.single(&base, 4, 5);
    let context = model.model.context_length();
    let full = model.prefilled(&vec![1u32; context]);
    let foreign = other.prefilled(&[1]);
    let cases: Vec<(&str, Vec<u32>, Vec<State>, RunError)> = vec![
        ("empty batch", vec![], vec![], RunError::EmptyBatch),
        (
            "fewer tokens than states",
            vec![4],
            vec![base.clone(), base.clone()],
            RunError::BatchLength { tokens: 1, states: 2 },
        ),
        (
            "more tokens than states",
            vec![4, 4],
            vec![base.clone()],
            RunError::BatchLength { tokens: 2, states: 1 },
        ),
        ("token outside vocabulary", vec![4, 16], vec![base.clone(), base.clone()], RunError::RowVocabulary(1)),
        ("state at the context limit", vec![4, 4], vec![base.clone(), full.clone()], RunError::RowContextLimit(1)),
        ("state from another model", vec![4, 4], vec![base.clone(), foreign.clone()], RunError::RowForeign(1)),
    ];
    for (what, tokens, mut states, error) in cases {
        let lens: Vec<usize> = states.iter().map(State::len).collect();
        assert_eq!(model.model.decode_batch(&tokens, &states).unwrap_err(), error, "{what}");
        let mut refs: Vec<&mut State> = states.iter_mut().collect();
        assert!(model.decode_batch(&tokens, &mut refs).is_err(), "{what} accepted");
        assert_eq!(states.iter().map(State::len).collect::<Vec<_>>(), lens, "{what}");
        // The valid rows beside the bad one are still exactly usable.
        if let Some(s) = states.first() {
            if s.len() == 3 {
                assert_eq!(model.single(s, 4, 5), want, "{what}");
            }
        }
    }
}

#[test]
fn a_failure_inside_the_forward_commits_no_row() {
    let mut model = tiny(1);
    let mut a = model.prefilled(&[1, 2, 3]);
    let mut b = model.prefilled(&[4]);
    let (a_want, b_want) = (model.single(&a, 5, 6), model.single(&b, 7, 8));
    model.broken = Broken::Output;
    assert!(model.decode_batch(&[5, 7], &mut [&mut a, &mut b]).is_err());
    model.broken = Broken::Nothing;
    assert_eq!((a.len(), b.len()), (3, 1));
    assert_eq!(model.single(&a, 5, 6), a_want);
    assert_eq!(model.single(&b, 7, 8), b_want);
    let got = model.decode_batch(&[5, 7], &mut [&mut a, &mut b]).unwrap();
    close(&got[0], &a_want.0, CPU_TOL);
    close(&got[1], &b_want.0, CPU_TOL);
}

#[test]
fn a_refused_append_fails_the_pass() {
    let m = tiny(1);
    let state = m.prefilled(&[1, 2]);
    let mut pass = m.model.forward(&vec![3], &state).unwrap();
    let mut conv = m.conv.borrow_mut();
    loop {
        match pass.action().unwrap() {
            Action::Attend { .. } => break,
            Action::Convolve { .. } => {
                pass.convolve(&mut conv, &vec![vec![[0.; H]]]);
            }
            _ => pass.step(),
        }
    }
    // Keys of another width than those they continue.
    let format = KvFormat { batch: 1, heads: 2, width: 2, dtype: DType::F32, device: Device::Cpu };
    let chunk = || vec![KvChunk { format, rows: vec![[0.; HEAD]] }];
    let err = pass.attend(&mut m.kv.borrow_mut(), &chunk(), &chunk()).unwrap_err();
    assert_eq!(err, RunError::Kv(lfm2_moe::kv_cache::KvError::Mismatch));
    assert_eq!(pass.action(), None);
    let mut states = vec![state.clone()];
    assert!(!pass.commit(&mut states));
    assert_eq!(states[0].len(), 2);
}

#[test]
fn a_copy_of_a_steering_is_its_own() {
    let mut first = Steering::new();
    first.set_bias(2, bias_of(&[3], DType::F32));
    let mut copy = first.clone();
    assert!(copy.steers(2) && !copy.is_empty());
    copy.set_bias(1, bias_of(&[4], DType::F32));
    assert!(copy.steers(1) && !first.steers(1));
    let m = tiny(1);
    assert!(first.check(&m.model).is_ok());
    assert_eq!(copy.check(&m.model).unwrap_err(), SteeringError::Mismatch(1));
}
