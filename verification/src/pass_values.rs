//! What a pass computes, for whatever numbers its numeric steps work on.
//!
//! The numeric steps are taken as given functions that work position by
//! position: a norm, a projection or an expert sees one position, attention sees
//! the keys and values up to its own position, and a convolution its window. What
//! a pass makes of a sequence then depends on nothing but what the sequence
//! shows and its new tokens, however the pass is split, batched or observed.

use vstd::prelude::*;
use crate::conv;
use crate::kv_cache;
use crate::layers::{FeedForward, Layer, Operator};
use crate::model::{ModelView, StateView};
use crate::pass;
use crate::pass::Action;
use crate::pass_laws;
use crate::pass_runs;
use crate::pass_runs::{Run, World};

verus! {

/// The numeric steps of a model: channels of one position are an `X`, its keys
/// or values a `T`, its gated inputs a `C`, a router's bias a `B` and the logits
/// of one sequence an `L`. Layers are given by number.
#[verifier::reject_recursive_types(X)]
#[verifier::reject_recursive_types(T)]
#[verifier::reject_recursive_types(C)]
#[verifier::reject_recursive_types(B)]
#[verifier::reject_recursive_types(L)]
pub struct Numerics<X, T, C, B, L> {
    pub embed: spec_fn(u32) -> X,
    pub norm: spec_fn(int, X) -> X,
    /// Turned by the position.
    pub key: spec_fn(int, X, int) -> T,
    pub value: spec_fn(int, X) -> T,
    /// The query of a position, over the keys and values up to it.
    pub attend: spec_fn(int, X, int, Seq<T>, Seq<T>) -> X,
    pub gate: spec_fn(int, X) -> C,
    /// Over the window that ends at the position.
    pub convolve: spec_fn(int, X, Seq<C>) -> X,
    pub ffn_norm: spec_fn(int, X) -> X,
    pub dense: spec_fn(int, X) -> X,
    /// With a selection bias.
    pub experts: spec_fn(int, X, B) -> X,
    pub sum: spec_fn(X, X) -> X,
    /// The final norm and the output projection.
    pub output: spec_fn(X) -> L,
    /// The routers' own biases.
    pub bias: spec_fn(int) -> B,
}

impl<X, T, C, B, L> Numerics<X, T, C, B, L> {
    pub open spec fn embedded(self, tokens: Seq<u32>) -> Seq<X> {
        tokens.map_values(|t: u32| (self.embed)(t))
    }

    pub open spec fn normed(self, i: int, xs: Seq<X>) -> Seq<X> {
        xs.map_values(|x: X| (self.norm)(i, x))
    }

    /// Keys of consecutive positions from `at` on.
    pub open spec fn keys(self, i: int, at: int, ys: Seq<X>) -> Seq<T> {
        Seq::new(ys.len(), |t: int| (self.key)(i, ys[t], at + t))
    }

    pub open spec fn values(self, i: int, ys: Seq<X>) -> Seq<T> {
        ys.map_values(|y: X| (self.value)(i, y))
    }

    pub open spec fn gated(self, i: int, ys: Seq<X>) -> Seq<C> {
        ys.map_values(|y: X| (self.gate)(i, y))
    }

    /// Attention of consecutive positions from `at` on, each over what lies up
    /// to it.
    pub open spec fn attended(self, i: int, at: int, ys: Seq<X>, keys: Seq<T>, values: Seq<T>) -> Seq<X> {
        Seq::new(
            ys.len(),
            |t: int| (self.attend)(i, ys[t], at + t, keys.take(at + t + 1), values.take(at + t + 1)),
        )
    }

    pub open spec fn convolved(self, i: int, ys: Seq<X>, windows: Seq<Seq<C>>) -> Seq<X> {
        Seq::new(ys.len(), |t: int| (self.convolve)(i, ys[t], windows[t]))
    }

    pub open spec fn summed(self, xs: Seq<X>, ys: Seq<X>) -> Seq<X> {
        Seq::new(xs.len(), |t: int| (self.sum)(xs[t], ys[t]))
    }

    pub open spec fn ffn_normed(self, i: int, xs: Seq<X>) -> Seq<X> {
        xs.map_values(|x: X| (self.ffn_norm)(i, x))
    }

    /// The feed-forward of a layer, with `bias` where it has a router.
    pub open spec fn fed_forward(self, l: Layer, i: int, bias: B, ys: Seq<X>) -> Seq<X> {
        match l.ffn {
            FeedForward::Dense => ys.map_values(|y: X| (self.dense)(i, y)),
            FeedForward::Moe(_) => ys.map_values(|y: X| (self.experts)(i, y, bias)),
        }
    }
}

/// What a sequence shows: its length, and by layer its keys and values where
/// the layer attends, its history where it convolves.
#[verifier::ext_equal]
pub struct Past<T, C> {
    pub len: int,
    pub keys: Seq<Seq<T>>,
    pub values: Seq<Seq<T>>,
    pub history: Seq<Seq<C>>,
}

/// What state `s` shows.
pub open spec fn shown<T, C>(model: ModelView, blank: C, s: StateView, w: World<T, C>) -> Past<T, C> {
    let attends = |i: int| model.layers[i].operator is Attention;
    Past {
        len: s.len as int,
        keys: Seq::new(
            model.layers.len(),
            |i: int| if attends(i) { kv_cache::previous_keys(w.blocks, s.kv[i]) } else { Seq::empty() },
        ),
        values: Seq::new(
            model.layers.len(),
            |i: int| if attends(i) { kv_cache::previous_values(w.blocks, s.kv[i]) } else { Seq::empty() },
        ),
        history: Seq::new(
            model.layers.len(),
            |i: int|
                if attends(i) {
                    Seq::empty()
                } else {
                    conv::history(w.tensors, s.conv[i], blank, model.config.kernel as nat)
                },
        ),
    }
}

/// A sequence to go on with: a model's numeric steps, its routers' biases, and
/// what the sequence shows.
#[verifier::reject_recursive_types(X)]
#[verifier::reject_recursive_types(T)]
#[verifier::reject_recursive_types(C)]
#[verifier::reject_recursive_types(B)]
#[verifier::reject_recursive_types(L)]
pub struct Sequence<X, T, C, B, L> {
    pub model: ModelView,
    pub num: Numerics<X, T, C, B, L>,
    pub biases: spec_fn(int) -> B,
    pub past: Past<T, C>,
}

impl<X, T, C, B, L> Sequence<X, T, C, B, L> {
    /// Every layer shows as much as the sequence is long, or as a window.
    pub open spec fn wf(self) -> bool {
        &&& self.past.len >= 0
        &&& self.past.keys.len() == self.model.layers.len()
        &&& self.past.values.len() == self.model.layers.len()
        &&& self.past.history.len() == self.model.layers.len()
        &&& forall|i: int|
            0 <= i < self.model.layers.len() ==> match (#[trigger] self.model.layers[i]).operator {
                Operator::Attention(_) => self.past.keys[i].len() == self.past.len && self.past.values[i].len()
                    == self.past.len,
                Operator::Conv { .. } => self.past.history[i].len() == self.model.config.kernel,
            }
    }

    /// Layer `i`'s operator over the new positions.
    pub open spec fn operated(self, i: int, ys: Seq<X>) -> Seq<X> {
        let (num, past) = (self.num, self.past);
        match self.model.layers[i].operator {
            Operator::Attention(_) => num.attended(
                i,
                past.len,
                ys,
                past.keys[i] + num.keys(i, past.len, ys),
                past.values[i] + num.values(i, ys),
            ),
            Operator::Conv { .. } => num.convolved(
                i,
                ys,
                conv::windows(past.history[i], num.gated(i, ys), self.model.config.kernel as nat),
            ),
        }
    }

    /// The stream between layer `i`'s operator and its feed-forward.
    pub open spec fn between(self, i: int, xs: Seq<X>) -> Seq<X> {
        self.num.summed(xs, self.operated(i, self.num.normed(i, xs)))
    }

    /// The stream after layer `i`.
    pub open spec fn through(self, i: int, xs: Seq<X>) -> Seq<X> {
        let mid = self.between(i, xs);
        self.num.summed(
            mid,
            self.num.fed_forward(self.model.layers[i], i, (self.biases)(i), self.num.ffn_normed(i, mid)),
        )
    }

    /// The stream of the new positions after the first `n` layers.
    pub open spec fn stream(self, tokens: Seq<u32>, n: nat) -> Seq<X>
        decreases n,
    {
        if n == 0 {
            self.num.embedded(tokens)
        } else {
            self.through(n - 1, self.stream(tokens, (n - 1) as nat))
        }
    }

    /// The logits after the last token.
    pub open spec fn logits(self, tokens: Seq<u32>) -> L {
        (self.num.output)(self.stream(tokens, self.model.layers.len()).last())
    }

    /// What layer `i`'s operator works on.
    pub open spec fn input(self, tokens: Seq<u32>, i: int) -> Seq<X> {
        self.num.normed(i, self.stream(tokens, i as nat))
    }

    /// What the sequence shows after the tokens.
    pub open spec fn advanced(self, tokens: Seq<u32>) -> Past<T, C> {
        let (num, past) = (self.num, self.past);
        let attends = |i: int| self.model.layers[i].operator is Attention;
        Past {
            len: past.len + tokens.len(),
            keys: Seq::new(
                self.model.layers.len(),
                |i: int|
                    if attends(i) {
                        past.keys[i] + num.keys(i, past.len, self.input(tokens, i))
                    } else {
                        Seq::empty()
                    },
            ),
            values: Seq::new(
                self.model.layers.len(),
                |i: int|
                    if attends(i) {
                        past.values[i] + num.values(i, self.input(tokens, i))
                    } else {
                        Seq::empty()
                    },
            ),
            history: Seq::new(
                self.model.layers.len(),
                |i: int|
                    if attends(i) {
                        Seq::empty()
                    } else {
                        conv::next_history(past.history[i], num.gated(i, self.input(tokens, i)))
                    },
            ),
        }
    }

    /// The sequence after the tokens.
    pub open spec fn after(self, tokens: Seq<u32>) -> Sequence<X, T, C, B, L> {
        Sequence { past: self.advanced(tokens), ..self }
    }
}

/// What one row of a pass is computing: the residual stream, the branch that is
/// added to it next, and in the end the logits.
pub struct Frame<X, L> {
    pub x: Seq<X>,
    pub y: Seq<X>,
    pub logits: Option<L>,
}

/// A run with the numbers it is fed from.
#[verifier::reject_recursive_types(X)]
#[verifier::reject_recursive_types(T)]
#[verifier::reject_recursive_types(C)]
#[verifier::reject_recursive_types(B)]
#[verifier::reject_recursive_types(L)]
pub struct Computation<X, T, C, B, L> {
    pub run: Run<T, C>,
    pub num: Numerics<X, T, C, B, L>,
    pub tokens: Seq<Seq<u32>>,
    /// The biases that steering gives, for the layers it names.
    pub replaced: spec_fn(int) -> B,
}

impl<X, T, C, B, L> Computation<X, T, C, B, L> {
    /// Step number `m`, done on row `r`.
    pub open spec fn computed(self, r: int, f: Frame<X, L>, m: nat) -> Frame<X, L> {
        let (run, num) = (self.run, self.num);
        let at = run.states[r].len as int;
        match run.program()[m as int] {
            Action::Embed => Frame { x: num.embedded(self.tokens[r]), ..f },
            Action::Norm { layer } => Frame { y: num.normed(layer as int, f.x), ..f },
            Action::Attend { layer } => {
                let w = run.after(m + 1);
                let c = w.pass.rows[r].kv[layer as int]->0;
                Frame {
                    y: num.attended(
                        layer as int,
                        at,
                        f.y,
                        kv_cache::keys(w.blocks, c),
                        kv_cache::values(w.blocks, c),
                    ),
                    ..f
                }
            },
            Action::Convolve { layer } => {
                let w = run.after(m);
                let k = run.model.config.kernel as nat;
                let history = conv::history(w.tensors, w.pass.rows[r].conv[layer as int], run.blank, k);
                Frame {
                    y: num.convolved(
                        layer as int,
                        f.y,
                        conv::windows(history, run.feed.gated[layer as int][r], k),
                    ),
                    ..f
                }
            },
            Action::AddOperator { .. } => Frame { x: num.summed(f.x, f.y), ..f },
            Action::FfnNorm { layer } => Frame { y: num.ffn_normed(layer as int, f.x), ..f },
            Action::Dense { layer } => Frame { y: f.y.map_values(|y: X| (num.dense)(layer as int, y)), ..f },
            Action::Experts { layer, steered, .. } => {
                let bias = if steered {
                    (self.replaced)(layer as int)
                } else {
                    (num.bias)(layer as int)
                };
                Frame { y: f.y.map_values(|y: X| (num.experts)(layer as int, y, bias)), ..f }
            },
            Action::AddFeedForward { .. } => Frame { x: num.summed(f.x, f.y), ..f },
            Action::Output => Frame { logits: Some((num.output)(f.x.last())), ..f },
            _ => f,
        }
    }

    /// Row `r` after the first `n` steps.
    pub open spec fn frame(self, r: int, n: nat) -> Frame<X, L>
        decreases n,
    {
        if n == 0 {
            Frame { x: Seq::empty(), y: Seq::empty(), logits: None }
        } else {
            self.computed(r, self.frame(r, (n - 1) as nat), (n - 1) as nat)
        }
    }

    /// What step number `m` appends for row `r` is what the row has computed.
    pub open spec fn fed(self, r: int, m: nat) -> bool {
        let (run, num) = (self.run, self.num);
        let y = self.frame(r, m).y;
        match run.program()[m as int] {
            Action::Attend { layer } => {
                &&& run.feed.keys[layer as int][r].rows@ == num.keys(layer as int, run.states[r].len as int, y)
                &&& run.feed.values[layer as int][r].rows@ == num.values(layer as int, y)
            },
            Action::Convolve { layer } => run.feed.gated[layer as int][r] == num.gated(layer as int, y),
            _ => true,
        }
    }

    /// The run can be made, and is fed from its own numbers.
    pub open spec fn ready(self) -> bool {
        &&& self.run.ready()
        &&& self.tokens.len() == self.run.states.len()
        &&& forall|r: int| 0 <= r < self.tokens.len() ==> (#[trigger] self.tokens[r]).len() == self.run.seq
        &&& forall|r: int, m: nat|
            0 <= r < self.tokens.len() && m < self.run.program().len() ==> #[trigger] self.fed(r, m)
    }

    /// The bias that layer `i`'s router takes.
    pub open spec fn bias(self, i: int) -> B {
        if self.run.steered.contains(i as usize) {
            (self.replaced)(i)
        } else {
            (self.num.bias)(i)
        }
    }

    /// Row `r` as a sequence.
    pub open spec fn sequence(self, r: int) -> Sequence<X, T, C, B, L> {
        Sequence {
            model: self.run.model,
            num: self.num,
            biases: |i: int| self.bias(i),
            past: shown(self.run.model, self.run.blank, self.run.states[r], self.run.opened()),
        }
    }

    /// What row `r`'s state shows in the end.
    pub open spec fn end_shown(self, r: int) -> Past<T, C> {
        shown(self.run.model, self.run.blank, self.run.end_state(r), self.run.ended())
    }

    /// Row `r`'s logits.
    pub open spec fn logits(self, r: int) -> Option<L> {
        self.frame(r, self.run.program().len()).logits
    }
}

/// Where layer `i`'s steps begin in a program.
spec fn block_start(observed: bool, i: int) -> nat {
    (pass::opening(observed).len() + pass_laws::layer_steps(observed) * i) as nat
}

/// The steps of layer `i`.
proof fn lemma_block(layers: Seq<Layer>, observed: bool, steered: Set<usize>, i: int, j: int)
    requires
        0 <= i < layers.len(),
        0 <= j < pass_laws::layer_steps(observed),
    ensures
        block_start(observed, i) + j < pass::spec_program(layers, observed, steered).len(),
        pass::spec_program(layers, observed, steered)[block_start(observed, i) + j] == pass::layer_program(
            layers[i],
            i,
            observed,
            steered.contains(i as usize),
        )[j],
        block_start(observed, i) == pass::opening(observed).len() + pass_laws::layer_steps(observed) * i,
        block_start(observed, i + 1) == block_start(observed, i) + pass_laws::layer_steps(observed),
{
    let n = layers.len();
    let w = pass_laws::layer_steps(observed);
    let o = pass::opening(observed).len();
    let body = pass::layers_program(layers, observed, steered, n);
    let p = pass::spec_program(layers, observed, steered);
    pass_laws::lemma_layers_len(layers, observed, steered, n);
    let at = w * i + j;
    assert(0 <= w * i && at < w * n && at / w == i && at % w == j) by {
        if observed {
            assert((7 * i + j) / 7 == i && (7 * i + j) % 7 == j);
        } else {
            assert((6 * i + j) / 6 == i && (6 * i + j) % 6 == j);
        }
    }
    pass_laws::lemma_layer_step(layers, observed, steered, n, at);
    assert(p[o + at] == body[at]);
}

/// A row's past is as long as the row, layer by layer.
proof fn lemma_sequence_wf<X, T, C, B, L>(c: Computation<X, T, C, B, L>, r: int)
    requires
        c.ready(),
        0 <= r < c.tokens.len(),
    ensures
        c.sequence(r).wf(),
{
    let run = c.run;
    let s = run.states[r];
    let q = c.sequence(r);
    assert(run.row_ready(r));
    assert forall|i: int| 0 <= i < run.model.layers.len() implies match (#[trigger] run.model.layers[i]).operator {
        Operator::Attention(_) => q.past.keys[i].len() == q.past.len && q.past.values[i].len() == q.past.len,
        Operator::Conv { .. } => q.past.history[i].len() == run.model.config.kernel,
    } by {
        assert(kv_cache::holds_previous(run.blocks, s.kv[i]));
        if s.kv[i] is Some {
            assert(run.blocks[s.kv[i]->0.storage as int].wf());
        }
        if s.conv[i] is Some {
            assert(conv::conv_holds(run.tensors, s.conv[i]->0, run.model.config.kernel as nat));
        }
    }
}

/// Layer `i`'s operator, done on row `r`.
proof fn lemma_operator<X, T, C, B, L>(c: Computation<X, T, C, B, L>, r: int, i: int, ys: Seq<X>)
    requires
        c.ready(),
        0 <= r < c.tokens.len(),
        0 <= i < c.run.model.layers.len(),
        c.frame(r, (block_start(c.run.observed, i) + 1) as nat).y == ys,
    ensures
        c.frame(r, (block_start(c.run.observed, i) + 2) as nat).x == c.frame(
            r,
            (block_start(c.run.observed, i) + 1) as nat,
        ).x,
        c.frame(r, (block_start(c.run.observed, i) + 2) as nat).y == c.sequence(r).operated(i, ys),
        match c.run.model.layers[i].operator {
            Operator::Attention(_) => {
                &&& c.run.feed.keys[i][r].rows@ == c.num.keys(i, c.run.states[r].len as int, ys)
                &&& c.run.feed.values[i][r].rows@ == c.num.values(i, ys)
            },
            Operator::Conv { .. } => c.run.feed.gated[i][r] == c.num.gated(i, ys),
        },
{
    let run = c.run;
    let q = c.sequence(r);
    let m = (block_start(run.observed, i) + 1) as nat;
    lemma_block(run.model.layers, run.observed, run.steered, i, 1);
    assert(m == pass_runs::operator_step(run.observed, i));
    pass_runs::lemma_operator_at(run.model.layers, run.observed, run.steered, i);
    assert(c.fed(r, m));
    assert(i as usize as int == i);
    assert(c.frame(r, (m + 1) as nat) == c.computed(r, c.frame(r, m), m));
    pass_runs::lemma_reached(run, m);
    pass_runs::lemma_reached(run, (m + 1) as nat);
    lemma_sequence_wf(c, r);
    assert(run.row_ready(r));
    match run.model.layers[i].operator {
        Operator::Attention(_) => {
            let w = run.after(m + 1);
            assert(run.slot_after(w, (m + 1) as int, r, i));
            assert(run.done(i, (m + 1) as int));
            assert(c.frame(r, (m + 1) as nat).y =~= q.operated(i, ys));
        },
        Operator::Conv { .. } => {
            let w = run.after(m);
            let k = run.model.config.kernel as nat;
            assert(run.slot_after(w, m as int, r, i));
            assert(!run.done(i, m as int));
            let was = run.states[r].conv[i];
            if was is Some {
                assert(conv::conv_holds(run.tensors, was->0, k));
                assert(w.tensors[was->0.tensor as int] == run.tensors[was->0.tensor as int]);
            }
            assert(conv::history(w.tensors, was, run.blank, k) == q.past.history[i]);
            assert(c.frame(r, (m + 1) as nat).y =~= q.operated(i, ys));
        },
    }
}

/// Layer `i` up to its feed-forward, done on row `r`.
proof fn lemma_layer_operator<X, T, C, B, L>(c: Computation<X, T, C, B, L>, r: int, i: int, xs: Seq<X>)
    requires
        c.ready(),
        0 <= r < c.tokens.len(),
        0 <= i < c.run.model.layers.len(),
        c.frame(r, block_start(c.run.observed, i)).x == xs,
    ensures
        c.frame(r, (block_start(c.run.observed, i) + 3) as nat).x == c.sequence(r).between(i, xs),
        match c.run.model.layers[i].operator {
            Operator::Attention(_) => {
                &&& c.run.feed.keys[i][r].rows@ == c.num.keys(i, c.run.states[r].len as int, c.num.normed(i, xs))
                &&& c.run.feed.values[i][r].rows@ == c.num.values(i, c.num.normed(i, xs))
            },
            Operator::Conv { .. } => c.run.feed.gated[i][r] == c.num.gated(i, c.num.normed(i, xs)),
        },
{
    let run = c.run;
    let o = run.observed;
    let n = block_start(o, i);
    let ys = c.num.normed(i, xs);
    assert(i as usize as int == i);
    lemma_block(run.model.layers, o, run.steered, i, 0);
    assert(c.frame(r, (n + 1) as nat) == c.computed(r, c.frame(r, n), n));
    assert(c.frame(r, (n + 1) as nat).y == ys);
    lemma_operator(c, r, i, ys);
    lemma_block(run.model.layers, o, run.steered, i, 2);
    assert(c.frame(r, (n + 3) as nat) == c.computed(r, c.frame(r, (n + 2) as nat), (n + 2) as nat));
}

/// Layer `i` from its feed-forward on, done on row `r`.
proof fn lemma_layer_ffn<X, T, C, B, L>(c: Computation<X, T, C, B, L>, r: int, i: int, mid: Seq<X>)
    requires
        c.ready(),
        0 <= r < c.tokens.len(),
        0 <= i < c.run.model.layers.len(),
        c.frame(r, (block_start(c.run.observed, i) + 3) as nat).x == mid,
    ensures
        c.frame(r, block_start(c.run.observed, i + 1)).x == c.num.summed(
            mid,
            c.num.fed_forward(c.run.model.layers[i], i, c.bias(i), c.num.ffn_normed(i, mid)),
        ),
{
    let run = c.run;
    let o = run.observed;
    let n = block_start(o, i);
    let fs = c.num.ffn_normed(i, mid);
    assert(i as usize as int == i);
    lemma_block(run.model.layers, o, run.steered, i, 3);
    assert(c.frame(r, (n + 4) as nat) == c.computed(r, c.frame(r, (n + 3) as nat), (n + 3) as nat));
    assert(c.frame(r, (n + 4) as nat).y == fs);
    lemma_block(run.model.layers, o, run.steered, i, 4);
    assert(c.frame(r, (n + 5) as nat) == c.computed(r, c.frame(r, (n + 4) as nat), (n + 4) as nat));
    assert(c.frame(r, (n + 5) as nat).y =~= c.num.fed_forward(run.model.layers[i], i, c.bias(i), fs));
    lemma_block(run.model.layers, o, run.steered, i, 5);
    assert(c.frame(r, (n + 6) as nat) == c.computed(r, c.frame(r, (n + 5) as nat), (n + 5) as nat));
    if o {
        lemma_block(run.model.layers, o, run.steered, i, 6);
        assert(c.frame(r, (n + 7) as nat) == c.computed(r, c.frame(r, (n + 6) as nat), (n + 6) as nat));
    }
}

/// Layer `i`, done on row `r`.
proof fn lemma_layer<X, T, C, B, L>(c: Computation<X, T, C, B, L>, r: int, i: int, xs: Seq<X>)
    requires
        c.ready(),
        0 <= r < c.tokens.len(),
        0 <= i < c.run.model.layers.len(),
        c.frame(r, block_start(c.run.observed, i)).x == xs,
    ensures
        c.frame(r, block_start(c.run.observed, i + 1)).x == c.sequence(r).through(i, xs),
        match c.run.model.layers[i].operator {
            Operator::Attention(_) => {
                &&& c.run.feed.keys[i][r].rows@ == c.num.keys(i, c.run.states[r].len as int, c.num.normed(i, xs))
                &&& c.run.feed.values[i][r].rows@ == c.num.values(i, c.num.normed(i, xs))
            },
            Operator::Conv { .. } => c.run.feed.gated[i][r] == c.num.gated(i, c.num.normed(i, xs)),
        },
{
    lemma_layer_operator(c, r, i, xs);
    lemma_layer_ffn(c, r, i, c.sequence(r).between(i, xs));
    assert((c.sequence(r).biases)(i) == c.bias(i));
}

/// The stream that enters layer `i`.
proof fn lemma_stream<X, T, C, B, L>(c: Computation<X, T, C, B, L>, r: int, i: nat)
    requires
        c.ready(),
        0 <= r < c.tokens.len(),
        i <= c.run.model.layers.len(),
    ensures
        c.frame(r, block_start(c.run.observed, i as int)).x == c.sequence(r).stream(c.tokens[r], i),
    decreases i,
{
    let run = c.run;
    if i == 0 {
        let p = run.program();
        assert(p[0] == pass::opening(run.observed)[0]);
        assert(c.frame(r, 1) == c.computed(r, c.frame(r, 0), 0));
        if run.observed {
            assert(p[1] == pass::opening(run.observed)[1]);
            assert(c.frame(r, 2) == c.computed(r, c.frame(r, 1), 1));
            assert(block_start(true, 0) == 2);
        } else {
            assert(block_start(false, 0) == 1);
        }
    } else {
        let j = (i - 1) as nat;
        lemma_stream(c, r, j);
        lemma_layer(c, r, j as int, c.sequence(r).stream(c.tokens[r], j));
    }
}

/// What a row is fed is what its tokens and its past make of it.
proof fn lemma_fed<X, T, C, B, L>(c: Computation<X, T, C, B, L>, r: int, i: int)
    requires
        c.ready(),
        0 <= r < c.tokens.len(),
        0 <= i < c.run.model.layers.len(),
    ensures
        ({
            let ys = c.sequence(r).input(c.tokens[r], i);
            match c.run.model.layers[i].operator {
                Operator::Attention(_) => {
                    &&& c.run.feed.keys[i][r].rows@ == c.num.keys(i, c.run.states[r].len as int, ys)
                    &&& c.run.feed.values[i][r].rows@ == c.num.values(i, ys)
                },
                Operator::Conv { .. } => c.run.feed.gated[i][r] == c.num.gated(i, ys),
            }
        }),
{
    lemma_stream(c, r, i as nat);
    lemma_layer(c, r, i, c.sequence(r).stream(c.tokens[r], i as nat));
}

/// Law: what a pass makes of a row is decided by what the row's state shows, by
/// its tokens and by the biases in force. Its logits are those of its sequence,
/// and in the end its state shows the sequence with the tokens taken in.
pub proof fn law_pass_computes_each_sequence<X, T, C, B, L>(c: Computation<X, T, C, B, L>, r: int)
    requires
        c.ready(),
        0 <= r < c.tokens.len(),
    ensures
        c.logits(r) == Some(c.sequence(r).logits(c.tokens[r])),
        c.end_shown(r) == c.sequence(r).advanced(c.tokens[r]),
{
    let run = c.run;
    let n = run.model.layers.len();
    let o = block_start(run.observed, n as int);
    let p = run.program();
    lemma_stream(c, r, n);
    pass_laws::lemma_layers_len(run.model.layers, run.observed, run.steered, n);
    let body = pass::layers_program(run.model.layers, run.observed, run.steered, n);
    assert(pass_laws::layer_steps(run.observed) * n >= 0) by (nonlinear_arith)
        requires
            pass_laws::layer_steps(run.observed) >= 0,
    ;
    assert(o == pass::opening(run.observed).len() + body.len());
    assert(p.len() == o + 2);
    assert(p[o as int] == pass::closing()[0]);
    assert(p[(o + 1) as int] == pass::closing()[1]);
    assert(c.frame(r, (o + 1) as nat) == c.computed(r, c.frame(r, o), o));
    assert(c.frame(r, (o + 2) as nat) == c.computed(r, c.frame(r, (o + 1) as nat), (o + 1) as nat));
    pass_runs::law_pass_extends_every_layer(run, r);
    let (got, want) = (c.end_shown(r), c.sequence(r).advanced(c.tokens[r]));
    assert forall|i: int| 0 <= i < n implies got.keys[i] == want.keys[i] && got.values[i] == want.values[i]
        && got.history[i] == want.history[i] by {
        assert(pass_runs::layer_extended(run, r, i));
        lemma_fed(c, r, i);
    }
    assert(got.keys =~= want.keys);
    assert(got.values =~= want.values);
    assert(got.history =~= want.history);
}

/// Law: an observer sees the stream that runs. The embeddings are those of the
/// tokens, what leaves layer `i` is the row's stream after that layer, and
/// reading the last layer's last position through the output gives the logits.
pub proof fn law_taps_show_the_stream<X, T, C, B, L>(c: Computation<X, T, C, B, L>, r: int, i: int)
    requires
        c.ready(),
        c.run.observed,
        0 <= r < c.tokens.len(),
        0 <= i < c.run.model.layers.len(),
    ensures
        c.run.program()[1] is TapEmbedding,
        c.frame(r, 1).x == c.num.embedded(c.tokens[r]),
        ({
            let tap = (pass_runs::operator_step(true, i) + 5) as nat;
            let seen = c.frame(r, tap).x;
            &&& tap < c.run.program().len()
            &&& c.run.program()[tap as int] == (Action::TapResidual { layer: i as usize })
            &&& seen == c.sequence(r).stream(c.tokens[r], (i + 1) as nat)
            &&& i == c.run.model.layers.len() - 1 ==> c.logits(r) == Some((c.num.output)(seen.last()))
        }),
{
    let run = c.run;
    let p = run.program();
    let n = block_start(true, i);
    assert(p[0] == pass::opening(true)[0]);
    assert(p[1] == pass::opening(true)[1]);
    assert(c.frame(r, 1) == c.computed(r, c.frame(r, 0), 0));
    lemma_block(run.model.layers, true, run.steered, i, 6);
    assert(n + 6 == pass_runs::operator_step(true, i) + 5);
    assert(c.frame(r, (n + 7) as nat) == c.computed(r, c.frame(r, (n + 6) as nat), (n + 6) as nat));
    lemma_stream(c, r, (i + 1) as nat);
    law_pass_computes_each_sequence(c, r);
}

/// Law: a pass touches no state. After any number of its steps, also where it is
/// then dropped, every state that lay in the stores before, be it one that the
/// pass began from, a branch of one or another's, still lies there and shows
/// what it showed; so what it computes later is what it would have computed.
pub proof fn law_bystanders_show_the_same<T, C>(run: Run<T, C>, n: nat, s: StateView)
    requires
        run.ready(),
        n <= run.program().len(),
        pass::state_fits(run.model, s),
        pass::state_kv_held(s, run.blocks),
        pass::state_conv_held(s, run.tensors, run.model.config.kernel as nat),
    ensures
        shown(run.model, run.blank, s, run.after(n)) == shown(run.model, run.blank, s, run.opened()),
        pass::state_kv_held(s, run.after(n).blocks),
        pass::state_conv_held(s, run.after(n).tensors, run.model.config.kernel as nat),
{
    let w = run.after(n);
    let k = run.model.config.kernel as nat;
    pass_runs::lemma_reached(run, n);
    let (now, was) = (shown(run.model, run.blank, s, w), shown(run.model, run.blank, s, run.opened()));
    assert forall|i: int| 0 <= i < s.kv.len() implies kv_cache::holds_previous(w.blocks, #[trigger] s.kv[i]) by {
        assert(kv_cache::holds_previous(run.blocks, s.kv[i]));
        if s.kv[i] is Some {
            assert(kv_cache::shows_same(run.blocks, w.blocks, s.kv[i]->0));
        }
    }
    assert forall|i: int| 0 <= i < s.conv.len() && #[trigger] s.conv[i] is Some implies conv::conv_holds(
        w.tensors,
        s.conv[i]->0,
        k,
    ) by {
        assert(conv::conv_holds(run.tensors, s.conv[i]->0, k));
        assert(w.tensors[s.conv[i]->0.tensor as int] == run.tensors[s.conv[i]->0.tensor as int]);
    }
    assert forall|i: int| 0 <= i < run.model.layers.len() implies now.keys[i] == was.keys[i] && now.values[i]
        == was.values[i] && now.history[i] == was.history[i] by {
        assert(kv_cache::holds_previous(run.blocks, s.kv[i]));
        if s.kv[i] is Some {
            assert(kv_cache::shows_same(run.blocks, w.blocks, s.kv[i]->0));
        }
        if s.conv[i] is Some {
            assert(conv::conv_holds(run.tensors, s.conv[i]->0, k));
            assert(w.tensors[s.conv[i]->0.tensor as int] == run.tensors[s.conv[i]->0.tensor as int]);
        }
    }
    assert(now.keys =~= was.keys);
    assert(now.values =~= was.values);
    assert(now.history =~= was.history);
}

/// The routers of both sequences take the same biases.
pub open spec fn same_biases<B>(model: ModelView, a: spec_fn(int) -> B, b: spec_fn(int) -> B) -> bool {
    forall|i: int| 0 <= i < model.layers.len() && (#[trigger] model.layers[i]).ffn is Moe ==> a(i) == b(i)
}

proof fn lemma_stream_biases<X, T, C, B, L>(
    a: Sequence<X, T, C, B, L>,
    b: Sequence<X, T, C, B, L>,
    tokens: Seq<u32>,
    n: nat,
)
    requires
        a.model == b.model,
        a.num == b.num,
        a.past == b.past,
        same_biases(a.model, a.biases, b.biases),
        n <= a.model.layers.len(),
    ensures
        a.stream(tokens, n) == b.stream(tokens, n),
    decreases n,
{
    if n > 0 {
        lemma_stream_biases(a, b, tokens, (n - 1) as nat);
        let xs = a.stream(tokens, (n - 1) as nat);
        let mid = a.between(n - 1, xs);
        assert(mid == b.between(n - 1, xs));
        assert(a.model.layers[n - 1].ffn is Moe ==> (a.biases)(n - 1) == (b.biases)(n - 1));
        assert(a.through(n - 1, xs) == b.through(n - 1, xs));
    }
}

proof fn lemma_advanced_biases<X, T, C, B, L>(
    a: Sequence<X, T, C, B, L>,
    b: Sequence<X, T, C, B, L>,
    tokens: Seq<u32>,
)
    requires
        a.model == b.model,
        a.num == b.num,
        a.past == b.past,
        same_biases(a.model, a.biases, b.biases),
    ensures
        a.logits(tokens) == b.logits(tokens),
        a.advanced(tokens) == b.advanced(tokens),
{
    lemma_stream_biases(a, b, tokens, a.model.layers.len());
    let (x, y) = (a.advanced(tokens), b.advanced(tokens));
    assert forall|i: int| 0 <= i < a.model.layers.len() implies x.keys[i] == y.keys[i] && x.values[i] == y.values[i]
        && x.history[i] == y.history[i] by {
        lemma_stream_biases(a, b, tokens, i as nat);
        assert(a.input(tokens, i) == b.input(tokens, i));
    }
    assert(x.keys =~= y.keys);
    assert(x.values =~= y.values);
    assert(x.history =~= y.history);
}

/// States of one owner that show the same are alike.
proof fn lemma_alike<T, C>(model: ModelView, blank: C, a: StateView, x: World<T, C>, b: StateView, y: World<T, C>)
    requires
        a.owner == b.owner,
        pass_laws::settled(model, a),
        pass_laws::settled(model, b),
        shown(model, blank, a, x) == shown(model, blank, b, y),
    ensures
        pass_runs::alike(model, blank, a, x, b, y),
{
    let (p, q) = (shown(model, blank, a, x), shown(model, blank, b, y));
    assert(p.len == q.len);
    assert forall|i: int| 0 <= i < model.layers.len() implies #[trigger] pass_runs::layer_alike(
        model,
        blank,
        a,
        x,
        b,
        y,
        i,
    ) by {
        assert(p.keys[i] == q.keys[i]);
        assert(p.values[i] == q.values[i]);
        assert(p.history[i] == q.history[i]);
    }
}

/// Row `r` of `a` and row `q` of `b` give the same logits and leave states that
/// show the same.
pub open spec fn same_outcome<X, T, C, B, L>(
    a: Computation<X, T, C, B, L>,
    r: int,
    b: Computation<X, T, C, B, L>,
    q: int,
) -> bool {
    &&& a.logits(r) is Some
    &&& a.logits(r) == b.logits(q)
    &&& a.end_shown(r) == b.end_shown(q)
    &&& pass_runs::alike(a.run.model, a.run.blank, a.run.end_state(r), a.run.ended(), b.run.end_state(q), b.run.ended())
}

/// Row `r` of `a` and row `q` of `b` continue sequences that show the same, with
/// the same tokens.
pub open spec fn same_start<X, T, C, B, L>(
    a: Computation<X, T, C, B, L>,
    r: int,
    b: Computation<X, T, C, B, L>,
    q: int,
) -> bool {
    &&& a.run.model == b.run.model
    &&& a.run.blank == b.run.blank
    &&& a.num == b.num
    &&& 0 <= r < a.tokens.len()
    &&& 0 <= q < b.tokens.len()
    &&& a.tokens[r] == b.tokens[q]
    &&& a.run.states[r].owner == b.run.states[q].owner
    &&& a.sequence(r).past == b.sequence(q).past
}

/// Law: rows that show the same, take the same tokens and have the same biases
/// in force give the same logits and leave states that show the same: whatever
/// other rows their passes have, whether they are observed, and wherever their
/// blocks and tensors lie.
pub proof fn law_same_sequences_end_the_same<X, T, C, B, L>(
    a: Computation<X, T, C, B, L>,
    r: int,
    b: Computation<X, T, C, B, L>,
    q: int,
)
    requires
        a.ready(),
        b.ready(),
        same_start(a, r, b, q),
        same_biases(a.run.model, |i: int| a.bias(i), |i: int| b.bias(i)),
    ensures
        same_outcome(a, r, b, q),
{
    law_pass_computes_each_sequence(a, r);
    law_pass_computes_each_sequence(b, q);
    assert(same_biases(a.run.model, a.sequence(r).biases, b.sequence(q).biases)) by {
        let (f, g) = (|i: int| a.bias(i), |i: int| b.bias(i));
        assert forall|i: int| 0 <= i < a.run.model.layers.len() && (
        #[trigger] a.run.model.layers[i]).ffn is Moe implies (a.sequence(r).biases)(i) == (b.sequence(q).biases)(i) by {
            assert(f(i) == g(i));
        }
    }
    lemma_advanced_biases(a.sequence(r), b.sequence(q), a.tokens[r]);
    pass_runs::law_pass_extends_every_layer(a.run, r);
    pass_runs::law_pass_extends_every_layer(b.run, q);
    lemma_alike(a.run.model, a.run.blank, a.run.end_state(r), a.run.ended(), b.run.end_state(q), b.run.ended());
}

/// Law: a batch gives every row the logits and the state that a pass of its own
/// would give it, from the same blocks and tensors.
pub proof fn law_batch_computes_as_single_passes<X, T, C, B, L>(
    batch: Computation<X, T, C, B, L>,
    r: int,
    one: Computation<X, T, C, B, L>,
)
    requires
        batch.ready(),
        one.ready(),
        0 <= r < batch.tokens.len(),
        one.num == batch.num,
        one.tokens == seq![batch.tokens[r]],
        one.run.model == batch.run.model,
        one.run.states == seq![batch.run.states[r]],
        one.run.blocks == batch.run.blocks,
        one.run.tensors == batch.run.tensors,
        one.run.blank == batch.run.blank,
        one.run.steered == batch.run.steered,
        one.replaced == batch.replaced,
    ensures
        same_outcome(batch, r, one, 0),
{
    assert(one.run.states[0] == batch.run.states[r]);
    assert(one.tokens[0] == batch.tokens[r]);
    law_same_sequences_end_the_same(batch, r, one, 0);
}

/// Law: observing a pass changes neither its logits nor its states.
pub proof fn law_observation_changes_no_number<X, T, C, B, L>(
    plain: Computation<X, T, C, B, L>,
    seen: Computation<X, T, C, B, L>,
    r: int,
)
    requires
        plain.ready(),
        seen.ready(),
        0 <= r < plain.tokens.len(),
        seen.num == plain.num,
        seen.tokens == plain.tokens,
        seen.run.model == plain.run.model,
        seen.run.states == plain.run.states,
        seen.run.blocks == plain.run.blocks,
        seen.run.tensors == plain.run.tensors,
        seen.run.blank == plain.run.blank,
        seen.run.steered == plain.run.steered,
        seen.replaced == plain.replaced,
    ensures
        same_outcome(plain, r, seen, r),
{
    law_same_sequences_end_the_same(plain, r, seen, r);
}

/// Law: steering with the routers' own biases changes nothing, whichever layers
/// it names, and so does steering nothing: logits and states are those of the
/// plain pass.
pub proof fn law_own_biases_change_nothing<X, T, C, B, L>(
    plain: Computation<X, T, C, B, L>,
    steered: Computation<X, T, C, B, L>,
    r: int,
)
    requires
        plain.ready(),
        steered.ready(),
        0 <= r < plain.tokens.len(),
        steered.num == plain.num,
        steered.tokens == plain.tokens,
        steered.run.model == plain.run.model,
        steered.run.states == plain.run.states,
        steered.run.blocks == plain.run.blocks,
        steered.run.tensors == plain.run.tensors,
        steered.run.blank == plain.run.blank,
        plain.run.steered == Set::<usize>::empty(),
        forall|i: int|
            0 <= i < plain.run.model.layers.len() && #[trigger] steered.run.steered.contains(i as usize) ==> (
            steered.replaced)(i) == (plain.num.bias)(i),
    ensures
        same_outcome(plain, r, steered, r),
{
    assert(same_biases(plain.run.model, |i: int| plain.bias(i), |i: int| steered.bias(i))) by {
        assert forall|i: int| 0 <= i < plain.run.model.layers.len() && (
        #[trigger] plain.run.model.layers[i]).ffn is Moe implies plain.bias(i) == steered.bias(i) by {
            assert(!plain.run.steered.contains(i as usize));
        }
    }
    law_same_sequences_end_the_same(plain, r, steered, r);
}

proof fn lemma_keys_concat<X, T, C, B, L>(num: Numerics<X, T, C, B, L>, i: int, at: int, a: Seq<X>, b: Seq<X>)
    ensures
        num.keys(i, at, a + b) == num.keys(i, at, a) + num.keys(i, at + a.len(), b),
        num.values(i, a + b) == num.values(i, a) + num.values(i, b),
        num.gated(i, a + b) == num.gated(i, a) + num.gated(i, b),
        num.normed(i, a + b) == num.normed(i, a) + num.normed(i, b),
        num.ffn_normed(i, a + b) == num.ffn_normed(i, a) + num.ffn_normed(i, b),
{
    assert(num.keys(i, at, a + b) =~= num.keys(i, at, a) + num.keys(i, at + a.len(), b));
    assert(num.values(i, a + b) =~= num.values(i, a) + num.values(i, b));
    assert(num.gated(i, a + b) =~= num.gated(i, a) + num.gated(i, b));
    assert(num.normed(i, a + b) =~= num.normed(i, a) + num.normed(i, b));
    assert(num.ffn_normed(i, a + b) =~= num.ffn_normed(i, a) + num.ffn_normed(i, b));
}

/// An operator over a head and then a tail.
proof fn lemma_operated_concat<X, T, C, B, L>(
    s: Sequence<X, T, C, B, L>,
    t: Sequence<X, T, C, B, L>,
    i: int,
    a: Seq<X>,
    b: Seq<X>,
)
    requires
        s.wf(),
        0 <= i < s.model.layers.len(),
        t.model == s.model,
        t.num == s.num,
        t.past.len == s.past.len + a.len(),
        match s.model.layers[i].operator {
            Operator::Attention(_) => {
                &&& t.past.keys[i] == s.past.keys[i] + s.num.keys(i, s.past.len, a)
                &&& t.past.values[i] == s.past.values[i] + s.num.values(i, a)
            },
            Operator::Conv { .. } => t.past.history[i] == conv::next_history(s.past.history[i], s.num.gated(i, a)),
        },
    ensures
        s.operated(i, a + b) == s.operated(i, a) + t.operated(i, b),
{
    let (num, past) = (s.num, s.past);
    lemma_keys_concat(num, i, past.len, a, b);
    assert(s.model.layers[i].operator is Attention || s.model.layers[i].operator is Conv);
    match s.model.layers[i].operator {
        Operator::Attention(_) => {
            let all_keys = past.keys[i] + num.keys(i, past.len, a + b);
            let all_values = past.values[i] + num.values(i, a + b);
            let head_keys = past.keys[i] + num.keys(i, past.len, a);
            let head_values = past.values[i] + num.values(i, a);
            let tail_keys = t.past.keys[i] + num.keys(i, t.past.len, b);
            let tail_values = t.past.values[i] + num.values(i, b);
            assert(all_keys =~= tail_keys);
            assert(all_values =~= tail_values);
            let (whole, parts) = (s.operated(i, a + b), s.operated(i, a) + t.operated(i, b));
            assert forall|u: int| 0 <= u < whole.len() implies whole[u] == parts[u] by {
                if u < a.len() {
                    assert(all_keys.take(past.len + u + 1) =~= head_keys.take(past.len + u + 1));
                    assert(all_values.take(past.len + u + 1) =~= head_values.take(past.len + u + 1));
                } else {
                    assert(past.len + u == t.past.len + (u - a.len()));
                }
            }
            assert(whole =~= parts);
        },
        Operator::Conv { .. } => {
            conv::law_chunks_preserve_history(past.history[i], num.gated(i, a), num.gated(i, b));
            let (whole, parts) = (s.operated(i, a + b), s.operated(i, a) + t.operated(i, b));
            assert(whole =~= parts);
        },
    }
}

/// The stream of a head and then a tail, which goes on from what the head leaves.
proof fn lemma_stream_concat<X, T, C, B, L>(s: Sequence<X, T, C, B, L>, a: Seq<u32>, b: Seq<u32>, n: nat)
    requires
        s.wf(),
        n <= s.model.layers.len(),
    ensures
        s.stream(a + b, n) == s.stream(a, n) + s.after(a).stream(b, n),
        s.stream(a, n).len() == a.len(),
        s.after(a).stream(b, n).len() == b.len(),
    decreases n,
{
    let t = s.after(a);
    if n == 0 {
        assert(s.stream(a + b, n) =~= s.stream(a, n) + t.stream(b, n));
    } else {
        let i = n - 1;
        lemma_stream_concat(s, a, b, i as nat);
        let (xa, xb) = (s.stream(a, i as nat), t.stream(b, i as nat));
        let (ya, yb) = (s.num.normed(i, xa), s.num.normed(i, xb));
        lemma_keys_concat(s.num, i, 0, xa, xb);
        assert(ya == s.input(a, i));
        lemma_operated_concat(s, t, i, ya, yb);
        let (ma, mb) = (s.between(i, xa), t.between(i, xb));
        assert(s.between(i, xa + xb) =~= ma + mb);
        lemma_keys_concat(s.num, i, 0, ma, mb);
        let (fa, fb) = (s.num.ffn_normed(i, ma), s.num.ffn_normed(i, mb));
        let (l, bias) = (s.model.layers[i], (s.biases)(i));
        assert(s.num.fed_forward(l, i, bias, fa + fb) =~= s.num.fed_forward(l, i, bias, fa) + s.num.fed_forward(
            l,
            i,
            bias,
            fb,
        ));
        assert(s.through(i, xa + xb) =~= s.through(i, xa) + t.through(i, xb));
    }
}

/// Law: tokens may be taken in at once or one part after the other. Both ways
/// the sequence shows the same in the end, and the logits are the same.
pub proof fn law_tokens_compose<X, T, C, B, L>(s: Sequence<X, T, C, B, L>, a: Seq<u32>, b: Seq<u32>)
    requires
        s.wf(),
        b.len() > 0,
    ensures
        s.logits(a + b) == s.after(a).logits(b),
        s.advanced(a + b) == s.after(a).advanced(b),
{
    let t = s.after(a);
    let n = s.model.layers.len();
    lemma_stream_concat(s, a, b, n);
    assert(s.stream(a + b, n).last() == t.stream(b, n).last());
    let (x, y) = (s.advanced(a + b), t.advanced(b));
    assert forall|i: int| 0 <= i < n implies x.keys[i] == y.keys[i] && x.values[i] == y.values[i] && x.history[i]
        == y.history[i] by {
        lemma_stream_concat(s, a, b, i as nat);
        let (xa, xb) = (s.stream(a, i as nat), t.stream(b, i as nat));
        lemma_keys_concat(s.num, i, s.past.len, xa, xb);
        let (ya, yb) = (s.input(a, i), t.input(b, i));
        assert(s.input(a + b, i) == ya + yb);
        assert(ya.len() == a.len());
        lemma_keys_concat(s.num, i, s.past.len, ya, yb);
        if s.model.layers[i].operator is Attention {
            let (ka, kb) = (s.num.keys(i, s.past.len, ya), s.num.keys(i, t.past.len, yb));
            assert(s.past.keys[i] + (ka + kb) =~= (s.past.keys[i] + ka) + kb);
            let (va, vb) = (s.num.values(i, ya), s.num.values(i, yb));
            assert(s.past.values[i] + (va + vb) =~= (s.past.values[i] + va) + vb);
        } else {
            conv::law_chunks_preserve_history(s.past.history[i], s.num.gated(i, ya), s.num.gated(i, yb));
        }
    }
    assert(x.keys =~= y.keys);
    assert(x.values =~= y.values);
    assert(x.history =~= y.history);
}

/// Law: a prompt may be split anywhere. A pass over its head, committed, and
/// then one over its tail give every row the logits and the state that one pass
/// over the whole gives it.
pub proof fn law_chunks_compute_as_the_whole<X, T, C, B, L>(
    whole: Computation<X, T, C, B, L>,
    head: Computation<X, T, C, B, L>,
    tail: Computation<X, T, C, B, L>,
    r: int,
)
    requires
        whole.ready(),
        head.ready(),
        tail.ready(),
        head.num == whole.num,
        tail.num == whole.num,
        head.run.model == whole.run.model,
        tail.run.model == whole.run.model,
        head.run.states == whole.run.states,
        head.run.blocks == whole.run.blocks,
        head.run.tensors == whole.run.tensors,
        head.run.blank == whole.run.blank,
        tail.run.blank == whole.run.blank,
        tail.run.states.len() == head.run.states.len(),
        tail.run.blocks == head.run.ended().blocks,
        tail.run.tensors == head.run.ended().tensors,
        0 <= r < whole.tokens.len(),
        tail.run.states[r] == head.run.end_state(r),
        whole.tokens[r] == head.tokens[r] + tail.tokens[r],
        same_biases(whole.run.model, |i: int| whole.bias(i), |i: int| head.bias(i)),
        same_biases(whole.run.model, |i: int| whole.bias(i), |i: int| tail.bias(i)),
    ensures
        same_outcome(whole, r, tail, r),
{
    let (a, b) = (head.tokens[r], tail.tokens[r]);
    law_pass_computes_each_sequence(whole, r);
    law_pass_computes_each_sequence(head, r);
    law_pass_computes_each_sequence(tail, r);
    let s = whole.sequence(r);
    lemma_sequence_wf(whole, r);
    law_tokens_compose(s, a, b);
    let (f, g, h) = (|i: int| whole.bias(i), |i: int| head.bias(i), |i: int| tail.bias(i));
    assert(same_biases(s.model, s.biases, head.sequence(r).biases)) by {
        assert forall|i: int| 0 <= i < s.model.layers.len() && (#[trigger] s.model.layers[i]).ffn is Moe implies (
        s.biases)(i) == (head.sequence(r).biases)(i) by {
            assert(f(i) == g(i));
        }
    }
    assert(same_biases(s.model, s.biases, tail.sequence(r).biases)) by {
        assert forall|i: int| 0 <= i < s.model.layers.len() && (#[trigger] s.model.layers[i]).ffn is Moe implies (
        s.biases)(i) == (tail.sequence(r).biases)(i) by {
            assert(f(i) == h(i));
        }
    }
    lemma_advanced_biases(s, head.sequence(r), a);
    let t = s.after(a);
    assert(tail.sequence(r).past =~= head.end_shown(r));
    lemma_advanced_biases(t, tail.sequence(r), b);
    pass_runs::law_pass_extends_every_layer(whole.run, r);
    pass_runs::law_pass_extends_every_layer(head.run, r);
    pass_runs::law_pass_extends_every_layer(tail.run, r);
    lemma_alike(
        whole.run.model,
        whole.run.blank,
        whole.run.end_state(r),
        whole.run.ended(),
        tail.run.end_state(r),
        tail.run.ended(),
    );
}

} // verus!
