//! What a whole pass leaves in every layer of every sequence.
//!
//! A run is a pass together with everything that decides its outcome as far as
//! keys, values and convolution histories go: the states it starts from, the
//! blocks and tensors they lie in, and what the numeric steps between hand to
//! each layer.

use vstd::prelude::*;
use crate::conv;
use crate::conv::ConvState;
use crate::kv_cache;
use crate::kv_cache::{BlockView, KvCache, KvChunk};
use crate::layers::{Layer, Operator};
use crate::model;
use crate::model::{ModelView, StateView};
use crate::pass;
use crate::pass::{Action, PassView};
use crate::pass_laws;

verus! {

/// What the numeric steps hand to the layers, by layer and row: new keys and
/// values where a layer attends, new gated inputs where it convolves.
pub struct Feed<T, C> {
    pub keys: Seq<Seq<KvChunk<T>>>,
    pub values: Seq<Seq<KvChunk<T>>>,
    pub gated: Seq<Seq<Seq<C>>>,
}

/// A pass and the stores it works on.
pub struct World<T, C> {
    pub pass: PassView,
    pub blocks: Seq<BlockView<T>>,
    pub tensors: Seq<Seq<Seq<C>>>,
}

/// A pass to run, from its start.
pub struct Run<T, C> {
    pub model: ModelView,
    pub states: Seq<StateView>,
    /// Positions that every row advances by.
    pub seq: usize,
    pub observed: bool,
    /// Layers with a replaced bias.
    pub steered: Set<usize>,
    pub blocks: Seq<BlockView<T>>,
    pub tensors: Seq<Seq<Seq<C>>>,
    /// What fresh positions hold before they are written.
    pub zero: T,
    /// What a history holds before its first input.
    pub blank: C,
    pub feed: Feed<T, C>,
}

/// The views that an attention step over `layer` gives the rows.
pub open spec fn attended_caches<T, C>(w: World<T, C>, feed: Feed<T, C>, zero: T, layer: int) -> Seq<KvCache> {
    let p = w.pass;
    Seq::new(
        p.rows.len(),
        |r: int|
            pass::attended_cache(
                w.blocks,
                p.kv_of(layer),
                feed.keys[layer],
                feed.values[layer],
                p.limit as nat,
                zero,
                r,
            ),
    )
}

/// The histories that a convolution step gives the rows: those of the next tensor.
pub open spec fn convolved_states<T, C>(w: World<T, C>) -> Seq<Option<ConvState>> {
    Seq::new(
        w.pass.rows.len(),
        |r: int| Some(ConvState { tensor: w.tensors.len() as usize, row: r as usize }),
    )
}

/// What [`pass::Pass::attend`] leaves when it refuses no row.
pub open spec fn after_attention<T, C>(w: World<T, C>, feed: Feed<T, C>, zero: T, layer: int) -> World<T, C> {
    let p = w.pass;
    World {
        pass: pass::attended_pass(p, layer, attended_caches(w, feed, zero, layer)),
        blocks: pass::attended(
            w.blocks,
            p.kv_of(layer),
            feed.keys[layer],
            feed.values[layer],
            p.limit as nat,
            zero,
            p.rows.len(),
        ),
        tensors: w.tensors,
    }
}

/// What [`pass::Pass::convolve`] leaves.
pub open spec fn after_convolution<T, C>(w: World<T, C>, feed: Feed<T, C>, blank: C, layer: int) -> World<T, C> {
    let p = w.pass;
    let rows = conv::gathered(w.tensors, p.conv_of(layer), blank, p.kernel as nat);
    World {
        pass: pass::convolved_pass(p, layer, convolved_states(w)),
        blocks: w.blocks,
        tensors: w.tensors.push(conv::advanced_rows(rows, feed.gated[layer])),
    }
}

/// The step that is due, done.
pub open spec fn next_world<T, C>(w: World<T, C>, feed: Feed<T, C>, zero: T, blank: C) -> World<T, C> {
    match w.pass.action() {
        Some(Action::Attend { layer }) => after_attention(w, feed, zero, layer as int),
        Some(Action::Convolve { layer }) => after_convolution(w, feed, blank, layer as int),
        Some(_) => World { pass: w.pass.stepped(), ..w },
        None => w,
    }
}

impl<T, C> Run<T, C> {
    pub open spec fn program(self) -> Seq<Action> {
        pass::spec_program(self.model.layers, self.observed, self.steered)
    }

    /// Before the first step.
    pub open spec fn opened(self) -> World<T, C> {
        World {
            pass: pass::started(self.model, self.states, self.seq as nat, self.observed, self.steered),
            blocks: self.blocks,
            tensors: self.tensors,
        }
    }

    /// After the first `n` steps.
    pub open spec fn after(self, n: nat) -> World<T, C>
        decreases n,
    {
        if n == 0 {
            self.opened()
        } else {
            next_world(self.after((n - 1) as nat), self.feed, self.zero, self.blank)
        }
    }

    /// After all steps.
    pub open spec fn ended(self) -> World<T, C> {
        self.after(self.program().len())
    }

    /// What [`pass::Pass::commit`] makes of row `r`'s state.
    pub open spec fn end_state(self, r: int) -> StateView {
        pass::committed(self.ended().pass.rows[r], self.seq)
    }

    /// What layer `i` of row `r` is fed can go into it: as many positions as
    /// the pass advances by, and keys and values that its block takes.
    pub open spec fn slot_fed(self, r: int, i: int) -> bool {
        match self.model.layers[i].operator {
            Operator::Attention(_) => {
                &&& self.feed.keys[i].len() == self.states.len()
                &&& self.feed.values[i].len() == self.states.len()
                &&& self.feed.keys[i][r].rows@.len() == self.seq
                &&& kv_cache::append_error(
                    self.blocks,
                    self.states[r].kv[i],
                    self.feed.keys[i][r],
                    self.feed.values[i][r],
                    self.model.config.context,
                ) is None
            },
            Operator::Conv { .. } => {
                &&& self.feed.gated[i].len() == self.states.len()
                &&& self.feed.gated[i][r].len() == self.seq
            },
        }
    }

    /// Row `r`'s state is settled, lies in the blocks and tensors, and has room
    /// in the context.
    pub open spec fn row_ready(self, r: int) -> bool {
        let s = self.states[r];
        &&& pass_laws::settled(self.model, s)
        &&& pass::state_kv_held(s, self.blocks)
        &&& pass::state_conv_held(s, self.tensors, self.model.config.kernel as nat)
        &&& s.len + self.seq <= self.model.config.context
    }

    /// Everything fits; and there are numbers left for the blocks and tensors
    /// that the pass may make.
    pub open spec fn ready(self) -> bool {
        &&& self.model.wf()
        &&& 0 < self.states.len() <= usize::MAX
        &&& self.seq > 0
        &&& kv_cache::blocks_wf(self.blocks)
        &&& forall|r: int| 0 <= r < self.states.len() ==> #[trigger] self.row_ready(r)
        &&& forall|r: int, i: int|
            0 <= r < self.states.len() && 0 <= i < self.model.layers.len() ==> #[trigger] self.slot_fed(r, i)
        &&& self.blocks.len() + self.states.len() * self.model.layers.len() <= usize::MAX
        &&& self.tensors.len() + self.model.layers.len() <= usize::MAX
    }

    /// The operator of layer `i` is among the first `n` steps.
    pub open spec fn done(self, i: int, n: int) -> bool {
        operator_step(self.observed, i) < n
    }

    /// What layer `i` of row `r` holds after `n` steps: what it held at the
    /// start, and once its operator has run also what it was fed.
    pub open spec fn slot_after(self, w: World<T, C>, n: int, r: int, i: int) -> bool {
        let was = self.states[r];
        let now = w.pass.rows[r];
        let k = self.model.config.kernel as nat;
        match self.model.layers[i].operator {
            Operator::Attention(_) => {
                &&& now.conv[i] == was.conv[i]
                &&& if self.done(i, n) {
                    &&& now.kv[i] is Some
                    &&& now.kv[i]->0.len == was.len + self.seq
                    &&& kv_cache::holds(w.blocks, now.kv[i]->0)
                    &&& kv_cache::keys(w.blocks, now.kv[i]->0) == kv_cache::previous_keys(self.blocks, was.kv[i])
                        + self.feed.keys[i][r].rows@
                    &&& kv_cache::values(w.blocks, now.kv[i]->0) == kv_cache::previous_values(self.blocks, was.kv[i])
                        + self.feed.values[i][r].rows@
                    &&& w.blocks[now.kv[i]->0.storage as int].format == self.feed.keys[i][r].format
                } else {
                    now.kv[i] == was.kv[i]
                }
            },
            Operator::Conv { .. } => {
                &&& now.kv[i] == was.kv[i]
                &&& if self.done(i, n) {
                    &&& now.conv[i] is Some
                    &&& conv::conv_holds(w.tensors, now.conv[i]->0, k)
                    &&& conv::history(w.tensors, now.conv[i], self.blank, k) == conv::next_history(
                        conv::history(self.tensors, was.conv[i], self.blank, k),
                        self.feed.gated[i][r],
                    )
                } else {
                    now.conv[i] == was.conv[i]
                }
            },
        }
    }

    /// Where the run is after `n` steps.
    pub open spec fn reached(self, w: World<T, C>, n: int) -> bool {
        let layers = self.model.layers.len();
        let passed = layers_passed(self.observed, layers as int, n);
        &&& w.pass == (PassView { at: n as nat, rows: w.pass.rows, ..self.opened().pass })
        &&& w.pass.rows.len() == self.states.len()
        &&& forall|r: int|
            0 <= r < self.states.len() ==> {
                &&& (#[trigger] w.pass.rows[r]).owner == self.states[r].owner
                &&& w.pass.rows[r].len == self.states[r].len
                &&& w.pass.rows[r].kv.len() == layers
                &&& w.pass.rows[r].conv.len() == layers
            }
        &&& kv_cache::blocks_wf(w.blocks)
        &&& self.blocks.len() <= w.blocks.len() <= self.blocks.len() + self.states.len() * passed
        &&& forall|i: int| 0 <= i < self.blocks.len() ==> (#[trigger] w.blocks[i]).format == self.blocks[i].format
        &&& pass_laws::keeps_views(self.blocks, w.blocks)
        &&& self.tensors.len() <= w.tensors.len() <= self.tensors.len() + passed
        &&& forall|i: int| 0 <= i < self.tensors.len() ==> #[trigger] w.tensors[i] == self.tensors[i]
        &&& forall|r: int, i: int|
            0 <= r < self.states.len() && 0 <= i < layers ==> #[trigger] self.slot_after(w, n, r, i)
    }
}

/// Where layer `i`'s operator stands in a program.
pub open spec fn operator_step(observed: bool, i: int) -> int {
    pass::opening(observed).len() + pass_laws::layer_steps(observed) * i + 1
}

/// How many of the layers have their operator among the first `n` steps.
pub open spec fn layers_passed(observed: bool, layers: int, n: int) -> int {
    let open = pass::opening(observed).len();
    let passed = if n < open + 2 {
        0
    } else {
        (n - open - 2) / pass_laws::layer_steps(observed) + 1
    };
    if passed < layers {
        passed
    } else {
        layers
    }
}

/// A layer's operator stands where it is looked for.
pub(crate) proof fn lemma_operator_at(layers: Seq<Layer>, observed: bool, steered: Set<usize>, i: int)
    requires
        0 <= i < layers.len(),
    ensures
        operator_step(observed, i) < pass::spec_program(layers, observed, steered).len(),
        pass::spec_program(layers, observed, steered)[operator_step(observed, i)] == pass::operator_action(layers[i], i),
{
    let n = layers.len();
    let w = pass_laws::layer_steps(observed);
    let o = pass::opening(observed).len();
    let body = pass::layers_program(layers, observed, steered, n);
    let p = pass::spec_program(layers, observed, steered);
    let j = w * i + 1;
    pass_laws::lemma_layers_len(layers, observed, steered, n);
    assert(j < w * n && j / w == i && j % w == 1) by {
        if observed {
            assert((7 * i + 1) / 7 == i && (7 * i + 1) % 7 == 1);
        } else {
            assert((6 * i + 1) / 6 == i && (6 * i + 1) % 6 == 1);
        }
    }
    pass_laws::lemma_layer_step(layers, observed, steered, n, j);
    assert(p[o + j] == body[j]);
}

/// Every attention and convolution step is the operator of its layer.
proof fn lemma_operator_is(layers: Seq<Layer>, observed: bool, steered: Set<usize>, j: int) -> (i: int)
    requires
        layers.len() <= usize::MAX,
        0 <= j < pass::spec_program(layers, observed, steered).len(),
        ({
            let a = pass::spec_program(layers, observed, steered)[j];
            a is Attend || a is Convolve
        }),
    ensures
        0 <= i < layers.len(),
        j == operator_step(observed, i),
        pass::spec_program(layers, observed, steered)[j] == pass::operator_action(layers[i], i),
{
    let n = layers.len();
    let w = pass_laws::layer_steps(observed);
    let o = pass::opening(observed).len();
    let body = pass::layers_program(layers, observed, steered, n);
    let p = pass::spec_program(layers, observed, steered);
    if o <= j < o + body.len() {
        pass_laws::lemma_layer_step(layers, observed, steered, n, j - o);
        assert(p[j] == body[j - o]);
        let q = (j - o) / w;
        assert((j - o) % w == 1);
        assert(j - o == w * q + 1) by {
            if observed {
                assert(j - o == 7 * ((j - o) / 7) + (j - o) % 7);
            } else {
                assert(j - o == 6 * ((j - o) / 6) + (j - o) % 6);
            }
        }
        q
    } else {
        if j < o {
            assert(p[j] == pass::opening(observed)[j]);
        } else {
            assert(p[j] == pass::closing()[j - o - body.len()]);
        }
        0
    }
}

proof fn lemma_passed(observed: bool, layers: int, n: int)
    requires
        layers >= 0,
        n >= 0,
    ensures
        0 <= layers_passed(observed, layers, n) <= layers_passed(observed, layers, n + 1) <= layers,
        layers_passed(observed, layers, 0) == 0,
        forall|i: int|
            0 <= i < layers && #[trigger] operator_step(observed, i) == n ==> layers_passed(observed, layers, n + 1)
                == layers_passed(observed, layers, n) + 1,
{
    let o = pass::opening(observed).len();
    if observed {
        assert(o == 2);
    } else {
        assert(o == 1);
    }
}

/// At the start the run has reached nothing.
proof fn lemma_reached_start<T, C>(run: Run<T, C>)
    requires
        run.ready(),
    ensures
        run.reached(run.opened(), 0),
{
    let w = run.opened();
    lemma_passed(run.observed, run.model.layers.len() as int, 0);
    assert(w.pass =~= (PassView { at: 0, rows: w.pass.rows, ..run.opened().pass }));
    assert forall|r: int| 0 <= r < run.states.len() implies {
        &&& (#[trigger] w.pass.rows[r]).owner == run.states[r].owner
        &&& w.pass.rows[r].len == run.states[r].len
        &&& w.pass.rows[r].kv.len() == run.model.layers.len()
        &&& w.pass.rows[r].conv.len() == run.model.layers.len()
    } by {
        assert(run.row_ready(r));
    }
    assert(pass_laws::keeps_views(run.blocks, w.blocks)) by {
        assert forall|c: KvCache| kv_cache::holds(run.blocks, c) implies #[trigger] kv_cache::shows_same(
            run.blocks,
            w.blocks,
            c,
        ) by {}
    }
    assert forall|r: int, i: int|
        0 <= r < run.states.len() && 0 <= i < run.model.layers.len() implies #[trigger] run.slot_after(w, 0, r, i) by {
        assert(pass_laws::layer_steps(run.observed) * i >= 0) by (nonlinear_arith)
            requires
                i >= 0,
                pass_laws::layer_steps(run.observed) >= 0,
        ;
        assert(!run.done(i, 0));
    }
}

/// A slot whose operator the next step is not holds what it held.
proof fn lemma_slot_stays<T, C>(run: Run<T, C>, w: World<T, C>, next: World<T, C>, n: int, r: int, i: int)
    requires
        run.ready(),
        run.reached(w, n),
        0 <= r < run.states.len(),
        0 <= i < run.model.layers.len(),
        operator_step(run.observed, i) != n,
        next.pass.rows[r].kv[i] == w.pass.rows[r].kv[i],
        next.pass.rows[r].conv[i] == w.pass.rows[r].conv[i],
        pass_laws::keeps_views(w.blocks, next.blocks),
        forall|j: int| 0 <= j < w.blocks.len() ==> (#[trigger] next.blocks[j]).format == w.blocks[j].format,
        w.tensors.len() <= next.tensors.len(),
        forall|j: int| 0 <= j < w.tensors.len() ==> #[trigger] next.tensors[j] == w.tensors[j],
    ensures
        run.slot_after(next, n + 1, r, i),
{
    assert(run.slot_after(w, n, r, i));
    assert(run.done(i, n + 1) == run.done(i, n));
    if run.done(i, n) {
        match run.model.layers[i].operator {
            Operator::Attention(_) => {
                let c = w.pass.rows[r].kv[i]->0;
                assert(kv_cache::shows_same(w.blocks, next.blocks, c));
                assert(next.blocks[c.storage as int].format == w.blocks[c.storage as int].format);
            },
            Operator::Conv { .. } => {
                let c = w.pass.rows[r].conv[i]->0;
                assert(next.tensors[c.tensor as int] == w.tensors[c.tensor as int]);
            },
        }
    }
}

/// A step that appends nothing.
proof fn lemma_reached_plain<T, C>(run: Run<T, C>, w: World<T, C>, n: int)
    requires
        run.ready(),
        run.reached(w, n),
        0 <= n < run.program().len(),
        !(run.program()[n] is Attend),
        !(run.program()[n] is Convolve),
    ensures
        run.reached(next_world(w, run.feed, run.zero, run.blank), n + 1),
{
    let next = next_world(w, run.feed, run.zero, run.blank);
    let layers = run.model.layers.len();
    assert(next.pass =~= w.pass.stepped());
    lemma_passed(run.observed, layers as int, n);
    let (a, b) = (layers_passed(run.observed, layers as int, n), layers_passed(run.observed, layers as int, n + 1));
    assert(run.states.len() * a <= run.states.len() * b) by (nonlinear_arith)
        requires
            a <= b,
            run.states.len() >= 0,
    ;
    assert(pass_laws::keeps_views(w.blocks, next.blocks)) by {
        assert forall|c: KvCache| kv_cache::holds(w.blocks, c) implies #[trigger] kv_cache::shows_same(
            w.blocks,
            next.blocks,
            c,
        ) by {}
    }
    assert forall|r: int, i: int|
        0 <= r < run.states.len() && 0 <= i < layers implies #[trigger] run.slot_after(next, n + 1, r, i) by {
        if operator_step(run.observed, i) == n {
            lemma_operator_at(run.model.layers, run.observed, run.steered, i);
        }
        lemma_slot_stays(run, w, next, n, r, i);
    }
}

/// What was held at the start still is, and shows the same.
proof fn lemma_still_held<T, C>(run: Run<T, C>, w: World<T, C>, n: int, previous: Option<KvCache>)
    requires
        run.reached(w, n),
        kv_cache::holds_previous(run.blocks, previous),
    ensures
        kv_cache::holds_previous(w.blocks, previous),
        kv_cache::previous_keys(w.blocks, previous) == kv_cache::previous_keys(run.blocks, previous),
        kv_cache::previous_values(w.blocks, previous) == kv_cache::previous_values(run.blocks, previous),
        previous is Some ==> w.blocks[previous->0.storage as int].format == run.blocks[previous->0.storage as int].format,
{
    if previous is Some {
        assert(kv_cache::shows_same(run.blocks, w.blocks, previous->0));
    }
}

/// When an attention step is due, every row can append what it is fed.
proof fn lemma_due_attention<T, C>(run: Run<T, C>, w: World<T, C>, n: int, layer: int)
    requires
        run.ready(),
        run.reached(w, n),
        0 <= n < run.program().len(),
        0 <= layer < run.model.layers.len(),
        run.model.layers[layer].operator is Attention,
        operator_step(run.observed, layer) == n,
    ensures
        forall|q: int|
            0 <= q < run.states.len() ==> #[trigger] pass_laws::can_append(
                w.blocks,
                w.pass.kv_of(layer),
                run.feed.keys[layer],
                run.feed.values[layer],
                run.model.config.context,
                q,
            ),
        forall|q: int| 0 <= q < run.states.len() ==> #[trigger] w.pass.kv_of(layer)[q] == run.states[q].kv[layer],
        pass::attend_error(
            w.blocks,
            w.pass,
            layer,
            run.feed.keys[layer],
            run.feed.values[layer],
            run.states.len(),
        ) is None,
{
    let previous = w.pass.kv_of(layer);
    assert forall|q: int| 0 <= q < run.states.len() implies #[trigger] previous[q] == run.states[q].kv[layer] by {
        assert(run.slot_after(w, n, q, layer));
        assert(!run.done(layer, n));
    }
    assert forall|q: int| 0 <= q < run.states.len() implies #[trigger] pass_laws::can_append(
        w.blocks,
        previous,
        run.feed.keys[layer],
        run.feed.values[layer],
        run.model.config.context,
        q,
    ) by {
        assert(previous[q] == run.states[q].kv[layer]);
        assert(run.row_ready(q));
        assert(run.slot_fed(q, layer));
        assert(kv_cache::holds_previous(run.blocks, run.states[q].kv[layer]));
        lemma_still_held(run, w, n, previous[q]);
    }
    lemma_rows_append(run, w, n, layer, run.states.len());
}

proof fn lemma_rows_append<T, C>(run: Run<T, C>, w: World<T, C>, n: int, layer: int, m: nat)
    requires
        run.ready(),
        run.reached(w, n),
        0 <= layer < run.model.layers.len(),
        run.model.layers[layer].operator is Attention,
        m <= run.states.len(),
        forall|q: int|
            0 <= q < run.states.len() ==> #[trigger] pass_laws::can_append(
                w.blocks,
                w.pass.kv_of(layer),
                run.feed.keys[layer],
                run.feed.values[layer],
                run.model.config.context,
                q,
            ),
        forall|q: int| 0 <= q < run.states.len() ==> #[trigger] w.pass.kv_of(layer)[q] == run.states[q].kv[layer],
    ensures
        pass::attend_error(w.blocks, w.pass, layer, run.feed.keys[layer], run.feed.values[layer], m) is None,
    decreases m,
{
    if m > 0 {
        lemma_rows_append(run, w, n, layer, (m - 1) as nat);
        let q = m - 1;
        assert(run.row_ready(q));
        assert(pass_laws::settled(run.model, run.states[q]));
        assert(w.pass.kv_of(layer)[q] == run.states[q].kv[layer]);
        assert(w.pass.pos[q] == run.states[q].len);
        assert(pass_laws::can_append(
            w.blocks,
            w.pass.kv_of(layer),
            run.feed.keys[layer],
            run.feed.values[layer],
            run.model.config.context,
            q,
        ));
    }
}

/// An attention step.
proof fn lemma_reached_attention<T, C>(run: Run<T, C>, w: World<T, C>, n: int, layer: int)
    requires
        run.ready(),
        run.reached(w, n),
        0 <= n < run.program().len(),
        0 <= layer < run.model.layers.len(),
        run.model.layers[layer].operator is Attention,
        operator_step(run.observed, layer) == n,
        run.program()[n] == pass::operator_action(run.model.layers[layer], layer),
    ensures
        run.reached(next_world(w, run.feed, run.zero, run.blank), n + 1),
{
    let next = next_world(w, run.feed, run.zero, run.blank);
    let layers = run.model.layers.len();
    let rows = run.states.len();
    let limit = run.model.config.context;
    let previous = w.pass.kv_of(layer);
    let (k, v) = (run.feed.keys[layer], run.feed.values[layer]);
    assert(next == after_attention(w, run.feed, run.zero, layer));
    lemma_due_attention(run, w, n, layer);
    lemma_passed(run.observed, layers as int, n);
    let a = layers_passed(run.observed, layers as int, n);
    assert(operator_step(run.observed, layer) == n);
    assert(layers_passed(run.observed, layers as int, n + 1) == a + 1);
    assert(rows * (a + 1) == rows * a + rows) by (nonlinear_arith);
    assert(rows * (a + 1) <= rows * layers) by (nonlinear_arith)
        requires
            a + 1 <= layers,
            rows >= 0,
    ;
    pass_laws::lemma_attended(w.blocks, previous, k, v, limit, run.zero, rows);
    assert(next.pass =~= (PassView { at: (n + 1) as nat, rows: next.pass.rows, ..run.opened().pass }));
    assert(pass_laws::keeps_views(run.blocks, next.blocks)) by {
        assert forall|c: KvCache| kv_cache::holds(run.blocks, c) implies #[trigger] kv_cache::shows_same(
            run.blocks,
            next.blocks,
            c,
        ) by {
            assert(kv_cache::shows_same(run.blocks, w.blocks, c));
            assert(kv_cache::shows_same(w.blocks, next.blocks, c));
        }
    }
    assert forall|i: int| 0 <= i < run.blocks.len() implies (#[trigger] next.blocks[i]).format == run.blocks[i].format by {
        assert(w.blocks[i].format == run.blocks[i].format);
    }
    assert forall|r: int| 0 <= r < rows implies {
        &&& (#[trigger] next.pass.rows[r]).owner == run.states[r].owner
        &&& next.pass.rows[r].len == run.states[r].len
        &&& next.pass.rows[r].kv.len() == layers
        &&& next.pass.rows[r].conv.len() == layers
    } by {
        assert(w.pass.rows[r].len == run.states[r].len);
    }
    assert forall|r: int, i: int| 0 <= r < rows && 0 <= i < layers implies #[trigger] run.slot_after(next, n + 1, r, i) by {
        assert(w.pass.rows[r].kv.len() == layers);
        if i == layer {
            let c = pass::attended_cache(w.blocks, previous, k, v, limit as nat, run.zero, r);
            assert(next.pass.rows[r].kv[i] == Some(c));
            assert(pass_laws::row_appended(w.blocks, previous, k, v, limit as nat, run.zero, rows, r));
            assert(run.slot_after(w, n, r, i));
            assert(run.row_ready(r));
            assert(run.slot_fed(r, i));
            assert(previous[r] == run.states[r].kv[i]);
            lemma_still_held(run, w, n, previous[r]);
            assert(kv_cache::previous_len(previous[r]) == run.states[r].len);
        } else {
            lemma_steps_apart(run.observed, i, layer);
            lemma_slot_stays(run, w, next, n, r, i);
        }
    }
}

proof fn lemma_steps_apart(observed: bool, i: int, j: int)
    requires
        i != j,
    ensures
        operator_step(observed, i) != operator_step(observed, j),
{
}

/// A convolution step.
proof fn lemma_reached_convolution<T, C>(run: Run<T, C>, w: World<T, C>, n: int, layer: int)
    requires
        run.ready(),
        run.reached(w, n),
        0 <= n < run.program().len(),
        0 <= layer < run.model.layers.len(),
        run.model.layers[layer].operator is Conv,
        operator_step(run.observed, layer) == n,
        run.program()[n] == pass::operator_action(run.model.layers[layer], layer),
    ensures
        run.reached(next_world(w, run.feed, run.zero, run.blank), n + 1),
{
    let next = next_world(w, run.feed, run.zero, run.blank);
    let layers = run.model.layers.len();
    let rows = run.states.len();
    let kernel = run.model.config.kernel as nat;
    assert(next == after_convolution(w, run.feed, run.blank, layer));
    lemma_passed(run.observed, layers as int, n);
    let a = layers_passed(run.observed, layers as int, n);
    assert(operator_step(run.observed, layer) == n);
    assert(layers_passed(run.observed, layers as int, n + 1) == a + 1);
    assert(rows * (a + 1) == rows * a + rows) by (nonlinear_arith);
    assert(next.pass =~= (PassView { at: (n + 1) as nat, rows: next.pass.rows, ..run.opened().pass }));
    assert(pass_laws::keeps_views(w.blocks, next.blocks)) by {
        assert forall|c: KvCache| kv_cache::holds(w.blocks, c) implies #[trigger] kv_cache::shows_same(
            w.blocks,
            next.blocks,
            c,
        ) by {}
    }
    assert forall|r: int| 0 <= r < rows implies {
        &&& (#[trigger] next.pass.rows[r]).owner == run.states[r].owner
        &&& next.pass.rows[r].len == run.states[r].len
        &&& next.pass.rows[r].kv.len() == layers
        &&& next.pass.rows[r].conv.len() == layers
    } by {
        assert(w.pass.rows[r].len == run.states[r].len);
    }
    assert forall|r: int, i: int| 0 <= r < rows && 0 <= i < layers implies #[trigger] run.slot_after(next, n + 1, r, i) by {
        assert(w.pass.rows[r].conv.len() == layers);
        if i == layer {
            assert(run.slot_after(w, n, r, i));
            assert(run.row_ready(r));
            let was = run.states[r].conv[i];
            assert(w.pass.conv_of(layer)[r] == was);
            if was is Some {
                assert(conv::conv_holds(run.tensors, was->0, kernel));
                assert(w.tensors[was->0.tensor as int] == run.tensors[was->0.tensor as int]);
            }
            let h = conv::history(run.tensors, was, run.blank, kernel);
            assert(conv::history(w.tensors, was, run.blank, kernel) == h);
            let now = next.pass.rows[r].conv[i];
            assert(now == Some(ConvState { tensor: w.tensors.len() as usize, row: r as usize }));
            assert(next.tensors[w.tensors.len() as int][r] == conv::next_history(h, run.feed.gated[i][r]));
            assert(conv::next_history(h, run.feed.gated[i][r]).len() == kernel);
        } else {
            lemma_steps_apart(run.observed, i, layer);
            lemma_slot_stays(run, w, next, n, r, i);
        }
    }
}

/// After `n` steps the run is where it should be.
pub(crate) proof fn lemma_reached<T, C>(run: Run<T, C>, n: nat)
    requires
        run.ready(),
        n <= run.program().len(),
    ensures
        run.reached(run.after(n), n as int),
    decreases n,
{
    if n == 0 {
        lemma_reached_start(run);
    } else {
        let m = (n - 1) as nat;
        lemma_reached(run, m);
        let w = run.after(m);
        let due = run.program()[m as int];
        if due is Attend || due is Convolve {
            let layer = lemma_operator_is(run.model.layers, run.observed, run.steered, m as int);
            if due is Attend {
                lemma_reached_attention(run, w, m as int, layer);
            } else {
                lemma_reached_convolution(run, w, m as int, layer);
            }
        } else {
            lemma_reached_plain(run, w, m as int);
        }
    }
}

/// The states `a` and `b` stand for one sequence: they have one length, and
/// show the same keys, values and history in every layer.
pub open spec fn alike<T, C>(model: ModelView, blank: C, a: StateView, x: World<T, C>, b: StateView, y: World<T, C>) -> bool {
    &&& a.owner == b.owner
    &&& a.len == b.len
    &&& forall|i: int| 0 <= i < model.layers.len() ==> #[trigger] layer_alike(model, blank, a, x, b, y, i)
}

/// What [`alike`] says of one layer.
pub open spec fn layer_alike<T, C>(
    model: ModelView,
    blank: C,
    a: StateView,
    x: World<T, C>,
    b: StateView,
    y: World<T, C>,
    i: int,
) -> bool {
    let k = model.config.kernel as nat;
    match model.layers[i].operator {
        Operator::Attention(_) => {
            &&& kv_cache::previous_len(a.kv[i]) == kv_cache::previous_len(b.kv[i])
            &&& kv_cache::previous_keys(x.blocks, a.kv[i]) == kv_cache::previous_keys(y.blocks, b.kv[i])
            &&& kv_cache::previous_values(x.blocks, a.kv[i]) == kv_cache::previous_values(y.blocks, b.kv[i])
        },
        Operator::Conv { .. } => conv::history(x.tensors, a.conv[i], blank, k) == conv::history(
            y.tensors,
            b.conv[i],
            blank,
            k,
        ),
    }
}

/// What layer `i` of a state holds after a pass: what it held before, and then
/// what the pass fed it.
pub open spec fn layer_extended<T, C>(run: Run<T, C>, r: int, i: int) -> bool {
    let was = run.states[r];
    let now = run.end_state(r);
    let w = run.ended();
    let k = run.model.config.kernel as nat;
    match run.model.layers[i].operator {
        Operator::Attention(_) => {
            &&& kv_cache::previous_len(now.kv[i]) == now.len
            &&& kv_cache::previous_keys(w.blocks, now.kv[i]) == kv_cache::previous_keys(run.blocks, was.kv[i])
                + run.feed.keys[i][r].rows@
            &&& kv_cache::previous_values(w.blocks, now.kv[i]) == kv_cache::previous_values(run.blocks, was.kv[i])
                + run.feed.values[i][r].rows@
        },
        Operator::Conv { .. } => conv::history(w.tensors, now.conv[i], run.blank, k) == conv::next_history(
            conv::history(run.tensors, was.conv[i], run.blank, k),
            run.feed.gated[i][r],
        ),
    }
}

/// Law: a run takes the steps that the operations of a pass take. Where an
/// attention step is due and refuses no row, the run goes on with the views and
/// blocks that it leaves; where a convolution step is due, with the histories
/// and the tensor that it leaves; and else with the pass one step further.
pub proof fn law_runs_follow_the_operations<T, C>(run: Run<T, C>, n: nat, caches: Seq<KvCache>)
    requires
        caches.len() == run.after(n).pass.rows.len(),
        forall|r: int, layer: usize|
            0 <= r < caches.len() && run.after(n).pass.action() == Some(Action::Attend { layer }) ==> #[trigger] caches[r]
                == #[trigger] pass::attended_cache(
                run.after(n).blocks,
                run.after(n).pass.kv_of(layer as int),
                run.feed.keys[layer as int],
                run.feed.values[layer as int],
                run.after(n).pass.limit as nat,
                run.zero,
                r,
            ),
    ensures
        ({
            let w = run.after(n);
            let next = run.after(n + 1);
            match w.pass.action() {
                Some(Action::Attend { layer }) => {
                    &&& next.pass == pass::attended_pass(w.pass, layer as int, caches)
                    &&& next.blocks == pass::attended(
                        w.blocks,
                        w.pass.kv_of(layer as int),
                        run.feed.keys[layer as int],
                        run.feed.values[layer as int],
                        w.pass.limit as nat,
                        run.zero,
                        w.pass.rows.len(),
                    )
                    &&& next.tensors == w.tensors
                },
                Some(Action::Convolve { layer }) => {
                    let rows = conv::gathered(
                        w.tensors,
                        w.pass.conv_of(layer as int),
                        run.blank,
                        w.pass.kernel as nat,
                    );
                    &&& next.pass == pass::convolved_pass(w.pass, layer as int, convolved_states(w))
                    &&& next.tensors == w.tensors.push(conv::advanced_rows(rows, run.feed.gated[layer as int]))
                    &&& next.blocks == w.blocks
                },
                Some(_) => next.pass == w.pass.stepped() && next.blocks == w.blocks && next.tensors == w.tensors,
                None => next == w,
            }
        }),
{
    let w = run.after(n);
    if let Some(Action::Attend { layer }) = w.pass.action() {
        let views = attended_caches(w, run.feed, run.zero, layer as int);
        assert forall|r: int| 0 <= r < caches.len() implies #[trigger] caches[r] == views[r] by {
            assert(caches[r] == pass::attended_cache(
                w.blocks,
                w.pass.kv_of(layer as int),
                run.feed.keys[layer as int],
                run.feed.values[layer as int],
                w.pass.limit as nat,
                run.zero,
                r,
            ));
        }
        assert(caches =~= views);
    }
}

/// Law: in a pass over settled states that fitting keys and values are fed to,
/// no step is refused, and whenever a step appends, the stores hold what it
/// reads.
pub proof fn law_no_step_of_a_ready_pass_is_refused<T, C>(run: Run<T, C>, n: nat)
    requires
        run.ready(),
        n < run.program().len(),
    ensures
        ({
            let w = run.after(n);
            &&& w.pass.action() == Some(run.program()[n as int])
            &&& kv_cache::blocks_wf(w.blocks)
            &&& w.pass.kv_held(w.blocks)
            &&& w.pass.conv_held(w.tensors)
            &&& run.program()[n as int] matches Action::Attend { layer } ==> pass::attend_error(
                w.blocks,
                w.pass,
                layer as int,
                run.feed.keys[layer as int],
                run.feed.values[layer as int],
                w.pass.rows.len(),
            ) is None
        }),
{
    let w = run.after(n);
    lemma_reached(run, n);
    assert forall|r: int| 0 <= r < w.pass.rows.len() implies pass::state_kv_held(#[trigger] w.pass.rows[r], w.blocks)
        && pass::state_conv_held(w.pass.rows[r], w.tensors, w.pass.kernel as nat) by {
        lemma_row_held(run, n, r);
    }
    if run.program()[n as int] is Attend {
        let layer = lemma_operator_is(run.model.layers, run.observed, run.steered, n as int);
        lemma_due_attention(run, w, n as int, layer);
    }
}

/// The stores hold everything that a row shows.
proof fn lemma_row_held<T, C>(run: Run<T, C>, n: nat, r: int)
    requires
        run.ready(),
        n <= run.program().len(),
        0 <= r < run.states.len(),
    ensures
        pass::state_kv_held(run.after(n).pass.rows[r], run.after(n).blocks),
        pass::state_conv_held(run.after(n).pass.rows[r], run.after(n).tensors, run.model.config.kernel as nat),
{
    let w = run.after(n);
    let k = run.model.config.kernel as nat;
    lemma_reached(run, n);
    assert(run.row_ready(r));
    let (was, now) = (run.states[r], w.pass.rows[r]);
    assert forall|i: int| 0 <= i < now.kv.len() implies kv_cache::holds_previous(w.blocks, #[trigger] now.kv[i]) by {
        assert(run.slot_after(w, n as int, r, i));
        assert(kv_cache::holds_previous(run.blocks, was.kv[i]));
        lemma_still_held(run, w, n as int, was.kv[i]);
    }
    assert forall|i: int| 0 <= i < now.conv.len() && #[trigger] now.conv[i] is Some implies conv::conv_holds(
        w.tensors,
        now.conv[i]->0,
        k,
    ) by {
        assert(run.slot_after(w, n as int, r, i));
        if was.conv[i] is Some {
            assert(conv::conv_holds(run.tensors, was.conv[i]->0, k));
            assert(w.tensors[was.conv[i]->0.tensor as int] == run.tensors[was.conv[i]->0.tensor as int]);
        }
    }
}

/// Law: a whole pass leaves in every layer of every row exactly what was there
/// and then what it was fed, at a position that is further by as many; and
/// everything that any state showed before still shows.
pub proof fn law_pass_extends_every_layer<T, C>(run: Run<T, C>, r: int)
    requires
        run.ready(),
        0 <= r < run.states.len(),
    ensures
        run.ended().pass.finished(),
        run.end_state(r).owner == run.states[r].owner,
        run.end_state(r).len == run.states[r].len + run.seq,
        pass_laws::settled(run.model, run.end_state(r)),
        forall|i: int| 0 <= i < run.model.layers.len() ==> #[trigger] layer_extended(run, r, i),
        pass_laws::keeps_views(run.blocks, run.ended().blocks),
        run.tensors.is_prefix_of(run.ended().tensors),
{
    let n = run.program().len();
    let w = run.ended();
    lemma_reached(run, n);
    assert(run.row_ready(r));
    assert(w.pass.rows[r].len == run.states[r].len);
    assert forall|i: int| 0 <= i < run.model.layers.len() implies #[trigger] layer_extended(run, r, i) by {
        lemma_operator_at(run.model.layers, run.observed, run.steered, i);
        assert(run.slot_after(w, n as int, r, i));
    }
    assert forall|i: int|
        0 <= i < run.model.layers.len() && (
        #[trigger] run.model.layers[i]).operator is Attention implies kv_cache::previous_len(run.end_state(r).kv[i])
        == run.end_state(r).len by {
        assert(layer_extended(run, r, i));
    }
    assert(run.tensors =~= w.tensors.take(run.tensors.len() as int));
}

/// Law: a new sequence can be fed any positions that the context has room for.
pub proof fn law_new_sequences_can_begin<T, C>(run: Run<T, C>, r: int)
    requires
        0 <= r < run.states.len(),
        run.states[r] == model::empty_state(run.model),
        run.seq <= run.model.config.context,
    ensures
        run.row_ready(r),
{
}

/// Law: a sequence can go on from what a pass has committed, beside whatever
/// other sequences, as far as the context has room.
pub proof fn law_committed_sequences_can_go_on<T, C>(run: Run<T, C>, r: int, next: Run<T, C>, q: int)
    requires
        run.ready(),
        0 <= r < run.states.len(),
        next.model == run.model,
        next.blocks == run.ended().blocks,
        next.tensors == run.ended().tensors,
        0 <= q < next.states.len(),
        next.states[q] == run.end_state(r),
        run.states[r].len + run.seq + next.seq <= run.model.config.context,
    ensures
        next.row_ready(q),
{
    law_pass_extends_every_layer(run, r);
    lemma_row_held(run, run.program().len(), r);
}

/// What layer `i` of `a`'s row `r` and of `b`'s row `q` is fed is the same.
pub open spec fn fed_alike<T, C>(a: Run<T, C>, r: int, b: Run<T, C>, q: int, i: int) -> bool {
    match a.model.layers[i].operator {
        Operator::Attention(_) => {
            &&& a.feed.keys[i][r].rows@ == b.feed.keys[i][q].rows@
            &&& a.feed.values[i][r].rows@ == b.feed.values[i][q].rows@
        },
        Operator::Conv { .. } => a.feed.gated[i][r] == b.feed.gated[i][q],
    }
}

/// Law: a pass reads of a state only what it shows. Rows of two passes that
/// start alike and are fed alike end alike, whatever other rows the passes
/// have, whether they are observed or steered, and wherever the rows' blocks
/// and tensors lie.
pub proof fn law_alike_rows_end_alike<T, C>(a: Run<T, C>, r: int, b: Run<T, C>, q: int)
    requires
        a.ready(),
        b.ready(),
        a.model == b.model,
        a.blank == b.blank,
        a.seq == b.seq,
        0 <= r < a.states.len(),
        0 <= q < b.states.len(),
        alike(a.model, a.blank, a.states[r], a.opened(), b.states[q], b.opened()),
        forall|i: int| 0 <= i < a.model.layers.len() ==> #[trigger] fed_alike(a, r, b, q, i),
    ensures
        alike(a.model, a.blank, a.end_state(r), a.ended(), b.end_state(q), b.ended()),
{
    law_pass_extends_every_layer(a, r);
    law_pass_extends_every_layer(b, q);
    assert forall|i: int| 0 <= i < a.model.layers.len() implies #[trigger] layer_alike(
        a.model,
        a.blank,
        a.end_state(r),
        a.ended(),
        b.end_state(q),
        b.ended(),
        i,
    ) by {
        assert(layer_extended(a, r, i));
        assert(layer_extended(b, q, i));
        assert(fed_alike(a, r, b, q, i));
        assert(layer_alike(a.model, a.blank, a.states[r], a.opened(), b.states[q], b.opened(), i));
    }
}

/// The pass that row `r` of a batch would run alone.
pub open spec fn alone<T, C>(run: Run<T, C>, r: int) -> Run<T, C> {
    Run {
        states: seq![run.states[r]],
        feed: Feed {
            keys: run.feed.keys.map_values(|rows: Seq<KvChunk<T>>| seq![rows[r]]),
            values: run.feed.values.map_values(|rows: Seq<KvChunk<T>>| seq![rows[r]]),
            gated: run.feed.gated.map_values(|rows: Seq<Seq<C>>| seq![rows[r]]),
        },
        ..run
    }
}

/// Law: a batch is as many single passes. After a batched pass every row's
/// state shows in every layer what the row's own pass would show, and no other
/// state shows anything else than before.
pub proof fn law_batch_ends_as_single_passes<T, C>(run: Run<T, C>, r: int)
    requires
        run.ready(),
        0 <= r < run.states.len(),
        run.feed.keys.len() == run.model.layers.len(),
        run.feed.values.len() == run.model.layers.len(),
        run.feed.gated.len() == run.model.layers.len(),
    ensures
        alone(run, r).ready(),
        alone(run, r).ended().pass.finished(),
        run.ended().pass.finished(),
        alike(run.model, run.blank, run.end_state(r), run.ended(), alone(run, r).end_state(0), alone(run, r).ended()),
        pass_laws::keeps_views(run.blocks, run.ended().blocks),
        run.tensors.is_prefix_of(run.ended().tensors),
{
    let one = alone(run, r);
    assert(one.states[0] == run.states[r]);
    assert(run.row_ready(r));
    assert forall|q: int| 0 <= q < one.states.len() implies #[trigger] one.row_ready(q) by {
        assert(q == 0);
    }
    assert forall|q: int, i: int|
        0 <= q < one.states.len() && 0 <= i < one.model.layers.len() implies #[trigger] one.slot_fed(q, i) by {
        assert(q == 0);
        assert(run.slot_fed(r, i));
        assert(one.feed.keys[i] == seq![run.feed.keys[i][r]]);
        assert(one.feed.values[i] == seq![run.feed.values[i][r]]);
        assert(one.feed.gated[i] == seq![run.feed.gated[i][r]]);
    }
    assert(1 * run.model.layers.len() <= run.states.len() * run.model.layers.len()) by (nonlinear_arith)
        requires
            run.states.len() >= 1,
    ;
    assert forall|i: int| 0 <= i < run.model.layers.len() implies #[trigger] fed_alike(run, r, one, 0, i) by {
        assert(one.feed.keys[i] == seq![run.feed.keys[i][r]]);
        assert(one.feed.values[i] == seq![run.feed.values[i][r]]);
        assert(one.feed.gated[i] == seq![run.feed.gated[i][r]]);
    }
    assert forall|i: int| 0 <= i < run.model.layers.len() implies #[trigger] layer_alike(
        run.model,
        run.blank,
        run.states[r],
        run.opened(),
        one.states[0],
        one.opened(),
        i,
    ) by {}
    law_alike_rows_end_alike(run, r, one, 0);
    law_pass_extends_every_layer(run, r);
    law_pass_extends_every_layer(one, 0);
}

/// What `whole` feeds layer `i` of row `r` is what `head` and then `tail` feed it.
pub open spec fn fed_in_two<T, C>(whole: Run<T, C>, head: Run<T, C>, tail: Run<T, C>, r: int, i: int) -> bool {
    match whole.model.layers[i].operator {
        Operator::Attention(_) => {
            &&& whole.feed.keys[i][r].rows@ == head.feed.keys[i][r].rows@ + tail.feed.keys[i][r].rows@
            &&& whole.feed.values[i][r].rows@ == head.feed.values[i][r].rows@ + tail.feed.values[i][r].rows@
            &&& whole.feed.keys[i][r].format == head.feed.keys[i][r].format
            &&& whole.feed.keys[i][r].format == tail.feed.keys[i][r].format
            &&& whole.feed.values[i][r].format == tail.feed.values[i][r].format
            &&& tail.feed.keys[i].len() == whole.states.len()
            &&& tail.feed.values[i].len() == whole.states.len()
        },
        Operator::Conv { .. } => {
            &&& whole.feed.gated[i][r] == head.feed.gated[i][r] + tail.feed.gated[i][r]
            &&& tail.feed.gated[i].len() == whole.states.len()
        },
    }
}

/// `head` starts where `whole` does, `tail` from what `head` commits, and the
/// two are fed what `whole` is fed.
pub open spec fn split_in_two<T, C>(whole: Run<T, C>, head: Run<T, C>, tail: Run<T, C>) -> bool {
    &&& head.model == whole.model
    &&& head.states == whole.states
    &&& head.blocks == whole.blocks
    &&& head.tensors == whole.tensors
    &&& head.zero == whole.zero
    &&& head.blank == whole.blank
    &&& tail.model == whole.model
    &&& tail.states == Seq::new(whole.states.len(), |r: int| head.end_state(r))
    &&& tail.blocks == head.ended().blocks
    &&& tail.tensors == head.ended().tensors
    &&& tail.zero == whole.zero
    &&& tail.blank == whole.blank
    &&& tail.seq > 0
    &&& head.seq + tail.seq == whole.seq
    &&& forall|r: int, i: int|
        0 <= r < whole.states.len() && 0 <= i < whole.model.layers.len() ==> #[trigger] fed_in_two(whole, head, tail, r, i)
}

/// From what a head commits, its tail can go on.
proof fn lemma_tail_is_ready<T, C>(whole: Run<T, C>, head: Run<T, C>, tail: Run<T, C>)
    requires
        whole.ready(),
        head.ready(),
        split_in_two(whole, head, tail),
        whole.blocks.len() + 2 * (whole.states.len() * whole.model.layers.len()) <= usize::MAX,
        whole.tensors.len() + 2 * whole.model.layers.len() <= usize::MAX,
    ensures
        tail.ready(),
{
    let n = head.program().len();
    let w = head.ended();
    let layers = whole.model.layers.len();
    let rows = whole.states.len();
    lemma_reached(head, n);
    lemma_passed(head.observed, layers as int, n as int);
    let passed = layers_passed(head.observed, layers as int, n as int);
    assert(rows * passed <= rows * layers) by (nonlinear_arith)
        requires
            passed <= layers,
            rows >= 0,
    ;
    assert forall|r: int| 0 <= r < tail.states.len() implies #[trigger] tail.row_ready(r) by {
        assert(whole.row_ready(r));
        assert(tail.states[r] == head.end_state(r));
        law_committed_sequences_can_go_on(head, r, tail, r);
    }
    assert forall|r: int, i: int| 0 <= r < tail.states.len() && 0 <= i < layers implies #[trigger] tail.slot_fed(r, i) by {
        assert(tail.states[r] == head.end_state(r));
        assert(whole.row_ready(r));
        assert(whole.slot_fed(r, i));
        assert(head.slot_fed(r, i));
        assert(fed_in_two(whole, head, tail, r, i));
        law_pass_extends_every_layer(head, r);
        lemma_operator_at(head.model.layers, head.observed, head.steered, i);
        assert(head.slot_after(w, n as int, r, i));
    }
}

/// Law: a prompt may be split anywhere. A pass over its head, committed, and
/// then one over its tail leave in every layer of every row the keys, the
/// values and the history that one pass over the whole leaves, at the same
/// position; and no state that existed before either way shows anything else.
pub proof fn law_chunks_end_as_the_whole<T, C>(whole: Run<T, C>, head: Run<T, C>, tail: Run<T, C>, r: int)
    requires
        whole.ready(),
        head.ready(),
        split_in_two(whole, head, tail),
        whole.blocks.len() + 2 * (whole.states.len() * whole.model.layers.len()) <= usize::MAX,
        whole.tensors.len() + 2 * whole.model.layers.len() <= usize::MAX,
        0 <= r < whole.states.len(),
    ensures
        tail.ready(),
        whole.ended().pass.finished(),
        head.ended().pass.finished(),
        tail.ended().pass.finished(),
        alike(whole.model, whole.blank, whole.end_state(r), whole.ended(), tail.end_state(r), tail.ended()),
        pass_laws::keeps_views(whole.blocks, whole.ended().blocks),
        pass_laws::keeps_views(whole.blocks, tail.ended().blocks),
        whole.tensors.is_prefix_of(whole.ended().tensors),
        whole.tensors.is_prefix_of(tail.ended().tensors),
{
    lemma_tail_is_ready(whole, head, tail);
    law_pass_extends_every_layer(whole, r);
    law_pass_extends_every_layer(head, r);
    law_pass_extends_every_layer(tail, r);
    assert(tail.states[r] == head.end_state(r));
    assert forall|i: int| 0 <= i < whole.model.layers.len() implies #[trigger] layer_alike(
        whole.model,
        whole.blank,
        whole.end_state(r),
        whole.ended(),
        tail.end_state(r),
        tail.ended(),
        i,
    ) by {
        let k = whole.model.config.kernel as nat;
        assert(layer_extended(whole, r, i));
        assert(layer_extended(head, r, i));
        assert(layer_extended(tail, r, i));
        assert(fed_in_two(whole, head, tail, r, i));
        match whole.model.layers[i].operator {
            Operator::Attention(_) => {
                let old_keys = kv_cache::previous_keys(whole.blocks, whole.states[r].kv[i]);
                let old_values = kv_cache::previous_values(whole.blocks, whole.states[r].kv[i]);
                let (hk, tk) = (head.feed.keys[i][r].rows@, tail.feed.keys[i][r].rows@);
                let (hv, tv) = (head.feed.values[i][r].rows@, tail.feed.values[i][r].rows@);
                assert(old_keys + (hk + tk) =~= (old_keys + hk) + tk);
                assert(old_values + (hv + tv) =~= (old_values + hv) + tv);
            },
            Operator::Conv { .. } => {
                conv::law_chunks_preserve_history(
                    conv::history(whole.tensors, whole.states[r].conv[i], whole.blank, k),
                    head.feed.gated[i][r],
                    tail.feed.gated[i][r],
                );
            },
        }
    }
    assert(pass_laws::keeps_views(whole.blocks, tail.ended().blocks)) by {
        assert forall|c: KvCache| kv_cache::holds(whole.blocks, c) implies #[trigger] kv_cache::shows_same(
            whole.blocks,
            tail.ended().blocks,
            c,
        ) by {
            assert(kv_cache::shows_same(whole.blocks, head.ended().blocks, c));
            assert(kv_cache::shows_same(head.ended().blocks, tail.ended().blocks, c));
        }
    }
    assert(whole.tensors =~= tail.ended().tensors.take(whole.tensors.len() as int)) by {
        let (a, b, c) = (whole.tensors, head.ended().tensors, tail.ended().tensors);
        assert(a =~= b.take(a.len() as int));
        assert(b =~= c.take(b.len() as int));
    }
}

} // verus!
