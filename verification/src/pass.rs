//! One forward pass as a transaction.
//!
//! Everything is validated before anything runs. A pass is then a program of
//! numeric steps with, between them, the appends to the sequences' keys,
//! values and convolution histories. It works on copies of the states it
//! started from: those are replaced, all together, by [`Pass::commit`] and by
//! nothing else, so a pass that fails or is dropped commits no state.

use vstd::prelude::*;
use crate::conv;
use crate::conv::{ConvState, ConvStore};
use crate::kv_cache;
use crate::kv_cache::{BlockView, KvCache, KvChunk, KvError, KvStore};
use crate::layers::{FeedForward, Layer, Operator};
use crate::model::{Model, ModelView, State, StateView};
use crate::steering;
use crate::steering::{Steering, SteeringError};

verus! {

/// A step of a pass.
#[derive(Clone, Copy, PartialEq, Eq, Structural, Debug)]
pub enum Action {
    /// Look the tokens up in the embedding table.
    Embed,
    /// Show the embeddings to the observer.
    TapEmbedding,
    Norm { layer: usize },
    /// Project, append keys and values, and attend.
    Attend { layer: usize },
    /// Project, advance the convolution histories, and convolve.
    Convolve { layer: usize },
    /// Add the operator's result to the residual stream.
    AddOperator { layer: usize },
    FfnNorm { layer: usize },
    Dense { layer: usize },
    /// Route and run the experts: with a replaced bias when `steered`, and
    /// shown to the observer when `tapped`.
    Experts { layer: usize, steered: bool, tapped: bool },
    /// Add the feed-forward's result to the residual stream.
    AddFeedForward { layer: usize },
    /// Show the residual stream leaving the layer to the observer.
    TapResidual { layer: usize },
    FinalNorm,
    /// Project the last position of each row onto the vocabulary.
    Output,
}

#[derive(Clone, Copy, PartialEq, Eq, Structural, Debug)]
pub enum RunError {
    /// The snapshot belongs to another model.
    Foreign,
    ContextOverflow,
    /// No tokens, or more than the context has room for.
    EmptyOrLimit,
    /// A token outside the vocabulary.
    Vocabulary,
    Steering(SteeringError),
    EmptyBatch,
    /// As many states as tokens are needed.
    BatchLength { tokens: usize, states: usize },
    RowForeign(usize),
    RowContextLimit(usize),
    RowVocabulary(usize),
    /// A sequence's keys do not end where its state does.
    KvPosition,
    Kv(KvError),
    /// A residual stream that is not `(1, seq, hidden)`.
    Residual,
}

/// A pass in progress over one or more sequences, each by `seq` positions.
#[derive(Debug)]
pub struct Pass {
    program: Vec<Action>,
    at: usize,
    rows: Vec<State>,
    pos: Vec<usize>,
    seq: usize,
    limit: usize,
    kernel: usize,
    failed: bool,
}

#[verifier::ext_equal]
pub struct PassView {
    pub program: Seq<Action>,
    /// Steps done.
    pub at: nat,
    /// The states as far as they have come.
    pub rows: Seq<StateView>,
    /// Where each sequence stood at the start.
    pub pos: Seq<usize>,
    pub seq: usize,
    pub limit: usize,
    pub kernel: usize,
    pub failed: bool,
}

pub open spec fn state_views(s: Seq<State>) -> Seq<StateView> {
    s.map_values(|x: State| x@)
}

impl View for Pass {
    type V = PassView;

    closed spec fn view(&self) -> PassView {
        PassView {
            program: self.program@,
            at: self.at as nat,
            rows: state_views(self.rows@),
            pos: self.pos@,
            seq: self.seq,
            limit: self.limit,
            kernel: self.kernel,
            failed: self.failed,
        }
    }
}

pub open spec fn operator_action(l: Layer, i: int) -> Action {
    match l.operator {
        Operator::Attention(_) => Action::Attend { layer: i as usize },
        Operator::Conv { .. } => Action::Convolve { layer: i as usize },
    }
}

pub open spec fn ffn_action(l: Layer, i: int, steered: bool, tapped: bool) -> Action {
    match l.ffn {
        FeedForward::Dense => Action::Dense { layer: i as usize },
        FeedForward::Moe(_) => Action::Experts { layer: i as usize, steered, tapped },
    }
}

/// The steps of layer `i`.
pub open spec fn layer_program(l: Layer, i: int, observed: bool, steered: bool) -> Seq<Action> {
    let steps = seq![
        Action::Norm { layer: i as usize },
        operator_action(l, i),
        Action::AddOperator { layer: i as usize },
        Action::FfnNorm { layer: i as usize },
        ffn_action(l, i, steered, observed),
        Action::AddFeedForward { layer: i as usize },
    ];
    if observed {
        steps.push(Action::TapResidual { layer: i as usize })
    } else {
        steps
    }
}

/// The steps of the first `n` layers; `steered` names those with a replaced bias.
pub open spec fn layers_program(layers: Seq<Layer>, observed: bool, steered: Set<usize>, n: nat) -> Seq<Action>
    decreases n,
{
    if n == 0 {
        Seq::empty()
    } else {
        layers_program(layers, observed, steered, (n - 1) as nat) + layer_program(
            layers[n - 1],
            n - 1,
            observed,
            steered.contains((n - 1) as usize),
        )
    }
}

pub open spec fn opening(observed: bool) -> Seq<Action> {
    if observed {
        seq![Action::Embed, Action::TapEmbedding]
    } else {
        seq![Action::Embed]
    }
}

/// The final norm and the output projection.
pub open spec fn closing() -> Seq<Action> {
    seq![Action::FinalNorm, Action::Output]
}

/// All steps of a pass.
pub open spec fn spec_program(layers: Seq<Layer>, observed: bool, steered: Set<usize>) -> Seq<Action> {
    opening(observed) + layers_program(layers, observed, steered, layers.len()) + closing()
}

/// Why a sequence cannot continue with `tokens`, if it cannot.
pub open spec fn run_error(model: ModelView, tokens: Seq<u32>, state: StateView) -> Option<RunError> {
    if !model.owns(state) {
        Some(RunError::Foreign)
    } else if state.len + tokens.len() > usize::MAX {
        Some(RunError::ContextOverflow)
    } else if tokens.len() == 0 || state.len + tokens.len() > model.config.context {
        Some(RunError::EmptyOrLimit)
    } else if exists|i: int| 0 <= i < tokens.len() && #[trigger] tokens[i] >= model.config.vocab {
        Some(RunError::Vocabulary)
    } else {
        None
    }
}

/// Why row `i` of a batch cannot continue with its token, if it cannot.
pub open spec fn row_error(model: ModelView, token: u32, state: StateView, i: int) -> Option<RunError> {
    if !model.owns(state) {
        Some(RunError::RowForeign(i as usize))
    } else if state.len >= model.config.context {
        Some(RunError::RowContextLimit(i as usize))
    } else if token >= model.config.vocab {
        Some(RunError::RowVocabulary(i as usize))
    } else {
        None
    }
}

/// What is wrong with the first bad row among the first `n`.
pub open spec fn rows_error(model: ModelView, tokens: Seq<u32>, states: Seq<StateView>, n: nat) -> Option<RunError>
    decreases n,
{
    if n == 0 {
        None
    } else if rows_error(model, tokens, states, (n - 1) as nat) is Some {
        rows_error(model, tokens, states, (n - 1) as nat)
    } else {
        row_error(model, tokens[n - 1], states[n - 1], n - 1)
    }
}

/// Why a batch is refused, if it is.
pub open spec fn batch_error(model: ModelView, tokens: Seq<u32>, states: Seq<StateView>) -> Option<RunError> {
    if tokens.len() == 0 {
        Some(RunError::EmptyBatch)
    } else if states.len() != tokens.len() {
        Some(RunError::BatchLength { tokens: tokens.len() as usize, states: states.len() as usize })
    } else {
        rows_error(model, tokens, states, tokens.len())
    }
}

/// A pass that has not run a step yet.
pub open spec fn started(
    model: ModelView,
    states: Seq<StateView>,
    seq: nat,
    observed: bool,
    steered: Set<usize>,
) -> PassView {
    PassView {
        program: spec_program(model.layers, observed, steered),
        at: 0,
        rows: states,
        pos: states.map_values(|s: StateView| s.len),
        seq: seq as usize,
        limit: model.config.context,
        kernel: model.config.kernel,
        failed: false,
    }
}

/// A state has one slot per layer.
pub open spec fn state_fits(model: ModelView, s: StateView) -> bool {
    s.kv.len() == model.layers.len() && s.conv.len() == model.layers.len()
}

/// The layer a step belongs to exists among `n`.
pub open spec fn action_in(a: Action, n: nat) -> bool {
    match a {
        Action::Attend { layer } => layer < n,
        Action::Convolve { layer } => layer < n,
        _ => true,
    }
}

impl PassView {
    pub open spec fn wf(self) -> bool {
        &&& self.at <= self.program.len()
        &&& self.rows.len() == self.pos.len()
        &&& self.rows.len() > 0
        &&& self.seq > 0
        &&& self.kernel > 0
        &&& forall|r: int|
            0 <= r < self.rows.len() ==> (#[trigger] self.rows[r]).len == self.pos[r] && self.pos[r] + self.seq
                <= self.limit
        &&& forall|r: int, i: int|
            0 <= r < self.rows.len() && 0 <= i < self.program.len() ==> action_in(
                #[trigger] self.program[i],
                (#[trigger] self.rows[r]).kv.len(),
            ) && action_in(self.program[i], self.rows[r].conv.len())
    }

    /// The step to do next.
    pub open spec fn action(self) -> Option<Action> {
        if self.failed || self.at >= self.program.len() {
            None
        } else {
            Some(self.program[self.at as int])
        }
    }

    pub open spec fn finished(self) -> bool {
        !self.failed && self.at == self.program.len()
    }

    /// The blocks serve every view of keys and values that the rows hold.
    pub open spec fn kv_held<T>(self, b: Seq<BlockView<T>>) -> bool {
        forall|r: int| 0 <= r < self.rows.len() ==> state_kv_held(#[trigger] self.rows[r], b)
    }

    /// The tensors have every convolution history that the rows hold.
    pub open spec fn conv_held<C>(self, t: Seq<Seq<Seq<C>>>) -> bool {
        forall|r: int| 0 <= r < self.rows.len() ==> state_conv_held(#[trigger] self.rows[r], t, self.kernel as nat)
    }

    pub open spec fn stepped(self) -> PassView {
        PassView { at: self.at + 1, ..self }
    }

    /// Each row's view of keys and values in `layer`.
    pub open spec fn kv_of(self, layer: int) -> Seq<Option<KvCache>> {
        self.rows.map_values(|s: StateView| s.kv[layer])
    }

    /// Each row's convolution history in `layer`.
    pub open spec fn conv_of(self, layer: int) -> Seq<Option<ConvState>> {
        self.rows.map_values(|s: StateView| s.conv[layer])
    }
}

pub open spec fn state_kv_held<T>(s: StateView, b: Seq<BlockView<T>>) -> bool {
    forall|i: int| 0 <= i < s.kv.len() ==> kv_cache::holds_previous(b, #[trigger] s.kv[i])
}

pub open spec fn state_conv_held<C>(s: StateView, t: Seq<Seq<Seq<C>>>, k: nat) -> bool {
    conv::conv_holds_all(t, s.conv, k)
}

proof fn lemma_layers_program_in(layers: Seq<Layer>, observed: bool, steered: Set<usize>, n: nat, i: int)
    requires
        n <= layers.len() <= usize::MAX,
        0 <= i < layers_program(layers, observed, steered, n).len(),
    ensures
        action_in(layers_program(layers, observed, steered, n)[i], layers.len()),
    decreases n,
{
    let before = layers_program(layers, observed, steered, (n - 1) as nat);
    if i < before.len() {
        lemma_layers_program_in(layers, observed, steered, (n - 1) as nat, i);
    }
}

/// A pass over fitting states is well formed, with every view it needs.
proof fn lemma_started_wf(model: ModelView, states: Seq<StateView>, seq: nat, observed: bool, steered: Set<usize>)
    requires
        model.wf(),
        model.layers.len() <= usize::MAX,
        states.len() > 0,
        0 < seq <= usize::MAX,
        forall|r: int|
            0 <= r < states.len() ==> state_fits(model, #[trigger] states[r]) && states[r].len + seq
                <= model.config.context,
    ensures
        started(model, states, seq, observed, steered).wf(),
{
    let p = started(model, states, seq, observed, steered);
    assert forall|r: int, i: int| 0 <= r < p.rows.len() && 0 <= i < p.program.len() implies action_in(
        #[trigger] p.program[i],
        (#[trigger] p.rows[r]).kv.len(),
    ) && action_in(p.program[i], p.rows[r].conv.len()) by {
        let body = layers_program(model.layers, observed, steered, model.layers.len());
        let o = opening(observed).len();
        if o <= i < o + body.len() {
            lemma_layers_program_in(model.layers, observed, steered, model.layers.len(), i - o);
            assert(p.program[i] == body[i - o]);
        } else if i >= o + body.len() {
            assert(p.program[i] == closing()[i - o - body.len()]);
        } else {
            assert(p.program[i] == opening(observed)[i]);
        }
        assert(state_fits(model, states[r]));
    }
}

fn push_layer(to: &mut Vec<Action>, l: &Layer, i: usize, observed: bool, steered: bool)
    ensures
        final(to)@ == old(to)@ + layer_program(*l, i as int, observed, steered),
{
    let ghost before = to@;
    to.push(Action::Norm { layer: i });
    match l.operator {
        Operator::Attention(_) => to.push(Action::Attend { layer: i }),
        Operator::Conv { .. } => to.push(Action::Convolve { layer: i }),
    }
    to.push(Action::AddOperator { layer: i });
    to.push(Action::FfnNorm { layer: i });
    match l.ffn {
        FeedForward::Dense => to.push(Action::Dense { layer: i }),
        FeedForward::Moe(_) => to.push(Action::Experts { layer: i, steered, tapped: observed }),
    }
    to.push(Action::AddFeedForward { layer: i });
    if observed {
        to.push(Action::TapResidual { layer: i });
    }
    proof {
        assert(to@ =~= before + layer_program(*l, i as int, observed, steered));
    }
}

pub open spec fn steered_layers(steering: Option<&Steering>) -> Set<usize> {
    match steering {
        Some(s) => s@.dom(),
        None => Set::empty(),
    }
}

fn build_program(layers: &Vec<Layer>, observed: bool, steering: Option<&Steering>) -> (res: Vec<Action>)
    ensures
        res@ == spec_program(layers@, observed, steered_layers(steering)),
{
    let ghost steered = steered_layers(steering);
    let mut to: Vec<Action> = Vec::new();
    to.push(Action::Embed);
    if observed {
        to.push(Action::TapEmbedding);
    }
    proof {
        assert(to@ =~= opening(observed) + layers_program(layers@, observed, steered, 0));
    }
    let mut i: usize = 0;
    while i < layers.len()
        invariant
            i <= layers@.len(),
            steered == steered_layers(steering),
            to@ == opening(observed) + layers_program(layers@, observed, steered, i as nat),
        decreases layers@.len() - i,
    {
        let replaced = match steering {
            Some(s) => s.steers(i),
            None => false,
        };
        push_layer(&mut to, &layers[i], i, observed, replaced);
        i = i + 1;
        proof {
            assert(to@ =~= opening(observed) + layers_program(layers@, observed, steered, i as nat));
        }
    }
    to.push(Action::FinalNorm);
    to.push(Action::Output);
    proof {
        assert(to@ =~= spec_program(layers@, observed, steered));
    }
    to
}

fn copied_states(from: &Vec<State>) -> (res: Vec<State>)
    ensures
        state_views(res@) == state_views(from@),
{
    let mut res: Vec<State> = Vec::new();
    let mut i: usize = 0;
    while i < from.len()
        invariant
            i <= from@.len(),
            res@.len() == i,
            forall|j: int| 0 <= j < i ==> (#[trigger] res@[j])@ == from@[j]@,
        decreases from@.len() - i,
    {
        res.push(from[i].clone());
        i = i + 1;
    }
    proof {
        assert(state_views(res@) =~= state_views(from@));
    }
    res
}

impl Model {
    fn start(&self, rows: Vec<State>, pos: Vec<usize>, seq: usize, observed: bool, steering: Option<&Steering>) -> (res: Pass)
        requires
            rows@.len() > 0,
            seq > 0,
            pos@ == state_views(rows@).map_values(|s: StateView| s.len),
            forall|r: int|
                0 <= r < rows@.len() ==> state_fits(self@, (#[trigger] rows@[r])@) && rows@[r]@.len + seq
                    <= self@.config.context,
        ensures
            res@ == started(self@, state_views(rows@), seq as nat, observed, steered_layers(steering)),
            res@.wf(),
    {
        let program = build_program(self.parts(), observed, steering);
        let pass = Pass {
            program,
            at: 0,
            rows,
            pos,
            seq,
            limit: self.context_length(),
            kernel: self.config().kernel,
            failed: false,
        };
        proof {
            let views = state_views(rows@);
            assert(pass@ =~= started(self@, views, seq as nat, observed, steered_layers(steering)));
            assert forall|r: int| 0 <= r < views.len() implies state_fits(self@, #[trigger] views[r]) && views[r].len + seq
                <= self@.config.context by {
                assert(views[r] == rows@[r]@);
            }
            lemma_started_wf(self@, views, seq as nat, observed, steered_layers(steering));
        }
        pass
    }

    fn run(&self, tokens: &Vec<u32>, state: &State, observed: bool, steering: Option<&Steering>) -> (res: Result<
        Pass,
        RunError,
    >)
        ensures
            match res {
                Ok(pass) => {
                    &&& run_error(self@, tokens@, state@) is None
                    &&& pass@ == started(self@, seq![state@], tokens@.len(), observed, steered_layers(steering))
                    &&& pass@.wf()
                },
                Err(e) => run_error(self@, tokens@, state@) == Some(e),
            },
    {
        if !self.owns_state(state) {
            return Err(RunError::Foreign);
        }
        let seq: usize = tokens.len();
        let end: usize = match state.len().checked_add(seq) {
            Some(end) => end,
            None => {
                return Err(RunError::ContextOverflow);
            },
        };
        if seq == 0 || end > self.context_length() {
            return Err(RunError::EmptyOrLimit);
        }
        let mut i: usize = 0;
        while i < seq
            invariant
                i <= seq == tokens@.len(),
                forall|j: int| 0 <= j < i ==> #[trigger] tokens@[j] < self@.config.vocab,
                run_error(self@, tokens@, state@) is None || run_error(self@, tokens@, state@) == Some(
                    RunError::Vocabulary,
                ),
            decreases seq - i,
        {
            if tokens[i] as usize >= self.vocab_size() {
                proof {
                    assert(tokens@[i as int] >= self@.config.vocab);
                }
                return Err(RunError::Vocabulary);
            }
            i = i + 1;
        }
        let mut rows: Vec<State> = Vec::new();
        rows.push(state.clone());
        let mut pos: Vec<usize> = Vec::new();
        pos.push(state.len());
        proof {
            assert(state_views(rows@) =~= seq![state@]);
            assert(pos@ =~= state_views(rows@).map_values(|s: StateView| s.len));
        }
        Ok(self.start(rows, pos, seq, observed, steering))
    }

    /// Begins a pass of one sequence over `tokens`, which ends in the logits
    /// of its last position. The caller bounds prefill chunks.
    pub fn forward(&self, tokens: &Vec<u32>, state: &State) -> (res: Result<Pass, RunError>)
        ensures
            match res {
                Ok(pass) => {
                    &&& run_error(self@, tokens@, state@) is None
                    &&& pass@ == started(self@, seq![state@], tokens@.len(), false, Set::empty())
                    &&& pass@.wf()
                },
                Err(e) => run_error(self@, tokens@, state@) == Some(e),
            },
    {
        self.run(tokens, state, false, None)
    }

    /// [`Model::forward`] with an observer's taps between the steps.
    pub fn forward_observed(&self, tokens: &Vec<u32>, state: &State) -> (res: Result<Pass, RunError>)
        ensures
            match res {
                Ok(pass) => {
                    &&& run_error(self@, tokens@, state@) is None
                    &&& pass@ == started(self@, seq![state@], tokens@.len(), true, Set::empty())
                    &&& pass@.wf()
                },
                Err(e) => run_error(self@, tokens@, state@) == Some(e),
            },
    {
        self.run(tokens, state, true, None)
    }

    /// [`Model::forward`] with the named routers' biases replaced, and
    /// optionally observed. A replacement that cannot apply is refused first.
    pub fn forward_steered(&self, tokens: &Vec<u32>, state: &State, steering: &Steering, observed: bool) -> (res: Result<
        Pass,
        RunError,
    >)
        ensures
            match res {
                Ok(pass) => {
                    &&& steering::applies(self@, steering@)
                    &&& run_error(self@, tokens@, state@) is None
                    &&& pass@ == started(self@, seq![state@], tokens@.len(), observed, steering@.dom())
                    &&& pass@.wf()
                },
                Err(RunError::Steering(e)) => steering::first_misfit(self@, steering@, e),
                Err(e) => steering::applies(self@, steering@) && run_error(self@, tokens@, state@) == Some(e),
            },
    {
        match steering.check(self) {
            Ok(_) => self.run(tokens, state, observed, Some(steering)),
            Err(e) => Err(RunError::Steering(e)),
        }
    }

    /// Begins one decode step of several sequences: `tokens[i]` continues
    /// `states[i]`. Their lengths may differ and they may share prefixes.
    pub fn decode_batch(&self, tokens: &Vec<u32>, states: &Vec<State>) -> (res: Result<Pass, RunError>)
        ensures
            match res {
                Ok(pass) => {
                    &&& batch_error(self@, tokens@, state_views(states@)) is None
                    &&& pass@ == started(self@, state_views(states@), 1, false, Set::empty())
                    &&& pass@.wf()
                },
                Err(e) => batch_error(self@, tokens@, state_views(states@)) == Some(e),
            },
    {
        let b: usize = tokens.len();
        if b == 0 {
            return Err(RunError::EmptyBatch);
        }
        if states.len() != b {
            return Err(RunError::BatchLength { tokens: b, states: states.len() });
        }
        let ghost views = state_views(states@);
        let mut pos: Vec<usize> = Vec::new();
        let mut i: usize = 0;
        while i < b
            invariant
                i <= b == tokens@.len(),
                states@.len() == b,
                views == state_views(states@),
                rows_error(self@, tokens@, views, i as nat) is None,
                pos@.len() == i,
                forall|j: int| 0 <= j < i ==> #[trigger] pos@[j] == views[j].len,
                forall|j: int|
                    0 <= j < i ==> self@.owns((#[trigger] views[j])) && views[j].len < self@.config.context,
            decreases b - i,
        {
            let s = &states[i];
            let error = if !self.owns_state(s) {
                Some(RunError::RowForeign(i))
            } else if s.len() >= self.context_length() {
                Some(RunError::RowContextLimit(i))
            } else if tokens[i] as usize >= self.vocab_size() {
                Some(RunError::RowVocabulary(i))
            } else {
                None
            };
            proof {
                assert(views[i as int] == s@);
            }
            if let Some(e) = error {
                proof {
                    assert(row_error(self@, tokens@[i as int], views[i as int], i as int) == Some(e));
                    lemma_rows_error_prefix(self@, tokens@, views, (i + 1) as nat, b as nat);
                }
                return Err(e);
            }
            pos.push(s.len());
            i = i + 1;
        }
        let rows = copied_states(states);
        proof {
            assert(pos@ =~= state_views(rows@).map_values(|s: StateView| s.len));
            assert forall|r: int| 0 <= r < rows@.len() implies state_fits(self@, (#[trigger] rows@[r])@) && rows@[r]@.len
                + 1 <= self@.config.context by {
                assert(state_views(rows@)[r] == rows@[r]@);
                assert(views[r] == states@[r]@);
                assert(self@.owns(views[r]));
            }
        }
        Ok(self.start(rows, pos, 1, false, None))
    }
}

proof fn lemma_rows_error_prefix(model: ModelView, tokens: Seq<u32>, states: Seq<StateView>, n: nat, all: nat)
    requires
        n <= all,
        rows_error(model, tokens, states, n) is Some,
    ensures
        rows_error(model, tokens, states, all) == rows_error(model, tokens, states, n),
    decreases all,
{
    if n < all {
        lemma_rows_error_prefix(model, tokens, states, n, (all - 1) as nat);
    }
}

/// The blocks after the first `n` rows appended.
pub open spec fn attended<T>(
    b: Seq<BlockView<T>>,
    previous: Seq<Option<KvCache>>,
    k: Seq<KvChunk<T>>,
    v: Seq<KvChunk<T>>,
    limit: nat,
    zero: T,
    n: nat,
) -> Seq<BlockView<T>>
    decreases n,
{
    if n == 0 {
        b
    } else {
        kv_cache::appended_blocks(
            attended(b, previous, k, v, limit, zero, (n - 1) as nat),
            previous[n - 1],
            k[n - 1],
            v[n - 1],
            limit,
            zero,
        )
    }
}

/// The view that row `r` gets.
pub open spec fn attended_cache<T>(
    b: Seq<BlockView<T>>,
    previous: Seq<Option<KvCache>>,
    k: Seq<KvChunk<T>>,
    v: Seq<KvChunk<T>>,
    limit: nat,
    zero: T,
    r: int,
) -> KvCache {
    KvCache {
        storage: kv_cache::appended_storage(attended(b, previous, k, v, limit, zero, r as nat), previous[r], k[r]) as usize,
        len: (kv_cache::previous_len(previous[r]) + k[r].rows@.len()) as usize,
    }
}

/// Why one row's append is refused, if it is.
pub open spec fn attend_row_error<T>(
    b: Seq<BlockView<T>>,
    previous: Option<KvCache>,
    pos: usize,
    k: KvChunk<T>,
    v: KvChunk<T>,
    limit: usize,
) -> Option<RunError> {
    if kv_cache::previous_len(previous) != pos {
        Some(RunError::KvPosition)
    } else {
        match kv_cache::append_error(b, previous, k, v, limit) {
            Some(e) => Some(RunError::Kv(e)),
            None => None,
        }
    }
}

/// What is wrong with the first bad row among the first `n`.
pub open spec fn attend_error<T>(
    b: Seq<BlockView<T>>,
    p: PassView,
    layer: int,
    k: Seq<KvChunk<T>>,
    v: Seq<KvChunk<T>>,
    n: nat,
) -> Option<RunError>
    decreases n,
{
    if n == 0 {
        None
    } else if attend_error(b, p, layer, k, v, (n - 1) as nat) is Some {
        attend_error(b, p, layer, k, v, (n - 1) as nat)
    } else {
        attend_row_error(b, p.kv_of(layer)[n - 1], p.pos[n - 1], k[n - 1], v[n - 1], p.limit)
    }
}

proof fn lemma_attend_error_prefix<T>(
    b: Seq<BlockView<T>>,
    p: PassView,
    layer: int,
    k: Seq<KvChunk<T>>,
    v: Seq<KvChunk<T>>,
    n: nat,
    all: nat,
)
    requires
        n <= all,
        attend_error(b, p, layer, k, v, n) is Some,
    ensures
        attend_error(b, p, layer, k, v, all) == attend_error(b, p, layer, k, v, n),
    decreases all,
{
    if n < all {
        lemma_attend_error_prefix(b, p, layer, k, v, n, (all - 1) as nat);
    }
}

/// `state` with its keys and values in `layer` replaced.
pub open spec fn with_kv(state: StateView, layer: int, cache: KvCache) -> StateView {
    StateView { kv: state.kv.update(layer, Some(cache)), ..state }
}

/// `state` with its convolution history in `layer` replaced.
pub open spec fn with_conv(state: StateView, layer: int, next: Option<ConvState>) -> StateView {
    StateView { conv: state.conv.update(layer, next), ..state }
}

/// The pass after an attention step that gave its rows the views `caches`.
pub open spec fn attended_pass(p: PassView, layer: int, caches: Seq<KvCache>) -> PassView {
    PassView { rows: Seq::new(p.rows.len(), |r: int| with_kv(p.rows[r], layer, caches[r])), ..p.stepped() }
}

/// The pass after a convolution step that gave its rows the histories `next`.
pub open spec fn convolved_pass(p: PassView, layer: int, next: Seq<Option<ConvState>>) -> PassView {
    PassView { rows: Seq::new(p.rows.len(), |r: int| with_conv(p.rows[r], layer, next[r])), ..p.stepped() }
}

/// `state` once the pass is over.
pub open spec fn committed(state: StateView, seq: usize) -> StateView {
    StateView { len: (state.len + seq) as usize, ..state }
}

impl Pass {
    /// The step to do next; `None` once the pass is over or has failed.
    pub fn action(&self) -> (res: Option<Action>)
        requires
            self@.wf(),
        ensures
            res == self@.action(),
    {
        if self.failed || self.at >= self.program.len() {
            None
        } else {
            Some(self.program[self.at])
        }
    }

    /// Whether every step is done.
    pub fn is_finished(&self) -> (res: bool)
        ensures
            res == self@.finished(),
    {
        !self.failed && self.at == self.program.len()
    }

    /// Positions that every row advances by.
    pub fn seq(&self) -> (res: usize)
        ensures
            res == self@.seq,
    {
        self.seq
    }

    /// Where each row stood at the start.
    pub fn positions(&self) -> (res: &Vec<usize>)
        ensures
            res@ == self@.pos,
    {
        &self.pos
    }

    /// Whether attention needs a causal mask: a single new position sees
    /// everything before it and nothing after.
    pub fn masked(&self) -> (res: bool)
        ensures
            res == (self@.seq > 1),
    {
        self.seq > 1
    }

    /// Takes note that a step that appends nothing is done.
    pub fn step(&mut self)
        requires
            old(self)@.wf(),
            old(self)@.action() is Some,
            !(old(self)@.action()->0 is Attend),
            !(old(self)@.action()->0 is Convolve),
        ensures
            final(self)@ == old(self)@.stepped(),
            final(self)@.wf(),
    {
        let ghost before = self@;
        proof {
            assert(self.at < self.program.len());
        }
        self.at = self.at + 1;
        proof {
            assert(self@ =~= before.stepped());
        }
    }

    fn kv_of(&self, layer: usize) -> (res: Vec<Option<KvCache>>)
        requires
            forall|r: int| 0 <= r < self@.rows.len() ==> layer < (#[trigger] self@.rows[r]).kv.len(),
        ensures
            res@ == self@.kv_of(layer as int),
    {
        let mut res: Vec<Option<KvCache>> = Vec::new();
        let mut r: usize = 0;
        while r < self.rows.len()
            invariant
                r <= self.rows@.len(),
                forall|q: int| 0 <= q < self@.rows.len() ==> layer < (#[trigger] self@.rows[q]).kv.len(),
                res@.len() == r,
                forall|q: int| 0 <= q < r ==> #[trigger] res@[q] == self@.rows[q].kv[layer as int],
            decreases self.rows@.len() - r,
        {
            proof {
                assert(self@.rows[r as int] == self.rows@[r as int]@);
            }
            res.push(self.rows[r].kv(layer));
            r = r + 1;
        }
        proof {
            assert(res@ =~= self@.kv_of(layer as int));
        }
        res
    }

    fn conv_of(&self, layer: usize) -> (res: Vec<Option<ConvState>>)
        requires
            forall|r: int| 0 <= r < self@.rows.len() ==> layer < (#[trigger] self@.rows[r]).conv.len(),
        ensures
            res@ == self@.conv_of(layer as int),
    {
        let mut res: Vec<Option<ConvState>> = Vec::new();
        let mut r: usize = 0;
        while r < self.rows.len()
            invariant
                r <= self.rows@.len(),
                forall|q: int| 0 <= q < self@.rows.len() ==> layer < (#[trigger] self@.rows[q]).conv.len(),
                res@.len() == r,
                forall|q: int| 0 <= q < r ==> #[trigger] res@[q] == self@.rows[q].conv[layer as int],
            decreases self.rows@.len() - r,
        {
            proof {
                assert(self@.rows[r as int] == self.rows@[r as int]@);
            }
            res.push(self.rows[r].conv(layer));
            r = r + 1;
        }
        proof {
            assert(res@ =~= self@.conv_of(layer as int));
        }
        res
    }

    /// Appends each row's new keys and values, for the attention step that is
    /// due. Row `i` continues its own views; on success the returned views
    /// show its old positions followed by the new ones. On a refusal the pass
    /// has failed. Either way every view that existed before shows the same.
    pub fn attend<T: Copy>(&mut self, store: &mut KvStore<T>, k: &Vec<KvChunk<T>>, v: &Vec<KvChunk<T>>) -> (res: Result<
        Vec<KvCache>,
        RunError,
    >)
        requires
            old(self)@.wf(),
            old(self)@.action() is Some,
            old(self)@.action()->0 is Attend,
            old(store).wf(),
            old(self)@.kv_held(old(store)@),
            k@.len() == old(self)@.rows.len(),
            v@.len() == old(self)@.rows.len(),
            forall|r: int| 0 <= r < k@.len() ==> (#[trigger] k@[r]).rows@.len() == old(self)@.seq,
        ensures
            final(store).wf(),
            final(store).spec_zero() == old(store).spec_zero(),
            forall|c: KvCache|
                kv_cache::holds(old(store)@, c) ==> #[trigger] kv_cache::shows_same(old(store)@, final(store)@, c),
            ({
                let p = old(self)@;
                let layer = p.action()->0->Attend_layer as int;
                let b = old(store)@;
                let zero = old(store).spec_zero();
                let previous = p.kv_of(layer);
                match res {
                    Ok(caches) => {
                        &&& attend_error(b, p, layer, k@, v@, p.rows.len()) is None
                        &&& final(store)@ == attended(b, previous, k@, v@, p.limit as nat, zero, p.rows.len())
                        &&& caches@.len() == p.rows.len()
                        &&& forall|r: int|
                            0 <= r < caches@.len() ==> {
                                &&& #[trigger] caches@[r] == attended_cache(b, previous, k@, v@, p.limit as nat, zero, r)
                                &&& kv_cache::holds(final(store)@, caches@[r])
                                &&& kv_cache::keys(final(store)@, caches@[r]) == kv_cache::previous_keys(b, previous[r])
                                    + k@[r].rows@
                                &&& kv_cache::values(final(store)@, caches@[r]) == kv_cache::previous_values(
                                    b,
                                    previous[r],
                                ) + v@[r].rows@
                            }
                        &&& final(self)@ == attended_pass(p, layer, caches@)
                        &&& final(self)@.wf()
                        &&& final(self)@.kv_held(final(store)@)
                    },
                    Err(e) => {
                        &&& attend_error(b, p, layer, k@, v@, p.rows.len()) == Some(e)
                        &&& final(self)@ == (PassView { failed: true, ..p })
                    },
                }
            }),
    {
        let ghost p = self@;
        let ghost b = store@;
        let ghost zero = store.spec_zero();
        let layer: usize = match self.program[self.at] {
            Action::Attend { layer } => layer,
            _ => 0,
        };
        proof {
            assert forall|r: int| 0 <= r < p.rows.len() implies layer < (#[trigger] p.rows[r]).kv.len() by {
                assert(action_in(p.program[p.at as int], p.rows[r].kv.len()));
            }
        }
        let previous = self.kv_of(layer);
        let ghost prev = previous@;
        let limit: usize = self.limit;
        proof {
            assert forall|r: int| 0 <= r < prev.len() implies kv_cache::holds_previous(b, #[trigger] prev[r]) by {
                assert(state_kv_held(p.rows[r], b));
            }
            assert forall|c: KvCache| kv_cache::holds(b, c) implies #[trigger] kv_cache::shows_same(b, b, c) by {}
        }
        let mut caches: Vec<KvCache> = Vec::new();
        let mut r: usize = 0;
        while r < previous.len()
            invariant
                r <= previous@.len(),
                previous@ == prev,
                prev == p.kv_of(layer as int),
                b == old(store)@,
                zero == old(store).spec_zero(),
                p == old(self)@,
                p.action() is Some,
                p.action()->0 == (Action::Attend { layer }),
                prev.len() == p.rows.len(),
                self@ == p,
                limit == p.limit,
                p.wf(),
                k@.len() == prev.len(),
                v@.len() == prev.len(),
                store.wf(),
                store.spec_zero() == zero,
                store@ == attended(b, prev, k@, v@, limit as nat, zero, r as nat),
                store@.len() >= b.len(),
                forall|i: int| 0 <= i < b.len() ==> (#[trigger] store@[i]).format == b[i].format,
                forall|c: KvCache| kv_cache::holds(b, c) ==> #[trigger] kv_cache::shows_same(b, store@, c),
                forall|q: int| 0 <= q < prev.len() ==> kv_cache::holds_previous(b, #[trigger] prev[q]),
                attend_error(b, p, layer as int, k@, v@, r as nat) is None,
                caches@.len() == r,
                forall|q: int|
                    0 <= q < r ==> {
                        &&& #[trigger] caches@[q] == attended_cache(b, prev, k@, v@, limit as nat, zero, q)
                        &&& kv_cache::holds(store@, caches@[q])
                        &&& kv_cache::keys(store@, caches@[q]) == kv_cache::previous_keys(b, prev[q]) + k@[q].rows@
                        &&& kv_cache::values(store@, caches@[q]) == kv_cache::previous_values(b, prev[q]) + v@[q].rows@
                    },
            decreases previous@.len() - r,
        {
            let len: usize = match previous[r] {
                Some(c) => c.len(),
                None => 0,
            };
            proof {
                assert(kv_cache::holds_previous(b, prev[r as int]));
                if prev[r as int] is Some {
                    assert(kv_cache::shows_same(b, store@, prev[r as int]->0));
                }
            }
            if len != self.pos[r] {
                proof {
                    lemma_attend_error_prefix(b, p, layer as int, k@, v@, (r + 1) as nat, p.rows.len());
                }
                self.failed = true;
                proof {
                    assert(self@ =~= (PassView { failed: true, ..p }));
                }
                return Err(RunError::KvPosition);
            }
            let ghost mid = store@;
            match store.append(previous[r], &k[r], &v[r], limit) {
                Ok(next) => {
                    proof {
                        assert forall|i: int| 0 <= i < b.len() implies (#[trigger] store@[i]).format == b[i].format by {
                            kv_cache::lemma_formats_stay(
                                mid,
                                prev[r as int],
                                k@[r as int],
                                v@[r as int],
                                limit as nat,
                                zero,
                                i,
                            );
                            assert(mid[i].format == b[i].format);
                        }
                        if b.len() == 0 {
                            assert(prev[r as int] is None);
                        } else {
                            kv_cache::lemma_formats_stay(
                                mid,
                                prev[r as int],
                                k@[r as int],
                                v@[r as int],
                                limit as nat,
                                zero,
                                0,
                            );
                        }
                        assert forall|c: KvCache| kv_cache::holds(b, c) implies #[trigger] kv_cache::shows_same(
                            b,
                            store@,
                            c,
                        ) by {
                            assert(kv_cache::shows_same(b, mid, c));
                            assert(kv_cache::shows_same(mid, store@, c));
                        }
                        assert forall|q: int| 0 <= q < r implies kv_cache::shows_same(
                            mid,
                            store@,
                            #[trigger] caches@[q],
                        ) by {
                            assert(kv_cache::holds(mid, caches@[q]));
                        }
                    }
                    caches.push(next);
                },
                Err(e) => {
                    proof {
                        lemma_attend_error_prefix(b, p, layer as int, k@, v@, (r + 1) as nat, p.rows.len());
                    }
                    self.failed = true;
                    proof {
                        assert(self@ =~= (PassView { failed: true, ..p }));
                    }
                    return Err(RunError::Kv(e));
                },
            }
            r = r + 1;
        }
        proof {
            assert(self.program@.len() == self.program.len());
            assert(self.at < self.program.len());
        }
        self.put_kv(layer, &caches);
        self.at = self.at + 1;
        proof {
            assert(self@ =~= attended_pass(p, layer as int, caches@));
            lemma_rows_keep_slots(p, self@);
            assert forall|q: int| 0 <= q < self@.rows.len() implies state_kv_held(#[trigger] self@.rows[q], store@) by {
                assert(state_kv_held(p.rows[q], b));
                assert forall|i: int| 0 <= i < self@.rows[q].kv.len() implies kv_cache::holds_previous(
                    store@,
                    #[trigger] self@.rows[q].kv[i],
                ) by {
                    if i == layer {
                        assert(kv_cache::holds(store@, caches@[q]));
                    } else {
                        assert(kv_cache::holds_previous(b, p.rows[q].kv[i]));
                        if p.rows[q].kv[i] is Some {
                            assert(kv_cache::shows_same(b, store@, p.rows[q].kv[i]->0));
                        }
                    }
                }
            }
        }
        Ok(caches)
    }

    fn put_kv(&mut self, layer: usize, caches: &Vec<KvCache>)
        requires
            caches@.len() == old(self)@.rows.len(),
            forall|r: int| 0 <= r < old(self)@.rows.len() ==> layer < (#[trigger] old(self)@.rows[r]).kv.len(),
        ensures
            final(self)@ == (PassView {
                rows: Seq::new(
                    old(self)@.rows.len(),
                    |r: int| with_kv(old(self)@.rows[r], layer as int, caches@[r]),
                ),
                ..old(self)@
            }),
            final(self).at == old(self).at,
    {
        let ghost p = self@;
        let mut r: usize = 0;
        while r < self.rows.len()
            invariant
                r <= self.rows@.len() == p.rows.len(),
                caches@.len() == p.rows.len(),
                forall|q: int| 0 <= q < p.rows.len() ==> layer < (#[trigger] p.rows[q]).kv.len(),
                self@ == (PassView { rows: self@.rows, ..p }),
                self.at == old(self).at,
                self@.rows.len() == p.rows.len(),
                forall|q: int| 0 <= q < r ==> #[trigger] self@.rows[q] == with_kv(p.rows[q], layer as int, caches@[q]),
                forall|q: int| r <= q < p.rows.len() ==> #[trigger] self@.rows[q] == p.rows[q],
            decreases p.rows.len() - r,
        {
            let ghost mid = self.rows@;
            proof {
                assert(self@.rows[r as int] == mid[r as int]@);
                assert(layer < p.rows[r as int].kv.len());
            }
            let next = caches[r];
            self.rows[r].put_kv(layer, next);
            proof {
                assert(self.rows@ =~= mid.update(r as int, self.rows@[r as int]));
                assert(self@.rows =~= state_views(mid).update(r as int, self.rows@[r as int]@));
            }
            r = r + 1;
        }
        proof {
            assert(self@.rows =~= Seq::new(p.rows.len(), |q: int| with_kv(p.rows[q], layer as int, caches@[q])));
        }
    }

    fn put_conv(&mut self, layer: usize, next: &Vec<Option<ConvState>>)
        requires
            next@.len() == old(self)@.rows.len(),
            forall|r: int| 0 <= r < old(self)@.rows.len() ==> layer < (#[trigger] old(self)@.rows[r]).conv.len(),
        ensures
            final(self)@ == (PassView {
                rows: Seq::new(
                    old(self)@.rows.len(),
                    |r: int| with_conv(old(self)@.rows[r], layer as int, next@[r]),
                ),
                ..old(self)@
            }),
            final(self).at == old(self).at,
    {
        let ghost p = self@;
        let mut r: usize = 0;
        while r < self.rows.len()
            invariant
                r <= self.rows@.len() == p.rows.len(),
                next@.len() == p.rows.len(),
                forall|q: int| 0 <= q < p.rows.len() ==> layer < (#[trigger] p.rows[q]).conv.len(),
                self@ == (PassView { rows: self@.rows, ..p }),
                self.at == old(self).at,
                self@.rows.len() == p.rows.len(),
                forall|q: int| 0 <= q < r ==> #[trigger] self@.rows[q] == with_conv(p.rows[q], layer as int, next@[q]),
                forall|q: int| r <= q < p.rows.len() ==> #[trigger] self@.rows[q] == p.rows[q],
            decreases p.rows.len() - r,
        {
            let ghost mid = self.rows@;
            proof {
                assert(self@.rows[r as int] == mid[r as int]@);
                assert(layer < p.rows[r as int].conv.len());
            }
            let state = next[r];
            self.rows[r].put_conv(layer, state);
            proof {
                assert(self.rows@ =~= mid.update(r as int, self.rows@[r as int]));
                assert(self@.rows =~= state_views(mid).update(r as int, self.rows@[r as int]@));
            }
            r = r + 1;
        }
        proof {
            assert(self@.rows =~= Seq::new(p.rows.len(), |q: int| with_conv(p.rows[q], layer as int, next@[q])));
        }
    }
}

/// Replacing what a slot holds keeps a pass well formed.
proof fn lemma_rows_keep_slots(p: PassView, q: PassView)
    requires
        p.wf(),
        p.action() is Some,
        q.program == p.program,
        q.at == p.at + 1,
        q.pos == p.pos,
        q.seq == p.seq,
        q.limit == p.limit,
        q.kernel == p.kernel,
        q.rows.len() == p.rows.len(),
        forall|r: int|
            0 <= r < p.rows.len() ==> {
                &&& (#[trigger] q.rows[r]).len == p.rows[r].len
                &&& q.rows[r].kv.len() == p.rows[r].kv.len()
                &&& q.rows[r].conv.len() == p.rows[r].conv.len()
            },
    ensures
        q.wf(),
{
    assert forall|r: int, i: int| 0 <= r < q.rows.len() && 0 <= i < q.program.len() implies action_in(
        #[trigger] q.program[i],
        (#[trigger] q.rows[r]).kv.len(),
    ) && action_in(q.program[i], q.rows[r].conv.len()) by {
        assert(action_in(p.program[i], p.rows[r].kv.len()));
    }
    assert forall|r: int| 0 <= r < q.rows.len() implies (#[trigger] q.rows[r]).len == q.pos[r] && q.pos[r] + q.seq
        <= q.limit by {
        assert(p.rows[r].len == p.pos[r]);
    }
}

impl Pass {
    /// Feeds each row's new columns to its convolution history, for the
    /// convolution step that is due: the windows of each row's new positions.
    /// No history that existed before changes.
    pub fn convolve<C: Copy>(&mut self, store: &mut ConvStore<C>, inputs: &Vec<Vec<C>>) -> (res: Vec<Vec<Vec<C>>>)
        requires
            old(self)@.wf(),
            old(self)@.action() is Some,
            old(self)@.action()->0 is Convolve,
            old(self)@.conv_held(old(store)@),
            inputs@.len() == old(self)@.rows.len(),
            forall|r: int| 0 <= r < inputs@.len() ==> (#[trigger] inputs@[r])@.len() == old(self)@.seq,
        ensures
            final(store).spec_zero() == old(store).spec_zero(),
            ({
                let p = old(self)@;
                let layer = p.action()->0->Convolve_layer as int;
                let t = old(store)@;
                let k = p.kernel as nat;
                let rows = conv::gathered(t, p.conv_of(layer), old(store).spec_zero(), k);
                let next = Seq::new(
                    p.rows.len(),
                    |r: int| Some(ConvState { tensor: t.len() as usize, row: r as usize }),
                );
                &&& final(store)@ == t.push(conv::advanced_rows(rows, conv::views(inputs@)))
                &&& res@.len() == p.rows.len()
                &&& forall|r: int|
                    0 <= r < res@.len() ==> conv::views((#[trigger] res@[r])@) == conv::windows(rows[r], inputs@[r]@, k)
                &&& final(self)@ == convolved_pass(p, layer, next)
                &&& final(self)@.wf()
                &&& final(self)@.conv_held(final(store)@)
            }),
    {
        let ghost p = self@;
        let ghost t = store@;
        let layer: usize = match self.program[self.at] {
            Action::Convolve { layer } => layer,
            _ => 0,
        };
        proof {
            assert(self.at < self.program.len());
            assert forall|r: int| 0 <= r < p.rows.len() implies layer < (#[trigger] p.rows[r]).conv.len() by {
                assert(action_in(p.program[p.at as int], p.rows[r].conv.len()));
            }
        }
        let states = self.conv_of(layer);
        let k: usize = self.kernel;
        proof {
            assert forall|r: int| 0 <= r < states@.len() && #[trigger] states@[r] is Some implies conv::conv_holds(
                t,
                states@[r]->0,
                k as nat,
            ) by {
                assert(state_conv_held(p.rows[r], t, k as nat));
                assert(p.rows[r].conv[layer as int] is Some);
            }
        }
        let done = store.advance(&states, inputs, k);
        self.put_conv(layer, &done.states);
        self.at = self.at + 1;
        proof {
            let next = Seq::new(
                p.rows.len(),
                |r: int| Some(ConvState { tensor: t.len() as usize, row: r as usize }),
            );
            assert(done.states@ =~= next);
            assert(self@ =~= convolved_pass(p, layer as int, next));
            lemma_rows_keep_slots(p, self@);
            assert forall|r: int| 0 <= r < self@.rows.len() implies state_conv_held(
                #[trigger] self@.rows[r],
                store@,
                k as nat,
            ) by {
                assert(state_conv_held(p.rows[r], t, k as nat));
                assert forall|i: int| 0 <= i < self@.rows[r].conv.len() && #[trigger] self@.rows[r].conv[i] is Some implies
                    conv::conv_holds(store@, self@.rows[r].conv[i]->0, k as nat) by {
                    if i == layer {
                        assert(done.states@[r] is Some);
                    } else {
                        assert(p.rows[r].conv[i] is Some);
                        assert(conv::conv_holds(t, p.rows[r].conv[i]->0, k as nat));
                    }
                }
            }
        }
        done.windows
    }

    /// Replaces the states that the pass began from by those it came to, if
    /// every step is done; otherwise replaces none. Tells which.
    pub fn commit(self, states: &mut Vec<State>) -> (res: bool)
        requires
            self@.wf(),
            old(states)@.len() == self@.rows.len(),
            forall|r: int|
                0 <= r < self@.rows.len() ==> (#[trigger] old(states)@[r])@.owner == self@.rows[r].owner
                    && old(states)@[r]@.len == self@.pos[r],
        ensures
            res == self@.finished(),
            res ==> state_views(final(states)@) == self@.rows.map_values(|s: StateView| committed(s, self@.seq)),
            !res ==> final(states)@ == old(states)@,
    {
        if !self.is_finished() {
            return false;
        }
        let mut next: Vec<State> = Vec::new();
        let mut r: usize = 0;
        while r < self.rows.len()
            invariant
                r <= self.rows@.len(),
                self@.wf(),
                next@.len() == r,
                forall|q: int| 0 <= q < r ==> (#[trigger] next@[q])@ == committed(self@.rows[q], self@.seq),
            decreases self.rows@.len() - r,
        {
            let mut s = self.rows[r].clone();
            proof {
                assert(self@.rows[r as int] == self.rows@[r as int]@);
            }
            s.advance(self.seq);
            next.push(s);
            r = r + 1;
        }
        *states = next;
        proof {
            assert(state_views(states@) =~= self@.rows.map_values(|s: StateView| committed(s, self@.seq)));
        }
        true
    }
}

/// Dimensions of the embeddings and of every residual stream of a pass.
pub open spec fn stream_dims(model: ModelView, p: PassView) -> Seq<usize> {
    seq![p.rows.len() as usize, p.seq, model.config.hidden]
}

/// Dimensions of a pass's logits: one row per sequence.
pub open spec fn logits_dims(model: ModelView, p: PassView) -> Seq<usize> {
    seq![p.rows.len() as usize, model.config.vocab]
}

/// Dimensions of what a router gives for every token of a pass.
pub open spec fn router_dims(p: PassView, width: usize) -> Seq<usize> {
    seq![(p.rows.len() * p.seq) as usize, width]
}

/// Dimensions of one expert layer's routing: raw router outputs, chosen experts
/// and their weights.
#[derive(PartialEq, Eq, Debug)]
pub struct RoutingDims {
    pub logits: Vec<usize>,
    pub ids: Vec<usize>,
    pub weights: Vec<usize>,
}

fn pair(a: usize, b: usize) -> (res: Vec<usize>)
    ensures
        res@ == seq![a, b],
{
    let mut res: Vec<usize> = Vec::new();
    res.push(a);
    res.push(b);
    proof {
        assert(res@ =~= seq![a, b]);
    }
    res
}

impl Model {
    /// Dimensions `(rows, seq, hidden)` of what an observer sees of the
    /// embeddings and of the stream that leaves a layer.
    pub fn stream_dims(&self, pass: &Pass) -> (res: Vec<usize>)
        ensures
            res@ == stream_dims(self@, pass@),
    {
        let mut res = pair(pass.rows.len(), pass.seq);
        res.push(self.hidden_size());
        proof {
            assert(res@ =~= stream_dims(self@, pass@));
        }
        res
    }

    /// Dimensions `(rows, vocab)` of the logits of a pass.
    pub fn logits_dims(&self, pass: &Pass) -> (res: Vec<usize>)
        ensures
            res@ == logits_dims(self@, pass@),
    {
        pair(pass.rows.len(), self.vocab_size())
    }

    /// Dimensions of the routing that an observer sees of `layer`; `None` for a
    /// layer without experts.
    pub fn routing_dims(&self, pass: &Pass, layer: usize) -> (res: Option<RoutingDims>)
        requires
            layer < self@.layers.len(),
            pass@.rows.len() * pass@.seq <= usize::MAX,
        ensures
            match self@.layers[layer as int].ffn {
                FeedForward::Dense => res is None,
                FeedForward::Moe(m) => {
                    &&& res is Some
                    &&& res->0.logits@ == router_dims(pass@, m.bias.experts)
                    &&& res->0.ids@ == router_dims(pass@, m.topk)
                    &&& res->0.weights@ == router_dims(pass@, m.topk)
                },
            },
    {
        let tokens: usize = pass.rows.len() * pass.seq;
        match self.parts()[layer].ffn {
            FeedForward::Dense => None,
            FeedForward::Moe(m) => Some(
                RoutingDims {
                    logits: pair(tokens, m.bias.experts),
                    ids: pair(tokens, m.topk),
                    weights: pair(tokens, m.topk),
                },
            ),
        }
    }
}

/// Why a residual stream of these dimensions cannot be read as logits.
pub open spec fn project_error(model: ModelView, dims: Seq<usize>) -> Option<RunError> {
    if dims.len() == 3 && dims[0] == 1 && dims[2] == model.config.hidden {
        None
    } else {
        Some(RunError::Residual)
    }
}

/// A reading of a residual stream through the model's own output head.
#[derive(Debug)]
pub struct Projection {
    pub steps: Vec<Action>,
    pub dims: Vec<usize>,
}

impl Model {
    /// Reads a residual stream `(1, seq, hidden)` from any depth as logits
    /// `(1, seq, vocab)`: the steps to take, and the dimensions they give.
    pub fn project(&self, dims: &Vec<usize>) -> (res: Result<Projection, RunError>)
        ensures
            match res {
                Ok(p) => {
                    &&& project_error(self@, dims@) is None
                    &&& p.steps@ == closing()
                    &&& p.dims@ == seq![1usize, dims@[1], self@.config.vocab]
                },
                Err(e) => project_error(self@, dims@) == Some(e),
            },
    {
        if dims.len() != 3 || dims[0] != 1 || dims[2] != self.hidden_size() {
            return Err(RunError::Residual);
        }
        let mut steps: Vec<Action> = Vec::new();
        steps.push(Action::FinalNorm);
        steps.push(Action::Output);
        let mut out: Vec<usize> = Vec::new();
        out.push(1);
        out.push(dims[1]);
        out.push(self.vocab_size());
        proof {
            assert(steps@ =~= closing());
            assert(out@ =~= seq![1usize, dims@[1], self@.config.vocab]);
        }
        Ok(Projection { steps, dims: out })
    }
}

} // verus!
