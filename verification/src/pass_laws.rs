//! What holds of every pass, whatever the numbers in it are.

use vstd::prelude::*;
use crate::conv;
use crate::conv::ConvState;
use crate::kv_cache;
use crate::kv_cache::{BlockView, KvCache, KvChunk, KvStore};
use crate::layers;
use crate::layers::{FeedForward, Layer};
use crate::model;
use crate::model::{Model, ModelView, State, StateView};
use crate::pass;
use crate::pass::{Action, Pass, PassView, RunError};
use crate::steering;
use crate::steering::{BiasView, Steering};

verus! {

pub open spec fn is_tap(a: Action) -> bool {
    a is TapEmbedding || a is TapResidual
}

/// The same step without an observer.
pub open spec fn unobserved(a: Action) -> Action {
    match a {
        Action::Experts { layer, steered, .. } => Action::Experts { layer, steered, tapped: false },
        _ => a,
    }
}

/// The steps of a program that compute, without its taps.
pub open spec fn computing(p: Seq<Action>) -> Seq<Action>
    decreases p.len(),
{
    if p.len() == 0 {
        Seq::empty()
    } else if is_tap(p.last()) {
        computing(p.drop_last())
    } else {
        computing(p.drop_last()).push(unobserved(p.last()))
    }
}

proof fn lemma_computing_concat(a: Seq<Action>, b: Seq<Action>)
    ensures
        computing(a + b) == computing(a) + computing(b),
    decreases b.len(),
{
    if b.len() == 0 {
        assert(a + b =~= a);
        assert(computing(a) + computing(b) =~= computing(a));
    } else {
        assert((a + b).drop_last() =~= a + b.drop_last());
        assert((a + b).last() == b.last());
        lemma_computing_concat(a, b.drop_last());
        if !is_tap(b.last()) {
            assert(computing(a) + computing(b) =~= (computing(a) + computing(b.drop_last())).push(
                unobserved(b.last()),
            ));
        }
    }
}

/// A program without taps is what it computes.
proof fn lemma_computing_untapped(p: Seq<Action>)
    requires
        forall|i: int| 0 <= i < p.len() ==> !is_tap(#[trigger] p[i]) && unobserved(p[i]) == p[i],
    ensures
        computing(p) == p,
    decreases p.len(),
{
    if p.len() > 0 {
        assert forall|i: int| 0 <= i < p.drop_last().len() implies !is_tap(#[trigger] p.drop_last()[i]) && unobserved(
            p.drop_last()[i],
        ) == p.drop_last()[i] by {
            assert(p.drop_last()[i] == p[i]);
        }
        lemma_computing_untapped(p.drop_last());
        assert(!is_tap(p[p.len() - 1]) && unobserved(p[p.len() - 1]) == p[p.len() - 1]);
        assert(p =~= p.drop_last().push(p.last()));
    } else {
        assert(p =~= Seq::<Action>::empty());
    }
}

proof fn lemma_computing_layer(l: Layer, i: int, steered: bool)
    ensures
        computing(pass::layer_program(l, i, true, steered)) == pass::layer_program(l, i, false, steered),
        computing(pass::layer_program(l, i, false, steered)) == pass::layer_program(l, i, false, steered),
{
    let plain = pass::layer_program(l, i, false, steered);
    let seen = pass::layer_program(l, i, true, steered);
    lemma_computing_untapped(plain);
    let body = seen.drop_last();
    assert(is_tap(seen.last()));
    assert(computing(seen) == computing(body));
    assert(body.len() == 6);
    let mapped = Seq::new(6, |j: int| unobserved(body[j]));
    lemma_computing_mapped(body, mapped);
    assert(mapped =~= plain);
}

/// Without taps among them, steps are only stripped of their observer.
proof fn lemma_computing_mapped(p: Seq<Action>, mapped: Seq<Action>)
    requires
        p.len() == mapped.len(),
        forall|i: int| 0 <= i < p.len() ==> !is_tap(#[trigger] p[i]) && mapped[i] == unobserved(p[i]),
    ensures
        computing(p) == mapped,
    decreases p.len(),
{
    if p.len() > 0 {
        assert forall|i: int| 0 <= i < p.drop_last().len() implies !is_tap(#[trigger] p.drop_last()[i])
            && mapped.drop_last()[i] == unobserved(p.drop_last()[i]) by {
            assert(p.drop_last()[i] == p[i]);
        }
        lemma_computing_mapped(p.drop_last(), mapped.drop_last());
        assert(!is_tap(p[p.len() - 1]));
        assert(mapped =~= mapped.drop_last().push(mapped.last()));
    } else {
        assert(mapped =~= Seq::<Action>::empty());
    }
}

proof fn lemma_computing_layers(layers: Seq<Layer>, steered: Set<usize>, n: nat)
    ensures
        computing(pass::layers_program(layers, true, steered, n)) == pass::layers_program(layers, false, steered, n),
    decreases n,
{
    if n > 0 {
        lemma_computing_layers(layers, steered, (n - 1) as nat);
        let s = steered.contains((n - 1) as usize);
        lemma_computing_layer(layers[n - 1], n - 1, s);
        lemma_computing_concat(
            pass::layers_program(layers, true, steered, (n - 1) as nat),
            pass::layer_program(layers[n - 1], n - 1, true, s),
        );
    }
}

/// Law: an observed pass computes the same steps in the same order as the
/// unobserved one.
pub proof fn law_observation_changes_no_step(layers: Seq<Layer>, steered: Set<usize>)
    ensures
        computing(pass::spec_program(layers, true, steered)) == pass::spec_program(layers, false, steered),
{
    let n = layers.len();
    lemma_computing_layers(layers, steered, n);
    let open = pass::opening(true);
    let body = pass::layers_program(layers, true, steered, n);
    lemma_computing_concat(open + body, pass::closing());
    lemma_computing_concat(open, body);
    lemma_computing_untapped(pass::closing());
    assert(open.drop_last() =~= pass::opening(false));
    lemma_computing_untapped(pass::opening(false));
}

/// The layers whose residual stream a program shows, in order.
pub open spec fn residual_taps(p: Seq<Action>) -> Seq<usize>
    decreases p.len(),
{
    if p.len() == 0 {
        Seq::empty()
    } else {
        match p.last() {
            Action::TapResidual { layer } => residual_taps(p.drop_last()).push(layer),
            _ => residual_taps(p.drop_last()),
        }
    }
}

/// The layers whose routing a program shows, in order.
pub open spec fn routing_taps(p: Seq<Action>) -> Seq<usize>
    decreases p.len(),
{
    if p.len() == 0 {
        Seq::empty()
    } else {
        match p.last() {
            Action::Experts { layer, tapped: true, .. } => routing_taps(p.drop_last()).push(layer),
            _ => routing_taps(p.drop_last()),
        }
    }
}

/// The first `n` layers that have experts, in order.
pub open spec fn expert_layers(layers: Seq<Layer>, n: nat) -> Seq<usize>
    decreases n,
{
    if n == 0 {
        Seq::empty()
    } else if layers[n - 1].ffn is Moe {
        expert_layers(layers, (n - 1) as nat).push((n - 1) as usize)
    } else {
        expert_layers(layers, (n - 1) as nat)
    }
}

pub open spec fn first_layers(n: nat) -> Seq<usize> {
    Seq::new(n, |i: int| i as usize)
}

proof fn lemma_taps_concat(a: Seq<Action>, b: Seq<Action>)
    ensures
        residual_taps(a + b) == residual_taps(a) + residual_taps(b),
        routing_taps(a + b) == routing_taps(a) + routing_taps(b),
    decreases b.len(),
{
    if b.len() == 0 {
        assert(a + b =~= a);
        assert(residual_taps(a) + residual_taps(b) =~= residual_taps(a));
        assert(routing_taps(a) + routing_taps(b) =~= routing_taps(a));
    } else {
        assert((a + b).drop_last() =~= a + b.drop_last());
        assert((a + b).last() == b.last());
        lemma_taps_concat(a, b.drop_last());
        assert(residual_taps(a + b) =~= residual_taps(a) + residual_taps(b));
        assert(routing_taps(a + b) =~= routing_taps(a) + routing_taps(b));
    }
}

proof fn lemma_taps_none(p: Seq<Action>)
    requires
        forall|i: int|
            0 <= i < p.len() ==> !((#[trigger] p[i]) is TapResidual) && !(p[i] is Experts && p[i]->tapped),
    ensures
        residual_taps(p) == Seq::<usize>::empty(),
        routing_taps(p) == Seq::<usize>::empty(),
    decreases p.len(),
{
    if p.len() > 0 {
        assert forall|i: int| 0 <= i < p.drop_last().len() implies !((#[trigger] p.drop_last()[i]) is TapResidual) && !(
        p.drop_last()[i] is Experts && p.drop_last()[i]->tapped) by {
            assert(p.drop_last()[i] == p[i]);
        }
        lemma_taps_none(p.drop_last());
        assert(!(p[p.len() - 1] is TapResidual));
    }
}

proof fn lemma_layer_taps(l: Layer, i: int, steered: bool)
    ensures
        residual_taps(pass::layer_program(l, i, true, steered)) == seq![i as usize],
        routing_taps(pass::layer_program(l, i, true, steered)) == (if l.ffn is Moe {
            seq![i as usize]
        } else {
            Seq::<usize>::empty()
        }),
{
    let p = pass::layer_program(l, i, true, steered);
    let head = p.take(4);
    lemma_taps_none(head);
    assert(p.take(5).drop_last() =~= head);
    assert(p.take(6).drop_last() =~= p.take(5));
    assert(p.take(7).drop_last() =~= p.take(6));
    assert(p.take(7) =~= p);
    let ffn = p.take(5);
    let added = p.take(6);
    assert(ffn.last() == p[4]);
    assert(added.last() == p[5]);
    assert(p.last() == (Action::TapResidual { layer: i as usize }));
    assert(residual_taps(ffn) == residual_taps(head));
    assert(residual_taps(added) == residual_taps(ffn));
    assert(residual_taps(p) == residual_taps(added).push(i as usize));
    assert(residual_taps(p) =~= seq![i as usize]);
    assert(routing_taps(p) == routing_taps(added));
    assert(routing_taps(added) == routing_taps(ffn));
    if l.ffn is Moe {
        assert(routing_taps(ffn) == routing_taps(head).push(i as usize));
        assert(routing_taps(ffn) =~= seq![i as usize]);
    } else {
        assert(routing_taps(ffn) == routing_taps(head));
    }
}

proof fn lemma_layers_taps(layers: Seq<Layer>, steered: Set<usize>, n: nat)
    ensures
        residual_taps(pass::layers_program(layers, true, steered, n)) == first_layers(n),
        routing_taps(pass::layers_program(layers, true, steered, n)) == expert_layers(layers, n),
    decreases n,
{
    if n > 0 {
        lemma_layers_taps(layers, steered, (n - 1) as nat);
        let s = steered.contains((n - 1) as usize);
        lemma_layer_taps(layers[n - 1], n - 1, s);
        lemma_taps_concat(
            pass::layers_program(layers, true, steered, (n - 1) as nat),
            pass::layer_program(layers[n - 1], n - 1, true, s),
        );
        assert(residual_taps(pass::layers_program(layers, true, steered, n)) =~= first_layers(n));
        assert(routing_taps(pass::layers_program(layers, true, steered, n)) =~= expert_layers(layers, n));
    } else {
        assert(first_layers(n) =~= Seq::<usize>::empty());
    }
}

/// Law: an observer sees the embeddings once, every layer's residual stream
/// once and in order, and routing exactly where experts are.
pub proof fn law_observer_sees_every_layer_once(layers: Seq<Layer>, steered: Set<usize>)
    ensures
        residual_taps(pass::spec_program(layers, true, steered)) == first_layers(layers.len()),
        routing_taps(pass::spec_program(layers, true, steered)) == expert_layers(layers, layers.len()),
        pass::spec_program(layers, true, steered)[1] is TapEmbedding,
        forall|i: int|
            0 <= i < pass::spec_program(layers, true, steered).len() && i != 1 ==> !((#[trigger] pass::spec_program(
                layers,
                true,
                steered,
            )[i]) is TapEmbedding),
{
    let n = layers.len();
    let open = pass::opening(true);
    let body = pass::layers_program(layers, true, steered, n);
    let p = pass::spec_program(layers, true, steered);
    lemma_layers_taps(layers, steered, n);
    lemma_taps_none(open);
    lemma_taps_none(pass::closing());
    lemma_taps_concat(open, body);
    lemma_taps_concat(open + body, pass::closing());
    assert(residual_taps(p) =~= first_layers(n));
    assert(routing_taps(p) =~= expert_layers(layers, n));
    assert forall|i: int| 0 <= i < p.len() && i != 1 implies !((#[trigger] p[i]) is TapEmbedding) by {
        if 2 <= i < 2 + body.len() {
            lemma_layer_step(layers, true, steered, n, i - 2);
            assert(p[i] == body[i - 2]);
        } else if i >= 2 + body.len() {
            assert(p[i] == pass::closing()[i - 2 - body.len()]);
        }
    }
}

/// Steps per layer.
pub open spec fn layer_steps(observed: bool) -> int {
    if observed {
        7
    } else {
        6
    }
}

/// Where a step of the layers stands in its layer.
pub(crate) proof fn lemma_layer_step(layers: Seq<Layer>, observed: bool, steered: Set<usize>, n: nat, j: int)
    requires
        0 <= j < pass::layers_program(layers, observed, steered, n).len(),
    ensures
        0 <= j / layer_steps(observed) < n,
        pass::layers_program(layers, observed, steered, n)[j] == pass::layer_program(
            layers[j / layer_steps(observed)],
            j / layer_steps(observed),
            observed,
            steered.contains((j / layer_steps(observed)) as usize),
        )[j % layer_steps(observed)],
    decreases n,
{
    let w = layer_steps(observed);
    lemma_layers_len(layers, observed, steered, n);
    let before = pass::layers_program(layers, observed, steered, (n - 1) as nat);
    lemma_layers_len(layers, observed, steered, (n - 1) as nat);
    if j < before.len() {
        lemma_layer_step(layers, observed, steered, (n - 1) as nat, j);
    } else {
        assert(j / w == n - 1 && j % w == j - before.len()) by {
            if observed {
                assert(j / 7 == n - 1 && j % 7 == j - 7 * (n - 1));
            } else {
                assert(j / 6 == n - 1 && j % 6 == j - 6 * (n - 1));
            }
        }
    }
}

pub(crate) proof fn lemma_layers_len(layers: Seq<Layer>, observed: bool, steered: Set<usize>, n: nat)
    ensures
        pass::layers_program(layers, observed, steered, n).len() == layer_steps(observed) * n,
    decreases n,
{
    if n > 0 {
        lemma_layers_len(layers, observed, steered, (n - 1) as nat);
        assert(pass::layer_program(layers[n - 1], n - 1, observed, steered.contains((n - 1) as usize)).len()
            == layer_steps(observed));
    }
}

/// Law: a router's bias is replaced in exactly the layers that steering names,
/// and an expert layer runs its experts as step 4 of its block.
pub proof fn law_steering_reaches_only_named_layers(
    layers: Seq<Layer>,
    observed: bool,
    steered: Set<usize>,
    i: int,
)
    requires
        layers.len() <= usize::MAX,
        0 <= i < layers.len(),
        layers[i].ffn is Moe,
    ensures
        pass::spec_program(layers, observed, steered)[pass::opening(observed).len() + layer_steps(observed) * i + 4]
            == (Action::Experts { layer: i as usize, steered: steered.contains(i as usize), tapped: observed }),
{
    let n = layers.len();
    let w = layer_steps(observed);
    let body = pass::layers_program(layers, observed, steered, n);
    let j = w * i + 4;
    lemma_layers_len(layers, observed, steered, n);
    assert(j < w * n && j / w == i && j % w == 4) by {
        if observed {
            assert((7 * i + 4) / 7 == i && (7 * i + 4) % 7 == 4);
        } else {
            assert((6 * i + 4) / 6 == i && (6 * i + 4) % 6 == 4);
        }
    }
    lemma_layer_step(layers, observed, steered, n, j);
    let p = pass::spec_program(layers, observed, steered);
    assert(p[pass::opening(observed).len() + j] == body[j]);
}

/// The same step with the router's own bias.
pub open spec fn unsteered(a: Action) -> Action {
    match a {
        Action::Experts { layer, tapped, .. } => Action::Experts { layer, steered: false, tapped },
        _ => a,
    }
}

proof fn lemma_unsteered_layers(layers: Seq<Layer>, observed: bool, steered: Set<usize>, n: nat)
    ensures
        pass::layers_program(layers, observed, steered, n).map_values(|a: Action| unsteered(a)) == pass::layers_program(
            layers,
            observed,
            Set::empty(),
            n,
        ),
    decreases n,
{
    let named = pass::layers_program(layers, observed, steered, n);
    let plain = pass::layers_program(layers, observed, Set::empty(), n);
    if n > 0 {
        lemma_unsteered_layers(layers, observed, steered, (n - 1) as nat);
        let f = |a: Action| unsteered(a);
        let (i, s) = (n - 1, steered.contains((n - 1) as usize));
        let (before, after) = (
            pass::layers_program(layers, observed, steered, (n - 1) as nat),
            pass::layer_program(layers[i], i, observed, s),
        );
        assert(after.map_values(f) =~= pass::layer_program(layers[i], i, observed, false));
        assert((before + after).map_values(f) =~= before.map_values(f) + after.map_values(f));
    } else {
        assert(named.map_values(|a: Action| unsteered(a)) =~= plain);
    }
}

/// Law: steering changes nothing but which bias the named routers take. A
/// steered pass has the steps of the plain one, one by one, and only the steps
/// of named layers' experts are marked.
pub proof fn law_steering_only_replaces_biases(layers: Seq<Layer>, observed: bool, steered: Set<usize>)
    ensures
        pass::spec_program(layers, observed, steered).len() == pass::spec_program(layers, observed, Set::empty()).len(),
        forall|i: int|
            0 <= i < pass::spec_program(layers, observed, steered).len() ==> unsteered(
                #[trigger] pass::spec_program(layers, observed, steered)[i],
            ) == pass::spec_program(layers, observed, Set::empty())[i],
{
    let n = layers.len();
    lemma_unsteered_layers(layers, observed, steered, n);
    let f = |a: Action| unsteered(a);
    let (named, plain) = (
        pass::spec_program(layers, observed, steered),
        pass::spec_program(layers, observed, Set::empty()),
    );
    let (o, body, c) = (
        pass::opening(observed),
        pass::layers_program(layers, observed, steered, n),
        pass::closing(),
    );
    assert(o.map_values(f) =~= o);
    assert(c.map_values(f) =~= c);
    assert(named.map_values(f) =~= o.map_values(f) + body.map_values(f) + c.map_values(f));
    assert(named.map_values(f) =~= plain);
    assert forall|i: int| 0 <= i < named.len() implies unsteered(#[trigger] named[i]) == plain[i] by {
        assert(named.map_values(f)[i] == plain[i]);
    }
}

/// Law: steering nothing is a plain pass: it always applies, and starts the
/// same program.
pub proof fn law_empty_steering_is_a_plain_pass(model: ModelView, state: StateView, seq: nat, observed: bool)
    ensures
        steering::applies(model, Map::<usize, BiasView>::empty()),
        pass::started(model, seq![state], seq, observed, Map::<usize, BiasView>::empty().dom()) == pass::started(
            model,
            seq![state],
            seq,
            observed,
            Set::empty(),
        ),
{
    assert(Map::<usize, BiasView>::empty().dom() =~= Set::<usize>::empty());
}

/// Law: replacing a router's bias by one of the router's own shape is accepted.
pub proof fn law_own_shape_always_applies(model: ModelView, layer: usize, bias: BiasView)
    requires
        model.router_bias(layer as int) is Some,
        steering::bias_fits(bias, model.router_bias(layer as int)->0),
    ensures
        steering::applies(model, Map::<usize, BiasView>::empty().insert(layer, bias)),
{
}

/// Law: a batch of one is accepted exactly when a forward of that token is, and
/// then both start the same pass.
pub proof fn law_batch_of_one_is_a_forward(model: ModelView, token: u32, state: StateView)
    ensures
        pass::batch_error(model, seq![token], seq![state]) is None <==> pass::run_error(model, seq![token], state) is None,
        pass::started(model, seq![state], 1, false, Set::empty()) == pass::started(
            model,
            seq![state],
            seq![token].len(),
            false,
            Set::empty(),
        ),
{
    let tokens = seq![token];
    let states = seq![state];
    reveal_with_fuel(pass::rows_error, 2);
    assert(tokens[0] == token);
    assert(pass::rows_error(model, tokens, states, 1) == pass::row_error(model, token, state, 0));
    if token >= model.config.vocab {
        assert(tokens[0] >= model.config.vocab);
    }
}

/// Law: a prompt may be split anywhere. The whole is accepted exactly when its
/// head is, and its tail is from the state the head leaves; both ways end at
/// the same position.
pub proof fn law_chunks_compose(model: ModelView, head: Seq<u32>, tail: Seq<u32>, state: StateView)
    requires
        head.len() > 0,
        tail.len() > 0,
        state.len + head.len() + tail.len() <= usize::MAX,
    ensures
        pass::run_error(model, head + tail, state) is None <==> (pass::run_error(model, head, state) is None
            && pass::run_error(model, tail, pass::committed(state, head.len() as usize)) is None),
        pass::committed(pass::committed(state, head.len() as usize), tail.len() as usize) == pass::committed(
            state,
            (head + tail).len() as usize,
        ),
{
    let whole = head + tail;
    let v = model.config.vocab;
    if exists|i: int| 0 <= i < whole.len() && #[trigger] whole[i] >= v {
        let i = choose|i: int| 0 <= i < whole.len() && #[trigger] whole[i] >= v;
        if i < head.len() {
            assert(head[i] >= v);
        } else {
            assert(tail[i - head.len()] >= v);
        }
    }
    if exists|i: int| 0 <= i < head.len() && #[trigger] head[i] >= v {
        let i = choose|i: int| 0 <= i < head.len() && #[trigger] head[i] >= v;
        assert(whole[i] >= v);
    }
    if exists|i: int| 0 <= i < tail.len() && #[trigger] tail[i] >= v {
        let i = choose|i: int| 0 <= i < tail.len() && #[trigger] tail[i] >= v;
        assert(whole[head.len() + i] >= v);
    }
}

/// Every view that exists shows the same before and after.
pub open spec fn keeps_views<T>(a: Seq<BlockView<T>>, b: Seq<BlockView<T>>) -> bool {
    forall|c: KvCache| kv_cache::holds(a, c) ==> #[trigger] kv_cache::shows_same(a, b, c)
}

/// Law: what a pass does to the blocks before it fails or is dropped, in any
/// number of steps that each keep the views, changes nothing that any state
/// shows: a failed pass leaves its states exactly usable.
pub proof fn law_abandoned_pass_changes_no_view<T>(trace: Seq<Seq<BlockView<T>>>, seen: KvCache)
    requires
        trace.len() > 0,
        forall|i: int| 0 <= i < trace.len() - 1 ==> keeps_views(#[trigger] trace[i], trace[i + 1]),
        kv_cache::holds(trace[0], seen),
    ensures
        kv_cache::shows_same(trace[0], trace.last(), seen),
    decreases trace.len(),
{
    if trace.len() > 1 {
        let before = trace.drop_last();
        assert forall|i: int| 0 <= i < before.len() - 1 implies keeps_views(#[trigger] before[i], before[i + 1]) by {
            assert(keeps_views(trace[i], trace[i + 1]));
        }
        law_abandoned_pass_changes_no_view(before, seen);
        let n = trace.len() - 2;
        assert(keeps_views(trace[n], trace[n + 1]));
        assert(kv_cache::shows_same(trace[n], trace[n + 1], seen));
    }
}

/// Row `q` can append to what it has.
pub open spec fn can_append<T>(
    b: Seq<BlockView<T>>,
    previous: Seq<Option<KvCache>>,
    k: Seq<KvChunk<T>>,
    v: Seq<KvChunk<T>>,
    limit: usize,
    q: int,
) -> bool {
    kv_cache::holds_previous(b, previous[q]) && kv_cache::append_error(b, previous[q], k[q], v[q], limit) is None
}

/// What row `q` shows after the first `n` rows appended: its own old positions
/// and then its own new ones.
pub open spec fn row_appended<T>(
    b: Seq<BlockView<T>>,
    previous: Seq<Option<KvCache>>,
    k: Seq<KvChunk<T>>,
    v: Seq<KvChunk<T>>,
    limit: nat,
    zero: T,
    n: nat,
    q: int,
) -> bool {
    let after = pass::attended(b, previous, k, v, limit, zero, n);
    let cache = pass::attended_cache(b, previous, k, v, limit, zero, q);
    &&& kv_cache::holds(after, cache)
    &&& kv_cache::keys(after, cache) == kv_cache::previous_keys(b, previous[q]) + k[q].rows@
    &&& kv_cache::values(after, cache) == kv_cache::previous_values(b, previous[q]) + v[q].rows@
    &&& after[cache.storage as int].format == k[q].format
}

pub(crate) proof fn lemma_attended<T>(
    b: Seq<BlockView<T>>,
    previous: Seq<Option<KvCache>>,
    k: Seq<KvChunk<T>>,
    v: Seq<KvChunk<T>>,
    limit: usize,
    zero: T,
    n: nat,
)
    requires
        kv_cache::blocks_wf(b),
        b.len() + n <= usize::MAX,
        forall|q: int| 0 <= q < n ==> #[trigger] can_append(b, previous, k, v, limit, q),
    ensures
        ({
            let after = pass::attended(b, previous, k, v, limit as nat, zero, n);
            &&& kv_cache::blocks_wf(after)
            &&& b.len() <= after.len() <= b.len() + n
            &&& forall|i: int| 0 <= i < b.len() ==> (#[trigger] after[i]).format == b[i].format
            &&& keeps_views(b, after)
        }),
        forall|q: int| 0 <= q < n ==> #[trigger] row_appended(b, previous, k, v, limit as nat, zero, n, q),
    decreases n,
{
    if n == 0 {
        assert forall|c: KvCache| kv_cache::holds(b, c) implies #[trigger] kv_cache::shows_same(b, b, c) by {}
    } else {
        let m = (n - 1) as nat;
        let r = n - 1;
        assert forall|q: int| 0 <= q < m implies #[trigger] can_append(b, previous, k, v, limit, q) by {}
        lemma_attended(b, previous, k, v, limit, zero, m);
        let mid = pass::attended(b, previous, k, v, limit as nat, zero, m);
        let after = pass::attended(b, previous, k, v, limit as nat, zero, n);
        assert(can_append(b, previous, k, v, limit, r));
        if previous[r] is Some {
            assert(kv_cache::shows_same(b, mid, previous[r]->0));
        }
        kv_cache::lemma_appended(mid, previous[r], k[r], v[r], limit, zero);
        assert forall|i: int| 0 <= i < b.len() implies (#[trigger] after[i]).format == b[i].format by {
            kv_cache::lemma_formats_stay(mid, previous[r], k[r], v[r], limit as nat, zero, i);
            assert(mid[i].format == b[i].format);
        }
        assert forall|c: KvCache| kv_cache::holds(b, c) implies #[trigger] kv_cache::shows_same(b, after, c) by {
            assert(kv_cache::shows_same(b, mid, c));
            assert(kv_cache::shows_same(mid, after, c));
        }
        assert forall|q: int| 0 <= q < n implies #[trigger] row_appended(b, previous, k, v, limit as nat, zero, n, q) by {
            let cache = pass::attended_cache(b, previous, k, v, limit as nat, zero, q);
            if q < m {
                assert(row_appended(b, previous, k, v, limit as nat, zero, m, q));
                assert(kv_cache::shows_same(mid, after, cache));
                kv_cache::lemma_formats_stay(mid, previous[r], k[r], v[r], limit as nat, zero, cache.storage as int);
            }
        }
    }
}

proof fn lemma_attend_accepts<T>(
    b: Seq<BlockView<T>>,
    p: PassView,
    layer: int,
    k: Seq<KvChunk<T>>,
    v: Seq<KvChunk<T>>,
    n: nat,
    q: int,
)
    requires
        pass::attend_error(b, p, layer, k, v, n) is None,
        0 <= q < n,
    ensures
        kv_cache::append_error(b, p.kv_of(layer)[q], k[q], v[q], p.limit) is None,
    decreases n,
{
    if q < n - 1 {
        lemma_attend_accepts(b, p, layer, k, v, (n - 1) as nat, q);
    }
}

/// Law: a batch is as many single steps. An attention step over several rows is
/// accepted for a row exactly as it would be alone, and gives the row the keys
/// and values that it would get alone, whatever the other rows are and however
/// they share prefixes.
pub proof fn law_batched_attention_matches_single_rows<T>(
    b: Seq<BlockView<T>>,
    p: PassView,
    layer: int,
    k: Seq<KvChunk<T>>,
    v: Seq<KvChunk<T>>,
    zero: T,
    r: int,
    together: KvCache,
    alone: KvCache,
)
    requires
        kv_cache::blocks_wf(b),
        b.len() + p.rows.len() <= usize::MAX,
        forall|q: int| 0 <= q < p.rows.len() ==> 0 <= layer < (#[trigger] p.rows[q]).kv.len(),
        p.kv_held(b),
        pass::attend_error(b, p, layer, k, v, p.rows.len()) is None,
        0 <= r < p.rows.len(),
        together == pass::attended_cache(b, p.kv_of(layer), k, v, p.limit as nat, zero, r),
        alone.storage == kv_cache::appended_storage(b, p.kv_of(layer)[r], k[r]),
        alone.len == kv_cache::previous_len(p.kv_of(layer)[r]) + k[r].rows@.len(),
    ensures
        ({
            let all = pass::attended(b, p.kv_of(layer), k, v, p.limit as nat, zero, p.rows.len());
            let one = kv_cache::appended_blocks(b, p.kv_of(layer)[r], k[r], v[r], p.limit as nat, zero);
            &&& kv_cache::append_error(b, p.kv_of(layer)[r], k[r], v[r], p.limit) is None
            &&& together.len == alone.len
            &&& kv_cache::keys(all, together) == kv_cache::keys(one, alone)
            &&& kv_cache::values(all, together) == kv_cache::values(one, alone)
        }),
{
    let previous = p.kv_of(layer);
    assert forall|q: int| 0 <= q < p.rows.len() implies #[trigger] can_append(b, previous, k, v, p.limit, q) by {
        lemma_attend_accepts(b, p, layer, k, v, p.rows.len(), q);
        assert(pass::state_kv_held(p.rows[q], b));
    }
    lemma_attended(b, previous, k, v, p.limit, zero, p.rows.len());
    assert(can_append(b, previous, k, v, p.limit, r));
    assert(row_appended(b, previous, k, v, p.limit as nat, zero, p.rows.len(), r));
    kv_cache::lemma_appended(b, previous[r], k[r], v[r], p.limit, zero);
}

/// Law: a convolution step over several rows gives each row the windows and the
/// history that it would get alone.
pub proof fn law_batched_convolution_matches_single_rows<C>(
    t: Seq<Seq<Seq<C>>>,
    states: Seq<Option<ConvState>>,
    inputs: Seq<Seq<C>>,
    zero: C,
    k: nat,
    r: int,
)
    requires
        states.len() == inputs.len(),
        0 <= r < states.len(),
    ensures
        conv::gathered(t, states, zero, k)[r] == conv::gathered(t, seq![states[r]], zero, k)[0],
        conv::advanced_rows(conv::gathered(t, states, zero, k), inputs)[r] == conv::advanced_rows(
            conv::gathered(t, seq![states[r]], zero, k),
            seq![inputs[r]],
        )[0],
        conv::windows(conv::gathered(t, states, zero, k)[r], inputs[r], k) == conv::windows(
            conv::gathered(t, seq![states[r]], zero, k)[0],
            seq![inputs[r]][0],
            k,
        ),
{
}

/// Law: every row of a batch runs the program that it would run alone, from its
/// own position, and the batch is accepted exactly when every row would be.
pub proof fn law_batch_runs_each_row_alike(model: ModelView, tokens: Seq<u32>, states: Seq<StateView>, r: int)
    requires
        tokens.len() == states.len(),
        0 <= r < tokens.len(),
    ensures
        pass::started(model, states, 1, false, Set::empty()).program == pass::started(
            model,
            seq![states[r]],
            1,
            false,
            Set::empty(),
        ).program,
        pass::started(model, states, 1, false, Set::empty()).pos[r] == states[r].len,
        pass::batch_error(model, tokens, states) is None ==> pass::run_error(model, seq![tokens[r]], states[r]) is None,
        pass::batch_error(model, tokens, states) is None <==> forall|q: int|
            0 <= q < tokens.len() ==> pass::row_error(model, #[trigger] tokens[q], states[q], q) is None,
{
    lemma_rows_accepted(model, tokens, states, tokens.len());
    if pass::batch_error(model, tokens, states) is None {
        assert(pass::row_error(model, tokens[r], states[r], r) is None);
        assert(seq![tokens[r]][0] == tokens[r]);
    }
}

proof fn lemma_rows_accepted(model: ModelView, tokens: Seq<u32>, states: Seq<StateView>, n: nat)
    requires
        n <= tokens.len(),
    ensures
        pass::rows_error(model, tokens, states, n) is None <==> forall|q: int|
            0 <= q < n ==> pass::row_error(model, #[trigger] tokens[q], states[q], q) is None,
    decreases n,
{
    if n > 0 {
        lemma_rows_accepted(model, tokens, states, (n - 1) as nat);
        if pass::row_error(model, tokens[n - 1], states[n - 1], n - 1) is Some {
            assert(!(forall|q: int| 0 <= q < n ==> pass::row_error(model, #[trigger] tokens[q], states[q], q) is None));
        }
    }
}

/// Every attention layer of the state holds exactly its length in positions.
pub open spec fn settled(model: ModelView, s: StateView) -> bool {
    &&& pass::state_fits(model, s)
    &&& forall|i: int|
        0 <= i < model.layers.len() && (#[trigger] model.layers[i]).operator is Attention ==> kv_cache::previous_len(
            s.kv[i],
        ) == s.len
}

/// The attention step of `layer` is among the first `at` steps.
pub open spec fn attended_by(p: Seq<Action>, at: int, layer: int) -> bool {
    exists|j: int| 0 <= j < at && #[trigger] p[j] == (Action::Attend { layer: layer as usize })
}

/// Attention layers hold the new positions exactly when their step is done.
pub open spec fn in_step(model: ModelView, p: PassView) -> bool {
    forall|r: int, i: int|
        0 <= r < p.rows.len() && 0 <= i < model.layers.len() && (#[trigger] model.layers[i]).operator is Attention
            ==> kv_cache::previous_len((#[trigger] p.rows[r]).kv[i]) == p.pos[r] + (if attended_by(
            p.program,
            p.at as int,
            i,
        ) {
            p.seq as int
        } else {
            0
        })
}

/// Law: a new state is settled.
pub proof fn law_new_states_are_settled(model: ModelView)
    ensures
        settled(model, model::empty_state(model)),
{
}

/// Law: a pass started from settled states is in step.
pub proof fn law_started_pass_is_in_step(
    model: ModelView,
    states: Seq<StateView>,
    seq: nat,
    observed: bool,
    steered: Set<usize>,
)
    requires
        forall|r: int| 0 <= r < states.len() ==> settled(model, #[trigger] states[r]),
    ensures
        in_step(model, pass::started(model, states, seq, observed, steered)),
{
    let p = pass::started(model, states, seq, observed, steered);
    assert forall|r: int, i: int|
        0 <= r < p.rows.len() && 0 <= i < model.layers.len() && (
        #[trigger] model.layers[i]).operator is Attention implies kv_cache::previous_len((#[trigger] p.rows[r]).kv[i])
        == p.pos[r] by {
        assert(settled(model, states[r]));
    }
}

/// The attention steps of a program: one per attention layer, none twice.
proof fn lemma_attend_steps(model: ModelView, observed: bool, steered: Set<usize>, j: int)
    requires
        model.layers.len() <= usize::MAX,
        0 <= j < pass::spec_program(model.layers, observed, steered).len(),
        pass::spec_program(model.layers, observed, steered)[j] is Attend,
    ensures
        ({
            let layer = pass::spec_program(model.layers, observed, steered)[j]->Attend_layer as int;
            &&& layer < model.layers.len()
            &&& model.layers[layer].operator is Attention
            &&& j == pass::opening(observed).len() + layer_steps(observed) * layer + 1
        }),
{
    let n = model.layers.len();
    let w = layer_steps(observed);
    let o = pass::opening(observed).len();
    let body = pass::layers_program(model.layers, observed, steered, n);
    let p = pass::spec_program(model.layers, observed, steered);
    if o <= j < o + body.len() {
        lemma_layer_step(model.layers, observed, steered, n, j - o);
        assert(p[j] == body[j - o]);
        let q = (j - o) / w;
        assert((j - o) % w == 1);
        assert(j - o == w * q + 1) by {
            if observed {
                assert(j - o == 7 * ((j - o) / 7) + (j - o) % 7);
            } else {
                assert(j - o == 6 * ((j - o) / 6) + (j - o) % 6);
            }
        }
    } else if j < o {
        assert(p[j] == pass::opening(observed)[j]);
    } else {
        assert(p[j] == pass::closing()[j - o - body.len()]);
    }
}

proof fn lemma_attention_layer_has_step(model: ModelView, observed: bool, steered: Set<usize>, i: int)
    requires
        model.layers.len() <= usize::MAX,
        0 <= i < model.layers.len(),
        model.layers[i].operator is Attention,
    ensures
        attended_by(
            pass::spec_program(model.layers, observed, steered),
            pass::spec_program(model.layers, observed, steered).len() as int,
            i,
        ),
{
    let n = model.layers.len();
    let w = layer_steps(observed);
    let o = pass::opening(observed).len();
    let body = pass::layers_program(model.layers, observed, steered, n);
    let p = pass::spec_program(model.layers, observed, steered);
    let j = w * i + 1;
    lemma_layers_len(model.layers, observed, steered, n);
    assert(j < w * n && j / w == i && j % w == 1) by {
        if observed {
            assert((7 * i + 1) / 7 == i && (7 * i + 1) % 7 == 1);
        } else {
            assert((6 * i + 1) / 6 == i && (6 * i + 1) % 6 == 1);
        }
    }
    lemma_layer_step(model.layers, observed, steered, n, j);
    assert(p[o + j] == body[j]);
    assert(p[o + j] == (Action::Attend { layer: i as usize }));
}

/// Law: in a pass that is in step, the positions always match when an
/// attention step is due, so that check never refuses a row.
pub proof fn law_positions_match_when_attention_is_due(
    model: ModelView,
    p: PassView,
    observed: bool,
    steered: Set<usize>,
    r: int,
)
    requires
        model.layers.len() <= usize::MAX,
        p.program == pass::spec_program(model.layers, observed, steered),
        in_step(model, p),
        p.action() is Some,
        p.action()->0 is Attend,
        0 <= r < p.rows.len(),
    ensures
        kv_cache::previous_len(p.kv_of(p.action()->0->Attend_layer as int)[r]) == p.pos[r],
{
    let layer = p.action()->0->Attend_layer as int;
    lemma_attend_steps(model, observed, steered, p.at as int);
    if attended_by(p.program, p.at as int, layer) {
        let j = choose|j: int| 0 <= j < p.at && #[trigger] p.program[j] == (Action::Attend { layer: layer as usize });
        lemma_attend_steps(model, observed, steered, j);
    }
    assert(model.layers[layer].operator is Attention);
    assert(p.rows[r].kv[layer] == p.kv_of(layer)[r]);
}

/// Law: steps that append no keys keep a pass in step.
pub proof fn law_other_steps_stay_in_step(model: ModelView, p: PassView, q: PassView)
    requires
        in_step(model, p),
        p.action() is Some,
        !(p.action()->0 is Attend),
        q.program == p.program,
        q.at == p.at + 1,
        q.pos == p.pos,
        q.seq == p.seq,
        q.rows.len() == p.rows.len(),
        forall|r: int| 0 <= r < p.rows.len() ==> (#[trigger] q.rows[r]).kv == p.rows[r].kv,
    ensures
        in_step(model, q),
{
    assert forall|r: int, i: int|
        0 <= r < q.rows.len() && 0 <= i < model.layers.len() && (
        #[trigger] model.layers[i]).operator is Attention implies kv_cache::previous_len((#[trigger] q.rows[r]).kv[i])
        == q.pos[r] + (if attended_by(q.program, q.at as int, i) {
        q.seq as int
    } else {
        0
    }) by {
        lemma_attended_later(p.program, p.at as int, i);
        assert(p.rows[r].kv[i] == q.rows[r].kv[i]);
    }
}

proof fn lemma_attended_later(p: Seq<Action>, at: int, layer: int)
    requires
        0 <= at < p.len(),
    ensures
        attended_by(p, at + 1, layer) == (attended_by(p, at, layer) || p[at] == (Action::Attend {
            layer: layer as usize,
        })),
{
    if attended_by(p, at + 1, layer) {
        let j = choose|j: int| 0 <= j < at + 1 && #[trigger] p[j] == (Action::Attend { layer: layer as usize });
        if j < at {
            assert(attended_by(p, at, layer));
        }
    }
    if attended_by(p, at, layer) {
        let j = choose|j: int| 0 <= j < at && #[trigger] p[j] == (Action::Attend { layer: layer as usize });
        assert(0 <= j < at + 1 && p[j] == (Action::Attend { layer: layer as usize }));
    }
}

/// Law: an attention step that succeeds keeps a pass in step.
pub proof fn law_attention_stays_in_step(model: ModelView, p: PassView, layer: int, caches: Seq<KvCache>)
    requires
        p.wf(),
        in_step(model, p),
        model.layers.len() <= usize::MAX,
        p.action() is Some,
        p.action()->0 == (Action::Attend { layer: layer as usize }),
        0 <= layer < model.layers.len(),
        forall|r: int| 0 <= r < p.rows.len() ==> pass::state_fits(model, #[trigger] p.rows[r]),
        caches.len() == p.rows.len(),
        forall|r: int| 0 <= r < caches.len() ==> (#[trigger] caches[r]).len == p.pos[r] + p.seq,
    ensures
        in_step(model, pass::attended_pass(p, layer, caches)),
{
    let q = pass::attended_pass(p, layer, caches);
    assert forall|r: int, i: int|
        0 <= r < q.rows.len() && 0 <= i < model.layers.len() && (
        #[trigger] model.layers[i]).operator is Attention implies kv_cache::previous_len((#[trigger] q.rows[r]).kv[i])
        == q.pos[r] + (if attended_by(q.program, q.at as int, i) {
        q.seq as int
    } else {
        0
    }) by {
        lemma_attended_later(p.program, p.at as int, i);
        assert(pass::state_fits(model, p.rows[r]));
        assert(q.rows[r] == pass::with_kv(p.rows[r], layer, caches[r]));
        if i == layer {
            assert(q.rows[r].kv[i] == Some(caches[r]));
        } else {
            assert(q.rows[r].kv[i] == p.rows[r].kv[i]);
            assert(kv_cache::previous_len(p.rows[r].kv[i]) == p.pos[r] + (if attended_by(p.program, p.at as int, i) {
                p.seq as int
            } else {
                0
            }));
        }
    }
}

/// Law: what a finished pass commits is settled again, so the next pass starts
/// where this one ended.
pub proof fn law_committed_states_are_settled(
    model: ModelView,
    p: PassView,
    observed: bool,
    steered: Set<usize>,
    r: int,
)
    requires
        model.layers.len() <= usize::MAX,
        p.wf(),
        p.program == pass::spec_program(model.layers, observed, steered),
        in_step(model, p),
        p.finished(),
        0 <= r < p.rows.len(),
        pass::state_fits(model, p.rows[r]),
    ensures
        settled(model, pass::committed(p.rows[r], p.seq)),
        pass::committed(p.rows[r], p.seq).len == p.pos[r] + p.seq,
        pass::committed(p.rows[r], p.seq).len <= p.limit,
{
    assert(p.rows[r].len == p.pos[r]);
    assert forall|i: int| 0 <= i < model.layers.len() && (
    #[trigger] model.layers[i]).operator is Attention implies kv_cache::previous_len(p.rows[r].kv[i]) == p.pos[r]
        + p.seq by {
        lemma_attention_layer_has_step(model, observed, steered, i);
    }
}

/// Law: a forward's embeddings and residual streams are `(1, seq, hidden)`, its
/// logits `(1, vocab)`, and a router's logits, ids and weights `(seq, experts)`
/// and `(seq, topk)`; a batch gives logits `(batch, vocab)`.
pub proof fn law_shapes_of_a_pass(
    model: ModelView,
    state: StateView,
    states: Seq<StateView>,
    seq: nat,
    observed: bool,
    steered: Set<usize>,
    layer: int,
)
    requires
        0 < seq <= usize::MAX,
        states.len() <= usize::MAX,
        0 <= layer < model.layers.len(),
    ensures
        ({
            let p = pass::started(model, seq![state], seq, observed, steered);
            let batch = pass::started(model, states, 1, false, Set::empty());
            &&& pass::stream_dims(model, p) == seq![1usize, seq as usize, model.config.hidden]
            &&& pass::logits_dims(model, p) == seq![1usize, model.config.vocab]
            &&& pass::logits_dims(model, batch) == seq![states.len() as usize, model.config.vocab]
            &&& model.layers[layer].ffn matches FeedForward::Moe(m) ==> {
                &&& pass::router_dims(p, m.bias.experts) == seq![seq as usize, m.bias.experts]
                &&& pass::router_dims(p, m.topk) == seq![seq as usize, m.topk]
            }
        }),
{
    let p = pass::started(model, seq![state], seq, observed, steered);
    assert(p.rows.len() == 1);
    assert(1 * p.seq == p.seq) by (nonlinear_arith);
}

/// Law: every position that a pass turns its queries and keys by lies in the
/// context, and the mask of its rows has an entry for each.
pub proof fn law_positions_lie_in_the_context(p: PassView, r: int, t: int)
    requires
        p.wf(),
        0 <= r < p.rows.len(),
        0 <= t < p.seq,
    ensures
        0 <= p.pos[r] + t < p.limit,
        p.pos[r] + p.seq <= p.limit,
{
    assert(p.rows[r].len == p.pos[r]);
}

/// Law: reading the last layer's residual stream takes the very steps with
/// which every pass ends.
pub proof fn law_projection_is_the_end_of_a_pass(layers: Seq<Layer>, observed: bool, steered: Set<usize>)
    ensures
        ({
            let p = pass::spec_program(layers, observed, steered);
            p.skip(p.len() - 2) == pass::closing()
        }),
        observed && layers.len() > 0 ==> ({
            let p = pass::spec_program(layers, observed, steered);
            p[p.len() - 3] == (Action::TapResidual { layer: (layers.len() - 1) as usize })
        }),
{
    let p = pass::spec_program(layers, observed, steered);
    assert(p.skip(p.len() - 2) =~= pass::closing());
    if observed && layers.len() > 0 {
        let n = layers.len();
        let body = pass::layers_program(layers, observed, steered, n);
        assert(p[p.len() - 3] == body[body.len() - 1]);
        let last = pass::layer_program(layers[n - 1], n - 1, observed, steered.contains((n - 1) as usize));
        assert(body[body.len() - 1] == last[last.len() - 1]);
    }
}

/// Law: a pass embeds, runs the layers in order and ends in the final norm and
/// the output projection. Each layer norms, attends where it has attention and
/// convolves elsewhere, adds that to the stream, norms again, runs its dense
/// feed-forward or its experts, and adds that too. An observed pass shows the
/// embeddings and the stream that leaves each layer, and nothing else is done.
pub proof fn law_programs_run_the_layers_in_order(layers: Seq<Layer>, observed: bool, steered: Set<usize>, i: int)
    requires
        0 <= i < layers.len() <= usize::MAX,
    ensures
        ({
            let p = pass::spec_program(layers, observed, steered);
            let first = if observed { 2int } else { 1 };
            let width = if observed { 7int } else { 6 };
            let at = first + i * width;
            let layer = i as usize;
            &&& p.len() == first + layers.len() * width + 2
            &&& p[0] == Action::Embed
            &&& observed ==> p[1] == Action::TapEmbedding
            &&& p[at] == (Action::Norm { layer })
            &&& layers[i].operator is Attention ==> p[at + 1] == (Action::Attend { layer })
            &&& layers[i].operator is Conv ==> p[at + 1] == (Action::Convolve { layer })
            &&& p[at + 2] == (Action::AddOperator { layer })
            &&& p[at + 3] == (Action::FfnNorm { layer })
            &&& layers[i].ffn is Dense ==> p[at + 4] == (Action::Dense { layer })
            &&& layers[i].ffn is Moe ==> p[at + 4] == (Action::Experts {
                layer,
                steered: steered.contains(layer),
                tapped: observed,
            })
            &&& p[at + 5] == (Action::AddFeedForward { layer })
            &&& observed ==> p[at + 6] == (Action::TapResidual { layer })
            &&& p[p.len() - 2] == Action::FinalNorm
            &&& p[p.len() - 1] == Action::Output
        }),
{
    let p = pass::spec_program(layers, observed, steered);
    let n = layers.len();
    let body = pass::layers_program(layers, observed, steered, n);
    let first = if observed { 2int } else { 1 };
    let w = layer_steps(observed);
    lemma_layers_len(layers, observed, steered, n);
    assert(w * n == n * w) by (nonlinear_arith);
    assert(p.len() == first + body.len() + 2);
    let start = i * w;
    assert(0 <= start && start + w <= body.len()) by (nonlinear_arith)
        requires
            start == i * w,
            body.len() == w * n,
            0 <= i < n,
            w > 0,
    ;
    assert forall|j: int| 0 <= j < w implies #[trigger] body[start + j] == pass::layer_program(
        layers[i],
        i,
        observed,
        steered.contains(i as usize),
    )[j] by {
        vstd::arithmetic::div_mod::lemma_fundamental_div_mod_converse(start + j, w, i, j);
        lemma_layer_step(layers, observed, steered, n, start + j);
    }
    assert(p[first + start] == body[start + 0]);
    assert(p[first + start + 1] == body[start + 1]);
    assert(p[first + start + 2] == body[start + 2]);
    assert(p[first + start + 3] == body[start + 3]);
    assert(p[first + start + 4] == body[start + 4]);
    assert(p[first + start + 5] == body[start + 5]);
    if observed {
        assert(p[first + start + 6] == body[start + 6]);
    }
    assert(p[p.len() - 2] == pass::closing()[0] && p[p.len() - 1] == pass::closing()[1]);
}

/// Law: a sequence goes on exactly when its state was made by this instance with
/// a slot per layer, there is a token, the context holds all of them, and the
/// vocabulary each. A foreign state is refused first, then the length, then the
/// first bad token.
pub proof fn law_sequences_are_refused_for(model: ModelView, tokens: Seq<u32>, state: StateView)
    ensures
        ({
            let e = pass::run_error(model, tokens, state);
            let own = state.owner == model.owner && state.kv.len() == model.layers.len() && state.conv.len()
                == model.layers.len();
            let counted = state.len + tokens.len() <= usize::MAX;
            let fits = 1 <= tokens.len() && state.len + tokens.len() <= model.config.context;
            let known = forall|i: int| 0 <= i < tokens.len() ==> #[trigger] tokens[i] < model.config.vocab;
            &&& e is None <==> own && fits && known
            &&& e == Some(RunError::Foreign) <==> !own
            &&& e == Some(RunError::ContextOverflow) <==> own && !counted
            &&& e == Some(RunError::EmptyOrLimit) <==> own && counted && !fits
            &&& e == Some(RunError::Vocabulary) <==> own && fits && !known
        }),
{
    let known = forall|i: int| 0 <= i < tokens.len() ==> #[trigger] tokens[i] < model.config.vocab;
    if !known {
        let i = choose|i: int| 0 <= i < tokens.len() && !(#[trigger] tokens[i] < model.config.vocab);
        assert(tokens[i] >= model.config.vocab);
    }
}

/// Law: a batch goes on exactly when it has a token and a state per row and
/// every row could go on alone; otherwise the first row that could not is named,
/// with what is wrong with it.
pub proof fn law_batches_are_refused_for(model: ModelView, tokens: Seq<u32>, states: Seq<StateView>, i: int)
    requires
        tokens.len() <= usize::MAX,
        states.len() <= usize::MAX,
    ensures
        tokens.len() == 0 ==> pass::batch_error(model, tokens, states) == Some(RunError::EmptyBatch),
        tokens.len() > 0 && states.len() != tokens.len() ==> pass::batch_error(model, tokens, states) == Some(
            RunError::BatchLength { tokens: tokens.len() as usize, states: states.len() as usize },
        ),
        0 < tokens.len() == states.len() && 0 <= i < tokens.len() && (forall|j: int|
            0 <= j < i ==> row_goes_on(model, #[trigger] tokens[j], states[j])) && !row_goes_on(model, tokens[i], states[i])
            ==> pass::batch_error(model, tokens, states) == Some(
            if !model.owns(states[i]) {
                RunError::RowForeign(i as usize)
            } else if states[i].len >= model.config.context {
                RunError::RowContextLimit(i as usize)
            } else {
                RunError::RowVocabulary(i as usize)
            },
        ),
        0 < tokens.len() == states.len() && (forall|j: int|
            0 <= j < tokens.len() ==> row_goes_on(model, #[trigger] tokens[j], states[j])) ==> pass::batch_error(
            model,
            tokens,
            states,
        ) is None,
{
    if 0 < tokens.len() == states.len() {
        if forall|j: int| 0 <= j < tokens.len() ==> row_goes_on(model, #[trigger] tokens[j], states[j]) {
            lemma_first_bad_row(model, tokens, states, tokens.len() as int, tokens.len());
        }
        if 0 <= i < tokens.len() && (forall|j: int| 0 <= j < i ==> row_goes_on(model, #[trigger] tokens[j], states[j]))
            && !row_goes_on(model, tokens[i], states[i]) {
            lemma_first_bad_row(model, tokens, states, i, tokens.len());
        }
    }
}

/// A row of a batch can take one more token.
pub open spec fn row_goes_on(model: ModelView, token: u32, state: StateView) -> bool {
    &&& state.owner == model.owner
    &&& state.kv.len() == model.layers.len()
    &&& state.conv.len() == model.layers.len()
    &&& state.len + 1 <= model.config.context
    &&& token < model.config.vocab
}

proof fn lemma_first_bad_row(model: ModelView, tokens: Seq<u32>, states: Seq<StateView>, i: int, n: nat)
    requires
        n <= tokens.len(),
        tokens.len() == states.len(),
        0 <= i,
        forall|j: int| 0 <= j < i && j < n ==> row_goes_on(model, #[trigger] tokens[j], states[j]),
        i < n ==> !row_goes_on(model, tokens[i], states[i]),
    ensures
        i >= n ==> pass::rows_error(model, tokens, states, n) is None,
        i < n ==> pass::rows_error(model, tokens, states, n) == pass::row_error(model, tokens[i], states[i], i),
    decreases n,
{
    if n > 0 {
        lemma_first_bad_row(model, tokens, states, i, (n - 1) as nat);
        if i >= n {
            assert(row_goes_on(model, tokens[n - 1], states[n - 1]));
        }
    }
}

/// Law: a pass starts with no step done, from the states as they are and the
/// positions where they stand, within the model's context.
pub proof fn law_passes_start_where_states_stand(
    model: ModelView,
    states: Seq<StateView>,
    seq: nat,
    observed: bool,
    steered: Set<usize>,
    r: int,
)
    requires
        0 < seq <= usize::MAX,
        0 <= r < states.len(),
    ensures
        ({
            let p = pass::started(model, states, seq, observed, steered);
            &&& p.at == 0
            &&& !p.failed
            &&& !p.finished()
            &&& p.action() == Some(Action::Embed)
            &&& p.rows == states
            &&& p.pos.len() == states.len()
            &&& p.pos[r] == states[r].len
            &&& p.seq == seq
            &&& p.limit == model.config.context
            &&& p.kernel == model.config.kernel
        }),
{
    let p = pass::started(model, states, seq, observed, steered);
    assert(p.program[0] == pass::opening(observed)[0]);
}

/// Law: the next step is due until every step is done or one was refused, and
/// a pass is finished exactly when the first is the case.
pub proof fn law_steps_are_due_in_turn(p: PassView)
    requires
        p.at <= p.program.len(),
    ensures
        p.action() is None <==> p.failed || p.at == p.program.len(),
        p.action() matches Some(a) ==> a == p.program[p.at as int],
        p.finished() <==> !p.failed && p.action() is None,
        p.stepped().at == p.at + 1,
        p.stepped().program == p.program,
        p.stepped().rows == p.rows,
        p.stepped().pos == p.pos,
        p.stepped().seq == p.seq,
        p.stepped().limit == p.limit,
        p.stepped().kernel == p.kernel,
        p.stepped().failed == p.failed,
{
}

/// Law: attention gives each row its new view in the layer at hand, a
/// convolution its new history, and neither changes any other layer, row,
/// length or owner; committing adds the new positions to the length and
/// changes nothing else.
pub proof fn law_steps_change_only_their_layer(
    p: PassView,
    layer: int,
    caches: Seq<KvCache>,
    next: Seq<Option<ConvState>>,
    r: int,
    i: int,
)
    requires
        0 <= r < p.rows.len(),
        0 <= layer < p.rows[r].kv.len(),
        p.rows[r].conv.len() == p.rows[r].kv.len(),
        0 <= i < p.rows[r].kv.len(),
        p.rows[r].len + p.seq <= usize::MAX,
    ensures
        ({
            let (was, a, c) = (
                p.rows[r],
                pass::attended_pass(p, layer, caches).rows[r],
                pass::convolved_pass(p, layer, next).rows[r],
            );
            let done = pass::committed(was, p.seq);
            &&& a.kv.len() == was.kv.len() && c.conv.len() == was.conv.len()
            &&& a.kv[i] == (if i == layer { Some(caches[r]) } else { was.kv[i] })
            &&& c.conv[i] == (if i == layer { next[r] } else { was.conv[i] })
            &&& a.conv == was.conv && c.kv == was.kv
            &&& a.len == was.len && c.len == was.len
            &&& a.owner == was.owner && c.owner == was.owner
            &&& pass::attended_pass(p, layer, caches).at == p.at + 1
            &&& pass::convolved_pass(p, layer, next).at == p.at + 1
            &&& pass::attended_pass(p, layer, caches).rows.len() == p.rows.len()
            &&& pass::convolved_pass(p, layer, next).rows.len() == p.rows.len()
            &&& pass::attended_pass(p, layer, caches).pos == p.pos
            &&& pass::convolved_pass(p, layer, next).pos == p.pos
            &&& p.kv_of(layer)[r] == was.kv[layer]
            &&& p.conv_of(layer)[r] == was.conv[layer]
            &&& done.len == was.len + p.seq
            &&& done.kv == was.kv && done.conv == was.conv && done.owner == was.owner
        }),
{
}

/// Law: an attention step is refused for the first row whose keys do not end
/// where its sequence stood, or whose append is refused, with that reason; a
/// step without such a row is taken.
pub proof fn law_attention_is_refused_for<T>(
    b: Seq<BlockView<T>>,
    p: PassView,
    layer: int,
    k: Seq<KvChunk<T>>,
    v: Seq<KvChunk<T>>,
    i: int,
)
    requires
        0 <= i < p.rows.len(),
        forall|j: int| 0 <= j < i ==> #[trigger] row_appends(b, p, layer, k, v, j),
    ensures
        ({
            let stood = if p.rows[i].kv[layer] is Some { p.rows[i].kv[layer]->0.len as int } else { 0 };
            let e = pass::attend_error(b, p, layer, k, v, p.rows.len());
            let why = kv_cache::append_error(b, p.rows[i].kv[layer], k[i], v[i], p.limit);
            &&& stood != p.pos[i] ==> e == Some(RunError::KvPosition)
            &&& stood == p.pos[i] && why is Some ==> e == Some(RunError::Kv(why->0))
            &&& row_appends(b, p, layer, k, v, i) && i == p.rows.len() - 1 ==> e is None
        }),
{
    lemma_first_bad_append(b, p, layer, k, v, i, p.rows.len());
    if row_appends(b, p, layer, k, v, i) && i == p.rows.len() - 1 {
        assert forall|j: int| 0 <= j < p.rows.len() implies #[trigger] row_appends(b, p, layer, k, v, j) by {}
        lemma_first_bad_append(b, p, layer, k, v, p.rows.len() as int, p.rows.len());
    }
}

/// Row `r` stands where its keys end, and its append is not refused.
pub open spec fn row_appends<T>(
    b: Seq<BlockView<T>>,
    p: PassView,
    layer: int,
    k: Seq<KvChunk<T>>,
    v: Seq<KvChunk<T>>,
    r: int,
) -> bool {
    &&& p.pos[r] == (if p.rows[r].kv[layer] is Some { p.rows[r].kv[layer]->0.len as int } else { 0 })
    &&& kv_cache::append_error(b, p.rows[r].kv[layer], k[r], v[r], p.limit) is None
}

proof fn lemma_first_bad_append<T>(
    b: Seq<BlockView<T>>,
    p: PassView,
    layer: int,
    k: Seq<KvChunk<T>>,
    v: Seq<KvChunk<T>>,
    i: int,
    n: nat,
)
    requires
        n <= p.rows.len(),
        0 <= i,
        forall|j: int| 0 <= j < i && j < n ==> #[trigger] row_appends(b, p, layer, k, v, j),
    ensures
        i >= n ==> pass::attend_error(b, p, layer, k, v, n) is None,
        i < n && !row_appends(b, p, layer, k, v, i) ==> pass::attend_error(b, p, layer, k, v, n)
            == pass::attend_row_error(b, p.rows[i].kv[layer], p.pos[i], k[i], v[i], p.limit),
    decreases n,
{
    if n > 0 {
        lemma_first_bad_append(b, p, layer, k, v, i, (n - 1) as nat);
        if i >= n {
            assert(row_appends(b, p, layer, k, v, n - 1));
        }
    }
}

/// Law: a residual stream is read as logits exactly when it is `(1, seq,
/// hidden)`.
pub proof fn law_streams_are_read_for(model: ModelView, dims: Seq<usize>, seq: usize)
    ensures
        dims == seq![1usize, seq, model.config.hidden] ==> pass::project_error(model, dims) is None,
        pass::project_error(model, dims) is None ==> dims.len() == 3 && dims == seq![1usize, dims[1], model.config.hidden],
        pass::project_error(model, dims) matches Some(e) ==> e is Residual,
{
    if dims == seq![1usize, seq, model.config.hidden] {
        assert(dims.len() == 3 && dims[0] == 1 && dims[2] == model.config.hidden);
    }
    if pass::project_error(model, dims) is None {
        assert(dims =~= seq![1usize, dims[1], model.config.hidden]);
    }
}

/// Law: a new state belongs to its model, has no token, and nothing in any slot.
pub proof fn law_new_states_are_empty(model: ModelView, i: int)
    requires
        0 <= i < model.layers.len(),
    ensures
        ({
            let s = model::empty_state(model);
            &&& model.owns(s)
            &&& s.owner == model.owner
            &&& s.len == 0
            &&& s.kv.len() == model.layers.len() && s.conv.len() == model.layers.len()
            &&& s.kv[i] is None && s.conv[i] is None
        }),
{
}

/// Law: whatever a forward comes to, it begins a pass exactly when the state is
/// this instance's, there is a token, and context and vocabulary hold them all;
/// the pass is of one row, starts where the state stands, shows nothing unless
/// observed and replaces no bias.
pub proof fn law_forwards_begin(
    m: Model,
    tokens: Vec<u32>,
    state: State,
    plain: Result<Pass, RunError>,
    observed: Result<Pass, RunError>,
)
    requires
        call_ensures(Model::forward, (&m, &tokens, &state), plain),
        call_ensures(Model::forward_observed, (&m, &tokens, &state), observed),
    ensures
        ({
            let goes_on = state@.owner == m@.owner && state@.kv.len() == m@.layers.len() && state@.conv.len()
                == m@.layers.len() && 1 <= tokens@.len() && state@.len + tokens@.len() <= m@.config.context && (forall|i: int|
                0 <= i < tokens@.len() ==> #[trigger] tokens@[i] < m@.config.vocab);
            &&& plain is Ok <==> goes_on
            &&& observed is Ok <==> goes_on
            &&& plain matches Ok(p) ==> {
                &&& p@.rows == seq![state@] && p@.pos == seq![state@.len]
                &&& p@.seq == tokens@.len() && p@.limit == m@.config.context && p@.kernel == m@.config.kernel
                &&& p@.at == 0 && !p@.failed
                &&& p@.program.len() == 3 + 6 * m@.layers.len()
            }
            &&& observed matches Ok(p) ==> p@.program.len() == 4 + 7 * m@.layers.len() && p@.program[1]
                == Action::TapEmbedding
        }),
{
    law_sequences_are_refused_for(m@, tokens@, state@);
    let none = Set::<usize>::empty();
    lemma_layers_len(m@.layers, false, none, m@.layers.len());
    lemma_layers_len(m@.layers, true, none, m@.layers.len());
    if let Ok(p) = plain {
        assert(p@.pos =~= seq![state@.len]);
    }
    if let Ok(p) = observed {
        assert(p@.program[1] == pass::opening(true)[1]);
    }
}

/// Law: whatever a steered forward comes to, a replacement that does not fit is
/// refused before anything else; its experts run with a replaced bias in exactly
/// the layers that are named.
pub proof fn law_steered_forwards_replace_named_biases(
    m: Model,
    tokens: Vec<u32>,
    state: State,
    s: Steering,
    observed: bool,
    got: Result<Pass, RunError>,
    i: int,
)
    requires
        call_ensures(Model::forward_steered, (&m, &tokens, &state, &s, observed), got),
        0 <= i < m@.layers.len() <= usize::MAX,
    ensures
        got is Ok ==> steering::applies(m@, s@) && pass::run_error(m@, tokens@, state@) is None,
        !steering::applies(m@, s@) ==> got matches Err(RunError::Steering(_)),
        got matches Ok(p) ==> ({
            let at = if observed { 2 + 7 * i + 4 } else { 1 + 6 * i + 4 };
            m@.layers[i].ffn is Moe ==> p@.program[at] == (Action::Experts {
                layer: i as usize,
                steered: s@.dom().contains(i as usize),
                tapped: observed,
            })
        }),
{
    if let Ok(p) = got {
        law_programs_run_the_layers_in_order(m@.layers, observed, s@.dom(), i);
    }
}

/// Law: whatever a batch comes to, it begins a pass exactly when there is a row,
/// a state per token, and every row could go on; each row starts where its state
/// stands and takes one position.
pub proof fn law_batches_begin(m: Model, tokens: Vec<u32>, states: Vec<State>, got: Result<Pass, RunError>, r: int)
    requires
        call_ensures(Model::decode_batch, (&m, &tokens, &states), got),
        0 <= r < tokens@.len(),
        tokens@.len() <= usize::MAX,
        states@.len() <= usize::MAX,
    ensures
        states@.len() != tokens@.len() ==> got is Err,
        states@.len() == tokens@.len() && !row_goes_on(m@, tokens@[r], states@[r]@) ==> got is Err,
        states@.len() == tokens@.len() && (forall|j: int|
            0 <= j < tokens@.len() ==> row_goes_on(m@, #[trigger] tokens@[j], states@[j]@)) ==> got is Ok,
        got matches Ok(p) ==> {
            &&& p@.rows.len() == states@.len() && p@.rows[r] == states@[r]@ && p@.pos[r] == states@[r]@.len
            &&& p@.seq == 1
            &&& p@.program.len() == 3 + 6 * m@.layers.len()
        },
{
    let views = pass::state_views(states@);
    lemma_layers_len(m@.layers, false, Set::<usize>::empty(), m@.layers.len());
    if states@.len() == tokens@.len() {
        assert(views[r] == states@[r]@);
        if !row_goes_on(m@, tokens@[r], states@[r]@) {
            let first = lemma_some_first_bad_row(m@, tokens@, views, r);
            law_batches_are_refused_for(m@, tokens@, views, first);
        }
        if forall|j: int| 0 <= j < tokens@.len() ==> row_goes_on(m@, #[trigger] tokens@[j], states@[j]@) {
            assert forall|j: int| 0 <= j < tokens@.len() implies row_goes_on(m@, #[trigger] tokens@[j], views[j]) by {
                assert(views[j] == states@[j]@);
            }
            law_batches_are_refused_for(m@, tokens@, views, 0);
        }
    }
}

proof fn lemma_some_first_bad_row(model: ModelView, tokens: Seq<u32>, states: Seq<StateView>, r: int) -> (first: int)
    requires
        0 <= r < tokens.len(),
        tokens.len() == states.len(),
        !row_goes_on(model, tokens[r], states[r]),
    ensures
        0 <= first <= r,
        !row_goes_on(model, tokens[first], states[first]),
        forall|j: int| 0 <= j < first ==> row_goes_on(model, #[trigger] tokens[j], states[j]),
    decreases r,
{
    if exists|j: int| 0 <= j < r && !row_goes_on(model, #[trigger] tokens[j], states[j]) {
        let j = choose|j: int| 0 <= j < r && !row_goes_on(model, #[trigger] tokens[j], states[j]);
        lemma_some_first_bad_row(model, tokens, states, j)
    } else {
        r
    }
}

/// Law: whatever a pass is asked, it needs a mask exactly for more than one new
/// position, and its stream, logits and readings have the model's widths.
pub proof fn law_pass_dimensions(
    m: Model,
    p: Pass,
    masked: bool,
    stream: Vec<usize>,
    logits: Vec<usize>,
    dims: Vec<usize>,
    reading: Result<pass::Projection, RunError>,
)
    requires
        call_ensures(Pass::masked, (&p,), masked),
        call_ensures(Model::stream_dims, (&m, &p), stream),
        call_ensures(Model::logits_dims, (&m, &p), logits),
        call_ensures(Model::project, (&m, &dims), reading),
        p@.rows.len() <= usize::MAX,
    ensures
        masked <==> p@.seq >= 2,
        stream@.len() == 3 && stream@[0] == p@.rows.len() && stream@[1] == p@.seq && stream@[2] == m@.config.hidden,
        logits@.len() == 2 && logits@[0] == p@.rows.len() && logits@[1] == m@.config.vocab,
        reading is Ok <==> dims@.len() == 3 && dims@[0] == 1 && dims@[2] == m@.config.hidden,
        reading matches Ok(r) ==> {
            &&& r.steps@ == seq![Action::FinalNorm, Action::Output]
            &&& r.dims@.len() == 3 && r.dims@[0] == 1 && r.dims@[1] == dims@[1] && r.dims@[2] == m@.config.vocab
        },
{
    if let Ok(r) = reading {
        assert(r.steps@ =~= seq![Action::FinalNorm, Action::Output]);
    }
}

/// Law: whatever a commit does, a pass with a step left changes no state, and a
/// finished one moves each by the pass's positions and gives it the views and
/// histories that the pass came to.
pub proof fn law_commits_replace_all_or_nothing(p: Pass, states: &mut Vec<State>, told: bool, r: int)
    requires
        call_ensures(Pass::commit, (p, states), told),
        p@.wf(),
        0 <= r < p@.rows.len() == old(states)@.len(),
        old(states)@[r]@.len == p@.pos[r],
        p@.limit <= usize::MAX,
    ensures
        told <==> !p@.failed && p@.at == p@.program.len(),
        !told ==> final(states)@ == old(states)@,
        told ==> {
            &&& final(states)@.len() == old(states)@.len()
            &&& final(states)@[r]@.len == old(states)@[r]@.len + p@.seq
            &&& final(states)@[r]@.kv == p@.rows[r].kv
            &&& final(states)@[r]@.conv == p@.rows[r].conv
            &&& final(states)@[r]@.owner == p@.rows[r].owner
        },
{
    if told {
        let views = pass::state_views(final(states)@);
        assert(views.len() == p@.rows.len());
        assert(views[r] == final(states)@[r]@);
        assert(p@.rows[r].len == p@.pos[r]);
    }
}

/// Law: whatever an attention step gives, row `r`'s view in its layer shows what
/// it showed before and then its own new keys and values, and no other layer or
/// row changes; a refused step fails the pass and changes no row. Every view
/// that there was shows the same.
pub proof fn law_attended_rows_extend_their_views<T: Copy>(
    p: &mut Pass,
    store: &mut KvStore<T>,
    k: Vec<KvChunk<T>>,
    v: Vec<KvChunk<T>>,
    got: Result<Vec<KvCache>, RunError>,
    r: int,
    i: int,
    seen: KvCache,
)
    requires
        call_ensures(Pass::attend::<T>, (p, store, &k, &v), got),
        old(p)@.wf(),
        old(p)@.action() is Some,
        old(p)@.action()->0 is Attend,
        0 <= r < old(p)@.rows.len(),
        0 <= i < old(p)@.rows[r].kv.len(),
        kv_cache::holds(old(store)@, seen),
    ensures
        kv_cache::keys(final(store)@, seen) == kv_cache::keys(old(store)@, seen),
        kv_cache::values(final(store)@, seen) == kv_cache::values(old(store)@, seen),
        got is Err ==> final(p)@.failed && final(p)@.rows == old(p)@.rows && final(p)@.action() is None,
        got matches Ok(views) ==> ({
            let layer = old(p)@.action()->0->Attend_layer as int;
            let was = old(p)@.rows[r].kv[layer];
            &&& final(p)@.at == old(p)@.at + 1 && !final(p)@.failed
            &&& final(p)@.rows[r].kv[i] == (if i == layer { Some(views@[r]) } else { old(p)@.rows[r].kv[i] })
            &&& final(p)@.rows[r].conv == old(p)@.rows[r].conv && final(p)@.rows[r].len == old(p)@.rows[r].len
            &&& was matches Some(c) ==> kv_cache::keys(final(store)@, views@[r]) == kv_cache::keys(old(store)@, c)
                + k@[r].rows@ && kv_cache::values(final(store)@, views@[r]) == kv_cache::values(old(store)@, c) + v@[r].rows@
            &&& was is None ==> kv_cache::keys(final(store)@, views@[r]) == k@[r].rows@ && kv_cache::values(
                final(store)@,
                views@[r],
            ) == v@[r].rows@
        }),
{
    assert(kv_cache::shows_same(old(store)@, final(store)@, seen));
    if let Ok(views) = got {
        let layer = old(p)@.action()->0->Attend_layer as int;
        assert(pass::action_in(old(p)@.program[old(p)@.at as int], old(p)@.rows[r].kv.len()));
        assert(old(p)@.kv_of(layer)[r] == old(p)@.rows[r].kv[layer]);
        assert(views@[r] == views@[r]);
        assert(Seq::<T>::empty() + k@[r].rows@ =~= k@[r].rows@);
        assert(Seq::<T>::empty() + v@[r].rows@ =~= v@[r].rows@);
    }
}

/// Law: whatever a convolution step gives, row `r`'s windows are of its own
/// history and inputs, its history in this layer is the last inputs, and no other
/// layer, view or length changes.
pub proof fn law_convolved_rows_extend_their_histories<C: Copy>(
    p: &mut Pass,
    store: &mut conv::ConvStore<C>,
    inputs: Vec<Vec<C>>,
    got: Vec<Vec<Vec<C>>>,
    r: int,
    i: int,
)
    requires
        call_ensures(Pass::convolve::<C>, (p, store, &inputs), got),
        old(p)@.wf(),
        old(p)@.action() is Some,
        old(p)@.action()->0 is Convolve,
        0 <= r < old(p)@.rows.len() <= usize::MAX,
        inputs@.len() == old(p)@.rows.len(),
        0 <= i < old(p)@.rows[r].conv.len(),
        old(store)@.len() < usize::MAX,
    ensures
        ({
            let layer = old(p)@.action()->0->Convolve_layer as int;
            let k = old(p)@.kernel as nat;
            let was = conv::history(old(store)@, old(p)@.rows[r].conv[layer], old(store).spec_zero(), k);
            let now = final(p)@.rows[r].conv[layer];
            &&& final(p)@.at == old(p)@.at + 1 && final(p)@.failed == old(p)@.failed
            &&& now is Some
            &&& conv::history(final(store)@, now, old(store).spec_zero(), k) == conv::next_history(was, inputs@[r]@)
            &&& conv::views(got@[r]@) == conv::windows(was, inputs@[r]@, k)
            &&& i != layer ==> final(p)@.rows[r].conv[i] == old(p)@.rows[r].conv[i]
            &&& final(p)@.rows[r].kv == old(p)@.rows[r].kv && final(p)@.rows[r].len == old(p)@.rows[r].len
        }),
{
    let layer = old(p)@.action()->0->Convolve_layer as int;
    let k = old(p)@.kernel as nat;
    assert(pass::action_in(old(p)@.program[old(p)@.at as int], old(p)@.rows[r].conv.len()));
    let rows = conv::gathered(old(store)@, old(p)@.conv_of(layer), old(store).spec_zero(), k);
    assert(old(p)@.conv_of(layer)[r] == old(p)@.rows[r].conv[layer]);
    assert(rows[r] == conv::history(old(store)@, old(p)@.rows[r].conv[layer], old(store).spec_zero(), k));
    let new = conv::advanced_rows(rows, conv::views(inputs@));
    assert(new[r] == conv::next_history(rows[r], inputs@[r]@));
    assert(final(store)@[old(store)@.len() as int] == new);
    assert(conv::views(got@[r]@) == conv::windows(rows[r], inputs@[r]@, k));
}

/// Law: whatever an observer sees of a layer's routing, it has a row for every
/// position of every sequence: as many logits as experts, as many ids and
/// weights as experts are used; a layer without experts shows none. A model's
/// labels are its layers', one each.
pub proof fn law_routing_has_a_row_per_token(
    m: Model,
    p: Pass,
    layer: usize,
    shown: Option<pass::RoutingDims>,
    labels: Vec<layers::LayerInfo>,
)
    requires
        call_ensures(Model::routing_dims, (&m, &p, layer), shown),
        call_ensures(Model::layers, (&m,), labels),
        layer < m@.layers.len(),
        p@.rows.len() * p@.seq <= usize::MAX,
    ensures
        shown is Some <==> m@.layers[layer as int].ffn is Moe,
        shown matches Some(d) ==> ({
            let moe = m@.layers[layer as int].ffn->Moe_0;
            let tokens = p@.rows.len() * p@.seq;
            &&& d.logits@.len() == 2 && d.logits@[0] == tokens && d.logits@[1] == moe.bias.experts
            &&& d.ids@.len() == 2 && d.ids@[0] == tokens && d.ids@[1] == moe.topk
            &&& d.weights@ == d.ids@
        }),
        labels@.len() == m@.layers.len(),
        labels@[layer as int].attention <==> m@.layers[layer as int].operator is Attention,
        labels@[layer as int].experts is Some <==> m@.layers[layer as int].ffn is Moe,
{
    let (r, s) = (p@.rows.len() as int, p@.seq as int);
    assert(r * s >= 0) by (nonlinear_arith)
        requires
            r >= 0,
            s >= 0,
    ;
    assert(labels@[layer as int] == m@.layers[layer as int].spec_info());
}

} // verus!
