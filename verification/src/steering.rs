//! Replacement selection biases for chosen expert layers, for one call.
//!
//! A router chooses its experts by score plus bias and weights them by score
//! alone, so a replaced bias can knock an expert out, force it in or nudge it,
//! and never changes how a chosen expert is weighted. Layers that are not named
//! keep their own bias.

use vstd::prelude::*;
use vstd::std_specs::btree::*;
use vstd::std_specs::cmp::OrdSpec;
use vstd::std_specs::iter::IteratorSpec;
use std::collections::BTreeMap;
use crate::conv::copied;
use crate::layers::RouterBias;
use crate::model::{Model, ModelView};
use crate::tensor::{DType, Device};

verus! {

/// A bias tensor by its shape.
#[derive(Debug)]
pub struct SteeringBias {
    pub dims: Vec<usize>,
    pub dtype: DType,
    pub device: Device,
}

#[verifier::ext_equal]
pub struct BiasView {
    pub dims: Seq<usize>,
    pub dtype: DType,
    pub device: Device,
}

impl View for SteeringBias {
    type V = BiasView;

    open spec fn view(&self) -> BiasView {
        BiasView { dims: self.dims@, dtype: self.dtype, device: self.device }
    }
}

/// Biases by layer, at most one each.
#[derive(Debug)]
pub struct Steering {
    biases: BTreeMap<usize, SteeringBias>,
}

#[derive(Clone, Copy, PartialEq, Eq, Structural, Debug)]
pub enum SteeringError {
    /// The layer has no router.
    NoRouter(usize),
    /// The bias has another shape, type or device than the router's own.
    Mismatch(usize),
}

impl View for Steering {
    type V = Map<usize, BiasView>;

    closed spec fn view(&self) -> Map<usize, BiasView> {
        self.biases@.map_values(|b: SteeringBias| b@)
    }
}

impl Steering {
    pub fn new() -> (res: Self)
        ensures
            res@ == Map::<usize, BiasView>::empty(),
    {
        let res = Steering { biases: BTreeMap::new() };
        proof {
            assert(res@ =~= Map::<usize, BiasView>::empty());
        }
        res
    }

    /// Uses `bias` in place of `layer`'s selection bias.
    pub fn set_bias(&mut self, layer: usize, bias: SteeringBias)
        ensures
            final(self)@ == old(self)@.insert(layer, bias@),
    {
        broadcast use vstd::std_specs::btree::group_btree_axioms;
        broadcast use vstd::laws_cmp::group_laws_cmp;

        let ghost before = self@;
        self.biases.insert(layer, bias);
        proof {
            assert(self@ =~= before.insert(layer, bias@));
        }
    }

    pub fn is_empty(&self) -> (res: bool)
        ensures
            res == (self@ == Map::<usize, BiasView>::empty()),
    {
        proof {
            assert(self@.dom() =~= self.biases@.dom());
            if self.biases@.dom() =~= Set::<usize>::empty() {
                assert(self@ =~= Map::<usize, BiasView>::empty());
            }
        }
        self.biases.is_empty()
    }

    /// Whether `layer`'s bias is replaced.
    pub fn steers(&self, layer: usize) -> (res: bool)
        ensures
            res == self@.dom().contains(layer),
    {
        broadcast use vstd::std_specs::btree::group_btree_axioms;
        broadcast use vstd::laws_cmp::group_laws_cmp;

        self.biases.contains_key(&layer)
    }

    /// Checks that every replacement can apply.
    pub fn check(&self, model: &Model) -> (res: Result<(), SteeringError>)
        ensures
            match res {
                Ok(_) => applies(model@, self@),
                Err(e) => first_misfit(model@, self@, e),
            },
    {
        broadcast use vstd::std_specs::btree::group_btree_axioms;
        broadcast use vstd::laws_cmp::group_laws_cmp;

        for entry in it: self.biases.iter()
            invariant
                it.seq() == self.biases.iter().remaining(),
                increasing_seq(it.seq().map_values(|kv: (&usize, &SteeringBias)| *kv.0)),
                forall|j: int|
                    0 <= j < it.index() ==> bias_error(model@, *(#[trigger] it.seq()[j]).0, it.seq()[j].1@) is None,
        {
            let (layer, bias) = entry;
            let error = match model.router_bias(*layer) {
                None => Some(SteeringError::NoRouter(*layer)),
                Some(own) => if matches_own(bias, &own) {
                    None
                } else {
                    Some(SteeringError::Mismatch(*layer))
                },
            };
            if let Some(e) = error {
                proof {
                    let at = it.index();
                    let keys = it.seq().map_values(|kv: (&usize, &SteeringBias)| *kv.0);
                    assert(it.seq()[at] == entry);
                    assert forall|l: usize| l < *layer && #[trigger] self@.dom().contains(l) implies bias_error(
                        model@,
                        l,
                        self@[l],
                    ) is None by {
                        assert(self.biases@.contains_key(l));
                        let j = choose|j: int| 0 <= j < it.seq().len() && it.seq()[j] == (&l, &self.biases@[l]);
                        assert(keys[j] == l);
                        assert(keys[at] == *layer);
                        if at < j {
                            assert(keys[at].cmp_spec(&keys[j]) is Less);
                        }
                    }
                    assert(is_misfit(model@, self@, e, *layer));
                }
                return Err(e);
            }
        }
        Ok(())
    }
}

impl Clone for SteeringBias {
    fn clone(&self) -> (res: Self)
        ensures
            res@ == self@,
    {
        SteeringBias { dims: copied(&self.dims), dtype: self.dtype, device: self.device }
    }
}

impl Clone for Steering {
    fn clone(&self) -> (res: Self)
        ensures
            res@ == self@,
    {
        Steering { biases: self.biases.clone() }
    }
}

impl Default for Steering {
    fn default() -> (res: Self)
        ensures
            res@ == Map::<usize, BiasView>::empty(),
    {
        Steering::new()
    }
}

/// The bias has the shape, type and device of the router's own.
pub open spec fn bias_fits(bias: BiasView, own: RouterBias) -> bool {
    &&& bias.dims == seq![own.experts]
    &&& bias.dtype == own.dtype
    &&& bias.device == own.device
}

fn matches_own(bias: &SteeringBias, own: &RouterBias) -> (res: bool)
    ensures
        res == bias_fits(bias@, *own),
{
    proof {
        if bias.dims@.len() == 1 {
            assert(bias.dims@ =~= seq![bias.dims@[0]]);
        }
    }
    bias.dims.len() == 1 && bias.dims[0] == own.experts && bias.dtype == own.dtype && bias.device.same_device(
        &own.device,
    )
}

/// Why a bias cannot replace that of a layer, if it cannot.
pub open spec fn bias_error(model: ModelView, layer: usize, bias: BiasView) -> Option<SteeringError> {
    match model.router_bias(layer as int) {
        None => Some(SteeringError::NoRouter(layer)),
        Some(own) => if bias_fits(bias, own) {
            None
        } else {
            Some(SteeringError::Mismatch(layer))
        },
    }
}

/// Every replacement fits its layer.
pub open spec fn applies(model: ModelView, biases: Map<usize, BiasView>) -> bool {
    forall|l: usize| #[trigger] biases.dom().contains(l) ==> bias_error(model, l, biases[l]) is None
}

/// `layer` is the lowest layer whose replacement does not fit, and `e` says why.
pub open spec fn is_misfit(model: ModelView, biases: Map<usize, BiasView>, e: SteeringError, layer: usize) -> bool {
    &&& biases.dom().contains(layer)
    &&& bias_error(model, layer, biases[layer]) == Some(e)
    &&& forall|l: usize| l < layer && #[trigger] biases.dom().contains(l) ==> bias_error(model, l, biases[l]) is None
}

/// `e` is what is wrong with the lowest layer whose replacement does not fit.
pub open spec fn first_misfit(model: ModelView, biases: Map<usize, BiasView>, e: SteeringError) -> bool {
    exists|layer: usize| is_misfit(model, biases, e, layer)
}

/// Law: a replacement fits exactly a layer that has experts, with one number
/// per expert, of the type and on the device of the layer's own bias; a layer
/// that has none, or that the model lacks, has no router.
pub proof fn law_replacements_fit_expert_layers(model: ModelView, layer: usize, bias: BiasView)
    ensures
        ({
            let e = bias_error(model, layer, bias);
            let routed = layer < model.layers.len() && model.layers[layer as int].ffn is Moe;
            let own = model.layers[layer as int].ffn->Moe_0.bias;
            &&& e == Some(SteeringError::NoRouter(layer)) <==> !routed
            &&& e is None <==> routed && bias.dims.len() == 1 && bias.dims[0] == own.experts && bias.dtype == own.dtype
                && bias.device == own.device
            &&& e matches Some(why) ==> why == SteeringError::NoRouter(layer) || why == SteeringError::Mismatch(layer)
        }),
{
    if bias.dims.len() == 1 {
        assert(bias.dims =~= seq![bias.dims[0]]);
    }
}

/// Law: replacements apply, or one layer is the lowest that they do not fit; not
/// both, and no other layer is named.
pub proof fn law_lowest_misfit_is_named(model: ModelView, biases: Map<usize, BiasView>, e: SteeringError, layer: usize, other: usize)
    requires
        is_misfit(model, biases, e, layer),
    ensures
        !applies(model, biases),
        e == SteeringError::NoRouter(layer) || e == SteeringError::Mismatch(layer),
        biases.dom().contains(other) && bias_error(model, other, biases[other]) is Some ==> layer <= other,
{
}

/// Law: replacements apply exactly when each fits its layer, however high the
/// layer, and when one does not there is a lowest that does not.
pub proof fn law_every_replacement_is_checked(model: ModelView, biases: Map<usize, BiasView>, layer: usize)
    ensures
        biases.dom().contains(layer) && bias_error(model, layer, biases[layer]) is Some ==> !applies(model, biases) && exists|
            e: SteeringError,
        | first_misfit(model, biases, e),
        (forall|l: usize| #[trigger] biases.dom().contains(l) ==> bias_error(model, l, biases[l]) is None) ==> applies(
            model,
            biases,
        ),
    decreases layer,
{
    if biases.dom().contains(layer) && bias_error(model, layer, biases[layer]) is Some {
        if exists|l: usize| l < layer && #[trigger] biases.dom().contains(l) && bias_error(model, l, biases[l]) is Some {
            let l = choose|l: usize| l < layer && #[trigger] biases.dom().contains(l) && bias_error(model, l, biases[l]) is Some;
            law_every_replacement_is_checked(model, biases, l);
        } else {
            let e = bias_error(model, layer, biases[layer])->0;
            assert(is_misfit(model, biases, e, layer));
            assert(first_misfit(model, biases, e));
        }
    }
}

/// Law: whatever a check says, it passes exactly when every replacement is for an
/// expert layer, with a number per expert of that layer's type and on its device;
/// else it names the lowest layer that one does not fit.
pub proof fn law_checked_replacements_fit(s: Steering, model: Model, told: Result<(), SteeringError>, layer: usize)
    requires
        call_ensures(Steering::check, (&s, &model), told),
    ensures
        told is Ok && s@.dom().contains(layer) ==> {
            &&& layer < model@.layers.len()
            &&& model@.layers[layer as int].ffn is Moe
            &&& s@[layer].dims.len() == 1
            &&& s@[layer].dims[0] == model@.layers[layer as int].ffn->Moe_0.bias.experts
            &&& s@[layer].dtype == model@.layers[layer as int].ffn->Moe_0.bias.dtype
            &&& s@[layer].device == model@.layers[layer as int].ffn->Moe_0.bias.device
        },
        told matches Err(e) ==> exists|l: usize|
            #[trigger] s@.dom().contains(l) && (e == SteeringError::NoRouter(l) || e == SteeringError::Mismatch(l)) && (
            s@.dom().contains(layer) && bias_error(model@, layer, s@[layer]) is Some ==> l <= layer),
{
    if told is Ok && s@.dom().contains(layer) {
        law_replacements_fit_expert_layers(model@, layer, s@[layer]);
    }
    if let Err(e) = told {
        let l = choose|l: usize| is_misfit(model@, s@, e, l);
        law_lowest_misfit_is_named(model@, s@, e, l, layer);
        assert(s@.dom().contains(l));
    }
}

} // verus!
