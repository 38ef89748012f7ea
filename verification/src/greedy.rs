//! Stateful greedy selection with a sign-aware repetition penalty over the
//! whole history.
//!
//! Numbers are single-precision bit patterns (see [`crate::ieee`]). The penalty
//! is applied by whoever computes with numbers: next to each raw logit the
//! caller hands its product with and its quotient by the penalty. On ROCm the
//! device keeps the history and scans the vocabulary; here its answer is read.

use vstd::prelude::*;
use crate::ieee;
use crate::ieee::{is_finite, is_nan, is_negative, is_positive_finite, order_key};
use crate::quantized;
use crate::quantized::div_ceil;
use crate::tensor::{DType, Device};

verus! {

/// Tokens that one block of the device scan covers.
pub const SCAN_TILE: usize = 1024;

/// Kernels of the device scan: the best of each tile, then the best of all.
pub const SCAN_KERNEL: &'static str = "greedy_tiles";

pub const FINISH_KERNEL: &'static str = "greedy_finish";

/// Threads of a block of either.
pub const SCAN_BLOCK: u32 = 256;

/// What the device scan answers when a raw logit is not finite.
pub const NO_TOKEN: u32 = 0xffff_ffff;

/// A sampler of one evaluation. It cannot be copied, so its history is never
/// shared.
#[derive(Debug)]
pub struct GreedySampler {
    device: Device,
    vocab: usize,
    penalty: u32,
    history: History,
}

/// Where the tokens seen so far are kept.
#[derive(Debug)]
pub enum History {
    Host(Vec<bool>),
    /// On the device, where `tiles` blocks scan it.
    Rocm { tiles: u32 },
}

pub struct SamplerView {
    pub device: Device,
    pub vocab: usize,
    pub penalty: u32,
    /// Which tokens were seen; `None` when the device knows.
    pub seen: Option<Seq<bool>>,
    pub tiles: u32,
}

#[derive(Clone, Copy, PartialEq, Eq, Structural, Debug)]
pub enum SampleError {
    /// No vocabulary, one too large, or a penalty that is not positive and
    /// finite.
    InvalidSettings,
    /// A history token outside the vocabulary.
    HistoryOutside,
    /// Logits of another device, type or size, or with gaps.
    InvalidLogits,
    /// A raw logit that is not finite.
    Nonfinite,
}

/// Logits by their shape.
#[derive(Clone, Copy, PartialEq, Eq, Structural, Debug)]
pub struct Logits {
    pub device: Device,
    pub dtype: DType,
    pub elem_count: usize,
    pub contiguous: bool,
}

/// Raw logits with each one's product with, and quotient by, the penalty.
#[derive(Debug)]
pub struct Scores {
    pub raw: Vec<u32>,
    pub times: Vec<u32>,
    pub over: Vec<u32>,
}

pub open spec fn settings_error(vocab: usize, history: Seq<u32>, penalty: u32) -> Option<SampleError> {
    if vocab == 0 || vocab >= u32::MAX || !ieee::spec_is_positive_finite(penalty) {
        Some(SampleError::InvalidSettings)
    } else if exists|i: int| 0 <= i < history.len() && #[trigger] history[i] >= vocab {
        Some(SampleError::HistoryOutside)
    } else {
        None
    }
}

/// The tokens below `vocab` that occur in `history`.
pub open spec fn seen_tokens(vocab: nat, history: Seq<u32>) -> Seq<bool> {
    Seq::new(vocab, |t: int| history.contains(t as u32))
}

/// A logit after the penalty: unseen tokens keep theirs, a seen token's moves
/// towards minus infinity, whatever its sign.
pub open spec fn adjusted(raw: Seq<u32>, times: Seq<u32>, over: Seq<u32>, seen: Seq<bool>, t: int) -> u32 {
    if !seen[t] {
        raw[t]
    } else if ieee::spec_is_negative(raw[t]) {
        times[t]
    } else {
        over[t]
    }
}

pub open spec fn adjusted_key(s: Scores, seen: Seq<bool>, t: int) -> int {
    ieee::spec_order_key(adjusted(s.raw@, s.times@, s.over@, seen, t))
}

/// `best` has the greatest adjusted logit, and the smallest id among equals.
pub open spec fn is_best(s: Scores, seen: Seq<bool>, best: int) -> bool {
    &&& 0 <= best < s.raw@.len()
    &&& forall|t: int|
        0 <= t < s.raw@.len() ==> #[trigger] adjusted_key(s, seen, t) <= adjusted_key(s, seen, best)
    &&& forall|t: int| 0 <= t < best ==> #[trigger] adjusted_key(s, seen, t) < adjusted_key(s, seen, best)
}

pub open spec fn all_finite(raw: Seq<u32>) -> bool {
    forall|t: int| 0 <= t < raw.len() ==> ieee::spec_is_finite(#[trigger] raw[t])
}

/// No pattern of these is other than a number or an infinity.
pub open spec fn none_nan(v: Seq<u32>) -> bool {
    forall|t: int| 0 <= t < v.len() ==> !ieee::spec_is_nan(#[trigger] v[t])
}

fn has_no_nan(v: &Vec<u32>) -> (res: bool)
    ensures
        res == none_nan(v@),
{
    let mut i: usize = 0;
    while i < v.len()
        invariant
            i <= v@.len(),
            forall|t: int| 0 <= t < i ==> !ieee::spec_is_nan(#[trigger] v@[t]),
        decreases v@.len() - i,
    {
        if is_nan(v[i]) {
            proof {
                assert(ieee::spec_is_nan(v@[i as int]));
            }
            return false;
        }
        i = i + 1;
    }
    true
}

impl Scores {
    /// Bundles raw logits with what the penalty makes of them; `None` when
    /// there is not one product and one quotient per logit, each a number.
    pub fn new(raw: Vec<u32>, times: Vec<u32>, over: Vec<u32>) -> (res: Option<Scores>)
        ensures
            res is Some <==> times@.len() == raw@.len() && over@.len() == raw@.len() && none_nan(times@)
                && none_nan(over@),
            res matches Some(s) ==> s.wf() && s.raw@ == raw@ && s.times@ == times@ && s.over@ == over@,
    {
        if times.len() != raw.len() || over.len() != raw.len() || !has_no_nan(&times) || !has_no_nan(&over) {
            None
        } else {
            Some(Scores { raw, times, over })
        }
    }

    /// One product and one quotient per logit, each a number.
    pub open spec fn wf(self) -> bool {
        &&& self.times@.len() == self.raw@.len()
        &&& self.over@.len() == self.raw@.len()
        &&& none_nan(self.times@)
        &&& none_nan(self.over@)
    }
}

impl SamplerView {
    /// What the host history covers, and what the device scan has to.
    pub open spec fn wf(self) -> bool {
        &&& 0 < self.vocab < u32::MAX
        &&& ieee::spec_is_positive_finite(self.penalty)
        &&& self.seen matches Some(seen) ==> seen.len() == self.vocab
        &&& self.seen is None ==> self.tiles == quantized::spec_div_ceil(self.vocab as nat, SCAN_TILE as nat)
    }

    /// Why these logits cannot be sampled, if they cannot.
    pub open spec fn logits_error(self, l: Logits) -> Option<SampleError> {
        if l.device != self.device || l.dtype != DType::F32 || l.elem_count != self.vocab || !l.contiguous {
            Some(SampleError::InvalidLogits)
        } else {
            None
        }
    }
}

impl View for GreedySampler {
    type V = SamplerView;

    closed spec fn view(&self) -> SamplerView {
        SamplerView {
            device: self.device,
            vocab: self.vocab,
            penalty: self.penalty,
            seen: match self.history {
                History::Host(seen) => Some(seen@),
                History::Rocm { .. } => None,
            },
            tiles: match self.history {
                History::Host(_) => 0,
                History::Rocm { tiles } => tiles,
            },
        }
    }
}

fn falses(n: usize) -> (res: Vec<bool>)
    ensures
        res@ == Seq::new(n as nat, |t: int| false),
{
    let mut res: Vec<bool> = Vec::new();
    let mut i: usize = 0;
    while i < n
        invariant
            i <= n,
            res@ == Seq::new(i as nat, |t: int| false),
        decreases n - i,
    {
        res.push(false);
        i = i + 1;
        proof {
            assert(res@ =~= Seq::new(i as nat, |t: int| false));
        }
    }
    res
}

impl GreedySampler {
    /// A sampler that has seen `history`. The second result is the history as
    /// the device takes it, when the device keeps it.
    pub fn new(device: &Device, vocab: usize, history: &Vec<u32>, penalty: u32) -> (res: Result<
        (GreedySampler, Option<Vec<u32>>),
        SampleError,
    >)
        ensures
            match res {
                Ok((s, upload)) => {
                    &&& settings_error(vocab, history@, penalty) is None
                    &&& s@.wf()
                    &&& s@.device == *device
                    &&& s@.vocab == vocab
                    &&& s@.penalty == penalty
                    &&& s@.seen == (if device.spec_is_rocm() {
                        None
                    } else {
                        Some(seen_tokens(vocab as nat, history@))
                    })
                    &&& s@.seen matches Some(seen) ==> {
                        &&& seen.len() == vocab
                        &&& forall|i: int| 0 <= i < history@.len() ==> seen[#[trigger] history@[i] as int]
                        &&& forall|t: int|
                            0 <= t < vocab && #[trigger] seen[t] ==> exists|i: int|
                                0 <= i < history@.len() && history@[i] == t
                    }
                    &&& upload matches Some(marks) ==> {
                        &&& marks@.len() == vocab
                        &&& forall|i: int| 0 <= i < history@.len() ==> marks@[#[trigger] history@[i] as int] == 1
                        &&& forall|t: int|
                            0 <= t < vocab && #[trigger] marks@[t] != 0 ==> exists|i: int|
                                0 <= i < history@.len() && history@[i] == t
                    }
                    &&& s@.tiles == (if device.spec_is_rocm() {
                        quantized::spec_div_ceil(vocab as nat, SCAN_TILE as nat)
                    } else {
                        0
                    })
                    &&& upload is Some <==> device.spec_is_rocm()
                    &&& upload matches Some(marks) ==> marks@ == Seq::new(
                        vocab as nat,
                        |t: int| if seen_tokens(vocab as nat, history@)[t] { 1u32 } else { 0u32 },
                    )
                },
                Err(e) => settings_error(vocab, history@, penalty) == Some(e),
            },
    {
        if vocab == 0 || vocab >= u32::MAX as usize || !is_positive_finite(penalty) {
            return Err(SampleError::InvalidSettings);
        }
        let mut seen = falses(vocab);
        let mut i: usize = 0;
        while i < history.len()
            invariant
                i <= history@.len(),
                0 < vocab < u32::MAX,
                ieee::spec_is_positive_finite(penalty),
                seen@.len() == vocab,
                forall|j: int| 0 <= j < i ==> #[trigger] history@[j] < vocab,
                forall|t: int| 0 <= t < vocab ==> #[trigger] seen@[t] == history@.take(i as int).contains(t as u32),
            decreases history@.len() - i,
        {
            let id: usize = history[i] as usize;
            if id >= vocab {
                proof {
                    assert(history@[i as int] >= vocab);
                }
                return Err(SampleError::HistoryOutside);
            }
            let ghost before = seen@;
            seen.set(id, true);
            proof {
                let was = history@.take(i as int);
                let now = history@.take(i + 1);
                assert forall|t: int| 0 <= t < vocab implies #[trigger] seen@[t] == now.contains(t as u32) by {
                    assert(now =~= was.push(history@[i as int]));
                    if t == id {
                        assert(now[i as int] == t as u32);
                    } else {
                        assert(before[t] == was.contains(t as u32));
                        if was.contains(t as u32) {
                            let j = choose|j: int| 0 <= j < was.len() && was[j] == t as u32;
                            assert(now[j] == t as u32);
                        }
                        if now.contains(t as u32) {
                            let j = choose|j: int| 0 <= j < now.len() && now[j] == t as u32;
                            assert(j < i);
                            assert(was[j] == t as u32);
                        }
                    }
                }
            }
            i = i + 1;
        }
        proof {
            assert(history@.take(i as int) =~= history@);
            assert(seen@ =~= seen_tokens(vocab as nat, history@));
            assert forall|i: int| 0 <= i < history@.len() implies seen@[#[trigger] history@[i] as int] by {
                law_history_tokens_are_seen(vocab as nat, history@, i);
            }
            assert forall|t: int| 0 <= t < vocab && #[trigger] seen@[t] implies exists|i: int|
                0 <= i < history@.len() && history@[i] == t by {
                law_only_history_tokens_are_seen(vocab as nat, history@, t);
            }
        }
        if device.is_rocm() {
            let tiles: usize = div_ceil(vocab, SCAN_TILE);
            proof {
                quantized::lemma_div_ceil(vocab as nat, SCAN_TILE as nat);
                assert(tiles <= vocab);
            }
            let marks = as_marks(&seen);
            let s = GreedySampler { device: *device, vocab, penalty, history: History::Rocm { tiles: tiles as u32 } };
            Ok((s, Some(marks)))
        } else {
            let s = GreedySampler { device: *device, vocab, penalty, history: History::Host(seen) };
            Ok((s, None))
        }
    }

    /// Blocks that the device scan takes; `None` when the host scans.
    pub fn scan_tiles(&self) -> (res: Option<u32>)
        ensures
            res == (if self@.seen is None { Some(self@.tiles) } else { None }),
    {
        match &self.history {
            History::Host(_) => None,
            History::Rocm { tiles } => Some(*tiles),
        }
    }

    /// Checks that logits can be sampled.
    pub fn check(&self, logits: &Logits) -> (res: Result<(), SampleError>)
        ensures
            match res {
                Ok(_) => self@.logits_error(*logits) is None,
                Err(e) => self@.logits_error(*logits) == Some(e),
            },
    {
        if !logits.device.same_device(&self.device) || logits.dtype != DType::F32 || logits.elem_count != self.vocab
            || !logits.contiguous {
            Err(SampleError::InvalidLogits)
        } else {
            Ok(())
        }
    }

    /// Selects one token on the host and adds it to the history. Ties go to
    /// the smallest id; a refusal leaves the history as it was.
    pub fn sample(&mut self, logits: &Logits, scores: &Scores) -> (res: Result<u32, SampleError>)
        requires
            old(self)@.wf(),
            old(self)@.seen is Some,
            scores.wf(),
            scores.raw@.len() == logits.elem_count,
        ensures
            final(self)@.wf(),
            ({
                let seen = old(self)@.seen->0;
                match res {
                    Ok(id) => {
                        &&& old(self)@.logits_error(*logits) is None
                        &&& all_finite(scores.raw@)
                        &&& is_best(*scores, seen, id as int)
                        &&& final(self)@ == (SamplerView { seen: Some(seen.update(id as int, true)), ..old(self)@ })
                    },
                    Err(e) => {
                        &&& e == (if old(self)@.logits_error(*logits) is Some {
                            SampleError::InvalidLogits
                        } else {
                            SampleError::Nonfinite
                        })
                        &&& old(self)@.logits_error(*logits) is Some || !all_finite(scores.raw@)
                        &&& final(self)@ == old(self)@
                    },
                }
            }),
    {
        let ghost before = self@;
        match self.check(logits) {
            Ok(_) => {},
            Err(e) => {
                return Err(e);
            },
        }
        if !finite(&scores.raw) {
            return Err(SampleError::Nonfinite);
        }
        let mut best: usize = 0;
        if let History::Host(seen) = &self.history {
            best = argmax(scores, seen);
        }
        match &mut self.history {
            History::Host(seen) => {
                seen.set(best, true);
            },
            History::Rocm { .. } => {},
        }
        proof {
            assert(self@.seen->0 =~= before.seen->0.update(best as int, true));
            assert(best < u32::MAX);
        }
        Ok(best as u32)
    }

    /// Reads the answer of the device scan, which has added the token to the
    /// history it keeps.
    pub fn sample_rocm(&self, logits: &Logits, answer: u32) -> (res: Result<u32, SampleError>)
        requires
            self@.seen is None,
        ensures
            res == (if self@.logits_error(*logits) is Some {
                Err(SampleError::InvalidLogits)
            } else if answer == NO_TOKEN {
                Err(SampleError::Nonfinite)
            } else {
                Ok(answer)
            }),
    {
        match self.check(logits) {
            Ok(_) => {},
            Err(e) => {
                return Err(e);
            },
        }
        if answer == NO_TOKEN {
            Err(SampleError::Nonfinite)
        } else {
            Ok(answer)
        }
    }
}

fn as_marks(seen: &Vec<bool>) -> (res: Vec<u32>)
    ensures
        res@ == Seq::new(seen@.len(), |t: int| if seen@[t] { 1u32 } else { 0u32 }),
{
    let mut res: Vec<u32> = Vec::new();
    let mut i: usize = 0;
    while i < seen.len()
        invariant
            i <= seen@.len(),
            res@.len() == i,
            forall|t: int| 0 <= t < i ==> #[trigger] res@[t] == (if seen@[t] { 1u32 } else { 0u32 }),
        decreases seen@.len() - i,
    {
        if seen[i] {
            res.push(1);
        } else {
            res.push(0);
        }
        i = i + 1;
    }
    proof {
        assert(res@ =~= Seq::new(seen@.len(), |t: int| if seen@[t] { 1u32 } else { 0u32 }));
    }
    res
}

fn finite(raw: &Vec<u32>) -> (res: bool)
    ensures
        res == all_finite(raw@),
{
    let mut i: usize = 0;
    while i < raw.len()
        invariant
            i <= raw@.len(),
            forall|t: int| 0 <= t < i ==> ieee::spec_is_finite(#[trigger] raw@[t]),
        decreases raw@.len() - i,
    {
        if !is_finite(raw[i]) {
            proof {
                assert(!ieee::spec_is_finite(raw@[i as int]));
            }
            return false;
        }
        i = i + 1;
    }
    true
}

fn key_of(s: &Scores, seen: &Vec<bool>, t: usize) -> (res: i64)
    requires
        s.wf(),
        seen@.len() == s.raw@.len(),
        t < s.raw@.len(),
    ensures
        res == adjusted_key(*s, seen@, t as int),
{
    if !seen[t] {
        order_key(s.raw[t])
    } else if is_negative(s.raw[t]) {
        order_key(s.times[t])
    } else {
        order_key(s.over[t])
    }
}

fn argmax(s: &Scores, seen: &Vec<bool>) -> (best: usize)
    requires
        s.wf(),
        seen@.len() == s.raw@.len(),
        s.raw@.len() > 0,
    ensures
        is_best(*s, seen@, best as int),
{
    let mut best: usize = 0;
    let mut i: usize = 1;
    while i < s.raw.len()
        invariant
            1 <= i <= s.raw@.len(),
            best < i,
            s.wf(),
            seen@.len() == s.raw@.len(),
            forall|t: int| 0 <= t < i ==> #[trigger] adjusted_key(*s, seen@, t) <= adjusted_key(*s, seen@, best as int),
            forall|t: int|
                0 <= t < best ==> #[trigger] adjusted_key(*s, seen@, t) < adjusted_key(*s, seen@, best as int),
        decreases s.raw@.len() - i,
    {
        if key_of(s, seen, i) > key_of(s, seen, best) {
            best = i;
        }
        i = i + 1;
    }
    best
}

/// Law: the greatest adjusted logit decides alone; there is one best token.
pub proof fn law_best_token_is_unique(s: Scores, seen: Seq<bool>, a: int, b: int)
    requires
        is_best(s, seen, a),
        is_best(s, seen, b),
    ensures
        a == b,
{
    assert(adjusted_key(s, seen, a) <= adjusted_key(s, seen, b));
    assert(adjusted_key(s, seen, b) <= adjusted_key(s, seen, a));
    if a < b {
        assert(adjusted_key(s, seen, a) < adjusted_key(s, seen, b));
    } else if b < a {
        assert(adjusted_key(s, seen, b) < adjusted_key(s, seen, a));
    }
}

/// Law: when the penalty does not raise seen logits, a token that was not best
/// before it was seen is not best afterwards: being seen never helps.
pub proof fn law_being_seen_never_helps(s: Scores, seen: Seq<bool>, t: int, best: int)
    requires
        s.wf(),
        seen.len() == s.raw@.len(),
        0 <= t < s.raw@.len(),
        !seen[t],
        t != best,
        is_best(s, seen, best),
        ieee::spec_order_key(s.times@[t]) <= ieee::spec_order_key(s.raw@[t]) || !ieee::spec_is_negative(s.raw@[t]),
        ieee::spec_order_key(s.over@[t]) <= ieee::spec_order_key(s.raw@[t]) || ieee::spec_is_negative(s.raw@[t]),
    ensures
        is_best(s, seen.update(t, true), best),
{
    let now = seen.update(t, true);
    assert forall|u: int| 0 <= u < s.raw@.len() implies #[trigger] adjusted_key(s, now, u) <= adjusted_key(s, seen, u) by {}
    assert(adjusted_key(s, now, best) == adjusted_key(s, seen, best));
    assert forall|u: int| 0 <= u < s.raw@.len() implies #[trigger] adjusted_key(s, now, u) <= adjusted_key(s, now, best) by {
        assert(adjusted_key(s, seen, u) <= adjusted_key(s, seen, best));
    }
    assert forall|u: int| 0 <= u < best implies #[trigger] adjusted_key(s, now, u) < adjusted_key(s, now, best) by {
        assert(adjusted_key(s, seen, u) < adjusted_key(s, seen, best));
    }
}

/// Law: the device's blocks cover every token, and each token lies in one.
pub proof fn law_scan_covers_the_vocabulary(vocab: nat, t: nat)
    requires
        t < vocab,
    ensures
        t / SCAN_TILE as nat <= quantized::spec_div_ceil(vocab, SCAN_TILE as nat) - 1,
{
    quantized::lemma_div_ceil(vocab, SCAN_TILE as nat);
}

/// Law: every token of the history is seen, wherever in it the token stands.
pub proof fn law_history_tokens_are_seen(vocab: nat, history: Seq<u32>, i: int)
    requires
        0 <= i < history.len(),
        history[i] < vocab,
    ensures
        seen_tokens(vocab, history).len() == vocab,
        seen_tokens(vocab, history)[history[i] as int],
{
    assert(history.contains(history[i]));
}

/// Law: no other token is.
pub proof fn law_only_history_tokens_are_seen(vocab: nat, history: Seq<u32>, t: int)
    requires
        0 <= t < vocab <= u32::MAX,
        seen_tokens(vocab, history)[t],
    ensures
        exists|i: int| 0 <= i < history.len() && history[i] == t,
{
    let i = choose|i: int| 0 <= i < history.len() && history[i] == t as u32;
    assert(history[i] == t);
}

/// Law: a history that goes on forgets nothing: what two parts have seen, the
/// whole has, and no more. So neither order nor distance matters.
pub proof fn law_histories_add_up(vocab: nat, first: Seq<u32>, then: Seq<u32>, t: int)
    requires
        0 <= t < vocab <= u32::MAX,
    ensures
        seen_tokens(vocab, first + then)[t] == (seen_tokens(vocab, first)[t] || seen_tokens(vocab, then)[t]),
        seen_tokens(vocab, first + then) == seen_tokens(vocab, then + first),
{
    assert forall|u: int| 0 <= u < vocab implies #[trigger] seen_tokens(vocab, first + then)[u] == (seen_tokens(
        vocab,
        first,
    )[u] || seen_tokens(vocab, then)[u]) && seen_tokens(vocab, then + first)[u] == seen_tokens(vocab, first + then)[u] by {
        lemma_contains_either(first, then, u as u32);
        lemma_contains_either(then, first, u as u32);
    }
    assert(seen_tokens(vocab, first + then) =~= seen_tokens(vocab, then + first));
}

proof fn lemma_contains_either(a: Seq<u32>, b: Seq<u32>, x: u32)
    ensures
        (a + b).contains(x) <==> a.contains(x) || b.contains(x),
{
    if a.contains(x) {
        let i = choose|i: int| 0 <= i < a.len() && a[i] == x;
        assert((a + b)[i] == x);
    }
    if b.contains(x) {
        let i = choose|i: int| 0 <= i < b.len() && b[i] == x;
        assert((a + b)[a.len() + i] == x);
    }
    if (a + b).contains(x) {
        let i = choose|i: int| 0 <= i < (a + b).len() && (a + b)[i] == x;
        if i < a.len() {
            assert(a[i] == x);
        } else {
            assert(b[i - a.len()] == x);
        }
    }
}

/// Law: sampling a token leaves the sampler as if it had started with that
/// token at the end of its history.
pub proof fn law_sampling_goes_on_with_the_history(vocab: nat, history: Seq<u32>, id: u32)
    requires
        id < vocab <= u32::MAX,
    ensures
        seen_tokens(vocab, history).update(id as int, true) == seen_tokens(vocab, history.push(id)),
{
    let now = seen_tokens(vocab, history.push(id));
    assert forall|t: int| 0 <= t < vocab implies #[trigger] now[t] == seen_tokens(vocab, history).update(id as int, true)[t] by {
        lemma_contains_either(history, seq![id], t as u32);
        assert(history.push(id) =~= history + seq![id]);
        assert(seq![id][0] == id);
        if seq![id].contains(t as u32) {
            assert(t == id);
        }
    }
    assert(now =~= seen_tokens(vocab, history).update(id as int, true));
}

/// Law: the chosen token's logit, after the penalty, is at least every other's
/// and greater than that of every smaller id. An unseen token counts with its
/// raw logit, a seen one below zero with the product, any other seen one with
/// the quotient.
pub proof fn law_best_token_has_the_greatest_number(s: Scores, seen: Seq<bool>, best: int, t: int)
    requires
        s.wf(),
        seen.len() == s.raw@.len(),
        0 <= best < s.raw@.len(),
        0 <= t < s.raw@.len(),
        is_best(s, seen, best),
        all_finite(s.raw@),
    ensures
        ({
            let counted = |u: int|
                if seen[u] && ieee::number(s.raw@[u]) < 0 {
                    ieee::number(s.times@[u])
                } else if seen[u] {
                    ieee::number(s.over@[u])
                } else {
                    ieee::number(s.raw@[u])
                };
            &&& counted(t) <= counted(best)
            &&& t < best ==> counted(t) < counted(best)
        }),
{
    let (a, b) = (
        adjusted(s.raw@, s.times@, s.over@, seen, t),
        adjusted(s.raw@, s.times@, s.over@, seen, best),
    );
    assert(adjusted_key(s, seen, t) <= adjusted_key(s, seen, best));
    assert(ieee::spec_is_finite(s.raw@[t]) && ieee::spec_is_finite(s.raw@[best]));
    ieee::law_keys_order_as_the_numbers_do(a, b);
    ieee::law_signs_are_those_of_the_numbers(s.raw@[t]);
    ieee::law_signs_are_those_of_the_numbers(s.raw@[best]);
}

/// Law: a token that those two comparisons single out is the best one.
pub proof fn law_greatest_number_is_best(s: Scores, seen: Seq<bool>, best: int)
    requires
        s.wf(),
        seen.len() == s.raw@.len(),
        0 <= best < s.raw@.len(),
        all_finite(s.raw@),
        ({
            let counted = |u: int|
                if seen[u] && ieee::number(s.raw@[u]) < 0 {
                    ieee::number(s.times@[u])
                } else if seen[u] {
                    ieee::number(s.over@[u])
                } else {
                    ieee::number(s.raw@[u])
                };
            forall|t: int|
                0 <= t < s.raw@.len() ==> counted(t) <= counted(best) && (t < best ==> #[trigger] counted(t) < counted(
                    best,
                ))
        }),
    ensures
        is_best(s, seen, best),
{
    let counted = |u: int|
        if seen[u] && ieee::number(s.raw@[u]) < 0 {
            ieee::number(s.times@[u])
        } else if seen[u] {
            ieee::number(s.over@[u])
        } else {
            ieee::number(s.raw@[u])
        };
    assert forall|t: int| 0 <= t < s.raw@.len() implies #[trigger] adjusted_key(s, seen, t) <= adjusted_key(s, seen, best)
        && (t < best ==> adjusted_key(s, seen, t) < adjusted_key(s, seen, best)) by {
        let (a, b) = (
            adjusted(s.raw@, s.times@, s.over@, seen, t),
            adjusted(s.raw@, s.times@, s.over@, seen, best),
        );
        assert(counted(t) <= counted(best) && (t < best ==> counted(t) < counted(best)));
        assert(ieee::spec_is_finite(s.raw@[t]) && ieee::spec_is_finite(s.raw@[best]));
        ieee::law_keys_order_as_the_numbers_do(a, b);
        ieee::law_keys_order_as_the_numbers_do(b, a);
        ieee::law_signs_are_those_of_the_numbers(s.raw@[t]);
        ieee::law_signs_are_those_of_the_numbers(s.raw@[best]);
    }
}

/// Law: a sampler is refused for its settings when its vocabulary is empty or
/// leaves no number for the device's answer "none", or when its penalty is no
/// positive number; otherwise for a history token that the vocabulary lacks, and
/// for nothing else.
pub proof fn law_samplers_are_refused_for(vocab: usize, history: Seq<u32>, penalty: u32)
    ensures
        settings_error(vocab, history, penalty) == Some(SampleError::InvalidSettings) <==> !(0 < vocab
            < 0xffff_ffff) || ieee::number(penalty) <= 0 || (penalty / 0x80_0000) % 256 == 255,
        settings_error(vocab, history, penalty) is None ==> forall|i: int|
            0 <= i < history.len() ==> #[trigger] history[i] < vocab,
        settings_error(vocab, history, penalty) == Some(SampleError::HistoryOutside) ==> exists|i: int|
            0 <= i < history.len() && #[trigger] history[i] >= vocab,
        settings_error(vocab, history, penalty) matches Some(e) ==> e is InvalidSettings || e is HistoryOutside,
{
    ieee::law_signs_are_those_of_the_numbers(penalty);
    ieee::law_exponent_tells_finite_from_infinite(penalty);
}

/// Law: no token of a sampler's vocabulary is mistaken for the device's answer
/// that a logit is not finite, and its scan blocks are the fewest of 1024
/// tokens, four per thread, that hold the vocabulary.
pub proof fn law_device_scan_is_unambiguous(s: SamplerView, id: u32)
    requires
        s.wf(),
        s.seen is None,
        id < s.vocab,
    ensures
        id != NO_TOKEN,
        NO_TOKEN == u32::MAX,
        1024 * (s.tiles - 1) < s.vocab <= 1024 * s.tiles,
        SCAN_TILE == 4 * SCAN_BLOCK,
        SCAN_KERNEL@ == "greedy_tiles"@,
        FINISH_KERNEL@ == "greedy_finish"@,
{
    quantized::lemma_div_ceil(s.vocab as nat, SCAN_TILE as nat);
}

/// Law: logits are sampled exactly when they are single precision, without
/// gaps, one per token, on the sampler's device.
pub proof fn law_logits_are_refused_for(s: SamplerView, l: Logits)
    ensures
        s.logits_error(l) is None <==> l == (Logits {
            device: s.device,
            dtype: DType::F32,
            elem_count: s.vocab,
            contiguous: true,
        }),
        s.logits_error(l) matches Some(e) ==> e is InvalidLogits,
{
}

/// Law: whatever sampler is made, it has seen exactly the tokens of its whole
/// history: kept on the host as such, and handed to the device as ones among
/// zeros. None is made from a history that its vocabulary lacks a token of.
pub proof fn law_samplers_have_seen_their_whole_history(
    device: Device,
    vocab: usize,
    history: Vec<u32>,
    penalty: u32,
    made: Result<(GreedySampler, Option<Vec<u32>>), SampleError>,
    i: int,
    t: int,
)
    requires
        call_ensures(GreedySampler::new, (&device, vocab, &history, penalty), made),
        0 <= i < history@.len(),
        0 <= t < vocab,
        made is Ok ==> history@[i] < vocab,
    ensures
        history@[i] >= vocab ==> made is Err,
        made matches Ok((s, upload)) ==> {
            &&& s@.vocab == vocab && s@.penalty == penalty && s@.device == device
            &&& device is Rocm <==> upload is Some
            &&& device is Rocm <==> s@.seen is None
            &&& s@.seen matches Some(seen) ==> {
                &&& seen.len() == vocab
                &&& seen[history@[i] as int]
                &&& (forall|j: int| 0 <= j < history@.len() ==> #[trigger] history@[j] != t) ==> !seen[t]
            }
            &&& upload matches Some(marks) ==> {
                &&& marks@.len() == vocab
                &&& marks@[history@[i] as int] == 1
                &&& (forall|j: int| 0 <= j < history@.len() ==> #[trigger] history@[j] != t) ==> marks@[t] == 0
            }
        },
{
}

/// Law: whatever the device's scan answers, the greatest 32-bit number means
/// that a logit was not finite, and any other is the token; logits that do not
/// fit the sampler are refused first.
pub proof fn law_device_answers_are_read(s: GreedySampler, logits: Logits, answer: u32, read: Result<u32, SampleError>)
    requires
        call_ensures(GreedySampler::sample_rocm, (&s, &logits, answer), read),
    ensures
        ({
            let fit = logits.device == s@.device && logits.dtype == DType::F32 && logits.elem_count == s@.vocab
                && logits.contiguous;
            &&& !fit ==> read == Err::<u32, SampleError>(SampleError::InvalidLogits)
            &&& fit && answer == 0xffff_ffff ==> read == Err::<u32, SampleError>(SampleError::Nonfinite)
            &&& fit && answer != 0xffff_ffff ==> read == Ok::<u32, SampleError>(answer)
        }),
{
}

/// Law: whenever a token is sampled, its counted logit is at least every
/// other's and greater than every smaller id's, and it alone is added to what
/// was seen; whenever none is, nothing was added.
pub proof fn law_sampled_tokens_are_the_greatest(
    s: &mut GreedySampler,
    logits: Logits,
    scores: Scores,
    sampled: Result<u32, SampleError>,
    t: int,
)
    requires
        call_ensures(GreedySampler::sample, (s, &logits, &scores), sampled),
        old(s)@.wf(),
        old(s)@.seen is Some,
        scores.wf(),
        scores.raw@.len() == logits.elem_count,
        0 <= t < scores.raw@.len(),
    ensures
        sampled matches Err(e) ==> final(s)@ == old(s)@,
        sampled matches Ok(id) ==> ({
            let seen = old(s)@.seen->0;
            let counted = |u: int|
                if seen[u] && ieee::number(scores.raw@[u]) < 0 {
                    ieee::number(scores.times@[u])
                } else if seen[u] {
                    ieee::number(scores.over@[u])
                } else {
                    ieee::number(scores.raw@[u])
                };
            &&& id < scores.raw@.len()
            &&& counted(t) <= counted(id as int)
            &&& t < id ==> counted(t) < counted(id as int)
            &&& final(s)@.seen is Some
            &&& final(s)@.seen->0[t] == (seen[t] || t == id)
            &&& (scores.raw@[t] / 0x80_0000) % 256 != 255
        }),
{
    if let Ok(id) = sampled {
        law_best_token_has_the_greatest_number(scores, old(s)@.seen->0, id as int, t);
        ieee::law_exponent_tells_finite_from_infinite(scores.raw@[t]);
        assert(ieee::spec_is_finite(scores.raw@[t]));
    }
}

/// Law: whatever scores are bundled, they are as given, one product and one
/// quotient per logit, and none of those is other than a number or an infinity.
pub proof fn law_bundled_scores_are_numbers(raw: Vec<u32>, times: Vec<u32>, over: Vec<u32>, made: Option<Scores>, t: int)
    requires
        call_ensures(Scores::new, (raw, times, over), made),
        0 <= t < raw@.len(),
    ensures
        made matches Some(s) ==> {
            &&& s.raw@ == raw@ && s.times@ == times@ && s.over@ == over@
            &&& times@.len() == raw@.len() && over@.len() == raw@.len()
            &&& (times@[t] / 0x80_0000) % 256 == 255 ==> times@[t] % 0x80_0000 == 0
            &&& (over@[t] / 0x80_0000) % 256 == 255 ==> over@[t] % 0x80_0000 == 0
        },
        times@.len() != raw@.len() || over@.len() != raw@.len() ==> made is None,
{
    if made is Some {
        ieee::law_exponent_tells_finite_from_infinite(times@[t]);
        ieee::law_exponent_tells_finite_from_infinite(over@[t]);
        assert(!ieee::spec_is_nan(times@[t]) && !ieee::spec_is_nan(over@[t]));
    }
}

} // verus!
