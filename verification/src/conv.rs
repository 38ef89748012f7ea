//! History of the gated short convolution.
//!
//! A sequence's convolution state is its last `k` gated inputs. A step reads
//! windows of `k` inputs that end at each new position and keeps the last `k`
//! of them. The states that one step writes for several sequences stay
//! together, as the rows of one immutable tensor, so that the next step over
//! the same sequences in the same order reads them as they are. A column `C`
//! holds the channels of one sequence at one position.

use vstd::prelude::*;

verus! {

/// One sequence's state: row `row` of the tensor that the step that wrote it
/// produced.
#[derive(Clone, Copy, PartialEq, Eq, Structural, Debug)]
pub struct ConvState {
    pub tensor: usize,
    pub row: usize,
}

/// Columns of all sequences of a batch: `(batch, hidden, columns.len())`.
#[derive(Debug)]
pub struct Columns<C> {
    pub batch: usize,
    pub hidden: usize,
    pub columns: Vec<C>,
}

#[derive(Clone, Copy, PartialEq, Eq, Structural, Debug)]
pub enum ConvError {
    /// No taps, no positions, or weights for another number of channels.
    InvalidShape,
    /// A state of another batch, channel or tap count.
    InvalidState,
}

pub open spec fn zero_history<C>(zero: C, k: nat) -> Seq<C> {
    Seq::new(k, |i: int| zero)
}

/// The `k` inputs that the output at new position `t` is computed from: the
/// last of them is `bx[t]`, and what precedes the first input is history.
pub open spec fn window<C>(history: Seq<C>, bx: Seq<C>, k: nat, t: int) -> Seq<C> {
    (history + bx).subrange(t + 1, t + 1 + k)
}

/// The windows of all new positions.
pub open spec fn windows<C>(history: Seq<C>, bx: Seq<C>, k: nat) -> Seq<Seq<C>> {
    Seq::new(bx.len(), |t: int| window(history, bx, k, t))
}

/// The history after `bx`: the last inputs, as many as before.
pub open spec fn next_history<C>(history: Seq<C>, bx: Seq<C>) -> Seq<C> {
    (history + bx).skip(bx.len() as int)
}

pub open spec fn views<C>(v: Seq<Vec<C>>) -> Seq<Seq<C>> {
    v.map_values(|w: Vec<C>| w@)
}

pub(crate) fn copied<C: Copy>(from: &Vec<C>) -> (res: Vec<C>)
    ensures
        res@ == from@,
{
    let mut res: Vec<C> = Vec::new();
    let mut i: usize = 0;
    while i < from.len()
        invariant
            i <= from@.len(),
            res@ == from@.take(i as int),
        decreases from@.len() - i,
    {
        res.push(from[i]);
        i = i + 1;
        proof {
            assert(from@.take(i as int) == from@.take(i - 1).push(from@[i - 1]));
        }
    }
    proof {
        assert(from@.take(i as int) == from@);
    }
    res
}

fn zeros<C: Copy>(zero: C, k: usize) -> (res: Vec<C>)
    ensures
        res@ == zero_history(zero, k as nat),
{
    let mut res: Vec<C> = Vec::new();
    let mut i: usize = 0;
    while i < k
        invariant
            i <= k,
            res@ == zero_history(zero, i as nat),
        decreases k - i,
    {
        res.push(zero);
        i = i + 1;
        proof {
            assert(zero_history(zero, i as nat) == zero_history(zero, (i - 1) as nat).push(zero));
        }
    }
    res
}

/// The `k` inputs that end with the first `n` new ones, as many as `history` holds.
fn latest<C: Copy>(history: &Vec<C>, bx: &Vec<C>, n: usize) -> (res: Vec<C>)
    requires
        n <= bx@.len(),
    ensures
        res@ == (history@ + bx@).subrange(n as int, n + history@.len()),
{
    let k: usize = history.len();
    let mut res: Vec<C> = Vec::new();
    let mut j: usize = 0;
    while j < k
        invariant
            j <= k == history@.len(),
            n <= bx@.len(),
            res@ == (history@ + bx@).subrange(n as int, n + j),
        decreases k - j,
    {
        let ghost all = history@ + bx@;
        if n >= k {
            res.push(bx[n - k + j]);
        } else if j < k - n {
            res.push(history[n + j]);
        } else {
            res.push(bx[j - (k - n)]);
        }
        j = j + 1;
        proof {
            assert(all.subrange(n as int, n + j) =~= all.subrange(n as int, n + j - 1).push(all[n + j - 1]));
        }
    }
    res
}

/// Windows and next history of one sequence.
pub fn convolve_row<C: Copy>(history: &Vec<C>, bx: &Vec<C>) -> (res: (Vec<Vec<C>>, Vec<C>))
    ensures
        views(res.0@) == windows(history@, bx@, history@.len()),
        res.1@ == next_history(history@, bx@),
{
    let ghost k = history@.len();
    let seq: usize = bx.len();
    let mut out: Vec<Vec<C>> = Vec::new();
    let mut t: usize = 0;
    while t < seq
        invariant
            t <= seq == bx@.len(),
            k == history@.len(),
            views(out@) == windows(history@, bx@, k).take(t as int),
        decreases seq - t,
    {
        let w = latest(history, bx, t + 1);
        let ghost before = out@;
        out.push(w);
        t = t + 1;
        proof {
            let all = windows(history@, bx@, k);
            assert(views(out@) =~= views(before).push(w@));
            assert(all.take(t as int) =~= all.take(t - 1).push(window(history@, bx@, k, t - 1)));
        }
    }
    let next = latest(history, bx, seq);
    proof {
        assert(views(out@) =~= windows(history@, bx@, k));
        assert(next@ =~= next_history(history@, bx@));
    }
    (out, next)
}

/// Why a causal convolution is refused, if it is.
pub open spec fn causal_conv_error<C>(
    bx: Columns<C>,
    channels: usize,
    k: usize,
    state: Option<Columns<C>>,
) -> Option<ConvError> {
    if k == 0 || bx.columns@.len() == 0 || channels != bx.hidden {
        Some(ConvError::InvalidShape)
    } else if state matches Some(s) && (s.batch != bx.batch || s.hidden != bx.hidden || s.columns@.len() != k) {
        Some(ConvError::InvalidState)
    } else {
        None
    }
}

pub open spec fn history_of<C>(state: Option<Columns<C>>, zero: C, k: nat) -> Seq<C> {
    match state {
        Some(s) => s.columns@,
        None => zero_history(zero, k),
    }
}

/// Causal depthwise convolution of several positions, up to the weighted sum:
/// the window each output is the weighted sum of, and the next state. `k` and
/// `channels` are the weights' dimensions.
pub fn causal_conv<C: Copy>(
    bx: &Columns<C>,
    channels: usize,
    k: usize,
    state: Option<&Columns<C>>,
    zero: C,
) -> (res: Result<(Vec<Vec<C>>, Columns<C>), ConvError>)
    ensures
        ({
            let given = match state {
                Some(s) => Some(*s),
                None => None,
            };
            match res {
                Ok((out, next)) => {
                    &&& causal_conv_error(*bx, channels, k, given) is None
                    &&& views(out@) == windows(history_of(given, zero, k as nat), bx.columns@, k as nat)
                    &&& next.columns@ == next_history(history_of(given, zero, k as nat), bx.columns@)
                    &&& next.batch == bx.batch
                    &&& next.hidden == bx.hidden
                },
                Err(e) => causal_conv_error(*bx, channels, k, given) == Some(e),
            }
        }),
{
    if k == 0 || bx.columns.len() == 0 || channels != bx.hidden {
        return Err(ConvError::InvalidShape);
    }
    let (out, next) = match state {
        Some(s) => {
            if s.batch != bx.batch || s.hidden != bx.hidden || s.columns.len() != k {
                return Err(ConvError::InvalidState);
            }
            convolve_row(&s.columns, &bx.columns)
        },
        None => {
            let previous = zeros(zero, k);
            convolve_row(&previous, &bx.columns)
        },
    };
    Ok((out, Columns { batch: bx.batch, hidden: bx.hidden, columns: next }))
}

/// Law: splitting the input between two calls changes no output. The windows
/// of the whole are those of the head followed by those of the tail read with
/// the head's history, and both ways leave the same history.
pub proof fn law_chunks_preserve_history<C>(history: Seq<C>, head: Seq<C>, tail: Seq<C>)
    ensures
        windows(history, head + tail, history.len()) == windows(history, head, history.len()) + windows(
            next_history(history, head),
            tail,
            history.len(),
        ),
        next_history(history, head + tail) == next_history(next_history(history, head), tail),
{
    let k = history.len();
    let mid = next_history(history, head);
    assert(history + (head + tail) =~= (history + head) + tail);
    assert forall|t: int| 0 <= t < (head + tail).len() implies #[trigger] window(history, head + tail, k, t) == (if t
        < head.len() {
        window(history, head, k, t)
    } else {
        window(mid, tail, k, t - head.len())
    }) by {
        if t < head.len() {
            assert(window(history, head + tail, k, t) =~= window(history, head, k, t));
        } else {
            assert(window(history, head + tail, k, t) =~= window(mid, tail, k, t - head.len()));
        }
    }
    assert(windows(history, head + tail, k) =~= windows(history, head, k) + windows(mid, tail, k));
    assert(next_history(history, head + tail) =~= next_history(mid, tail));
}

/// Law: an output depends on no later input.
pub proof fn law_convolution_is_causal<C>(history: Seq<C>, bx: Seq<C>, t: int)
    requires
        0 <= t < bx.len(),
    ensures
        window(history, bx, history.len(), t) == window(history, bx.take(t + 1), history.len(), t),
        history.len() > 0 ==> window(history, bx, history.len(), t).last() == bx[t],
{
    assert(window(history, bx, history.len(), t) =~= window(history, bx.take(t + 1), history.len(), t));
}

/// All convolution tensors of a process. A tensor is never changed once it is
/// made, and its number, which is its identity, is never reused.
#[derive(Debug)]
pub struct ConvStore<C> {
    tensors: Vec<Vec<Vec<C>>>,
    zero: C,
}

/// Windows per sequence, and the sequences' next states.
#[derive(Debug)]
pub struct ConvAdvance<C> {
    pub windows: Vec<Vec<Vec<C>>>,
    pub states: Vec<Option<ConvState>>,
}

/// `c` is a row of `k` columns.
pub open spec fn conv_holds<C>(t: Seq<Seq<Seq<C>>>, c: ConvState, k: nat) -> bool {
    &&& c.tensor < t.len()
    &&& c.row < t[c.tensor as int].len()
    &&& t[c.tensor as int][c.row as int].len() == k
}

pub open spec fn conv_holds_all<C>(t: Seq<Seq<Seq<C>>>, states: Seq<Option<ConvState>>, k: nat) -> bool {
    forall|i: int| 0 <= i < states.len() && #[trigger] states[i] is Some ==> conv_holds(t, states[i]->0, k)
}

/// The history that a sequence's state stands for; zeros before its first step.
pub open spec fn history<C>(t: Seq<Seq<Seq<C>>>, state: Option<ConvState>, zero: C, k: nat) -> Seq<C> {
    match state {
        Some(c) => t[c.tensor as int][c.row as int],
        None => zero_history(zero, k),
    }
}

/// Each sequence's history, one row each.
pub open spec fn gathered<C>(t: Seq<Seq<Seq<C>>>, states: Seq<Option<ConvState>>, zero: C, k: nat) -> Seq<Seq<C>> {
    Seq::new(states.len(), |i: int| history(t, states[i], zero, k))
}

/// Tensor `id` holds exactly these sequences' states, in this order.
pub open spec fn is_previous_batch<C>(t: Seq<Seq<Seq<C>>>, states: Seq<Option<ConvState>>, id: int) -> bool {
    &&& states.len() > 0
    &&& 0 <= id < t.len()
    &&& t[id].len() == states.len()
    &&& forall|i: int|
        0 <= i < states.len() ==> #[trigger] states[i] is Some && states[i]->0.row == i && states[i]->0.tensor == id
}

pub open spec fn advanced_rows<C>(rows: Seq<Seq<C>>, inputs: Seq<Seq<C>>) -> Seq<Seq<C>> {
    Seq::new(rows.len(), |i: int| next_history(rows[i], inputs[i]))
}

pub open spec fn deep<C>(t: Seq<Vec<Vec<C>>>) -> Seq<Seq<Seq<C>>> {
    t.map_values(|rows: Vec<Vec<C>>| views(rows@))
}

/// The tensors with everything freed that no state in `live` lies in.
pub open spec fn kept_tensors<C>(t: Seq<Seq<Seq<C>>>, live: Seq<ConvState>) -> Seq<Seq<Seq<C>>> {
    Seq::new(
        t.len(),
        |i: int|
            if exists|m: int| 0 <= m < live.len() && (#[trigger] live[m]).tensor == i {
                t[i]
            } else {
                Seq::empty()
            },
    )
}

/// Law: reading the previous batch's tensor as it is equals gathering the rows.
pub proof fn law_previous_batch_equals_gathering<C>(
    t: Seq<Seq<Seq<C>>>,
    states: Seq<Option<ConvState>>,
    id: int,
    zero: C,
    k: nat,
)
    requires
        is_previous_batch(t, states, id),
    ensures
        t[id] == gathered(t, states, zero, k),
{
    assert forall|i: int| 0 <= i < states.len() implies t[id][i] == #[trigger] gathered(t, states, zero, k)[i] by {
        assert(states[i] is Some);
    }
    assert(t[id] =~= gathered(t, states, zero, k));
}

impl<C> View for ConvStore<C> {
    type V = Seq<Seq<Seq<C>>>;

    closed spec fn view(&self) -> Seq<Seq<Seq<C>>> {
        deep(self.tensors@)
    }
}

impl<C> ConvStore<C> {
    /// What a sequence's history holds before its first input.
    pub closed spec fn spec_zero(self) -> C {
        self.zero
    }
}

impl<C: Copy> ConvStore<C> {
    pub fn new(zero: C) -> (res: Self)
        ensures
            res@ == Seq::<Seq<Seq<C>>>::empty(),
            res.spec_zero() == zero,
    {
        let res = ConvStore { tensors: Vec::new(), zero };
        proof {
            assert(res@ =~= Seq::<Seq<Seq<C>>>::empty());
        }
        res
    }

    /// One sequence's state.
    pub fn row(&self, state: &ConvState) -> (res: Vec<C>)
        requires
            state.tensor < self@.len(),
            state.row < self@[state.tensor as int].len(),
        ensures
            res@ == self@[state.tensor as int][state.row as int],
    {
        let rows = &self.tensors[state.tensor];
        proof {
            assert(self@[state.tensor as int] == views(rows@));
        }
        copied(&rows[state.row])
    }

    /// The tensor a previous step wrote, when `states` is exactly its rows in
    /// order.
    pub fn previous_batch(&self, states: &Vec<Option<ConvState>>) -> (res: Option<usize>)
        requires
            forall|i: int|
                0 <= i < states@.len() && #[trigger] states@[i] is Some ==> states@[i]->0.tensor < self@.len(),
        ensures
            match res {
                Some(id) => is_previous_batch(self@, states@, id as int),
                None => forall|id: int| !#[trigger] is_previous_batch(self@, states@, id),
            },
    {
        if states.len() == 0 {
            return None;
        }
        let id: usize = match states[0] {
            Some(c) => c.tensor,
            None => {
                proof {
                    assert forall|id: int| !#[trigger] is_previous_batch(self@, states@, id) by {
                        assert(states@[0] is None);
                    }
                }
                return None;
            },
        };
        proof {
            assert(states@[0] is Some);
            assert(self@[id as int] == views(self.tensors@[id as int]@));
        }
        if self.tensors[id].len() != states.len() {
            proof {
                assert forall|other: int| !#[trigger] is_previous_batch(self@, states@, other) by {
                    assert(states@[0] is Some);
                }
            }
            return None;
        }
        let mut i: usize = 0;
        while i < states.len()
            invariant
                i <= states@.len(),
                states@.len() > 0,
                states@[0] is Some && states@[0]->0.tensor == id,
                forall|j: int|
                    0 <= j < i ==> #[trigger] states@[j] is Some && states@[j]->0.row == j && states@[j]->0.tensor
                        == id,
            decreases states@.len() - i,
        {
            let ok = match states[i] {
                Some(c) => c.row == i && c.tensor == id,
                None => false,
            };
            if !ok {
                proof {
                    assert forall|other: int| !#[trigger] is_previous_batch(self@, states@, other) by {
                        assert(states@[0] is Some);
                        assert(!(states@[i as int] is Some && states@[i as int]->0.row == i
                            && states@[i as int]->0.tensor == id));
                    }
                }
                return None;
            }
            i = i + 1;
        }
        Some(id)
    }

    /// Each sequence's history as a row of its own.
    fn gather(&self, states: &Vec<Option<ConvState>>, k: usize) -> (res: Vec<Vec<C>>)
        requires
            conv_holds_all(self@, states@, k as nat),
        ensures
            views(res@) == gathered(self@, states@, self.spec_zero(), k as nat),
    {
        let mut rows: Vec<Vec<C>> = Vec::new();
        let mut i: usize = 0;
        while i < states.len()
            invariant
                i <= states@.len(),
                conv_holds_all(self@, states@, k as nat),
                views(rows@) == gathered(self@, states@, self.spec_zero(), k as nat).take(i as int),
            decreases states@.len() - i,
        {
            let row = match states[i] {
                Some(c) => {
                    proof {
                        assert(states@[i as int] is Some);
                    }
                    self.row(&c)
                },
                None => zeros(self.zero, k),
            };
            let ghost before = rows@;
            let ghost all = gathered(self@, states@, self.spec_zero(), k as nat);
            rows.push(row);
            i = i + 1;
            proof {
                assert(views(rows@) =~= views(before).push(row@));
                assert(all.take(i as int) =~= all.take(i - 1).push(all[i - 1]));
            }
        }
        proof {
            assert(views(rows@) =~= gathered(self@, states@, self.spec_zero(), k as nat));
        }
        rows
    }

    /// Feeds `inputs[i]` to sequence `i`. The next states are the rows of one
    /// new tensor; every older state keeps its row.
    pub fn advance(&mut self, states: &Vec<Option<ConvState>>, inputs: &Vec<Vec<C>>, k: usize) -> (res: ConvAdvance<C>)
        requires
            k > 0,
            states@.len() == inputs@.len(),
            conv_holds_all(old(self)@, states@, k as nat),
        ensures
            final(self).spec_zero() == old(self).spec_zero(),
            ({
                let rows = gathered(old(self)@, states@, old(self).spec_zero(), k as nat);
                &&& final(self)@ == old(self)@.push(advanced_rows(rows, views(inputs@)))
                &&& res.windows@.len() == rows.len()
                &&& forall|i: int|
                    0 <= i < rows.len() ==> views((#[trigger] res.windows@[i])@) == windows(rows[i], inputs@[i]@, k as nat)
                &&& res.states@.len() == rows.len()
                &&& forall|i: int|
                    0 <= i < rows.len() ==> #[trigger] res.states@[i] == Some(
                        ConvState { tensor: old(self)@.len() as usize, row: i as usize },
                    )
            }),
            conv_holds_all(final(self)@, res.states@, k as nat),
    {
        let ghost before = self@;
        let ghost rows = gathered(before, states@, self.spec_zero(), k as nat);
        let whole = self.previous_batch(states);
        let gathered_rows: Vec<Vec<C>> = match whole {
            Some(id) => {
                proof {
                    law_previous_batch_equals_gathering(before, states@, id as int, self.spec_zero(), k as nat);
                }
                self.copy_rows(id)
            },
            None => self.gather(states, k),
        };
        let mut out: Vec<Vec<Vec<C>>> = Vec::new();
        let mut next: Vec<Vec<C>> = Vec::new();
        let mut fresh: Vec<Option<ConvState>> = Vec::new();
        let id: usize = self.tensors.len();
        proof {
            assert forall|i: int| 0 <= i < rows.len() implies (#[trigger] rows[i]).len() == k by {
                if states@[i] is Some {
                    assert(conv_holds(before, states@[i]->0, k as nat));
                }
            }
        }
        let mut i: usize = 0;
        while i < inputs.len()
            invariant
                i <= inputs@.len(),
                k > 0,
                views(gathered_rows@) == rows,
                rows.len() == inputs@.len(),
                forall|j: int| 0 <= j < rows.len() ==> (#[trigger] rows[j]).len() == k,
                out@.len() == i,
                forall|j: int|
                    0 <= j < i ==> views((#[trigger] out@[j])@) == windows(rows[j], inputs@[j]@, k as nat),
                views(next@) == advanced_rows(rows, views(inputs@)).take(i as int),
                fresh@.len() == i,
                forall|j: int| 0 <= j < i ==> #[trigger] fresh@[j] == Some(ConvState { tensor: id, row: j as usize }),
            decreases inputs@.len() - i,
        {
            proof {
                assert(rows[i as int] == gathered_rows@[i as int]@);
            }
            let (w, n) = convolve_row(&gathered_rows[i], &inputs[i]);
            let ghost kept = next@;
            out.push(w);
            next.push(n);
            fresh.push(Some(ConvState { tensor: id, row: i }));
            i = i + 1;
            proof {
                let all = advanced_rows(rows, views(inputs@));
                assert(views(next@) =~= views(kept).push(n@));
                assert(all.take(i as int) =~= all.take(i - 1).push(all[i - 1]));
            }
        }
        let ghost tensors = self.tensors@;
        self.tensors.push(next);
        proof {
            let all = advanced_rows(rows, views(inputs@));
            assert(all.take(i as int) =~= all);
            assert(deep(self.tensors@) =~= deep(tensors).push(views(next@)));
            assert(self@ =~= before.push(all));
            assert(id == before.len());
            assert forall|j: int| 0 <= j < fresh@.len() && #[trigger] fresh@[j] is Some implies conv_holds(
                self@,
                fresh@[j]->0,
                k as nat,
            ) by {
                assert(all[j].len() == k);
            }
        }
        ConvAdvance { windows: out, states: fresh }
    }

    /// Frees every tensor that none of the `live` states lies in. Live states
    /// keep their rows; tensor numbers stay taken.
    pub fn keep_only(&mut self, live: &Vec<ConvState>)
        ensures
            final(self).spec_zero() == old(self).spec_zero(),
            final(self)@ == kept_tensors(old(self)@, live@),
            forall|i: int|
                0 <= i < live@.len() && live@[i].tensor < old(self)@.len() ==> final(self)@[(
                #[trigger] live@[i]).tensor as int] == old(self)@[live@[i].tensor as int],
    {
        let ghost before = self@;
        let mut i: usize = 0;
        while i < self.tensors.len()
            invariant
                i <= self.tensors@.len(),
                self.zero == old(self).zero,
                self@.len() == before.len(),
                forall|j: int| 0 <= j < i ==> self@[j] == kept_tensors(before, live@)[j],
                forall|j: int| i <= j < before.len() ==> self@[j] == before[j],
            decreases self.tensors@.len() - i,
        {
            let mut used = false;
            let mut n: usize = 0;
            while n < live.len()
                invariant
                    n <= live@.len(),
                    used == exists|m: int| 0 <= m < n && (#[trigger] live@[m]).tensor == i,
                decreases live@.len() - n,
            {
                if live[n].tensor == i {
                    used = true;
                }
                n = n + 1;
            }
            let ghost mid = self@;
            if !used {
                self.tensors.set(i, Vec::new());
                proof {
                    assert(self@[i as int] =~= Seq::empty());
                }
            }
            proof {
                assert(self@ =~= mid.update(i as int, self@[i as int]));
                assert(self@[i as int] == kept_tensors(before, live@)[i as int]);
            }
            i = i + 1;
        }
        proof {
            assert(self@ =~= kept_tensors(before, live@));
        }
    }

    fn copy_rows(&self, id: usize) -> (res: Vec<Vec<C>>)
        requires
            id < self@.len(),
        ensures
            views(res@) == self@[id as int],
    {
        let from = &self.tensors[id];
        proof {
            assert(self@[id as int] == views(from@));
        }
        let mut rows: Vec<Vec<C>> = Vec::new();
        let mut i: usize = 0;
        while i < from.len()
            invariant
                i <= from@.len(),
                views(rows@) == views(from@).take(i as int),
            decreases from@.len() - i,
        {
            let row = copied(&from[i]);
            let ghost before = rows@;
            rows.push(row);
            i = i + 1;
            proof {
                assert(views(rows@) =~= views(before).push(row@));
                assert(views(from@).take(i as int) =~= views(from@).take(i - 1).push(views(from@)[i - 1]));
            }
        }
        proof {
            assert(views(rows@) =~= views(from@));
        }
        rows
    }
}

/// Law: an output is computed from the `k` latest inputs up to its own, oldest
/// first: entry `j` is the input `k - 1 - j` positions back, taken from the
/// history where that lies before the first new one.
pub proof fn law_windows_hold_the_latest_inputs<C>(history: Seq<C>, bx: Seq<C>, t: int, j: int)
    requires
        0 <= t < bx.len(),
        0 <= j < history.len(),
    ensures
        windows(history, bx, history.len()).len() == bx.len(),
        windows(history, bx, history.len())[t].len() == history.len(),
        ({
            let at = t - (history.len() - 1 - j);
            windows(history, bx, history.len())[t][j] == (if at >= 0 {
                bx[at]
            } else {
                history[history.len() + at]
            })
        }),
{
}

/// Law: the history keeps the `k` latest inputs, oldest first, and forgets all
/// others; so it is what the last window of these inputs was.
pub proof fn law_history_keeps_the_latest_inputs<C>(history: Seq<C>, bx: Seq<C>, j: int)
    requires
        0 <= j < history.len(),
    ensures
        next_history(history, bx).len() == history.len(),
        ({
            let at = bx.len() - (history.len() - j);
            next_history(history, bx)[j] == (if at >= 0 {
                bx[at]
            } else {
                history[history.len() + at]
            })
        }),
        bx.len() > 0 ==> next_history(history, bx) == windows(history, bx, history.len()).last(),
{
    if bx.len() > 0 {
        assert(next_history(history, bx) =~= windows(history, bx, history.len()).last());
    }
}

/// Law: a sequence starts with `k` zeros behind it, and a given state is read
/// as it is.
pub proof fn law_sequences_start_from_zeros<C>(t: Seq<Seq<Seq<C>>>, state: Option<ConvState>, given: Option<Columns<C>>, zero: C, k: nat, j: int)
    requires
        0 <= j < k,
    ensures
        zero_history(zero, k).len() == k,
        zero_history(zero, k)[j] == zero,
        state is None ==> history(t, state, zero, k).len() == k && history(t, state, zero, k)[j] == zero,
        state matches Some(c) ==> history(t, state, zero, k) == t[c.tensor as int][c.row as int],
        given is None ==> history_of(given, zero, k).len() == k && history_of(given, zero, k)[j] == zero,
        given matches Some(s) ==> history_of(given, zero, k) == s.columns@,
{
}

/// Law: a convolution is refused for its shape exactly when it has no taps, no
/// positions or weights for other channels, and otherwise for a state of any
/// other batch, channel or tap count than its own, and for nothing else.
pub proof fn law_convolutions_are_refused_for<C>(bx: Columns<C>, channels: usize, k: usize, state: Option<Columns<C>>)
    ensures
        ({
            let shaped = k >= 1 && bx.columns@.len() >= 1 && channels == bx.hidden;
            let fits = state matches Some(s) ==> s.batch == bx.batch && s.hidden == channels && s.columns@.len() == k;
            &&& causal_conv_error(bx, channels, k, state) is None <==> shaped && fits
            &&& causal_conv_error(bx, channels, k, state) == Some(ConvError::InvalidShape) <==> !shaped
        }),
{
}

/// Law: sequences that step together step as each would alone: the next state
/// of one is computed from its own state and its own inputs.
pub proof fn law_batched_steps_are_independent<C>(
    t: Seq<Seq<Seq<C>>>,
    states: Seq<Option<ConvState>>,
    inputs: Seq<Seq<C>>,
    zero: C,
    k: nat,
    i: int,
)
    requires
        states.len() == inputs.len(),
        0 <= i < states.len(),
    ensures
        ({
            let rows = gathered(t, states, zero, k);
            let alone = gathered(t, seq![states[i]], zero, k);
            let stored = t.push(advanced_rows(rows, inputs));
            let next = ConvState { tensor: t.len() as usize, row: i as usize };
            &&& rows.len() == states.len()
            &&& advanced_rows(rows, inputs).len() == states.len()
            &&& advanced_rows(rows, inputs)[i] == advanced_rows(alone, seq![inputs[i]])[0]
            &&& t.len() <= usize::MAX && states.len() <= usize::MAX ==> history(stored, Some(next), zero, k)
                == next_history(history(t, states[i], zero, k), inputs[i])
            &&& states[i] is Some && states[i]->0.tensor < t.len() ==> history(stored, states[i], zero, k) == history(
                t,
                states[i],
                zero,
                k,
            )
        }),
{
    let alone = gathered(t, seq![states[i]], zero, k);
    assert(alone[0] == history(t, states[i], zero, k));
}

/// Law: the states that one step wrote are recognised as a whole batch, in the
/// order they were written and in no other.
pub proof fn law_whole_batches_are_recognised<C>(t: Seq<Seq<Seq<C>>>, states: Seq<Option<ConvState>>, id: int)
    requires
        0 <= id < t.len() <= usize::MAX,
        0 < states.len() <= usize::MAX,
    ensures
        is_previous_batch(t, states, id) <==> states == Seq::new(
            t[id].len(),
            |i: int| Some(ConvState { tensor: id as usize, row: i as usize }),
        ),
{
    let whole = Seq::new(t[id].len(), |i: int| Some(ConvState { tensor: id as usize, row: i as usize }));
    if is_previous_batch(t, states, id) {
        assert forall|i: int| 0 <= i < states.len() implies #[trigger] states[i] == whole[i] by {
            assert(states[i] is Some && states[i]->0.row == i && states[i]->0.tensor == id);
        }
        assert(states =~= whole);
    }
    if states == whole {
        assert forall|i: int| 0 <= i < states.len() implies #[trigger] states[i] is Some && states[i]->0.row == i
            && states[i]->0.tensor == id by {
            assert(states[i] == whole[i]);
        }
    }
}

/// Law: freeing empties exactly the tensors that no live state lies in, and
/// renumbers none.
pub proof fn law_only_dead_tensors_are_freed<C>(t: Seq<Seq<Seq<C>>>, live: Seq<ConvState>, i: int)
    requires
        0 <= i < t.len(),
    ensures
        kept_tensors(t, live).len() == t.len(),
        (forall|m: int| 0 <= m < live.len() ==> (#[trigger] live[m]).tensor != i) ==> kept_tensors(t, live)[i].len() == 0,
        (exists|m: int| 0 <= m < live.len() && (#[trigger] live[m]).tensor == i) ==> kept_tensors(t, live)[i] == t[i],
{
}

/// Law: whatever windows and history come of a row's inputs, entry `j` of the
/// window of position `t` is the input `k - 1 - j` positions back, and the history
/// is the last `k` inputs; what lies before the first new one comes from the old
/// history.
pub proof fn law_convolved_rows_read_the_latest<C: Copy>(history: Vec<C>, bx: Vec<C>, got: (Vec<Vec<C>>, Vec<C>), t: int, j: int)
    requires
        call_ensures(convolve_row::<C>, (&history, &bx), got),
        0 <= t < bx@.len(),
        0 <= j < history@.len(),
    ensures
        ({
            let k = history@.len() as int;
            let (at, end) = (t - (k - 1 - j), bx@.len() - (k - j));
            &&& got.0@.len() == bx@.len() && got.0@[t]@.len() == k && got.1@.len() == k
            &&& got.0@[t]@[j] == (if at >= 0 { bx@[at] } else { history@[k + at] })
            &&& got.1@[j] == (if end >= 0 { bx@[end] } else { history@[k + end] })
        }),
{
    law_windows_hold_the_latest_inputs(history@, bx@, t, j);
    law_history_keeps_the_latest_inputs(history@, bx@, j);
    let all = windows(history@, bx@, history@.len());
    assert(views(got.0@)[t] == all[t]);
    assert(views(got.0@).len() == all.len());
}

/// Law: whatever a step over several sequences writes, each one's next state is
/// its own history taken on by its own inputs, and every older state keeps its
/// row.
pub proof fn law_advanced_sequences_take_their_own_inputs<C: Copy>(
    store: &mut ConvStore<C>,
    states: Vec<Option<ConvState>>,
    inputs: Vec<Vec<C>>,
    k: usize,
    done: ConvAdvance<C>,
    i: int,
    j: int,
    older: ConvState,
)
    requires
        call_ensures(ConvStore::<C>::advance, (store, &states, &inputs, k), done),
        states@.len() == inputs@.len(),
        conv_holds_all(old(store)@, states@, k as nat),
        old(store)@.len() < usize::MAX,
        0 <= i < states@.len() <= usize::MAX,
        0 <= j < k,
        older.tensor < old(store)@.len(),
    ensures
        done.states@.len() == states@.len(),
        done.states@[i] is Some,
        final(store)@[older.tensor as int] == old(store)@[older.tensor as int],
        ({
            let next = final(store)@[done.states@[i]->0.tensor as int][done.states@[i]->0.row as int];
            let end = inputs@[i]@.len() - (k - j);
            &&& next.len() == k
            &&& next[j] == (if end >= 0 {
                inputs@[i]@[end]
            } else if states@[i] is Some {
                old(store)@[states@[i]->0.tensor as int][states@[i]->0.row as int][k + end]
            } else {
                old(store).spec_zero()
            })
        }),
{
    let zero = old(store).spec_zero();
    let rows = gathered(old(store)@, states@, zero, k as nat);
    let own = history(old(store)@, states@[i], zero, k as nat);
    if states@[i] is Some {
        assert(conv_holds(old(store)@, states@[i]->0, k as nat));
    }
    assert(own.len() == k);
    assert(rows[i] == own);
    law_history_keeps_the_latest_inputs(own, inputs@[i]@, j);
    assert(advanced_rows(rows, views(inputs@))[i] == next_history(own, inputs@[i]@));
}

} // verus!
