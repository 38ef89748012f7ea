//! Which elements of its inputs each element of a fused operation is made of,
//! as positions in contiguous tensors.
//!
//! - A combination gives `(rows, hidden)` from expert outputs
//!   `(rows, topk, hidden)` and weights `(rows, topk)`: the sum over the slots
//!   of an output times its weight.
//! - A convolution step gives `(batch, 1, hidden)` from `(batch, 1, 3 * hidden)`:
//!   the first third times the last is the new input of a channel, the middle
//!   third gates what the channel gives.
//! - A gated activation gives `(rows, half)` from `(rows, 2 * half)`: the
//!   activated first half times the second.

use vstd::prelude::*;

verus! {

/// Position of element `(a, b)` of a contiguous `(_, width)`.
pub open spec fn flat2(width: int, a: int, b: int) -> int {
    a * width + b
}

/// Position of element `(a, b, c)` of a contiguous `(_, height, width)`.
pub open spec fn flat3(height: int, width: int, a: int, b: int, c: int) -> int {
    (a * height + b) * width + c
}

proof fn lemma_split(e: int, n: int, w: int)
    requires
        0 <= e < n * w,
        0 < w,
    ensures
        0 <= e / w < n,
        0 <= e % w < w,
        e == flat2(w, e / w, e % w),
{
    vstd::arithmetic::div_mod::lemma_fundamental_div_mod(e, w);
    vstd::arithmetic::div_mod::lemma_div_pos_is_pos(e, w);
    let q = e / w;
    assert(q < n) by (nonlinear_arith)
        requires
            w * q <= e,
            e < n * w,
            w > 0,
    ;
    assert(w * q == q * w) by (nonlinear_arith);
}

proof fn lemma_join(a: int, b: int, n: int, w: int)
    requires
        0 <= a < n,
        0 <= b < w,
    ensures
        0 <= flat2(w, a, b) < n * w,
        flat2(w, a, b) / w == a,
        flat2(w, a, b) % w == b,
{
    assert(0 <= a * w && a * w + b < n * w) by (nonlinear_arith)
        requires
            0 <= a <= n - 1,
            0 <= b < w,
    ;
    vstd::arithmetic::div_mod::lemma_fundamental_div_mod_converse(a * w + b, w, a, b);
}

/// An expert output and the weight it is multiplied by.
#[derive(Clone, Copy, PartialEq, Eq, Structural, Debug)]
pub struct CombineTerm {
    pub output: usize,
    pub weight: usize,
}

/// The expert output that slot `slot` adds to combined element `out`: that of
/// the same token and channel.
pub open spec fn combine_output(topk: int, hidden: int, out: int, slot: int) -> int {
    flat3(topk, hidden, out / hidden, slot, out % hidden)
}

/// The weight of slot `slot` in combined element `out`: that of the same token.
pub open spec fn combine_weight(topk: int, hidden: int, out: int, slot: int) -> int {
    flat2(topk, out / hidden, slot)
}

proof fn lemma_combine_term(rows: int, topk: int, hidden: int, out: int, slot: int)
    requires
        0 <= out < rows * hidden,
        0 <= slot < topk,
        0 < hidden,
    ensures
        0 <= out / hidden < rows,
        0 <= out % hidden < hidden,
        0 <= combine_weight(topk, hidden, out, slot) < rows * topk,
        0 <= combine_output(topk, hidden, out, slot) < rows * topk * hidden,
        combine_output(topk, hidden, out, slot) / hidden == combine_weight(topk, hidden, out, slot),
        combine_output(topk, hidden, out, slot) % hidden == out % hidden,
{
    lemma_split(out, rows, hidden);
    lemma_join(out / hidden, slot, rows, topk);
    lemma_join(combine_weight(topk, hidden, out, slot), out % hidden, rows * topk, hidden);
}

/// What slot `slot` adds to combined element `out`.
pub fn combine_term(rows: usize, topk: usize, hidden: usize, out: usize, slot: usize) -> (res: CombineTerm)
    requires
        out < rows * hidden,
        slot < topk,
        rows * topk * hidden <= usize::MAX,
    ensures
        res.output == combine_output(topk as int, hidden as int, out as int, slot as int),
        res.weight == combine_weight(topk as int, hidden as int, out as int, slot as int),
{
    proof {
        assert(hidden > 0) by (nonlinear_arith)
            requires
                out < rows * hidden,
                out >= 0,
                hidden >= 0,
        ;
        let (r, t, h, o, s) = (rows as int, topk as int, hidden as int, out as int, slot as int);
        lemma_combine_term(r, t, h, o, s);
        assert(r * t <= r * t * h) by (nonlinear_arith)
            requires
                r >= 0,
                t >= 0,
                h >= 1,
        ;
        let row = o / h;
        assert(0 <= row * t <= row * t + s) by (nonlinear_arith)
            requires
                0 <= row,
                0 <= t,
                0 <= s,
        ;
        let pair = row * t + s;
        assert(0 <= pair * h) by (nonlinear_arith)
            requires
                0 <= pair,
                0 <= h,
        ;
    }
    let weight: usize = out / hidden * topk + slot;
    CombineTerm { output: weight * hidden + out % hidden, weight }
}

/// Law: a combination takes every expert output exactly once, with the weight
/// of its own token and slot, into the element of its own token and channel.
pub proof fn law_combination_takes_every_output_once(rows: int, topk: int, hidden: int, e: int)
    requires
        0 < topk,
        0 < hidden,
        0 <= e < rows * topk * hidden,
    ensures
        ({
            let pair = e / hidden;
            let out = flat2(hidden, pair / topk, e % hidden);
            let slot = pair % topk;
            &&& 0 <= out < rows * hidden
            &&& 0 <= slot < topk
            &&& combine_output(topk, hidden, out, slot) == e
            &&& combine_weight(topk, hidden, out, slot) == pair
            &&& forall|o: int, s: int|
                0 <= o < rows * hidden && 0 <= s < topk && #[trigger] combine_output(topk, hidden, o, s) == e ==> o == out
                    && s == slot
        }),
{
    let pair = e / hidden;
    lemma_split(e, rows * topk, hidden);
    lemma_split(pair, rows, topk);
    lemma_join(pair / topk, e % hidden, rows, hidden);
    let out = flat2(hidden, pair / topk, e % hidden);
    let slot = pair % topk;
    assert forall|o: int, s: int|
        0 <= o < rows * hidden && 0 <= s < topk && #[trigger] combine_output(topk, hidden, o, s) == e implies o == out && s
        == slot by {
        lemma_combine_term(rows, topk, hidden, o, s);
        lemma_split(o, rows, hidden);
        lemma_join(o / hidden, s, rows, topk);
    }
}

/// The three inputs of a channel, for one token.
#[derive(Clone, Copy, PartialEq, Eq, Structural, Debug)]
pub struct StepChannel {
    pub first: usize,
    /// Multiplies what the channel gives.
    pub gate: usize,
    /// Times `first`: the channel's new input.
    pub second: usize,
}

/// Third `part` of the input of row `row`, which is channel `row % hidden` of
/// token `row / hidden`.
pub open spec fn step_input(hidden: int, row: int, part: int) -> int {
    flat3(3, hidden, row / hidden, part, row % hidden)
}

proof fn lemma_step_input(batch: int, hidden: int, row: int, part: int)
    requires
        0 <= row < batch * hidden,
        0 < hidden,
        0 <= part < 3,
    ensures
        0 <= row / hidden < batch,
        0 <= row % hidden < hidden,
        0 <= step_input(hidden, row, part) < batch * (3 * hidden),
        step_input(hidden, row, part) / hidden == row / hidden * 3 + part,
        step_input(hidden, row, part) % hidden == row % hidden,
        (row / hidden * 3 + part) / 3 == row / hidden,
        (row / hidden * 3 + part) % 3 == part,
{
    lemma_split(row, batch, hidden);
    lemma_join(row / hidden, part, batch, 3);
    lemma_join(row / hidden * 3 + part, row % hidden, batch * 3, hidden);
    assert(batch * 3 * hidden == batch * (3 * hidden)) by (nonlinear_arith);
}

/// The inputs of row `row` of a step.
pub fn step_channel(batch: usize, hidden: usize, row: usize) -> (res: StepChannel)
    requires
        row < batch * hidden,
        batch * (3 * hidden) <= usize::MAX,
    ensures
        res.first == step_input(hidden as int, row as int, 0),
        res.gate == step_input(hidden as int, row as int, 1),
        res.second == step_input(hidden as int, row as int, 2),
{
    proof {
        assert(hidden > 0) by (nonlinear_arith)
            requires
                row < batch * hidden,
                row >= 0,
                hidden >= 0,
        ;
        let (b, h, r) = (batch as int, hidden as int, row as int);
        lemma_step_input(b, h, r, 0);
        lemma_step_input(b, h, r, 1);
        lemma_step_input(b, h, r, 2);
        let q = r / h;
        assert((q * 3 + 0) * h + h == (q * 3 + 1) * h && (q * 3 + 1) * h + h == (q * 3 + 2) * h && 0 <= q * 3 * h)
            by (nonlinear_arith)
            requires
                q >= 0,
                h >= 0,
        ;
        assert(q * 3 <= q * 3 * h) by (nonlinear_arith)
            requires
                q >= 0,
                h >= 1,
        ;
    }
    let first: usize = row / hidden * 3 * hidden + row % hidden;
    StepChannel { first, gate: first + hidden, second: first + hidden + hidden }
}

/// Law: a step takes every input exactly once: each is one third of one row.
pub proof fn law_step_takes_every_input_once(batch: int, hidden: int, e: int)
    requires
        0 < hidden,
        0 <= e < batch * (3 * hidden),
    ensures
        ({
            let third = e / hidden;
            let row = flat2(hidden, third / 3, e % hidden);
            &&& 0 <= row < batch * hidden
            &&& 0 <= third % 3 < 3
            &&& step_input(hidden, row, third % 3) == e
            &&& forall|r: int, part: int|
                0 <= r < batch * hidden && 0 <= part < 3 && #[trigger] step_input(hidden, r, part) == e ==> r == row
                    && part == third % 3
        }),
{
    let third = e / hidden;
    assert(batch * 3 * hidden == batch * (3 * hidden)) by (nonlinear_arith);
    lemma_split(e, batch * 3, hidden);
    lemma_split(third, batch, 3);
    lemma_join(third / 3, e % hidden, batch, hidden);
    let row = flat2(hidden, third / 3, e % hidden);
    assert forall|r: int, part: int|
        0 <= r < batch * hidden && 0 <= part < 3 && #[trigger] step_input(hidden, r, part) == e implies r == row && part
        == third % 3 by {
        lemma_step_input(batch, hidden, r, part);
        lemma_split(r, batch, hidden);
    }
}

/// Law: the rows of a step are its channels, token by token. Channel `c` of
/// token `b` is row `b * hidden + c`: its output is that element, its state that
/// row of `k`, its tap `j` weighs input `j` of that row, and its inputs are
/// elements `c`, `hidden + c` and `2 * hidden + c` of its token.
pub proof fn law_step_rows_are_channels(batch: int, hidden: int, k: int, b: int, c: int, j: int)
    requires
        0 <= b < batch,
        0 <= c < hidden,
        0 <= j < k,
    ensures
        ({
            let row = flat2(hidden, b, c);
            &&& 0 <= row < batch * hidden
            &&& row == flat3(1, hidden, b, 0, c)
            &&& flat2(k, row, j) == flat3(hidden, k, b, c, j)
            &&& row % hidden == c
            &&& step_input(hidden, row, 0) == flat3(1, 3 * hidden, b, 0, c)
            &&& step_input(hidden, row, 1) == flat3(1, 3 * hidden, b, 0, hidden + c)
            &&& step_input(hidden, row, 2) == flat3(1, 3 * hidden, b, 0, 2 * hidden + c)
        }),
{
    lemma_join(b, c, batch, hidden);
    assert((b * 3 + 0) * hidden + c == (b * 1 + 0) * (3 * hidden) + c) by (nonlinear_arith);
    assert((b * 3 + 1) * hidden + c == (b * 1 + 0) * (3 * hidden) + (hidden + c)) by (nonlinear_arith);
    assert((b * 3 + 2) * hidden + c == (b * 1 + 0) * (3 * hidden) + (2 * hidden + c)) by (nonlinear_arith);
}

/// The two inputs of an element of a gated activation.
#[derive(Clone, Copy, PartialEq, Eq, Structural, Debug)]
pub struct GatedTerm {
    /// Goes through the activation.
    pub activated: usize,
    pub factor: usize,
}

/// Half `part` of the input of element `out`: the same place in its row's half.
pub open spec fn gated_input(half: int, out: int, part: int) -> int {
    flat3(2, half, out / half, part, out % half)
}

proof fn lemma_gated_input(rows: int, half: int, out: int, part: int)
    requires
        0 <= out < rows * half,
        0 < half,
        0 <= part < 2,
    ensures
        0 <= out / half < rows,
        0 <= out % half < half,
        0 <= gated_input(half, out, part) < rows * (2 * half),
        gated_input(half, out, part) / half == out / half * 2 + part,
        gated_input(half, out, part) % half == out % half,
        (out / half * 2 + part) / 2 == out / half,
        (out / half * 2 + part) % 2 == part,
{
    lemma_split(out, rows, half);
    lemma_join(out / half, part, rows, 2);
    lemma_join(out / half * 2 + part, out % half, rows * 2, half);
    assert(rows * 2 * half == rows * (2 * half)) by (nonlinear_arith);
}

/// The inputs of element `out` of a gated activation.
pub fn gated_term(rows: usize, half: usize, out: usize) -> (res: GatedTerm)
    requires
        out < rows * half,
        rows * (2 * half) <= usize::MAX,
    ensures
        res.activated == gated_input(half as int, out as int, 0),
        res.factor == gated_input(half as int, out as int, 1),
{
    proof {
        assert(half > 0) by (nonlinear_arith)
            requires
                out < rows * half,
                out >= 0,
                half >= 0,
        ;
        let (r, h, o) = (rows as int, half as int, out as int);
        lemma_gated_input(r, h, o, 0);
        lemma_gated_input(r, h, o, 1);
        let q = o / h;
        assert((q * 2 + 0) * h + h == (q * 2 + 1) * h && 0 <= q * 2 * h) by (nonlinear_arith)
            requires
                q >= 0,
                h >= 0,
        ;
        assert(q * 2 <= q * 2 * h) by (nonlinear_arith)
            requires
                q >= 0,
                h >= 1,
        ;
    }
    let activated: usize = out / half * 2 * half + out % half;
    GatedTerm { activated, factor: activated + half }
}

/// Law: a gated activation takes every input exactly once; element `i` of a row
/// is made of elements `i` and `half + i` of that row.
pub proof fn law_gating_takes_every_input_once(rows: int, half: int, e: int)
    requires
        0 < half,
        0 <= e < rows * (2 * half),
    ensures
        ({
            let part = e / half;
            let out = flat2(half, part / 2, e % half);
            &&& 0 <= out < rows * half
            &&& 0 <= part % 2 < 2
            &&& gated_input(half, out, part % 2) == e
            &&& e == flat2(2 * half, part / 2, part % 2 * half + e % half)
            &&& forall|o: int, p: int|
                0 <= o < rows * half && 0 <= p < 2 && #[trigger] gated_input(half, o, p) == e ==> o == out && p == part % 2
        }),
{
    let part = e / half;
    assert(rows * 2 * half == rows * (2 * half)) by (nonlinear_arith);
    lemma_split(e, rows * 2, half);
    lemma_split(part, rows, 2);
    lemma_join(part / 2, e % half, rows, half);
    let out = flat2(half, part / 2, e % half);
    let (q, p, m) = (part / 2, part % 2, e % half);
    assert((q * 2 + p) * half + m == q * (2 * half) + (p * half + m)) by (nonlinear_arith);
    assert forall|o: int, p: int|
        0 <= o < rows * half && 0 <= p < 2 && #[trigger] gated_input(half, o, p) == e implies o == out && p == part % 2 by {
        lemma_gated_input(rows, half, o, p);
        lemma_split(o, rows, half);
    }
}

/// Law: whatever terms are given for channel `c` of token `b`, slot `s` adds the
/// expert output of that token, slot and channel, times the weight of that token
/// and slot.
pub proof fn law_given_terms_combine(rows: usize, topk: usize, hidden: usize, out: usize, slot: usize, term: CombineTerm, b: int, c: int)
    requires
        call_ensures(combine_term, (rows, topk, hidden, out, slot), term),
        0 <= b < rows,
        0 <= c < hidden,
        out == b * hidden + c,
    ensures
        term.output == (b * topk + slot) * hidden + c,
        term.weight == b * topk + slot,
{
    lemma_join(b, c, rows as int, hidden as int);
}

/// Law: whatever inputs are given for channel `c` of token `b`, they are elements
/// `c`, `hidden + c` and `2 * hidden + c` of the token's `3 * hidden`: the two
/// outer ones are multiplied, the middle one gates.
pub proof fn law_given_inputs_step(batch: usize, hidden: usize, row: usize, inputs: StepChannel, b: int, c: int)
    requires
        call_ensures(step_channel, (batch, hidden, row), inputs),
        0 <= b < batch,
        0 <= c < hidden,
        row == b * hidden + c,
    ensures
        inputs.first == b * (3 * hidden) + c,
        inputs.gate == b * (3 * hidden) + hidden + c,
        inputs.second == b * (3 * hidden) + 2 * hidden + c,
{
    let h = hidden as int;
    lemma_join(b, c, batch as int, h);
    assert((b * 3 + 0) * h + c == b * (3 * h) + c) by (nonlinear_arith);
    assert((b * 3 + 1) * h + c == b * (3 * h) + h + c) by (nonlinear_arith);
    assert((b * 3 + 2) * h + c == b * (3 * h) + 2 * h + c) by (nonlinear_arith);
}

/// Law: whatever inputs are given for element `i` of a gated row, they are
/// elements `i` and `half + i` of the row's `2 * half`; the first is activated.
pub proof fn law_given_inputs_gate(rows: usize, half: usize, out: usize, inputs: GatedTerm, r: int, i: int)
    requires
        call_ensures(gated_term, (rows, half, out), inputs),
        0 <= r < rows,
        0 <= i < half,
        out == r * half + i,
    ensures
        inputs.activated == r * (2 * half) + i,
        inputs.factor == r * (2 * half) + half + i,
{
    let h = half as int;
    lemma_join(r, i, rows as int, h);
    assert((r * 2 + 0) * h + i == r * (2 * h) + i) by (nonlinear_arith);
    assert((r * 2 + 1) * h + i == r * (2 * h) + h + i) by (nonlinear_arith);
}

} // verus!
