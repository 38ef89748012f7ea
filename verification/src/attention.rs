//! Shape logic of grouped attention: each key/value head serves several query
//! heads, which are folded into the rows of one product, so that keys and
//! values are never expanded to the number of query heads.

use vstd::prelude::*;
use crate::tensor::Operand;

verus! {

#[derive(Clone, Copy, PartialEq, Eq, Structural, Debug)]
pub enum AttentionError {
    /// Queries or keys that are not `(batch, heads, positions, width)`.
    Rank,
    /// Queries, keys and values that do not fit together.
    InvalidDimensions,
}

/// How the products run.
#[derive(Clone, Copy, PartialEq, Eq, Structural, Debug)]
pub enum AttentionPlan {
    /// Queries viewed as `(batch, kv_heads, rows, width)`; keys and values as
    /// they are.
    Grouped { kv_heads: usize, rows: usize, repeats: usize },
    /// Each key/value head repeated for its query heads.
    Repeated { repeats: usize },
}

pub open spec fn attention_error(q: Operand, k: Operand, v: Operand) -> Option<AttentionError> {
    if q.dims@.len() != 4 || k.dims@.len() != 4 {
        Some(AttentionError::Rank)
    } else {
        let (heads, kv_heads) = (q.dims@[1], k.dims@[1]);
        if q.dims@[0] != k.dims@[0] || q.dims@[3] != k.dims@[3] || kv_heads == 0 || heads == 0 || q.dims@[2] == 0
            || q.dims@[3] == 0 || k.dims@[2] == 0 || heads % kv_heads != 0 || k.dims@ != v.dims@ {
            Some(AttentionError::InvalidDimensions)
        } else {
            None
        }
    }
}

pub open spec fn spec_plan(q: Operand, k: Operand) -> AttentionPlan {
    let repeats = q.dims@[1] / k.dims@[1];
    if q.device.spec_is_cpu() || q.device.spec_is_rocm() {
        AttentionPlan::Grouped { kv_heads: k.dims@[1], rows: (repeats * q.dims@[2]) as usize, repeats }
    } else {
        AttentionPlan::Repeated { repeats }
    }
}

fn same_dims(a: &Vec<usize>, b: &Vec<usize>) -> (res: bool)
    ensures
        res == (a@ == b@),
{
    if a.len() != b.len() {
        return false;
    }
    let mut i: usize = 0;
    while i < a.len()
        invariant
            i <= a@.len() == b@.len(),
            forall|j: int| 0 <= j < i ==> a@[j] == b@[j],
        decreases a@.len() - i,
    {
        if a[i] != b[i] {
            return false;
        }
        i = i + 1;
    }
    proof {
        assert(a@ =~= b@);
    }
    true
}

/// Checks the dimensions and decides how the products run. CPU and ROCm group;
/// other devices repeat the heads.
pub fn forward(q: &Operand, k: &Operand, v: &Operand) -> (res: Result<AttentionPlan, AttentionError>)
    requires
        q.dims@.len() == 4 ==> q.dims@[1] * q.dims@[2] <= usize::MAX,
    ensures
        match res {
            Ok(plan) => attention_error(*q, *k, *v) is None && plan == spec_plan(*q, *k),
            Err(e) => attention_error(*q, *k, *v) == Some(e),
        },
{
    if q.dims.len() != 4 || k.dims.len() != 4 {
        return Err(AttentionError::Rank);
    }
    let heads: usize = q.dims[1];
    let seq: usize = q.dims[2];
    let kv_heads: usize = k.dims[1];
    if q.dims[0] != k.dims[0] || q.dims[3] != k.dims[3] || kv_heads == 0 || heads == 0 || seq == 0 || q.dims[3] == 0
        || k.dims[2] == 0 || heads % kv_heads != 0 || !same_dims(&k.dims, &v.dims) {
        return Err(AttentionError::InvalidDimensions);
    }
    let repeats: usize = heads / kv_heads;
    proof {
        assert(repeats * seq <= heads * seq) by (nonlinear_arith)
            requires
                repeats <= heads,
        ;
    }
    if q.device.is_cpu() || q.device.is_rocm() {
        Ok(AttentionPlan::Grouped { kv_heads, rows: repeats * seq, repeats })
    } else {
        Ok(AttentionPlan::Repeated { repeats })
    }
}

/// Position of element `(b, h, t, d)` in a contiguous `(_, heads, seq, width)`.
pub open spec fn flat4(heads: int, seq: int, width: int, b: int, h: int, t: int, d: int) -> int {
    ((b * heads + h) * seq + t) * width + d
}

/// The key/value head that query head `h` reads.
pub open spec fn kv_head_of(h: int, repeats: int) -> int {
    h / repeats
}

/// The row of its key/value head's group in which query head `h` has position `t`.
pub open spec fn group_row(h: int, t: int, repeats: int, seq: int) -> int {
    (h % repeats) * seq + t
}

/// Law: viewing the query heads in groups moves no element. Head `h` at
/// position `t` is one row of the group of key/value head `h / repeats`: the
/// head that repeating would have put beside it.
pub proof fn law_grouping_matches_repeated_heads(
    kv_heads: int,
    repeats: int,
    seq: int,
    width: int,
    b: int,
    h: int,
    t: int,
    d: int,
)
    requires
        0 < kv_heads,
        0 < repeats,
        0 < seq,
        0 < width,
        0 <= b,
        0 <= h < kv_heads * repeats,
        0 <= t < seq,
        0 <= d < width,
    ensures
        0 <= kv_head_of(h, repeats) < kv_heads,
        0 <= group_row(h, t, repeats, seq) < repeats * seq,
        flat4(kv_heads * repeats, seq, width, b, h, t, d) == flat4(
            kv_heads,
            repeats * seq,
            width,
            b,
            kv_head_of(h, repeats),
            group_row(h, t, repeats, seq),
            d,
        ),
{
    let g = h / repeats;
    let m = h % repeats;
    vstd::arithmetic::div_mod::lemma_fundamental_div_mod(h, repeats);
    assert(h == repeats * g + m && 0 <= m < repeats);
    assert(0 <= g < kv_heads) by (nonlinear_arith)
        requires
            h == repeats * g + m,
            0 <= m < repeats,
            0 <= h < kv_heads * repeats,
    ;
    assert(0 <= m * seq + t < repeats * seq) by (nonlinear_arith)
        requires
            0 <= m < repeats,
            0 <= t < seq,
    ;
    assert((b * (kv_heads * repeats) + h) * seq + t == (b * kv_heads + g) * (repeats * seq) + (m * seq + t))
        by (nonlinear_arith)
        requires
            h == repeats * g + m,
    ;
}

/// Whether the query at new position `t`, after `past` older ones, must not
/// see position `j`.
pub open spec fn hidden(past: int, t: int, j: int) -> bool {
    j > past + t
}

/// The causal mask of `seq` new positions after `past` older ones: a row per
/// new position, an entry per position, true where it is hidden.
pub fn causal_mask(seq: usize, past: usize) -> (res: Vec<Vec<bool>>)
    requires
        seq + past <= usize::MAX,
    ensures
        res@.len() == seq,
        forall|t: int| 0 <= t < seq ==> (#[trigger] res@[t])@ == Seq::new((seq + past) as nat, |j: int| hidden(past as int, t, j)),
        forall|t: int, j: int| 0 <= t < seq && 0 <= j < seq + past ==> (#[trigger] res@[t]@[j] <==> j > past + t),
{
    let total: usize = seq + past;
    let mut rows: Vec<Vec<bool>> = Vec::new();
    let mut t: usize = 0;
    while t < seq
        invariant
            t <= seq,
            total == seq + past <= usize::MAX,
            rows@.len() == t,
            forall|u: int| 0 <= u < t ==> (#[trigger] rows@[u])@ == Seq::new(total as nat, |j: int| hidden(past as int, u, j)),
        decreases seq - t,
    {
        let mut row: Vec<bool> = Vec::new();
        let mut j: usize = 0;
        while j < total
            invariant
                j <= total,
                t < seq,
                total == seq + past <= usize::MAX,
                row@ == Seq::new(j as nat, |i: int| hidden(past as int, t as int, i)),
            decreases total - j,
        {
            row.push(j > past + t);
            j = j + 1;
            proof {
                assert(row@ =~= Seq::new(j as nat, |i: int| hidden(past as int, t as int, i)));
            }
        }
        rows.push(row);
        t = t + 1;
    }
    rows
}

/// Law: a single new position sees everything, so it needs no mask.
pub proof fn law_one_position_needs_no_mask(past: int, j: int)
    requires
        0 <= j < past + 1,
    ensures
        !hidden(past, 0, j),
{
}

/// Law: splitting a prompt changes nobody's sight. A position sees the same
/// positions whether it comes in one chunk with all before it or in a later one.
pub proof fn law_chunks_see_the_same(past: int, head: int, t: int, j: int)
    ensures
        hidden(past, head + t, j) == hidden(past + head, t, j),
{
}

/// Law: a position sees itself and everything before it, however far back, and
/// nothing after it, however far ahead.
pub proof fn law_positions_see_exactly_their_past(past: int, t: int, ahead: int)
    requires
        0 <= past,
        0 <= t,
    ensures
        !hidden(past, t, past + t),
        ahead > 0 ==> hidden(past, t, past + t + ahead),
        ahead < 0 ==> !hidden(past, t, past + t + ahead),
{
}

/// Law: what a position attends to does not change when later positions do.
/// Two sequences of keys that agree up to and at a position agree on every key
/// that it is not kept from seeing.
pub proof fn law_later_keys_do_not_matter<K>(past: int, t: int, a: Seq<K>, b: Seq<K>)
    requires
        0 <= past,
        0 <= t,
        past + t < a.len(),
        a.len() == b.len(),
        a.take(past + t + 1) == b.take(past + t + 1),
    ensures
        forall|j: int| 0 <= j < a.len() && !hidden(past, t, j) ==> #[trigger] a[j] == b[j],
        forall|j: int| 0 <= j < past + t + 1 ==> !#[trigger] hidden(past, t, j),
{
    assert forall|j: int| 0 <= j < a.len() && !hidden(past, t, j) implies #[trigger] a[j] == b[j] by {
        let (x, y) = (a.take(past + t + 1), b.take(past + t + 1));
        assert(j < past + t + 1);
        assert(x[j] == a[j] && y[j] == b[j]);
    }
}

/// Law: attention runs exactly when the query heads are `repeats` times the
/// key/value heads, over one batch and one width, with something to attend to:
/// then each key/value head takes `repeats` times the new positions as rows,
/// or is repeated as often where heads are not grouped.
pub proof fn law_attention_takes_multiples_of_heads(
    q: Operand,
    k: Operand,
    v: Operand,
    kv_heads: usize,
    repeats: usize,
    seq: usize,
    width: usize,
)
    requires
        q.dims@.len() == 4,
        k.dims@.len() == 4,
        q.dims@[1] == kv_heads * repeats,
        q.dims@[2] == seq,
        q.dims@[3] == width,
        k.dims@[1] == kv_heads,
        0 < kv_heads,
        repeats * seq <= usize::MAX,
    ensures
        attention_error(q, k, v) is None <==> repeats > 0 && seq > 0 && width > 0 && k.dims@[0] == q.dims@[0]
            && k.dims@[2] > 0 && k.dims@[3] == width && v.dims@ == k.dims@,
        q.device is Other ==> spec_plan(q, k) == (AttentionPlan::Repeated { repeats }),
        q.device is Cpu || q.device is Rocm ==> spec_plan(q, k) == (AttentionPlan::Grouped {
            kv_heads,
            rows: (repeats * seq) as usize,
            repeats,
        }),
{
    let (h, n, r) = (q.dims@[1] as int, kv_heads as int, repeats as int);
    vstd::arithmetic::div_mod::lemma_div_multiples_vanish(r, n);
    vstd::arithmetic::div_mod::lemma_mod_multiples_basic(r, n);
    assert(n * r == r * n) by (nonlinear_arith);
    assert(h / n == r && h % n == 0);
    assert(h > 0 <==> r > 0) by (nonlinear_arith)
        requires
            h == n * r,
            n > 0,
            r >= 0,
    ;
}

/// Law: attention that is not refused has its query heads in whole groups.
pub proof fn law_accepted_heads_come_in_groups(q: Operand, k: Operand, v: Operand)
    requires
        attention_error(q, k, v) is None,
    ensures
        q.dims@.len() == 4,
        k.dims@.len() == 4,
        v.dims@ == k.dims@,
        k.dims@[1] > 0,
        exists|repeats: int| repeats > 0 && q.dims@[1] == #[trigger] (k.dims@[1] * repeats),
        q.dims@[0] == k.dims@[0],
        q.dims@[3] == k.dims@[3],
        q.dims@[2] > 0,
        q.dims@[3] > 0,
        k.dims@[2] > 0,
{
    let (h, n) = (q.dims@[1] as int, k.dims@[1] as int);
    vstd::arithmetic::div_mod::lemma_fundamental_div_mod(h, n);
    let r = h / n;
    assert(r > 0) by (nonlinear_arith)
        requires
            h == n * r,
            h > 0,
            n > 0,
    ;
    assert(q.dims@[1] == k.dims@[1] * r);
}

/// Law: queries or keys of another rank are refused for it, and nothing else is;
/// no key/value heads, or query heads that they do not divide, are refused as
/// dimensions.
pub proof fn law_attention_is_refused_for(q: Operand, k: Operand, v: Operand)
    ensures
        attention_error(q, k, v) == Some(AttentionError::Rank) <==> !(q.dims@.len() == 4 && k.dims@.len() == 4),
        q.dims@.len() == 4 && k.dims@.len() == 4 && k.dims@[1] == 0 ==> attention_error(q, k, v) == Some(
            AttentionError::InvalidDimensions,
        ),
        q.dims@.len() == 4 && k.dims@.len() == 4 && k.dims@[1] > 0 && (forall|repeats: int|
            q.dims@[1] != #[trigger] (k.dims@[1] * repeats)) ==> attention_error(q, k, v) == Some(
            AttentionError::InvalidDimensions,
        ),
{
    if q.dims@.len() == 4 && k.dims@.len() == 4 && k.dims@[1] > 0 {
        let (h, n) = (q.dims@[1] as int, k.dims@[1] as int);
        vstd::arithmetic::div_mod::lemma_fundamental_div_mod(h, n);
        let r = h / n;
        assert(q.dims@[1] % k.dims@[1] == 0 ==> q.dims@[1] == k.dims@[1] * r);
    }
}

/// Law: whatever mask is made, position `t` of the new ones is kept from
/// exactly the positions after its own.
pub proof fn law_masks_hide_exactly_the_future(seq: usize, past: usize, mask: Vec<Vec<bool>>, t: int, j: int)
    requires
        call_ensures(causal_mask, (seq, past), mask),
        0 <= t < seq,
        0 <= j < seq + past,
    ensures
        mask@.len() == seq,
        mask@[t]@.len() == seq + past,
        mask@[t]@[j] <==> j - past > t,
{
}

} // verus!
