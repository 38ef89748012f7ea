//! Packed weight tensors, and stacking them without unpacking.
//!
//! A tensor's rows lie one after the other, each a whole number of packed
//! blocks. Stacking along any dimension but the rows' own width moves whole
//! rows, so the packed bytes of every row stay as they are.

use vstd::prelude::*;
use crate::quantized::GgmlDType;
use crate::tensor;
use crate::tensor::elem_count;

verus! {

#[derive(Debug)]
pub struct QTensor {
    pub dtype: GgmlDType,
    pub dims: Vec<usize>,
    pub data: Vec<u8>,
}

#[derive(Clone, Copy, PartialEq, Eq, Structural, Debug)]
pub enum CatError {
    /// Nothing to stack.
    Empty,
    /// The dimension is the width of a row, or does not exist.
    Dimension,
    /// Another format, rank, or size in another dimension.
    Mismatch,
}

/// Bytes of a row of `k` elements.
pub open spec fn row_bytes(dtype: GgmlDType, k: nat) -> nat {
    k / dtype.spec_block_size() * dtype.spec_type_size()
}

pub open spec fn all_positive(dims: Seq<usize>) -> bool {
    forall|i: int| 0 <= i < dims.len() ==> #[trigger] dims[i] > 0
}

impl QTensor {
    /// Whole blocks per row, and a payload of exactly its rows.
    pub open spec fn wf(self) -> bool {
        &&& self.dims@.len() > 0
        &&& all_positive(self.dims@)
        &&& self.dims@.last() as nat % self.dtype.spec_block_size() == 0
        &&& self.data@.len() == tensor::elements(self.dims@.drop_last()) * row_bytes(
            self.dtype,
            self.dims@.last() as nat,
        )
    }

    /// How often dimension `dim` is walked through.
    pub open spec fn outer(self, dim: int) -> nat {
        tensor::elements(self.dims@.take(dim))
    }

    /// Bytes of one walk through dimension `dim`.
    pub open spec fn chunk(self, dim: int) -> nat {
        tensor::elements(self.dims@.subrange(dim, self.dims@.len() - 1)) * row_bytes(self.dtype, self.dims@.last() as nat)
    }

    /// The bytes of walk number `o` through dimension `dim`.
    pub open spec fn walk(self, dim: int, o: int) -> Seq<u8> {
        self.data@.subrange(o * self.chunk(dim), o * self.chunk(dim) + self.chunk(dim))
    }
}

/// `b` can be stacked onto `a` along `dim`.
pub open spec fn stackable(a: QTensor, b: QTensor, dim: int) -> bool {
    &&& a.dtype == b.dtype
    &&& a.dims@.len() == b.dims@.len()
    &&& forall|i: int| 0 <= i < a.dims@.len() && i != dim ==> #[trigger] a.dims@[i] == b.dims@[i]
}

pub open spec fn cat_error(parts: Seq<QTensor>, dim: usize) -> Option<CatError> {
    if parts.len() == 0 {
        Some(CatError::Empty)
    } else if dim + 1 >= parts[0].dims@.len() {
        Some(CatError::Dimension)
    } else if exists|i: int| 0 <= i < parts.len() && !stackable(parts[0], #[trigger] parts[i], dim as int) {
        Some(CatError::Mismatch)
    } else {
        None
    }
}

/// Sum of the first `n` parts' sizes along `dim`.
pub open spec fn total_size(parts: Seq<QTensor>, dim: int, n: nat) -> nat
    decreases n,
{
    if n == 0 {
        0
    } else {
        total_size(parts, dim, (n - 1) as nat) + parts[n - 1].dims@[dim] as nat
    }
}

/// Sum of the first `n` parts' payloads.
pub open spec fn total_bytes(parts: Seq<QTensor>, n: nat) -> nat
    decreases n,
{
    if n == 0 {
        0
    } else {
        total_bytes(parts, (n - 1) as nat) + parts[n - 1].data@.len()
    }
}

/// Walk `o` of the first `n` parts, one part after the other.
pub open spec fn joined(parts: Seq<QTensor>, dim: int, o: int, n: nat) -> Seq<u8>
    decreases n,
{
    if n == 0 {
        Seq::empty()
    } else {
        joined(parts, dim, o, (n - 1) as nat) + parts[n - 1].walk(dim, o)
    }
}

/// The first `walks` walks of all parts.
pub open spec fn stacked(parts: Seq<QTensor>, dim: int, walks: nat) -> Seq<u8>
    decreases walks,
{
    if walks == 0 {
        Seq::empty()
    } else {
        stacked(parts, dim, (walks - 1) as nat) + joined(parts, dim, walks - 1, parts.len())
    }
}

/// Elements of two dimension lists put together.
pub proof fn lemma_elements_concat(a: Seq<usize>, b: Seq<usize>)
    ensures
        tensor::elements(a + b) == tensor::elements(a) * tensor::elements(b),
    decreases b.len(),
{
    if b.len() == 0 {
        assert(a + b =~= a);
        let (x, y) = (tensor::elements(a), tensor::elements(b));
        assert(x * y == x) by (nonlinear_arith)
            requires
                y == 1,
        ;
    } else {
        assert((a + b).drop_last() =~= a + b.drop_last());
        assert((a + b).last() == b.last());
        lemma_elements_concat(a, b.drop_last());
        let (x, y, z) = (tensor::elements(a), tensor::elements(b.drop_last()), b.last() as nat);
        assert(x * y * z == x * (y * z)) by (nonlinear_arith);
        assert(tensor::elements(a + b) == x * y * z);
        assert(tensor::elements(b) == y * z);
    }
}

proof fn lemma_elements_positive(a: Seq<usize>)
    requires
        all_positive(a),
    ensures
        tensor::elements(a) >= 1,
    decreases a.len(),
{
    if a.len() > 0 {
        assert forall|i: int| 0 <= i < a.drop_last().len() implies #[trigger] a.drop_last()[i] > 0 by {
            assert(a[i] > 0);
        }
        lemma_elements_positive(a.drop_last());
        let (x, y) = (tensor::elements(a.drop_last()) as int, a.last() as int);
        assert(a[a.len() - 1] > 0);
        assert(x * y >= 1) by (nonlinear_arith)
            requires
                x >= 1,
                y >= 1,
        ;
    }
}

/// The payload is the walks through any dimension but the last.
proof fn lemma_walks(t: QTensor, dim: int)
    requires
        t.wf(),
        0 <= dim < t.dims@.len() - 1,
    ensures
        t.data@.len() == t.outer(dim) * t.chunk(dim),
        t.outer(dim) >= 1,
        t.chunk(dim) >= 1,
{
    let d = t.dims@;
    let mid = d.subrange(dim, d.len() - 1);
    let before = d.take(dim);
    assert(before + mid =~= d.drop_last());
    lemma_elements_concat(before, mid);
    assert(all_positive(before)) by {
        assert forall|i: int| 0 <= i < before.len() implies #[trigger] before[i] > 0 by {
            assert(d[i] > 0);
        }
    }
    assert(all_positive(mid)) by {
        assert forall|i: int| 0 <= i < mid.len() implies #[trigger] mid[i] > 0 by {
            assert(d[dim + i] > 0);
        }
    }
    lemma_elements_positive(before);
    lemma_elements_positive(mid);
    let rb = row_bytes(t.dtype, d.last() as nat) as int;
    lemma_row_bytes(t.dtype, d.last() as nat);
    let (x, y) = (tensor::elements(before) as int, tensor::elements(mid) as int);
    assert((x * y) * rb == x * (y * rb)) by (nonlinear_arith);
    assert(y * rb >= 1) by (nonlinear_arith)
        requires
            y >= 1,
            rb >= 1,
    ;
}

proof fn lemma_row_bytes(dtype: GgmlDType, k: nat)
    requires
        k > 0,
        k % dtype.spec_block_size() == 0,
    ensures
        row_bytes(dtype, k) >= 1,
{
    let b = dtype.spec_block_size() as int;
    let s = dtype.spec_type_size() as int;
    vstd::arithmetic::div_mod::lemma_fundamental_div_mod(k as int, b);
    let q = k as int / b;
    assert(q >= 1) by (nonlinear_arith)
        requires
            k == b * q + k as int % b,
            k as int % b == 0,
            k > 0,
            b > 0,
    ;
    assert(q * s >= 1) by (nonlinear_arith)
        requires
            q >= 1,
            s >= 1,
    ;
}

/// Stackable parts are walked through equally often.
proof fn lemma_same_outer(a: QTensor, b: QTensor, dim: int)
    requires
        stackable(a, b, dim),
        0 <= dim < a.dims@.len() - 1,
    ensures
        a.outer(dim) == b.outer(dim),
{
    assert(a.dims@.take(dim) =~= b.dims@.take(dim));
}

/// A walk lies in the payload.
proof fn lemma_walk_in_range(t: QTensor, dim: int, o: int)
    requires
        t.wf(),
        0 <= dim < t.dims@.len() - 1,
        0 <= o < t.outer(dim),
    ensures
        0 <= o * t.chunk(dim),
        o * t.chunk(dim) + t.chunk(dim) <= t.data@.len(),
        t.walk(dim, o).len() == t.chunk(dim),
{
    lemma_walks(t, dim);
    let c = t.chunk(dim) as int;
    let n = t.outer(dim) as int;
    assert(0 <= o * c && o * c + c <= n * c) by (nonlinear_arith)
        requires
            0 <= o < n,
            c >= 1,
    ;
}

/// Every part is well formed and fits the first.
pub open spec fn all_stackable(parts: Seq<QTensor>, dim: int) -> bool {
    forall|i: int| 0 <= i < parts.len() ==> (#[trigger] parts[i]).wf() && stackable(parts[0], parts[i], dim)
}

/// Bytes of one joined walk.
pub open spec fn joined_bytes(parts: Seq<QTensor>, dim: int, n: nat) -> nat
    decreases n,
{
    if n == 0 {
        0
    } else {
        joined_bytes(parts, dim, (n - 1) as nat) + parts[n - 1].chunk(dim)
    }
}

proof fn lemma_joined_len(parts: Seq<QTensor>, dim: int, o: int, n: nat)
    requires
        all_stackable(parts, dim),
        n <= parts.len(),
        parts.len() > 0,
        0 <= dim < parts[0].dims@.len() - 1,
        0 <= o < parts[0].outer(dim),
    ensures
        joined(parts, dim, o, n).len() == joined_bytes(parts, dim, n),
    decreases n,
{
    if n > 0 {
        lemma_joined_len(parts, dim, o, (n - 1) as nat);
        assert(parts[n - 1].wf() && stackable(parts[0], parts[n - 1], dim));
        lemma_same_outer(parts[0], parts[n - 1], dim);
        lemma_walk_in_range(parts[n - 1], dim, o);
    }
}

proof fn lemma_stacked_len(parts: Seq<QTensor>, dim: int, walks: nat)
    requires
        all_stackable(parts, dim),
        parts.len() > 0,
        0 <= dim < parts[0].dims@.len() - 1,
        walks <= parts[0].outer(dim),
    ensures
        stacked(parts, dim, walks).len() == walks * joined_bytes(parts, dim, parts.len()),
    decreases walks,
{
    if walks > 0 {
        lemma_stacked_len(parts, dim, (walks - 1) as nat);
        lemma_joined_len(parts, dim, walks - 1, parts.len());
        let (w, c) = (walks as int, joined_bytes(parts, dim, parts.len()) as int);
        assert((w - 1) * c + c == w * c) by (nonlinear_arith);
    } else {
        assert(0 * joined_bytes(parts, dim, parts.len()) == 0) by (nonlinear_arith);
    }
}

/// Law: stacking interleaves whole walks. Walk `o` of the result is walk `o` of
/// each part, in order, byte for byte; so each expert's rows stay together and
/// no row is repacked.
pub proof fn law_stacking_keeps_every_walk(parts: Seq<QTensor>, dim: int, walks: nat, o: int)
    requires
        all_stackable(parts, dim),
        parts.len() > 0,
        0 <= dim < parts[0].dims@.len() - 1,
        0 <= o < walks <= parts[0].outer(dim),
    ensures
        ({
            let c = joined_bytes(parts, dim, parts.len()) as int;
            &&& 0 <= o * c
            &&& o * c + c <= stacked(parts, dim, walks).len()
            &&& stacked(parts, dim, walks).subrange(o * c, o * c + c) == joined(parts, dim, o, parts.len())
        }),
    decreases walks,
{
    let c = joined_bytes(parts, dim, parts.len()) as int;
    let before = stacked(parts, dim, (walks - 1) as nat);
    let last = joined(parts, dim, walks - 1, parts.len());
    lemma_stacked_len(parts, dim, walks);
    lemma_stacked_len(parts, dim, (walks - 1) as nat);
    lemma_joined_len(parts, dim, o, parts.len());
    lemma_joined_len(parts, dim, walks - 1, parts.len());
    let w = walks as int;
    assert(0 <= o * c && o * c + c <= w * c) by (nonlinear_arith)
        requires
            0 <= o < w,
            c >= 0,
    ;
    if o < walks - 1 {
        law_stacking_keeps_every_walk(parts, dim, (walks - 1) as nat, o);
        assert(stacked(parts, dim, walks).subrange(o * c, o * c + c) =~= before.subrange(o * c, o * c + c));
    } else {
        assert(stacked(parts, dim, walks).subrange(o * c, o * c + c) =~= last);
    }
}

fn extend_range(to: &mut Vec<u8>, from: &Vec<u8>, start: usize, n: usize)
    requires
        start + n <= from@.len(),
    ensures
        final(to)@ == old(to)@ + from@.subrange(start as int, start + n),
{
    let ghost before = to@;
    let mut i: usize = 0;
    proof {
        assert(from.len() <= usize::MAX);
    }
    while i < n
        invariant
            i <= n,
            start + n <= from@.len() <= usize::MAX,
            to@ == before + from@.subrange(start as int, start + i),
        decreases n - i,
    {
        to.push(from[start + i]);
        i = i + 1;
        proof {
            assert(from@.subrange(start as int, start + i) =~= from@.subrange(start as int, start + i - 1).push(
                from@[start + i - 1],
            ));
        }
    }
}

fn fits(a: &QTensor, b: &QTensor, dim: usize) -> (res: bool)
    ensures
        res == stackable(*a, *b, dim as int),
{
    if a.dtype != b.dtype || a.dims.len() != b.dims.len() {
        return false;
    }
    let mut i: usize = 0;
    while i < a.dims.len()
        invariant
            i <= a.dims@.len() == b.dims@.len(),
            forall|j: int| 0 <= j < i && j != dim ==> #[trigger] a.dims@[j] == b.dims@[j],
        decreases a.dims@.len() - i,
    {
        if i != dim && a.dims[i] != b.dims[i] {
            proof {
                assert(a.dims@[i as int] != b.dims@[i as int]);
            }
            return false;
        }
        i = i + 1;
    }
    true
}

impl QTensor {
    /// Stacks tensors along `dim`, which is not the width of their rows. The
    /// parts stay as they are.
    pub fn cat(parts: &Vec<QTensor>, dim: usize) -> (res: Result<QTensor, CatError>)
        requires
            forall|i: int| 0 <= i < parts@.len() ==> (#[trigger] parts@[i]).wf(),
            total_bytes(parts@, parts@.len()) <= usize::MAX,
        ensures
            match res {
                Ok(t) => {
                    &&& cat_error(parts@, dim) is None
                    &&& t.dtype == parts@[0].dtype
                    &&& t.dims@ == parts@[0].dims@.update(
                        dim as int,
                        total_size(parts@, dim as int, parts@.len()) as usize,
                    )
                    &&& total_size(parts@, dim as int, parts@.len()) <= usize::MAX
                    &&& t.data@ == stacked(parts@, dim as int, parts@[0].outer(dim as int))
                },
                Err(e) => cat_error(parts@, dim) == Some(e),
            },
    {
        if parts.len() == 0 {
            return Err(CatError::Empty);
        }
        let rank: usize = parts[0].dims.len();
        proof {
            assert(parts@[0].wf());
        }
        if dim >= rank - 1 {
            return Err(CatError::Dimension);
        }
        let ghost d = dim as int;
        let mut size: usize = 0;
        let mut i: usize = 0;
        while i < parts.len()
            invariant
                i <= parts@.len(),
                parts@.len() > 0,
                d == dim,
                dim < parts@[0].dims@.len() - 1,
                forall|j: int| 0 <= j < parts@.len() ==> (#[trigger] parts@[j]).wf(),
                forall|j: int| 0 <= j < i ==> stackable(parts@[0], #[trigger] parts@[j], d),
                size == total_size(parts@, d, i as nat),
                size <= total_bytes(parts@, i as nat),
                total_bytes(parts@, parts@.len()) <= usize::MAX,
            decreases parts@.len() - i,
        {
            if !fits(&parts[0], &parts[i], dim) {
                proof {
                    assert(!stackable(parts@[0], parts@[i as int], d));
                }
                return Err(CatError::Mismatch);
            }
            proof {
                assert(stackable(parts@[0], parts@[i as int], d));
                lemma_size_below_bytes(parts@[i as int], d);
                lemma_total_bytes_grow(parts@, (i + 1) as nat, parts@.len());
            }
            size = size + parts[i].dims[dim];
            i = i + 1;
        }
        let ghost all = parts@;
        let ghost outer_spec = all[0].outer(d);
        proof {
            assert(all_stackable(all, d));
            lemma_walks(all[0], d);
            assert(outer_spec <= all[0].data@.len()) by {
                let (n, c) = (outer_spec as int, all[0].chunk(d) as int);
                assert(n <= n * c) by (nonlinear_arith)
                    requires
                        n >= 1,
                        c >= 1,
                ;
            }
            assert(parts@[0].data.len() <= usize::MAX);
        }
        let mut prefix: Vec<usize> = Vec::new();
        let mut j: usize = 0;
        while j < dim
            invariant
                j <= dim,
                dim < parts@[0].dims@.len(),
                parts@.len() > 0,
                prefix@ == parts@[0].dims@.take(j as int),
            decreases dim - j,
        {
            prefix.push(parts[0].dims[j]);
            j = j + 1;
            proof {
                assert(parts@[0].dims@.take(j as int) =~= parts@[0].dims@.take(j - 1).push(parts@[0].dims@[j - 1]));
            }
        }
        let outer: usize = elem_count(&prefix);
        let mut data: Vec<u8> = Vec::new();
        let mut o: usize = 0;
        while o < outer
            invariant
                o <= outer,
                all == parts@,
                d == dim,
                all.len() > 0,
                outer == all[0].outer(d),
                0 <= d < all[0].dims@.len() - 1,
                all_stackable(all, d),
                data@ == stacked(all, d, o as nat),
            decreases outer - o,
        {
            let ghost before = data@;
            let mut p: usize = 0;
            proof {
                assert(data@ =~= before + joined(all, d, o as int, 0));
            }
            while p < parts.len()
                invariant
                    p <= all.len(),
                    all == parts@,
                    d == dim,
                    o < outer,
                    all.len() > 0,
                    outer == all[0].outer(d),
                    0 <= d < all[0].dims@.len() - 1,
                    all_stackable(all, d),
                    data@ == before + joined(all, d, o as int, p as nat),
                decreases all.len() - p,
            {
                proof {
                    let t = all[p as int];
                    assert(t.wf() && stackable(all[0], t, d));
                    lemma_same_outer(all[0], t, d);
                    lemma_walks(t, d);
                    lemma_walk_in_range(t, d, o as int);
                    lemma_chunk_is_quotient(t.data@.len() as int, outer as int, t.chunk(d) as int);
                }
                let chunk: usize = parts[p].data.len() / outer;
                extend_range(&mut data, &parts[p].data, o * chunk, chunk);
                p = p + 1;
                proof {
                    assert(data@ =~= before + joined(all, d, o as int, p as nat));
                }
            }
            o = o + 1;
        }
        let mut dims = crate::conv::copied(&parts[0].dims);
        dims.set(dim, size);
        Ok(QTensor { dtype: parts[0].dtype, dims, data })
    }
}

proof fn lemma_chunk_is_quotient(len: int, outer: int, chunk: int)
    requires
        outer >= 1,
        chunk >= 1,
        len == outer * chunk,
    ensures
        len / outer == chunk,
{
    assert(len / outer == chunk) by (nonlinear_arith)
        requires
            outer >= 1,
            len == outer * chunk,
    ;
}

proof fn lemma_total_bytes_grow(parts: Seq<QTensor>, n: nat, m: nat)
    requires
        n <= m,
    ensures
        total_bytes(parts, n) <= total_bytes(parts, m),
    decreases m,
{
    if n < m {
        lemma_total_bytes_grow(parts, n, (m - 1) as nat);
    }
}

/// A tensor has at least a byte for each step along a dimension.
proof fn lemma_size_below_bytes(t: QTensor, dim: int)
    requires
        t.wf(),
        0 <= dim < t.dims@.len() - 1,
    ensures
        t.dims@[dim] <= t.data@.len(),
{
    lemma_walks(t, dim);
    let d = t.dims@;
    let mid = d.subrange(dim, d.len() - 1);
    let rest = mid.skip(1);
    assert(mid =~= seq![d[dim]] + rest);
    lemma_elements_concat(seq![d[dim]], rest);
    assert(all_positive(rest)) by {
        assert forall|i: int| 0 <= i < rest.len() implies #[trigger] rest[i] > 0 by {
            assert(d[dim + 1 + i] > 0);
        }
    }
    lemma_elements_positive(rest);
    let single = seq![d[dim]];
    assert(single.drop_last().len() == 0);
    assert(tensor::elements(single.drop_last()) == 1);
    assert(tensor::elements(single) == 1 * (d[dim] as nat));
    lemma_row_bytes(t.dtype, d.last() as nat);
    let (x, y, rb, n) = (
        d[dim] as int,
        tensor::elements(rest) as int,
        row_bytes(t.dtype, d.last() as nat) as int,
        t.outer(dim) as int,
    );
    assert(x <= n * ((x * y) * rb)) by (nonlinear_arith)
        requires
            x >= 0,
            y >= 1,
            rb >= 1,
            n >= 1,
    ;
}

/// Bytes of one step along dimension `dim`.
pub open spec fn step_bytes(t: QTensor, dim: int) -> nat {
    tensor::elements(t.dims@.subrange(dim + 1, t.dims@.len() - 1)) * row_bytes(t.dtype, t.dims@.last() as nat)
}

proof fn lemma_chunk_steps(t: QTensor, dim: int)
    requires
        0 <= dim < t.dims@.len() - 1,
    ensures
        t.chunk(dim) == t.dims@[dim] * step_bytes(t, dim),
{
    let one = seq![t.dims@[dim]];
    let rest = t.dims@.subrange(dim + 1, t.dims@.len() - 1);
    assert(t.dims@.subrange(dim, t.dims@.len() - 1) =~= one + rest);
    lemma_elements_concat(one, rest);
    assert(one.drop_last().len() == 0);
    assert(tensor::elements(one.drop_last()) == 1);
    let (d, e, r) = (t.dims@[dim] as int, tensor::elements(rest) as int, row_bytes(t.dtype, t.dims@.last() as nat) as int);
    let x = tensor::elements(one.drop_last()) as int;
    assert(x * d == d) by (nonlinear_arith)
        requires
            x == 1,
    ;
    assert(tensor::elements(one) == x * d);
    assert(d * e * r == d * (e * r)) by (nonlinear_arith);
}

proof fn lemma_same_step(a: QTensor, b: QTensor, dim: int)
    requires
        stackable(a, b, dim),
        0 <= dim < a.dims@.len() - 1,
    ensures
        step_bytes(a, dim) == step_bytes(b, dim),
{
    let n = a.dims@.len() - 1;
    assert(a.dims@[n] == b.dims@[n]);
    assert(a.dims@.subrange(dim + 1, n) =~= b.dims@.subrange(dim + 1, n));
}

proof fn lemma_joined_steps(parts: Seq<QTensor>, dim: int, n: nat)
    requires
        all_stackable(parts, dim),
        n <= parts.len(),
        parts.len() > 0,
        0 <= dim < parts[0].dims@.len() - 1,
    ensures
        joined_bytes(parts, dim, n) == total_size(parts, dim, n) * step_bytes(parts[0], dim),
    decreases n,
{
    let s = step_bytes(parts[0], dim) as int;
    if n > 0 {
        lemma_joined_steps(parts, dim, (n - 1) as nat);
        assert(parts[n - 1].wf() && stackable(parts[0], parts[n - 1], dim));
        lemma_same_step(parts[0], parts[n - 1], dim);
        lemma_chunk_steps(parts[n - 1], dim);
        let (t, d) = (total_size(parts, dim, (n - 1) as nat) as int, parts[n - 1].dims@[dim] as int);
        assert(t * s + d * s == (t + d) * s) by (nonlinear_arith);
    } else {
        assert(0 * s == 0) by (nonlinear_arith);
    }
}

proof fn lemma_joined_part(parts: Seq<QTensor>, dim: int, o: int, n: nat, i: int)
    requires
        all_stackable(parts, dim),
        n <= parts.len(),
        0 <= i < n,
        0 <= dim < parts[0].dims@.len() - 1,
        0 <= o < parts[0].outer(dim),
    ensures
        ({
            let at = joined_bytes(parts, dim, i as nat) as int;
            &&& at + parts[i].chunk(dim) <= joined(parts, dim, o, n).len()
            &&& joined(parts, dim, o, n).subrange(at, at + parts[i].chunk(dim)) == parts[i].walk(dim, o)
        }),
    decreases n,
{
    let at = joined_bytes(parts, dim, i as nat) as int;
    let c = parts[i].chunk(dim) as int;
    lemma_joined_len(parts, dim, o, n);
    lemma_joined_len(parts, dim, o, (n - 1) as nat);
    let before = joined(parts, dim, o, (n - 1) as nat);
    assert(parts[n - 1].wf() && stackable(parts[0], parts[n - 1], dim));
    lemma_same_outer(parts[0], parts[n - 1], dim);
    lemma_walk_in_range(parts[n - 1], dim, o);
    if i < n - 1 {
        lemma_joined_part(parts, dim, o, (n - 1) as nat, i);
        assert(joined(parts, dim, o, n).subrange(at, at + c) =~= before.subrange(at, at + c));
    } else {
        assert(joined(parts, dim, o, n).subrange(at, at + c) =~= parts[i].walk(dim, o));
    }
}

/// Law: every byte of every part stands in the stack at the place of its own
/// index. Along `dim` a part follows all before it; every other index is kept.
/// Byte `y` of step `x` of walk `o` of part `i` is byte `y` of step `x`, counted
/// after the steps of the parts before it, of walk `o` of the stack.
pub proof fn law_stacking_moves_every_byte_to_its_index(parts: Seq<QTensor>, dim: int, o: int, i: int, x: int, y: int)
    requires
        all_stackable(parts, dim),
        parts.len() > 0,
        0 <= dim < parts[0].dims@.len() - 1,
        0 <= o < parts[0].outer(dim),
        0 <= i < parts.len(),
        0 <= x < parts[i].dims@[dim],
        0 <= y < step_bytes(parts[0], dim),
    ensures
        ({
            let s = step_bytes(parts[0], dim) as int;
            let whole = total_size(parts, dim, parts.len()) as int;
            let before = total_size(parts, dim, i as nat) as int;
            let to = (o * whole + before + x) * s + y;
            let from = (o * parts[i].dims@[dim] + x) * s + y;
            &&& 0 <= to < stacked(parts, dim, parts[0].outer(dim)).len()
            &&& 0 <= from < parts[i].data@.len()
            &&& stacked(parts, dim, parts[0].outer(dim))[to] == parts[i].data@[from]
        }),
{
    let n = parts.len();
    let walks = parts[0].outer(dim);
    let s = step_bytes(parts[0], dim) as int;
    let (whole, before) = (total_size(parts, dim, n) as int, total_size(parts, dim, i as nat) as int);
    let d = parts[i].dims@[dim] as int;
    assert(parts[i].wf() && stackable(parts[0], parts[i], dim));
    lemma_same_step(parts[0], parts[i], dim);
    lemma_chunk_steps(parts[i], dim);
    lemma_joined_steps(parts, dim, n);
    lemma_joined_steps(parts, dim, i as nat);
    law_stacking_keeps_every_walk(parts, dim, walks, o);
    lemma_joined_part(parts, dim, o, n, i);
    lemma_same_outer(parts[0], parts[i], dim);
    lemma_walk_in_range(parts[i], dim, o);
    let c = joined_bytes(parts, dim, n) as int;
    let at = joined_bytes(parts, dim, i as nat) as int;
    let chunk = parts[i].chunk(dim) as int;
    let inside = x * s + y;
    assert(0 <= inside < chunk) by (nonlinear_arith)
        requires
            inside == x * s + y,
            chunk == d * s,
            0 <= x <= d - 1,
            0 <= y < s,
    ;
    assert((o * whole + before + x) * s + y == o * c + at + inside) by (nonlinear_arith)
        requires
            c == whole * s,
            at == before * s,
            inside == x * s + y,
    ;
    assert((o * d + x) * s + y == o * chunk + inside) by (nonlinear_arith)
        requires
            chunk == d * s,
            inside == x * s + y,
    ;
    let walk = stacked(parts, dim, walks).subrange(o * c, o * c + c);
    let own = joined(parts, dim, o, n).subrange(at, at + chunk);
    assert(walk == joined(parts, dim, o, n));
    assert(own == parts[i].walk(dim, o));
    assert(walk.len() == c);
    assert(own[inside] == joined(parts, dim, o, n)[at + inside]);
    assert(walk[at + inside] == stacked(parts, dim, walks)[o * c + at + inside]);
    assert(own[inside] == parts[i].data@[o * chunk + inside]);
}

/// Law: the stack is as large as its parts together, along `dim`; each part
/// counts once.
pub proof fn law_stacked_sizes_add_up(parts: Seq<QTensor>, more: QTensor, dim: int)
    ensures
        total_size(parts, dim, 0) == 0,
        total_size(parts.push(more), dim, parts.len() + 1) == total_size(parts, dim, parts.len()) + more.dims@[dim],
        total_bytes(parts.push(more), parts.len() + 1) == total_bytes(parts, parts.len()) + more.data@.len(),
{
    lemma_prefix_sizes(parts, parts.push(more), dim, parts.len());
}

proof fn lemma_prefix_sizes(a: Seq<QTensor>, b: Seq<QTensor>, dim: int, n: nat)
    requires
        n <= a.len(),
        n <= b.len(),
        forall|i: int| 0 <= i < n ==> a[i] == b[i],
    ensures
        total_size(a, dim, n) == total_size(b, dim, n),
        total_bytes(a, n) == total_bytes(b, n),
    decreases n,
{
    if n > 0 {
        lemma_prefix_sizes(a, b, dim, (n - 1) as nat);
    }
}

/// Law: a row of whole blocks takes the bits of its values and of its blocks'
/// scales.
pub proof fn law_rows_hold_whole_blocks(dtype: GgmlDType, blocks: nat)
    ensures
        8 * row_bytes(dtype, blocks * dtype.spec_block_size()) == blocks * dtype.spec_block_size() * crate::quantized::value_bits(
            dtype,
        ) + blocks * crate::quantized::scale_bits(dtype),
{
    crate::quantized::law_blocks_hold_their_values_and_scales(dtype, blocks);
    vstd::arithmetic::div_mod::lemma_div_multiples_vanish(blocks as int, dtype.spec_block_size() as int);
    assert(dtype.spec_block_size() * blocks == blocks * dtype.spec_block_size()) by (nonlinear_arith);
}

/// Law: nothing to stack is refused as that; then a dimension that is the width
/// of a row or beyond it; then a part of another format or rank, or of another
/// size in any other dimension. All else is stacked.
pub proof fn law_stacking_is_refused_for(parts: Seq<QTensor>, dim: usize, i: int, j: int)
    ensures
        cat_error(parts, dim) == Some(CatError::Empty) <==> parts.len() == 0,
        cat_error(parts, dim) == Some(CatError::Dimension) <==> parts.len() > 0 && dim >= parts[0].dims@.len() - 1,
        cat_error(parts, dim) is None && 0 <= i < parts.len() ==> {
            &&& parts[i].dtype == parts[0].dtype
            &&& parts[i].dims@.len() == parts[0].dims@.len()
            &&& 0 <= j < parts[0].dims@.len() && j != dim ==> parts[i].dims@[j] == parts[0].dims@[j]
        },
        parts.len() > 0 && dim < parts[0].dims@.len() - 1 && cat_error(parts, dim) is Some ==> cat_error(parts, dim) == Some(
            CatError::Mismatch,
        ) && exists|a: int| 0 <= a < parts.len() && #[trigger] differs(parts[0], parts[a], dim as int),
{
    if cat_error(parts, dim) is None && 0 <= i < parts.len() {
        assert(stackable(parts[0], parts[i], dim as int));
        if 0 <= j < parts[0].dims@.len() && j != dim {
            assert(parts[0].dims@[j] == parts[i].dims@[j]);
        }
    }
    if cat_error(parts, dim) == Some(CatError::Mismatch) {
        let a = choose|a: int| 0 <= a < parts.len() && !stackable(parts[0], #[trigger] parts[a], dim as int);
        assert(differs(parts[0], parts[a], dim as int));
    }
}

/// `b` has another format or rank than `a`, or another size in some dimension
/// that is not `dim`.
pub open spec fn differs(a: QTensor, b: QTensor, dim: int) -> bool {
    ||| a.dtype != b.dtype
    ||| a.dims@.len() != b.dims@.len()
    ||| exists|j: int| 0 <= j < a.dims@.len() && j != dim && #[trigger] a.dims@[j] != b.dims@[j]
}

proof fn lemma_total_bytes_walks(parts: Seq<QTensor>, dim: int, n: nat)
    requires
        all_stackable(parts, dim),
        n <= parts.len(),
        parts.len() > 0,
        0 <= dim < parts[0].dims@.len() - 1,
    ensures
        total_bytes(parts, n) == parts[0].outer(dim) * joined_bytes(parts, dim, n),
    decreases n,
{
    let w = parts[0].outer(dim) as int;
    if n > 0 {
        lemma_total_bytes_walks(parts, dim, (n - 1) as nat);
        assert(parts[n - 1].wf() && stackable(parts[0], parts[n - 1], dim));
        lemma_same_outer(parts[0], parts[n - 1], dim);
        lemma_walks(parts[n - 1], dim);
        let (j, c) = (joined_bytes(parts, dim, (n - 1) as nat) as int, parts[n - 1].chunk(dim) as int);
        assert(w * j + w * c == w * (j + c)) by (nonlinear_arith);
    } else {
        assert(w * 0 == 0) by (nonlinear_arith);
    }
}

/// Law: stacking loses no byte and adds none.
pub proof fn law_stacking_loses_no_byte(parts: Seq<QTensor>, dim: int)
    requires
        all_stackable(parts, dim),
        parts.len() > 0,
        0 <= dim < parts[0].dims@.len() - 1,
    ensures
        stacked(parts, dim, parts[0].outer(dim)).len() == total_bytes(parts, parts.len()),
{
    lemma_stacked_len(parts, dim, parts[0].outer(dim));
    lemma_total_bytes_walks(parts, dim, parts.len());
}

/// Law: whatever stack is made, it has the parts' format, their dimensions but
/// along `dim`, where it is as large as all together, and every byte of every
/// part at the place of its own index.
pub proof fn law_made_stacks_hold_every_part(parts: Vec<QTensor>, dim: usize, got: Result<QTensor, CatError>, o: int, i: int, x: int, y: int)
    requires
        call_ensures(QTensor::cat, (&parts, dim), got),
        all_stackable(parts@, dim as int),
        parts@.len() > 0,
        dim < parts@[0].dims@.len() - 1,
        0 <= o < parts@[0].outer(dim as int),
        0 <= i < parts@.len(),
        0 <= x < parts@[i].dims@[dim as int],
        0 <= y < step_bytes(parts@[0], dim as int),
    ensures
        got matches Ok(t) ==> ({
            let s = step_bytes(parts@[0], dim as int) as int;
            let before = total_size(parts@, dim as int, i as nat) as int;
            &&& t.dtype == parts@[0].dtype
            &&& t.dims@.len() == parts@[0].dims@.len()
            &&& t.dims@[dim as int] == total_size(parts@, dim as int, parts@.len())
            &&& 0 <= (o * t.dims@[dim as int] + before + x) * s + y < t.data@.len()
            &&& t.data@[(o * t.dims@[dim as int] + before + x) * s + y] == parts@[i].data@[(o * parts@[i].dims@[dim as int] + x)
                * s + y]
        }),
{
    law_stacking_moves_every_byte_to_its_index(parts@, dim as int, o, i, x, y);
}

} // verus!
