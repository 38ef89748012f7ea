//! Block formats of quantized weights and activations.

use vstd::prelude::*;

verus! {

/// How a weight matrix is packed.
#[derive(Clone, Copy, PartialEq, Eq, Structural, Debug)]
pub enum GgmlDType {
    F32,
    F16,
    BF16,
    Q4_0,
    Q4_1,
    Q5_0,
    Q5_1,
    Q8_0,
    Q8_1,
    Q2K,
    Q3K,
    Q4K,
    Q5K,
    Q6K,
    Q8K,
}

/// Columns to which a row of quantized activations is padded.
pub const MATRIX_ROW_PADDING: usize = 512;

impl GgmlDType {
    /// Elements per block.
    pub open spec fn spec_block_size(self) -> nat {
        match self {
            GgmlDType::F32 | GgmlDType::F16 | GgmlDType::BF16 => 1,
            GgmlDType::Q4_0 | GgmlDType::Q4_1 | GgmlDType::Q5_0 | GgmlDType::Q5_1 | GgmlDType::Q8_0
            | GgmlDType::Q8_1 => 32,
            GgmlDType::Q2K | GgmlDType::Q3K | GgmlDType::Q4K | GgmlDType::Q5K | GgmlDType::Q6K
            | GgmlDType::Q8K => 256,
        }
    }

    /// Bytes per block.
    pub open spec fn spec_type_size(self) -> nat {
        match self {
            GgmlDType::F32 => 4,
            GgmlDType::F16 => 2,
            GgmlDType::BF16 => 2,
            GgmlDType::Q4_0 => 18,
            GgmlDType::Q4_1 => 20,
            GgmlDType::Q5_0 => 22,
            GgmlDType::Q5_1 => 24,
            GgmlDType::Q8_0 => 34,
            GgmlDType::Q8_1 => 36,
            GgmlDType::Q2K => 84,
            GgmlDType::Q3K => 110,
            GgmlDType::Q4K => 144,
            GgmlDType::Q5K => 176,
            GgmlDType::Q6K => 210,
            GgmlDType::Q8K => 292,
        }
    }

    pub fn block_size(&self) -> (res: usize)
        ensures
            res == self.spec_block_size(),
            0 < res <= 256,
    {
        match *self {
            GgmlDType::F32 | GgmlDType::F16 | GgmlDType::BF16 => 1,
            GgmlDType::Q4_0 | GgmlDType::Q4_1 | GgmlDType::Q5_0 | GgmlDType::Q5_1 | GgmlDType::Q8_0
            | GgmlDType::Q8_1 => 32,
            GgmlDType::Q2K | GgmlDType::Q3K | GgmlDType::Q4K | GgmlDType::Q5K | GgmlDType::Q6K
            | GgmlDType::Q8K => 256,
        }
    }

    pub fn type_size(&self) -> (res: usize)
        ensures
            res == self.spec_type_size(),
            res > 0,
    {
        match *self {
            GgmlDType::F32 => 4,
            GgmlDType::F16 => 2,
            GgmlDType::BF16 => 2,
            GgmlDType::Q4_0 => 18,
            GgmlDType::Q4_1 => 20,
            GgmlDType::Q5_0 => 22,
            GgmlDType::Q5_1 => 24,
            GgmlDType::Q8_0 => 34,
            GgmlDType::Q8_1 => 36,
            GgmlDType::Q2K => 84,
            GgmlDType::Q3K => 110,
            GgmlDType::Q4K => 144,
            GgmlDType::Q5K => 176,
            GgmlDType::Q6K => 210,
            GgmlDType::Q8K => 292,
        }
    }
}

/// `n` divided by `d`, rounded up.
pub open spec fn spec_div_ceil(n: nat, d: nat) -> nat {
    if n % d == 0 {
        n / d
    } else {
        n / d + 1
    }
}

pub fn div_ceil(n: usize, d: usize) -> (res: usize)
    requires
        d > 0,
    ensures
        res == spec_div_ceil(n as nat, d as nat),
        res <= n,
        n == 0 <==> res == 0,
{
    let q: usize = n / d;
    proof {
        lemma_div_ceil(n as nat, d as nat);
        vstd::arithmetic::div_mod::lemma_fundamental_div_mod(n as int, d as int);
    }
    if n % d == 0 {
        q
    } else {
        q + 1
    }
}

/// Rounding up covers `n`, and leaves out no whole `d`.
pub proof fn lemma_div_ceil(n: nat, d: nat)
    requires
        d > 0,
    ensures
        spec_div_ceil(n, d) <= n,
        n <= spec_div_ceil(n, d) * d < n + d,
        n == 0 <==> spec_div_ceil(n, d) == 0,
{
    vstd::arithmetic::div_mod::lemma_fundamental_div_mod(n as int, d as int);
    let q = (n / d) as int;
    let r = (n % d) as int;
    let dd = d as int;
    assert(0 <= r < dd);
    assert(n == dd * q + r);
    assert((q + 1) * dd == dd * q + dd) by (nonlinear_arith);
    assert(q * dd == dd * q) by (nonlinear_arith);
    assert(q <= dd * q) by (nonlinear_arith)
        requires
            dd >= 1,
            q >= 0,
    ;
}

/// `k` rounded up to the padded row width.
pub open spec fn spec_pad(k: nat) -> nat {
    spec_div_ceil(k, 512) * 512
}

pub fn pad(k: usize) -> (res: usize)
    requires
        k <= usize::MAX - 511,
    ensures
        res == spec_pad(k as nat),
        k <= res < k + 512,
{
    proof {
        lemma_div_ceil(k as nat, 512);
    }
    div_ceil(k, MATRIX_ROW_PADDING) * MATRIX_ROW_PADDING
}

/// Bytes that `rows` rows of `k` activations take once quantized: blocks of
/// 32 values in 36 bytes, every row padded.
pub open spec fn spec_buffer_bytes(k: nat, rows: nat) -> nat {
    rows * (spec_pad(k) / 32 * 36)
}

pub fn buffer_bytes(k: usize, rows: usize) -> (res: usize)
    requires
        k <= usize::MAX - 511,
        rows * spec_pad(k as nat) <= i32::MAX,
    ensures
        res == spec_buffer_bytes(k as nat, rows as nat),
{
    if rows == 0 {
        return 0;
    }
    let padded: usize = pad(k);
    proof {
        lemma_buffer_bytes(rows as int, padded as int);
    }
    rows * (padded / GgmlDType::Q8_1.block_size() * GgmlDType::Q8_1.type_size())
}

proof fn lemma_buffer_bytes(rows: int, padded: int)
    requires
        rows >= 0,
        padded >= 0,
        rows * padded <= i32::MAX,
    ensures
        rows * (padded / 32 * 36) <= u32::MAX,
        rows > 0 ==> padded / 32 * 36 <= u32::MAX,
{
    assert(padded / 32 * 36 <= padded + padded / 8) by (nonlinear_arith)
        requires
            padded >= 0,
    ;
    assert(8 * (padded / 32 * 36) <= 9 * padded) by (nonlinear_arith)
        requires
            padded >= 0,
    ;
    let x = padded / 32 * 36;
    assert(8 * (rows * x) <= 9 * (rows * padded)) by (nonlinear_arith)
        requires
            8 * x <= 9 * padded,
            rows >= 0,
    ;
    if rows > 0 {
        assert(x <= rows * x) by (nonlinear_arith)
            requires
                rows >= 1,
                x >= 0,
        ;
    }
}

/// Bits of one value.
pub open spec fn value_bits(t: GgmlDType) -> nat {
    match t {
        GgmlDType::F32 => 32,
        GgmlDType::F16 | GgmlDType::BF16 => 16,
        GgmlDType::Q8_0 | GgmlDType::Q8_1 | GgmlDType::Q8K => 8,
        GgmlDType::Q6K => 6,
        GgmlDType::Q5_0 | GgmlDType::Q5_1 | GgmlDType::Q5K => 5,
        GgmlDType::Q4_0 | GgmlDType::Q4_1 | GgmlDType::Q4K => 4,
        GgmlDType::Q3K => 3,
        GgmlDType::Q2K => 2,
    }
}

/// Bits of the numbers that a block keeps beside its values: half-precision
/// scales and minima or sums, and in the `K` formats the scales of the
/// sub-blocks, sixteen of 8 bits (`Q6K`), of 6 (`Q3K`) or of two times 4
/// (`Q2K`), eight of two times 6 (`Q4K`, `Q5K`); `Q8K` has a full-precision
/// scale and a 16-bit sum for each sixteen values.
pub open spec fn scale_bits(t: GgmlDType) -> nat {
    match t {
        GgmlDType::F32 | GgmlDType::F16 | GgmlDType::BF16 => 0,
        GgmlDType::Q4_0 | GgmlDType::Q5_0 | GgmlDType::Q8_0 => 16,
        GgmlDType::Q4_1 | GgmlDType::Q5_1 | GgmlDType::Q8_1 => 16 + 16,
        GgmlDType::Q2K => 16 * (4 + 4) + 16 + 16,
        GgmlDType::Q3K => 16 * 6 + 16,
        GgmlDType::Q4K | GgmlDType::Q5K => 8 * (6 + 6) + 16 + 16,
        GgmlDType::Q6K => 16 * 8 + 16,
        GgmlDType::Q8K => 32 + 16 * 16,
    }
}

/// Law: blocks hold their values' bits and their scales' bits, and nothing
/// else: any count of them takes as many bits as those, rounded to no byte.
pub proof fn law_blocks_hold_their_values_and_scales(t: GgmlDType, blocks: nat)
    ensures
        8 * (blocks * t.spec_type_size()) == blocks * t.spec_block_size() * value_bits(t) + blocks * scale_bits(t),
        t is F32 || t is F16 || t is BF16 <==> t.spec_block_size() == 1,
        t is Q2K || t is Q3K || t is Q4K || t is Q5K || t is Q6K || t is Q8K <==> t.spec_block_size() == 256,
        t is Q4_0 || t is Q4_1 || t is Q5_0 || t is Q5_1 || t is Q8_0 || t is Q8_1 <==> t.spec_block_size() == 32,
{
    let (n, ty, bl, v, sc) = (
        blocks as int,
        t.spec_type_size() as int,
        t.spec_block_size() as int,
        value_bits(t) as int,
        scale_bits(t) as int,
    );
    if bl == 32 {
        assert(bl * v == 32 * v);
    } else if bl == 256 {
        assert(bl * v == 256 * v);
    } else {
        assert(bl == 1 && bl * v == v);
    }
    assert(8 * (n * ty) == n * bl * v + n * sc) by (nonlinear_arith)
        requires
            8 * ty == bl * v + sc,
    ;
}

/// Law: rounding up gives the least count of pieces of `d` that covers `n`.
pub proof fn law_rounding_up_is_the_least_cover(n: nat, d: nat, q: nat)
    requires
        d > 0,
    ensures
        q * d >= n <==> q >= spec_div_ceil(n, d),
{
    lemma_div_ceil(n, d);
    let c = spec_div_ceil(n, d) as int;
    let (qq, dd, nn) = (q as int, d as int, n as int);
    if qq >= c {
        assert(qq * dd >= c * dd) by (nonlinear_arith)
            requires
                qq >= c,
                dd > 0,
        ;
    } else {
        assert(qq * dd <= c * dd - dd) by (nonlinear_arith)
            requires
                qq <= c - 1,
                dd > 0,
        ;
    }
}

/// Law: a padded row is the least multiple of 512 columns that holds it, so
/// padding a padded row changes nothing.
pub proof fn law_padding_is_the_least_multiple(k: nat)
    ensures
        spec_pad(k) % 512 == 0,
        k <= spec_pad(k) < k + 512,
        spec_pad(spec_pad(k)) == spec_pad(k),
{
    lemma_div_ceil(k, 512);
}

/// Law: quantized activations of `k` columns take 36 bytes for every 32
/// columns, 576 for every 512, rows one after another: one more row always
/// takes as much as the first.
pub proof fn law_activation_rows_take_equal_space(k: nat, rows: nat, blocks: nat)
    requires
        512 * blocks < k + 512,
        k <= 512 * blocks,
    ensures
        spec_buffer_bytes(k, 0) == 0,
        spec_buffer_bytes(k, 1) == 576 * blocks,
        spec_buffer_bytes(k, rows + 1) == spec_buffer_bytes(k, rows) + 576 * blocks,
{
    lemma_div_ceil(k, 512);
    let c = spec_div_ceil(k, 512) as int;
    assert(c == blocks) by {
        let b = blocks as int;
        assert(c * 512 < k + 512 && 512 * b < k + 512);
    }
    let x = (spec_pad(k) / 32 * 36) as int;
    assert(x == 576 * blocks);
    let r = rows as int;
    assert((r + 1) * x == r * x + x && 0 * x == 0 && 1 * x == x) by (nonlinear_arith);
}

/// Law: whatever sizes are given for a format, they are those of its values and
/// scales.
pub proof fn law_given_sizes_hold_values_and_scales(t: GgmlDType, block: usize, size: usize)
    requires
        call_ensures(GgmlDType::block_size, (&t,), block),
        call_ensures(GgmlDType::type_size, (&t,), size),
    ensures
        8 * size == block * value_bits(t) + scale_bits(t),
        block == 1 <==> value_bits(t) >= 16,
        block == 256 <==> t is Q2K || t is Q3K || t is Q4K || t is Q5K || t is Q6K || t is Q8K,
        block == 1 || block == 32 || block == 256,
{
    law_blocks_hold_their_values_and_scales(t, 1);
    let (b, v, s, y) = (
        t.spec_block_size() as int,
        value_bits(t) as int,
        scale_bits(t) as int,
        t.spec_type_size() as int,
    );
    assert(1 * b * v == b * v && 1 * s == s && 1 * y == y) by (nonlinear_arith);
}

/// Law: whatever rows are padded to, it is the least multiple of 512 columns,
/// and the buffer of quantized activations takes nine bytes for eight of these.
pub proof fn law_given_buffers_hold_padded_rows(k: usize, rows: usize, padded: usize, bytes: usize)
    requires
        call_ensures(pad, (k,), padded),
        call_ensures(buffer_bytes, (k, rows), bytes),
    ensures
        padded % 512 == 0,
        k <= padded < k + 512,
        8 * bytes == 9 * (rows * padded),
{
    law_padding_is_the_least_multiple(k as nat);
    let (r, p) = (rows as int, padded as int);
    assert(p == 512 * (p / 512));
    let b = p / 512;
    assert(p / 32 * 36 == 576 * b);
    assert(8 * (r * (576 * b)) == 9 * (r * (512 * b))) by (nonlinear_arith);
}

/// Law: whatever a count is divided into, the pieces cover it and no fewer do.
pub proof fn law_given_quotients_cover(n: usize, d: usize, pieces: usize)
    requires
        call_ensures(div_ceil, (n, d), pieces),
        d > 0,
    ensures
        n <= pieces * d,
        n > 0 ==> (pieces - 1) * d < n,
        n == 0 ==> pieces == 0,
{
    lemma_div_ceil(n as nat, d as nat);
    let (p, e) = (pieces as int, d as int);
    assert((p - 1) * e == p * e - e) by (nonlinear_arith);
}

} // verus!
