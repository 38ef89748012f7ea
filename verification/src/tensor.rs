//! Devices, element types and tensor descriptions, as far as the decisions of
//! the decoder read them.

use vstd::prelude::*;

verus! {

/// Where a tensor lives. Two handles are on the same device exactly when they
/// compare equal: an accelerator carries the identity of the handle (and so of
/// the stream) that owns it.
#[derive(Clone, Copy, PartialEq, Eq, Structural, Debug)]
pub enum Device {
    Cpu,
    Rocm(u64),
    Other(u64),
}

/// Element type of a plain (not quantized) tensor.
#[derive(Clone, Copy, PartialEq, Eq, Structural, Debug)]
pub enum DType {
    U8,
    U32,
    I64,
    BF16,
    F16,
    F32,
    F64,
}

impl Device {
    pub open spec fn spec_is_cpu(self) -> bool {
        self == Device::Cpu
    }

    pub open spec fn spec_is_rocm(self) -> bool {
        self is Rocm
    }

    pub fn is_cpu(&self) -> (res: bool)
        ensures
            res == self.spec_is_cpu(),
    {
        matches!(*self, Device::Cpu)
    }

    pub fn is_rocm(&self) -> (res: bool)
        ensures
            res == self.spec_is_rocm(),
    {
        matches!(*self, Device::Rocm(_))
    }

    /// Whether both handles name one device and stream.
    pub fn same_device(&self, other: &Device) -> (res: bool)
        ensures
            res == (*self == *other),
    {
        *self == *other
    }
}

/// A plain tensor on a device. `contiguous` is the element range of its
/// storage that it covers, when it covers one without gaps.
#[derive(Debug)]
pub struct Operand {
    pub device: Device,
    pub dtype: DType,
    pub dims: Vec<usize>,
    pub contiguous: Option<(usize, usize)>,
}

/// Product of all dimensions.
pub open spec fn elements(dims: Seq<usize>) -> nat
    decreases dims.len(),
{
    if dims.len() == 0 {
        1
    } else {
        elements(dims.drop_last()) * dims.last() as nat
    }
}

impl Operand {
    /// A tensor's element count is a machine number.
    pub open spec fn wf(self) -> bool {
        elements(self.dims@) <= usize::MAX
    }
}

/// Element counts of two- and three-dimensional tensors.
pub proof fn lemma_elements(dims: Seq<usize>)
    ensures
        dims.len() == 2 ==> elements(dims) == dims[0] * dims[1],
        dims.len() == 3 ==> elements(dims) == dims[0] * dims[1] * dims[2],
{
    if dims.len() == 2 || dims.len() == 3 {
        let pair = dims.take(2);
        let one = pair.drop_last();
        assert(one.drop_last().len() == 0);
        assert(elements(one.drop_last()) == 1);
        assert(elements(one) == 1 * (one.last() as nat));
        assert(elements(pair) == one.last() as nat * pair.last() as nat);
        if dims.len() == 2 {
            assert(dims =~= pair);
        } else {
            assert(dims.drop_last() =~= pair);
        }
    }
}

/// Number of elements of a tensor, when it is a machine number.
pub fn elem_count(dims: &Vec<usize>) -> (res: usize)
    requires
        elements(dims@) <= usize::MAX,
    ensures
        res == elements(dims@),
{
    let mut zero = false;
    let mut i: usize = 0;
    while i < dims.len()
        invariant
            i <= dims@.len(),
            zero == exists|j: int| 0 <= j < i && #[trigger] dims@[j] == 0,
        decreases dims@.len() - i,
    {
        if dims[i] == 0 {
            zero = true;
        }
        i = i + 1;
    }
    if zero {
        proof {
            let j = choose|j: int| 0 <= j < dims@.len() && #[trigger] dims@[j] == 0;
            lemma_elements_zero(dims@, j);
        }
        return 0;
    }
    let mut n: usize = 1;
    let mut i: usize = 0;
    while i < dims.len()
        invariant
            i <= dims@.len(),
            elements(dims@) <= usize::MAX,
            forall|j: int| 0 <= j < dims@.len() ==> #[trigger] dims@[j] > 0,
            n == elements(dims@.take(i as int)),
        decreases dims@.len() - i,
    {
        proof {
            assert(dims@.take(i + 1).drop_last() =~= dims@.take(i as int));
            lemma_elements_prefix(dims@, i + 1);
        }
        n = n * dims[i];
        i = i + 1;
    }
    proof {
        assert(dims@.take(i as int) =~= dims@);
    }
    n
}

proof fn lemma_elements_zero(dims: Seq<usize>, j: int)
    requires
        0 <= j < dims.len(),
        dims[j] == 0,
    ensures
        elements(dims) == 0,
    decreases dims.len(),
{
    if j < dims.len() - 1 {
        lemma_elements_zero(dims.drop_last(), j);
    }
    let e = elements(dims.drop_last()) as int;
    let l = dims.last() as int;
    assert(e * l == 0) by (nonlinear_arith)
        requires
            e == 0 || l == 0,
    ;
}

proof fn lemma_elements_prefix(dims: Seq<usize>, n: int)
    requires
        0 <= n <= dims.len(),
        forall|j: int| 0 <= j < dims.len() ==> #[trigger] dims[j] > 0,
    ensures
        1 <= elements(dims.take(n)) <= elements(dims),
    decreases dims.len(),
{
    if dims.len() > 0 {
        let e = elements(dims.drop_last()) as int;
        let l = dims.last() as int;
        assert forall|j: int| 0 <= j < dims.drop_last().len() implies #[trigger] dims.drop_last()[j] > 0 by {
            assert(dims[j] > 0);
        }
        if n == dims.len() {
            assert(dims.take(n) =~= dims);
            lemma_elements_prefix(dims.drop_last(), n - 1);
            assert(dims.drop_last().take(n - 1) =~= dims.drop_last());
        } else {
            assert(dims.take(n) =~= dims.drop_last().take(n));
            lemma_elements_prefix(dims.drop_last(), n);
        }
        assert(e * l >= e && e * l >= 1) by (nonlinear_arith)
            requires
                e >= 1,
                l >= 1,
        ;
    } else {
        assert(dims.take(n) =~= dims);
    }
}

/// Law: whatever is told of devices, one is the CPU, one an accelerator of its
/// own number, and two handles are one device only when they are equal.
pub proof fn law_devices_are_told_apart(a: Device, b: Device, cpu: bool, rocm: bool, same: bool, id: u64)
    requires
        call_ensures(Device::is_cpu, (&a,), cpu),
        call_ensures(Device::is_rocm, (&a,), rocm),
        call_ensures(Device::same_device, (&a, &b), same),
    ensures
        a == Device::Cpu ==> cpu && !rocm,
        a == Device::Rocm(id) ==> rocm && !cpu,
        a == Device::Other(id) ==> !rocm && !cpu,
        same <==> a == b,
{
}

/// Law: whatever a tensor's elements are counted as, one more dimension
/// multiplies the count, and without dimensions there is one.
pub proof fn law_dimensions_multiply(dims: Vec<usize>, more: Vec<usize>, n: usize, count: usize, counted: usize)
    requires
        call_ensures(elem_count, (&dims,), count),
        call_ensures(elem_count, (&more,), counted),
        more@ == dims@.push(n),
    ensures
        counted == count * n,
        dims@.len() == 0 ==> count == 1,
{
    assert(more@.drop_last() =~= dims@);
}

} // verus!
