//! Reuse of a view that one loop reads and a later loop reads again.
//!
//! Two loops of a function's entry block, over the same constant bounds, that
//! both load one partition view: the first can stage what it reads, and the
//! second read it back. The pairs are found by looking at a function of a
//! tile program and recorded on its loops as attributes, so that whoever
//! lowers the program reads the decision. What a staging costs is recorded
//! with it; whether that is affordable is for the lowering to say.

use vstd::prelude::*;

verus! {

/// What an operation does, as far as this analysis tells them apart.
#[derive(Clone, Copy, PartialEq, Eq, Structural, Debug)]
pub enum Opcode {
    For,
    LoadViewTko,
    Constant,
    Other,
}

#[derive(Clone, Copy, PartialEq, Eq, Structural, Debug)]
pub enum ScalarType {
    I32,
    Other,
}

/// The type of a value. A partition view has elements of `elem_bytes` bytes.
#[derive(Clone, Copy, PartialEq, Eq, Structural, Debug)]
pub enum Type {
    Scalar(ScalarType),
    PartitionView { elem_bytes: i32 },
    Token,
    Other,
}

#[derive(Debug)]
pub enum Attribute {
    DenseElements { shape: Vec<i64>, element_type: Type, data: Vec<u8> },
    Integer(i64, Type),
    Other,
}

#[verifier::ext_equal]
pub enum AttributeView {
    DenseElements { shape: Seq<i64>, element_type: Type, data: Seq<u8> },
    Integer(i64, Type),
    Other,
}

impl View for Attribute {
    type V = AttributeView;

    open spec fn view(&self) -> AttributeView {
        match self {
            Attribute::DenseElements { shape, element_type, data } => AttributeView::DenseElements {
                shape: shape@,
                element_type: *element_type,
                data: data@,
            },
            Attribute::Integer(v, t) => AttributeView::Integer(*v, *t),
            Attribute::Other => AttributeView::Other,
        }
    }
}

/// An operation: values it takes, regions it holds, and attributes by name.
#[derive(Debug)]
pub struct Operation {
    pub opcode: Opcode,
    pub operands: Vec<usize>,
    pub regions: Vec<usize>,
    pub attributes: Vec<(String, Attribute)>,
}

#[verifier::ext_equal]
pub struct OperationView {
    pub opcode: Opcode,
    pub operands: Seq<usize>,
    pub regions: Seq<usize>,
    pub attributes: Seq<(Seq<char>, AttributeView)>,
}

/// A value, with the operation that defines it unless it is a block argument.
#[derive(Clone, Copy, PartialEq, Eq, Structural, Debug)]
pub struct Value {
    pub ty: Type,
    pub definition: Option<usize>,
}

/// A program in numbered pieces: regions are lists of blocks, blocks are lists
/// of operations.
#[derive(Debug)]
pub struct Program {
    pub ops: Vec<Operation>,
    pub values: Vec<Value>,
    pub regions: Vec<Vec<usize>>,
    pub blocks: Vec<Vec<usize>>,
}

#[verifier::ext_equal]
pub struct ProgramView {
    pub ops: Seq<OperationView>,
    pub values: Seq<Value>,
    pub regions: Seq<Seq<usize>>,
    pub blocks: Seq<Seq<usize>>,
}

pub open spec fn named(a: (String, Attribute)) -> (Seq<char>, AttributeView) {
    (a.0@, a.1@)
}

pub open spec fn attribute_views(a: Seq<(String, Attribute)>) -> Seq<(Seq<char>, AttributeView)> {
    a.map_values(|x: (String, Attribute)| named(x))
}

impl View for Operation {
    type V = OperationView;

    open spec fn view(&self) -> OperationView {
        OperationView {
            opcode: self.opcode,
            operands: self.operands@,
            regions: self.regions@,
            attributes: attribute_views(self.attributes@),
        }
    }
}

impl View for Program {
    type V = ProgramView;

    open spec fn view(&self) -> ProgramView {
        ProgramView {
            ops: self.ops@.map_values(|o: Operation| o@),
            values: self.values@,
            regions: self.regions@.map_values(|r: Vec<usize>| r@),
            blocks: self.blocks@.map_values(|b: Vec<usize>| b@),
        }
    }
}

pub open spec fn all_below(s: Seq<usize>, n: nat) -> bool {
    forall|i: int| 0 <= i < s.len() ==> #[trigger] s[i] < n
}

impl ProgramView {
    /// Every number names a piece of the program.
    pub open spec fn wf(self) -> bool {
        &&& forall|o: int|
            0 <= o < self.ops.len() ==> all_below((#[trigger] self.ops[o]).operands, self.values.len()) && all_below(
                self.ops[o].regions,
                self.regions.len(),
            )
        &&& forall|v: int|
            0 <= v < self.values.len() ==> ((#[trigger] self.values[v]).definition matches Some(o) ==> o
                < self.ops.len())
        &&& forall|r: int| 0 <= r < self.regions.len() ==> all_below(#[trigger] self.regions[r], self.blocks.len())
        &&& forall|b: int| 0 <= b < self.blocks.len() ==> all_below(#[trigger] self.blocks[b], self.ops.len())
    }
}

/// Name of the attribute on a loop that should stage; its value is the chunk
/// count, which is also the length of what is staged.
pub const ATTR_SMEM_STAGE: &'static str = "tile_smem_stage";

/// Name of the attribute on the loop that consumes what was staged.
pub const ATTR_SMEM_CONSUME: &'static str = "tile_smem_consume";

/// Name of the attribute with the bytes per thread that a staging holds live.
pub const ATTR_SMEM_BYTES: &'static str = "tile_smem_bytes";

/// A staging and a consuming loop.
#[derive(Clone, Copy, PartialEq, Eq, Structural, Debug)]
pub struct Plan {
    pub staging: usize,
    pub consuming: usize,
    pub bytes_per_thread: i32,
    pub num_chunks: i32,
}

/// Every pair of loops in a function worth caching.
#[derive(Debug)]
pub struct CrossLoopReuse {
    pub plans: Vec<Plan>,
}

/// The number that four bytes hold, least significant first.
pub open spec fn le_i32(data: Seq<u8>) -> int {
    let u = data[0] + 256 * data[1] + 65536 * data[2] + 16777216 * data[3];
    if u < 2147483648 {
        u
    } else {
        u - 4294967296
    }
}

/// The attribute is a scalar 32-bit constant.
pub open spec fn is_const_attr(a: (Seq<char>, AttributeView)) -> bool {
    &&& a.0 == "value"@
    &&& a.1 matches AttributeView::DenseElements { shape, element_type, data } && shape.len() == 0 && element_type
        == Type::Scalar(ScalarType::I32) && data.len() >= 4
}

pub open spec fn const_value(a: (Seq<char>, AttributeView)) -> i32 {
    match a.1 {
        AttributeView::DenseElements { data, .. } => le_i32(data) as i32,
        _ => 0,
    }
}

/// The first constant among attributes `from..`.
pub open spec fn first_const(attributes: Seq<(Seq<char>, AttributeView)>, from: int) -> Option<i32>
    decreases attributes.len() - from,
{
    if from < 0 || from >= attributes.len() {
        None
    } else if is_const_attr(attributes[from]) {
        Some(const_value(attributes[from]))
    } else {
        first_const(attributes, from + 1)
    }
}

/// The constant that a value is, if it is one.
pub open spec fn spec_const_i32(p: ProgramView, v: usize) -> Option<i32> {
    match p.values[v as int].definition {
        Some(o) => if p.ops[o as int].opcode == Opcode::Constant {
            first_const(p.ops[o as int].attributes, 0)
        } else {
            None
        },
        None => None,
    }
}

/// The chunk count of two loops over the same constant bounds `0..n`.
pub open spec fn spec_matching_bounds(p: ProgramView, first: usize, second: usize) -> Option<i32> {
    let (o1, o2) = (p.ops[first as int].operands, p.ops[second as int].operands);
    if o1.len() < 2 || o2.len() < 2 {
        None
    } else if spec_const_i32(p, o1[0]) != Some(0i32) || spec_const_i32(p, o2[0]) != Some(0i32) {
        None
    } else {
        match (spec_const_i32(p, o1[1]), spec_const_i32(p, o2[1])) {
            (Some(a), Some(b)) => if a == b && a > 0 {
                Some(a)
            } else {
                None
            },
            _ => None,
        }
    }
}

/// The view that an operation loads, if it loads a partition view.
pub open spec fn view_loaded(p: ProgramView, op: usize) -> Option<usize> {
    let o = p.ops[op as int];
    if o.opcode == Opcode::LoadViewTko && o.operands.len() > 0
        && p.values[o.operands[0] as int].ty is PartitionView {
        Some(o.operands[0])
    } else {
        None
    }
}

/// The views that the first `n` of `ops` load, in order.
pub open spec fn views_of(p: ProgramView, ops: Seq<usize>, n: nat) -> Seq<usize>
    decreases n,
{
    if n == 0 {
        Seq::empty()
    } else {
        match view_loaded(p, ops[n - 1]) {
            Some(v) => views_of(p, ops, (n - 1) as nat).push(v),
            None => views_of(p, ops, (n - 1) as nat),
        }
    }
}

/// The views loaded in the first `n` of `blocks`.
pub open spec fn blocks_views(p: ProgramView, blocks: Seq<usize>, n: nat) -> Seq<usize>
    decreases n,
{
    if n == 0 {
        Seq::empty()
    } else {
        let ops = p.blocks[blocks[n - 1] as int];
        blocks_views(p, blocks, (n - 1) as nat) + views_of(p, ops, ops.len())
    }
}

/// The views loaded in the first `n` of `regions`.
pub open spec fn regions_views(p: ProgramView, regions: Seq<usize>, n: nat) -> Seq<usize>
    decreases n,
{
    if n == 0 {
        Seq::empty()
    } else {
        let blocks = p.regions[regions[n - 1] as int];
        regions_views(p, regions, (n - 1) as nat) + blocks_views(p, blocks, blocks.len())
    }
}

/// The partition views that a loop's body loads, in order.
pub open spec fn spec_views_read(p: ProgramView, op: usize) -> Seq<usize> {
    let regions = p.ops[op as int].regions;
    regions_views(p, regions, regions.len())
}

/// The first of `a` from `from` on that is also in `b`.
pub open spec fn first_shared(a: Seq<usize>, b: Seq<usize>, from: int) -> Option<usize>
    decreases a.len() - from,
{
    if from < 0 || from >= a.len() {
        None
    } else if b.contains(a[from]) {
        Some(a[from])
    } else {
        first_shared(a, b, from + 1)
    }
}

pub open spec fn spec_view_elem_bytes(p: ProgramView, v: usize) -> Option<i32> {
    match p.values[v as int].ty {
        Type::PartitionView { elem_bytes } => Some(elem_bytes),
        _ => None,
    }
}

/// `a * b`, held to what 32 bits can say.
pub open spec fn saturated(a: i32, b: i32) -> i32 {
    if a * b > i32::MAX {
        i32::MAX
    } else if a * b < i32::MIN {
        i32::MIN
    } else {
        (a * b) as i32
    }
}

/// The plan for two loops, if the second reads again what the first reads.
pub open spec fn pair_plan(p: ProgramView, first: usize, second: usize) -> Option<Plan> {
    match spec_matching_bounds(p, first, second) {
        None => None,
        Some(num_chunks) => match first_shared(spec_views_read(p, first), spec_views_read(p, second), 0) {
            None => None,
            Some(v) => match spec_view_elem_bytes(p, v) {
                None => None,
                Some(bytes) => Some(
                    Plan { staging: first, consuming: second, num_chunks, bytes_per_thread: saturated(num_chunks, bytes) },
                ),
            },
        },
    }
}

/// The loops among the first `n` of `ops`, in order.
pub open spec fn loops_of(p: ProgramView, ops: Seq<usize>, n: nat) -> Seq<usize>
    decreases n,
{
    if n == 0 {
        Seq::empty()
    } else if p.ops[ops[n - 1] as int].opcode == Opcode::For {
        loops_of(p, ops, (n - 1) as nat).push(ops[n - 1])
    } else {
        loops_of(p, ops, (n - 1) as nat)
    }
}

/// The plans of loop `a` with the loops after it, up to the one before `b`.
pub open spec fn plans_with(p: ProgramView, loops: Seq<usize>, a: int, b: int) -> Seq<Plan>
    decreases b - a,
{
    if b <= a + 1 {
        Seq::empty()
    } else {
        match pair_plan(p, loops[a], loops[b - 1]) {
            Some(plan) => plans_with(p, loops, a, b - 1).push(plan),
            None => plans_with(p, loops, a, b - 1),
        }
    }
}

/// The plans of the first `n` loops with all after them.
pub open spec fn plans_of(p: ProgramView, loops: Seq<usize>, n: nat) -> Seq<Plan>
    decreases n,
{
    if n == 0 {
        Seq::empty()
    } else {
        plans_of(p, loops, (n - 1) as nat) + plans_with(p, loops, n - 1, loops.len() as int)
    }
}

/// The first block of a function's first region.
pub open spec fn entry_block(p: ProgramView, func: usize) -> Option<usize> {
    let regions = p.ops[func as int].regions;
    if regions.len() > 0 && p.regions[regions[0] as int].len() > 0 {
        Some(p.regions[regions[0] as int][0])
    } else {
        None
    }
}

pub open spec fn spec_loops(p: ProgramView, func: usize) -> Seq<usize> {
    match entry_block(p, func) {
        Some(b) => loops_of(p, p.blocks[b as int], p.blocks[b as int].len()),
        None => Seq::empty(),
    }
}

/// Every plan of a function: earlier staging loops first, and for one staging
/// loop earlier consuming loops first.
pub open spec fn spec_plans(p: ProgramView, func: usize) -> Seq<Plan> {
    plans_of(p, spec_loops(p, func), spec_loops(p, func).len())
}

fn le_value(data: &Vec<u8>) -> (res: i32)
    requires
        data@.len() >= 4,
    ensures
        res == le_i32(data@),
        (data@[0] + 256 * data@[1] + 65536 * data@[2] + 16777216 * data@[3] - res) % 4294967296 == 0,
{
    let u: i64 = data[0] as i64 + 256 * (data[1] as i64) + 65536 * (data[2] as i64) + 16777216 * (data[3] as i64);
    if u < 2147483648 {
        u as i32
    } else {
        (u - 4294967296) as i32
    }
}

fn const_of(a: &(String, Attribute)) -> (res: Option<i32>)
    ensures
        res == (if is_const_attr(named(*a)) {
            Some(const_value(named(*a)))
        } else {
            None
        }),
{
    let wanted: String = "value".to_owned();
    if a.0 != wanted {
        return None;
    }
    match &a.1 {
        Attribute::DenseElements { shape, element_type, data } => {
            if shape.len() == 0 && *element_type == Type::Scalar(ScalarType::I32) && data.len() >= 4 {
                Some(le_value(data))
            } else {
                None
            }
        },
        _ => None,
    }
}

fn below(s: &Vec<usize>, n: usize) -> (res: bool)
    ensures
        res == all_below(s@, n as nat),
{
    let mut i: usize = 0;
    while i < s.len()
        invariant
            i <= s@.len(),
            forall|j: int| 0 <= j < i ==> #[trigger] s@[j] < n,
        decreases s@.len() - i,
    {
        if s[i] >= n {
            return false;
        }
        i = i + 1;
    }
    true
}

fn each_below(lists: &Vec<Vec<usize>>, n: usize) -> (res: bool)
    ensures
        res == forall|i: int| 0 <= i < lists@.len() ==> all_below((#[trigger] lists@[i])@, n as nat),
{
    let mut i: usize = 0;
    while i < lists.len()
        invariant
            i <= lists@.len(),
            forall|j: int| 0 <= j < i ==> all_below((#[trigger] lists@[j])@, n as nat),
        decreases lists@.len() - i,
    {
        if !below(&lists[i], n) {
            return false;
        }
        i = i + 1;
    }
    true
}

impl Program {
    /// Whether every number names a piece of the program.
    pub fn is_well_formed(&self) -> (res: bool)
        ensures
            res == self@.wf(),
    {
        let ghost p = self@;
        let mut o: usize = 0;
        while o < self.ops.len()
            invariant
                o <= self.ops@.len(),
                p == self@,
                forall|j: int|
                    0 <= j < o ==> all_below((#[trigger] p.ops[j]).operands, p.values.len()) && all_below(
                        p.ops[j].regions,
                        p.regions.len(),
                    ),
            decreases self.ops@.len() - o,
        {
            proof {
                assert(p.ops[o as int] == self.ops@[o as int]@);
            }
            if !below(&self.ops[o].operands, self.values.len()) || !below(&self.ops[o].regions, self.regions.len()) {
                return false;
            }
            o = o + 1;
        }
        let mut v: usize = 0;
        while v < self.values.len()
            invariant
                v <= self.values@.len(),
                p == self@,
                forall|j: int|
                    0 <= j < v ==> ((#[trigger] p.values[j]).definition matches Some(o) ==> o < p.ops.len()),
            decreases self.values@.len() - v,
        {
            if let Some(op) = self.values[v].definition {
                if op >= self.ops.len() {
                    proof {
                        assert(p.values[v as int].definition == Some(op));
                    }
                    return false;
                }
            }
            v = v + 1;
        }
        let nested = each_below(&self.regions, self.blocks.len()) && each_below(&self.blocks, self.ops.len());
        proof {
            assert forall|r: int| 0 <= r < p.regions.len() implies (#[trigger] p.regions[r]) == self.regions@[r]@ by {}
            assert forall|b: int| 0 <= b < p.blocks.len() implies (#[trigger] p.blocks[b]) == self.blocks@[b]@ by {}
            if p.wf() {
                assert forall|r: int| 0 <= r < self.regions@.len() implies all_below(
                    (#[trigger] self.regions@[r])@,
                    self.blocks@.len(),
                ) by {
                    assert(all_below(p.regions[r], p.blocks.len()));
                }
                assert forall|b: int| 0 <= b < self.blocks@.len() implies all_below(
                    (#[trigger] self.blocks@[b])@,
                    self.ops@.len(),
                ) by {
                    assert(all_below(p.blocks[b], p.ops.len()));
                }
            }
        }
        nested
    }

    /// The constant that a value is, if it is one.
    pub fn const_i32(&self, v: usize) -> (res: Option<i32>)
        requires
            self@.wf(),
            v < self@.values.len(),
        ensures
            res == spec_const_i32(self@, v),
    {
        let op: usize = match self.values[v].definition {
            Some(o) => o,
            None => {
                return None;
            },
        };
        proof {
            assert(self@.values[v as int].definition is Some);
            assert(self@.ops[op as int] == self.ops@[op as int]@);
        }
        if self.ops[op].opcode != Opcode::Constant {
            return None;
        }
        let attributes = &self.ops[op].attributes;
        let ghost views = attribute_views(attributes@);
        let mut i: usize = 0;
        while i < attributes.len()
            invariant
                i <= attributes@.len(),
                views == attribute_views(attributes@),
                spec_const_i32(self@, v) == first_const(views, i as int),
            decreases attributes@.len() - i,
        {
            proof {
                assert(views[i as int] == named(attributes@[i as int]));
            }
            let found = const_of(&attributes[i]);
            if found.is_some() {
                return found;
            }
            i = i + 1;
        }
        None
    }

    /// The chunk count of two loops over the same constant bounds from 0.
    pub fn matching_bounds(&self, first: usize, second: usize) -> (res: Option<i32>)
        requires
            self@.wf(),
            first < self@.ops.len(),
            second < self@.ops.len(),
        ensures
            res == spec_matching_bounds(self@, first, second),
    {
        let o1 = &self.ops[first].operands;
        let o2 = &self.ops[second].operands;
        proof {
            assert(self@.ops[first as int] == self.ops@[first as int]@);
            assert(self@.ops[second as int] == self.ops@[second as int]@);
            assert(all_below(self@.ops[first as int].operands, self@.values.len()));
            assert(all_below(self@.ops[second as int].operands, self@.values.len()));
        }
        if o1.len() < 2 || o2.len() < 2 {
            return None;
        }
        proof {
            assert(o1@[0] < self@.values.len() && o1@[1] < self@.values.len());
            assert(o2@[0] < self@.values.len() && o2@[1] < self@.values.len());
        }
        let zero = match (self.const_i32(o1[0]), self.const_i32(o2[0])) {
            (Some(a), Some(b)) => a == 0 && b == 0,
            _ => false,
        };
        if !zero {
            return None;
        }
        match (self.const_i32(o1[1]), self.const_i32(o2[1])) {
            (Some(a), Some(b)) => if a == b && a > 0 {
                Some(a)
            } else {
                None
            },
            _ => None,
        }
    }

    fn push_views(&self, block: usize, to: &mut Vec<usize>)
        requires
            self@.wf(),
            block < self@.blocks.len(),
        ensures
            final(to)@ == old(to)@ + views_of(self@, self@.blocks[block as int], self@.blocks[block as int].len()),
    {
        let ghost before = to@;
        let ops = &self.blocks[block];
        proof {
            assert(self@.blocks[block as int] == ops@);
            assert(all_below(self@.blocks[block as int], self@.ops.len()));
        }
        let mut i: usize = 0;
        proof {
            assert(to@ =~= before + views_of(self@, ops@, 0));
        }
        while i < ops.len()
            invariant
                i <= ops@.len(),
                self@.wf(),
                all_below(ops@, self@.ops.len()),
                to@ == before + views_of(self@, ops@, i as nat),
            decreases ops@.len() - i,
        {
            proof {
                assert(ops@[i as int] < self@.ops.len());
                assert(self@.ops[ops@[i as int] as int] == self.ops@[ops@[i as int] as int]@);
                assert(all_below(self@.ops[ops@[i as int] as int].operands, self@.values.len()));
            }
            let op = &self.ops[ops[i]];
            if op.opcode == Opcode::LoadViewTko && op.operands.len() > 0 {
                let v: usize = op.operands[0];
                proof {
                    assert(self@.ops[ops@[i as int] as int].operands[0] == v);
                }
                let is_view = match self.values[v].ty {
                    Type::PartitionView { .. } => true,
                    _ => false,
                };
                if is_view {
                    to.push(v);
                }
            }
            i = i + 1;
            proof {
                assert(to@ =~= before + views_of(self@, ops@, i as nat));
            }
        }
    }

    /// The partition views that a loop's body loads.
    pub fn views_read(&self, for_op: usize) -> (res: Vec<usize>)
        requires
            self@.wf(),
            for_op < self@.ops.len(),
        ensures
            res@ == spec_views_read(self@, for_op),
    {
        let mut views: Vec<usize> = Vec::new();
        let regions = &self.ops[for_op].regions;
        proof {
            assert(self@.ops[for_op as int] == self.ops@[for_op as int]@);
            assert(all_below(self@.ops[for_op as int].regions, self@.regions.len()));
        }
        let mut r: usize = 0;
        while r < regions.len()
            invariant
                r <= regions@.len(),
                self@.wf(),
                all_below(regions@, self@.regions.len()),
                views@ == regions_views(self@, regions@, r as nat),
            decreases regions@.len() - r,
        {
            proof {
                assert(regions@[r as int] < self@.regions.len());
            }
            let blocks = &self.regions[regions[r]];
            proof {
                assert(self@.regions[regions@[r as int] as int] == blocks@);
                assert(all_below(self@.regions[regions@[r as int] as int], self@.blocks.len()));
            }
            let ghost before = views@;
            let mut b: usize = 0;
            proof {
                assert(views@ =~= before + blocks_views(self@, blocks@, 0));
            }
            while b < blocks.len()
                invariant
                    b <= blocks@.len(),
                    self@.wf(),
                    all_below(blocks@, self@.blocks.len()),
                    views@ == before + blocks_views(self@, blocks@, b as nat),
                decreases blocks@.len() - b,
            {
                proof {
                    assert(blocks@[b as int] < self@.blocks.len());
                }
                self.push_views(blocks[b], &mut views);
                b = b + 1;
                proof {
                    assert(views@ =~= before + blocks_views(self@, blocks@, b as nat));
                }
            }
            r = r + 1;
        }
        views
    }

    /// Bytes of one element of a partition view.
    pub fn view_elem_bytes(&self, v: usize) -> (res: Option<i32>)
        requires
            v < self@.values.len(),
        ensures
            res == spec_view_elem_bytes(self@, v),
    {
        match self.values[v].ty {
            Type::PartitionView { elem_bytes } => Some(elem_bytes),
            _ => None,
        }
    }

    fn loops(&self, func: usize) -> (res: Vec<usize>)
        requires
            self@.wf(),
            func < self@.ops.len(),
        ensures
            res@ == spec_loops(self@, func),
            all_below(res@, self@.ops.len()),
    {
        let mut loops: Vec<usize> = Vec::new();
        let regions = &self.ops[func].regions;
        proof {
            assert(self@.ops[func as int] == self.ops@[func as int]@);
            assert(all_below(self@.ops[func as int].regions, self@.regions.len()));
        }
        if regions.len() == 0 {
            return loops;
        }
        proof {
            assert(regions@[0] < self@.regions.len());
        }
        let blocks = &self.regions[regions[0]];
        proof {
            assert(self@.regions[regions@[0] as int] == blocks@);
            assert(all_below(self@.regions[regions@[0] as int], self@.blocks.len()));
        }
        if blocks.len() == 0 {
            return loops;
        }
        proof {
            assert(blocks@[0] < self@.blocks.len());
        }
        let ops = &self.blocks[blocks[0]];
        proof {
            assert(self@.blocks[blocks@[0] as int] == ops@);
            assert(all_below(self@.blocks[blocks@[0] as int], self@.ops.len()));
        }
        let mut i: usize = 0;
        while i < ops.len()
            invariant
                i <= ops@.len(),
                all_below(ops@, self@.ops.len()),
                loops@ == loops_of(self@, ops@, i as nat),
                all_below(loops@, self@.ops.len()),
            decreases ops@.len() - i,
        {
            proof {
                assert(ops@[i as int] < self@.ops.len());
                assert(self@.ops[ops@[i as int] as int] == self.ops@[ops@[i as int] as int]@);
            }
            if self.ops[ops[i]].opcode == Opcode::For {
                loops.push(ops[i]);
            }
            i = i + 1;
        }
        loops
    }

    fn plan_pair(&self, first: usize, second: usize) -> (res: Option<Plan>)
        requires
            self@.wf(),
            first < self@.ops.len(),
            second < self@.ops.len(),
        ensures
            res == pair_plan(self@, first, second),
    {
        let num_chunks: i32 = match self.matching_bounds(first, second) {
            Some(n) => n,
            None => {
                return None;
            },
        };
        let read_by_first = self.views_read(first);
        let read_by_second = self.views_read(second);
        let shared = find_shared(&read_by_first, &read_by_second);
        match shared {
            None => None,
            Some(v) => {
                proof {
                    lemma_views_in_range(self@, first);
                    lemma_first_shared(read_by_first@, read_by_second@, 0);
                }
                match self.view_elem_bytes(v) {
                    None => None,
                    Some(bytes) => Some(
                        Plan {
                            staging: first,
                            consuming: second,
                            num_chunks,
                            bytes_per_thread: saturating_product(num_chunks, bytes),
                        },
                    ),
                }
            },
        }
    }
}

fn saturating_product(a: i32, b: i32) -> (res: i32)
    ensures
        res == saturated(a, b),
{
    proof {
        assert(-0x4000_0000_0000_0000 <= a * b <= 0x4000_0000_0000_0000) by (nonlinear_arith)
            requires
                -0x8000_0000 <= a <= 0x7fff_ffff,
                -0x8000_0000 <= b <= 0x7fff_ffff,
        ;
    }
    let p: i64 = (a as i64) * (b as i64);
    if p > i32::MAX as i64 {
        i32::MAX
    } else if p < i32::MIN as i64 {
        i32::MIN
    } else {
        p as i32
    }
}

fn find_shared(a: &Vec<usize>, b: &Vec<usize>) -> (res: Option<usize>)
    ensures
        res == first_shared(a@, b@, 0),
{
    let mut i: usize = 0;
    while i < a.len()
        invariant
            i <= a@.len(),
            first_shared(a@, b@, 0) == first_shared(a@, b@, i as int),
        decreases a@.len() - i,
    {
        if holds(b, a[i]) {
            return Some(a[i]);
        }
        i = i + 1;
    }
    None
}

fn holds(s: &Vec<usize>, x: usize) -> (res: bool)
    ensures
        res == s@.contains(x),
{
    let mut i: usize = 0;
    while i < s.len()
        invariant
            i <= s@.len(),
            forall|j: int| 0 <= j < i ==> s@[j] != x,
        decreases s@.len() - i,
    {
        if s[i] == x {
            return true;
        }
        i = i + 1;
    }
    false
}

proof fn lemma_first_shared(a: Seq<usize>, b: Seq<usize>, from: int)
    ensures
        first_shared(a, b, from) matches Some(v) ==> a.contains(v) && b.contains(v),
    decreases a.len() - from,
{
    if 0 <= from < a.len() && !b.contains(a[from]) {
        lemma_first_shared(a, b, from + 1);
    }
}

proof fn lemma_views_of_in_range(p: ProgramView, ops: Seq<usize>, n: nat)
    requires
        p.wf(),
        all_below(ops, p.ops.len()),
        n <= ops.len(),
    ensures
        all_below(views_of(p, ops, n), p.values.len()),
    decreases n,
{
    if n > 0 {
        lemma_views_of_in_range(p, ops, (n - 1) as nat);
        let before = views_of(p, ops, (n - 1) as nat);
        assert(ops[n - 1] < p.ops.len());
        assert(all_below(p.ops[ops[n - 1] as int].operands, p.values.len()));
        assert forall|i: int| 0 <= i < views_of(p, ops, n).len() implies #[trigger] views_of(p, ops, n)[i] < p.values.len() by {
            if i < before.len() {
                assert(views_of(p, ops, n)[i] == before[i]);
            } else {
                assert(p.ops[ops[n - 1] as int].operands[0] < p.values.len());
            }
        }
    }
}

proof fn lemma_blocks_in_range(p: ProgramView, blocks: Seq<usize>, n: nat)
    requires
        p.wf(),
        all_below(blocks, p.blocks.len()),
        n <= blocks.len(),
    ensures
        all_below(blocks_views(p, blocks, n), p.values.len()),
    decreases n,
{
    if n > 0 {
        lemma_blocks_in_range(p, blocks, (n - 1) as nat);
        assert(blocks[n - 1] < p.blocks.len());
        let ops = p.blocks[blocks[n - 1] as int];
        lemma_views_of_in_range(p, ops, ops.len());
        let a = blocks_views(p, blocks, (n - 1) as nat);
        let b = views_of(p, ops, ops.len());
        assert forall|i: int| 0 <= i < (a + b).len() implies #[trigger] (a + b)[i] < p.values.len() by {
            if i < a.len() {
                assert((a + b)[i] == a[i]);
            } else {
                assert((a + b)[i] == b[i - a.len()]);
            }
        }
    }
}

proof fn lemma_regions_in_range(p: ProgramView, regions: Seq<usize>, n: nat)
    requires
        p.wf(),
        all_below(regions, p.regions.len()),
        n <= regions.len(),
    ensures
        all_below(regions_views(p, regions, n), p.values.len()),
    decreases n,
{
    if n > 0 {
        lemma_regions_in_range(p, regions, (n - 1) as nat);
        assert(regions[n - 1] < p.regions.len());
        let blocks = p.regions[regions[n - 1] as int];
        lemma_blocks_in_range(p, blocks, blocks.len());
        let a = regions_views(p, regions, (n - 1) as nat);
        let b = blocks_views(p, blocks, blocks.len());
        assert forall|i: int| 0 <= i < (a + b).len() implies #[trigger] (a + b)[i] < p.values.len() by {
            if i < a.len() {
                assert((a + b)[i] == a[i]);
            } else {
                assert((a + b)[i] == b[i - a.len()]);
            }
        }
    }
}

proof fn lemma_views_in_range(p: ProgramView, op: usize)
    requires
        p.wf(),
        op < p.ops.len(),
    ensures
        forall|v: usize| spec_views_read(p, op).contains(v) ==> v < p.values.len(),
{
    let regions = p.ops[op as int].regions;
    lemma_regions_in_range(p, regions, regions.len());
}

/// The plans of a function's entry block.
pub fn find_plans(program: &Program, func: usize) -> (res: Vec<Plan>)
    requires
        program@.wf(),
        func < program@.ops.len(),
    ensures
        res@ == spec_plans(program@, func),
{
    let loops = program.loops(func);
    let ghost p = program@;
    let n: usize = loops.len();
    let mut plans: Vec<Plan> = Vec::new();
    let mut a: usize = 0;
    while a < n
        invariant
            a <= n == loops@.len(),
            p == program@,
            p.wf(),
            all_below(loops@, p.ops.len()),
            plans@ == plans_of(p, loops@, a as nat),
        decreases n - a,
    {
        let ghost before = plans@;
        let mut b: usize = a + 1;
        proof {
            assert(plans@ =~= before + plans_with(p, loops@, a as int, b as int));
        }
        while b < n
            invariant
                a < b <= n == loops@.len(),
                p == program@,
                p.wf(),
                all_below(loops@, p.ops.len()),
                plans@ == before + plans_with(p, loops@, a as int, b as int),
            decreases n - b,
        {
            proof {
                assert(loops@[a as int] < p.ops.len() && loops@[b as int] < p.ops.len());
            }
            if let Some(plan) = program.plan_pair(loops[a], loops[b]) {
                plans.push(plan);
            }
            b = b + 1;
            proof {
                assert(plans@ =~= before + plans_with(p, loops@, a as int, b as int));
            }
        }
        a = a + 1;
    }
    plans
}

impl CrossLoopReuse {
    /// Analyses a function.
    pub fn compute(program: &Program, func: usize) -> (res: CrossLoopReuse)
        requires
            program@.wf(),
            func < program@.ops.len(),
        ensures
            res.plans@ == spec_plans(program@, func),
    {
        CrossLoopReuse { plans: find_plans(program, func) }
    }
}

/// The attributes that are not named `key`, in order.
pub open spec fn others(attributes: Seq<(Seq<char>, AttributeView)>, key: Seq<char>) -> Seq<(Seq<char>, AttributeView)>
    decreases attributes.len(),
{
    if attributes.len() == 0 {
        Seq::empty()
    } else if attributes.last().0 == key {
        others(attributes.drop_last(), key)
    } else {
        others(attributes.drop_last(), key).push(attributes.last())
    }
}

/// The attributes with `key` set to the number `v`.
pub open spec fn with_number(attributes: Seq<(Seq<char>, AttributeView)>, key: Seq<char>, v: i64) -> Seq<
    (Seq<char>, AttributeView),
> {
    others(attributes, key).push((key, AttributeView::Integer(v, Type::Scalar(ScalarType::I32))))
}

/// The program with an attribute of operation `op` set to a number.
pub open spec fn with_attribute(p: ProgramView, op: usize, key: Seq<char>, v: i64) -> ProgramView {
    let o = p.ops[op as int];
    ProgramView {
        ops: p.ops.update(op as int, OperationView { attributes: with_number(o.attributes, key, v), ..o }),
        ..p
    }
}

/// The program with a plan recorded on its two loops.
pub open spec fn with_plan(p: ProgramView, plan: Plan) -> ProgramView {
    let staged = with_attribute(p, plan.staging, ATTR_SMEM_STAGE@, plan.num_chunks as i64);
    let sized = with_attribute(staged, plan.staging, ATTR_SMEM_BYTES@, plan.bytes_per_thread as i64);
    with_attribute(sized, plan.consuming, ATTR_SMEM_CONSUME@, 1)
}

/// The program with the first `n` plans recorded.
pub open spec fn with_plans(p: ProgramView, plans: Seq<Plan>, n: nat) -> ProgramView
    decreases n,
{
    if n == 0 {
        p
    } else {
        with_plan(with_plans(p, plans, (n - 1) as nat), plans[n - 1])
    }
}

fn remove_named(attributes: &mut Vec<(String, Attribute)>, key: &String)
    ensures
        attribute_views(final(attributes)@) == others(attribute_views(old(attributes)@), key@),
{
    let ghost all = attribute_views(attributes@);
    let ghost mut done: int = 0;
    let mut i: usize = 0;
    proof {
        assert(others(all.take(0), key@) =~= Seq::empty());
        assert(attribute_views(attributes@) =~= others(all.take(0), key@) + all.skip(0));
    }
    while i < attributes.len()
        invariant
            0 <= done <= all.len(),
            i == others(all.take(done), key@).len(),
            attribute_views(attributes@) == others(all.take(done), key@) + all.skip(done),
        decreases all.len() - done,
    {
        let ghost cur = attributes@;
        let ghost kept = others(all.take(done), key@);
        proof {
            assert(attribute_views(cur).len() == cur.len());
            assert(done < all.len());
            assert(all.take(done + 1).drop_last() =~= all.take(done));
            assert(all.take(done + 1).last() == all[done]);
            assert(attribute_views(cur)[i as int] == all.skip(done)[0]);
            assert(named(cur[i as int]) == all[done]);
        }
        if attributes[i].0 == *key {
            attributes.remove(i);
            proof {
                assert(attribute_views(attributes@) =~= attribute_views(cur).remove(i as int));
                assert(attribute_views(attributes@) =~= kept + all.skip(done + 1));
            }
        } else {
            i = i + 1;
            proof {
                assert(attribute_views(attributes@) =~= kept.push(all[done]) + all.skip(done + 1));
            }
        }
        proof {
            done = done + 1;
        }
    }
    proof {
        assert(attribute_views(attributes@).len() == attributes@.len());
        assert(all.skip(done).len() == 0);
        assert(all.take(done) =~= all);
        assert(attribute_views(attributes@) =~= others(all, key@));
    }
}

impl Program {
    /// Sets an integer attribute of an operation.
    pub fn set_int_attr(&mut self, op: usize, key: &str, v: i64)
        requires
            op < old(self)@.ops.len(),
        ensures
            final(self)@ == with_attribute(old(self)@, op, key@, v),
    {
        let ghost before = self@;
        let ghost ops = self.ops@;
        let name: String = key.to_owned();
        proof {
            assert(before.ops[op as int] == ops[op as int]@);
        }
        remove_named(&mut self.ops[op].attributes, &name);
        let ghost kept = self.ops@[op as int].attributes@;
        self.ops[op].attributes.push((name, Attribute::Integer(v, Type::Scalar(ScalarType::I32))));
        proof {
            let now = self.ops@[op as int];
            assert(attribute_views(now.attributes@) =~= attribute_views(kept).push(
                (key@, AttributeView::Integer(v, Type::Scalar(ScalarType::I32))),
            ));
            assert(self@.ops =~= before.ops.update(op as int, now@));
            assert(self@ =~= with_attribute(before, op, key@, v));
        }
    }
}

/// Records the plans of a function on its loops. Returns how many pairs were
/// marked.
pub fn annotate(program: &mut Program, func: usize) -> (res: usize)
    requires
        old(program)@.wf(),
        func < old(program)@.ops.len(),
    ensures
        res == spec_plans(old(program)@, func).len(),
        final(program)@ == with_plans(
            old(program)@,
            spec_plans(old(program)@, func),
            spec_plans(old(program)@, func).len(),
        ),
        final(program)@.wf(),
{
    let ghost p = program@;
    let plans = find_plans(program, func);
    proof {
        lemma_plans_name_loops(p, func);
        lemma_same_structure_refl(p);
    }
    let mut i: usize = 0;
    while i < plans.len()
        invariant
            i <= plans@.len(),
            p == old(program)@,
            p.wf(),
            plans@ == spec_plans(p, func),
            forall|j: int| 0 <= j < plans@.len() ==> names_loops(p, #[trigger] plans@[j]),
            program@ == with_plans(p, plans@, i as nat),
            same_structure(p, program@),
        decreases plans@.len() - i,
    {
        let plan = plans[i];
        let ghost before = program@;
        proof {
            assert(names_loops(p, plans@[i as int]));
            lemma_plan_keeps_structure(p, before, plan);
        }
        program.set_int_attr(plan.staging, ATTR_SMEM_STAGE, plan.num_chunks as i64);
        program.set_int_attr(plan.staging, ATTR_SMEM_BYTES, plan.bytes_per_thread as i64);
        program.set_int_attr(plan.consuming, ATTR_SMEM_CONSUME, 1);
        i = i + 1;
    }
    proof {
        lemma_same_structure_wf(p, program@);
    }
    plans.len()
}

/// Both ends of a plan are loops.
pub open spec fn names_loops(p: ProgramView, plan: Plan) -> bool {
    &&& plan.staging < p.ops.len()
    &&& plan.consuming < p.ops.len()
    &&& p.ops[plan.staging as int].opcode == Opcode::For
    &&& p.ops[plan.consuming as int].opcode == Opcode::For
}

/// The programs differ at most in attributes of operations other than constants.
pub open spec fn same_structure(p: ProgramView, q: ProgramView) -> bool {
    &&& q.values == p.values
    &&& q.regions == p.regions
    &&& q.blocks == p.blocks
    &&& q.ops.len() == p.ops.len()
    &&& forall|o: int|
        0 <= o < p.ops.len() ==> {
            &&& (#[trigger] q.ops[o]).opcode == p.ops[o].opcode
            &&& q.ops[o].operands == p.ops[o].operands
            &&& q.ops[o].regions == p.ops[o].regions
            &&& p.ops[o].opcode == Opcode::Constant ==> q.ops[o].attributes == p.ops[o].attributes
        }
}

proof fn lemma_same_structure_refl(p: ProgramView)
    ensures
        same_structure(p, p),
{
}

proof fn lemma_same_structure_wf(p: ProgramView, q: ProgramView)
    requires
        p.wf(),
        same_structure(p, q),
    ensures
        q.wf(),
{
    assert forall|o: int| 0 <= o < q.ops.len() implies all_below((#[trigger] q.ops[o]).operands, q.values.len())
        && all_below(q.ops[o].regions, q.regions.len()) by {
        assert(all_below(p.ops[o].operands, p.values.len()));
    }
}

proof fn lemma_plan_keeps_structure(p: ProgramView, q: ProgramView, plan: Plan)
    requires
        same_structure(p, q),
        names_loops(p, plan),
    ensures
        same_structure(p, with_plan(q, plan)),
{
    let a = with_attribute(q, plan.staging, ATTR_SMEM_STAGE@, plan.num_chunks as i64);
    let b = with_attribute(a, plan.staging, ATTR_SMEM_BYTES@, plan.bytes_per_thread as i64);
    let c = with_attribute(b, plan.consuming, ATTR_SMEM_CONSUME@, 1);
    assert forall|o: int| 0 <= o < p.ops.len() implies {
        &&& (#[trigger] c.ops[o]).opcode == p.ops[o].opcode
        &&& c.ops[o].operands == p.ops[o].operands
        &&& c.ops[o].regions == p.ops[o].regions
        &&& p.ops[o].opcode == Opcode::Constant ==> c.ops[o].attributes == p.ops[o].attributes
    } by {
        assert(q.ops[o].opcode == p.ops[o].opcode);
        assert(q.ops[plan.staging as int].opcode == Opcode::For);
        assert(q.ops[plan.consuming as int].opcode == Opcode::For);
    }
}

proof fn lemma_loops(p: ProgramView, ops: Seq<usize>, n: nat)
    requires
        all_below(ops, p.ops.len()),
        n <= ops.len(),
    ensures
        forall|i: int|
            0 <= i < loops_of(p, ops, n).len() ==> (#[trigger] loops_of(p, ops, n)[i]) < p.ops.len() && p.ops[loops_of(
                p,
                ops,
                n,
            )[i] as int].opcode == Opcode::For,
    decreases n,
{
    if n > 0 {
        lemma_loops(p, ops, (n - 1) as nat);
        assert(ops[n - 1] < p.ops.len());
    }
}

proof fn lemma_plans_with(p: ProgramView, loops: Seq<usize>, a: int, b: int)
    requires
        forall|i: int| 0 <= i < loops.len() ==> (#[trigger] loops[i]) < p.ops.len() && p.ops[loops[i] as int].opcode
            == Opcode::For,
        0 <= a,
        b <= loops.len(),
    ensures
        forall|j: int| 0 <= j < plans_with(p, loops, a, b).len() ==> names_loops(p, #[trigger] plans_with(p, loops, a, b)[j]),
    decreases b - a,
{
    if b > a + 1 {
        lemma_plans_with(p, loops, a, b - 1);
        let before = plans_with(p, loops, a, b - 1);
        assert(loops[a] < p.ops.len());
        assert(loops[b - 1] < p.ops.len());
        assert forall|j: int| 0 <= j < plans_with(p, loops, a, b).len() implies names_loops(
            p,
            #[trigger] plans_with(p, loops, a, b)[j],
        ) by {
            if j < before.len() {
                assert(plans_with(p, loops, a, b)[j] == before[j]);
            }
        }
    }
}

proof fn lemma_plans_of(p: ProgramView, loops: Seq<usize>, n: nat)
    requires
        forall|i: int| 0 <= i < loops.len() ==> (#[trigger] loops[i]) < p.ops.len() && p.ops[loops[i] as int].opcode
            == Opcode::For,
        n <= loops.len(),
    ensures
        forall|j: int| 0 <= j < plans_of(p, loops, n).len() ==> names_loops(p, #[trigger] plans_of(p, loops, n)[j]),
    decreases n,
{
    if n > 0 {
        lemma_plans_of(p, loops, (n - 1) as nat);
        lemma_plans_with(p, loops, n - 1, loops.len() as int);
        let a = plans_of(p, loops, (n - 1) as nat);
        let b = plans_with(p, loops, n - 1, loops.len() as int);
        assert forall|j: int| 0 <= j < (a + b).len() implies names_loops(p, #[trigger] (a + b)[j]) by {
            if j < a.len() {
                assert((a + b)[j] == a[j]);
            } else {
                assert((a + b)[j] == b[j - a.len()]);
            }
        }
    }
}

proof fn lemma_plans_name_loops(p: ProgramView, func: usize)
    requires
        p.wf(),
        func < p.ops.len(),
    ensures
        forall|j: int| 0 <= j < spec_plans(p, func).len() ==> names_loops(p, #[trigger] spec_plans(p, func)[j]),
{
    let loops = spec_loops(p, func);
    if entry_block(p, func) is Some {
        let regions = p.ops[func as int].regions;
        assert(all_below(regions, p.regions.len()));
        assert(regions[0] < p.regions.len());
        assert(all_below(p.regions[regions[0] as int], p.blocks.len()));
        let b = p.regions[regions[0] as int][0];
        assert(b < p.blocks.len());
        assert(all_below(p.blocks[b as int], p.ops.len()));
        lemma_loops(p, p.blocks[b as int], p.blocks[b as int].len());
    }
    lemma_plans_of(p, loops, loops.len());
}

/// The loops numbered `a` and `b` of a function, in this order, give `plan`.
pub open spec fn is_pair(p: ProgramView, loops: Seq<usize>, a: int, b: int, plan: Plan) -> bool {
    0 <= a < b < loops.len() && pair_plan(p, loops[a], loops[b]) == Some(plan)
}

proof fn lemma_plans_with_are_pairs(p: ProgramView, loops: Seq<usize>, a: int, n: int, plan: Plan)
    requires
        0 <= a,
        n <= loops.len(),
    ensures
        plans_with(p, loops, a, n).contains(plan) <==> exists|b: int| b < n && #[trigger] is_pair(p, loops, a, b, plan),
    decreases n - a,
{
    let all = plans_with(p, loops, a, n);
    if n > a + 1 {
        lemma_plans_with_are_pairs(p, loops, a, n - 1, plan);
        let before = plans_with(p, loops, a, n - 1);
        if all.contains(plan) {
            let j = choose|j: int| 0 <= j < all.len() && all[j] == plan;
            if j < before.len() {
                assert(before[j] == plan);
                assert(before.contains(plan));
            } else {
                assert(is_pair(p, loops, a, n - 1, plan));
            }
        }
        if exists|b: int| b < n && #[trigger] is_pair(p, loops, a, b, plan) {
            let b = choose|b: int| b < n && #[trigger] is_pair(p, loops, a, b, plan);
            if b == n - 1 {
                assert(all[before.len() as int] == plan);
            } else {
                assert(b < n - 1 && is_pair(p, loops, a, b, plan));
                let j = choose|j: int| 0 <= j < before.len() && before[j] == plan;
                assert(all[j] == plan);
            }
        }
    }
}

proof fn lemma_plans_of_are_pairs(p: ProgramView, loops: Seq<usize>, n: nat, plan: Plan)
    requires
        n <= loops.len(),
    ensures
        plans_of(p, loops, n).contains(plan) <==> exists|a: int, b: int| a < n && #[trigger] is_pair(p, loops, a, b, plan),
    decreases n,
{
    let all = plans_of(p, loops, n);
    if n > 0 {
        lemma_plans_of_are_pairs(p, loops, (n - 1) as nat, plan);
        lemma_plans_with_are_pairs(p, loops, n - 1, loops.len() as int, plan);
        let before = plans_of(p, loops, (n - 1) as nat);
        let last = plans_with(p, loops, n - 1, loops.len() as int);
        if all.contains(plan) {
            let j = choose|j: int| 0 <= j < all.len() && all[j] == plan;
            if j < before.len() {
                assert(before[j] == plan);
                let (a, b) = choose|a: int, b: int| a < n - 1 && #[trigger] is_pair(p, loops, a, b, plan);
                assert(a < n && is_pair(p, loops, a, b, plan));
            } else {
                assert(last[j - before.len()] == plan);
                let b = choose|b: int| b < loops.len() && #[trigger] is_pair(p, loops, n - 1, b, plan);
                assert(is_pair(p, loops, n - 1, b, plan));
            }
        }
        if exists|a: int, b: int| a < n && #[trigger] is_pair(p, loops, a, b, plan) {
            let (a, b) = choose|a: int, b: int| a < n && #[trigger] is_pair(p, loops, a, b, plan);
            if a == n - 1 {
                assert(b < loops.len() && is_pair(p, loops, n - 1, b, plan));
                let j = choose|j: int| 0 <= j < last.len() && last[j] == plan;
                assert(all[before.len() + j] == plan);
            } else {
                assert(a < n - 1 && is_pair(p, loops, a, b, plan));
                let j = choose|j: int| 0 <= j < before.len() && before[j] == plan;
                assert(all[j] == plan);
            }
        }
    }
}

/// Law: the plans of a function are exactly those of its pairs of loops, an
/// earlier loop staging for a later one; no pair is left out.
pub proof fn law_plans_are_the_pairs_of_loops(p: ProgramView, func: usize, plan: Plan)
    ensures
        spec_plans(p, func).contains(plan) <==> exists|a: int, b: int|
            #[trigger] is_pair(p, spec_loops(p, func), a, b, plan),
{
    let loops = spec_loops(p, func);
    lemma_plans_of_are_pairs(p, loops, loops.len(), plan);
    if exists|a: int, b: int| #[trigger] is_pair(p, loops, a, b, plan) {
        let (a, b) = choose|a: int, b: int| #[trigger] is_pair(p, loops, a, b, plan);
        assert(a < loops.len() && is_pair(p, loops, a, b, plan));
    }
}

/// Law: the plan of two loops names them and their constant number of chunks,
/// of which there is at least one; both read a view, and the plan's cost is
/// that of staging it.
pub proof fn law_plans_are_worth_caching(p: ProgramView, first: usize, second: usize)
    requires
        pair_plan(p, first, second) is Some,
    ensures
        ({
            let plan = pair_plan(p, first, second)->0;
            let v = first_shared(spec_views_read(p, first), spec_views_read(p, second), 0)->0;
            &&& plan.staging == first
            &&& plan.consuming == second
            &&& plan.num_chunks > 0
            &&& spec_matching_bounds(p, first, second) == Some(plan.num_chunks)
            &&& spec_views_read(p, first).contains(v)
            &&& spec_views_read(p, second).contains(v)
            &&& spec_view_elem_bytes(p, v) is Some
            &&& plan.bytes_per_thread == saturated(plan.num_chunks, spec_view_elem_bytes(p, v)->0)
        }),
{
    lemma_first_shared(spec_views_read(p, first), spec_views_read(p, second), 0);
}

proof fn lemma_same_views_of(p: ProgramView, q: ProgramView, ops: Seq<usize>, n: nat)
    requires
        same_structure(p, q),
        all_below(ops, p.ops.len()),
        n <= ops.len(),
    ensures
        views_of(q, ops, n) == views_of(p, ops, n),
    decreases n,
{
    if n > 0 {
        lemma_same_views_of(p, q, ops, (n - 1) as nat);
        assert(ops[n - 1] < p.ops.len());
        assert(q.ops[ops[n - 1] as int].opcode == p.ops[ops[n - 1] as int].opcode);
    }
}

proof fn lemma_same_blocks_views(p: ProgramView, q: ProgramView, blocks: Seq<usize>, n: nat)
    requires
        p.wf(),
        same_structure(p, q),
        all_below(blocks, p.blocks.len()),
        n <= blocks.len(),
    ensures
        blocks_views(q, blocks, n) == blocks_views(p, blocks, n),
    decreases n,
{
    if n > 0 {
        lemma_same_blocks_views(p, q, blocks, (n - 1) as nat);
        assert(blocks[n - 1] < p.blocks.len());
        let ops = p.blocks[blocks[n - 1] as int];
        lemma_same_views_of(p, q, ops, ops.len());
    }
}

proof fn lemma_same_regions_views(p: ProgramView, q: ProgramView, regions: Seq<usize>, n: nat)
    requires
        p.wf(),
        same_structure(p, q),
        all_below(regions, p.regions.len()),
        n <= regions.len(),
    ensures
        regions_views(q, regions, n) == regions_views(p, regions, n),
    decreases n,
{
    if n > 0 {
        lemma_same_regions_views(p, q, regions, (n - 1) as nat);
        assert(regions[n - 1] < p.regions.len());
        let blocks = p.regions[regions[n - 1] as int];
        lemma_same_blocks_views(p, q, blocks, blocks.len());
    }
}

proof fn lemma_same_const(p: ProgramView, q: ProgramView, v: usize)
    requires
        p.wf(),
        same_structure(p, q),
        v < p.values.len(),
    ensures
        spec_const_i32(q, v) == spec_const_i32(p, v),
{
    if let Some(o) = p.values[v as int].definition {
        assert(o < p.ops.len());
        assert(q.ops[o as int].opcode == p.ops[o as int].opcode);
    }
}

proof fn lemma_same_pair_plan(p: ProgramView, q: ProgramView, first: usize, second: usize)
    requires
        p.wf(),
        same_structure(p, q),
        first < p.ops.len(),
        second < p.ops.len(),
    ensures
        pair_plan(q, first, second) == pair_plan(p, first, second),
{
    assert(q.ops[first as int].operands == p.ops[first as int].operands);
    assert(q.ops[second as int].operands == p.ops[second as int].operands);
    let (o1, o2) = (p.ops[first as int].operands, p.ops[second as int].operands);
    assert(all_below(o1, p.values.len()) && all_below(o2, p.values.len()));
    if o1.len() >= 2 && o2.len() >= 2 {
        assert(o1[0] < p.values.len() && o1[1] < p.values.len() && o2[0] < p.values.len() && o2[1] < p.values.len());
        lemma_same_const(p, q, o1[0]);
        lemma_same_const(p, q, o1[1]);
        lemma_same_const(p, q, o2[0]);
        lemma_same_const(p, q, o2[1]);
    }
    let (r1, r2) = (p.ops[first as int].regions, p.ops[second as int].regions);
    assert(all_below(r1, p.regions.len()) && all_below(r2, p.regions.len()));
    lemma_same_regions_views(p, q, r1, r1.len());
    lemma_same_regions_views(p, q, r2, r2.len());
}

proof fn lemma_same_loops(p: ProgramView, q: ProgramView, ops: Seq<usize>, n: nat)
    requires
        same_structure(p, q),
        all_below(ops, p.ops.len()),
        n <= ops.len(),
    ensures
        loops_of(q, ops, n) == loops_of(p, ops, n),
    decreases n,
{
    if n > 0 {
        lemma_same_loops(p, q, ops, (n - 1) as nat);
        assert(ops[n - 1] < p.ops.len());
        assert(q.ops[ops[n - 1] as int].opcode == p.ops[ops[n - 1] as int].opcode);
    }
}

proof fn lemma_same_plans_with(p: ProgramView, q: ProgramView, loops: Seq<usize>, a: int, b: int)
    requires
        p.wf(),
        same_structure(p, q),
        all_below(loops, p.ops.len()),
        0 <= a,
        b <= loops.len(),
    ensures
        plans_with(q, loops, a, b) == plans_with(p, loops, a, b),
    decreases b - a,
{
    if b > a + 1 {
        lemma_same_plans_with(p, q, loops, a, b - 1);
        assert(loops[a] < p.ops.len() && loops[b - 1] < p.ops.len());
        lemma_same_pair_plan(p, q, loops[a], loops[b - 1]);
    }
}

proof fn lemma_same_plans_of(p: ProgramView, q: ProgramView, loops: Seq<usize>, n: nat)
    requires
        p.wf(),
        same_structure(p, q),
        all_below(loops, p.ops.len()),
        n <= loops.len(),
    ensures
        plans_of(q, loops, n) == plans_of(p, loops, n),
    decreases n,
{
    if n > 0 {
        lemma_same_plans_of(p, q, loops, (n - 1) as nat);
        lemma_same_plans_with(p, q, loops, n - 1, loops.len() as int);
    }
}

proof fn lemma_with_plans_structure(p: ProgramView, plans: Seq<Plan>, n: nat)
    requires
        n <= plans.len(),
        forall|j: int| 0 <= j < plans.len() ==> names_loops(p, #[trigger] plans[j]),
    ensures
        same_structure(p, with_plans(p, plans, n)),
    decreases n,
{
    if n > 0 {
        lemma_with_plans_structure(p, plans, (n - 1) as nat);
        assert(names_loops(p, plans[n - 1]));
        lemma_plan_keeps_structure(p, with_plans(p, plans, (n - 1) as nat), plans[n - 1]);
    }
}

/// Law: recording the plans changes nothing but the loops' attributes, and the
/// recorded program has the same plans: asking again gives the same answer.
pub proof fn law_recording_keeps_the_plans(p: ProgramView, func: usize)
    requires
        p.wf(),
        func < p.ops.len(),
    ensures
        ({
            let q = with_plans(p, spec_plans(p, func), spec_plans(p, func).len());
            &&& same_structure(p, q)
            &&& q.wf()
            &&& spec_plans(q, func) == spec_plans(p, func)
        }),
{
    let plans = spec_plans(p, func);
    let q = with_plans(p, plans, plans.len());
    lemma_plans_name_loops(p, func);
    lemma_with_plans_structure(p, plans, plans.len());
    lemma_same_structure_wf(p, q);
    assert(q.ops[func as int].regions == p.ops[func as int].regions);
    let regions = p.ops[func as int].regions;
    assert(all_below(regions, p.regions.len()));
    if entry_block(p, func) is Some {
        assert(regions[0] < p.regions.len());
        assert(all_below(p.regions[regions[0] as int], p.blocks.len()));
        let b = p.regions[regions[0] as int][0];
        assert(b < p.blocks.len());
        let ops = p.blocks[b as int];
        assert(all_below(ops, p.ops.len()));
        lemma_same_loops(p, q, ops, ops.len());
        lemma_loops(p, ops, ops.len());
    }
    let loops = spec_loops(p, func);
    assert(all_below(loops, p.ops.len()));
    lemma_same_plans_of(p, q, loops, loops.len());
}

/// The last attribute named `key`.
pub open spec fn attribute(attributes: Seq<(Seq<char>, AttributeView)>, key: Seq<char>) -> Option<AttributeView>
    decreases attributes.len(),
{
    if attributes.len() == 0 {
        None
    } else if attributes.last().0 == key {
        Some(attributes.last().1)
    } else {
        attribute(attributes.drop_last(), key)
    }
}

proof fn lemma_others(attributes: Seq<(Seq<char>, AttributeView)>, key: Seq<char>, other: Seq<char>)
    ensures
        attribute(others(attributes, key), other) == (if other == key {
            None
        } else {
            attribute(attributes, other)
        }),
    decreases attributes.len(),
{
    if attributes.len() > 0 {
        lemma_others(attributes.drop_last(), key, other);
        let kept = others(attributes.drop_last(), key);
        if attributes.last().0 != key {
            assert(kept.push(attributes.last()).drop_last() =~= kept);
        }
    }
}

/// Law: setting an attribute replaces what it was, whatever there was before,
/// and touches no other attribute.
pub proof fn law_setting_replaces_one_attribute(
    attributes: Seq<(Seq<char>, AttributeView)>,
    key: Seq<char>,
    v: i64,
    other: Seq<char>,
)
    ensures
        attribute(with_number(attributes, key, v), key) == Some(
            AttributeView::Integer(v, Type::Scalar(ScalarType::I32)),
        ),
        other != key ==> attribute(with_number(attributes, key, v), other) == attribute(attributes, other),
{
    lemma_others(attributes, key, other);
    assert(with_number(attributes, key, v).drop_last() =~= others(attributes, key));
}

/// The last of the first `n` plans that has `op` stage.
pub open spec fn last_staged(plans: Seq<Plan>, n: nat, op: usize) -> Option<Plan>
    decreases n,
{
    if n == 0 {
        None
    } else if plans[n - 1].staging == op {
        Some(plans[n - 1])
    } else {
        last_staged(plans, (n - 1) as nat, op)
    }
}

/// One of the first `n` plans has `op` consume.
pub open spec fn consumes(plans: Seq<Plan>, n: nat, op: usize) -> bool {
    exists|j: int| 0 <= j < n && (#[trigger] plans[j]).consuming == op
}

/// An attribute that holds a number.
pub open spec fn number(v: i64) -> Option<AttributeView> {
    Some(AttributeView::Integer(v, Type::Scalar(ScalarType::I32)))
}

/// What attribute `key` of `op` is once the first `n` plans are recorded, where
/// it was `old` before.
pub open spec fn recorded(plans: Seq<Plan>, n: nat, op: usize, key: Seq<char>, old: Option<AttributeView>) -> Option<
    AttributeView,
> {
    if key == ATTR_SMEM_STAGE@ {
        match last_staged(plans, n, op) {
            Some(plan) => number(plan.num_chunks as i64),
            None => old,
        }
    } else if key == ATTR_SMEM_BYTES@ {
        match last_staged(plans, n, op) {
            Some(plan) => number(plan.bytes_per_thread as i64),
            None => old,
        }
    } else if key == ATTR_SMEM_CONSUME@ && consumes(plans, n, op) {
        number(1)
    } else {
        old
    }
}

proof fn lemma_keys_differ()
    ensures
        ATTR_SMEM_STAGE@ != ATTR_SMEM_BYTES@,
        ATTR_SMEM_STAGE@ != ATTR_SMEM_CONSUME@,
        ATTR_SMEM_BYTES@ != ATTR_SMEM_CONSUME@,
{
    reveal_strlit("tile_smem_stage");
    reveal_strlit("tile_smem_bytes");
    reveal_strlit("tile_smem_consume");
    assert(ATTR_SMEM_STAGE@[10] == 's' && ATTR_SMEM_BYTES@[10] == 'b' && ATTR_SMEM_CONSUME@[10] == 'c');
}

proof fn lemma_with_attribute_read(p: ProgramView, target: usize, set: Seq<char>, v: i64, op: usize, key: Seq<char>)
    requires
        target < p.ops.len(),
        op < p.ops.len(),
    ensures
        attribute(with_attribute(p, target, set, v).ops[op as int].attributes, key) == (if op == target && key == set {
            number(v)
        } else {
            attribute(p.ops[op as int].attributes, key)
        }),
        with_attribute(p, target, set, v).ops.len() == p.ops.len(),
{
    law_setting_replaces_one_attribute(p.ops[target as int].attributes, set, v, key);
}

proof fn lemma_plan_read(p: ProgramView, plan: Plan, op: usize, key: Seq<char>)
    requires
        plan.staging < p.ops.len(),
        plan.consuming < p.ops.len(),
        op < p.ops.len(),
    ensures
        ({
            let old = attribute(p.ops[op as int].attributes, key);
            attribute(with_plan(p, plan).ops[op as int].attributes, key) == (if key == ATTR_SMEM_STAGE@ && plan.staging
                == op {
                number(plan.num_chunks as i64)
            } else if key == ATTR_SMEM_BYTES@ && plan.staging == op {
                number(plan.bytes_per_thread as i64)
            } else if key == ATTR_SMEM_CONSUME@ && plan.consuming == op {
                number(1)
            } else {
                old
            })
        }),
        with_plan(p, plan).ops.len() == p.ops.len(),
{
    lemma_keys_differ();
    let staged = with_attribute(p, plan.staging, ATTR_SMEM_STAGE@, plan.num_chunks as i64);
    let sized = with_attribute(staged, plan.staging, ATTR_SMEM_BYTES@, plan.bytes_per_thread as i64);
    lemma_with_attribute_read(p, plan.staging, ATTR_SMEM_STAGE@, plan.num_chunks as i64, op, key);
    lemma_with_attribute_read(staged, plan.staging, ATTR_SMEM_BYTES@, plan.bytes_per_thread as i64, op, key);
    lemma_with_attribute_read(sized, plan.consuming, ATTR_SMEM_CONSUME@, 1, op, key);
}

/// Law: once plans are recorded, every attribute of every operation is what
/// they say. A loop that stages tells the chunks and bytes of the last plan
/// that has it stage, a loop that consumes is marked, and nothing else changes.
pub proof fn law_plans_are_readable(p: ProgramView, plans: Seq<Plan>, n: nat, op: usize, key: Seq<char>)
    requires
        n <= plans.len(),
        forall|j: int|
            0 <= j < plans.len() ==> (#[trigger] plans[j]).staging < p.ops.len() && plans[j].consuming < p.ops.len(),
        op < p.ops.len(),
    ensures
        with_plans(p, plans, n).ops.len() == p.ops.len(),
        attribute(with_plans(p, plans, n).ops[op as int].attributes, key) == recorded(
            plans,
            n,
            op,
            key,
            attribute(p.ops[op as int].attributes, key),
        ),
    decreases n,
{
    if n > 0 {
        let m = (n - 1) as nat;
        law_plans_are_readable(p, plans, m, op, key);
        assert(plans[n - 1].staging < p.ops.len());
        lemma_plan_read(with_plans(p, plans, m), plans[n - 1], op, key);
        lemma_keys_differ();
        if consumes(plans, m, op) {
            let j = choose|j: int| 0 <= j < m && (#[trigger] plans[j]).consuming == op;
            assert(0 <= j < n && plans[j].consuming == op);
        }
        if consumes(plans, n, op) && plans[n - 1].consuming != op {
            let j = choose|j: int| 0 <= j < n && (#[trigger] plans[j]).consuming == op;
            assert(0 <= j < m && plans[j].consuming == op);
        }
    }
}

/// What a plan sets at `op`, in order.
spec fn settings_of(plan: Plan, op: usize) -> Seq<(Seq<char>, i64)> {
    let staging = if plan.staging == op {
        seq![(ATTR_SMEM_STAGE@, plan.num_chunks as i64), (ATTR_SMEM_BYTES@, plan.bytes_per_thread as i64)]
    } else {
        Seq::empty()
    };
    if plan.consuming == op {
        staging.push((ATTR_SMEM_CONSUME@, 1))
    } else {
        staging
    }
}

/// What the first `n` plans set at `op`, in order.
spec fn settings(plans: Seq<Plan>, n: nat, op: usize) -> Seq<(Seq<char>, i64)>
    decreases n,
{
    if n == 0 {
        Seq::empty()
    } else {
        settings(plans, (n - 1) as nat, op) + settings_of(plans[n - 1], op)
    }
}

/// Attributes after some settings, made one after another.
spec fn applied(attributes: Seq<(Seq<char>, AttributeView)>, s: Seq<(Seq<char>, i64)>) -> Seq<
    (Seq<char>, AttributeView),
>
    decreases s.len(),
{
    if s.len() == 0 {
        attributes
    } else {
        with_number(applied(attributes, s.drop_last()), s.last().0, s.last().1)
    }
}

/// The attributes that no setting names, in order.
spec fn untouched(attributes: Seq<(Seq<char>, AttributeView)>, s: Seq<(Seq<char>, i64)>) -> Seq<
    (Seq<char>, AttributeView),
>
    decreases s.len(),
{
    if s.len() == 0 {
        attributes
    } else {
        others(untouched(attributes, s.drop_last()), s.last().0)
    }
}

proof fn lemma_applied_concat(
    attributes: Seq<(Seq<char>, AttributeView)>,
    s: Seq<(Seq<char>, i64)>,
    t: Seq<(Seq<char>, i64)>,
)
    ensures
        applied(attributes, s + t) == applied(applied(attributes, s), t),
    decreases t.len(),
{
    if t.len() == 0 {
        assert(s + t =~= s);
    } else {
        assert((s + t).drop_last() =~= s + t.drop_last());
        lemma_applied_concat(attributes, s, t.drop_last());
    }
}

proof fn lemma_others_concat(
    a: Seq<(Seq<char>, AttributeView)>,
    b: Seq<(Seq<char>, AttributeView)>,
    key: Seq<char>,
)
    ensures
        others(a + b, key) == others(a, key) + others(b, key),
    decreases b.len(),
{
    if b.len() == 0 {
        assert(a + b =~= a);
        assert(others(a, key) + others(b, key) =~= others(a, key));
    } else {
        assert((a + b).drop_last() =~= a + b.drop_last());
        lemma_others_concat(a, b.drop_last(), key);
        assert(others(a + b, key) =~= others(a, key) + others(b, key));
    }
}

proof fn lemma_untouched_concat(
    a: Seq<(Seq<char>, AttributeView)>,
    b: Seq<(Seq<char>, AttributeView)>,
    s: Seq<(Seq<char>, i64)>,
)
    ensures
        untouched(a + b, s) == untouched(a, s) + untouched(b, s),
    decreases s.len(),
{
    if s.len() > 0 {
        lemma_untouched_concat(a, b, s.drop_last());
        lemma_others_concat(untouched(a, s.drop_last()), untouched(b, s.drop_last()), s.last().0);
    }
}

/// Settings keep what they do not name, and put what they set behind it.
proof fn lemma_applied_parts(attributes: Seq<(Seq<char>, AttributeView)>, s: Seq<(Seq<char>, i64)>)
    ensures
        applied(attributes, s) == untouched(attributes, s) + applied(Seq::empty(), s),
    decreases s.len(),
{
    let none = Seq::<(Seq<char>, AttributeView)>::empty();
    if s.len() == 0 {
        assert(attributes + none =~= attributes);
    } else {
        let rest = s.drop_last();
        lemma_applied_parts(attributes, rest);
        lemma_others_concat(untouched(attributes, rest), applied(none, rest), s.last().0);
        assert(applied(attributes, s) =~= untouched(attributes, s) + applied(none, s));
    }
}

/// Attributes without `key` stay without it.
proof fn lemma_others_idle(a: Seq<(Seq<char>, AttributeView)>, key: Seq<char>, other: Seq<char>)
    ensures
        others(others(a, key), key) == others(a, key),
        others(others(a, key), other) == others(others(a, other), key),
    decreases a.len(),
{
    if a.len() > 0 {
        let most = a.drop_last();
        lemma_others_idle(most, key, other);
        let (k, o) = (others(most, key), others(most, other));
        assert(k.push(a.last()).drop_last() =~= k);
        assert(o.push(a.last()).drop_last() =~= o);
    }
}

/// Leaving out a name commutes with leaving out those that settings name.
proof fn lemma_untouched_commutes(a: Seq<(Seq<char>, AttributeView)>, s: Seq<(Seq<char>, i64)>, key: Seq<char>)
    ensures
        untouched(others(a, key), s) == others(untouched(a, s), key),
    decreases s.len(),
{
    if s.len() > 0 {
        let rest = s.drop_last();
        lemma_untouched_commutes(a, rest, key);
        lemma_others_idle(untouched(a, rest), key, s.last().0);
        lemma_others_idle(untouched(a, rest), s.last().0, key);
    }
}

proof fn lemma_untouched_idle(a: Seq<(Seq<char>, AttributeView)>, s: Seq<(Seq<char>, i64)>)
    ensures
        untouched(untouched(a, s), s) == untouched(a, s),
    decreases s.len(),
{
    if s.len() > 0 {
        let rest = s.drop_last();
        lemma_untouched_idle(a, rest);
        lemma_untouched_commutes(untouched(a, rest), rest, s.last().0);
        lemma_others_idle(untouched(a, rest), s.last().0, s.last().0);
    }
}

/// Nothing that settings set is left by them untouched.
proof fn lemma_set_is_touched(s: Seq<(Seq<char>, i64)>, t: Seq<(Seq<char>, i64)>)
    requires
        s.len() <= t.len(),
        forall|j: int| 0 <= j < s.len() ==> #[trigger] s[j] == t[j],
    ensures
        untouched(applied(Seq::empty(), s), t) == Seq::<(Seq<char>, AttributeView)>::empty(),
    decreases s.len(),
{
    let none = Seq::<(Seq<char>, AttributeView)>::empty();
    if s.len() == 0 {
        lemma_untouched_nothing(t);
    } else {
        let rest = s.drop_last();
        lemma_set_is_touched(rest, t);
        let one = seq![(s.last().0, AttributeView::Integer(s.last().1, Type::Scalar(ScalarType::I32)))];
        let kept = others(applied(none, rest), s.last().0);
        assert(applied(none, s) =~= kept + one);
        lemma_untouched_concat(kept, one, t);
        lemma_untouched_commutes(applied(none, rest), t, s.last().0);
        assert(others(none, s.last().0) == none);
        lemma_named_is_touched(one[0], t, s.len() - 1);
        assert(seq![one[0]] =~= one);
        assert(none + none =~= none);
    }
}

proof fn lemma_untouched_nothing(t: Seq<(Seq<char>, i64)>)
    ensures
        untouched(Seq::empty(), t) == Seq::<(Seq<char>, AttributeView)>::empty(),
    decreases t.len(),
{
    if t.len() > 0 {
        lemma_untouched_nothing(t.drop_last());
    }
}

proof fn lemma_named_is_touched(a: (Seq<char>, AttributeView), t: Seq<(Seq<char>, i64)>, j: int)
    requires
        0 <= j < t.len(),
        t[j].0 == a.0,
    ensures
        untouched(seq![a], t) == Seq::<(Seq<char>, AttributeView)>::empty(),
    decreases t.len(),
{
    let none = Seq::<(Seq<char>, AttributeView)>::empty();
    if j < t.len() - 1 {
        lemma_named_is_touched(a, t.drop_last(), j);
        assert(others(none, t.last().0) == none);
    } else {
        let rest = untouched(seq![a], t.drop_last());
        lemma_untouched_few(a, t.drop_last());
        if rest == seq![a] {
            assert(seq![a].drop_last() =~= none);
            assert(others(none, t.last().0) == none);
        } else {
            assert(others(none, t.last().0) == none);
        }
    }
}

proof fn lemma_untouched_few(a: (Seq<char>, AttributeView), t: Seq<(Seq<char>, i64)>)
    ensures
        untouched(seq![a], t) == seq![a] || untouched(seq![a], t) == Seq::<(Seq<char>, AttributeView)>::empty(),
    decreases t.len(),
{
    let none = Seq::<(Seq<char>, AttributeView)>::empty();
    if t.len() > 0 {
        lemma_untouched_few(a, t.drop_last());
        assert(seq![a].drop_last() =~= none);
        assert(others(none, t.last().0) == none);
        assert(none.push(a) =~= seq![a]);
    }
}

/// Making the same settings twice is making them once.
proof fn lemma_applied_twice(attributes: Seq<(Seq<char>, AttributeView)>, s: Seq<(Seq<char>, i64)>)
    ensures
        applied(applied(attributes, s), s) == applied(attributes, s),
{
    let none = Seq::<(Seq<char>, AttributeView)>::empty();
    let once = applied(attributes, s);
    lemma_applied_parts(attributes, s);
    lemma_applied_parts(once, s);
    lemma_untouched_concat(untouched(attributes, s), applied(none, s), s);
    lemma_untouched_idle(attributes, s);
    lemma_set_is_touched(s, s);
    assert(untouched(attributes, s) + none =~= untouched(attributes, s));
}

/// The program with settings made at each of its operations.
spec fn with_settings(p: ProgramView, plans: Seq<Plan>, n: nat) -> ProgramView {
    ProgramView {
        ops: Seq::new(
            p.ops.len(),
            |o: int|
                OperationView { attributes: applied(p.ops[o].attributes, settings(plans, n, o as usize)), ..p.ops[o] },
        ),
        ..p
    }
}

proof fn lemma_plan_settings(p: ProgramView, plan: Plan, o: int)
    requires
        plan.staging < p.ops.len(),
        plan.consuming < p.ops.len(),
        p.ops.len() <= usize::MAX,
        0 <= o < p.ops.len(),
    ensures
        with_plan(p, plan).ops.len() == p.ops.len(),
        with_plan(p, plan).ops[o] == (OperationView {
            attributes: applied(p.ops[o].attributes, settings_of(plan, o as usize)),
            ..p.ops[o]
        }),
{
    let a = p.ops[o].attributes;
    let (x, y) = ((ATTR_SMEM_STAGE@, plan.num_chunks as i64), (ATTR_SMEM_BYTES@, plan.bytes_per_thread as i64));
    let z = (ATTR_SMEM_CONSUME@, 1i64);
    let none = Seq::<(Seq<char>, i64)>::empty();
    reveal_with_fuel(applied, 4);
    assert(seq![x].drop_last() =~= none);
    assert(seq![x, y].drop_last() =~= seq![x]);
    assert(seq![x, y].push(z).drop_last() =~= seq![x, y]);
    assert(none.push(z).drop_last() =~= none);
    assert(applied(a, seq![x, y]) == with_number(with_number(a, x.0, x.1), y.0, y.1));
    assert(applied(a, seq![x, y].push(z)) == with_number(applied(a, seq![x, y]), z.0, z.1));
    assert(applied(a, none.push(z)) == with_number(a, z.0, z.1));
}

/// Recording plans is making their settings at each operation.
proof fn lemma_plans_settings(p: ProgramView, plans: Seq<Plan>, n: nat)
    requires
        n <= plans.len(),
        p.ops.len() <= usize::MAX,
        forall|j: int|
            0 <= j < plans.len() ==> (#[trigger] plans[j]).staging < p.ops.len() && plans[j].consuming < p.ops.len(),
    ensures
        with_plans(p, plans, n) == with_settings(p, plans, n),
    decreases n,
{
    let q = with_plans(p, plans, n);
    if n == 0 {
        assert(q.ops =~= with_settings(p, plans, n).ops);
    } else {
        let m = (n - 1) as nat;
        lemma_plans_settings(p, plans, m);
        let before = with_plans(p, plans, m);
        assert(plans[n - 1].staging < p.ops.len());
        assert forall|o: int| 0 <= o < p.ops.len() implies #[trigger] q.ops[o] == with_settings(p, plans, n).ops[o] by {
            lemma_plan_settings(before, plans[n - 1], o);
            lemma_applied_concat(
                p.ops[o].attributes,
                settings(plans, m, o as usize),
                settings_of(plans[n - 1], o as usize),
            );
        }
        lemma_plan_settings(before, plans[n - 1], plans[n - 1].staging as int);
        assert(q.ops =~= with_settings(p, plans, n).ops);
    }
    assert(q =~= with_settings(p, plans, n));
}

/// Law: recording is done once and for all. Recording the plans of a function
/// again, on the program that has them recorded, leaves it as it is.
pub proof fn law_recording_twice_changes_nothing(p: ProgramView, func: usize)
    requires
        p.wf(),
        p.ops.len() <= usize::MAX,
        func < p.ops.len(),
    ensures
        ({
            let q = with_plans(p, spec_plans(p, func), spec_plans(p, func).len());
            with_plans(q, spec_plans(q, func), spec_plans(q, func).len()) == q
        }),
{
    let plans = spec_plans(p, func);
    let n = plans.len();
    let q = with_plans(p, plans, n);
    law_recording_keeps_the_plans(p, func);
    lemma_plans_name_loops(p, func);
    assert forall|j: int| 0 <= j < plans.len() implies (#[trigger] plans[j]).staging < p.ops.len()
        && plans[j].consuming < p.ops.len() by {
        assert(names_loops(p, plans[j]));
    }
    lemma_plans_settings(p, plans, n);
    lemma_plans_settings(q, plans, n);
    let again = with_settings(q, plans, n);
    assert forall|o: int| 0 <= o < p.ops.len() implies #[trigger] again.ops[o] == q.ops[o] by {
        lemma_applied_twice(p.ops[o].attributes, settings(plans, n, o as usize));
    }
    assert(again.ops =~= q.ops);
    assert(again =~= q);
}

/// Four bytes put together, least significant first, come apart again.
#[verifier::spinoff_prover]
proof fn lemma_bytes_come_apart(a: int, b: int, c: int, d: int)
    requires
        0 <= a < 256,
        0 <= b < 256,
        0 <= c < 256,
        0 <= d < 256,
    ensures
        ({
            let u = a + 256 * b + 65536 * c + 16777216 * d;
            &&& 0 <= u < 4294967296
            &&& u % 256 == a
            &&& u / 256 % 256 == b
            &&& u / 65536 % 256 == c
            &&& u / 16777216 == d
        }),
{
    let u = a + 256 * b + 65536 * c + 16777216 * d;
    assert(u / 256 == b + 256 * c + 65536 * d);
    assert(u / 65536 == c + 256 * d);
}

/// A number below 2^32 is put together from its four bytes.
#[verifier::spinoff_prover]
proof fn lemma_bytes_come_together(u: int)
    requires
        0 <= u < 4294967296,
    ensures
        u == u % 256 + 256 * (u / 256 % 256) + 65536 * (u / 65536 % 256) + 16777216 * (u / 16777216),
        0 <= u / 16777216 < 256,
{
    assert(u / 256 / 256 == u / 65536);
    assert(u / 65536 / 256 == u / 16777216);
}

/// Law: a number written as four bytes, least significant first, is read back.
/// Byte `i` of `n` is what is left of `n` over `256^i`, wrapped to eight bits; a
/// negative number is wrapped to 32 bits first.
pub proof fn law_written_numbers_read_back(n: i32, data: Seq<u8>)
    requires
        data.len() >= 4,
        ({
            let u = n as int % 0x1_0000_0000;
            &&& data[0] == u % 0x100
            &&& data[1] == u / 0x100 % 0x100
            &&& data[2] == u / 0x1_0000 % 0x100
            &&& data[3] == u / 0x100_0000
        }),
    ensures
        le_i32(data) == n,
{
    lemma_bytes_come_together(n as int % 0x1_0000_0000);
}

/// Law: no two numbers are read from the same four bytes, nor one number from
/// two: the first four bytes alone decide, every one of them counts, and a
/// later byte outweighs all earlier ones.
pub proof fn law_every_byte_counts(a: Seq<u8>, b: Seq<u8>)
    requires
        a.len() >= 4,
        b.len() >= 4,
    ensures
        le_i32(a) == le_i32(b) <==> a[0] == b[0] && a[1] == b[1] && a[2] == b[2] && a[3] == b[3],
        a[3] == b[3] && a[2] < b[2] ==> le_i32(a) < le_i32(b),
        a[3] == b[3] && a[2] == b[2] && a[1] < b[1] ==> le_i32(a) < le_i32(b),
        a[3] == b[3] && a[2] == b[2] && a[1] == b[1] && a[0] < b[0] ==> le_i32(a) < le_i32(b),
        le_i32(a) < 0 <==> a[3] >= 128,
{
    lemma_bytes_come_apart(a[0] as int, a[1] as int, a[2] as int, a[3] as int);
    lemma_bytes_come_apart(b[0] as int, b[1] as int, b[2] as int, b[3] as int);
}

/// Law: a value that a constant operation defines is the number whose bytes,
/// least significant first, its `value` attribute holds, whatever other
/// attributes stand before or after.
pub proof fn law_constants_are_read_from_their_bytes(p: ProgramView, v: usize, o: usize, i: int, n: i32, shape: Seq<i64>, data: Seq<u8>)
    requires
        0 <= v < p.values.len(),
        p.values[v as int].definition == Some(o),
        p.ops[o as int].opcode == Opcode::Constant,
        0 <= i < p.ops[o as int].attributes.len(),
        p.ops[o as int].attributes[i] == ("value"@, AttributeView::DenseElements {
            shape,
            element_type: Type::Scalar(ScalarType::I32),
            data,
        }),
        shape.len() == 0,
        forall|j: int| 0 <= j < i ==> (#[trigger] p.ops[o as int].attributes[j]).0 != "value"@,
        data.len() >= 4,
        ({
            let u = n as int % 0x1_0000_0000;
            &&& data[0] == u % 0x100
            &&& data[1] == u / 0x100 % 0x100
            &&& data[2] == u / 0x1_0000 % 0x100
            &&& data[3] == u / 0x100_0000
        }),
    ensures
        spec_const_i32(p, v) == Some(n),
{
    law_written_numbers_read_back(n, data);
    lemma_first_const_at(p.ops[o as int].attributes, 0, i);
}

proof fn lemma_first_const_at(attributes: Seq<(Seq<char>, AttributeView)>, from: int, i: int)
    requires
        0 <= from <= i < attributes.len(),
        is_const_attr(attributes[i]),
        forall|j: int| from <= j < i ==> !is_const_attr(#[trigger] attributes[j]),
    ensures
        first_const(attributes, from) == Some(const_value(attributes[i])),
    decreases i - from,
{
    if from < i {
        lemma_first_const_at(attributes, from + 1, i);
    }
}

/// Law: whatever number a constant is read as, writing it least significant
/// byte first gives the bytes of the `value` that it was read from.
pub proof fn law_read_constants_write_back(p: Program, v: usize, o: usize, i: int, data: Seq<u8>, got: Option<i32>)
    requires
        call_ensures(Program::const_i32, (&p, v), got),
        v < p@.values.len(),
        p@.values[v as int].definition == Some(o),
        p@.ops[o as int].opcode == Opcode::Constant,
        0 <= i < p@.ops[o as int].attributes.len(),
        p@.ops[o as int].attributes[i] == ("value"@, AttributeView::DenseElements {
            shape: Seq::empty(),
            element_type: Type::Scalar(ScalarType::I32),
            data,
        }),
        forall|j: int| 0 <= j < i ==> (#[trigger] p@.ops[o as int].attributes[j]).0 != "value"@,
        data.len() >= 4,
    ensures
        got is Some,
        ({
            let u = got->0 as int % 0x1_0000_0000;
            &&& data[0] == u % 0x100
            &&& data[1] == u / 0x100 % 0x100
            &&& data[2] == u / 0x1_0000 % 0x100
            &&& data[3] == u / 0x100_0000
        }),
{
    lemma_first_const_at(p@.ops[o as int].attributes, 0, i);
    lemma_bytes_come_apart(data[0] as int, data[1] as int, data[2] as int, data[3] as int);
    let put = data[0] + 256 * data[1] + 65536 * data[2] + 16777216 * data[3];
    assert(le_i32(data) as int % 0x1_0000_0000 == put);
}

} // verus!
