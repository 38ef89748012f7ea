//! Laws of the analysis of loops that read one view twice: what counts as a
//! constant, a load, a loop and a pair, and what a recorded plan looks like.

use vstd::prelude::*;
use crate::cross_loop_reuse;
use crate::cross_loop_reuse::{AttributeView, CrossLoopReuse, Opcode, Plan, Program, ProgramView, ScalarType, Type};

verus! {

/// The attribute is named `value` and holds at least four bytes of a scalar
/// 32-bit integer.
pub open spec fn holds_integer(a: (Seq<char>, AttributeView)) -> bool {
    a.0 == "value"@ && match a.1 {
        AttributeView::DenseElements { shape, element_type, data } => shape == Seq::<i64>::empty() && element_type
            == Type::Scalar(ScalarType::I32) && data.len() >= 4,
        _ => false,
    }
}

/// Law: a value is a constant exactly when a constant operation defines it that
/// has such an attribute, and its number is that of the first one.
pub proof fn law_constants_come_from_constant_operations(p: ProgramView, v: usize, i: int)
    ensures
        p.values[v as int].definition is None ==> cross_loop_reuse::spec_const_i32(p, v) is None,
        p.values[v as int].definition matches Some(o) ==> {
            let attributes = p.ops[o as int].attributes;
            &&& p.ops[o as int].opcode != Opcode::Constant ==> cross_loop_reuse::spec_const_i32(p, v) is None
            &&& (forall|j: int| 0 <= j < attributes.len() ==> !#[trigger] holds_integer(attributes[j]))
                ==> cross_loop_reuse::spec_const_i32(p, v) is None
            &&& p.ops[o as int].opcode == Opcode::Constant && 0 <= i < attributes.len() && holds_integer(attributes[i]) && (
            forall|j: int| 0 <= j < i ==> !#[trigger] holds_integer(attributes[j])) ==> cross_loop_reuse::spec_const_i32(p, v)
                == Some(cross_loop_reuse::le_i32(attributes[i].1->DenseElements_data) as i32)
        },
{
    if let Some(o) = p.values[v as int].definition {
        let attributes = p.ops[o as int].attributes;
        assert forall|j: int| 0 <= j < attributes.len() implies cross_loop_reuse::is_const_attr(#[trigger] attributes[j])
            == holds_integer(attributes[j]) by {
            if let AttributeView::DenseElements { shape, .. } = attributes[j].1 {
                if shape.len() == 0 {
                    assert(shape =~= Seq::<i64>::empty());
                }
            }
        }
        if forall|j: int| 0 <= j < attributes.len() ==> !#[trigger] holds_integer(attributes[j]) {
            lemma_first_const(attributes, 0, attributes.len() as int);
        }
        if 0 <= i < attributes.len() && holds_integer(attributes[i]) && (forall|j: int|
            0 <= j < i ==> !#[trigger] holds_integer(attributes[j])) {
            lemma_first_const(attributes, 0, i);
        }
    }
}

proof fn lemma_first_const(attributes: Seq<(Seq<char>, AttributeView)>, from: int, i: int)
    requires
        0 <= from <= i <= attributes.len(),
        forall|j: int| 0 <= j < attributes.len() ==> cross_loop_reuse::is_const_attr(#[trigger] attributes[j])
            == holds_integer(attributes[j]),
        forall|j: int| from <= j < i ==> !#[trigger] holds_integer(attributes[j]),
        i < attributes.len() ==> holds_integer(attributes[i]),
    ensures
        cross_loop_reuse::first_const(attributes, from) == (if i < attributes.len() {
            Some(cross_loop_reuse::const_value(attributes[i]))
        } else {
            None
        }),
    decreases i - from,
{
    if from < i {
        assert(!holds_integer(attributes[from]));
        assert(!cross_loop_reuse::is_const_attr(attributes[from]));
        lemma_first_const(attributes, from + 1, i);
    } else if i < attributes.len() {
        assert(cross_loop_reuse::is_const_attr(attributes[i]));
    }
}

/// Law: two loops match exactly when both run from the constant 0 to one
/// positive constant, which is then their number of chunks.
pub proof fn law_loops_match_over_constant_bounds(p: ProgramView, first: usize, second: usize, n: i32)
    ensures
        cross_loop_reuse::spec_matching_bounds(p, first, second) == Some(n) <==> {
            let (a, b) = (p.ops[first as int].operands, p.ops[second as int].operands);
            &&& a.len() >= 2 && b.len() >= 2
            &&& cross_loop_reuse::spec_const_i32(p, a[0]) == Some(0i32)
            &&& cross_loop_reuse::spec_const_i32(p, b[0]) == Some(0i32)
            &&& cross_loop_reuse::spec_const_i32(p, a[1]) == Some(n)
            &&& cross_loop_reuse::spec_const_i32(p, b[1]) == Some(n)
            &&& n >= 1
        },
        cross_loop_reuse::spec_matching_bounds(p, first, second) == cross_loop_reuse::spec_matching_bounds(p, second, first),
{
}

/// Law: an operation reads a view exactly when it is a view load whose first
/// operand is a partition view, and that is the view it reads; the view's
/// element size is its type's.
pub proof fn law_loads_read_their_first_operand(p: ProgramView, op: usize, v: usize)
    ensures
        cross_loop_reuse::view_loaded(p, op) == Some(v) <==> {
            &&& p.ops[op as int].opcode == Opcode::LoadViewTko
            &&& p.ops[op as int].operands.len() >= 1
            &&& p.ops[op as int].operands[0] == v
            &&& p.values[v as int].ty is PartitionView
        },
        p.values[v as int].ty matches Type::PartitionView { elem_bytes } ==> cross_loop_reuse::spec_view_elem_bytes(p, v)
            == Some(elem_bytes),
        !(p.values[v as int].ty is PartitionView) ==> cross_loop_reuse::spec_view_elem_bytes(p, v) is None,
{
}

/// Law: a list of operations reads what its parts read, in order and as often,
/// and a single one its view or nothing; a list of blocks what its blocks'
/// operations read, and a list of regions what their blocks do.
pub proof fn law_reads_come_in_program_order(p: ProgramView, a: Seq<usize>, b: Seq<usize>, x: usize)
    ensures
        cross_loop_reuse::views_of(p, a + b, (a + b).len()) == cross_loop_reuse::views_of(p, a, a.len())
            + cross_loop_reuse::views_of(p, b, b.len()),
        cross_loop_reuse::blocks_views(p, a + b, (a + b).len()) == cross_loop_reuse::blocks_views(p, a, a.len())
            + cross_loop_reuse::blocks_views(p, b, b.len()),
        cross_loop_reuse::regions_views(p, a + b, (a + b).len()) == cross_loop_reuse::regions_views(p, a, a.len())
            + cross_loop_reuse::regions_views(p, b, b.len()),
        cross_loop_reuse::views_of(p, seq![x], 1) == (match cross_loop_reuse::view_loaded(p, x) {
            Some(v) => seq![v],
            None => Seq::empty(),
        }),
        cross_loop_reuse::blocks_views(p, seq![x], 1) == cross_loop_reuse::views_of(
            p,
            p.blocks[x as int],
            p.blocks[x as int].len(),
        ),
        cross_loop_reuse::regions_views(p, seq![x], 1) == cross_loop_reuse::blocks_views(
            p,
            p.regions[x as int],
            p.regions[x as int].len(),
        ),
{
    lemma_views_concat(p, a, b, b.len());
    lemma_blocks_concat(p, a, b, b.len());
    lemma_regions_concat(p, a, b, b.len());
    reveal_with_fuel(cross_loop_reuse::views_of, 2);
    reveal_with_fuel(cross_loop_reuse::blocks_views, 2);
    reveal_with_fuel(cross_loop_reuse::regions_views, 2);
    assert(seq![x][0] == x);
    let own = cross_loop_reuse::views_of(p, p.blocks[x as int], p.blocks[x as int].len());
    assert(Seq::<usize>::empty() + own =~= own);
    let all = cross_loop_reuse::blocks_views(p, p.regions[x as int], p.regions[x as int].len());
    assert(Seq::<usize>::empty() + all =~= all);
    if let Some(v) = cross_loop_reuse::view_loaded(p, x) {
        assert(Seq::<usize>::empty().push(v) =~= seq![v]);
    }
}

proof fn lemma_views_prefix(p: ProgramView, a: Seq<usize>, c: Seq<usize>, n: nat)
    requires
        n <= a.len(),
        n <= c.len(),
        forall|i: int| 0 <= i < n ==> a[i] == c[i],
    ensures
        cross_loop_reuse::views_of(p, a, n) == cross_loop_reuse::views_of(p, c, n),
        cross_loop_reuse::blocks_views(p, a, n) == cross_loop_reuse::blocks_views(p, c, n),
        cross_loop_reuse::regions_views(p, a, n) == cross_loop_reuse::regions_views(p, c, n),
        cross_loop_reuse::loops_of(p, a, n) == cross_loop_reuse::loops_of(p, c, n),
    decreases n,
{
    if n > 0 {
        lemma_views_prefix(p, a, c, (n - 1) as nat);
        assert(a[n - 1] == c[n - 1]);
    }
}

proof fn lemma_views_concat(p: ProgramView, a: Seq<usize>, b: Seq<usize>, n: nat)
    requires
        n <= b.len(),
    ensures
        cross_loop_reuse::views_of(p, a + b, a.len() + n) == cross_loop_reuse::views_of(p, a, a.len())
            + cross_loop_reuse::views_of(p, b, n),
        cross_loop_reuse::loops_of(p, a + b, a.len() + n) == cross_loop_reuse::loops_of(p, a, a.len())
            + cross_loop_reuse::loops_of(p, b, n),
    decreases n,
{
    let (l, r) = (cross_loop_reuse::views_of(p, a, a.len()), cross_loop_reuse::loops_of(p, a, a.len()));
    if n == 0 {
        lemma_views_prefix(p, a + b, a, a.len());
        assert(l + cross_loop_reuse::views_of(p, b, 0) =~= l);
        assert(r + cross_loop_reuse::loops_of(p, b, 0) =~= r);
    } else {
        let m = (n - 1) as nat;
        lemma_views_concat(p, a, b, m);
        assert((a + b)[a.len() + n - 1] == b[n - 1]);
        assert((a.len() + n - 1) as nat == a.len() + m);
        assert(cross_loop_reuse::views_of(p, a + b, a.len() + n) =~= l + cross_loop_reuse::views_of(p, b, n));
        assert(cross_loop_reuse::loops_of(p, a + b, a.len() + n) =~= r + cross_loop_reuse::loops_of(p, b, n));
    }
}

proof fn lemma_blocks_concat(p: ProgramView, a: Seq<usize>, b: Seq<usize>, n: nat)
    requires
        n <= b.len(),
    ensures
        cross_loop_reuse::blocks_views(p, a + b, a.len() + n) == cross_loop_reuse::blocks_views(p, a, a.len())
            + cross_loop_reuse::blocks_views(p, b, n),
    decreases n,
{
    let l = cross_loop_reuse::blocks_views(p, a, a.len());
    if n == 0 {
        lemma_views_prefix(p, a + b, a, a.len());
        assert(l + cross_loop_reuse::blocks_views(p, b, 0) =~= l);
    } else {
        let m = (n - 1) as nat;
        lemma_blocks_concat(p, a, b, m);
        assert((a + b)[a.len() + n - 1] == b[n - 1]);
        assert((a.len() + n - 1) as nat == a.len() + m);
        assert(cross_loop_reuse::blocks_views(p, a + b, a.len() + n) =~= l + cross_loop_reuse::blocks_views(p, b, n));
    }
}

proof fn lemma_regions_concat(p: ProgramView, a: Seq<usize>, b: Seq<usize>, n: nat)
    requires
        n <= b.len(),
    ensures
        cross_loop_reuse::regions_views(p, a + b, a.len() + n) == cross_loop_reuse::regions_views(p, a, a.len())
            + cross_loop_reuse::regions_views(p, b, n),
    decreases n,
{
    let l = cross_loop_reuse::regions_views(p, a, a.len());
    if n == 0 {
        lemma_views_prefix(p, a + b, a, a.len());
        assert(l + cross_loop_reuse::regions_views(p, b, 0) =~= l);
    } else {
        let m = (n - 1) as nat;
        lemma_regions_concat(p, a, b, m);
        assert((a + b)[a.len() + n - 1] == b[n - 1]);
        assert((a.len() + n - 1) as nat == a.len() + m);
        assert(cross_loop_reuse::regions_views(p, a + b, a.len() + n) =~= l + cross_loop_reuse::regions_views(p, b, n));
    }
}

/// Law: a loop reads what all blocks of all its regions read.
pub proof fn law_loops_read_all_their_regions(p: ProgramView, op: usize, a: Seq<usize>, b: Seq<usize>)
    requires
        p.ops[op as int].regions == a + b,
    ensures
        cross_loop_reuse::spec_views_read(p, op) == cross_loop_reuse::regions_views(p, a, a.len())
            + cross_loop_reuse::regions_views(p, b, b.len()),
{
    lemma_regions_concat(p, a, b, b.len());
}

/// Law: the loops of a list of operations are those of its parts, in order: an
/// operation counts exactly when it is a loop. A function's loops are those of
/// the first block of its first region, and of no other.
pub proof fn law_loops_stand_in_the_entry_block(p: ProgramView, func: usize, a: Seq<usize>, b: Seq<usize>, x: usize)
    ensures
        cross_loop_reuse::loops_of(p, a + b, (a + b).len()) == cross_loop_reuse::loops_of(p, a, a.len())
            + cross_loop_reuse::loops_of(p, b, b.len()),
        cross_loop_reuse::loops_of(p, seq![x], 1) == (if p.ops[x as int].opcode == Opcode::For {
            seq![x]
        } else {
            Seq::empty()
        }),
        ({
            let regions = p.ops[func as int].regions;
            let entry = p.regions[regions[0] as int];
            &&& regions.len() == 0 || entry.len() == 0 ==> cross_loop_reuse::spec_loops(p, func).len() == 0
            &&& regions.len() >= 1 && entry.len() >= 1 && p.blocks[entry[0] as int] == a ==> cross_loop_reuse::spec_loops(
                p,
                func,
            ) == cross_loop_reuse::loops_of(p, a, a.len())
        }),
{
    lemma_views_concat(p, a, b, b.len());
    reveal_with_fuel(cross_loop_reuse::loops_of, 2);
    assert(seq![x][0] == x);
    assert(Seq::<usize>::empty().push(x) =~= seq![x]);
}

/// Law: of the views that the first loop reads, the shared one is the first that
/// the second reads too; without one there is none.
pub proof fn law_first_common_view_is_shared(a: Seq<usize>, b: Seq<usize>, i: int)
    ensures
        0 <= i < a.len() && b.contains(a[i]) && (forall|j: int| 0 <= j < i ==> !b.contains(#[trigger] a[j]))
            ==> cross_loop_reuse::first_shared(a, b, 0) == Some(a[i]),
        (forall|j: int| 0 <= j < a.len() ==> !b.contains(#[trigger] a[j])) ==> cross_loop_reuse::first_shared(a, b, 0) is None,
{
    if 0 <= i < a.len() && b.contains(a[i]) && (forall|j: int| 0 <= j < i ==> !b.contains(#[trigger] a[j])) {
        lemma_shared(a, b, 0, i);
    }
    if forall|j: int| 0 <= j < a.len() ==> !b.contains(#[trigger] a[j]) {
        lemma_shared(a, b, 0, a.len() as int);
    }
}

proof fn lemma_shared(a: Seq<usize>, b: Seq<usize>, from: int, i: int)
    requires
        0 <= from <= i <= a.len(),
        forall|j: int| from <= j < i ==> !b.contains(#[trigger] a[j]),
        i < a.len() ==> b.contains(a[i]),
    ensures
        cross_loop_reuse::first_shared(a, b, from) == (if i < a.len() {
            Some(a[i])
        } else {
            None
        }),
    decreases i - from,
{
    if from < i {
        assert(!b.contains(a[from]));
        lemma_shared(a, b, from + 1, i);
    }
}

/// Law: a product of two 32-bit numbers is itself where it fits in 32 bits, and
/// the bound on its side where it does not.
pub proof fn law_products_stop_at_the_bounds(a: i32, b: i32)
    ensures
        -0x8000_0000 <= a * b <= 0x7fff_ffff ==> cross_loop_reuse::saturated(a, b) == a * b,
        a * b > 0x7fff_ffff ==> cross_loop_reuse::saturated(a, b) == 0x7fff_ffff,
        a * b < -0x8000_0000 ==> cross_loop_reuse::saturated(a, b) == -0x8000_0000,
{
}

/// Law: two loops make a plan exactly when they match and share a view; it
/// stages the first for the second, in as many chunks as they run, at the cost
/// of a chunk's elements of the first shared view.
pub proof fn law_pairs_make_plans(p: ProgramView, first: usize, second: usize, n: i32, v: usize, bytes: i32)
    requires
        cross_loop_reuse::spec_matching_bounds(p, first, second) == Some(n),
        cross_loop_reuse::first_shared(
            cross_loop_reuse::spec_views_read(p, first),
            cross_loop_reuse::spec_views_read(p, second),
            0,
        ) == Some(v),
        p.values[v as int].ty == (Type::PartitionView { elem_bytes: bytes }),
    ensures
        cross_loop_reuse::pair_plan(p, first, second) is Some,
        ({
            let plan = cross_loop_reuse::pair_plan(p, first, second)->0;
            &&& plan.staging == first
            &&& plan.consuming == second
            &&& plan.num_chunks == n
            &&& n * bytes <= 0x7fff_ffff && n * bytes >= -0x8000_0000 ==> plan.bytes_per_thread == n * bytes
            &&& n * bytes > 0x7fff_ffff ==> plan.bytes_per_thread == 0x7fff_ffff
        }),
{
}

/// Law: loops that do not match, or read no view in common, make no plan.
pub proof fn law_other_pairs_make_none(p: ProgramView, first: usize, second: usize)
    ensures
        cross_loop_reuse::spec_matching_bounds(p, first, second) is None ==> cross_loop_reuse::pair_plan(p, first, second) is None,
        (forall|j: int|
            0 <= j < cross_loop_reuse::spec_views_read(p, first).len() ==> !cross_loop_reuse::spec_views_read(p, second).contains(
                #[trigger] cross_loop_reuse::spec_views_read(p, first)[j],
            )) ==> cross_loop_reuse::pair_plan(p, first, second) is None,
{
    law_first_common_view_is_shared(
        cross_loop_reuse::spec_views_read(p, first),
        cross_loop_reuse::spec_views_read(p, second),
        0,
    );
}

/// Law: recording plans writes three attributes by name: a staging loop tells
/// its chunks and its bytes per thread, a consuming one is marked with 1.
pub proof fn law_plans_are_recorded_by_name(p: ProgramView, plans: Seq<Plan>, j: int)
    requires
        0 <= j < plans.len(),
        forall|i: int|
            0 <= i < plans.len() ==> (#[trigger] plans[i]).staging < p.ops.len() && plans[i].consuming < p.ops.len(),
        forall|i: int| j < i < plans.len() ==> (#[trigger] plans[i]).staging != plans[j].staging,
    ensures
        ({
            let q = cross_loop_reuse::with_plans(p, plans, plans.len());
            let staging = q.ops[plans[j].staging as int].attributes;
            let consuming = q.ops[plans[j].consuming as int].attributes;
            let integer = |v: i64| Some(AttributeView::Integer(v, Type::Scalar(ScalarType::I32)));
            &&& cross_loop_reuse::attribute(staging, "tile_smem_stage"@) == integer(plans[j].num_chunks as i64)
            &&& cross_loop_reuse::attribute(staging, "tile_smem_bytes"@) == integer(plans[j].bytes_per_thread as i64)
            &&& cross_loop_reuse::attribute(consuming, "tile_smem_consume"@) == integer(1)
        }),
{
    let n = plans.len();
    assert(plans[j].staging < p.ops.len());
    cross_loop_reuse::law_plans_are_readable(p, plans, n, plans[j].staging, "tile_smem_stage"@);
    cross_loop_reuse::law_plans_are_readable(p, plans, n, plans[j].staging, "tile_smem_bytes"@);
    cross_loop_reuse::law_plans_are_readable(p, plans, n, plans[j].consuming, "tile_smem_consume"@);
    reveal_strlit("tile_smem_stage");
    reveal_strlit("tile_smem_bytes");
    reveal_strlit("tile_smem_consume");
    assert("tile_smem_stage"@[10] == 's' && "tile_smem_bytes"@[10] == 'b' && "tile_smem_consume"@[10] == 'c');
    lemma_last_staged(plans, n, j);
    assert(cross_loop_reuse::consumes(plans, n, plans[j].consuming));
}

proof fn lemma_last_staged(plans: Seq<Plan>, n: nat, j: int)
    requires
        0 <= j < n <= plans.len(),
        forall|i: int| j < i < n ==> (#[trigger] plans[i]).staging != plans[j].staging,
    ensures
        cross_loop_reuse::last_staged(plans, n, plans[j].staging) == Some(plans[j]),
    decreases n,
{
    if n - 1 > j {
        assert(plans[n - 1].staging != plans[j].staging);
        lemma_last_staged(plans, (n - 1) as nat, j);
    }
}

/// Law: setting an attribute takes away every attribute of that name, keeps all
/// others in their order, and puts the new one last; no other operation and no
/// other part of the program changes.
pub proof fn law_setting_keeps_the_rest(p: ProgramView, op: usize, key: Seq<char>, v: i64, i: int)
    requires
        op < p.ops.len(),
        0 <= i < p.ops.len(),
    ensures
        ({
            let q = cross_loop_reuse::with_attribute(p, op, key, v);
            &&& q.ops[op as int].attributes == p.ops[op as int].attributes.filter(
                |a: (Seq<char>, AttributeView)| a.0 != key,
            ).push((key, AttributeView::Integer(v, Type::Scalar(ScalarType::I32))))
            &&& q.ops.len() == p.ops.len()
            &&& i != op ==> q.ops[i] == p.ops[i]
            &&& q.ops[i].opcode == p.ops[i].opcode
            &&& q.ops[i].operands == p.ops[i].operands
            &&& q.ops[i].regions == p.ops[i].regions
            &&& q.values == p.values && q.regions == p.regions && q.blocks == p.blocks
        }),
{
    lemma_others_filter(p.ops[op as int].attributes, key);
}

proof fn lemma_others_filter(attributes: Seq<(Seq<char>, AttributeView)>, key: Seq<char>)
    ensures
        cross_loop_reuse::others(attributes, key) == attributes.filter(|a: (Seq<char>, AttributeView)| a.0 != key),
    decreases attributes.len(),
{
    reveal(Seq::filter);
    if attributes.len() > 0 {
        lemma_others_filter(attributes.drop_last(), key);
    }
}

/// Law: recording a plan is setting its three attributes and nothing else;
/// recording several is recording one after another.
pub proof fn law_recording_sets_three_attributes(p: ProgramView, plans: Seq<Plan>, plan: Plan, n: nat)
    requires
        n < plans.len(),
        plans[n as int] == plan,
    ensures
        cross_loop_reuse::with_plans(p, plans, 0) == p,
        ({
            let before = cross_loop_reuse::with_plans(p, plans, n);
            let one = cross_loop_reuse::with_attribute(before, plan.staging, "tile_smem_stage"@, plan.num_chunks as i64);
            let two = cross_loop_reuse::with_attribute(one, plan.staging, "tile_smem_bytes"@, plan.bytes_per_thread as i64);
            cross_loop_reuse::with_plans(p, plans, n + 1) == cross_loop_reuse::with_attribute(
                two,
                plan.consuming,
                "tile_smem_consume"@,
                1,
            )
        }),
{
}

/// Law: a program is well formed exactly when every operand names a value, every
/// region of an operation a region, every definition an operation, every block
/// of a region a block, and every operation of a block an operation.
pub proof fn law_well_formed_programs_name_their_pieces(p: ProgramView)
    ensures
        p.wf() <==> {
            &&& forall|o: int, i: int|
                0 <= o < p.ops.len() && 0 <= i < p.ops[o].operands.len() ==> #[trigger] p.ops[o].operands[i] < p.values.len()
            &&& forall|o: int, i: int|
                0 <= o < p.ops.len() && 0 <= i < p.ops[o].regions.len() ==> #[trigger] p.ops[o].regions[i] < p.regions.len()
            &&& forall|v: int|
                0 <= v < p.values.len() && (#[trigger] p.values[v]).definition is Some ==> p.values[v].definition->0
                    < p.ops.len()
            &&& forall|r: int, i: int|
                0 <= r < p.regions.len() && 0 <= i < p.regions[r].len() ==> #[trigger] p.regions[r][i] < p.blocks.len()
            &&& forall|b: int, i: int|
                0 <= b < p.blocks.len() && 0 <= i < p.blocks[b].len() ==> #[trigger] p.blocks[b][i] < p.ops.len()
        },
{
    if p.wf() {
        assert forall|o: int, i: int| 0 <= o < p.ops.len() && 0 <= i < p.ops[o].operands.len() implies #[trigger] p.ops[o].operands[i]
            < p.values.len() by {
            assert(cross_loop_reuse::all_below(p.ops[o].operands, p.values.len()));
        }
        assert forall|o: int, i: int| 0 <= o < p.ops.len() && 0 <= i < p.ops[o].regions.len() implies #[trigger] p.ops[o].regions[i]
            < p.regions.len() by {
            assert(cross_loop_reuse::all_below(p.ops[o].regions, p.regions.len()));
        }
        assert forall|r: int, i: int| 0 <= r < p.regions.len() && 0 <= i < p.regions[r].len() implies #[trigger] p.regions[r][i]
            < p.blocks.len() by {
            assert(cross_loop_reuse::all_below(p.regions[r], p.blocks.len()));
        }
        assert forall|b: int, i: int| 0 <= b < p.blocks.len() && 0 <= i < p.blocks[b].len() implies #[trigger] p.blocks[b][i]
            < p.ops.len() by {
            assert(cross_loop_reuse::all_below(p.blocks[b], p.ops.len()));
        }
    }
}

/// Plan `x` is that of a pair of loops, and plan `y` that of a later pair: of a
/// later staging loop, or of the same one and a later consuming loop.
pub open spec fn come_in_order(p: ProgramView, loops: Seq<usize>, x: Plan, y: Plan) -> bool {
    exists|a: int, b: int, c: int, d: int|
        #[trigger] cross_loop_reuse::is_pair(p, loops, a, b, x) && #[trigger] cross_loop_reuse::is_pair(p, loops, c, d, y) && (a
            < c || (a == c && b < d))
}

/// Law: plans come in the order of their staging loops, and for one staging loop
/// in that of their consuming loops.
pub proof fn law_plans_come_in_order(p: ProgramView, func: usize, i: int, j: int)
    requires
        0 <= i < j < cross_loop_reuse::spec_plans(p, func).len(),
    ensures
        come_in_order(
            p,
            cross_loop_reuse::spec_loops(p, func),
            cross_loop_reuse::spec_plans(p, func)[i],
            cross_loop_reuse::spec_plans(p, func)[j],
        ),
{
    let loops = cross_loop_reuse::spec_loops(p, func);
    lemma_plans_ordered(p, loops, loops.len(), i, j);
}

proof fn lemma_plans_with_pair(p: ProgramView, loops: Seq<usize>, a: int, n: int, j: int) -> (b: int)
    requires
        0 <= a,
        n <= loops.len(),
        0 <= j < cross_loop_reuse::plans_with(p, loops, a, n).len(),
    ensures
        b < n,
        cross_loop_reuse::is_pair(p, loops, a, b, cross_loop_reuse::plans_with(p, loops, a, n)[j]),
    decreases n - a,
{
    let before = cross_loop_reuse::plans_with(p, loops, a, n - 1);
    if j < before.len() {
        lemma_plans_with_pair(p, loops, a, n - 1, j)
    } else {
        n - 1
    }
}

proof fn lemma_plans_with_ordered(p: ProgramView, loops: Seq<usize>, a: int, n: int, i: int, j: int)
    requires
        0 <= a,
        n <= loops.len(),
        0 <= i < j < cross_loop_reuse::plans_with(p, loops, a, n).len(),
    ensures
        come_in_order(
            p,
            loops,
            cross_loop_reuse::plans_with(p, loops, a, n)[i],
            cross_loop_reuse::plans_with(p, loops, a, n)[j],
        ),
    decreases n - a,
{
    let all = cross_loop_reuse::plans_with(p, loops, a, n);
    let before = cross_loop_reuse::plans_with(p, loops, a, n - 1);
    if j < before.len() {
        lemma_plans_with_ordered(p, loops, a, n - 1, i, j);
    } else {
        let b = lemma_plans_with_pair(p, loops, a, n - 1, i);
        assert(cross_loop_reuse::is_pair(p, loops, a, b, all[i]));
        assert(cross_loop_reuse::is_pair(p, loops, a, n - 1, all[j]));
    }
}

proof fn lemma_plans_pair(p: ProgramView, loops: Seq<usize>, n: nat, j: int) -> (at: (int, int))
    requires
        n <= loops.len(),
        0 <= j < cross_loop_reuse::plans_of(p, loops, n).len(),
    ensures
        at.0 < n,
        cross_loop_reuse::is_pair(p, loops, at.0, at.1, cross_loop_reuse::plans_of(p, loops, n)[j]),
    decreases n,
{
    let before = cross_loop_reuse::plans_of(p, loops, (n - 1) as nat);
    if j < before.len() {
        lemma_plans_pair(p, loops, (n - 1) as nat, j)
    } else {
        let b = lemma_plans_with_pair(p, loops, n - 1, loops.len() as int, j - before.len());
        (n - 1, b)
    }
}

proof fn lemma_plans_ordered(p: ProgramView, loops: Seq<usize>, n: nat, i: int, j: int)
    requires
        n <= loops.len(),
        0 <= i < j < cross_loop_reuse::plans_of(p, loops, n).len(),
    ensures
        come_in_order(p, loops, cross_loop_reuse::plans_of(p, loops, n)[i], cross_loop_reuse::plans_of(p, loops, n)[j]),
    decreases n,
{
    let all = cross_loop_reuse::plans_of(p, loops, n);
    let before = cross_loop_reuse::plans_of(p, loops, (n - 1) as nat);
    let last = cross_loop_reuse::plans_with(p, loops, n - 1, loops.len() as int);
    if j < before.len() {
        lemma_plans_ordered(p, loops, (n - 1) as nat, i, j);
    } else if i >= before.len() {
        lemma_plans_with_ordered(p, loops, n - 1, loops.len() as int, i - before.len(), j - before.len());
        assert(all[i] == last[i - before.len()] && all[j] == last[j - before.len()]);
    } else {
        let at = lemma_plans_pair(p, loops, (n - 1) as nat, i);
        let d = lemma_plans_with_pair(p, loops, n - 1, loops.len() as int, j - before.len());
        assert(all[i] == before[i] && all[j] == last[j - before.len()]);
        assert(cross_loop_reuse::is_pair(p, loops, at.0, at.1, all[i]));
        assert(cross_loop_reuse::is_pair(p, loops, n - 1, d, all[j]));
    }
}

/// Law: whatever two loops are told to share, it is one positive constant up to
/// which both run from the constant 0.
pub proof fn law_told_bounds_are_constant(p: Program, first: usize, second: usize, n: i32, told: Option<i32>)
    requires
        call_ensures(Program::matching_bounds, (&p, first, second), told),
    ensures
        told == Some(n) <==> {
            let (a, b) = (p@.ops[first as int].operands, p@.ops[second as int].operands);
            &&& a.len() >= 2 && b.len() >= 2
            &&& cross_loop_reuse::spec_const_i32(p@, a[0]) == Some(0i32)
            &&& cross_loop_reuse::spec_const_i32(p@, b[0]) == Some(0i32)
            &&& cross_loop_reuse::spec_const_i32(p@, a[1]) == Some(n)
            &&& cross_loop_reuse::spec_const_i32(p@, b[1]) == Some(n)
            &&& n >= 1
        },
{
    law_loops_match_over_constant_bounds(p@, first, second, n);
}

/// Law: whatever plans are found, they are those of the pairs of loops, in order;
/// recording them counts them and writes them on the loops by name.
pub proof fn law_found_plans_are_the_pairs(
    p: Program,
    func: usize,
    found: CrossLoopReuse,
    q: &mut Program,
    marked: usize,
    plan: Plan,
    i: int,
    j: int,
)
    requires
        call_ensures(CrossLoopReuse::compute, (&p, func), found),
        call_ensures(cross_loop_reuse::annotate, (q, func), marked),
        old(q)@ == p@,
        0 <= i < j < found.plans@.len(),
    ensures
        ({
            let loops = cross_loop_reuse::spec_loops(p@, func);
            &&& found.plans@.contains(plan) <==> exists|a: int, b: int|
                #[trigger] cross_loop_reuse::is_pair(p@, loops, a, b, plan)
            &&& come_in_order(p@, loops, found.plans@[i], found.plans@[j])
            &&& marked == found.plans@.len()
            &&& final(q)@ == cross_loop_reuse::with_plans(p@, found.plans@, found.plans@.len())
        }),
{
    cross_loop_reuse::law_plans_are_the_pairs_of_loops(p@, func, plan);
    law_plans_come_in_order(p@, func, i, j);
}

} // verus!
