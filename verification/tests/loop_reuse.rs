//! Loops that read a view which an earlier loop has read.

use lfm2_moe::cross_loop_reuse::{
    annotate, find_plans, Attribute, CrossLoopReuse, Opcode, Operation, Plan, Program, ScalarType, Type, Value,
    ATTR_SMEM_BYTES, ATTR_SMEM_CONSUME, ATTR_SMEM_STAGE,
};

/// A function whose entry block holds loops; operation 0 is the function.
struct Builder {
    p: Program,
    entry: usize,
}

impl Builder {
    fn new() -> Self {
        let func = Operation { opcode: Opcode::Other, operands: vec![], regions: vec![0], attributes: vec![] };
        Builder {
            p: Program { ops: vec![func], values: vec![], regions: vec![vec![0]], blocks: vec![vec![]] },
            entry: 0,
        }
    }

    fn value(&mut self, ty: Type, definition: Option<usize>) -> usize {
        self.p.values.push(Value { ty, definition });
        self.p.values.len() - 1
    }

    fn attribute_constant(&mut self, attributes: Vec<(String, Attribute)>) -> usize {
        self.p.ops.push(Operation { opcode: Opcode::Constant, operands: vec![], regions: vec![], attributes });
        let op = self.p.ops.len() - 1;
        self.p.blocks[self.entry].push(op);
        self.value(Type::Scalar(ScalarType::I32), Some(op))
    }

    fn constant(&mut self, n: i32) -> usize {
        self.attribute_constant(vec![("value".to_string(), dense(n))])
    }

    fn view(&mut self, elem_bytes: i32) -> usize {
        self.value(Type::PartitionView { elem_bytes }, None)
    }

    /// A loop over `bounds` whose body loads `views`.
    fn for_loop(&mut self, bounds: &[usize], views: &[usize]) -> usize {
        let mut body = Vec::new();
        for &v in views {
            self.p.ops.push(Operation {
                opcode: Opcode::LoadViewTko,
                operands: vec![v],
                regions: vec![],
                attributes: vec![],
            });
            body.push(self.p.ops.len() - 1);
        }
        self.p.blocks.push(body);
        self.p.regions.push(vec![self.p.blocks.len() - 1]);
        let region = self.p.regions.len() - 1;
        self.p.ops.push(Operation {
            opcode: Opcode::For,
            operands: bounds.to_vec(),
            regions: vec![region],
            attributes: vec![],
        });
        let op = self.p.ops.len() - 1;
        self.p.blocks[self.entry].push(op);
        op
    }
}

fn dense(n: i32) -> Attribute {
    Attribute::DenseElements {
        shape: vec![],
        element_type: Type::Scalar(ScalarType::I32),
        data: n.to_le_bytes().to_vec(),
    }
}

fn number(p: &Program, op: usize, key: &str) -> Vec<i64> {
    p.ops[op]
        .attributes
        .iter()
        .filter(|(k, _)| k == key)
        .map(|(_, a)| match a {
            Attribute::Integer(v, Type::Scalar(ScalarType::I32)) => *v,
            other => panic!("{other:?}"),
        })
        .collect()
}

#[test]
fn two_loops_over_one_view_are_a_pair() {
    let mut b = Builder::new();
    let (zero, n, v) = (b.constant(0), b.constant(24), b.view(2));
    let first = b.for_loop(&[zero, n], &[v]);
    let second = b.for_loop(&[zero, n], &[v]);
    let plan = Plan { staging: first, consuming: second, bytes_per_thread: 48, num_chunks: 24 };
    assert_eq!(find_plans(&b.p, 0), vec![plan]);
    assert_eq!(CrossLoopReuse::compute(&b.p, 0).plans, vec![plan]);
    assert_eq!(annotate(&mut b.p, 0), 1);
    assert_eq!(number(&b.p, first, ATTR_SMEM_STAGE), vec![24]);
    assert_eq!(number(&b.p, first, ATTR_SMEM_BYTES), vec![48]);
    assert_eq!(number(&b.p, second, ATTR_SMEM_CONSUME), vec![1]);
    assert!(number(&b.p, second, ATTR_SMEM_STAGE).is_empty());
    assert!(number(&b.p, first, ATTR_SMEM_CONSUME).is_empty());
    // Asking again gives the same answer, and marks nothing twice.
    assert_eq!(find_plans(&b.p, 0), vec![plan]);
    assert_eq!(annotate(&mut b.p, 0), 1);
    assert_eq!(number(&b.p, first, ATTR_SMEM_STAGE), vec![24]);
}

#[test]
fn every_later_loop_pairs_with_every_earlier_one() {
    let mut b = Builder::new();
    let (zero, n, v) = (b.constant(0), b.constant(3), b.view(4));
    let loops: Vec<usize> = (0..3).map(|_| b.for_loop(&[zero, n], &[v])).collect();
    let pairs: Vec<(usize, usize)> = find_plans(&b.p, 0).iter().map(|p| (p.staging, p.consuming)).collect();
    assert_eq!(pairs, vec![(loops[0], loops[1]), (loops[0], loops[2]), (loops[1], loops[2])]);
    assert_eq!(annotate(&mut b.p, 0), 3);
    // The middle loop consumes and stages.
    assert_eq!(number(&b.p, loops[1], ATTR_SMEM_CONSUME), vec![1]);
    assert_eq!(number(&b.p, loops[1], ATTR_SMEM_STAGE), vec![3]);
}

#[test]
fn bounds_must_be_the_same_constants_from_zero() {
    let mut b = Builder::new();
    let (zero, one, n, m, v) = (b.constant(0), b.constant(1), b.constant(8), b.constant(9), b.view(4));
    let again = b.constant(8);
    let unknown = b.value(Type::Scalar(ScalarType::I32), None);
    let negative = b.constant(-8);
    let base = b.for_loop(&[zero, n], &[v]);
    let with = |b: &mut Builder, bounds: &[usize]| {
        let l = b.for_loop(bounds, &[v]);
        b.p.matching_bounds(base, l)
    };
    assert_eq!(with(&mut b, &[zero, n]), Some(8));
    // An equal constant of its own.
    assert_eq!(with(&mut b, &[zero, again]), Some(8));
    assert_eq!(with(&mut b, &[zero, m]), None);
    assert_eq!(with(&mut b, &[one, n]), None);
    assert_eq!(with(&mut b, &[zero, unknown]), None);
    assert_eq!(with(&mut b, &[unknown, n]), None);
    assert_eq!(with(&mut b, &[zero]), None);
    let (x, y) = (b.for_loop(&[zero, negative], &[v]), b.for_loop(&[zero, negative], &[v]));
    assert_eq!(b.p.matching_bounds(x, y), None);
    let (x, y) = (b.for_loop(&[zero, zero], &[v]), b.for_loop(&[zero, zero], &[v]));
    assert_eq!(b.p.matching_bounds(x, y), None);
    let (x, y) = (b.for_loop(&[zero, unknown], &[v]), b.for_loop(&[zero, unknown], &[v]));
    assert_eq!(b.p.matching_bounds(x, y), None);
}

#[test]
fn only_shared_partition_views_pair_loops() {
    let mut b = Builder::new();
    let (zero, n) = (b.constant(0), b.constant(8));
    let (v, w) = (b.view(4), b.view(2));
    let plain = b.value(Type::Other, None);
    let a = b.for_loop(&[zero, n], &[v, w]);
    b.for_loop(&[zero, n], &[plain]);
    b.for_loop(&[zero, n], &[]);
    let c = b.for_loop(&[zero, n], &[w, plain]);
    assert_eq!(b.p.views_read(a), vec![v, w]);
    assert_eq!(b.p.views_read(c), vec![w]);
    // The first view of the first loop that the second reads too.
    assert_eq!(
        find_plans(&b.p, 0),
        vec![Plan { staging: a, consuming: c, bytes_per_thread: 16, num_chunks: 8 }]
    );
    assert_eq!(b.p.view_elem_bytes(v), Some(4));
    assert_eq!(b.p.view_elem_bytes(plain), None);
}

#[test]
fn constants_are_scalar_words_named_value() {
    let mut b = Builder::new();
    let odd = |a: Attribute| vec![("value".to_string(), a)];
    let element = |shape: Vec<i64>, element_type: Type, data: Vec<u8>| Attribute::DenseElements {
        shape,
        element_type,
        data,
    };
    let word = Type::Scalar(ScalarType::I32);
    let vector = b.attribute_constant(odd(element(vec![1], word, vec![5, 0, 0, 0])));
    let wide = b.attribute_constant(odd(element(vec![], Type::Scalar(ScalarType::Other), vec![5, 0, 0, 0])));
    let short = b.attribute_constant(odd(element(vec![], word, vec![5, 0, 0])));
    let named = b.attribute_constant(vec![("other".to_string(), dense(5))]);
    let later = b.attribute_constant(vec![
        ("value".to_string(), Attribute::Integer(3, word)),
        ("value".to_string(), dense(5)),
        ("value".to_string(), dense(6)),
    ]);
    for v in [vector, wide, short, named] {
        assert_eq!(b.p.const_i32(v), None);
    }
    assert_eq!(b.p.const_i32(later), Some(5));
    let (min, max) = (b.constant(i32::MIN), b.constant(i32::MAX));
    assert_eq!(b.p.const_i32(min), Some(i32::MIN));
    assert_eq!(b.p.const_i32(max), Some(i32::MAX));
    // A block argument, and the result of another operation.
    let argument = b.value(word, None);
    assert_eq!(b.p.const_i32(argument), None);
    let result = b.value(word, Some(0));
    assert_eq!(b.p.const_i32(result), None);
}

#[test]
fn costs_saturate() {
    let mut b = Builder::new();
    let (zero, n, v) = (b.constant(0), b.constant(i32::MAX), b.view(8));
    b.for_loop(&[zero, n], &[v]);
    b.for_loop(&[zero, n], &[v]);
    assert_eq!(find_plans(&b.p, 0)[0].bytes_per_thread, i32::MAX);
}

#[test]
fn functions_without_a_body_have_no_plans() {
    let bare = Operation { opcode: Opcode::Other, operands: vec![], regions: vec![], attributes: vec![] };
    let mut p = Program { ops: vec![bare], values: vec![], regions: vec![vec![]], blocks: vec![] };
    assert!(find_plans(&p, 0).is_empty());
    p.ops[0].regions.push(0);
    assert!(find_plans(&p, 0).is_empty());
    assert_eq!(annotate(&mut p, 0), 0);
}

#[test]
fn setting_an_attribute_keeps_the_others() {
    let mut b = Builder::new();
    b.p.ops[0].attributes = vec![
        ("a".to_string(), Attribute::Other),
        (ATTR_SMEM_STAGE.to_string(), Attribute::Integer(1, Type::Token)),
        ("b".to_string(), Attribute::Other),
        (ATTR_SMEM_STAGE.to_string(), Attribute::Other),
    ];
    b.p.set_int_attr(0, ATTR_SMEM_STAGE, 7);
    let names: Vec<&str> = b.p.ops[0].attributes.iter().map(|(k, _)| k.as_str()).collect();
    assert_eq!(names, vec!["a", "b", ATTR_SMEM_STAGE]);
    assert_eq!(number(&b.p, 0, ATTR_SMEM_STAGE), vec![7]);
}

#[test]
fn plans_are_exactly_the_pairs_of_loops() {
    let mut b = Builder::new();
    let (zero, four, eight) = (b.constant(0), b.constant(4), b.constant(8));
    let (v, w) = (b.view(2), b.view(4));
    let l0 = b.for_loop(&[zero, four], &[v]);
    let l1 = b.for_loop(&[zero, eight], &[v, w]);
    let l2 = b.for_loop(&[zero, four], &[w, v]);
    let l3 = b.for_loop(&[zero, eight], &[w]);
    let l4 = b.for_loop(&[zero, four], &[w]);
    let pairs: Vec<(usize, usize)> = find_plans(&b.p, 0).iter().map(|p| (p.staging, p.consuming)).collect();
    assert_eq!(pairs, vec![(l0, l2), (l1, l3), (l2, l4)]);
}

#[test]
fn recorded_plans_read_back_and_recording_twice_changes_nothing() {
    let mut b = Builder::new();
    let (zero, four, v) = (b.constant(0), b.constant(4), b.view(2));
    let (small, large) = (b.view(1), b.view(8));
    let l0 = b.for_loop(&[zero, four], &[v, small]);
    let l1 = b.for_loop(&[zero, four], &[v]);
    let l2 = b.for_loop(&[zero, four], &[small]);
    let l3 = b.for_loop(&[zero, four], &[large]);
    b.p.ops[l0].attributes = vec![
        ("kept".to_string(), Attribute::Integer(7, Type::Scalar(ScalarType::I32))),
        (ATTR_SMEM_BYTES.to_string(), Attribute::Integer(9, Type::Scalar(ScalarType::I32))),
    ];
    let plans = find_plans(&b.p, 0);
    assert_eq!(plans.iter().map(|p| (p.staging, p.consuming)).collect::<Vec<_>>(), vec![(l0, l1), (l0, l2)]);
    assert_eq!(annotate(&mut b.p, 0), 2);
    // Two plans have the first loop stage: it tells what the last one says.
    assert_eq!(number(&b.p, l0, ATTR_SMEM_STAGE), vec![4]);
    assert_eq!(number(&b.p, l0, ATTR_SMEM_BYTES), vec![plans[1].bytes_per_thread as i64]);
    assert_ne!(plans[0].bytes_per_thread, plans[1].bytes_per_thread);
    assert_eq!(number(&b.p, l0, "kept"), vec![7]);
    assert_eq!((number(&b.p, l1, ATTR_SMEM_CONSUME), number(&b.p, l2, ATTR_SMEM_CONSUME)), (vec![1], vec![1]));
    assert!(b.p.ops[l3].attributes.is_empty());
    let once = format!("{:?}", b.p);
    assert_eq!(annotate(&mut b.p, 0), 2);
    assert_eq!(format!("{:?}", b.p), once);
}

#[test]
fn a_number_out_of_range_makes_a_program_ill_formed() {
    let build = || {
        let mut b = Builder::new();
        let (zero, n, v) = (b.constant(0), b.constant(3), b.view(4));
        b.for_loop(&[zero, n], &[v]);
        b.p
    };
    assert!(build().is_well_formed());
    let far = 1000;
    let mut p = build();
    p.ops[0].operands.push(far);
    assert!(!p.is_well_formed());
    let mut p = build();
    p.ops[0].regions.push(far);
    assert!(!p.is_well_formed());
    let mut p = build();
    p.values[0].definition = Some(far);
    assert!(!p.is_well_formed());
    let mut p = build();
    p.regions[0].push(far);
    assert!(!p.is_well_formed());
    let mut p = build();
    p.blocks[1].push(far);
    assert!(!p.is_well_formed());
}
