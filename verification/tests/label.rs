use labeled_ty::{
    ArgSlice, FloatTy, FnSig, IntTy, LabeledTy, LabeledTyCtxt, LabeledTyS, Mutability, ParamTy,
    TyS, TypeAndMut, TypeVariants, UintTy,
};

fn ty(sty: TypeVariants) -> TyS {
    TyS { sty }
}

fn boolean() -> TyS {
    ty(TypeVariants::TyBool)
}

fn int32() -> TyS {
    ty(TypeVariants::TyInt(IntTy::I32))
}

fn param(idx: u32) -> TyS {
    ty(TypeVariants::TyParam(ParamTy { idx }))
}

fn kind_name(t: &TyS) -> String {
    match &t.sty {
        TypeVariants::TyBool => "bool".to_string(),
        TypeVariants::TyChar => "char".to_string(),
        TypeVariants::TyInt(IntTy::I32) => "int32".to_string(),
        TypeVariants::TyInt(_) => "int".to_string(),
        TypeVariants::TyUint(_) => "uint".to_string(),
        TypeVariants::TyFloat(_) => "float".to_string(),
        TypeVariants::TyStr => "str".to_string(),
        TypeVariants::TyNever => "never".to_string(),
        TypeVariants::TyAdt(0, _) => "Pair".to_string(),
        TypeVariants::TyAdt(_, _) => "Adt".to_string(),
        TypeVariants::TyArray(_, _) => "array".to_string(),
        TypeVariants::TySlice(_) => "slice".to_string(),
        TypeVariants::TyRawPtr(_) => "ptr".to_string(),
        TypeVariants::TyRef(_) => "ref".to_string(),
        TypeVariants::TyFnDef(_, _) => "fndef".to_string(),
        TypeVariants::TyFnPtr(_) => "fnptr".to_string(),
        TypeVariants::TyTuple(_) => "tuple".to_string(),
        TypeVariants::TyDynamic => "dyn".to_string(),
        TypeVariants::TyClosure(_) => "closure".to_string(),
        TypeVariants::TyProjection => "projection".to_string(),
        TypeVariants::TyAnon(_) => "anon".to_string(),
        TypeVariants::TyParam(_) => "param".to_string(),
        TypeVariants::TyInfer => "infer".to_string(),
        TypeVariants::TyError => "error".to_string(),
    }
}

/// The labels of the children of a node.
fn child_labels(ctx: &LabeledTyCtxt<String>, lty: LabeledTy) -> Vec<String> {
    ctx.args(lty).iter().map(|&c| ctx.get(c).label.clone()).collect()
}

/// Checks that the tree below `lty` has the shape of `t`, node for node.
fn assert_mirrors<L>(ctx: &LabeledTyCtxt<L>, lty: LabeledTy, t: &TyS, children: &dyn Fn(&TyS) -> Vec<TyS>) {
    assert_eq!(ctx.get(lty).ty, t);
    let expected = children(t);
    assert_eq!(ctx.num_args(lty), expected.len());
    for (i, c) in expected.iter().enumerate() {
        assert_eq!(ctx.get(ctx.arg(lty, i)).ty, c);
    }
}

#[test]
fn pair_of_bool_and_int32_is_labeled_by_kind_name() {
    let pair = ty(TypeVariants::TyAdt(0, vec![boolean(), int32()]));
    let mut ctx: LabeledTyCtxt<String> = LabeledTyCtxt::new();
    let root = ctx.label(&pair, &mut kind_name);
    assert_eq!(ctx.get(root).label, "Pair");
    assert_eq!(ctx.num_args(root), 2);
    let left = ctx.arg(root, 0);
    let right = ctx.arg(root, 1);
    assert_eq!(ctx.get(left).label, "bool");
    assert_eq!(ctx.get(right).label, "int32");
    assert_eq!(ctx.num_args(left), 0);
    assert_eq!(ctx.num_args(right), 0);
    assert_eq!(ctx.get(left).ty, &boolean());
    assert_eq!(ctx.get(right).ty, &int32());
}

#[test]
fn atomic_kinds_have_no_children() {
    let atoms = vec![
        ty(TypeVariants::TyBool),
        ty(TypeVariants::TyChar),
        ty(TypeVariants::TyInt(IntTy::I8)),
        ty(TypeVariants::TyUint(UintTy::U64)),
        ty(TypeVariants::TyFloat(FloatTy::F64)),
        ty(TypeVariants::TyStr),
        ty(TypeVariants::TyNever),
    ];
    let mut ctx: LabeledTyCtxt<String> = LabeledTyCtxt::new();
    for t in atoms.iter() {
        let lty = ctx.label(t, &mut kind_name);
        assert_eq!(ctx.num_args(lty), 0);
        assert_eq!(ctx.args(lty).len(), 0);
        assert_eq!(ctx.get(lty).args, ArgSlice::empty());
        assert_eq!(ctx.get(lty).ty, t);
        assert_eq!(ctx.get(lty).label, kind_name(t));
    }
    assert_eq!(ctx.len(), atoms.len());
}

#[test]
fn unsupported_kinds_are_leaves() {
    let leaves = vec![
        ty(TypeVariants::TyDynamic),
        ty(TypeVariants::TyClosure(3)),
        ty(TypeVariants::TyProjection),
        ty(TypeVariants::TyAnon(1)),
        param(4),
        ty(TypeVariants::TyInfer),
        ty(TypeVariants::TyError),
    ];
    let mut ctx: LabeledTyCtxt<String> = LabeledTyCtxt::new();
    for t in leaves.iter() {
        let lty = ctx.label(t, &mut kind_name);
        assert_eq!(ctx.num_args(lty), 0);
        assert_eq!(ctx.get(lty).label, kind_name(t));
        assert_eq!(ctx.sty(lty), &t.sty);
    }
}

#[test]
fn wrapper_kinds_have_one_child() {
    let wrappers = vec![
        ty(TypeVariants::TyArray(Box::new(int32()), 16)),
        ty(TypeVariants::TySlice(Box::new(int32()))),
        ty(TypeVariants::TyRawPtr(TypeAndMut {
            ty: Box::new(int32()),
            mutbl: Mutability::MutMutable,
        })),
        ty(TypeVariants::TyRef(TypeAndMut {
            ty: Box::new(int32()),
            mutbl: Mutability::MutImmutable,
        })),
    ];
    let mut ctx: LabeledTyCtxt<String> = LabeledTyCtxt::new();
    for t in wrappers.iter() {
        let lty = ctx.label(t, &mut kind_name);
        assert_eq!(ctx.num_args(lty), 1);
        assert_eq!(ctx.get(lty).ty, t);
        let child = ctx.arg(lty, 0);
        assert_eq!(ctx.get(child).ty, &int32());
        assert_eq!(ctx.get(child).label, "int32");
        assert_eq!(ctx.num_args(child), 0);
    }
}

#[test]
fn multi_argument_kinds_have_their_arguments_in_order() {
    let parts = || vec![boolean(), int32(), ty(TypeVariants::TyChar)];
    let many = vec![
        ty(TypeVariants::TyAdt(9, parts())),
        ty(TypeVariants::TyFnDef(2, parts())),
        ty(TypeVariants::TyFnPtr(FnSig { inputs_and_output: parts(), variadic: false })),
        ty(TypeVariants::TyTuple(parts())),
    ];
    let mut ctx: LabeledTyCtxt<String> = LabeledTyCtxt::new();
    for t in many.iter() {
        let lty = ctx.label(t, &mut kind_name);
        assert_eq!(ctx.get(lty).label, kind_name(t));
        assert_eq!(child_labels(&ctx, lty), vec!["bool", "int32", "char"]);
        assert_mirrors(&ctx, lty, t, &|_| parts());
    }
}

#[test]
fn function_pointer_children_are_parameters_then_result() {
    let sig = ty(TypeVariants::TyFnPtr(FnSig {
        inputs_and_output: vec![int32(), ty(TypeVariants::TyStr), boolean()],
        variadic: false,
    }));
    let mut ctx: LabeledTyCtxt<String> = LabeledTyCtxt::new();
    let lty = ctx.label(&sig, &mut kind_name);
    assert_eq!(child_labels(&ctx, lty), vec!["int32", "str", "bool"]);
}

#[test]
fn empty_tuple_is_a_leaf_with_the_shared_empty_sequence() {
    let unit = ty(TypeVariants::TyTuple(vec![]));
    let mut ctx: LabeledTyCtxt<String> = LabeledTyCtxt::new();
    let lty = ctx.label(&unit, &mut kind_name);
    assert_eq!(ctx.num_args(lty), 0);
    assert_eq!(ctx.get(lty).args, ArgSlice::empty());
}

#[test]
fn nested_type_is_mirrored_at_every_level() {
    // &[(bool, Pair<int32, char>)]
    let pair = || ty(TypeVariants::TyAdt(0, vec![int32(), ty(TypeVariants::TyChar)]));
    let tuple = || ty(TypeVariants::TyTuple(vec![boolean(), pair()]));
    let slice = || ty(TypeVariants::TySlice(Box::new(tuple())));
    let whole = ty(TypeVariants::TyRef(TypeAndMut {
        ty: Box::new(slice()),
        mutbl: Mutability::MutImmutable,
    }));
    let mut ctx: LabeledTyCtxt<String> = LabeledTyCtxt::new();
    let root = ctx.label(&whole, &mut kind_name);
    assert_eq!(ctx.len(), 7);
    let s = ctx.arg(root, 0);
    assert_eq!(ctx.get(s).ty, &slice());
    let t = ctx.arg(s, 0);
    assert_eq!(ctx.get(t).ty, &tuple());
    assert_eq!(child_labels(&ctx, t), vec!["bool", "Pair"]);
    let p = ctx.arg(t, 1);
    assert_eq!(ctx.get(p).ty, &pair());
    assert_eq!(child_labels(&ctx, p), vec!["int32", "char"]);
}

#[test]
fn label_function_runs_once_per_node_parent_first() {
    let pair = ty(TypeVariants::TyAdt(0, vec![boolean(), int32()]));
    let whole = ty(TypeVariants::TyTuple(vec![pair, ty(TypeVariants::TyChar)]));
    let mut seen: Vec<String> = Vec::new();
    let mut ctx: LabeledTyCtxt<usize> = LabeledTyCtxt::new();
    let root = ctx.label(&whole, &mut |t: &TyS| {
        seen.push(kind_name(t));
        seen.len() - 1
    });
    assert_eq!(seen, vec!["tuple", "Pair", "bool", "int32", "char"]);
    assert_eq!(ctx.get(root).label, 0);
    let p = ctx.arg(root, 0);
    assert_eq!(ctx.get(p).label, 1);
    assert_eq!(ctx.get(ctx.arg(p, 0)).label, 2);
    assert_eq!(ctx.get(ctx.arg(p, 1)).label, 3);
    assert_eq!(ctx.get(ctx.arg(root, 1)).label, 4);
}

#[test]
fn handles_belong_to_the_context_that_made_them() {
    let whole = ty(TypeVariants::TyTuple(vec![boolean(), int32()]));
    let mut ctx: LabeledTyCtxt<String> = LabeledTyCtxt::new();
    let root = ctx.label(&whole, &mut kind_name);
    assert!(ctx.has_node(root));
    for &c in ctx.args(root) {
        assert!(ctx.has_node(c));
        assert_ne!(c, root);
    }
    assert_eq!(ctx.len(), 3);
    let other: LabeledTyCtxt<String> = LabeledTyCtxt::new();
    assert!(!other.has_node(root));
}

#[test]
fn a_free_node_is_traversed_like_a_stored_one() {
    let whole = ty(TypeVariants::TyTuple(vec![boolean(), int32()]));
    let mut ctx: LabeledTyCtxt<String> = LabeledTyCtxt::new();
    let root = ctx.label(&whole, &mut kind_name);
    let free = LabeledTyS { ty: &whole, args: ctx.get(root).args, label: "free".to_string() };
    let seen: Vec<&String> = free.labels(&ctx);
    assert_eq!(seen, vec!["free", "bool", "int32"]);
}

#[test]
fn label_slice_builds_each_type_in_order() {
    let a = boolean();
    let b = ty(TypeVariants::TySlice(Box::new(int32())));
    let c = param(0);
    let mut ctx: LabeledTyCtxt<String> = LabeledTyCtxt::new();
    let args = ctx.label_slice(&[&a, &b, &c], &mut kind_name);
    assert_eq!(args.len(), 3);
    let roots: Vec<LabeledTy> = ctx.slice(args).to_vec();
    assert_eq!(ctx.get(roots[0]).label, "bool");
    assert_eq!(ctx.get(roots[1]).label, "slice");
    assert_eq!(ctx.get(roots[2]).label, "param");
    assert_eq!(ctx.get(roots[0]).ty, &a);
    assert_eq!(ctx.get(roots[1]).ty, &b);
    assert_eq!(ctx.get(roots[2]).ty, &c);
    assert_eq!(child_labels(&ctx, roots[1]), vec!["int32"]);
}

#[test]
fn label_slice_of_nothing_is_the_empty_sequence() {
    let mut ctx: LabeledTyCtxt<String> = LabeledTyCtxt::new();
    let args = ctx.label_slice(&[], &mut kind_name);
    assert_eq!(args, ArgSlice::empty());
    assert_eq!(args.len(), 0);
    assert_eq!(ctx.len(), 0);
}

#[test]
fn mk_makes_a_node_from_its_parts() {
    let b = boolean();
    let t = ty(TypeVariants::TyTuple(vec![boolean(), boolean()]));
    let mut ctx: LabeledTyCtxt<u8> = LabeledTyCtxt::new();
    assert_eq!(ctx.len(), 0);
    let x = ctx.mk(&b, ArgSlice::empty(), 1);
    let y = ctx.mk(&b, ArgSlice::empty(), 2);
    assert_ne!(x, y);
    let args = ctx.mk_slice(&[x, y]);
    assert!(ctx.has_slice(args));
    assert_eq!(ctx.slice(args), &[x, y]);
    let root = ctx.mk(&t, args, 3);
    assert_eq!(ctx.len(), 3);
    assert_eq!(ctx.get(root).label, 3);
    assert_eq!(ctx.get(root).ty, &t);
    assert_eq!(ctx.get(root).args, args);
    assert_eq!(ctx.args(root), &[x, y]);
    assert_eq!(ctx.arg(root, 0), x);
    assert_eq!(ctx.arg(root, 1), y);
    // What was there before is as it was.
    assert_eq!(ctx.get(x).label, 1);
    assert_eq!(ctx.get(y).label, 2);
}

#[test]
fn mk_slice_of_nothing_stores_nothing() {
    let b = boolean();
    let mut ctx: LabeledTyCtxt<u8> = LabeledTyCtxt::new();
    let x = ctx.mk(&b, ArgSlice::empty(), 1);
    let first = ctx.mk_slice(&[]);
    let full = ctx.mk_slice(&[x, x]);
    let second = ctx.mk_slice(&[]);
    assert_eq!(first, ArgSlice::empty());
    assert_eq!(second, first);
    assert_eq!(first.len(), 0);
    assert_eq!(ctx.slice(first).len(), 0);
    assert_eq!(ctx.slice(full), &[x, x]);
    // A sequence stored after `full` starts where `full` ends: the empty
    // ones in between took no room.
    let next = ctx.mk_slice(&[x]);
    assert_eq!(ctx.slice(next), &[x]);
    assert_eq!(ctx.slice(full), &[x, x]);
    assert_eq!(ctx.len(), 1);
}

#[test]
fn has_slice_refuses_a_sequence_of_another_context() {
    let b = boolean();
    let mut big: LabeledTyCtxt<u8> = LabeledTyCtxt::new();
    let x = big.mk(&b, ArgSlice::empty(), 1);
    let args = big.mk_slice(&[x, x, x]);
    let small: LabeledTyCtxt<u8> = LabeledTyCtxt::new();
    assert!(big.has_slice(args));
    assert!(!small.has_slice(args));
    assert!(small.has_slice(ArgSlice::empty()));
}

#[test]
fn unsupported_kinds_are_marked() {
    for t in [
        ty(TypeVariants::TyDynamic),
        ty(TypeVariants::TyClosure(0)),
        ty(TypeVariants::TyProjection),
        ty(TypeVariants::TyAnon(0)),
        param(0),
        ty(TypeVariants::TyInfer),
        ty(TypeVariants::TyError),
    ] {
        assert!(t.unsupported());
    }
    for t in [
        boolean(),
        int32(),
        ty(TypeVariants::TyNever),
        ty(TypeVariants::TyTuple(vec![])),
        ty(TypeVariants::TyAdt(0, vec![param(0)])),
        ty(TypeVariants::TySlice(Box::new(ty(TypeVariants::TyError)))),
    ] {
        assert!(!t.unsupported());
    }
}

#[test]
fn building_makes_one_node_for_each_node_of_the_type() {
    let inner = ty(TypeVariants::TyFnPtr(FnSig {
        inputs_and_output: vec![boolean(), param(1), int32()],
        variadic: false,
    }));
    let whole = ty(TypeVariants::TyArray(Box::new(inner), 4));
    let mut ctx: LabeledTyCtxt<String> = LabeledTyCtxt::new();
    let first = ctx.label(&whole, &mut kind_name);
    assert_eq!(ctx.len(), 5);
    let second = ctx.label(&whole, &mut kind_name);
    assert_eq!(ctx.len(), 10);
    assert_ne!(first, second);
    assert_eq!(ctx.get(first).labels(&ctx), ctx.get(second).labels(&ctx));
}
