use labeled_ty::{
    ArgSlice, FloatTy, FnSig, IntTy, LabeledTyCtxt, Mutability, ParamTy, TyS, TypeAndMut,
    TypeVariants, UintTy,
};

fn leaf(sty: TypeVariants) -> TyS {
    TyS { sty }
}

fn boxed(sty: TypeVariants) -> Box<TyS> {
    Box::new(leaf(sty))
}

fn pointer(mutbl: Mutability) -> TypeAndMut {
    TypeAndMut { ty: boxed(TypeVariants::TyChar), mutbl }
}

/// One type of every kind, and for the kinds that carry something, a second
/// one that differs in what it carries.
fn catalogue() -> Vec<TyS> {
    vec![
        leaf(TypeVariants::TyBool),
        leaf(TypeVariants::TyChar),
        leaf(TypeVariants::TyInt(IntTy::I32)),
        leaf(TypeVariants::TyInt(IntTy::I64)),
        leaf(TypeVariants::TyUint(UintTy::U8)),
        leaf(TypeVariants::TyUint(UintTy::Us)),
        leaf(TypeVariants::TyFloat(FloatTy::F32)),
        leaf(TypeVariants::TyFloat(FloatTy::F64)),
        leaf(TypeVariants::TyStr),
        leaf(TypeVariants::TyNever),
        leaf(TypeVariants::TyAdt(1, vec![leaf(TypeVariants::TyBool)])),
        leaf(TypeVariants::TyAdt(2, vec![leaf(TypeVariants::TyBool)])),
        leaf(TypeVariants::TyAdt(1, vec![leaf(TypeVariants::TyChar)])),
        leaf(TypeVariants::TyAdt(1, vec![])),
        leaf(TypeVariants::TyArray(boxed(TypeVariants::TyBool), 3)),
        leaf(TypeVariants::TyArray(boxed(TypeVariants::TyBool), 4)),
        leaf(TypeVariants::TyArray(boxed(TypeVariants::TyChar), 3)),
        leaf(TypeVariants::TySlice(boxed(TypeVariants::TyBool))),
        leaf(TypeVariants::TySlice(boxed(TypeVariants::TyChar))),
        leaf(TypeVariants::TyRawPtr(pointer(Mutability::MutMutable))),
        leaf(TypeVariants::TyRawPtr(pointer(Mutability::MutImmutable))),
        leaf(TypeVariants::TyRef(pointer(Mutability::MutMutable))),
        leaf(TypeVariants::TyRef(pointer(Mutability::MutImmutable))),
        leaf(TypeVariants::TyFnDef(1, vec![leaf(TypeVariants::TyBool)])),
        leaf(TypeVariants::TyFnDef(1, vec![leaf(TypeVariants::TyBool), leaf(TypeVariants::TyBool)])),
        leaf(TypeVariants::TyFnPtr(FnSig {
            inputs_and_output: vec![leaf(TypeVariants::TyBool)],
            variadic: false,
        })),
        leaf(TypeVariants::TyFnPtr(FnSig {
            inputs_and_output: vec![leaf(TypeVariants::TyBool)],
            variadic: true,
        })),
        leaf(TypeVariants::TyTuple(vec![leaf(TypeVariants::TyBool)])),
        leaf(TypeVariants::TyTuple(vec![])),
        leaf(TypeVariants::TyDynamic),
        leaf(TypeVariants::TyClosure(1)),
        leaf(TypeVariants::TyClosure(2)),
        leaf(TypeVariants::TyProjection),
        leaf(TypeVariants::TyAnon(1)),
        leaf(TypeVariants::TyAnon(2)),
        leaf(TypeVariants::TyParam(ParamTy { idx: 0 })),
        leaf(TypeVariants::TyParam(ParamTy { idx: 1 })),
        leaf(TypeVariants::TyInfer),
        leaf(TypeVariants::TyError),
    ]
}

#[test]
fn types_are_alike_exactly_when_they_are_equal() {
    let left = catalogue();
    let right = catalogue();
    for (i, a) in left.iter().enumerate() {
        for (j, b) in right.iter().enumerate() {
            assert_eq!(a.same(b), i == j, "{:?} and {:?}", a, b);
            assert_eq!(a.same(b), a == b);
        }
    }
}

#[test]
fn types_that_differ_far_down_are_not_alike() {
    let deep = |inner: TypeVariants| {
        leaf(TypeVariants::TyTuple(vec![
            leaf(TypeVariants::TyBool),
            leaf(TypeVariants::TyRef(TypeAndMut {
                ty: Box::new(leaf(TypeVariants::TySlice(Box::new(leaf(inner))))),
                mutbl: Mutability::MutImmutable,
            })),
        ]))
    };
    assert!(deep(TypeVariants::TyChar).same(&deep(TypeVariants::TyChar)));
    assert!(!deep(TypeVariants::TyChar).same(&deep(TypeVariants::TyStr)));
}

#[test]
fn trees_built_alike_are_the_same_tree() {
    let ty = leaf(TypeVariants::TyTuple(vec![
        leaf(TypeVariants::TyBool),
        leaf(TypeVariants::TySlice(boxed(TypeVariants::TyChar))),
    ]));
    let copy = leaf(TypeVariants::TyTuple(vec![
        leaf(TypeVariants::TyBool),
        leaf(TypeVariants::TySlice(boxed(TypeVariants::TyChar))),
    ]));
    let mut one: LabeledTyCtxt<u8> = LabeledTyCtxt::new();
    let mut two: LabeledTyCtxt<u8> = LabeledTyCtxt::new();
    let filler = two.mk(&ty, ArgSlice::empty(), 0);
    let a = one.label(&ty, &mut |_t: &TyS| 7);
    let b = two.label(&copy, &mut |_t: &TyS| 7);
    let c = one.label(&ty, &mut |_t: &TyS| 7);
    assert_ne!(a, b);
    assert_ne!(a, c);
    assert!(one.same_tree(a, &two, b));
    assert!(two.same_tree(b, &one, a));
    assert!(one.same_tree(a, &one, c));
    assert!(one.same_tree(a, &one, a));
    assert!(!two.same_tree(filler, &one, a));
}

#[test]
fn trees_that_differ_in_one_label_are_not_the_same() {
    let ty = leaf(TypeVariants::TyTuple(vec![
        leaf(TypeVariants::TyBool),
        leaf(TypeVariants::TySlice(boxed(TypeVariants::TyChar))),
    ]));
    let mut ctx: LabeledTyCtxt<u8> = LabeledTyCtxt::new();
    let a = ctx.label(&ty, &mut |_t: &TyS| 7);
    let b = ctx.label(&ty, &mut |t: &TyS| if t.sty == TypeVariants::TyChar { 8 } else { 7 });
    assert!(!ctx.same_tree(a, &ctx, b));
    assert!(ctx.same_tree(ctx.arg(a, 0), &ctx, ctx.arg(b, 0)));
    assert!(!ctx.same_tree(ctx.arg(a, 1), &ctx, ctx.arg(b, 1)));
}

#[test]
fn trees_that_differ_in_shape_or_type_are_not_the_same() {
    let b = leaf(TypeVariants::TyBool);
    let c = leaf(TypeVariants::TyChar);
    let mut ctx: LabeledTyCtxt<u8> = LabeledTyCtxt::new();
    let x = ctx.mk(&b, ArgSlice::empty(), 1);
    let y = ctx.mk(&c, ArgSlice::empty(), 1);
    let one = ctx.mk_slice(&[x]);
    let two = ctx.mk_slice(&[x, x]);
    let other = ctx.mk_slice(&[y]);
    let p = ctx.mk(&b, one, 1);
    let q = ctx.mk(&b, two, 1);
    let r = ctx.mk(&b, other, 1);
    let s = ctx.mk(&b, one, 1);
    assert!(!ctx.same_tree(x, &ctx, y));
    assert!(!ctx.same_tree(p, &ctx, q));
    assert!(!ctx.same_tree(p, &ctx, r));
    assert!(!ctx.same_tree(p, &ctx, x));
    assert!(ctx.same_tree(p, &ctx, s));
}

#[test]
fn relabeling_with_the_identity_gives_the_same_tree() {
    let ty = leaf(TypeVariants::TyAdt(
        3,
        vec![leaf(TypeVariants::TyBool), leaf(TypeVariants::TyParam(ParamTy { idx: 0 }))],
    ));
    let mut src: LabeledTyCtxt<u32> = LabeledTyCtxt::new();
    let mut next: u32 = 0;
    let root = src.label(&ty, &mut |_t: &TyS| {
        next += 1;
        next
    });
    let mut dst: LabeledTyCtxt<u32> = LabeledTyCtxt::new();
    let out = dst.relabel(&src, root, &mut |l: &u32| *l);
    assert!(src.same_tree(root, &dst, out));
    let changed = dst.relabel(&src, root, &mut |l: &u32| *l + 1);
    assert!(!src.same_tree(root, &dst, changed));
}
