//! The host type system as this library sees it: a closed catalogue of type
//! kinds, and for each type its ordered structural children.

use vstd::prelude::*;

verus! {

/// Widths of the signed integer primitives.
#[derive(Clone, Copy, Debug, PartialEq, Eq, Structural)]
pub enum IntTy {
    Is,
    I8,
    I16,
    I32,
    I64,
    I128,
}

/// Widths of the unsigned integer primitives.
#[derive(Clone, Copy, Debug, PartialEq, Eq, Structural)]
pub enum UintTy {
    Us,
    U8,
    U16,
    U32,
    U64,
    U128,
}

/// Widths of the floating-point primitives.
#[derive(Clone, Copy, Debug, PartialEq, Eq, Structural)]
pub enum FloatTy {
    F32,
    F64,
}

/// Whether a pointer or reference allows writing through it.
#[derive(Clone, Copy, Debug, PartialEq, Eq, Structural)]
pub enum Mutability {
    MutMutable,
    MutImmutable,
}

/// The pointee of a raw pointer or reference, with its qualifier.
#[derive(Debug, PartialEq, Eq)]
pub struct TypeAndMut {
    pub ty: Box<TyS>,
    pub mutbl: Mutability,
}

/// A function-pointer signature: every parameter type, then the return type.
#[derive(Debug, PartialEq, Eq)]
pub struct FnSig {
    pub inputs_and_output: Vec<TyS>,
    pub variadic: bool,
}

/// A type-parameter placeholder, identified by its position in the list of
/// arguments that a substitution supplies.
#[derive(Clone, Copy, Debug, PartialEq, Eq, Structural)]
pub struct ParamTy {
    pub idx: u32,
}

/// The kind of a type, with what each kind carries.
#[derive(Debug, PartialEq, Eq)]
pub enum TypeVariants {
    TyBool,
    TyChar,
    TyInt(IntTy),
    TyUint(UintTy),
    TyFloat(FloatTy),
    TyStr,
    TyNever,
    /// A nominal type, by the number of its definition, with its type arguments.
    TyAdt(u32, Vec<TyS>),
    /// A fixed-size array: element type and length.
    TyArray(Box<TyS>, u64),
    TySlice(Box<TyS>),
    TyRawPtr(TypeAndMut),
    TyRef(TypeAndMut),
    /// A function item, by the number of its definition, with its type arguments.
    TyFnDef(u32, Vec<TyS>),
    TyFnPtr(FnSig),
    TyTuple(Vec<TyS>),
    TyDynamic,
    TyClosure(u32),
    TyProjection,
    TyAnon(u32),
    TyParam(ParamTy),
    TyInfer,
    TyError,
}

/// A type of the host type system.
#[derive(Debug, PartialEq, Eq)]
pub struct TyS {
    pub sty: TypeVariants,
}

/// A type as it is handed around: borrowed from wherever the host keeps it.
pub type Ty<'t> = &'t TyS;

impl TyS {
    /// The structural children of a type, in order: none for an atomic kind,
    /// the element or pointee for an array, slice, pointer or reference, the
    /// type arguments of a nominal type or function item, the parameters and
    /// then the result of a function pointer, the elements of a tuple. Every
    /// other kind is a leaf.
    pub open spec fn args(&self) -> Seq<TyS> {
        match self.sty {
            TypeVariants::TyAdt(_, substs) => substs@,
            TypeVariants::TyArray(elem, _) => seq![*elem],
            TypeVariants::TySlice(elem) => seq![*elem],
            TypeVariants::TyRawPtr(mty) => seq![*mty.ty],
            TypeVariants::TyRef(mty) => seq![*mty.ty],
            TypeVariants::TyFnDef(_, substs) => substs@,
            TypeVariants::TyFnPtr(sig) => sig.inputs_and_output@,
            TypeVariants::TyTuple(elems) => elems@,
            _ => Seq::empty(),
        }
    }

    /// A placeholder's index; `None` for every other kind.
    pub open spec fn param_idx(&self) -> Option<u32> {
        match self.sty {
            TypeVariants::TyParam(p) => Some(p.idx),
            _ => None,
        }
    }

    /// The kinds whose structure, if they have any, is not followed: a type
    /// of such a kind is treated as a leaf.
    pub open spec fn is_unsupported(&self) -> bool {
        match self.sty {
            TypeVariants::TyDynamic
            | TypeVariants::TyClosure(_)
            | TypeVariants::TyProjection
            | TypeVariants::TyAnon(_)
            | TypeVariants::TyParam(_)
            | TypeVariants::TyInfer
            | TypeVariants::TyError => true,
            _ => false,
        }
    }

    /// Whether the type is of a kind whose structure is not followed.
    pub fn unsupported(&self) -> (b: bool)
        ensures
            b == self.is_unsupported(),
    {
        match &self.sty {
            TypeVariants::TyDynamic
            | TypeVariants::TyClosure(_)
            | TypeVariants::TyProjection
            | TypeVariants::TyAnon(_)
            | TypeVariants::TyParam(_)
            | TypeVariants::TyInfer
            | TypeVariants::TyError => true,
            _ => false,
        }
    }

    /// The kinds that never have children.
    pub open spec fn is_atomic(&self) -> bool {
        match self.sty {
            TypeVariants::TyBool
            | TypeVariants::TyChar
            | TypeVariants::TyInt(_)
            | TypeVariants::TyUint(_)
            | TypeVariants::TyFloat(_)
            | TypeVariants::TyStr
            | TypeVariants::TyNever => true,
            _ => false,
        }
    }

    /// Two types are alike: they are of the same kind, carry the same
    /// numbers and qualifiers, and their children are alike one for one.
    pub open spec fn alike(&self, other: &TyS) -> bool
        decreases self,
    {
        match (self.sty, other.sty) {
            (TypeVariants::TyBool, TypeVariants::TyBool) => true,
            (TypeVariants::TyChar, TypeVariants::TyChar) => true,
            (TypeVariants::TyInt(a), TypeVariants::TyInt(b)) => a == b,
            (TypeVariants::TyUint(a), TypeVariants::TyUint(b)) => a == b,
            (TypeVariants::TyFloat(a), TypeVariants::TyFloat(b)) => a == b,
            (TypeVariants::TyStr, TypeVariants::TyStr) => true,
            (TypeVariants::TyNever, TypeVariants::TyNever) => true,
            (TypeVariants::TyAdt(d, s), TypeVariants::TyAdt(e, t)) => d == e && Self::alike_all(
                s@,
                t@,
            ),
            (TypeVariants::TyArray(x, n), TypeVariants::TyArray(y, m)) => n == m && x.alike(&*y),
            (TypeVariants::TySlice(x), TypeVariants::TySlice(y)) => x.alike(&*y),
            (TypeVariants::TyRawPtr(x), TypeVariants::TyRawPtr(y)) => x.mutbl == y.mutbl
                && x.ty.alike(&*y.ty),
            (TypeVariants::TyRef(x), TypeVariants::TyRef(y)) => x.mutbl == y.mutbl && x.ty.alike(
                &*y.ty,
            ),
            (TypeVariants::TyFnDef(d, s), TypeVariants::TyFnDef(e, t)) => d == e
                && Self::alike_all(s@, t@),
            (TypeVariants::TyFnPtr(x), TypeVariants::TyFnPtr(y)) => x.variadic == y.variadic
                && Self::alike_all(x.inputs_and_output@, y.inputs_and_output@),
            (TypeVariants::TyTuple(s), TypeVariants::TyTuple(t)) => Self::alike_all(s@, t@),
            (TypeVariants::TyDynamic, TypeVariants::TyDynamic) => true,
            (TypeVariants::TyClosure(a), TypeVariants::TyClosure(b)) => a == b,
            (TypeVariants::TyProjection, TypeVariants::TyProjection) => true,
            (TypeVariants::TyAnon(a), TypeVariants::TyAnon(b)) => a == b,
            (TypeVariants::TyParam(a), TypeVariants::TyParam(b)) => a == b,
            (TypeVariants::TyInfer, TypeVariants::TyInfer) => true,
            (TypeVariants::TyError, TypeVariants::TyError) => true,
            _ => false,
        }
    }

    /// Two lists of types are alike: of one length, and alike one for one.
    pub open spec fn alike_all(xs: Seq<TyS>, ys: Seq<TyS>) -> bool
        decreases xs,
    {
        &&& xs.len() == ys.len()
        &&& forall|i: int| 0 <= i < xs.len() ==> (#[trigger] xs[i]).alike(&ys[i])
    }

    /// Whether two types are alike.
    pub fn same(&self, other: &TyS) -> (b: bool)
        ensures
            b == self.alike(other),
        decreases self, 0nat,
    {
        match (&self.sty, &other.sty) {
            (TypeVariants::TyBool, TypeVariants::TyBool) => true,
            (TypeVariants::TyChar, TypeVariants::TyChar) => true,
            (TypeVariants::TyInt(a), TypeVariants::TyInt(b)) => *a == *b,
            (TypeVariants::TyUint(a), TypeVariants::TyUint(b)) => *a == *b,
            (TypeVariants::TyFloat(a), TypeVariants::TyFloat(b)) => *a == *b,
            (TypeVariants::TyStr, TypeVariants::TyStr) => true,
            (TypeVariants::TyNever, TypeVariants::TyNever) => true,
            (TypeVariants::TyAdt(d, s), TypeVariants::TyAdt(e, t)) => *d == *e && Self::same_all(
                s,
                t,
            ),
            (TypeVariants::TyArray(x, n), TypeVariants::TyArray(y, m)) => *n == *m && Self::same_boxed(
                x,
                y,
            ),
            (TypeVariants::TySlice(x), TypeVariants::TySlice(y)) => Self::same_boxed(x, y),
            (TypeVariants::TyRawPtr(x), TypeVariants::TyRawPtr(y)) => x.mutbl == y.mutbl
                && Self::same_boxed(&x.ty, &y.ty),
            (TypeVariants::TyRef(x), TypeVariants::TyRef(y)) => x.mutbl == y.mutbl
                && Self::same_boxed(&x.ty, &y.ty),
            (TypeVariants::TyFnDef(d, s), TypeVariants::TyFnDef(e, t)) => *d == *e
                && Self::same_all(s, t),
            (TypeVariants::TyFnPtr(x), TypeVariants::TyFnPtr(y)) => x.variadic == y.variadic
                && Self::same_all(&x.inputs_and_output, &y.inputs_and_output),
            (TypeVariants::TyTuple(s), TypeVariants::TyTuple(t)) => Self::same_all(s, t),
            (TypeVariants::TyDynamic, TypeVariants::TyDynamic) => true,
            (TypeVariants::TyClosure(a), TypeVariants::TyClosure(b)) => *a == *b,
            (TypeVariants::TyProjection, TypeVariants::TyProjection) => true,
            (TypeVariants::TyAnon(a), TypeVariants::TyAnon(b)) => *a == *b,
            (TypeVariants::TyParam(a), TypeVariants::TyParam(b)) => a.idx == b.idx,
            (TypeVariants::TyInfer, TypeVariants::TyInfer) => true,
            (TypeVariants::TyError, TypeVariants::TyError) => true,
            _ => false,
        }
    }

    /// Whether the types in two boxes are alike.
    fn same_boxed(x: &Box<TyS>, y: &Box<TyS>) -> (b: bool)
        ensures
            b == x.alike(&**y),
        decreases x, 1nat,
    {
        (&**x).same(&**y)
    }

    /// Whether two lists of types are alike.
    fn same_all(xs: &Vec<TyS>, ys: &Vec<TyS>) -> (b: bool)
        ensures
            b == Self::alike_all(xs@, ys@),
        decreases xs, 0nat,
    {
        if xs.len() != ys.len() {
            return false;
        }
        let mut i: usize = 0;
        while i < xs.len()
            invariant
                i <= xs.len(),
                xs.len() == ys.len(),
                forall|k: int| 0 <= k < i ==> (#[trigger] xs@[k]).alike(&ys@[k]),
            decreases xs.len() - i,
        {
            if !xs[i].same(&ys[i]) {
                return false;
            }
            i += 1;
        }
        true
    }
}

} // verus!
