//! Labeled type trees and the context that stores them.
//!
//! A context owns every node it has made. A node is named by a handle, and a
//! node's children are always older than the node itself, so no cycle can be
//! built and every tree is finite.

use crate::tree::Tree;
use crate::ty::{Ty, TyS, TypeVariants};
use vstd::prelude::*;
use vstd::slice::{slice_subrange, slice_to_vec};

verus! {

/// A handle to one node of a context: the root of a labeled type tree.
#[derive(Clone, Copy, Debug, PartialEq, Eq, Structural, Hash)]
pub struct LabeledTy {
    idx: usize,
}

/// A handle to a sequence of node handles that a context stores in one piece.
#[derive(Clone, Copy, Debug, PartialEq, Eq, Structural, Hash)]
pub struct ArgSlice {
    start: usize,
    len: usize,
}

/// One node: the host type it stands for, its children, and its label.
#[derive(Clone, Debug)]
pub struct LabeledTyS<'t, L> {
    pub ty: Ty<'t>,
    pub args: ArgSlice,
    pub label: L,
}

/// Why a substitution failed.
#[derive(Clone, Copy, Debug, PartialEq, Eq, Structural)]
pub enum SubstError {
    /// A placeholder asks for the argument at `index`, and only `len`
    /// arguments were given.
    IndexOutOfRange { index: u32, len: usize },
}

/// The store of nodes and of child sequences. Nothing in it is ever changed
/// or removed: it only grows.
pub struct LabeledTyCtxt<'t, L> {
    nodes: Vec<LabeledTyS<'t, L>>,
    pool: Vec<LabeledTy>,
}

impl LabeledTy {
    /// The position of the node in its context, in order of creation.
    pub closed spec fn index(self) -> nat {
        self.idx as nat
    }
}

/// What a list of references points to, in order.
pub open spec fn pointees<L>(refs: Seq<&L>) -> Seq<L> {
    Seq::new(refs.len(), |i: int| *refs[i])
}

impl LabeledTy {
    /// The least number that is above the index of every handle in `ltys`.
    pub open spec fn bound(ltys: Seq<LabeledTy>) -> nat
        decreases ltys.len(),
    {
        if ltys.len() == 0 {
            0
        } else {
            let rest = Self::bound(ltys.drop_last());
            if ltys.last().index() < rest {
                rest
            } else {
                ltys.last().index() + 1
            }
        }
    }

    proof fn lemma_bound_above(ltys: Seq<LabeledTy>, k: int)
        requires
            0 <= k < ltys.len(),
        ensures
            ltys[k].index() < Self::bound(ltys),
        decreases ltys.len(),
    {
        if k < ltys.len() - 1 {
            Self::lemma_bound_above(ltys.drop_last(), k);
        }
    }

    proof fn lemma_bound_least(ltys: Seq<LabeledTy>, m: nat)
        requires
            forall|k: int| 0 <= k < ltys.len() ==> (#[trigger] ltys[k]).index() < m,
        ensures
            Self::bound(ltys) <= m,
        decreases ltys.len(),
    {
        if ltys.len() > 0 {
            Self::lemma_bound_least(ltys.drop_last(), m);
        }
    }
}

impl ArgSlice {
    /// Where the sequence begins in the store of its context.
    pub closed spec fn first(self) -> nat {
        self.start as nat
    }

    /// Where the sequence ends in the store of its context.
    pub closed spec fn end(self) -> nat {
        (self.start + self.len) as nat
    }

    /// The number of handles in the sequence.
    pub open spec fn count(self) -> nat {
        (self.end() - self.first()) as nat
    }

    /// The sequence without elements, which every context shares.
    pub closed spec fn nil() -> ArgSlice {
        ArgSlice { start: 0, len: 0 }
    }

    /// The empty sequence.
    pub fn empty() -> (args: ArgSlice)
        ensures
            args == ArgSlice::nil(),
            args.first() == 0,
            args.end() == 0,
    {
        ArgSlice { start: 0, len: 0 }
    }

    /// The number of handles in the sequence.
    pub fn len(&self) -> (n: usize)
        ensures
            n == self.count(),
    {
        self.len
    }
}

impl<'t, L> LabeledTyCtxt<'t, L> {
    /// The number of nodes made so far.
    pub closed spec fn node_count(&self) -> nat {
        self.nodes@.len()
    }

    /// The handle names a node of this context.
    pub open spec fn contains(&self, lty: LabeledTy) -> bool {
        lty.index() < self.node_count()
    }

    /// Every handle that this context has stored in a sequence, sequence
    /// after sequence.
    pub closed spec fn stored(&self) -> Seq<LabeledTy> {
        self.pool@
    }

    /// The handle names a sequence stored in this context.
    pub open spec fn valid_args(&self, args: ArgSlice) -> bool {
        args.first() <= args.end() <= self.stored().len()
    }

    /// The handles of a stored sequence, in order.
    pub open spec fn handles(&self, args: ArgSlice) -> Seq<LabeledTy> {
        self.stored().subrange(args.first() as int, args.end() as int)
    }

    /// The node that a handle names.
    pub closed spec fn node(&self, lty: LabeledTy) -> LabeledTyS<'t, L> {
        self.nodes@[lty.idx as int]
    }

    /// The tree below a handle, as a value.
    pub closed spec fn tree(&self, lty: LabeledTy) -> Tree<L>
        decreases lty.index(),
    {
        if lty.idx < self.nodes@.len() {
            let n = self.nodes@[lty.idx as int];
            Tree {
                ty: *n.ty,
                args: Seq::new(
                    n.args.len as nat,
                    |k: int|
                        {
                            let child = self.pool@[n.args.start + k];
                            if child.index() < lty.index() {
                                self.tree(child)
                            } else {
                                arbitrary()
                            }
                        },
                ),
                label: n.label,
            }
        } else {
            arbitrary()
        }
    }

    /// The trees below a list of handles.
    pub open spec fn trees(&self, ltys: Seq<LabeledTy>) -> Seq<Tree<L>> {
        ltys.map_values(|lty: LabeledTy| self.tree(lty))
    }

    /// The tree whose root is `node`, over children that this context holds.
    pub open spec fn tree_of(&self, node: LabeledTyS<'t, L>) -> Tree<L> {
        Tree { ty: *node.ty, args: self.trees(self.handles(node.args)), label: node.label }
    }

    /// Every handle in `ltys` names a node of this context.
    pub open spec fn contains_all(&self, ltys: Seq<LabeledTy>) -> bool {
        forall|i: int| 0 <= i < ltys.len() ==> self.contains(#[trigger] ltys[i])
    }

    /// The invariant of a context: every stored handle names a node, every
    /// node's children are stored, and every child is older than its parent.
    pub closed spec fn wf(&self) -> bool {
        &&& forall|j: int|
            0 <= j < self.pool@.len() ==> (#[trigger] self.pool@[j]).idx < self.nodes@.len()
        &&& forall|i: int|
            0 <= i < self.nodes@.len() ==> {
                let a = (#[trigger] self.nodes@[i]).args;
                &&& a.start + a.len <= self.pool@.len()
                &&& forall|k: int| a.start <= k < a.start + a.len ==> (#[trigger] self.pool@[k]).idx < i
            }
    }

    /// This context holds all that `old` held, unchanged, under the same
    /// handles.
    pub open spec fn extends(&self, old: &Self) -> bool {
        &&& old.node_count() <= self.node_count()
        &&& forall|lty: LabeledTy|
            #![trigger old.contains(lty)]
            #![trigger self.node(lty)]
            #![trigger self.tree(lty)]
            old.contains(lty) ==> {
                &&& self.contains(lty)
                &&& self.node(lty) == old.node(lty)
                &&& self.tree(lty) == old.tree(lty)
            }
        &&& forall|args: ArgSlice|
            #![trigger old.valid_args(args)]
            #![trigger self.handles(args)]
            old.valid_args(args) ==> {
                &&& self.valid_args(args)
                &&& self.handles(args) == old.handles(args)
            }
    }

    spec fn grows_from(&self, old: &Self) -> bool {
        &&& old.nodes@.len() <= self.nodes@.len()
        &&& old.pool@.len() <= self.pool@.len()
        &&& forall|i: int| 0 <= i < old.nodes@.len() ==> self.nodes@[i] == old.nodes@[i]
        &&& forall|j: int| 0 <= j < old.pool@.len() ==> self.pool@[j] == old.pool@[j]
    }

    proof fn lemma_grow_tree(&self, old: &Self, lty: LabeledTy)
        requires
            old.wf(),
            self.grows_from(old),
            old.contains(lty),
        ensures
            self.tree(lty) == old.tree(lty),
        decreases lty.idx,
    {
        let n = old.nodes@[lty.idx as int];
        assert forall|k: int| 0 <= k < n.args.len implies #[trigger] self.tree(lty).args[k]
            == old.tree(lty).args[k] by {
            let child = old.pool@[n.args.start + k];
            self.lemma_grow_tree(old, child);
        }
        assert(self.tree(lty).args =~= old.tree(lty).args);
    }

    proof fn lemma_grow_extends(&self, old: &Self)
        requires
            old.wf(),
            self.grows_from(old),
        ensures
            self.extends(old),
    {
        assert forall|lty: LabeledTy| #[trigger] old.contains(lty) implies self.tree(lty)
            == old.tree(lty) by {
            self.lemma_grow_tree(old, lty);
        }
        assert forall|args: ArgSlice| #[trigger] old.valid_args(args) implies self.handles(args)
            == old.handles(args) by {}
    }

    /// What a node's tree is made of: the node's type and label, over the
    /// trees of its children, which are all older than the node.
    pub proof fn lemma_tree_unfold(&self, lty: LabeledTy)
        requires
            self.wf(),
            self.contains(lty),
        ensures
            self.tree(lty).ty == *self.node(lty).ty,
            self.tree(lty).label == self.node(lty).label,
            self.valid_args(self.node(lty).args),
            self.contains_all(self.handles(self.node(lty).args)),
            self.tree(lty).args == self.trees(self.handles(self.node(lty).args)),
            self.tree(lty) == self.tree_of(self.node(lty)),
            forall|k: int|
                0 <= k < self.handles(self.node(lty).args).len() ==> (
                #[trigger] self.handles(self.node(lty).args)[k]).index() < lty.index(),
    {
    }

    /// Every handle of a stored sequence names a node.
    pub proof fn lemma_stored_contained(&self, args: ArgSlice)
        requires
            self.wf(),
            self.valid_args(args),
        ensures
            self.contains_all(self.handles(args)),
    {
    }

    /// Trees that a context held are the same in every context that
    /// extends it.
    pub proof fn lemma_trees_stable(&self, old: &Self, ltys: Seq<LabeledTy>)
        requires
            self.extends(old),
            old.contains_all(ltys),
        ensures
            self.contains_all(ltys),
            self.trees(ltys) == old.trees(ltys),
    {
    }

    /// A context without nodes.
    pub fn new() -> (ctx: Self)
        ensures
            ctx.wf(),
            ctx.node_count() == 0,
    {
        LabeledTyCtxt { nodes: Vec::new(), pool: Vec::new() }
    }

    /// Stores a list of handles as one sequence. The empty list is not
    /// stored: every context shares the one empty sequence.
    pub fn mk_slice(&mut self, ltys: &[LabeledTy]) -> (args: ArgSlice)
        requires
            old(self).wf(),
            old(self).contains_all(ltys@),
        ensures
            final(self).wf(),
            final(self).extends(old(self)),
            final(self).node_count() == old(self).node_count(),
            final(self).valid_args(args),
            final(self).handles(args) == ltys@,
            ltys@.len() == 0 ==> args == ArgSlice::nil() && *final(self) == *old(self),
    {
        if ltys.len() == 0 {
            proof {
                self.lemma_grow_extends(self);
            }
            return ArgSlice { start: 0, len: 0 };
        }
        let start: usize = self.pool.len();
        let mut i: usize = 0;
        while i < ltys.len()
            invariant
                i <= ltys.len(),
                old(self).wf(),
                old(self).contains_all(ltys@),
                self.nodes == old(self).nodes,
                start == old(self).pool@.len(),
                self.pool@.len() == start + i,
                self.pool@.subrange(0, start as int) == old(self).pool@,
                self.pool@.subrange(start as int, start + i) == ltys@.subrange(0, i as int),
            decreases ltys.len() - i,
        {
            let lty = ltys[i];
            self.pool.push(lty);
            i += 1;
        }
        let args = ArgSlice { start, len: ltys.len() };
        proof {
            assert forall|j: int| 0 <= j < self.pool@.len() implies (#[trigger] self.pool@[j]).idx
                < self.nodes@.len() by {
                if j < start {
                    assert(self.pool@[j] == self.pool@.subrange(0, start as int)[j]);
                } else {
                    assert(self.pool@[j] == self.pool@.subrange(start as int, start + i)[j - start]);
                }
            }
            assert forall|j: int| 0 <= j < old(self).pool@.len() implies self.pool@[j] == old(
                self,
            ).pool@[j] by {}
            self.lemma_grow_extends(old(self));
        }
        args
    }

    /// Makes a node from its three parts. This is the one place where a
    /// context gains a node.
    pub fn mk(&mut self, ty: Ty<'t>, args: ArgSlice, label: L) -> (lty: LabeledTy)
        requires
            old(self).wf(),
            old(self).valid_args(args),
        ensures
            final(self).wf(),
            final(self).extends(old(self)),
            final(self).node_count() == old(self).node_count() + 1,
            final(self).contains(lty),
            lty.index() == old(self).node_count(),
            final(self).node(lty) == (LabeledTyS { ty, args, label }),
            final(self).tree(lty) == (Tree {
                ty: *ty,
                args: old(self).trees(old(self).handles(args)),
                label,
            }),
    {
        let idx: usize = self.nodes.len();
        self.nodes.push(LabeledTyS { ty, args, label });
        let lty = LabeledTy { idx };
        proof {
            self.lemma_grow_extends(old(self));
            assert forall|k: int| 0 <= k < args.len implies #[trigger] self.tree(lty).args[k]
                == old(self).trees(old(self).handles(args))[k] by {
                let child = old(self).pool@[args.start + k];
                assert(old(self).contains(child));
            }
            assert(self.tree(lty).args =~= old(self).trees(old(self).handles(args)));
        }
        lty
    }

    /// Stores `ltys` and makes a node over them.
    fn mk_over(&mut self, ty: Ty<'t>, ltys: &[LabeledTy], label: L) -> (lty: LabeledTy)
        requires
            old(self).wf(),
            old(self).contains_all(ltys@),
        ensures
            final(self).wf(),
            final(self).extends(old(self)),
            final(self).contains(lty),
            final(self).tree(lty) == (Tree { ty: *ty, args: old(self).trees(ltys@), label }),
            final(self).node_count() == old(self).node_count() + 1,
            ltys@.len() == 0 ==> final(self).node(lty).args == ArgSlice::nil(),
    {
        let args = self.mk_slice(ltys);
        let ghost mid = *self;
        let lty = self.mk(ty, args, label);
        proof {
            assert(mid.trees(ltys@) =~= old(self).trees(ltys@));
        }
        lty
    }

    /// Builds the labeled tree of a type. `f` gives each node its label from
    /// the node's type, and is called on a node before it is called on the
    /// node's children.
    ///
    /// The children of a node are those of its type: none for an atomic
    /// kind, one for an array, slice, pointer or reference, the type
    /// arguments of a nominal type or function item, parameters and result
    /// of a function pointer, the elements of a tuple. Every other kind,
    /// a placeholder among them, gives a leaf.
    pub fn label<F: FnMut(Ty<'t>) -> L>(&mut self, ty: Ty<'t>, f: &mut F) -> (lty: LabeledTy)
        requires
            old(self).wf(),
            ty.admits(*old(f)),
        ensures
            final(self).wf(),
            final(self).extends(old(self)),
            final(self).contains(lty),
            final(self).tree(lty).mirrors(*ty),
            final(self).tree(lty).labeled_by(*old(f)),
            final(self).node_count() == old(self).node_count() + ty.size(),
            ty.args().len() == 0 ==> final(self).node(lty).args == ArgSlice::nil(),
            *final(f) == *old(f),
        decreases ty, 0nat,
    {
        proof {
            ty.lemma_size_unfold();
        }
        let label = f(ty);
        match &ty.sty {
            // Types with no arguments
            TypeVariants::TyBool
            | TypeVariants::TyChar
            | TypeVariants::TyInt(_)
            | TypeVariants::TyUint(_)
            | TypeVariants::TyFloat(_)
            | TypeVariants::TyStr
            | TypeVariants::TyNever => self.mk(ty, ArgSlice::empty(), label),
            // Types with arguments
            TypeVariants::TyAdt(_, substs) => {
                let args = self.label_all(substs, f);
                self.mk_over(ty, args.as_slice(), label)
            },
            TypeVariants::TyArray(elem, _) => {
                let args = self.label_one(elem, f);
                self.mk_over(ty, args.as_slice(), label)
            },
            TypeVariants::TySlice(elem) => {
                let args = self.label_one(elem, f);
                self.mk_over(ty, args.as_slice(), label)
            },
            TypeVariants::TyRawPtr(mty) => {
                let args = self.label_one(&mty.ty, f);
                self.mk_over(ty, args.as_slice(), label)
            },
            TypeVariants::TyRef(mty) => {
                let args = self.label_one(&mty.ty, f);
                self.mk_over(ty, args.as_slice(), label)
            },
            TypeVariants::TyFnDef(_, substs) => {
                let args = self.label_all(substs, f);
                self.mk_over(ty, args.as_slice(), label)
            },
            TypeVariants::TyFnPtr(sig) => {
                let args = self.label_all(&sig.inputs_and_output, f);
                self.mk_over(ty, args.as_slice(), label)
            },
            TypeVariants::TyTuple(elems) => {
                let args = self.label_all(elems, f);
                self.mk_over(ty, args.as_slice(), label)
            },
            // Types whose structure, if they have any, is not followed
            TypeVariants::TyDynamic
            | TypeVariants::TyClosure(_)
            | TypeVariants::TyProjection
            | TypeVariants::TyAnon(_)
            | TypeVariants::TyParam(_)
            | TypeVariants::TyInfer
            | TypeVariants::TyError => self.mk(ty, ArgSlice::empty(), label),
        }
    }

    /// Builds the tree of the one child of a wrapper type.
    fn label_one<F: FnMut(Ty<'t>) -> L>(&mut self, elem: &'t Box<TyS>, f: &mut F) -> (ltys: Vec<
        LabeledTy,
    >)
        requires
            old(self).wf(),
            elem.admits(*old(f)),
        ensures
            final(self).wf(),
            final(self).extends(old(self)),
            ltys@.len() == 1,
            final(self).contains(ltys@[0]),
            final(self).tree(ltys@[0]).mirrors(**elem),
            final(self).tree(ltys@[0]).labeled_by(*old(f)),
            final(self).node_count() == old(self).node_count() + elem.size(),
            *final(f) == *old(f),
        decreases elem, 1nat,
    {
        let child = self.label(&**elem, f);
        let mut ltys: Vec<LabeledTy> = Vec::new();
        ltys.push(child);
        ltys
    }

    /// Builds the trees of a type's children, in order.
    fn label_all<F: FnMut(Ty<'t>) -> L>(&mut self, tys: &'t Vec<TyS>, f: &mut F) -> (ltys: Vec<
        LabeledTy,
    >)
        requires
            old(self).wf(),
            forall|k: int| 0 <= k < tys@.len() ==> (#[trigger] tys@[k]).admits(*old(f)),
        ensures
            final(self).wf(),
            final(self).extends(old(self)),
            ltys@.len() == tys@.len(),
            forall|k: int|
                0 <= k < ltys@.len() ==> {
                    &&& final(self).contains(#[trigger] ltys@[k])
                    &&& final(self).tree(ltys@[k]).mirrors(tys@[k])
                    &&& final(self).tree(ltys@[k]).labeled_by(*old(f))
                },
            final(self).node_count() == old(self).node_count() + TyS::size_all(tys@),
            *final(f) == *old(f),
        decreases tys, 0nat,
    {
        let mut ltys: Vec<LabeledTy> = Vec::new();
        let mut i: usize = 0;
        while i < tys.len()
            invariant
                i <= tys.len(),
                ltys@.len() == i,
                self.wf(),
                self.extends(old(self)),
                self.node_count() == old(self).node_count() + TyS::size_all(tys@.take(i as int)),
                *f == *old(f),
                forall|k: int| 0 <= k < tys@.len() ==> (#[trigger] tys@[k]).admits(*f),
                forall|k: int|
                    0 <= k < i ==> {
                        &&& self.contains(#[trigger] ltys@[k])
                        &&& self.tree(ltys@[k]).mirrors(tys@[k])
                        &&& self.tree(ltys@[k]).labeled_by(*f)
                    },
            decreases tys.len() - i,
        {
            proof {
                assert(tys@.take(i + 1).drop_last() =~= tys@.take(i as int));
            }
            let child = self.label(&tys[i], f);
            ltys.push(child);
            i += 1;
        }
        proof {
            assert(tys@.take(i as int) =~= tys@);
        }
        ltys
    }

    /// Builds the trees of a list of types with one labeling function, in
    /// order, and stores their roots as one sequence.
    pub fn label_slice<F: FnMut(Ty<'t>) -> L>(&mut self, tys: &[Ty<'t>], f: &mut F) -> (args:
        ArgSlice)
        requires
            old(self).wf(),
            forall|k: int| 0 <= k < tys@.len() ==> (#[trigger] tys@[k]).admits(*old(f)),
        ensures
            final(self).wf(),
            final(self).extends(old(self)),
            final(self).valid_args(args),
            final(self).handles(args).len() == tys@.len(),
            forall|k: int|
                0 <= k < tys@.len() ==> {
                    &&& final(self).contains(#[trigger] final(self).handles(args)[k])
                    &&& final(self).tree(final(self).handles(args)[k]).mirrors(*tys@[k])
                    &&& final(self).tree(final(self).handles(args)[k]).labeled_by(*old(f))
                },
            final(self).node_count() == old(self).node_count() + TyS::size_all(pointees(tys@)),
            *final(f) == *old(f),
    {
        let mut ltys: Vec<LabeledTy> = Vec::new();
        let mut i: usize = 0;
        let ghost all = pointees(tys@);
        while i < tys.len()
            invariant
                i <= tys.len(),
                ltys@.len() == i,
                self.wf(),
                self.extends(old(self)),
                all == pointees(tys@),
                self.node_count() == old(self).node_count() + TyS::size_all(all.take(i as int)),
                *f == *old(f),
                forall|k: int| 0 <= k < tys@.len() ==> (#[trigger] tys@[k]).admits(*f),
                forall|k: int|
                    0 <= k < i ==> {
                        &&& self.contains(#[trigger] ltys@[k])
                        &&& self.tree(ltys@[k]).mirrors(*tys@[k])
                        &&& self.tree(ltys@[k]).labeled_by(*f)
                    },
            decreases tys.len() - i,
        {
            proof {
                assert(all.take(i + 1).drop_last() =~= all.take(i as int));
            }
            let child = self.label(tys[i], f);
            ltys.push(child);
            i += 1;
        }
        proof {
            assert(all.take(i as int) =~= all);
        }
        self.mk_slice(ltys.as_slice())
    }

    /// The node that a handle names.
    pub fn get(&self, lty: LabeledTy) -> (node: &LabeledTyS<'t, L>)
        requires
            self.contains(lty),
        ensures
            *node == self.node(lty),
            self.wf() ==> self.valid_args(node.args) && self.tree_of(*node) == self.tree(lty),
    {
        proof {
            if self.wf() {
                self.lemma_tree_unfold(lty);
            }
        }
        &self.nodes[lty.idx]
    }

    /// The handles of a stored sequence.
    pub fn slice(&self, args: ArgSlice) -> (ltys: &[LabeledTy])
        requires
            self.valid_args(args),
        ensures
            ltys@ == self.handles(args),
    {
        let stored: usize = self.pool.len();
        assert(args.end() <= stored);
        slice_subrange(self.pool.as_slice(), args.start, args.start + args.len)
    }

    /// The children of a node, in order.
    pub fn args(&self, lty: LabeledTy) -> (ltys: &[LabeledTy])
        requires
            self.wf(),
            self.contains(lty),
        ensures
            ltys@ == self.handles(self.node(lty).args),
            self.contains_all(ltys@),
            self.trees(ltys@) == self.tree(lty).args,
            forall|k: int| 0 <= k < ltys@.len() ==> (#[trigger] ltys@[k]).index() < lty.index(),
    {
        proof {
            self.lemma_tree_unfold(lty);
        }
        self.slice(self.nodes[lty.idx].args)
    }

    /// The kind of the type that a node stands for.
    pub fn sty(&self, lty: LabeledTy) -> (kind: &TypeVariants)
        requires
            self.wf(),
            self.contains(lty),
        ensures
            *kind == self.tree(lty).ty.sty,
    {
        proof {
            self.lemma_tree_unfold(lty);
        }
        &self.nodes[lty.idx].ty.sty
    }

    /// The number of children of a node.
    pub fn num_args(&self, lty: LabeledTy) -> (n: usize)
        requires
            self.wf(),
            self.contains(lty),
        ensures
            n == self.tree(lty).args.len(),
    {
        proof {
            self.lemma_tree_unfold(lty);
        }
        self.nodes[lty.idx].args.len
    }

    /// The child of a node at position `idx`.
    pub fn arg(&self, lty: LabeledTy, idx: usize) -> (child: LabeledTy)
        requires
            self.wf(),
            self.contains(lty),
            idx < self.tree(lty).args.len(),
        ensures
            self.contains(child),
            child.index() < lty.index(),
            self.tree(child) == self.tree(lty).args[idx as int],
    {
        let args = self.args(lty);
        args[idx]
    }

    /// Whether a handle names a node of this context.
    pub fn has_node(&self, lty: LabeledTy) -> (b: bool)
        ensures
            b == self.contains(lty),
    {
        lty.idx < self.nodes.len()
    }

    /// Whether a handle names a sequence stored in this context.
    pub fn has_slice(&self, args: ArgSlice) -> (b: bool)
        ensures
            b == self.valid_args(args),
    {
        args.len <= self.pool.len() && args.start <= self.pool.len() - args.len
    }

    /// The number of nodes made so far.
    pub fn len(&self) -> (n: usize)
        ensures
            n == self.node_count(),
    {
        self.nodes.len()
    }

    /// Appends to `out` the labels of the tree below `lty`, in pre-order.
    fn push_labels<'a>(&'a self, lty: LabeledTy, out: &mut Vec<&'a L>)
        requires
            self.wf(),
            self.contains(lty),
        ensures
            pointees(final(out)@) == pointees(old(out)@) + self.tree(lty).labels(),
        decreases lty.index(),
    {
        proof {
            self.lemma_tree_unfold(lty);
        }
        out.push(&self.nodes[lty.idx].label);
        let args = self.args(lty);
        let ghost tree = self.tree(lty);
        let ghost first = pointees(old(out)@);
        let mut i: usize = 0;
        while i < args.len()
            invariant
                i <= args.len(),
                self.wf(),
                self.contains_all(args@),
                tree == self.tree(lty),
                self.trees(args@) == tree.args,
                forall|k: int| 0 <= k < args@.len() ==> (#[trigger] args@[k]).index() < lty.index(),
                pointees(out@) == first + seq![tree.label] + Tree::labels_all(
                    tree.args.take(i as int),
                ),
            decreases args.len() - i,
        {
            proof {
                assert(tree.args.take(i + 1).drop_last() =~= tree.args.take(i as int));
            }
            self.push_labels(args[i], out);
            i += 1;
        }
        proof {
            assert(tree.args.take(i as int) =~= tree.args);
        }
    }

    /// Builds, in this context, the tree below `lty` of `src` with every
    /// label replaced by what `func` returns for it.
    pub fn relabel<L2, F: FnMut(&L2) -> L>(
        &mut self,
        src: &LabeledTyCtxt<'t, L2>,
        lty: LabeledTy,
        func: &mut F,
    ) -> (out: LabeledTy)
        requires
            old(self).wf(),
            src.wf(),
            src.contains(lty),
            src.tree(lty).admits(*old(func)),
        ensures
            final(self).wf(),
            final(self).extends(old(self)),
            final(self).contains(out),
            src.tree(lty).relabeled_by(*old(func), final(self).tree(out)),
            final(self).node_count() == old(self).node_count() + src.tree(lty).size(),
            *final(func) == *old(func),
        decreases lty.index(), 1nat,
    {
        let node = src.get(lty);
        let children = src.args(lty);
        proof {
            src.lemma_tree_unfold(lty);
            LabeledTy::lemma_bound_least(children@, lty.index());
            assert forall|k: int| 0 <= k < children@.len() implies src.tree(
                #[trigger] children@[k],
            ).admits(*func) by {
                assert(src.tree(children@[k]) == src.tree(lty).args[k]);
            }
        }
        let args = self.relabel_slice(src, children, func);
        let label = func(&node.label);
        self.mk(node.ty, args, label)
    }

    /// Relabels each tree of a list, in order, and stores the new roots as
    /// one sequence.
    pub fn relabel_slice<L2, F: FnMut(&L2) -> L>(
        &mut self,
        src: &LabeledTyCtxt<'t, L2>,
        ltys: &[LabeledTy],
        func: &mut F,
    ) -> (args: ArgSlice)
        requires
            old(self).wf(),
            src.wf(),
            src.contains_all(ltys@),
            forall|k: int| 0 <= k < ltys@.len() ==> src.tree(#[trigger] ltys@[k]).admits(*old(func)),
        ensures
            final(self).wf(),
            final(self).extends(old(self)),
            final(self).valid_args(args),
            final(self).handles(args).len() == ltys@.len(),
            forall|k: int|
                0 <= k < ltys@.len() ==> {
                    &&& final(self).contains(#[trigger] final(self).handles(args)[k])
                    &&& src.tree(ltys@[k]).relabeled_by(
                        *old(func),
                        final(self).tree(final(self).handles(args)[k]),
                    )
                },
            final(self).node_count() == old(self).node_count() + Tree::size_all(src.trees(ltys@)),
            *final(func) == *old(func),
        decreases LabeledTy::bound(ltys@), 0nat,
    {
        let mut outs: Vec<LabeledTy> = Vec::new();
        let mut i: usize = 0;
        let ghost trees = src.trees(ltys@);
        while i < ltys.len()
            invariant
                i <= ltys.len(),
                outs@.len() == i,
                self.wf(),
                self.extends(old(self)),
                trees == src.trees(ltys@),
                self.node_count() == old(self).node_count() + Tree::size_all(trees.take(i as int)),
                src.wf(),
                src.contains_all(ltys@),
                *func == *old(func),
                forall|k: int| 0 <= k < ltys@.len() ==> src.tree(#[trigger] ltys@[k]).admits(*func),
                forall|k: int|
                    0 <= k < i ==> {
                        &&& self.contains(#[trigger] outs@[k])
                        &&& src.tree(ltys@[k]).relabeled_by(*func, self.tree(outs@[k]))
                    },
            decreases ltys.len() - i,
        {
            proof {
                LabeledTy::lemma_bound_above(ltys@, i as int);
                assert(trees.take(i + 1).drop_last() =~= trees.take(i as int));
            }
            let out = self.relabel(src, ltys[i], func);
            outs.push(out);
            i += 1;
        }
        proof {
            assert(trees.take(i as int) =~= trees);
        }
        self.mk_slice(outs.as_slice())
    }
}

impl<'t, L> LabeledTyS<'t, L> {
    /// The labels of the tree whose root this node is, in pre-order: a
    /// node's label first, then those of its children from left to right.
    pub fn labels<'a>(&'a self, ctx: &'a LabeledTyCtxt<'t, L>) -> (out: Vec<&'a L>)
        requires
            ctx.wf(),
            ctx.valid_args(self.args),
        ensures
            pointees(out@) == ctx.tree_of(*self).labels(),
    {
        let mut out: Vec<&'a L> = Vec::new();
        out.push(&self.label);
        let args = ctx.slice(self.args);
        let ghost tree = ctx.tree_of(*self);
        proof {
            ctx.lemma_stored_contained(self.args);
        }
        let mut i: usize = 0;
        while i < args.len()
            invariant
                i <= args.len(),
                ctx.wf(),
                ctx.contains_all(args@),
                ctx.trees(args@) == tree.args,
                pointees(out@) == seq![tree.label] + Tree::labels_all(tree.args.take(i as int)),
            decreases args.len() - i,
        {
            proof {
                assert(tree.args.take(i + 1).drop_last() =~= tree.args.take(i as int));
            }
            ctx.push_labels(args[i], &mut out);
            i += 1;
        }
        proof {
            assert(tree.args.take(i as int) =~= tree.args);
        }
        out
    }

    /// Calls `callback` on every label of the tree whose root this node is,
    /// once for each node and in the order of `labels`. Afterwards, what
    /// `callback` promises on its return holds of a call on each label.
    pub fn for_each_label<'a, F: FnMut(&'a L)>(
        &'a self,
        ctx: &'a LabeledTyCtxt<'t, L>,
        callback: &mut F,
    )
        requires
            ctx.wf(),
            ctx.valid_args(self.args),
            ctx.tree_of(*self).admits(*old(callback)),
        ensures
            ctx.tree_of(*self).visited_by(*old(callback)),
            *final(callback) == *old(callback),
    {
        let labels = self.labels(ctx);
        let ghost all = ctx.tree_of(*self).labels();
        proof {
            ctx.tree_of(*self).lemma_every_label_labels(|l: L| call_requires(*callback, (&l,)));
        }
        let mut i: usize = 0;
        while i < labels.len()
            invariant
                i <= labels.len(),
                pointees(labels@) == all,
                forall|k: int| 0 <= k < all.len() ==> call_requires(*callback, (&#[trigger] all[k],)),
                forall|k: int| 0 <= k < i ==> call_ensures(*callback, (&#[trigger] all[k],), ()),
                *callback == *old(callback),
            decreases labels.len() - i,
        {
            assert(all[i as int] == *labels@[i as int]);
            callback(labels[i]);
            i += 1;
        }
        proof {
            ctx.tree_of(*self).lemma_every_label_labels(|l: L| call_ensures(*callback, (&l,), ()));
        }
    }
}

impl<'t, L: Clone> LabeledTyCtxt<'t, L> {
    /// Replaces every placeholder below `lty` by the tree that `substs`
    /// holds at the placeholder's index. The replaced leaf becomes that very
    /// tree, shared and not copied; every other node is made anew, with its
    /// type and a clone of its label.
    ///
    /// Fails at the first placeholder, in pre-order, whose index `substs`
    /// does not reach.
    pub fn subst(&mut self, lty: LabeledTy, substs: &[LabeledTy]) -> (res: Result<
        LabeledTy,
        SubstError,
    >)
        requires
            old(self).wf(),
            old(self).contains(lty),
            old(self).contains_all(substs@),
        ensures
            final(self).wf(),
            final(self).extends(old(self)),
            match res {
                Ok(out) => {
                    &&& old(self).tree(lty).first_unbound(substs@.len()) is None
                    &&& final(self).contains(out)
                    &&& old(self).tree(lty).substituted(
                        old(self).trees(substs@),
                        final(self).tree(out),
                    )
                    &&& old(self).tree(lty).ty.param_idx() matches Some(idx) ==> out
                        == substs@[idx as int]
                },
                Err(e) => {
                    &&& old(self).tree(lty).first_unbound(substs@.len()) matches Some(idx)
                    &&& e == (SubstError::IndexOutOfRange { index: idx, len: substs.len() })
                },
            },
        decreases lty.index(), 1nat,
    {
        proof {
            self.lemma_tree_unfold(lty);
            self.lemma_grow_extends(self);
        }
        let node = &self.nodes[lty.idx];
        match &node.ty.sty {
            TypeVariants::TyParam(tp) => {
                let idx: usize = tp.idx as usize;
                if idx < substs.len() {
                    Ok(substs[idx])
                } else {
                    Err(SubstError::IndexOutOfRange { index: tp.idx, len: substs.len() })
                }
            },
            _ => {
                let ty = node.ty;
                let label = node.label.clone();
                let children = slice_to_vec(self.args(lty));
                proof {
                    LabeledTy::lemma_bound_least(children@, lty.index());
                }
                match self.subst_slice(children.as_slice(), substs) {
                    Ok(args) => Ok(self.mk(ty, args, label)),
                    Err(e) => Err(e),
                }
            },
        }
    }

    /// Substitutes into each tree of a list, in order, and stores the new
    /// roots as one sequence. Fails where the first of them fails.
    pub fn subst_slice(&mut self, ltys: &[LabeledTy], substs: &[LabeledTy]) -> (res: Result<
        ArgSlice,
        SubstError,
    >)
        requires
            old(self).wf(),
            old(self).contains_all(ltys@),
            old(self).contains_all(substs@),
        ensures
            final(self).wf(),
            final(self).extends(old(self)),
            match res {
                Ok(args) => {
                    &&& Tree::first_unbound_all(old(self).trees(ltys@), substs@.len()) is None
                    &&& final(self).valid_args(args)
                    &&& final(self).handles(args).len() == ltys@.len()
                    &&& forall|k: int|
                        0 <= k < ltys@.len() ==> {
                            &&& final(self).contains(#[trigger] final(self).handles(args)[k])
                            &&& old(self).tree(ltys@[k]).substituted(
                                old(self).trees(substs@),
                                final(self).tree(final(self).handles(args)[k]),
                            )
                        }
                },
                Err(e) => {
                    &&& Tree::first_unbound_all(
                        old(self).trees(ltys@),
                        substs@.len(),
                    ) matches Some(idx)
                    &&& e == (SubstError::IndexOutOfRange { index: idx, len: substs.len() })
                },
            },
        decreases LabeledTy::bound(ltys@), 0nat,
    {
        let ghost trees = self.trees(ltys@);
        let ghost n = substs@.len();
        let mut outs: Vec<LabeledTy> = Vec::new();
        let mut i: usize = 0;
        proof {
            self.lemma_grow_extends(self);
        }
        while i < ltys.len()
            invariant
                i <= ltys.len(),
                outs@.len() == i,
                self.wf(),
                self.extends(old(self)),
                old(self).wf(),
                old(self).contains_all(ltys@),
                old(self).contains_all(substs@),
                trees == old(self).trees(ltys@),
                n == substs@.len(),
                Tree::first_unbound_all(trees.take(i as int), n) is None,
                forall|k: int|
                    0 <= k < i ==> {
                        &&& self.contains(#[trigger] outs@[k])
                        &&& old(self).tree(ltys@[k]).substituted(
                            old(self).trees(substs@),
                            self.tree(outs@[k]),
                        )
                    },
            decreases ltys.len() - i,
        {
            let ghost prev = *self;
            proof {
                LabeledTy::lemma_bound_above(ltys@, i as int);
                prev.lemma_trees_stable(old(self), substs@);
                assert(trees.take(i + 1).drop_last() =~= trees.take(i as int));
            }
            match self.subst(ltys[i], substs) {
                Ok(out) => {
                    outs.push(out);
                },
                Err(e) => {
                    proof {
                        Tree::lemma_first_unbound_at(trees, n, i as int);
                    }
                    return Err(e);
                },
            }
            i += 1;
        }
        proof {
            assert(trees.take(i as int) =~= trees);
        }
        Ok(self.mk_slice(outs.as_slice()))
    }
}

} // verus!
