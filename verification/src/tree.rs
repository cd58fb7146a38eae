//! The mathematical model of a labeled type tree, and what the operations of
//! this library compute, stated over that model.

use crate::ty::{Ty, TyS, TypeVariants};
use vstd::prelude::*;

verus! {

/// A labeled type tree as a value: the host type of the root, the subtrees in
/// order, and the root's label.
pub struct Tree<L> {
    pub ty: TyS,
    pub args: Seq<Tree<L>>,
    pub label: L,
}

impl TyS {
    /// The number of nodes of a type: the type itself and all that lies below it.
    pub open spec fn size(&self) -> nat
        decreases self,
    {
        match self.sty {
            TypeVariants::TyAdt(_, substs) => 1 + Self::size_all(substs@),
            TypeVariants::TyArray(elem, _) => 1 + elem.size(),
            TypeVariants::TySlice(elem) => 1 + elem.size(),
            TypeVariants::TyRawPtr(mty) => 1 + mty.ty.size(),
            TypeVariants::TyRef(mty) => 1 + mty.ty.size(),
            TypeVariants::TyFnDef(_, substs) => 1 + Self::size_all(substs@),
            TypeVariants::TyFnPtr(sig) => 1 + Self::size_all(sig.inputs_and_output@),
            TypeVariants::TyTuple(elems) => 1 + Self::size_all(elems@),
            _ => 1,
        }
    }

    /// `p` holds of this type and of every type below it.
    pub open spec fn every(&self, p: spec_fn(TyS) -> bool) -> bool
        decreases self,
    {
        &&& p(*self)
        &&& forall|i: int| 0 <= i < self.args().len() ==> (#[trigger] self.args()[i]).every(p)
    }

    /// `f` may be called on this type and on every type below it.
    pub open spec fn admits<'t, L, F: FnMut(Ty<'t>) -> L>(&self, f: F) -> bool {
        self.every(|t: TyS| call_requires(f, (&t,)))
    }

    /// The tree of this type in which every node carries what `f` gives for
    /// the node's type.
    pub open spec fn labeled<L>(&self, f: spec_fn(TyS) -> L) -> Tree<L>
        decreases self,
    {
        Tree {
            ty: *self,
            args: Seq::new(
                self.args().len(),
                |i: int|
                    if 0 <= i < self.args().len() {
                        self.args()[i].labeled(f)
                    } else {
                        arbitrary()
                    },
            ),
            label: f(*self),
        }
    }

    /// The number of nodes of a list of types.
    pub open spec fn size_all(tys: Seq<TyS>) -> nat
        decreases tys,
    {
        if tys.len() == 0 {
            0
        } else {
            Self::size_all(tys.drop_last()) + tys.last().size()
        }
    }
}

impl<L> Tree<L> {
    /// The number of nodes.
    pub open spec fn size(self) -> nat
        decreases self,
    {
        1 + Self::size_all(self.args)
    }

    /// The number of nodes of a list of trees.
    pub open spec fn size_all(trees: Seq<Tree<L>>) -> nat
        decreases trees,
    {
        if trees.len() == 0 {
            0
        } else {
            Self::size_all(trees.drop_last()) + trees.last().size()
        }
    }

    /// The labels in pre-order: a node's label, then those of its subtrees
    /// from left to right.
    pub open spec fn labels(self) -> Seq<L>
        decreases self,
    {
        seq![self.label] + Self::labels_all(self.args)
    }

    /// The labels of a list of trees, tree after tree, each in pre-order.
    pub open spec fn labels_all(trees: Seq<Tree<L>>) -> Seq<L>
        decreases trees,
    {
        if trees.len() == 0 {
            Seq::empty()
        } else {
            Self::labels_all(trees.drop_last()) + trees.last().labels()
        }
    }

    /// The tree has the shape of `ty`: the root stands for `ty`, and the
    /// subtrees stand, one for one and in order, for the children of `ty`.
    pub open spec fn mirrors(self, ty: TyS) -> bool
        decreases self,
    {
        &&& self.ty == ty
        &&& self.args.len() == ty.args().len()
        &&& forall|i: int|
            0 <= i < self.args.len() ==> (#[trigger] self.args[i]).mirrors(ty.args()[i])
    }

    /// `rel` holds between the type and the label of every node.
    pub open spec fn labeled_with(self, rel: spec_fn(TyS, L) -> bool) -> bool
        decreases self,
    {
        &&& rel(self.ty, self.label)
        &&& forall|i: int| 0 <= i < self.args.len() ==> (#[trigger] self.args[i]).labeled_with(rel)
    }

    /// Every label is what `f` returned for the type of its node.
    pub open spec fn labeled_by<'t, F: FnMut(Ty<'t>) -> L>(self, f: F) -> bool {
        self.labeled_with(|t: TyS, l: L| call_ensures(f, (&t,), l))
    }

    /// `p` holds of every label of the tree.
    pub open spec fn every_label(self, p: spec_fn(L) -> bool) -> bool
        decreases self,
    {
        &&& p(self.label)
        &&& forall|i: int| 0 <= i < self.args.len() ==> (#[trigger] self.args[i]).every_label(p)
    }

    /// `f` may be called on every label of the tree.
    pub open spec fn admits<'a, M, F: FnMut(&'a L) -> M>(self, f: F) -> bool where L: 'a {
        self.every_label(|l: L| call_requires(f, (&l,)))
    }

    /// What `f` promises on its return from a call holds of a call on every
    /// label of the tree.
    pub open spec fn visited_by<'a, F: FnMut(&'a L)>(self, f: F) -> bool where L: 'a {
        self.every_label(|l: L| call_ensures(f, (&l,), ()))
    }

    /// `out` is this tree with other labels: the same types, the same number
    /// of subtrees at every node, and `rel` between the label of each node
    /// and the label of the node in its place.
    pub open spec fn relabeled_with<M>(self, rel: spec_fn(L, M) -> bool, out: Tree<M>) -> bool
        decreases self,
    {
        &&& out.ty == self.ty
        &&& rel(self.label, out.label)
        &&& out.args.len() == self.args.len()
        &&& forall|i: int|
            0 <= i < self.args.len() ==> (#[trigger] self.args[i]).relabeled_with(rel, out.args[i])
    }

    /// `out` is this tree with every label replaced by what `f` returned for
    /// it.
    pub open spec fn relabeled_by<'a, M, F: FnMut(&'a L) -> M>(
        self,
        f: F,
        out: Tree<M>,
    ) -> bool where L: 'a {
        self.relabeled_with(|l: L, m: M| call_ensures(f, (&l,), m), out)
    }

    /// The same tree with `f` applied to every label.
    pub open spec fn map_labels<M>(self, f: spec_fn(L) -> M) -> Tree<M>
        decreases self,
    {
        Tree {
            ty: self.ty,
            args: Seq::new(
                self.args.len(),
                |i: int|
                    if 0 <= i < self.args.len() {
                        self.args[i].map_labels(f)
                    } else {
                        arbitrary()
                    },
            ),
            label: f(self.label),
        }
    }

    /// Every placeholder of the tree has an index below `n`. What lies
    /// below a placeholder does not count: substitution replaces it whole.
    pub open spec fn bound_by(self, n: nat) -> bool
        decreases self,
    {
        match self.ty.param_idx() {
            Some(idx) => idx < n,
            None => forall|i: int|
                0 <= i < self.args.len() ==> (#[trigger] self.args[i]).bound_by(n),
        }
    }

    /// The first placeholder, in pre-order, whose index is not below `n`.
    pub open spec fn first_unbound(self, n: nat) -> Option<u32>
        decreases self,
    {
        match self.ty.param_idx() {
            Some(idx) => if idx < n {
                None
            } else {
                Some(idx)
            },
            None => Self::first_unbound_all(self.args, n),
        }
    }

    /// The first placeholder of a list of trees whose index is not below `n`.
    pub open spec fn first_unbound_all(trees: Seq<Tree<L>>, n: nat) -> Option<u32>
        decreases trees,
    {
        if trees.len() == 0 {
            None
        } else {
            match Self::first_unbound_all(trees.drop_last(), n) {
                Some(idx) => Some(idx),
                None => trees.last().first_unbound(n),
            }
        }
    }

    /// The tree with every placeholder replaced by the tree that `substs`
    /// holds at the placeholder's index. Meant for trees whose placeholders
    /// are all below `substs.len()`.
    pub open spec fn subst(self, substs: Seq<Tree<L>>) -> Tree<L>
        decreases self,
    {
        match self.ty.param_idx() {
            Some(idx) => substs[idx as int],
            None => Tree {
                ty: self.ty,
                args: Seq::new(
                    self.args.len(),
                    |i: int|
                        if 0 <= i < self.args.len() {
                            self.args[i].subst(substs)
                        } else {
                            arbitrary()
                        },
                ),
                label: self.label,
            },
        }
    }
}

impl<L: Clone> Tree<L> {
    /// `out` is this tree after substitution: a placeholder has become the
    /// tree that `substs` holds at its index, as it stands there; every other
    /// node keeps its type, carries a clone of its label, and has its
    /// subtrees substituted in turn.
    pub open spec fn substituted(self, substs: Seq<Tree<L>>, out: Tree<L>) -> bool
        decreases self,
    {
        match self.ty.param_idx() {
            Some(idx) => idx < substs.len() && out == substs[idx as int],
            None => {
                &&& out.ty == self.ty
                &&& cloned(self.label, out.label)
                &&& out.args.len() == self.args.len()
                &&& forall|i: int|
                    0 <= i < self.args.len() ==> (#[trigger] self.args[i]).substituted(
                        substs,
                        out.args[i],
                    )
            },
        }
    }
}

} // verus!
