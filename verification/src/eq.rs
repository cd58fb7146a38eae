//! Structural equality of labeled type trees: two trees are alike when their
//! types are alike, their labels are equal, and their children are alike one
//! for one. Where the trees are stored, and whether they share nodes, plays
//! no part.

use crate::labeled_ty::{LabeledTy, LabeledTyCtxt};
use crate::tree::Tree;
use vstd::prelude::*;
use vstd::std_specs::cmp::PartialEqSpec;

verus! {

impl<L> Tree<L> {
    /// The trees agree in shape and types, and `eq` holds between the labels
    /// at every place.
    pub open spec fn alike_with(self, other: Tree<L>, eq: spec_fn(L, L) -> bool) -> bool
        decreases self,
    {
        &&& self.ty.alike(&other.ty)
        &&& eq(self.label, other.label)
        &&& self.args.len() == other.args.len()
        &&& forall|i: int|
            0 <= i < self.args.len() ==> (#[trigger] self.args[i]).alike_with(other.args[i], eq)
    }
}

impl<L: PartialEq> Tree<L> {
    /// The trees agree in shape and types, and the labels at every place are
    /// equal by the equality of the label type.
    pub open spec fn alike(self, other: Tree<L>) -> bool {
        self.alike_with(other, |a: L, b: L| a.eq_spec(&b))
    }
}

impl<'t, L: PartialEq> LabeledTyCtxt<'t, L> {
    /// Whether the tree below `a` in this context and the tree below `b` in
    /// `other` are alike.
    pub fn same_tree(&self, a: LabeledTy, other: &LabeledTyCtxt<'t, L>, b: LabeledTy) -> (same:
        bool)
        requires
            self.wf(),
            other.wf(),
            self.contains(a),
            other.contains(b),
        ensures
            L::obeys_eq_spec() ==> same == self.tree(a).alike(other.tree(b)),
        decreases a.index(),
    {
        let x = self.get(a);
        let y = other.get(b);
        if !x.ty.same(y.ty) {
            return false;
        }
        if !(x.label == y.label) {
            return false;
        }
        let xs = self.args(a);
        let ys = other.args(b);
        if xs.len() != ys.len() {
            return false;
        }
        let ghost s = self.tree(a);
        let ghost o = other.tree(b);
        let ghost eq = |p: L, q: L| p.eq_spec(&q);
        let mut i: usize = 0;
        while i < xs.len()
            invariant
                i <= xs.len(),
                xs.len() == ys.len(),
                self.wf(),
                other.wf(),
                self.contains_all(xs@),
                other.contains_all(ys@),
                s == self.tree(a),
                o == other.tree(b),
                self.trees(xs@) == s.args,
                other.trees(ys@) == o.args,
                forall|k: int| 0 <= k < xs@.len() ==> (#[trigger] xs@[k]).index() < a.index(),
                eq == (|p: L, q: L| p.eq_spec(&q)),
                L::obeys_eq_spec() ==> forall|k: int|
                    0 <= k < i ==> (#[trigger] s.args[k]).alike_with(o.args[k], eq),
            decreases xs.len() - i,
        {
            assert(self.tree(xs@[i as int]) == s.args[i as int]);
            if !self.same_tree(xs[i], other, ys[i]) {
                return false;
            }
            i += 1;
        }
        true
    }
}

} // verus!
