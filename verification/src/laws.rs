//! What holds of every labeled type tree, proved over the model.

use crate::tree::Tree;
use crate::ty::{TyS, TypeVariants};
use vstd::prelude::*;

verus! {

impl TyS {
    /// A type has one node more than its children have together.
    pub proof fn lemma_size_unfold(&self)
        ensures
            self.size() == 1 + Self::size_all(self.args()),
    {
        let args = self.args();
        if args.len() == 1 {
            assert(Self::size_all(args.drop_last()) == 0);
        }
    }

    /// A type of a kind whose structure is not followed has no children.
    pub proof fn lemma_unsupported_no_args(&self)
        requires
            self.is_unsupported(),
        ensures
            self.args().len() == 0,
            self.size() == 1,
    {
    }

    /// The tree that `labeled` gives has the shape of the type, and every
    /// label in it is what `f` gives for the type of its node.
    pub proof fn lemma_labeled_mirrors<L>(&self, f: spec_fn(TyS) -> L)
        ensures
            self.labeled(f).mirrors(*self),
            self.labeled(f).labeled_with(|t: TyS, l: L| l == f(t)),
        decreases self,
    {
        let tree = self.labeled(f);
        let rel = |t: TyS, l: L| l == f(t);
        assert forall|i: int| 0 <= i < tree.args.len() implies (#[trigger] tree.args[i]).mirrors(
            self.args()[i],
        ) && tree.args[i].labeled_with(rel) by {
            self.args()[i].lemma_labeled_mirrors(f);
        }
    }

    /// The children of a type are what its kind carries.
    proof fn lemma_args_cases(&self)
        ensures
            match self.sty {
                TypeVariants::TyAdt(_, s) => self.args() == s@,
                TypeVariants::TyArray(x, _) => self.args().len() == 1 && self.args()[0] == *x,
                TypeVariants::TySlice(x) => self.args().len() == 1 && self.args()[0] == *x,
                TypeVariants::TyRawPtr(m) => self.args().len() == 1 && self.args()[0] == *m.ty,
                TypeVariants::TyRef(m) => self.args().len() == 1 && self.args()[0] == *m.ty,
                TypeVariants::TyFnDef(_, s) => self.args() == s@,
                TypeVariants::TyFnPtr(sig) => self.args() == sig.inputs_and_output@,
                TypeVariants::TyTuple(s) => self.args() == s@,
                _ => self.args().len() == 0,
            },
    {
    }

    /// Every type is alike itself.
    pub proof fn lemma_alike_refl(&self)
        ensures
            self.alike(self),
        decreases self,
    {
        self.lemma_args_cases();
        assert forall|i: int| 0 <= i < self.args().len() implies (#[trigger] self.args()[i]).alike(
            &self.args()[i],
        ) by {
            self.args()[i].lemma_alike_refl();
        }
        assert(Self::alike_all(self.args(), self.args()));
    }

    /// Where one type is alike another, that one is alike the first.
    pub proof fn lemma_alike_sym(&self, other: &TyS)
        requires
            self.alike(other),
        ensures
            other.alike(self),
        decreases self,
    {
        self.lemma_args_cases();
        other.lemma_args_cases();
        assert(Self::alike_all(self.args(), other.args()));
        assert forall|i: int| 0 <= i < other.args().len() implies (#[trigger] other.args()[i]).alike(
            &self.args()[i],
        ) by {
            self.args()[i].lemma_alike_sym(&other.args()[i]);
        }
        assert(Self::alike_all(other.args(), self.args()));
    }

    /// Types that are alike one and the same type are alike each other.
    pub proof fn lemma_alike_trans(&self, mid: &TyS, other: &TyS)
        requires
            self.alike(mid),
            mid.alike(other),
        ensures
            self.alike(other),
        decreases self,
    {
        self.lemma_args_cases();
        mid.lemma_args_cases();
        other.lemma_args_cases();
        assert(Self::alike_all(self.args(), mid.args()));
        assert(Self::alike_all(mid.args(), other.args()));
        assert forall|i: int| 0 <= i < self.args().len() implies (#[trigger] self.args()[i]).alike(
            &other.args()[i],
        ) by {
            self.args()[i].lemma_alike_trans(&mid.args()[i], &other.args()[i]);
        }
        assert(Self::alike_all(self.args(), other.args()));
    }

    /// Types that are alike have children that are alike, and are placeholder,
    /// atomic or not followed together.
    pub proof fn lemma_alike_args(&self, other: &TyS)
        requires
            self.alike(other),
        ensures
            Self::alike_all(self.args(), other.args()),
            self.param_idx() == other.param_idx(),
            self.is_atomic() == other.is_atomic(),
            self.is_unsupported() == other.is_unsupported(),
    {
    }

    /// An atomic type has no children.
    pub proof fn lemma_atomic_no_args(&self)
        requires
            self.is_atomic(),
        ensures
            self.args().len() == 0,
            self.size() == 1,
            self.param_idx() is None,
    {
    }
}

impl<L> Tree<L> {
    /// A tree has as many labels as nodes.
    pub proof fn lemma_labels_len(self)
        ensures
            self.labels().len() == self.size(),
        decreases self,
    {
        Self::lemma_labels_all_len(self.args);
    }

    /// A list of trees has as many labels as nodes.
    pub proof fn lemma_labels_all_len(trees: Seq<Tree<L>>)
        ensures
            Self::labels_all(trees).len() == Self::size_all(trees),
        decreases trees,
    {
        if trees.len() > 0 {
            Self::lemma_labels_all_len(trees.drop_last());
            trees.last().lemma_labels_len();
        }
    }

    /// A tree that has the shape of a type has as many nodes as the type,
    /// and so as many labels.
    pub proof fn lemma_mirror_size(self, ty: TyS)
        requires
            self.mirrors(ty),
        ensures
            self.size() == ty.size(),
            self.labels().len() == ty.size(),
        decreases self,
    {
        ty.lemma_size_unfold();
        Self::lemma_mirror_size_all(self.args, ty.args());
        self.lemma_labels_len();
    }

    /// Lists of trees and of types that agree one for one have the same
    /// number of nodes.
    pub proof fn lemma_mirror_size_all(trees: Seq<Tree<L>>, tys: Seq<TyS>)
        requires
            trees.len() == tys.len(),
            forall|i: int| 0 <= i < trees.len() ==> (#[trigger] trees[i]).mirrors(tys[i]),
        ensures
            Self::size_all(trees) == TyS::size_all(tys),
        decreases trees,
    {
        if trees.len() > 0 {
            Self::lemma_mirror_size_all(trees.drop_last(), tys.drop_last());
            trees.last().lemma_mirror_size(tys.last());
        }
    }

    /// Shape and labels fix a tree: where `rel` links every type `t` to
    /// nothing but `f(t)`, a tree that has the shape of `ty` and is labeled
    /// with `rel` is the tree that `labeled` gives.
    pub proof fn lemma_labeled_unique(self, ty: TyS, rel: spec_fn(TyS, L) -> bool, f: spec_fn(TyS) -> L)
        requires
            self.mirrors(ty),
            self.labeled_with(rel),
            forall|t: TyS, l: L| #[trigger] rel(t, l) ==> l == f(t),
        ensures
            self == ty.labeled(f),
        decreases self,
    {
        assert forall|i: int| 0 <= i < self.args.len() implies self.args[i] == (
        #[trigger] ty.labeled(f).args[i]) by {
            self.args[i].lemma_labeled_unique(ty.args()[i], rel, f);
        }
        assert(self.args =~= ty.labeled(f).args);
    }

    /// A tree for an atomic type is a single node.
    pub proof fn lemma_atomic_leaf(self, ty: TyS)
        requires
            self.mirrors(ty),
            ty.is_atomic(),
        ensures
            self.args.len() == 0,
            self.size() == 1,
            self.labels() == seq![self.label],
    {
        ty.lemma_atomic_no_args();
    }

    /// A property holds of every label of a tree exactly when it holds at
    /// every place of the tree's pre-order.
    pub proof fn lemma_every_label_labels(self, p: spec_fn(L) -> bool)
        ensures
            self.every_label(p) <==> forall|i: int|
                0 <= i < self.labels().len() ==> p(#[trigger] self.labels()[i]),
        decreases self,
    {
        Self::lemma_every_label_labels_all(self.args, p);
        let rest = Self::labels_all(self.args);
        if forall|i: int| 0 <= i < self.labels().len() ==> p(#[trigger] self.labels()[i]) {
            assert(self.labels()[0] == self.label);
            assert forall|i: int| 0 <= i < rest.len() implies p(#[trigger] rest[i]) by {
                assert(self.labels()[i + 1] == rest[i]);
            }
        }
    }

    /// The same of a list of trees.
    pub proof fn lemma_every_label_labels_all(trees: Seq<Tree<L>>, p: spec_fn(L) -> bool)
        ensures
            (forall|k: int| 0 <= k < trees.len() ==> (#[trigger] trees[k]).every_label(p))
                <==> forall|i: int|
                0 <= i < Self::labels_all(trees).len() ==> p(#[trigger] Self::labels_all(trees)[i]),
        decreases trees,
    {
        if trees.len() > 0 {
            let n = trees.len() - 1;
            let front = trees.drop_last();
            let before = Self::labels_all(front);
            let after = trees.last().labels();
            let all = Self::labels_all(trees);
            Self::lemma_every_label_labels_all(front, p);
            trees.last().lemma_every_label_labels(p);
            if forall|i: int| 0 <= i < all.len() ==> p(#[trigger] all[i]) {
                assert forall|i: int| 0 <= i < before.len() implies p(#[trigger] before[i]) by {
                    assert(all[i] == before[i]);
                }
                assert forall|i: int| 0 <= i < after.len() implies p(#[trigger] after[i]) by {
                    assert(all[i + before.len()] == after[i]);
                }
                assert forall|k: int| 0 <= k < trees.len() implies (#[trigger] trees[k]).every_label(
                    p,
                ) by {
                    if k < n {
                        assert(front[k].every_label(p));
                    }
                }
            }
        }
    }

    /// Relabeling keeps the shape: the new tree stands for the same type.
    pub proof fn lemma_relabeled_mirrors<M>(
        self,
        rel: spec_fn(L, M) -> bool,
        out: Tree<M>,
        ty: TyS,
    )
        requires
            self.relabeled_with(rel, out),
            self.mirrors(ty),
        ensures
            out.mirrors(ty),
            out.size() == self.size(),
        decreases self,
    {
        assert forall|i: int| 0 <= i < out.args.len() implies (#[trigger] out.args[i]).mirrors(
            ty.args()[i],
        ) by {
            self.args[i].lemma_relabeled_mirrors(rel, out.args[i], ty.args()[i]);
        }
        self.lemma_mirror_size(ty);
        out.lemma_mirror_size(ty);
    }

    /// Relabeling keeps the number and the order of the labels: the label at
    /// each place of the new tree's pre-order is related to the label at that
    /// place of the old one.
    pub proof fn lemma_relabeled_labels<M>(self, rel: spec_fn(L, M) -> bool, out: Tree<M>)
        requires
            self.relabeled_with(rel, out),
        ensures
            out.labels().len() == self.labels().len(),
            forall|i: int|
                0 <= i < self.labels().len() ==> rel(#[trigger] self.labels()[i], out.labels()[i]),
        decreases self,
    {
        Self::lemma_relabeled_labels_all(self.args, rel, out.args);
    }

    /// The same of two lists of trees that are relabeled one for one.
    pub proof fn lemma_relabeled_labels_all<M>(
        trees: Seq<Tree<L>>,
        rel: spec_fn(L, M) -> bool,
        outs: Seq<Tree<M>>,
    )
        requires
            outs.len() == trees.len(),
            forall|i: int|
                0 <= i < trees.len() ==> (#[trigger] trees[i]).relabeled_with(rel, outs[i]),
        ensures
            Tree::labels_all(outs).len() == Self::labels_all(trees).len(),
            forall|i: int|
                0 <= i < Self::labels_all(trees).len() ==> rel(
                    #[trigger] Self::labels_all(trees)[i],
                    Tree::labels_all(outs)[i],
                ),
        decreases trees,
    {
        if trees.len() > 0 {
            Self::lemma_relabeled_labels_all(trees.drop_last(), rel, outs.drop_last());
            trees.last().lemma_relabeled_labels(rel, outs.last());
        }
    }

    /// Relabeling twice is relabeling once with the composition: where `one`
    /// holds of every pair of labels that `first` and then `second` link,
    /// the tree that two relabelings give is one that `one` gives.
    pub proof fn lemma_relabeled_compose<M, N>(
        self,
        first: spec_fn(L, M) -> bool,
        mid: Tree<M>,
        second: spec_fn(M, N) -> bool,
        out: Tree<N>,
        one: spec_fn(L, N) -> bool,
    )
        requires
            self.relabeled_with(first, mid),
            mid.relabeled_with(second, out),
            forall|l: L, m: M, n: N| #[trigger] first(l, m) && #[trigger] second(m, n) ==> one(l, n),
        ensures
            self.relabeled_with(one, out),
        decreases self,
    {
        assert forall|i: int| 0 <= i < self.args.len() implies (
        #[trigger] self.args[i]).relabeled_with(one, out.args[i]) by {
            self.args[i].lemma_relabeled_compose(first, mid.args[i], second, out.args[i], one);
        }
    }

    /// Where `rel` links every label `l` to nothing but `f(l)`, relabeling
    /// gives the tree with `f` applied to every label.
    pub proof fn lemma_relabeled_is_map<M>(
        self,
        rel: spec_fn(L, M) -> bool,
        out: Tree<M>,
        f: spec_fn(L) -> M,
    )
        requires
            self.relabeled_with(rel, out),
            forall|l: L, m: M| #[trigger] rel(l, m) ==> m == f(l),
        ensures
            out == self.map_labels(f),
        decreases self,
    {
        assert forall|i: int| 0 <= i < self.args.len() implies out.args[i] == (
        #[trigger] self.map_labels(f).args[i]) by {
            self.args[i].lemma_relabeled_is_map(rel, out.args[i], f);
        }
        assert(out.args =~= self.map_labels(f).args);
    }

    /// The tree with `f` applied to every label is a relabeling of the tree.
    pub proof fn lemma_map_is_relabeled<M>(self, f: spec_fn(L) -> M)
        ensures
            self.relabeled_with(|l: L, m: M| m == f(l), self.map_labels(f)),
        decreases self,
    {
        let out = self.map_labels(f);
        let rel = |l: L, m: M| m == f(l);
        assert forall|i: int| 0 <= i < self.args.len() implies (
        #[trigger] self.args[i]).relabeled_with(rel, out.args[i]) by {
            self.args[i].lemma_map_is_relabeled(f);
        }
    }

    /// Applying `f` to every label keeps the shape.
    pub proof fn lemma_map_labels_mirrors<M>(self, f: spec_fn(L) -> M, ty: TyS)
        requires
            self.mirrors(ty),
        ensures
            self.map_labels(f).mirrors(ty),
            self.map_labels(f).size() == self.size(),
        decreases self,
    {
        let out = self.map_labels(f);
        assert forall|i: int| 0 <= i < out.args.len() implies (#[trigger] out.args[i]).mirrors(
            ty.args()[i],
        ) by {
            self.args[i].lemma_map_labels_mirrors(f, ty.args()[i]);
        }
        self.lemma_mirror_size(ty);
        out.lemma_mirror_size(ty);
    }

    /// The labels of the tree with `f` applied to every label are the labels
    /// of the tree, in their order, with `f` applied to each.
    pub proof fn lemma_map_labels_labels<M>(self, f: spec_fn(L) -> M)
        ensures
            self.map_labels(f).labels() == self.labels().map_values(f),
        decreases self,
    {
        let out = self.map_labels(f);
        Self::lemma_map_labels_labels_all(self.args, f, out.args);
    }

    /// The same of a list of trees.
    pub proof fn lemma_map_labels_labels_all<M>(
        trees: Seq<Tree<L>>,
        f: spec_fn(L) -> M,
        outs: Seq<Tree<M>>,
    )
        requires
            outs.len() == trees.len(),
            forall|i: int| 0 <= i < trees.len() ==> (#[trigger] outs[i]) == trees[i].map_labels(f),
        ensures
            Tree::labels_all(outs) == Self::labels_all(trees).map_values(f),
        decreases trees,
    {
        if trees.len() > 0 {
            Self::lemma_map_labels_labels_all(trees.drop_last(), f, outs.drop_last());
            trees.last().lemma_map_labels_labels(f);
        }
    }

    /// Applying `f` and then `g` to every label is applying, to every label,
    /// `g` after `f`.
    pub proof fn lemma_map_labels_compose<M, N>(self, f: spec_fn(L) -> M, g: spec_fn(M) -> N)
        ensures
            self.map_labels(f).map_labels(g) == self.map_labels(|l: L| g(f(l))),
        decreases self,
    {
        let h = |l: L| g(f(l));
        let two = self.map_labels(f).map_labels(g);
        let one = self.map_labels(h);
        assert forall|i: int| 0 <= i < self.args.len() implies (#[trigger] two.args[i])
            == one.args[i] by {
            self.args[i].lemma_map_labels_compose(f, g);
        }
        assert(two.args =~= one.args);
    }

    /// Where the trees before position `k` hold no such placeholder and the
    /// tree at `k` does, that one is the first of the list.
    pub proof fn lemma_first_unbound_at(trees: Seq<Tree<L>>, n: nat, k: int)
        requires
            0 <= k < trees.len(),
            Self::first_unbound_all(trees.take(k), n) is None,
            trees[k].first_unbound(n) is Some,
        ensures
            Self::first_unbound_all(trees, n) == trees[k].first_unbound(n),
        decreases trees.len(),
    {
        if k < trees.len() - 1 {
            assert(trees.drop_last().take(k) =~= trees.take(k));
            Self::lemma_first_unbound_at(trees.drop_last(), n, k);
        }
    }

    /// No placeholder is unbound exactly when every placeholder has an index
    /// below the number of arguments.
    pub proof fn lemma_first_unbound_none(self, n: nat)
        ensures
            self.first_unbound(n) is None <==> self.bound_by(n),
        decreases self,
    {
        if self.ty.param_idx() is None {
            Self::lemma_first_unbound_all_none(self.args, n);
        }
    }

    /// The same of a list of trees.
    pub proof fn lemma_first_unbound_all_none(trees: Seq<Tree<L>>, n: nat)
        ensures
            Self::first_unbound_all(trees, n) is None <==> forall|i: int|
                0 <= i < trees.len() ==> (#[trigger] trees[i]).bound_by(n),
        decreases trees,
    {
        if trees.len() > 0 {
            let front = trees.drop_last();
            Self::lemma_first_unbound_all_none(front, n);
            trees.last().lemma_first_unbound_none(n);
            if Self::first_unbound_all(trees, n) is None {
                assert forall|i: int| 0 <= i < trees.len() implies (#[trigger] trees[i]).bound_by(
                    n,
                ) by {
                    if i < trees.len() - 1 {
                        assert(front[i].bound_by(n));
                    }
                }
            }
        }
    }

    /// A placeholder that is reported as unbound reaches past the arguments.
    pub proof fn lemma_first_unbound_range(self, n: nat)
        ensures
            self.first_unbound(n) matches Some(idx) ==> idx >= n,
        decreases self,
    {
        if self.ty.param_idx() is None {
            Self::lemma_first_unbound_all_range(self.args, n);
        }
    }

    /// The same of a list of trees.
    pub proof fn lemma_first_unbound_all_range(trees: Seq<Tree<L>>, n: nat)
        ensures
            Self::first_unbound_all(trees, n) matches Some(idx) ==> idx >= n,
        decreases trees,
    {
        if trees.len() > 0 {
            Self::lemma_first_unbound_all_range(trees.drop_last(), n);
            trees.last().lemma_first_unbound_range(n);
        }
    }

    /// With more arguments no placeholder becomes unbound.
    pub proof fn lemma_first_unbound_more(self, n: nat, m: nat)
        requires
            n <= m,
            self.first_unbound(n) is None,
        ensures
            self.first_unbound(m) is None,
        decreases self,
    {
        if self.ty.param_idx() is None {
            Self::lemma_first_unbound_all_more(self.args, n, m);
        }
    }

    /// The same of a list of trees.
    pub proof fn lemma_first_unbound_all_more(trees: Seq<Tree<L>>, n: nat, m: nat)
        requires
            n <= m,
            Self::first_unbound_all(trees, n) is None,
        ensures
            Self::first_unbound_all(trees, m) is None,
        decreases trees,
    {
        if trees.len() > 0 {
            Self::lemma_first_unbound_all_more(trees.drop_last(), n, m);
            trees.last().lemma_first_unbound_more(n, m);
        }
    }

    /// Where every label is `eq` to itself, every tree is alike itself.
    pub proof fn lemma_alike_with_refl(self, eq: spec_fn(L, L) -> bool)
        requires
            forall|l: L| #[trigger] eq(l, l),
        ensures
            self.alike_with(self, eq),
        decreases self,
    {
        self.ty.lemma_alike_refl();
        assert forall|i: int| 0 <= i < self.args.len() implies (#[trigger] self.args[i]).alike_with(
            self.args[i],
            eq,
        ) by {
            self.args[i].lemma_alike_with_refl(eq);
        }
    }

    /// Where `eq` holds both ways or not at all, so does being alike.
    pub proof fn lemma_alike_with_sym(self, other: Tree<L>, eq: spec_fn(L, L) -> bool)
        requires
            self.alike_with(other, eq),
            forall|a: L, b: L| #[trigger] eq(a, b) ==> eq(b, a),
        ensures
            other.alike_with(self, eq),
        decreases self,
    {
        self.ty.lemma_alike_sym(&other.ty);
        assert forall|i: int| 0 <= i < other.args.len() implies (
        #[trigger] other.args[i]).alike_with(self.args[i], eq) by {
            self.args[i].lemma_alike_with_sym(other.args[i], eq);
        }
    }

    /// Where `eq` carries over from pair to pair, so does being alike.
    pub proof fn lemma_alike_with_trans(
        self,
        mid: Tree<L>,
        other: Tree<L>,
        eq: spec_fn(L, L) -> bool,
    )
        requires
            self.alike_with(mid, eq),
            mid.alike_with(other, eq),
            forall|a: L, b: L, c: L| #[trigger] eq(a, b) && #[trigger] eq(b, c) ==> eq(a, c),
        ensures
            self.alike_with(other, eq),
        decreases self,
    {
        self.ty.lemma_alike_trans(&mid.ty, &other.ty);
        assert forall|i: int| 0 <= i < self.args.len() implies (#[trigger] self.args[i]).alike_with(
            other.args[i],
            eq,
        ) by {
            self.args[i].lemma_alike_with_trans(mid.args[i], other.args[i], eq);
        }
    }

    /// Trees that are alike have the same number of labels, and `eq` holds
    /// between the labels at every place of their pre-orders.
    pub proof fn lemma_alike_with_labels(self, other: Tree<L>, eq: spec_fn(L, L) -> bool)
        requires
            self.alike_with(other, eq),
        ensures
            self.labels().len() == other.labels().len(),
            forall|i: int|
                0 <= i < self.labels().len() ==> eq(#[trigger] self.labels()[i], other.labels()[i]),
        decreases self,
    {
        Self::lemma_alike_with_labels_all(self.args, other.args, eq);
    }

    /// The same of two lists of trees that are alike one for one.
    pub proof fn lemma_alike_with_labels_all(
        trees: Seq<Tree<L>>,
        others: Seq<Tree<L>>,
        eq: spec_fn(L, L) -> bool,
    )
        requires
            trees.len() == others.len(),
            forall|i: int| 0 <= i < trees.len() ==> (#[trigger] trees[i]).alike_with(others[i], eq),
        ensures
            Self::labels_all(trees).len() == Self::labels_all(others).len(),
            forall|i: int|
                0 <= i < Self::labels_all(trees).len() ==> eq(
                    #[trigger] Self::labels_all(trees)[i],
                    Self::labels_all(others)[i],
                ),
        decreases trees,
    {
        if trees.len() > 0 {
            Self::lemma_alike_with_labels_all(trees.drop_last(), others.drop_last(), eq);
            trees.last().lemma_alike_with_labels(others.last(), eq);
        }
    }
}

impl<L: Clone> Tree<L> {
    /// Substitution succeeds only where every placeholder is bound.
    pub proof fn lemma_substituted_bound(self, substs: Seq<Tree<L>>, out: Tree<L>)
        requires
            self.substituted(substs, out),
        ensures
            self.first_unbound(substs.len()) is None,
        decreases self,
    {
        if self.ty.param_idx() is None {
            Self::lemma_substituted_bound_all(self.args, substs, out.args);
        }
    }

    /// The same of a list of trees.
    pub proof fn lemma_substituted_bound_all(
        trees: Seq<Tree<L>>,
        substs: Seq<Tree<L>>,
        outs: Seq<Tree<L>>,
    )
        requires
            outs.len() == trees.len(),
            forall|i: int|
                0 <= i < trees.len() ==> (#[trigger] trees[i]).substituted(substs, outs[i]),
        ensures
            Self::first_unbound_all(trees, substs.len()) is None,
        decreases trees,
    {
        if trees.len() > 0 {
            Self::lemma_substituted_bound_all(trees.drop_last(), substs, outs.drop_last());
            trees.last().lemma_substituted_bound(substs, outs.last());
        }
    }

    /// Where a clone of a label is always equal to the label, substitution
    /// gives exactly the tree with each placeholder replaced by its argument
    /// and everything else as it was.
    pub proof fn lemma_substituted_exact(self, substs: Seq<Tree<L>>, out: Tree<L>)
        requires
            self.substituted(substs, out),
            forall|a: L, b: L| #[trigger] cloned(a, b) ==> a == b,
        ensures
            out == self.subst(substs),
        decreases self,
    {
        if self.ty.param_idx() is None {
            assert forall|i: int| 0 <= i < self.args.len() implies out.args[i] == (
            #[trigger] self.subst(substs).args[i]) by {
                self.args[i].lemma_substituted_exact(substs, out.args[i]);
            }
            assert(out.args =~= self.subst(substs).args);
        }
    }

    /// Substitution into a tree without placeholders is a relabeling: it
    /// gives the same tree with a clone of every label.
    pub proof fn lemma_substituted_closed(self, substs: Seq<Tree<L>>, out: Tree<L>)
        requires
            self.substituted(substs, out),
            self.bound_by(0),
        ensures
            self.relabeled_with(|a: L, b: L| cloned(a, b), out),
        decreases self,
    {
        let rel = |a: L, b: L| cloned(a, b);
        assert forall|i: int| 0 <= i < self.args.len() implies (
        #[trigger] self.args[i]).relabeled_with(rel, out.args[i]) by {
            self.args[i].lemma_substituted_closed(substs, out.args[i]);
        }
    }
}

} // verus!
