//! Type trees in which every node carries a caller-defined label.
//!
//! A [`LabeledTyCtxt`] builds such trees from the types of a host type
//! system, substitutes trees for type-parameter placeholders, and relabels
//! trees into a context of another label type.
//!
//! - `ty`: the host type system, as far as this library looks into it.
//! - `labeled_ty`: nodes, handles, and the context that stores and makes them.
//! - `eq`: structural equality of trees.
//! - `tree`: the mathematical model that the contracts speak of.
//! - `laws`: what is proved of the model.

pub mod eq;
pub mod labeled_ty;
pub mod laws;
pub mod tree;
pub mod ty;

pub use crate::labeled_ty::{ArgSlice, LabeledTy, LabeledTyCtxt, LabeledTyS, SubstError};
pub use crate::ty::{
    FloatTy, FnSig, IntTy, Mutability, ParamTy, Ty, TyS, TypeAndMut, TypeVariants, UintTy,
};
