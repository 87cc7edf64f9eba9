use vstd::prelude::*;
use vstd::std_specs::cmp::PartialEqSpec;

verus! {

/// What the `Eq` bound promises of `==` on `T`: that `==` is computed by
/// `eq_spec`, and that `eq_spec` is reflexive, symmetric and transitive.
pub open spec fn eq_is_equivalence<T: PartialEq>() -> bool {
    &&& T::obeys_eq_spec()
    &&& forall|x: T| #[trigger] x.eq_spec(&x)
    &&& forall|x: T, y: T| #[trigger] x.eq_spec(&y) ==> y.eq_spec(&x)
    &&& forall|x: T, y: T, z: T|
        #[trigger] x.eq_spec(&y) && #[trigger] y.eq_spec(&z) ==> x.eq_spec(&z)
}

} // verus!
