//! The ordering that the sorts assume of their element type.

use std::cmp::Ordering;
use vstd::prelude::*;
use vstd::std_specs::cmp::PartialOrdSpec;

verus! {

/// `a` is strictly less than `b` under `T`'s `PartialOrd`.
pub open spec fn lt<T: PartialOrd>(a: T, b: T) -> bool {
    a.partial_cmp_spec(&b) == Some(Ordering::Less)
}

/// `a` is strictly greater than `b` under `T`'s `PartialOrd`.
pub open spec fn gt<T: PartialOrd>(a: T, b: T) -> bool {
    a.partial_cmp_spec(&b) == Some(Ordering::Greater)
}

/// `T`'s comparison operators compute a strict weak ordering: what `<` and
/// `>` return is what `partial_cmp` says, `<` is irreflexive and transitive,
/// "not less than" is transitive, and `>` is `<` with its arguments
/// exchanged.
#[verifier::opaque]
pub open spec fn strict_weak_order<T: PartialOrd>() -> bool {
    &&& T::obeys_partial_cmp_spec()
    &&& forall|a: T| !#[trigger] lt(a, a)
    &&& forall|a: T, b: T, c: T| #[trigger] lt(a, b) && #[trigger] lt(b, c) ==> lt(a, c)
    &&& forall|a: T, b: T, c: T| !#[trigger] lt(a, b) && !#[trigger] lt(b, c) ==> !lt(a, c)
    &&& forall|a: T, b: T| #[trigger] gt(a, b) <==> lt(b, a)
}

/// The operators `<` and `>` of executable code return what `lt` and `gt`
/// say.
pub open spec fn operators_agree<T: PartialOrd>() -> bool {
    T::obeys_partial_cmp_spec()
}

/// Under a strict weak ordering the operators `<` and `>` of executable code
/// return `lt` and `gt`.
pub proof fn lemma_operators_agree<T: PartialOrd>()
    requires
        strict_weak_order::<T>(),
    ensures
        operators_agree::<T>(),
{
    reveal(strict_weak_order);
}

/// The comparisons of `i32` form a strict weak ordering.
pub proof fn lemma_i32_ordered()
    ensures
        strict_weak_order::<i32>(),
{
    reveal(strict_weak_order);
}

/// Nothing is less than itself.
pub proof fn lemma_irreflexive<T: PartialOrd>(a: T)
    requires
        strict_weak_order::<T>(),
    ensures
        !lt(a, a),
{
    reveal(strict_weak_order);
}

/// `a < b` and `b < c` give `a < c`.
pub proof fn lemma_transitive<T: PartialOrd>(a: T, b: T, c: T)
    requires
        strict_weak_order::<T>(),
        lt(a, b),
        lt(b, c),
    ensures
        lt(a, c),
{
    reveal(strict_weak_order);
}

/// `a >= b` and `b >= c` give `a >= c`, where `x >= y` is "x is not less
/// than y".
pub proof fn lemma_not_less_transitive<T: PartialOrd>(a: T, b: T, c: T)
    requires
        strict_weak_order::<T>(),
        !lt(a, b),
        !lt(b, c),
    ensures
        !lt(a, c),
{
    reveal(strict_weak_order);
}

/// `a > b` says what `b < a` says.
pub proof fn lemma_greater_is_less<T: PartialOrd>(a: T, b: T)
    requires
        strict_weak_order::<T>(),
    ensures
        gt(a, b) == lt(b, a),
{
    reveal(strict_weak_order);
}

/// `a < b` excludes `b < a`.
pub proof fn lemma_asymmetric<T: PartialOrd>(a: T, b: T)
    requires
        strict_weak_order::<T>(),
        lt(a, b),
    ensures
        !lt(b, a),
{
    if lt(b, a) {
        lemma_transitive(a, b, a);
        lemma_irreflexive(a);
    }
}

/// `a < b` and `c >= b` give `a < c`.
pub proof fn lemma_less_then_not_less<T: PartialOrd>(a: T, b: T, c: T)
    requires
        strict_weak_order::<T>(),
        lt(a, b),
        !lt(c, b),
    ensures
        lt(a, c),
{
    if !lt(a, c) {
        lemma_not_less_transitive(a, c, b);
    }
}

} // verus!
