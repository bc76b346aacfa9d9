//! Vectors that hold one value many times.

use vstd::prelude::*;

verus! {

/// Collects `itertools::repeat_n(element, n)` into a vector.
///
/// Trusted, not proved. The iterator that `repeat_n` returns yields
/// `n` items: a clone of `element` each time but the last, and then
/// `element` itself. The contract says no more than that: the vector
/// holds `n` items, and each of them is `element` or a clone of it.
/// `element` has to be a value that can be cloned.
#[verifier::external_body]
pub(crate) fn repeated<T: Clone>(element: T, n: usize) -> (v: Vec<T>)
    requires
        call_requires(T::clone, (&element,)),
    ensures
        v@.len() == n,
        forall|i: int| 0 <= i < n ==> cloned(element, #[trigger] v@[i]),
{
    itertools::repeat_n(element, n).collect()
}

/// A vector of `n` zero bytes.
pub(crate) fn zeroes(n: usize) -> (v: Vec<u8>)
    ensures
        v@ == Seq::new(n as nat, |i: int| 0u8),
{
    let v = repeated(0u8, n);
    assert(v@ =~= Seq::new(n as nat, |i: int| 0u8));
    v
}

/// A vector of `n` empty table entries.
pub(crate) fn vacant(n: usize) -> (v: Vec<Option<usize>>)
    ensures
        v@ == Seq::new(n as nat, |i: int| None::<usize>),
{
    let v = repeated(None::<usize>, n);
    assert(v@ =~= Seq::new(n as nat, |i: int| None::<usize>));
    v
}

} // verus!
