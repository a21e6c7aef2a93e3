//! Sample arithmetic, as the engine sees it.
//!
//! The engine never looks inside a sample. Where it has to multiply or add two
//! of them it calls an operation supplied by the caller, and its contracts name
//! the value that the operation gives.
use vstd::prelude::*;

verus! {

/// The value of `f` at `(a, b)`.
pub open spec fn op<T, F: Fn(T, T) -> T>(f: F, a: T, b: T) -> T {
    choose|r: T| call_ensures(f, (a, b), r)
}

/// `f` accepts every pair of arguments and gives one value for each.
pub open spec fn is_operation<T, F: Fn(T, T) -> T>(f: F) -> bool {
    &&& forall|a: T, b: T| call_requires(f, (a, b))
    &&& forall|a: T, b: T, r1: T, r2: T|
        call_ensures(f, (a, b), r1) && call_ensures(f, (a, b), r2) ==> r1 == r2
}

/// Calls the operation `f` on `a` and `b`.
pub fn apply<T: Copy, F: Fn(T, T) -> T>(f: &F, a: T, b: T) -> (r: T)
    requires
        is_operation(*f),
    ensures
        r == op(*f, a, b),
{
    f(a, b)
}

/// The value of the function `f` at `x`.
pub open spec fn value_at<X, Y, F: Fn(X) -> Y>(f: F, x: X) -> Y {
    choose|r: Y| call_ensures(f, (x,), r)
}

/// `f` accepts every argument and gives one value for each.
pub open spec fn is_function<X, Y, F: Fn(X) -> Y>(f: F) -> bool {
    &&& forall|x: X| call_requires(f, (x,))
    &&& forall|x: X, r1: Y, r2: Y|
        call_ensures(f, (x,), r1) && call_ensures(f, (x,), r2) ==> r1 == r2
}

/// Calls the function `f` on `x`.
pub fn call<X, Y, F: Fn(X) -> Y>(f: &F, x: X) -> (r: Y)
    requires
        is_function(*f),
    ensures
        r == value_at(*f, x),
{
    f(x)
}

/// The value of `f` at the sample `a` and the count `n`.
pub open spec fn scaled<T, F: Fn(T, usize) -> T>(f: F, a: T, n: usize) -> T {
    choose|r: T| call_ensures(f, (a, n), r)
}

/// `f` accepts every sample with every count and gives one value for each.
pub open spec fn is_scaling<T, F: Fn(T, usize) -> T>(f: F) -> bool {
    &&& forall|a: T, n: usize| call_requires(f, (a, n))
    &&& forall|a: T, n: usize, r1: T, r2: T|
        call_ensures(f, (a, n), r1) && call_ensures(f, (a, n), r2) ==> r1 == r2
}

/// Calls `f` on the sample `a` and the count `n`.
pub fn scale<T: Copy, F: Fn(T, usize) -> T>(f: &F, a: T, n: usize) -> (r: T)
    requires
        is_scaling(*f),
    ensures
        r == scaled(*f, a, n),
{
    f(a, n)
}

/// `x` multiplied by the window `w`, sample by sample, over the length of `w`.
pub open spec fn windowed<T, M: Fn(T, T) -> T>(mul: M, x: Seq<T>, w: Seq<T>) -> Seq<T> {
    Seq::new(w.len(), |i: int| op(mul, x[i], w[i]))
}

/// The overlap buffer after the windowed frame `y` has been summed into it.
pub open spec fn overlap_added<T, M: Fn(T, T) -> T, A: Fn(T, T) -> T>(
    mul: M,
    add: A,
    overlap: Seq<T>,
    y: Seq<T>,
    w: Seq<T>,
) -> Seq<T> {
    Seq::new(w.len(), |i: int| op(add, overlap[i], op(mul, y[i], w[i])))
}

/// The hop of samples that leaves the overlap buffer after the windowed frame
/// `y` has been summed into it.
pub open spec fn emitted<T, M: Fn(T, T) -> T, A: Fn(T, T) -> T>(
    mul: M,
    add: A,
    overlap: Seq<T>,
    y: Seq<T>,
    w: Seq<T>,
    hop: nat,
) -> Seq<T> {
    overlap_added(mul, add, overlap, y, w).take(hop as int)
}

/// The overlap buffer after the windowed frame `y` has been summed into it
/// and one hop has left: what is left moves to the front, and silence fills
/// the end.
pub open spec fn carried_over<T, M: Fn(T, T) -> T, A: Fn(T, T) -> T>(
    mul: M,
    add: A,
    overlap: Seq<T>,
    y: Seq<T>,
    w: Seq<T>,
    hop: nat,
    zero: T,
) -> Seq<T> {
    overlap_added(mul, add, overlap, y, w).skip(hop as int) + silence(hop, zero)
}

/// `n` samples, each equal to `zero`.
pub open spec fn silence<T>(n: nat, zero: T) -> Seq<T> {
    Seq::new(n, |i: int| zero)
}

} // verus!
