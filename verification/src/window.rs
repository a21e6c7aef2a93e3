//! The steps that turn a window table into the analysis and synthesis window
//! of a graph: centring, and scaling for unit gain under overlap-add.
use crate::arith::{
    apply, call, is_function, is_operation, is_scaling, op, scale, scaled, value_at,
};
use crate::WindowFunction;
use vstd::prelude::*;

verus! {

/// `s` rotated to the right by `k` places: its last `k` samples come first.
pub open spec fn rotated_right<T>(s: Seq<T>, k: int) -> Seq<T> {
    s.skip(s.len() - k) + s.take(s.len() - k)
}

/// The number of frames that overlap at any sample: `n_fft / hop`.
pub open spec fn overlap_factor(n_fft: nat, hop: nat) -> nat {
    n_fft / hop
}

/// The sum, from the left and starting at `zero`, of the squares of `w`.
pub open spec fn sum_of_squares<T, M: Fn(T, T) -> T, A: Fn(T, T) -> T>(
    mul: M,
    add: A,
    zero: T,
    w: Seq<T>,
) -> T
    decreases w.len(),
{
    if w.len() == 0 {
        zero
    } else {
        op(add, sum_of_squares(mul, add, zero, w.drop_last()), op(mul, w.last(), w.last()))
    }
}

/// `buf` after a window of the family `family` with the coefficients `c` has
/// been applied: a rectangular window leaves it alone, any other multiplies
/// sample by sample as far as both reach.
pub open spec fn applied<T, M: Fn(T, T) -> T>(
    family: WindowFunction,
    mul: M,
    buf: Seq<T>,
    c: Seq<T>,
) -> Seq<T> {
    Seq::new(
        buf.len(),
        |i: int|
            if family != WindowFunction::Rectangular && i < c.len() {
                op(mul, buf[i], c[i])
            } else {
                buf[i]
            },
    )
}

/// Rotates `v` to the right by `k` places.
pub fn rotate_right<T: Copy>(v: &mut Vec<T>, k: usize)
    requires
        k <= old(v)@.len(),
    ensures
        final(v)@ == rotated_right(old(v)@, k as int),
{
    let n = v.len();
    let split = n - k;
    let mut turned: Vec<T> = Vec::with_capacity(n);
    let mut i: usize = split;
    while i < n
        invariant
            split <= i <= n == v@.len(),
            v@ == old(v)@,
            turned@ == v@.subrange(split as int, i as int),
        decreases n - i,
    {
        turned.push(v[i]);
        i += 1;
        assert(turned@ =~= v@.subrange(split as int, i as int));
    }
    let mut j: usize = 0;
    while j < split
        invariant
            j <= split <= n == v@.len(),
            v@ == old(v)@,
            turned@ == v@.skip(split as int) + v@.take(j as int),
        decreases split - j,
    {
        turned.push(v[j]);
        j += 1;
        assert(turned@ =~= v@.skip(split as int) + v@.take(j as int));
    }
    *v = turned;
}

/// Centres a window on index 0: rotates it to the right by half its length.
pub fn center_window<T: Copy>(window: &mut Vec<T>)
    ensures
        final(window)@ == rotated_right(old(window)@, (old(window)@.len() / 2) as int),
{
    let half = window.len() / 2;
    rotate_right(window, half);
}

/// Overlap factor of a transform of length `n_fft` with hop `hop`.
pub fn overlapping_frames(n_fft: usize, hop: usize) -> (frames: usize)
    requires
        hop > 0,
    ensures
        frames == overlap_factor(n_fft as nat, hop as nat),
{
    n_fft / hop
}

/// Sums the squares of the window, from the left, starting at `zero`.
pub fn window_energy<T: Copy, M: Fn(T, T) -> T, A: Fn(T, T) -> T>(
    window: &Vec<T>,
    zero: T,
    mul: &M,
    add: &A,
) -> (sum: T)
    requires
        is_operation(*mul),
        is_operation(*add),
    ensures
        sum == sum_of_squares(*mul, *add, zero, window@),
{
    let mut sum = zero;
    let mut i: usize = 0;
    while i < window.len()
        invariant
            is_operation(*mul),
            is_operation(*add),
            i <= window@.len(),
            sum == sum_of_squares(*mul, *add, zero, window@.take(i as int)),
        decreases window@.len() - i,
    {
        let square = apply(mul, window[i], window[i]);
        sum = apply(add, sum, square);
        i += 1;
        assert(window@.take(i as int).drop_last() =~= window@.take(i as int - 1));
    }
    assert(window@.take(window@.len() as int) =~= window@);
    sum
}

/// Divides every coefficient of the window by `divisor`.
pub fn scale_window<T: Copy, D: Fn(T, T) -> T>(window: &mut Vec<T>, divisor: T, div: &D)
    requires
        is_operation(*div),
    ensures
        final(window)@ == Seq::new(
            old(window)@.len(),
            |i: int| op(*div, old(window)@[i], divisor),
        ),
{
    let n = window.len();
    let mut i: usize = 0;
    while i < n
        invariant
            is_operation(*div),
            i <= n == window@.len(),
            old(window)@.len() == n,
            forall|j: int| 0 <= j < i ==> window@[j] == op(*div, old(window)@[j], divisor),
            forall|j: int| i <= j < n ==> window@[j] == old(window)@[j],
        decreases n - i,
    {
        let x = apply(div, window[i], divisor);
        window.set(i, x);
        i += 1;
    }
    assert(window@ =~= Seq::new(old(window)@.len(), |i: int| op(*div, old(window)@[i], divisor)));
}

/// The centred window `w` with every coefficient divided by `divisor`.
pub open spec fn divided<T, D: Fn(T, T) -> T>(div: D, w: Seq<T>, divisor: T) -> Seq<T> {
    Seq::new(w.len(), |i: int| op(div, w[i], divisor))
}

/// The energy of the centred window `w` over all the frames that overlap
/// when frames advance by `hop`: the sum of its squares, taken as many times
/// as frames overlap.
pub open spec fn overlap_energy<
    T,
    M: Fn(T, T) -> T,
    A: Fn(T, T) -> T,
    C: Fn(T, usize) -> T,
>(mul: M, add: A, times_count: C, zero: T, w: Seq<T>, hop: usize) -> T {
    scaled(
        times_count,
        sum_of_squares(mul, add, zero, w),
        overlap_factor(w.len(), hop as nat) as usize,
    )
}

/// Makes the analysis and synthesis window of `window`: centres it on index
/// 0, then divides every coefficient by the root of the window's energy over
/// all the frames that overlap, so that overlap-add has unit gain.
///
/// A window without energy cannot be scaled: the answer is then `false`, and
/// the window is left centred.
pub fn normalise_window<
    T: Copy,
    M: Fn(T, T) -> T,
    A: Fn(T, T) -> T,
    D: Fn(T, T) -> T,
    C: Fn(T, usize) -> T,
    R: Fn(T) -> T,
    Z: Fn(T) -> bool,
>(
    window: &mut Vec<T>,
    hop: usize,
    zero: T,
    mul: &M,
    add: &A,
    div: &D,
    times_count: &C,
    root: &R,
    is_zero: &Z,
) -> (ok: bool)
    requires
        hop > 0,
        is_operation(*mul),
        is_operation(*add),
        is_operation(*div),
        is_scaling(*times_count),
        is_function(*root),
        is_function(*is_zero),
    ensures
        ({
            let centred = rotated_right(old(window)@, (old(window)@.len() / 2) as int);
            let energy = overlap_energy(*mul, *add, *times_count, zero, centred, hop);
            &&& ok == !value_at(*is_zero, energy)
            &&& ok ==> final(window)@ == divided(*div, centred, value_at(*root, energy))
            &&& !ok ==> final(window)@ == centred
        }),
{
    center_window(window);
    let frames = overlapping_frames(window.len(), hop);
    let sum = window_energy(window, zero, mul, add);
    let energy = scale(times_count, sum, frames);
    if call(is_zero, energy) {
        return false;
    }
    let divisor = call(root, energy);
    scale_window(window, divisor, div);
    true
}

impl WindowFunction {
    /// Applies a window of this family to `buf`. `coefficients` is the
    /// family's table for the length of `buf`; a rectangular window needs
    /// none and leaves `buf` as it is.
    pub fn apply<T: Copy, M: Fn(T, T) -> T>(
        &self,
        buf: &mut Vec<T>,
        coefficients: &Vec<T>,
        mul: &M,
    )
        requires
            is_operation(*mul),
        ensures
            final(buf)@ == applied(*self, *mul, old(buf)@, coefficients@),
    {
        match self {
            WindowFunction::Rectangular => {
                assert(buf@ =~= applied(*self, *mul, old(buf)@, coefficients@));
            },
            _ => {
                let n = if buf.len() < coefficients.len() {
                    buf.len()
                } else {
                    coefficients.len()
                };
                let mut i: usize = 0;
                while i < n
                    invariant
                        is_operation(*mul),
                        i <= n <= buf@.len(),
                        n <= coefficients@.len(),
                        old(buf)@.len() == buf@.len(),
                        forall|j: int|
                            0 <= j < i ==> buf@[j] == op(*mul, old(buf)@[j], coefficients@[j]),
                        forall|j: int| i <= j < buf@.len() ==> buf@[j] == old(buf)@[j],
                    decreases n - i,
                {
                    let x = apply(mul, buf[i], coefficients[i]);
                    buf.set(i, x);
                    i += 1;
                }
                assert(buf@ =~= applied(*self, *mul, old(buf)@, coefficients@));
            },
        }
    }

    /// A window of this family and of the given length: `length` samples
    /// equal to `one`, with the window applied.
    pub fn generate<T: Copy, M: Fn(T, T) -> T>(
        &self,
        length: usize,
        one: T,
        coefficients: &Vec<T>,
        mul: &M,
    ) -> (window: Vec<T>)
        requires
            is_operation(*mul),
        ensures
            window@ == applied(
                *self,
                *mul,
                Seq::new(length as nat, |i: int| one),
                coefficients@,
            ),
    {
        let mut window = crate::frame::repeat(one, length);
        self.apply(&mut window, coefficients, mul);
        window
    }
}

/// Window centring: after a window of even length has been rotated to the
/// right by half its length, its value at index 0 is the value that the
/// window had at the middle index.
pub proof fn lemma_window_centering<T>(w: Seq<T>)
    requires
        w.len() > 0,
        w.len() % 2 == 0,
    ensures
        rotated_right(w, (w.len() / 2) as int)[0] == w[(w.len() / 2) as int],
        rotated_right(w, (w.len() / 2) as int).len() == w.len(),
{
}

/// Rotation moves samples and makes none: the sample at index `i` of the
/// rotated window is the one that stood `k` places to its left, counted round
/// the end.
pub proof fn lemma_rotated_right_index<T>(w: Seq<T>, k: int, i: int)
    requires
        0 <= k <= w.len(),
        0 <= i < w.len(),
    ensures
        rotated_right(w, k).len() == w.len(),
        rotated_right(w, k)[i] == w[(i + w.len() - k) % (w.len() as int)],
{
    let n = w.len() as int;
    if i < k {
        assert((i + n - k) % n == i + n - k) by (nonlinear_arith)
            requires
                0 <= i < k <= n,
        ;
    } else {
        assert((i + n - k) % n == i - k) by (nonlinear_arith)
            requires
                0 <= k <= i < n,
        ;
    }
}

} // verus!
