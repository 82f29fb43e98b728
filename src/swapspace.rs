use vstd::prelude::*;
use crate::fft::{butterfly_of, butterfly_ready, fft_spec, is_pow2};
use crate::grid::{fft2d_spec, is_square, rows_fft, side, transposed};

verus! {

/// Two values of the same type held in two roles, "a" and "b".
#[derive(Debug)]
pub struct Swap<T> {
    pub a: T,
    pub b: T,
}

/// Exchanging the two roles of a pair, and taking the pair apart.
pub trait Swappable<T>: Sized {
    /// The value in the "a" role.
    spec fn first(&self) -> T;

    /// The value in the "b" role.
    spec fn second(&self) -> T;

    /// Exchanges the two roles; nothing else changes.
    fn swap(&mut self)
        ensures
            final(self).first() == old(self).second(),
            final(self).second() == old(self).first(),
    ;

    /// Returns the value of the "a" role, then that of the "b" role.
    fn into_ab(self) -> (r: (T, T))
        ensures
            r == (self.first(), self.second()),
    ;
}

impl<T> Swappable<T> for Swap<T> {
    open spec fn first(&self) -> T {
        self.a
    }

    open spec fn second(&self) -> T {
        self.b
    }

    fn swap(&mut self) {
        core::mem::swap(&mut self.a, &mut self.b);
    }

    fn into_ab(self) -> (r: (T, T)) {
        (self.a, self.b)
    }
}

impl<T> Swap<T> {
    /// Binds `a` to the "a" role and `b` to the "b" role.
    pub fn from_ab(a: T, b: T) -> (r: Swap<T>)
        ensures
            r.a == a,
            r.b == b,
    {
        Swap { a, b }
    }

    /// The same two values with their roles exchanged.
    pub fn swap_binding(self) -> (r: Self)
        ensures
            r.a == self.b,
            r.b == self.a,
    {
        Swap { a: self.b, b: self.a }
    }
}

/// The transform of the sequence in the "a" role, with the "b" role as scratch.
pub trait FFT<E>: Swappable<Vec<E>> {
    /// Replaces "a" by its transform. Both roles have the same length, a power of two.
    ///
    /// The result depends on the contents of "a" alone: what "b" held before the call does
    /// not matter, and what it holds after the call is unspecified.
    fn fft<F: Fn(E, E, usize, usize) -> (E, E)>(&mut self, bf: &F)
        requires
            butterfly_ready(*bf),
            is_pow2(old(self).first()@.len() as int),
            old(self).second()@.len() == old(self).first()@.len(),
        ensures
            final(self).first()@ == fft_spec(old(self).first()@, butterfly_of(*bf)),
            final(self).second()@.len() == old(self).second()@.len(),
    ;
}

/// The two-dimensional transform of a square grid held row after row in the "a" role; the
/// side of the grid follows from the length of the buffers.
pub trait FFT2D<E>: Swappable<Vec<E>> {
    /// Writes the transpose of the square grid "a" into the first entries of "b", which may be
    /// longer, then exchanges the roles, so that "a" holds the transpose (followed by what "b"
    /// held past the grid) and "b" the grid as it was.
    fn transpose(&mut self)
        requires
            is_square(old(self).first()@.len()),
            old(self).first()@.len() <= old(self).second()@.len(),
        ensures
            final(self).first()@.len() == old(self).second()@.len(),
            final(self).first()@.take(old(self).first()@.len() as int) == transposed(
                old(self).first()@,
                side(old(self).first()@.len()) as int,
            ),
            forall|q: int|
                old(self).first()@.len() <= q < old(self).second()@.len()
                    ==> #[trigger] final(self).first()@[q] == old(self).second()@[q],
            final(self).second()@ == old(self).first()@,
    ;

    /// Transforms each row of the square grid "a", using "b", which may be longer, as scratch.
    fn row_fft<F: Fn(E, E, usize, usize) -> (E, E)>(&mut self, bf: &F)
        requires
            butterfly_ready(*bf),
            is_square(old(self).first()@.len()),
            is_pow2(side(old(self).first()@.len()) as int),
            old(self).first()@.len() <= old(self).second()@.len(),
        ensures
            final(self).first()@ == rows_fft(
                old(self).first()@,
                side(old(self).first()@.len()) as int,
                butterfly_of(*bf),
            ),
            final(self).second()@.len() == old(self).second()@.len(),
    ;

    /// The two-dimensional transform of the square grid "a", left in "a": rows, transpose,
    /// rows, transpose. "b" is scratch.
    fn fft2d<F: Fn(E, E, usize, usize) -> (E, E)>(&mut self, bf: &F)
        requires
            butterfly_ready(*bf),
            is_square(old(self).first()@.len()),
            is_pow2(side(old(self).first()@.len()) as int),
            old(self).second()@.len() == old(self).first()@.len(),
        ensures
            final(self).first()@ == fft2d_spec(
                old(self).first()@,
                side(old(self).first()@.len()) as int,
                butterfly_of(*bf),
            ),
            final(self).second()@.len() == old(self).second()@.len(),
    ;
}

} // verus!
