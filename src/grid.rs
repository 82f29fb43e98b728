use vstd::prelude::*;
use vstd::arithmetic::div_mod::{lemma_fundamental_div_mod, lemma_fundamental_div_mod_converse};
use crate::fft::{butterfly_of, butterfly_ready, fft_range, fft_spec, is_pow2};
use crate::swapspace::{FFT2D, Swap, Swappable};

verus! {

/// The row-major transpose of the `l` by `l` grid `s`: the entry at row `j`, column `i` of
/// the result is the entry at row `i`, column `j` of `s`.
pub open spec fn transposed<T>(s: Seq<T>, l: int) -> Seq<T> {
    Seq::new(s.len(), |q: int| s[(q % l) * l + q / l])
}

/// The side of a square grid of `n` entries.
pub open spec fn side(n: nat) -> nat {
    choose|l: nat| #[trigger] (l * l) == n
}

/// `n` entries make a square grid.
pub open spec fn is_square(n: nat) -> bool {
    exists|l: nat| #[trigger] (l * l) == n
}

proof fn lemma_side(l: nat)
    ensures
        side(l * l) == l,
{
    let k = side(l * l);
    assert(k * k == l * l);
    assert(k == l) by (nonlinear_arith)
        requires
            k * k == l * l,
            k >= 0,
            l >= 0,
    ;
}

/// The side of the square grid of `n` entries, by counting up.
fn square_side(n: usize) -> (l: usize)
    requires
        is_square(n as nat),
    ensures
        l == side(n as nat),
        l * l == n,
{
    let ghost k = side(n as nat);
    proof {
        let j = choose|j: nat| #[trigger] (j * j) == n;
        lemma_side(j);
        assert(k <= n) by (nonlinear_arith)
            requires
                k * k == n,
                k >= 0,
        ;
    }
    let mut l: usize = 0;
    while l * l < n
        invariant
            l <= k,
            k <= n,
            k * k == n,
            l * l <= n,
        decreases k - l,
    {
        proof {
            assert(l < k) by (nonlinear_arith)
                requires
                    l * l < k * k,
                    l >= 0,
            ;
            assert((l + 1) * (l + 1) <= k * k) by (nonlinear_arith)
                requires
                    l + 1 <= k,
                    l >= 0,
            ;
        }
        l = l + 1;
    }
    proof {
        assert(l == k) by (nonlinear_arith)
            requires
                l * l >= k * k,
                l <= k,
                l >= 0,
        ;
    }
    l
}

/// Row and column of a position in an `l` by `l` grid.
proof fn lemma_index(l: int, q: int)
    requires
        0 <= l,
        0 <= q < l * l,
    ensures
        0 <= q % l < l,
        0 <= q / l < l,
        q == (q / l) * l + q % l,
{
    if l == 0 {
        assert(l * l == 0);
    }
    lemma_fundamental_div_mod(q, l);
    assert((q / l) * l == l * (q / l)) by (nonlinear_arith);
    assert(q / l < l) by (nonlinear_arith)
        requires
            q == l * (q / l) + q % l,
            0 <= q % l < l,
            q < l * l,
    ;
    assert(0 <= q / l) by (nonlinear_arith)
        requires
            q == l * (q / l) + q % l,
            0 <= q,
            q % l < l,
    ;
}

/// The position at row `c`, column `r` of an `l` by `l` grid.
proof fn lemma_cell(l: int, r: int, c: int)
    requires
        0 <= r < l,
        0 <= c < l,
    ensures
        (c * l + r) % l == r,
        (c * l + r) / l == c,
        0 <= c * l + r < l * l,
{
    lemma_fundamental_div_mod_converse(c * l + r, l, c, r);
    assert(0 <= c * l + r < l * l) by (nonlinear_arith)
        requires
            0 <= r < l,
            0 <= c < l,
    ;
}

/// Transposing a square grid twice gives the grid back.
pub proof fn lemma_transpose_involution<T>(s: Seq<T>, l: nat)
    requires
        s.len() == l * l,
    ensures
        transposed(transposed(s, l as int), l as int) == s,
{
    assert forall|q: int| 0 <= q < s.len() implies transposed(transposed(s, l as int), l as int)[q] == s[q] by {
        lemma_index(l as int, q);
        lemma_cell(l as int, q / (l as int), q % (l as int));
    }
    assert(transposed(transposed(s, l as int), l as int) =~= s);
}

/// Writes into the first `l * l` entries of `out` the transpose of the `l` by `l` grid held,
/// row after row, in the first `l * l` entries of `input`.
pub fn transpose_to<T: Copy>(input: &Vec<T>, out: &mut Vec<T>, l: usize)
    requires
        l * l <= input.len(),
        l * l <= old(out).len(),
    ensures
        final(out).len() == old(out).len(),
        final(out)@.take(l * l) == transposed(input@.take(l * l), l as int),
        forall|q: int| l * l <= q < old(out).len() ==> final(out)@[q] == old(out)@[q],
{
    let ghost out0 = out@;
    let ghost n = l * l;
    let mut i: usize = 0;
    while i < l
        invariant
            0 <= i <= l,
            n == l * l,
            n <= input.len(),
            out.len() == out0.len(),
            n <= out0.len(),
            forall|q: int|
                0 <= q < n ==> (q % (l as int) < i ==> #[trigger] out@[q] == input@[(q % (l as int))
                    * l + q / (l as int)]) && (q % (l as int) >= i ==> out@[q] == out0[q]),
            forall|q: int| n <= q < out0.len() ==> #[trigger] out@[q] == out0[q],
        decreases l - i,
    {
        let mut j: usize = 0;
        while j < l
            invariant
                0 <= i < l,
                0 <= j <= l,
                n == l * l,
                n <= input.len(),
                out.len() == out0.len(),
                n <= out0.len(),
                forall|q: int|
                    0 <= q < n ==> ((q % (l as int) < i || (q % (l as int) == i && q / (l as int)
                        < j)) ==> #[trigger] out@[q] == input@[(q % (l as int)) * l + q / (
                    l as int)]) && (!(q % (l as int) < i || (q % (l as int) == i && q / (l as int)
                        < j)) ==> out@[q] == out0[q]),
                forall|q: int| n <= q < out0.len() ==> #[trigger] out@[q] == out0[q],
            decreases l - j,
        {
            proof {
                lemma_cell(l as int, i as int, j as int);
                lemma_cell(l as int, j as int, i as int);
            }
            let v = input[i * l + j];
            out.set(j * l + i, v);
            proof {
                assert forall|q: int| 0 <= q < n implies ((q % (l as int) < i || (q % (l as int)
                    == i && q / (l as int) < j + 1)) ==> #[trigger] out@[q] == input@[(q % (
                l as int)) * l + q / (l as int)]) && (!(q % (l as int) < i || (q % (l as int) == i
                    && q / (l as int) < j + 1)) ==> out@[q] == out0[q]) by {
                    lemma_index(l as int, q);
                }
            }
            j = j + 1;
        }
        proof {
            assert forall|q: int| 0 <= q < n implies (q % (l as int) < i + 1 ==> #[trigger] out@[q]
                == input@[(q % (l as int)) * l + q / (l as int)]) && (q % (l as int) >= i + 1
                ==> out@[q] == out0[q]) by {
                lemma_index(l as int, q);
            }
        }
        i = i + 1;
    }
    proof {
        assert forall|q: int| 0 <= q < n implies out@.take(n)[q] == transposed(
            input@.take(n),
            l as int,
        )[q] by {
            lemma_index(l as int, q);
            lemma_cell(l as int, q / (l as int), q % (l as int));
        }
        assert(out@.take(n) =~= transposed(input@.take(n), l as int));
    }
}

/// Each of the `l` rows of length `l` of `x` replaced by its transform.
pub open spec fn rows_fft<E>(x: Seq<E>, l: int, bf: spec_fn(E, E, int, int) -> (E, E)) -> Seq<E> {
    Seq::new(x.len(), |q: int| fft_spec(x.subrange((q / l) * l, (q / l) * l + l), bf)[q % l])
}

/// The two-dimensional transform of the `l` by `l` grid `x`: the rows are transformed, the
/// grid is transposed, the rows (the former columns) are transformed, and the grid is
/// transposed back.
pub open spec fn fft2d_spec<E>(x: Seq<E>, l: int, bf: spec_fn(E, E, int, int) -> (E, E)) -> Seq<
    E,
> {
    transposed(rows_fft(transposed(rows_fft(x, l, bf), l), l, bf), l)
}

/// A position in row `r` of a grid with rows of length `l`.
proof fn lemma_row_of(l: int, r: int, q: int)
    requires
        0 < l,
        0 <= r,
        r * l <= q < r * l + l,
    ensures
        q / l == r,
        q % l == q - r * l,
{
    lemma_fundamental_div_mod_converse(q, l, r, q - r * l);
}

/// Transforms each of the `l` rows of length `l` held in the first `l * l` entries of `a`,
/// using `b` as the second buffer.
fn column_fft<E: Copy, F: Fn(E, E, usize, usize) -> (E, E)>(
    a: &mut Vec<E>,
    b: &mut Vec<E>,
    l: usize,
    bf: &F,
)
    requires
        butterfly_ready(*bf),
        is_pow2(l as int),
        l * l <= old(a).len(),
        l * l <= old(b).len(),
    ensures
        final(a).len() == old(a).len(),
        final(b).len() == old(b).len(),
        final(a)@.take(l * l) == rows_fft(old(a)@.take(l * l), l as int, butterfly_of(*bf)),
        forall|q: int| l * l <= q < old(a).len() ==> #[trigger] final(a)@[q] == old(a)@[q],
{
    let ghost n = l * l;
    let ghost x = a@.take(n);
    let ghost y = rows_fft(x, l as int, butterfly_of(*bf));
    let mut r: usize = 0;
    while r < l
        invariant
            butterfly_ready(*bf),
            is_pow2(l as int),
            0 <= r <= l,
            n == l * l,
            n <= a.len(),
            n <= b.len(),
            a.len() == old(a).len(),
            b.len() == old(b).len(),
            x.len() == n,
            y == rows_fft(x, l as int, butterfly_of(*bf)),
            forall|q: int| 0 <= q < r * l ==> #[trigger] a@[q] == y[q],
            forall|q: int| r * l <= q < n ==> #[trigger] a@[q] == x[q],
            forall|q: int| n <= q < a.len() ==> #[trigger] a@[q] == old(a)@[q],
        decreases l - r,
    {
        proof {
            assert(r * l + l <= l * l) by (nonlinear_arith)
                requires
                    r < l,
            ;
            assert(0 <= r * l) by (nonlinear_arith)
                requires
                    0 <= r,
                    0 <= l,
            ;
            assert((r + 1) * l == r * l + l) by (nonlinear_arith);
            if l == 0 {
                assert(n == 0);
            }
        }
        let ghost a0 = a@;
        let off = r * l;
        fft_range(a, b, off, l, bf);
        proof {
            assert(a0.subrange(off as int, off + l) =~= x.subrange(off as int, off + l));
            assert forall|q: int| 0 <= q < (r + 1) * l implies #[trigger] a@[q] == y[q] by {
                if q >= off {
                    lemma_row_of(l as int, r as int, q);
                    assert(a@.subrange(off as int, off + l)[q - off] == a@[q]);
                } else {
                    assert(a0[q] == y[q]);
                }
            }
            assert forall|q: int| (r + 1) * l <= q < n implies #[trigger] a@[q] == x[q] by {
                assert(a0[q] == x[q]);
            }
            assert forall|q: int| n <= q < a.len() implies #[trigger] a@[q] == old(a)@[q] by {
                assert(a0[q] == old(a)@[q]);
            }
        }
        r = r + 1;
    }
    proof {
        assert(a@.take(n) =~= y);
    }
}

/// Computes the two-dimensional transform of the `l` by `l` grid `a` in place, with `b` as
/// the second buffer.
fn fft2d_pair<E: Copy, F: Fn(E, E, usize, usize) -> (E, E)>(
    a: &mut Vec<E>,
    b: &mut Vec<E>,
    l: usize,
    bf: &F,
)
    requires
        butterfly_ready(*bf),
        is_pow2(l as int),
        old(a).len() == l * l,
        l * l <= old(b).len(),
    ensures
        final(a)@ == fft2d_spec(old(a)@, l as int, butterfly_of(*bf)),
        final(b).len() == old(b).len(),
{
    let ghost x = a@;
    let ghost bfs = butterfly_of(*bf);
    column_fft(a, b, l, bf);
    proof {
        assert(x.take(l * l) =~= x);
        assert(a@.take(l * l) =~= a@);
    }
    transpose_to(a, b, l);
    column_fft(b, a, l, bf);
    let ghost y = b@.take(l * l);
    transpose_to(b, a, l);
    proof {
        assert(y.take(l * l) =~= y);
        assert(a@.take(l * l) =~= a@);
    }
}

/// The two-dimensional transform of the `l` by `l` grid `input`, held row after row, computed
/// in place.
///
/// `maybe_buf` is the second buffer, of at least `l * l` entries; when none is given, one is
/// allocated. Its contents before and after the call do not matter.
pub fn fft2d_inplace<E: Copy, F: Fn(E, E, usize, usize) -> (E, E)>(
    input: &mut Vec<E>,
    maybe_buf: Option<&mut Vec<E>>,
    l: usize,
    bf: &F,
)
    requires
        butterfly_ready(*bf),
        is_pow2(l as int),
        old(input).len() == l * l,
        match maybe_buf {
            Some(b) => l * l <= b.len(),
            None => true,
        },
    ensures
        final(input)@ == fft2d_spec(old(input)@, l as int, butterfly_of(*bf)),
{
    match maybe_buf {
        Some(b) => fft2d_pair(input, b, l, bf),
        None => {
            let mut owned = input.clone();
            fft2d_pair(input, &mut owned, l, bf);
        },
    }
}

impl<E: Copy> FFT2D<E> for Swap<Vec<E>> {
    fn transpose(&mut self) {
        let l = square_side(self.a.len());
        transpose_to(&self.a, &mut self.b, l);
        proof {
            assert(self.a@.take(l * l) =~= self.a@);
        }
        self.swap();
    }

    fn row_fft<F: Fn(E, E, usize, usize) -> (E, E)>(&mut self, bf: &F) {
        let l = square_side(self.a.len());
        column_fft(&mut self.a, &mut self.b, l, bf);
        proof {
            assert(old(self).a@.take(l * l) =~= old(self).a@);
            assert(self.a@.take(l * l) =~= self.a@);
        }
    }

    fn fft2d<F: Fn(E, E, usize, usize) -> (E, E)>(&mut self, bf: &F) {
        self.row_fft(bf);
        self.transpose();
        proof {
            assert(self.a@.take(self.a@.len() as int) =~= self.a@);
        }
        self.row_fft(bf);
        self.transpose();
        proof {
            assert(self.a@.take(self.a@.len() as int) =~= self.a@);
        }
    }
}

} // verus!
