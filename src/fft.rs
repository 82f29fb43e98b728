use vstd::prelude::*;
use vstd::arithmetic::div_mod::{lemma_fundamental_div_mod, lemma_mod_multiples_basic};
use crate::swapspace::{FFT, Swap};

verus! {

/// Two to the power `d`.
pub open spec fn pow2(d: nat) -> nat
    decreases d,
{
    if d == 0 {
        1
    } else {
        2 * pow2((d - 1) as nat)
    }
}

/// `n` is a power of two.
pub open spec fn is_pow2(n: int) -> bool {
    exists|d: nat| pow2(d) == n
}

/// The entries of `x` at even positions.
pub open spec fn evens<E>(x: Seq<E>) -> Seq<E> {
    Seq::new(x.len() / 2, |k: int| x[2 * k])
}

/// The entries of `x` at odd positions.
pub open spec fn odds<E>(x: Seq<E>) -> Seq<E> {
    Seq::new(x.len() / 2, |k: int| x[2 * k + 1])
}

/// The radix-2 decimation-in-time transform of `x`.
///
/// `bf(e, o, k, m)` is the butterfly of an `m`-point transform at index `k`: it combines
/// entry `k` of the transform of the even entries with entry `k` of the transform of the
/// odd entries, and gives the pair of outputs at `k` and at `k + m / 2`. With the complex
/// butterfly `(e + w * o, e - w * o)`, `w = exp(-2 * pi * i * k / m)`, this is the
/// discrete Fourier transform of a sequence whose length is a power of two.
pub open spec fn fft_spec<E>(x: Seq<E>, bf: spec_fn(E, E, int, int) -> (E, E)) -> Seq<E>
    decreases x.len(),
{
    if x.len() <= 1 {
        x
    } else {
        let h = x.len() / 2;
        let e = fft_spec(evens(x), bf);
        let o = fft_spec(odds(x), bf);
        Seq::new(
            x.len(),
            |j: int|
                if j < h {
                    bf(e[j], o[j], j, x.len() as int).0
                } else {
                    bf(e[j - h], o[j - h], j - h, x.len() as int).1
                },
        )
    }
}

/// A transform of a single entry leaves it unchanged.
pub proof fn lemma_fft_single<E>(x: Seq<E>, bf: spec_fn(E, E, int, int) -> (E, E))
    requires
        x.len() == 1,
    ensures
        fft_spec(x, bf) == x,
{
}

/// Half of a power of two above 1 is a power of two.
proof fn lemma_pow2_half(n: int)
    requires
        is_pow2(n),
        n > 1,
    ensures
        n % 2 == 0,
        is_pow2(n / 2),
{
    let d = choose|d: nat| pow2(d) == n;
    lemma_pow2_pos(d);
    assert(d > 0);
    assert(pow2((d - 1) as nat) == n / 2);
}

/// A transform has as many entries as its input.
pub proof fn lemma_fft_len<E>(x: Seq<E>, bf: spec_fn(E, E, int, int) -> (E, E))
    ensures
        fft_spec(x, bf).len() == x.len(),
{
}

/// `x` and `y` combined entry by entry with `comb`.
pub open spec fn combine<E>(x: Seq<E>, y: Seq<E>, comb: spec_fn(E, E) -> E) -> Seq<E> {
    Seq::new(x.len(), |i: int| comb(x[i], y[i]))
}

/// Applying `bf` to combined inputs gives the combination, by `comb`, of its outputs on each
/// input alone. The complex butterfly respects every combination `a * p + b * q`.
pub open spec fn butterfly_respects<E>(
    bf: spec_fn(E, E, int, int) -> (E, E),
    comb: spec_fn(E, E) -> E,
) -> bool {
    forall|e1: E, o1: E, e2: E, o2: E, k: int, m: int| #[trigger]
        bf(comb(e1, e2), comb(o1, o2), k, m) == (comb(bf(e1, o1, k, m).0, bf(e2, o2, k, m).0), comb(
            bf(e1, o1, k, m).1,
            bf(e2, o2, k, m).1,
        ))
}

/// Linearity: where the butterfly respects a combination of two inputs (such as
/// `a * p + b * q`), the transform of two sequences of the same power-of-two length, combined
/// entry by entry, is the combination of their two transforms.
pub proof fn lemma_fft_linear<E>(
    x: Seq<E>,
    y: Seq<E>,
    bf: spec_fn(E, E, int, int) -> (E, E),
    comb: spec_fn(E, E) -> E,
)
    requires
        is_pow2(x.len() as int),
        x.len() == y.len(),
        butterfly_respects(bf, comb),
    ensures
        fft_spec(combine(x, y, comb), bf) == combine(fft_spec(x, bf), fft_spec(y, bf), comb),
    decreases x.len(),
{
    let c = combine(x, y, comb);
    if x.len() > 1 {
        lemma_pow2_half(x.len() as int);
        assert(evens(c) =~= combine(evens(x), evens(y), comb));
        assert(odds(c) =~= combine(odds(x), odds(y), comb));
        lemma_fft_linear(evens(x), evens(y), bf, comb);
        lemma_fft_linear(odds(x), odds(y), bf, comb);
        let h = x.len() / 2;
        let ex = fft_spec(evens(x), bf);
        let ox = fft_spec(odds(x), bf);
        let ey = fft_spec(evens(y), bf);
        let oy = fft_spec(odds(y), bf);
        lemma_fft_len(evens(x), bf);
        lemma_fft_len(odds(x), bf);
        lemma_fft_len(evens(y), bf);
        lemma_fft_len(odds(y), bf);
        lemma_fft_len(x, bf);
        lemma_fft_len(y, bf);
        assert(fft_spec(evens(c), bf) == combine(ex, ey, comb));
        assert(fft_spec(odds(c), bf) == combine(ox, oy, comb));
        assert forall|j: int| 0 <= j < x.len() implies fft_spec(c, bf)[j] == combine(
            fft_spec(x, bf),
            fft_spec(y, bf),
            comb,
        )[j] by {
            let i = if j < h {
                j
            } else {
                j - h
            };
            assert(bf(comb(ex[i], ey[i]), comb(ox[i], oy[i]), i, x.len() as int) == (comb(
                bf(ex[i], ox[i], i, x.len() as int).0,
                bf(ey[i], oy[i], i, x.len() as int).0,
            ), comb(bf(ex[i], ox[i], i, x.len() as int).1, bf(ey[i], oy[i], i, x.len() as int).1)));
        }
        assert(fft_spec(c, bf) =~= combine(fft_spec(x, bf), fft_spec(y, bf), comb));
    } else {
        assert(combine(x, y, comb) =~= combine(fft_spec(x, bf), fft_spec(y, bf), comb));
    }
}

/// `plus`, `times` and `negate` obey the laws of a commutative ring that a butterfly relies on.
pub open spec fn is_ring<E>(
    plus: spec_fn(E, E) -> E,
    times: spec_fn(E, E) -> E,
    negate: spec_fn(E) -> E,
) -> bool {
    &&& forall|x: E, y: E| #[trigger] plus(x, y) == plus(y, x)
    &&& forall|x: E, y: E, z: E| #[trigger] plus(plus(x, y), z) == plus(x, plus(y, z))
    &&& forall|x: E, y: E| #[trigger] times(x, y) == times(y, x)
    &&& forall|x: E, y: E, z: E| #[trigger] times(times(x, y), z) == times(x, times(y, z))
    &&& forall|x: E, y: E, z: E| #[trigger] times(x, plus(y, z)) == plus(times(x, y), times(x, z))
    &&& forall|x: E, y: E| #[trigger] negate(times(x, y)) == times(x, negate(y))
    &&& forall|x: E, y: E| #[trigger] negate(plus(x, y)) == plus(negate(x), negate(y))
}

/// The butterfly `(e + w(k, m) * o, e - w(k, m) * o)` over the ring operations, with twiddle
/// factors `w`.
pub open spec fn ring_butterfly<E>(
    plus: spec_fn(E, E) -> E,
    times: spec_fn(E, E) -> E,
    negate: spec_fn(E) -> E,
    w: spec_fn(int, int) -> E,
) -> spec_fn(E, E, int, int) -> (E, E) {
    |e: E, o: E, k: int, m: int| (plus(e, times(w(k, m), o)), plus(e, negate(times(w(k, m), o))))
}

/// The combination `a * p + b * q`.
pub open spec fn scaled_sum<E>(
    plus: spec_fn(E, E) -> E,
    times: spec_fn(E, E) -> E,
    a: E,
    b: E,
) -> spec_fn(E, E) -> E {
    |p: E, q: E| plus(times(a, p), times(b, q))
}

/// `(p + q) + (r + t) == (p + r) + (q + t)`.
proof fn lemma_regroup<E>(
    plus: spec_fn(E, E) -> E,
    times: spec_fn(E, E) -> E,
    negate: spec_fn(E) -> E,
    p: E,
    q: E,
    r: E,
    t: E,
)
    requires
        is_ring(plus, times, negate),
    ensures
        plus(plus(p, q), plus(r, t)) == plus(plus(p, r), plus(q, t)),
{
    assert(plus(plus(p, q), plus(r, t)) == plus(p, plus(q, plus(r, t))));
    assert(plus(plus(q, r), t) == plus(q, plus(r, t)));
    assert(plus(q, r) == plus(r, q));
    assert(plus(plus(r, q), t) == plus(r, plus(q, t)));
    assert(plus(plus(p, r), plus(q, t)) == plus(p, plus(r, plus(q, t))));
}

/// Moves a factor `a` in front: `x * (a * o) == a * (x * o)`.
proof fn lemma_mul_swap<E>(
    plus: spec_fn(E, E) -> E,
    times: spec_fn(E, E) -> E,
    negate: spec_fn(E) -> E,
    x: E,
    a: E,
    o: E,
)
    requires
        is_ring(plus, times, negate),
    ensures
        times(x, times(a, o)) == times(a, times(x, o)),
{
    assert(times(times(x, a), o) == times(x, times(a, o)));
    assert(times(x, a) == times(a, x));
    assert(times(times(a, x), o) == times(a, times(x, o)));
}

/// The ring butterfly respects every combination `a * p + b * q`.
pub proof fn lemma_ring_butterfly_respects<E>(
    plus: spec_fn(E, E) -> E,
    times: spec_fn(E, E) -> E,
    negate: spec_fn(E) -> E,
    w: spec_fn(int, int) -> E,
    a: E,
    b: E,
)
    requires
        is_ring(plus, times, negate),
    ensures
        butterfly_respects(ring_butterfly(plus, times, negate, w), scaled_sum(plus, times, a, b)),
{
    let bf = ring_butterfly(plus, times, negate, w);
    let comb = scaled_sum(plus, times, a, b);
    assert forall|e1: E, o1: E, e2: E, o2: E, k: int, m: int| #[trigger]
        bf(comb(e1, e2), comb(o1, o2), k, m) == (comb(bf(e1, o1, k, m).0, bf(e2, o2, k, m).0), comb(
            bf(e1, o1, k, m).1,
            bf(e2, o2, k, m).1,
        )) by {
        let x = w(k, m);
        let wo1 = times(x, o1);
        let wo2 = times(x, o2);
        let ae1 = times(a, e1);
        let be2 = times(b, e2);
        // the sum
        assert(times(x, plus(times(a, o1), times(b, o2))) == plus(times(x, times(a, o1)), times(x, times(b, o2))));
        lemma_mul_swap(plus, times, negate, x, a, o1);
        lemma_mul_swap(plus, times, negate, x, b, o2);
        lemma_regroup(plus, times, negate, ae1, be2, times(a, wo1), times(b, wo2));
        assert(times(a, plus(e1, wo1)) == plus(ae1, times(a, wo1)));
        assert(times(b, plus(e2, wo2)) == plus(be2, times(b, wo2)));
        // the difference
        assert(negate(plus(times(x, times(a, o1)), times(x, times(b, o2)))) == plus(
            negate(times(x, times(a, o1))),
            negate(times(x, times(b, o2))),
        ));
        assert(negate(times(a, wo1)) == times(a, negate(wo1)));
        assert(negate(times(b, wo2)) == times(b, negate(wo2)));
        lemma_regroup(plus, times, negate, ae1, be2, times(a, negate(wo1)), times(b, negate(wo2)));
        assert(times(a, plus(e1, negate(wo1))) == plus(ae1, times(a, negate(wo1))));
        assert(times(b, plus(e2, negate(wo2))) == plus(be2, times(b, negate(wo2))));
    }
}

/// Linearity of the transform built from the ring butterfly: for sequences of the same
/// power-of-two length, the transform of `a * x + b * y` is `a` times the transform of `x`
/// plus `b` times the transform of `y`.
pub proof fn lemma_fft_linear_ring<E>(
    x: Seq<E>,
    y: Seq<E>,
    plus: spec_fn(E, E) -> E,
    times: spec_fn(E, E) -> E,
    negate: spec_fn(E) -> E,
    w: spec_fn(int, int) -> E,
    a: E,
    b: E,
)
    requires
        is_pow2(x.len() as int),
        x.len() == y.len(),
        is_ring(plus, times, negate),
    ensures
        fft_spec(combine(x, y, scaled_sum(plus, times, a, b)), ring_butterfly(plus, times, negate, w))
            == combine(
            fft_spec(x, ring_butterfly(plus, times, negate, w)),
            fft_spec(y, ring_butterfly(plus, times, negate, w)),
            scaled_sum(plus, times, a, b),
        ),
{
    lemma_ring_butterfly_respects(plus, times, negate, w, a, b);
    lemma_fft_linear(x, y, ring_butterfly(plus, times, negate, w), scaled_sum(plus, times, a, b));
}

/// The butterfly that the closure `f` computes, as a spec function.
pub open spec fn butterfly_of<E, F: Fn(E, E, usize, usize) -> (E, E)>(f: F) -> spec_fn(
    E,
    E,
    int,
    int,
) -> (E, E) {
    |e: E, o: E, k: int, m: int| choose|r: (E, E)| #[trigger] call_ensures(f, (e, o, k as usize, m as usize), r)
}

/// `f` can be called on any arguments and always gives the same result for the same arguments.
pub open spec fn butterfly_ready<E, F: Fn(E, E, usize, usize) -> (E, E)>(f: F) -> bool {
    &&& forall|e: E, o: E, k: usize, m: usize| call_requires(f, (e, o, k, m))
    &&& forall|e: E, o: E, k: usize, m: usize, r1: (E, E), r2: (E, E)|
        call_ensures(f, (e, o, k, m), r1) && call_ensures(f, (e, o, k, m), r2) ==> r1 == r2
}

/// The `m` entries of `s` that start at `off` and lie `step` apart.
pub open spec fn strided<E>(s: Seq<E>, off: int, step: int, m: nat) -> Seq<E> {
    Seq::new(m, |k: int| s[off + k * step])
}

/// Position `q` is one of the positions `off, off + step, ...` below `off + n`.
pub open spec fn in_grid(q: int, off: int, step: int, n: int) -> bool {
    off <= q < off + n && (q - off) % step == 0
}

proof fn lemma_on_grid(off: int, step: int, m: int, k: int, n: int)
    requires
        step > 0,
        0 <= k < m,
        n == m * step,
    ensures
        in_grid(off + k * step, off, step, n),
        off + k * step + step <= off + n,
{
    lemma_mod_multiples_basic(k, step);
    assert(k * step + step <= m * step) by (nonlinear_arith)
        requires
            step > 0,
            k < m,
    ;
}

proof fn lemma_stride_injective(off: int, step: int, k1: int, k2: int)
    requires
        step > 0,
        k1 != k2,
    ensures
        off + k1 * step != off + k2 * step,
{
    assert(k1 * step != k2 * step) by (nonlinear_arith)
        requires
            step > 0,
            k1 != k2,
    ;
}

/// The grid of stride `2 * step` at `off` and the one at `off + step` split the grid of
/// stride `step` at `off`.
proof fn lemma_split_grid(q: int, off: int, step: int, h: int, n: int)
    requires
        step > 0,
        h > 0,
        n == 2 * step * h,
    ensures
        in_grid(q, off, 2 * step, n) ==> in_grid(q, off, step, n),
        in_grid(q, off + step, 2 * step, n) ==> in_grid(q, off, step, n),
        !(in_grid(q, off, 2 * step, n) && in_grid(q, off + step, 2 * step, n)),
{
    let r = q - off;
    lemma_fundamental_div_mod(r, 2 * step);
    lemma_fundamental_div_mod(r - step, 2 * step);
    let t = r / (2 * step);
    let u = (r - step) / (2 * step);
    if in_grid(q, off, 2 * step, 2 * step * h) {
        assert(r == (2 * t) * step) by (nonlinear_arith)
            requires
                r == 2 * step * t,
        ;
        lemma_mod_multiples_basic(2 * t, step);
    }
    if in_grid(q, off + step, 2 * step, 2 * step * h) {
        assert(r == (2 * u + 1) * step) by (nonlinear_arith)
            requires
                r - step == 2 * step * u,
        ;
        lemma_mod_multiples_basic(2 * u + 1, step);
        assert(r < 2 * step * h) by (nonlinear_arith)
            requires
                r - step == 2 * step * u,
                r - step < 2 * step * h,
                step > 0,
        ;
    }
    if in_grid(q, off, 2 * step, 2 * step * h) && in_grid(q, off + step, 2 * step, 2 * step * h) {
        assert(false) by (nonlinear_arith)
            requires
                r == 2 * step * t,
                r - step == 2 * step * u,
                step > 0,
        ;
    }
}

proof fn lemma_pow2_pos(d: nat)
    ensures
        pow2(d) >= 1,
        d > 0 ==> pow2(d) == 2 * pow2((d - 1) as nat),
    decreases d,
{
    if d > 0 {
        lemma_pow2_pos((d - 1) as nat);
    }
}

/// Positions of the two half grids, written as positions of the whole grid.
proof fn lemma_half_positions(off: int, step: int, k: int)
    ensures
        off + k * (2 * step) == off + (2 * k) * step,
        off + step + k * (2 * step) == off + (2 * k + 1) * step,
{
    assert(k * (2 * step) == (2 * k) * step) by (nonlinear_arith);
    assert(step + k * (2 * step) == (2 * k + 1) * step) by (nonlinear_arith);
}

proof fn lemma_butterfly_call<E, F: Fn(E, E, usize, usize) -> (E, E)>(
    f: F,
    e: E,
    o: E,
    k: usize,
    m: usize,
    r: (E, E),
)
    requires
        butterfly_ready(f),
        call_ensures(f, (e, o, k, m), r),
    ensures
        (butterfly_of(f))(e, o, k as int, m as int) == r,
{
    let c = choose|c: (E, E)| #[trigger] call_ensures(f, (e, o, k, m), c);
    assert(call_ensures(f, (e, o, k, m), c));
}

/// `2^(a + c) == 2^a * 2^c`.
proof fn lemma_pow2_add(a: nat, c: nat)
    ensures
        pow2(a + c) == pow2(a) * pow2(c),
    decreases c,
{
    if c == 0 {
        assert(pow2(c) == 1);
        assert(a + c == a);
        assert(pow2(a) * 1 == pow2(a));
    } else {
        let c1 = (c - 1) as nat;
        lemma_pow2_add(a, c1);
        let p = pow2(a);
        let q = pow2(c1);
        assert(pow2(a + c) == 2 * pow2(a + c1));
        assert(pow2(c) == 2 * q);
        assert(p * (2 * q) == 2 * (p * q)) by (nonlinear_arith);
    }
}

/// A power of two below another divides it: the quotient is `2^d` with `d >= 1`.
proof fn lemma_pow2_ratio(step: int, n: int) -> (d: nat)
    requires
        is_pow2(step),
        is_pow2(n),
        step < n,
    ensures
        d >= 1,
        n == step * pow2(d),
        is_pow2(2 * step),
{
    let s = choose|s: nat| pow2(s) == step;
    let t = choose|t: nat| pow2(t) == n;
    assert(pow2(s + 1) == 2 * step);
    if t <= s {
        lemma_pow2_add(t, (s - t) as nat);
        lemma_pow2_pos((s - t) as nat);
        assert(pow2(t) * pow2((s - t) as nat) >= pow2(t)) by (nonlinear_arith)
            requires
                pow2((s - t) as nat) >= 1,
                pow2(t) >= 0,
        ;
        assert(false);
    }
    let d = (t - s) as nat;
    lemma_pow2_add(s, d);
    assert(s + d == t);
    if d == 0 {
        assert(false);
    }
    d
}

/// One level of the ping-pong recursion.
///
/// The grid of this call is the `n / step` positions `off, off + step, ...`. The two halves
/// (even and odd entries) are transformed with the roles of `a` and `b` exchanged, which
/// leaves their transforms in `b`; the butterflies then read `b` and write into `a`, in natural
/// order. Nothing outside the grid is touched, whatever the buffers hold, and a call with
/// `step >= n` changes nothing. When `a` and `b` agree on the grid at entry, the grid of `a`
/// ends up holding the transform of what it held.
fn fft_inner<E: Copy, F: Fn(E, E, usize, usize) -> (E, E)>(
    a: &mut Vec<E>,
    b: &mut Vec<E>,
    n: usize,
    step: usize,
    off: usize,
    bf: &F,
)
    requires
        butterfly_ready(*bf),
        is_pow2(n as int),
        is_pow2(step as int),
        off + n < old(a).len() + step,
        off + n < old(b).len() + step,
    ensures
        final(a).len() == old(a).len(),
        final(b).len() == old(b).len(),
        forall|q: int|
            0 <= q < old(a).len() && !in_grid(q, off as int, step as int, n as int) ==> final(a)@[q]
                == old(a)@[q],
        forall|q: int|
            0 <= q < old(b).len() && !in_grid(q, off as int, step as int, n as int) ==> final(b)@[q]
                == old(b)@[q],
        step >= n ==> final(a)@ == old(a)@ && final(b)@ == old(b)@,
        strided(old(a)@, off as int, step as int, (n / step) as nat) == strided(
            old(b)@,
            off as int,
            step as int,
            (n / step) as nat,
        ) ==> strided(final(a)@, off as int, step as int, (n / step) as nat) == fft_spec(
            strided(old(a)@, off as int, step as int, (n / step) as nat),
            butterfly_of(*bf),
        ),
    decreases n - step,
{
    let ghost agree = strided(a@, off as int, step as int, (n / step) as nat) == strided(
        b@,
        off as int,
        step as int,
        (n / step) as nat,
    );
    if step >= n {
        proof {
            let d0 = choose|d0: nat| pow2(d0) == step;
            lemma_pow2_pos(d0);
            if step == n {
                assert(n / step == 1) by (nonlinear_arith)
                    requires
                        step == n,
                        step >= 1,
                ;
            } else {
                assert(n / step == 0) by (nonlinear_arith)
                    requires
                        0 <= n < step,
                ;
            }
        }
        return;
    }
    let ghost d = lemma_pow2_ratio(step as int, n as int);
    let ghost dd = (d - 1) as nat;
    let ghost h: int = pow2(dd) as int;
    proof {
        lemma_pow2_pos(d);
        lemma_pow2_pos(dd);
        assert(n == 2 * step * h) by (nonlinear_arith)
            requires
                n == step * pow2(d),
                pow2(d) == 2 * h,
        ;
        assert(n == h * (2 * step)) by (nonlinear_arith)
            requires
                n == 2 * step * h,
        ;
        assert(n / step == 2 * h) by (nonlinear_arith)
            requires
                n == 2 * step * h,
                step > 0,
        ;
        assert((n as int) / ((step as int) * 2) == h) by (nonlinear_arith)
            requires
                n == 2 * step * h,
                step > 0,
        ;
        assert(step * 2 <= n) by (nonlinear_arith)
            requires
                n == 2 * step * h,
                h >= 1,
        ;
    }
    let bfs = Ghost(butterfly_of(*bf));
    let ghost a0 = a@;
    let ghost b0 = b@;
    let ghost x = strided(a0, off as int, step as int, pow2(d));
    let ghost ev = evens(x);
    let ghost od = odds(x);
    proof {
        if agree {
            assert forall|k: int| 0 <= k < h implies #[trigger] strided(
                b0,
                off as int,
                2 * step,
                pow2(dd),
            )[k] == strided(a0, off as int, 2 * step, pow2(dd))[k] && strided(
                a0,
                off as int,
                2 * step,
                pow2(dd),
            )[k] == ev[k] by {
                lemma_half_positions(off as int, step as int, k);
                assert(x[2 * k] == strided(b0, off as int, step as int, pow2(d))[2 * k]);
            }
            assert(strided(b0, off as int, 2 * step, pow2(dd)) =~= strided(
                a0,
                off as int,
                2 * step,
                pow2(dd),
            ));
            assert(strided(a0, off as int, 2 * step, pow2(dd)) =~= ev);
        }
    }
    fft_inner(b, a, n, step * 2, off, bf);
    let ghost a1 = a@;
    let ghost b1 = b@;
    proof {
        if agree {
            assert forall|k: int| 0 <= k < h implies #[trigger] strided(
                b1,
                off + step,
                2 * step,
                pow2(dd),
            )[k] == strided(a1, off + step, 2 * step, pow2(dd))[k] && strided(
                a1,
                off + step,
                2 * step,
                pow2(dd),
            )[k] == od[k] by {
                lemma_half_positions(off as int, step as int, k);
                lemma_on_grid(off + step, 2 * step, h, k, n as int);
                lemma_split_grid(off + step + k * (2 * step), off as int, step as int, h, n as int);
                assert(x[2 * k + 1] == strided(b0, off as int, step as int, pow2(d))[2 * k + 1]);
            }
            assert(strided(b1, off + step, 2 * step, pow2(dd)) =~= strided(
                a1,
                off + step,
                2 * step,
                pow2(dd),
            ));
            assert(strided(a1, off + step, 2 * step, pow2(dd)) =~= od);
        }
    }
    fft_inner(b, a, n, step * 2, off + step, bf);
    let ghost a2 = a@;
    let ghost b2 = b@;
    let ghost ee = fft_spec(ev, bfs@);
    let ghost oo = fft_spec(od, bfs@);
    proof {
        if agree {
            assert forall|k: int| 0 <= k < h implies #[trigger] b2[off + k * (2 * step)] == ee[k]
                by {
                lemma_on_grid(off as int, 2 * step, h, k, n as int);
                lemma_split_grid(off + k * (2 * step), off as int, step as int, h, n as int);
                assert(strided(b1, off as int, 2 * step, pow2(dd))[k] == ee[k]);
            }
            assert forall|k: int| 0 <= k < h implies #[trigger] b2[off + step + k * (2 * step)]
                == oo[k] by {
                assert(strided(b2, off + step, 2 * step, pow2(dd))[k] == oo[k]);
            }
        }
        assert forall|q: int| 0 <= q < a0.len() && !in_grid(q, off as int, step as int, n as int)
            implies a2[q] == a0[q] by {
            lemma_split_grid(q, off as int, step as int, h, n as int);
        }
        assert forall|q: int| 0 <= q < b0.len() && !in_grid(q, off as int, step as int, n as int)
            implies b2[q] == b0[q] by {
            lemma_split_grid(q, off as int, step as int, h, n as int);
        }
    }
    let m = n / step;
    let half = n / 2;
    proof {
        assert(half == h * step) by (nonlinear_arith)
            requires
                n == 2 * step * h,
                half == n / 2,
        ;
        assert(n == 2 * (step * h)) by (nonlinear_arith)
            requires
                n == 2 * step * h,
        ;
    }
    // What the butterflies write: entry `k` and `k + h` from the pair that `b` holds for `k`.
    let ghost out = Seq::new(
        (2 * h) as nat,
        |j: int|
            if j < h {
                (bfs@)(b2[off + j * (2 * step)], b2[off + step + j * (2 * step)], j, 2 * h).0
            } else {
                (bfs@)(
                    b2[off + (j - h) * (2 * step)],
                    b2[off + step + (j - h) * (2 * step)],
                    j - h,
                    2 * h,
                ).1
            },
    );
    let mut k: usize = 0;
    let mut j: usize = 0;
    while k < m / 2
        invariant
            butterfly_ready(*bf),
            bfs@ == butterfly_of(*bf),
            step > 0,
            n == 2 * step * h,
            m == 2 * h,
            half == h * step,
            n == 2 * half,
            0 <= k <= h,
            j == k * step,
            off + n < a.len() + step,
            off + n < b.len() + step,
            a.len() == a0.len(),
            b@ == b2,
            out.len() == 2 * h,
            forall|j2: int|
                0 <= j2 < h ==> #[trigger] out[j2] == (bfs@)(
                    b2[off + j2 * (2 * step)],
                    b2[off + step + j2 * (2 * step)],
                    j2,
                    2 * h,
                ).0 && out[j2 + h] == (bfs@)(
                    b2[off + j2 * (2 * step)],
                    b2[off + step + j2 * (2 * step)],
                    j2,
                    2 * h,
                ).1,
            forall|k2: int|
                0 <= k2 < k ==> #[trigger] a@[off + k2 * step] == out[k2] && a@[off + (k2 + h)
                    * step] == out[k2 + h],
            forall|q: int|
                0 <= q < a.len() && !in_grid(q, off as int, step as int, n as int) ==> a@[q]
                    == a2[q],
        decreases h - k,
    {
        proof {
            assert(off + 2 * j == off + k * (2 * step) && off + 2 * j + step == off + step + k * (2
                * step) && off + half + j == off + (k + h) * step && j + step == (k + 1) * step)
                by (nonlinear_arith)
                requires
                    j == k * step,
                    half == h * step,
            ;
            assert(j + step <= half) by (nonlinear_arith)
                requires
                    j == k * step,
                    k < h,
                    half == h * step,
            ;
        }
        let e = b[off + 2 * j];
        let o = b[off + 2 * j + step];
        let (lo, hi) = bf(e, o, k, m);
        proof {
            lemma_butterfly_call(*bf, e, o, k, m, (lo, hi));
            assert(out[k as int] == lo);
            assert(out[k + h] == hi);
            assert((2 * h) * step == n) by (nonlinear_arith)
                requires
                    n == 2 * step * h,
            ;
            lemma_on_grid(off as int, step as int, 2 * h, k as int, n as int);
            lemma_on_grid(off as int, step as int, 2 * h, k + h, n as int);
        }
        let ghost ap = a@;
        a.set(off + j, lo);
        a.set(off + half + j, hi);
        proof {
            assert forall|k2: int| 0 <= k2 < k implies #[trigger] a@[off + k2 * step] == out[k2]
                && a@[off + (k2 + h) * step] == out[k2 + h] by {
                lemma_stride_injective(off as int, step as int, k2, k as int);
                lemma_stride_injective(off as int, step as int, k2, k + h);
                lemma_stride_injective(off as int, step as int, k2 + h, k as int);
                lemma_stride_injective(off as int, step as int, k2 + h, k + h);
                lemma_on_grid(off as int, step as int, 2 * h, k2, n as int);
                lemma_on_grid(off as int, step as int, 2 * h, k2 + h, n as int);
                assert(ap[off + k2 * step] == out[k2]);
                assert(ap[off + (k2 + h) * step] == out[k2 + h]);
            }
            lemma_stride_injective(off as int, step as int, k as int, k + h);
            assert(a@[off + k * step] == out[k as int]);
            assert(a@[off + (k + h) * step] == out[k + h]);
        }
        k = k + 1;
        j = j + step;
    }
    proof {
        assert(strided(a@, off as int, step as int, pow2(d)) =~= out) by {
            assert forall|k2: int| 0 <= k2 < pow2(d) implies strided(
                a@,
                off as int,
                step as int,
                pow2(d),
            )[k2] == out[k2] by {
                if k2 >= h {
                    let k3 = k2 - h;
                    assert(a@[off + k3 * step] == out[k3]);
                    assert(a@[off + (k3 + h) * step] == out[k3 + h]);
                }
            }
        }
        if agree {
            let y = fft_spec(x, bfs@);
            assert forall|k2: int| 0 <= k2 < pow2(d) implies out[k2] == y[k2] by {
                if k2 < h {
                    assert(out[k2] == (bfs@)(
                        b2[off + k2 * (2 * step)],
                        b2[off + step + k2 * (2 * step)],
                        k2,
                        2 * h,
                    ).0);
                    assert(b2[off + k2 * (2 * step)] == ee[k2]);
                    assert(b2[off + step + k2 * (2 * step)] == oo[k2]);
                } else {
                    let k3 = k2 - h;
                    assert(out[k3 + h] == (bfs@)(
                        b2[off + k3 * (2 * step)],
                        b2[off + step + k3 * (2 * step)],
                        k3,
                        2 * h,
                    ).1);
                    assert(b2[off + k3 * (2 * step)] == ee[k3]);
                    assert(b2[off + step + k3 * (2 * step)] == oo[k3]);
                }
            }
            assert(out =~= y);
        }
    }
}

/// Makes `b` agree with `a` on the `n` positions from `off`, then transforms those positions of
/// `a` in place; `b` serves as the second buffer of the ping-pong.
pub(crate) fn fft_range<E: Copy, F: Fn(E, E, usize, usize) -> (E, E)>(
    a: &mut Vec<E>,
    b: &mut Vec<E>,
    off: usize,
    n: usize,
    bf: &F,
)
    requires
        butterfly_ready(*bf),
        is_pow2(n as int),
        off + n <= old(a).len(),
        off + n <= old(b).len(),
    ensures
        final(a).len() == old(a).len(),
        final(b).len() == old(b).len(),
        final(a)@.subrange(off as int, off + n) == fft_spec(
            old(a)@.subrange(off as int, off + n),
            butterfly_of(*bf),
        ),
        forall|q: int|
            0 <= q < old(a).len() && !(off <= q < off + n) ==> final(a)@[q] == old(a)@[q],
{
    let ghost a0 = a@;
    let mut i: usize = off;
    while i < off + n
        invariant
            a@ == a0,
            off <= i <= off + n,
            off + n <= a.len(),
            off + n <= b.len(),
            b.len() == old(b).len(),
            forall|q: int| off <= q < i ==> b@[q] == a@[q],
        decreases off + n - i,
    {
        b.set(i, a[i]);
        i = i + 1;
    }
    let ghost a1 = a@;
    proof {
        assert(pow2(0) == 1);
        assert(n / 1 == n);
        assert(strided(a@, off as int, 1, n as nat) =~= a@.subrange(off as int, off + n));
        assert(strided(b@, off as int, 1, n as nat) =~= a@.subrange(off as int, off + n));
    }
    fft_inner(a, b, n, 1, off, bf);
    proof {
        assert(strided(a@, off as int, 1, n as nat) =~= a@.subrange(off as int, off + n));
        assert forall|q: int| 0 <= q < a0.len() && !(off <= q < off + n) implies a@[q] == a0[q] by {
            assert(!in_grid(q, off as int, 1, n as int));
            assert(a1[q] == a0[q]);
        }
    }
}

/// Transforms all of `a`, with `b` as the second buffer.
pub(crate) fn fft_pair<E: Copy, F: Fn(E, E, usize, usize) -> (E, E)>(
    a: &mut Vec<E>,
    b: &mut Vec<E>,
    bf: &F,
)
    requires
        butterfly_ready(*bf),
        is_pow2(old(a).len() as int),
        old(a).len() <= old(b).len(),
    ensures
        final(a)@ == fft_spec(old(a)@, butterfly_of(*bf)),
        final(b).len() == old(b).len(),
{
    let n = a.len();
    fft_range(a, b, 0, n, bf);
    proof {
        assert(old(a)@.subrange(0, n as int) =~= old(a)@);
        assert(a@.subrange(0, n as int) =~= a@);
    }
}

impl<E: Copy> FFT<E> for Swap<Vec<E>> {
    fn fft<F: Fn(E, E, usize, usize) -> (E, E)>(&mut self, bf: &F) {
        fft_pair(&mut self.a, &mut self.b, bf);
    }
}

/// The number of doublings that take 1 to at least `n`.
pub open spec fn ceil_log2(n: nat) -> nat
    decreases n,
{
    if n <= 1 {
        0
    } else {
        1 + ceil_log2(((n + 1) / 2) as nat)
    }
}

/// The least power of two that is not below `n`.
pub open spec fn padded_len(n: nat) -> nat {
    pow2(ceil_log2(n))
}

/// `x` followed by copies of `zero` up to length `len`.
pub open spec fn zero_padded<E>(x: Seq<E>, len: nat, zero: E) -> Seq<E> {
    x + Seq::new((len - x.len()) as nat, |i: int| zero)
}

/// `2^e` reaches `n` exactly when `e` is at least `ceil_log2(n)`.
proof fn lemma_ceil_log2(n: nat, e: nat)
    ensures
        pow2(e) >= n <==> e >= ceil_log2(n),
    decreases n, e,
{
    lemma_pow2_pos(e);
    if n > 1 {
        if e > 0 {
            lemma_ceil_log2(((n + 1) / 2) as nat, (e - 1) as nat);
        } else {
            assert(ceil_log2(n) >= 1);
        }
    }
}

/// Doubles from 1 until `n` is reached.
fn next_pow2(n: usize) -> (r: usize)
    requires
        n <= usize::MAX / 2 + 1,
    ensures
        r == padded_len(n as nat),
{
    let mut p: usize = 1;
    let ghost mut e: nat = 0;
    while p < n
        invariant
            p == pow2(e),
            p >= 1,
            n <= usize::MAX / 2 + 1,
            e == 0 || pow2((e - 1) as nat) < n,
        decreases 2 * n - p,
    {
        proof {
            lemma_pow2_pos(e);
            lemma_pow2_pos(e + 1);
        }
        p = p * 2;
        proof {
            e = e + 1;
        }
    }
    proof {
        lemma_ceil_log2(n as nat, e);
        if e > 0 {
            lemma_ceil_log2(n as nat, (e - 1) as nat);
        }
    }
    p
}

/// The transform of `input` zero-padded to the next power of two, left in `input`, which
/// grows to that length (a length that is already a power of two stays as it is).
///
/// `zero` is the value that pads. `maybe_buf` is the second buffer, of at least the padded
/// length; when none is given, one is allocated. Its contents before and after the call do not
/// matter.
pub fn fft_inplace<E: Copy, F: Fn(E, E, usize, usize) -> (E, E)>(
    input: &mut Vec<E>,
    maybe_buf: Option<&mut Vec<E>>,
    zero: E,
    bf: &F,
)
    requires
        butterfly_ready(*bf),
        old(input).len() <= usize::MAX / 2 + 1,
        match maybe_buf {
            Some(b) => padded_len(old(input).len() as nat) <= b.len(),
            None => true,
        },
    ensures
        final(input).len() == padded_len(old(input).len() as nat),
        final(input)@ == fft_spec(
            zero_padded(old(input)@, padded_len(old(input).len() as nat), zero),
            butterfly_of(*bf),
        ),
{
    let n = input.len();
    let npt = next_pow2(n);
    proof {
        lemma_ceil_log2(n as nat, ceil_log2(n as nat));
    }
    let ghost x = zero_padded(input@, npt as nat, zero);
    let mut i: usize = n;
    while i < npt
        invariant
            n <= i <= npt,
            input@ == x.take(i as int),
            x.len() == npt,
            forall|q: int| n <= q < npt ==> x[q] == zero,
        decreases npt - i,
    {
        input.push(zero);
        i = i + 1;
        proof {
            assert(input@ =~= x.take(i as int));
        }
    }
    proof {
        assert(input@ =~= x);
    }
    match maybe_buf {
        Some(b) => fft_pair(input, b, bf),
        None => {
            let mut owned = input.clone();
            fft_pair(input, &mut owned, bf);
        },
    }
}

} // verus!
