//! Reduction kernels and their fold relations.
//!
//! The scalar floating-point steps (fused multiply-accumulate, exponential,
//! maximum, division) are supplied by the caller as closures over bit
//! patterns; every loop, bound and buffer write here is verified, and each
//! contract pins the result to the closures' contracts on exactly the
//! operands the kernel is specified over.
use vstd::prelude::*;

verus! {

/// The bit pattern of single-precision negative infinity: the seed of the
/// running maximum in the numerically-stable softmax.
pub const NEG_INF_BITS: u32 = 0xff80_0000;

/// `out` is a possible result of folding `f` over `xs`, left to right,
/// starting from `init`.
pub open spec fn fold_rel<F: Fn(u32, u32) -> u32>(f: F, init: u32, xs: Seq<u32>, out: u32) -> bool
    decreases xs.len(),
{
    if xs.len() <= 0 {
        out == init
    } else {
        exists|mid: u32|
            #[trigger] call_ensures(f, (mid, xs.last()), out) && fold_rel(
                f,
                init,
                xs.drop_last(),
                mid,
            )
    }
}

/// `out` is a possible result of accumulating `f` over the element pairs of
/// `a` and `b`, left to right, starting from `init`: the dot-product
/// accumulation with the scalar step left abstract.
pub open spec fn fold2_rel<T1, T2, F: Fn(T1, T2, u32) -> u32>(
    f: F,
    init: u32,
    a: Seq<T1>,
    b: Seq<T2>,
    out: u32,
) -> bool
    decreases a.len(),
{
    if a.len() <= 0 {
        out == init
    } else {
        exists|mid: u32|
            #[trigger] call_ensures(f, (a.last(), b.last(), mid), out) && fold2_rel(
                f,
                init,
                a.drop_last(),
                b.drop_last(),
                mid,
            )
    }
}

/// A function value is deterministic when its contract admits only one
/// output per input triple.
pub open spec fn deterministic2<T1, T2, F: Fn(T1, T2, u32) -> u32>(f: F) -> bool {
    forall|x: T1, y: T2, acc: u32, r1: u32, r2: u32|
        call_ensures(f, (x, y, acc), r1) && call_ensures(f, (x, y, acc), r2) ==> r1 == r2
}

/// A deterministic accumulation step pins the fold to one value: any two
/// results of accumulating the same step over the same element pairs from
/// the same seed are equal. In particular, every cell of a matrix multiply
/// taken with a deterministic step equals the one dot product of its operand
/// rows.
pub proof fn lemma_fold2_rel_deterministic<T1, T2, F: Fn(T1, T2, u32) -> u32>(
    f: F,
    init: u32,
    a: Seq<T1>,
    b: Seq<T2>,
    r1: u32,
    r2: u32,
)
    requires
        deterministic2(f),
        fold2_rel(f, init, a, b, r1),
        fold2_rel(f, init, a, b, r2),
    ensures
        r1 == r2,
    decreases a.len(),
{
    if a.len() > 0 {
        let m1 = choose|mid: u32|
            #[trigger] call_ensures(f, (a.last(), b.last(), mid), r1) && fold2_rel(
                f,
                init,
                a.drop_last(),
                b.drop_last(),
                mid,
            );
        let m2 = choose|mid: u32|
            #[trigger] call_ensures(f, (a.last(), b.last(), mid), r2) && fold2_rel(
                f,
                init,
                a.drop_last(),
                b.drop_last(),
                mid,
            );
        lemma_fold2_rel_deterministic(f, init, a.drop_last(), b.drop_last(), m1, m2);
    }
}

/// Dot product over a contiguous run of `n` element pairs: accumulates the
/// caller's fused multiply-accumulate step left to right from zero.
pub fn dotv<T1: Copy, T2: Copy, F: Fn(T1, T2, u32) -> u32>(
    a: &[T1],
    off_a: usize,
    b: &[T2],
    off_b: usize,
    n: usize,
    step: &F,
) -> (r: u32)
    requires
        off_a + n <= a@.len(),
        off_b + n <= b@.len(),
        forall|x: T1, y: T2, acc: u32| call_requires(*step, (x, y, acc)),
    ensures
        fold2_rel(
            *step,
            0u32,
            a@.subrange(off_a as int, off_a + n),
            b@.subrange(off_b as int, off_b + n),
            r,
        ),
{
    let alen = a.len();
    let blen = b.len();
    let mut acc: u32 = 0;
    let mut i: usize = 0;
    while i < n
        invariant
            0 <= i <= n,
            off_a + n <= alen == a@.len(),
            off_b + n <= blen == b@.len(),
            forall|x: T1, y: T2, ac: u32| call_requires(*step, (x, y, ac)),
            fold2_rel(
                *step,
                0u32,
                a@.subrange(off_a as int, off_a + i),
                b@.subrange(off_b as int, off_b + i),
                acc,
            ),
        decreases n - i,
    {
        let x = a[off_a + i];
        let y = b[off_b + i];
        let next = step(x, y, acc);
        proof {
            assert(a@.subrange(off_a as int, off_a + i + 1).drop_last() =~= a@.subrange(
                off_a as int,
                off_a + i,
            ));
            assert(b@.subrange(off_b as int, off_b + i + 1).drop_last() =~= b@.subrange(
                off_b as int,
                off_b + i,
            ));
            assert(a@.subrange(off_a as int, off_a + i + 1).last() == a@[off_a + i]);
            assert(b@.subrange(off_b as int, off_b + i + 1).last() == b@[off_b + i]);
        }
        acc = next;
        i = i + 1;
    }
    acc
}

/// The four phases of the numerically-stable softmax, with their
/// intermediate values named: `m` is a fold of the running maximum over `x`,
/// `e[j]` is the shifted exponential of `x[j]`, `sum` folds the
/// exponentials, and `y[j]` divides each exponential by the sum.
pub open spec fn softmax_steps<
    F1: Fn(u32, u32) -> u32,
    F2: Fn(u32, u32) -> u32,
    F3: Fn(u32, u32) -> u32,
    F4: Fn(u32, u32) -> u32,
>(
    fmax: F1,
    fexpsub: F2,
    fadd: F3,
    fdiv: F4,
    x: Seq<u32>,
    y: Seq<u32>,
    m: u32,
    e: Seq<u32>,
    sum: u32,
) -> bool {
    &&& fold_rel(fmax, NEG_INF_BITS, x, m)
    &&& e.len() == x.len()
    &&& forall|j: int| 0 <= j < x.len() ==> call_ensures(fexpsub, (x[j], m), #[trigger] e[j])
    &&& fold_rel(fadd, 0u32, e, sum)
    &&& forall|j: int| 0 <= j < x.len() ==> call_ensures(fdiv, (e[j], sum), #[trigger] y[j])
}

/// `y` is a possible softmax of `x`: the row maximum is subtracted before
/// exponentiating, and every entry is normalized by the sum of the
/// exponentials.
pub open spec fn softmax_rel<
    F1: Fn(u32, u32) -> u32,
    F2: Fn(u32, u32) -> u32,
    F3: Fn(u32, u32) -> u32,
    F4: Fn(u32, u32) -> u32,
>(fmax: F1, fexpsub: F2, fadd: F3, fdiv: F4, x: Seq<u32>, y: Seq<u32>) -> bool {
    &&& y.len() == x.len()
    &&& exists|m: u32, e: Seq<u32>, sum: u32|
        #[trigger] softmax_steps(fmax, fexpsub, fadd, fdiv, x, y, m, e, sum)
}

/// Numerically-stable softmax over a score row, in place: folds the running
/// maximum, replaces every score by its shifted exponential, folds their
/// sum, and divides every entry by it.
#[verifier::loop_isolation(false)]
pub fn softmax_inplace<
    F1: Fn(u32, u32) -> u32,
    F2: Fn(u32, u32) -> u32,
    F3: Fn(u32, u32) -> u32,
    F4: Fn(u32, u32) -> u32,
>(x: &mut Vec<u32>, fmax: &F1, fexpsub: &F2, fadd: &F3, fdiv: &F4)
    requires
        forall|a: u32, b: u32| call_requires(*fmax, (a, b)),
        forall|a: u32, b: u32| call_requires(*fexpsub, (a, b)),
        forall|a: u32, b: u32| call_requires(*fadd, (a, b)),
        forall|a: u32, b: u32| call_requires(*fdiv, (a, b)),
    ensures
        softmax_rel(*fmax, *fexpsub, *fadd, *fdiv, old(x)@, final(x)@),
{
    let n = x.len();
    let mut m: u32 = NEG_INF_BITS;
    let mut j: usize = 0;
    while j < n
        invariant
            0 <= j <= n,
            x@ == old(x)@,
            fold_rel(*fmax, NEG_INF_BITS, x@.subrange(0, j as int), m),
        decreases n - j,
    {
        let next = fmax(m, x[j]);
        proof {
            assert(x@.subrange(0, j + 1).drop_last() =~= x@.subrange(0, j as int));
            assert(x@.subrange(0, j + 1).last() == x@[j as int]);
        }
        m = next;
        j = j + 1;
    }
    proof {
        assert(x@.subrange(0, n as int) =~= x@);
    }
    let mut j: usize = 0;
    while j < n
        invariant
            0 <= j <= n,
            x@.len() == n,
            forall|jj: int| 0 <= jj < j ==> call_ensures(*fexpsub, (old(x)@[jj], m), #[trigger] x@[jj]),
            forall|jj: int| j <= jj < n ==> x@[jj] == old(x)@[jj],
        decreases n - j,
    {
        let v = fexpsub(x[j], m);
        x[j] = v;
        j = j + 1;
    }
    let ghost e = x@;
    let mut sum: u32 = 0;
    let mut j: usize = 0;
    while j < n
        invariant
            0 <= j <= n,
            x@ == e,
            fold_rel(*fadd, 0u32, e.subrange(0, j as int), sum),
        decreases n - j,
    {
        let next = fadd(sum, x[j]);
        proof {
            assert(e.subrange(0, j + 1).drop_last() =~= e.subrange(0, j as int));
            assert(e.subrange(0, j + 1).last() == e[j as int]);
        }
        sum = next;
        j = j + 1;
    }
    proof {
        assert(e.subrange(0, n as int) =~= e);
    }
    let mut j: usize = 0;
    while j < n
        invariant
            0 <= j <= n,
            x@.len() == n,
            forall|jj: int| 0 <= jj < j ==> call_ensures(*fdiv, (e[jj], sum), #[trigger] x@[jj]),
            forall|jj: int| j <= jj < n ==> x@[jj] == e[jj],
        decreases n - j,
    {
        let v = fdiv(x[j], sum);
        x[j] = v;
        j = j + 1;
    }
    proof {
        assert(softmax_steps(*fmax, *fexpsub, *fadd, *fdiv, old(x)@, x@, m, e, sum));
    }
}

} // verus!
