//! Shape and stride algebra: row-major strides computed from a canonical
//! (rank-4) shape, and left-padding of lower-rank shapes with size-1
//! dimensions so every kernel can iterate uniformly over four nested loops.
use vstd::prelude::*;

verus! {

/// The canonical rank every shape is padded to for internal iteration.
pub const MAX_DIMS: usize = 4;

/// The number of elements a shape describes: the product of its extents.
pub open spec fn product(s: Seq<usize>) -> int
    decreases s.len(),
{
    if s.len() <= 0 {
        1
    } else {
        product(s.drop_last()) * s.last()
    }
}

/// A shape is an ordered sequence of one to four positive extents.
pub open spec fn valid_shape(s: Seq<usize>) -> bool {
    &&& 1 <= s.len() <= 4
    &&& forall|i: int| 0 <= i < s.len() ==> s[i] >= 1
}

/// A shape left-padded with size-1 dimensions to the canonical rank.
pub open spec fn extend_spec(s: Seq<usize>) -> Seq<usize> {
    Seq::new(
        4,
        |i: int|
            if i < 4 - s.len() {
                1usize
            } else {
                s[i - (4 - s.len())]
            },
    )
}

/// The row-major linear offset of the multi-index `(i, j, k, l)` into a
/// buffer of canonical shape `s` (last dimension fastest-varying).
pub open spec fn flat4(s: Seq<usize>, i: int, j: int, k: int, l: int) -> int {
    ((i * s[1] + j) * s[2] + k) * s[3] + l
}

pub proof fn lemma_product_pos(s: Seq<usize>)
    requires
        forall|i: int| 0 <= i < s.len() ==> s[i] >= 1,
    ensures
        product(s) >= 1,
    decreases s.len(),
{
    if s.len() > 0 {
        lemma_product_pos(s.drop_last());
        assert(product(s) >= 1) by (nonlinear_arith)
            requires
                product(s) == product(s.drop_last()) * s.last(),
                product(s.drop_last()) >= 1,
                s.last() >= 1,
        ;
    }
}

/// Splitting a shape at any point splits its element count multiplicatively.
pub proof fn lemma_product_split(s: Seq<usize>, n: int)
    requires
        0 <= n <= s.len(),
    ensures
        product(s) == product(s.subrange(0, n)) * product(s.skip(n)),
    decreases s.len() - n,
{
    if n == s.len() {
        assert(s.subrange(0, n) =~= s);
        assert(s.skip(n) =~= Seq::<usize>::empty());
    } else {
        lemma_product_split(s.drop_last(), n);
        assert(s.drop_last().subrange(0, n) =~= s.subrange(0, n));
        assert(s.drop_last().skip(n) =~= s.skip(n).drop_last());
        assert(s.skip(n).last() == s.last());
        assert(product(s.skip(n)) == product(s.skip(n).drop_last()) * s.last());
        assert(product(s) == (product(s.subrange(0, n)) * product(s.skip(n).drop_last()))
            * s.last());
        assert((product(s.subrange(0, n)) * product(s.skip(n).drop_last())) * s.last()
            == product(s.subrange(0, n)) * (product(s.skip(n).drop_last()) * s.last()))
            by (nonlinear_arith);
    }
}

/// A canonical shape's element count is the plain product of its four extents.
pub proof fn lemma_product4(s: Seq<usize>)
    requires
        s.len() == 4,
    ensures
        product(s) == ((s[0] * s[1]) * s[2]) * s[3],
{
    let s3 = s.drop_last();
    let s2 = s3.drop_last();
    let s1 = s2.drop_last();
    let s0 = s1.drop_last();
    assert(s0.len() == 0);
    assert(s1.last() == s[0] && s2.last() == s[1] && s3.last() == s[2] && s.last() == s[3]);
    assert(product(s1) == product(s0) * s[0]);
    assert(product(s2) == product(s1) * s[1]);
    assert(product(s3) == product(s2) * s[2]);
    assert(product(s) == product(s3) * s[3]);
    assert(product(s0) == 1);
    assert(product(s) == ((1 * s[0]) * s[1]) * s[2] * s[3]);
}

pub proof fn lemma_product1(s: Seq<usize>)
    requires
        s.len() == 1,
    ensures
        product(s) == s[0],
{
    assert(s.drop_last().len() == 0);
    assert(product(s.drop_last()) == 1);
    assert(s.last() == s[0]);
    assert(product(s) == 1 * s[0]);
    assert(1 * s[0] == s[0]) by (nonlinear_arith);
}

pub proof fn lemma_product2(s: Seq<usize>)
    requires
        s.len() == 2,
    ensures
        product(s) == s[0] * s[1],
{
    lemma_product1(s.drop_last());
    assert(s.drop_last()[0] == s[0] && s.last() == s[1]);
}

pub proof fn lemma_product_nonneg(s: Seq<usize>)
    ensures
        product(s) >= 0,
    decreases s.len(),
{
    if s.len() > 0 {
        lemma_product_nonneg(s.drop_last());
        assert(product(s.drop_last()) * s.last() >= 0) by (nonlinear_arith)
            requires
                product(s.drop_last()) >= 0,
                s.last() >= 0,
        ;
    }
}

/// A shape with a zero extent describes no elements.
pub proof fn lemma_product_zero(s: Seq<usize>, idx: int)
    requires
        0 <= idx < s.len(),
        s[idx] == 0,
    ensures
        product(s) == 0,
    decreases s.len(),
{
    if idx == s.len() - 1 {
        assert(product(s) == product(s.drop_last()) * 0);
        assert(product(s.drop_last()) * 0 == 0) by (nonlinear_arith);
    } else {
        lemma_product_zero(s.drop_last(), idx);
        assert(product(s) == 0 * s.last());
        assert(0 * s.last() == 0) by (nonlinear_arith);
    }
}

/// Left-padding with size-1 dimensions does not change the element count.
pub proof fn lemma_extend_product(s: Seq<usize>)
    requires
        1 <= s.len() <= 4,
    ensures
        product(extend_spec(s)) == product(s),
    decreases 4 - s.len(),
{
    let e = extend_spec(s);
    if s.len() == 4 {
        assert(e =~= s);
    } else {
        let one = seq![1usize];
        let t = one.add(s);
        assert(extend_spec(t) =~= e);
        lemma_extend_product(t);
        lemma_product_split(t, 1);
        assert(t.subrange(0, 1) =~= one);
        assert(t.skip(1) =~= s);
        assert(one.drop_last() =~= Seq::<usize>::empty());
        assert(one.last() == 1usize);
        assert(product(one) == product(one.drop_last()) * one.last());
        assert(product(one) == 1);
        assert(product(t) == product(one) * product(s));
        assert(product(e) == product(extend_spec(t)));
        assert(product(extend_spec(t)) == product(t));
        assert(1 * product(s) == product(s)) by (nonlinear_arith);
    }
}

pub proof fn lemma_extend_valid(s: Seq<usize>)
    requires
        valid_shape(s),
    ensures
        extend_spec(s).len() == 4,
        forall|i: int| 0 <= i < 4 ==> extend_spec(s)[i] >= 1,
        product(extend_spec(s)) == product(s),
{
    lemma_extend_product(s);
}

/// The row-major offset of a valid multi-index lies inside the buffer, and
/// so does every prefix of its Horner evaluation.
pub proof fn lemma_flat4_bounds(s: Seq<usize>, i: int, j: int, k: int, l: int)
    requires
        s.len() == 4,
        forall|d: int| 0 <= d < 4 ==> s[d] >= 1,
        0 <= i < s[0],
        0 <= j < s[1],
        0 <= k < s[2],
        0 <= l < s[3],
    ensures
        0 <= i * s[1] + j < s[0] * s[1],
        0 <= (i * s[1] + j) * s[2] + k < (s[0] * s[1]) * s[2],
        0 <= flat4(s, i, j, k, l) < product(s),
        s[0] * s[1] <= product(s),
        (s[0] * s[1]) * s[2] <= product(s),
{
    lemma_product4(s);
    assert(0 <= i * s[1] + j < s[0] * s[1]) by (nonlinear_arith)
        requires
            0 <= i < s[0],
            0 <= j < s[1],
            s[1] >= 1,
    ;
    let h1 = i * s[1] + j;
    assert(0 <= h1 * s[2] + k < (s[0] * s[1]) * s[2]) by (nonlinear_arith)
        requires
            0 <= h1 < s[0] * s[1],
            0 <= k < s[2],
            s[2] >= 1,
    ;
    let h2 = h1 * s[2] + k;
    assert(0 <= h2 * s[3] + l < ((s[0] * s[1]) * s[2]) * s[3]) by (nonlinear_arith)
        requires
            0 <= h2 < (s[0] * s[1]) * s[2],
            0 <= l < s[3],
            s[3] >= 1,
    ;
    assert(s[0] * s[1] <= product(s)) by (nonlinear_arith)
        requires
            product(s) == ((s[0] * s[1]) * s[2]) * s[3],
            s[0] >= 1,
            s[1] >= 1,
            s[2] >= 1,
            s[3] >= 1,
    ;
    assert((s[0] * s[1]) * s[2] <= product(s)) by (nonlinear_arith)
        requires
            product(s) == ((s[0] * s[1]) * s[2]) * s[3],
            s[0] >= 1,
            s[1] >= 1,
            s[2] >= 1,
            s[3] >= 1,
    ;
}

/// Stepping the innermost index past its extent lands on the next index of
/// the dimension above: the four nested loops walk the buffer contiguously.
pub proof fn lemma_flat4_step(s: Seq<usize>, i: int, j: int, k: int)
    requires
        s.len() == 4,
    ensures
        flat4(s, i, j, k, s[3] as int) == flat4(s, i, j, k + 1, 0),
        flat4(s, i, j, s[2] as int, 0) == flat4(s, i, j + 1, 0, 0),
        flat4(s, i, s[1] as int, 0, 0) == flat4(s, i + 1, 0, 0, 0),
{
    assert(((i * s[1] + j) * s[2] + k) * s[3] + s[3] == ((i * s[1] + j) * s[2] + (k + 1)) * s[3]
        + 0) by (nonlinear_arith);
    assert(((i * s[1] + j) * s[2] + s[2]) * s[3] == ((i * s[1] + (j + 1)) * s[2] + 0) * s[3])
        by (nonlinear_arith);
    assert(((i * s[1] + s[1]) * s[2]) * s[3] == (((i + 1) * s[1] + 0) * s[2] + 0) * s[3])
        by (nonlinear_arith);
}

/// The full sweep of the four loops covers exactly the whole buffer.
pub proof fn lemma_flat4_total(s: Seq<usize>)
    requires
        s.len() == 4,
    ensures
        flat4(s, s[0] as int, 0, 0, 0) == product(s),
{
    lemma_product4(s);
}

/// The four coordinates a row-major offset decomposes into; inverses of
/// `flat4`, one per dimension.
pub open spec fn un0(s: Seq<usize>, t: int) -> int {
    t / (((s[3] as int) * (s[2] as int)) * (s[1] as int))
}

pub open spec fn un1(s: Seq<usize>, t: int) -> int {
    (t / ((s[3] as int) * (s[2] as int))) % (s[1] as int)
}

pub open spec fn un2(s: Seq<usize>, t: int) -> int {
    (t / (s[3] as int)) % (s[2] as int)
}

pub open spec fn un3(s: Seq<usize>, t: int) -> int {
    t % (s[3] as int)
}

/// Decomposing the offset of a valid multi-index gives that index back; in
/// particular distinct valid multi-indices have distinct offsets.
pub proof fn lemma_flat4_inverse(s: Seq<usize>, i: int, j: int, k: int, l: int)
    requires
        s.len() == 4,
        forall|d: int| 0 <= d < 4 ==> s[d] >= 1,
        0 <= i < s[0],
        0 <= j < s[1],
        0 <= k < s[2],
        0 <= l < s[3],
    ensures
        un0(s, flat4(s, i, j, k, l)) == i,
        un1(s, flat4(s, i, j, k, l)) == j,
        un2(s, flat4(s, i, j, k, l)) == k,
        un3(s, flat4(s, i, j, k, l)) == l,
{
    let s1 = s[1] as int;
    let s2 = s[2] as int;
    let s3 = s[3] as int;
    let t = flat4(s, i, j, k, l);
    let b = i * s1 + j;
    let a = b * s2 + k;
    lemma_flat4_bounds(s, i, j, k, l);
    vstd::arithmetic::div_mod::lemma_fundamental_div_mod_converse(t, s3, a, l);
    assert(t % s3 == l && t / s3 == a);
    vstd::arithmetic::div_mod::lemma_fundamental_div_mod_converse(a, s2, b, k);
    assert(a % s2 == k && a / s2 == b);
    vstd::arithmetic::div_mod::lemma_fundamental_div_mod_converse(b, s1, i, j);
    assert(b % s1 == j && b / s1 == i);
    vstd::arithmetic::div_mod::lemma_div_denominator(t, s3, s2);
    assert(t / (s3 * s2) == b);
    vstd::arithmetic::div_mod::lemma_div_denominator(t, s3 * s2, s1);
    assert(t / ((s3 * s2) * s1) == i);
}

/// Computes the number of elements a shape describes, or `None` when that
/// count does not fit in `usize`.
pub fn checked_product(s: &Vec<usize>) -> (r: Option<usize>)
    requires
        forall|i: int| 0 <= i < s@.len() ==> s@[i] >= 1,
    ensures
        match r {
            Some(p) => p == product(s@),
            None => product(s@) > usize::MAX,
        },
{
    let mut acc: usize = 1;
    let mut i: usize = 0;
    while i < s.len()
        invariant
            0 <= i <= s@.len(),
            forall|d: int| 0 <= d < s@.len() ==> s@[d] >= 1,
            acc == product(s@.subrange(0, i as int)),
        decreases s@.len() - i,
    {
        let ghost pre = s@.subrange(0, i as int);
        match acc.checked_mul(s[i]) {
            Some(x) => {
                proof {
                    assert(s@.subrange(0, i + 1).drop_last() =~= pre);
                    assert(s@.subrange(0, i + 1).last() == s@[i as int]);
                }
                acc = x;
            },
            None => {
                proof {
                    assert(s@.subrange(0, i + 1).drop_last() =~= pre);
                    assert(s@.subrange(0, i + 1).last() == s@[i as int]);
                    lemma_product_split(s@, i + 1);
                    assert(forall|d: int|
                        0 <= d < s@.skip(i + 1).len() ==> #[trigger] s@.skip(i + 1)[d] >= 1);
                    lemma_product_pos(s@.skip(i + 1));
                    assert(product(s@.subrange(0, i + 1)) > usize::MAX);
                    assert(product(s@) >= product(s@.subrange(0, i + 1))) by (nonlinear_arith)
                        requires
                            product(s@) == product(s@.subrange(0, i + 1)) * product(s@.skip(i + 1)),
                            product(s@.skip(i + 1)) >= 1,
                            product(s@.subrange(0, i + 1)) >= 0,
                    ;
                }
                return None;
            },
        }
        i = i + 1;
    }
    proof {
        assert(s@.subrange(0, s@.len() as int) =~= s@);
    }
    Some(acc)
}

/// Left-pads a shape with size-1 dimensions up to the canonical rank.
pub fn extend_shape(s: &Vec<usize>) -> (r: Vec<usize>)
    requires
        1 <= s@.len() <= 4,
    ensures
        r@ == extend_spec(s@),
        r@.len() == 4,
{
    let pad = MAX_DIMS - s.len();
    let mut r: Vec<usize> = Vec::new();
    let mut i: usize = 0;
    while i < pad
        invariant
            0 <= i <= pad,
            pad == 4 - s@.len(),
            r@.len() == i,
            forall|d: int| 0 <= d < i ==> r@[d] == 1usize,
        decreases pad - i,
    {
        r.push(1);
        i = i + 1;
    }
    let mut j: usize = 0;
    while j < s.len()
        invariant
            0 <= j <= s@.len(),
            pad == 4 - s@.len(),
            r@.len() == pad + j,
            forall|d: int| 0 <= d < pad ==> r@[d] == 1usize,
            forall|d: int| 0 <= d < j ==> r@[pad + d] == s@[d],
        decreases s@.len() - j,
    {
        r.push(s[j]);
        j = j + 1;
    }
    proof {
        assert(r@ =~= extend_spec(s@));
    }
    r
}

/// Row-major strides for a canonical shape: `stride[3] == 1` and
/// `stride[d] == stride[d + 1] * shape[d + 1]`, so that
/// `sum(index[d] * stride[d])` is the linear offset of `index`.
pub fn to_strides(s: &Vec<usize>) -> (r: Vec<usize>)
    requires
        s@.len() == 4,
        forall|d: int| 0 <= d < 4 ==> s@[d] >= 1,
        product(s@) <= usize::MAX,
    ensures
        r@.len() == 4,
        r@[3] == 1,
        forall|d: int| 0 <= d < 3 ==> #[trigger] r@[d] == r@[d + 1] * s@[d + 1],
        forall|i: int, j: int, k: int, l: int|
            0 <= i < s@[0] && 0 <= j < s@[1] && 0 <= k < s@[2] && 0 <= l < s@[3] ==> i * r@[0] + j
                * r@[1] + k * r@[2] + l * r@[3] == flat4(s@, i, j, k, l),
{
    proof {
        lemma_product4(s@);
        assert(s@[3] * s@[2] <= product(s@) && (s@[3] * s@[2]) * s@[1] <= product(s@))
            by (nonlinear_arith)
            requires
                product(s@) == ((s@[0] * s@[1]) * s@[2]) * s@[3],
                s@[0] >= 1,
                s@[1] >= 1,
                s@[2] >= 1,
                s@[3] >= 1,
        ;
    }
    let st2: usize = s[3];
    let st1: usize = st2 * s[2];
    let st0: usize = st1 * s[1];
    let mut r: Vec<usize> = Vec::new();
    r.push(st0);
    r.push(st1);
    r.push(st2);
    r.push(1);
    proof {
        assert(r@[2] == r@[3] * s@[3]) by (nonlinear_arith)
            requires
                r@[2] == s@[3],
                r@[3] == 1,
        ;
        assert forall|i: int, j: int, k: int, l: int|
            0 <= i < s@[0] && 0 <= j < s@[1] && 0 <= k < s@[2] && 0 <= l
                < s@[3] implies i * r@[0] + j * r@[1] + k * r@[2] + l * r@[3] == flat4(
            s@,
            i,
            j,
            k,
            l,
        ) by {
            assert(i * ((s@[3] * s@[2]) * s@[1]) + j * (s@[3] * s@[2]) + k * s@[3] + l * 1 == ((i
                * s@[1] + j) * s@[2] + k) * s@[3] + l) by (nonlinear_arith);
        }
    }
    r
}

/// The row-major offset of a valid multi-index into a canonical shape.
pub fn flat_index(s: &Vec<usize>, i: usize, j: usize, k: usize, l: usize) -> (t: usize)
    requires
        s@.len() == 4,
        forall|d: int| 0 <= d < 4 ==> s@[d] >= 1,
        product(s@) <= usize::MAX,
        i < s@[0],
        j < s@[1],
        k < s@[2],
        l < s@[3],
    ensures
        t == flat4(s@, i as int, j as int, k as int, l as int),
        t < product(s@),
{
    proof {
        lemma_flat4_bounds(s@, i as int, j as int, k as int, l as int);
    }
    ((i * s[1] + j) * s[2] + k) * s[3] + l
}

} // verus!
