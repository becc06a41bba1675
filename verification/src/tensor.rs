//! The tensor value type: an immutable-once-built, shared-ownership container
//! pairing a flat row-major buffer with a shape of rank one to four.
//!
//! `reshape` shares the underlying buffer (a pure relabeling); every other
//! operation allocates a fresh buffer, writes it while it is exclusively
//! owned, and freezes it into the shared handle it returns.
use vstd::prelude::*;

use crate::shape::{
    checked_product, extend_shape, extend_spec, flat4, flat_index, lemma_extend_product,
    lemma_extend_valid, lemma_flat4_bounds, lemma_flat4_inverse, lemma_flat4_step,
    lemma_flat4_total, product, valid_shape, MAX_DIMS,
};
use crate::TensorError;
use std::sync::Arc;
use vstd::slice::slice_to_vec;

verus! {

/// An element a tensor can store: a plain bit pattern with a zero value.
/// Half-precision values travel as `u16`, single-precision values as `u32`,
/// gather indices as `usize`.
pub trait TensorElement: Copy + Sized {
    spec fn zero_spec() -> Self;

    fn zero() -> (r: Self)
        ensures
            r == Self::zero_spec(),
    ;
}

impl TensorElement for u16 {
    open spec fn zero_spec() -> u16 {
        0u16
    }

    fn zero() -> (r: u16) {
        0
    }
}

impl TensorElement for u32 {
    open spec fn zero_spec() -> u32 {
        0u32
    }

    fn zero() -> (r: u32) {
        0
    }
}

impl TensorElement for usize {
    open spec fn zero_spec() -> usize {
        0usize
    }

    fn zero() -> (r: usize) {
        0
    }
}

/// The mathematical value of a tensor: its flat row-major contents and its
/// declared shape.
pub ghost struct TensorView<T> {
    pub data: Seq<T>,
    pub shape: Seq<usize>,
}

/// A well-formed tensor view: a valid shape whose element count matches the
/// buffer length.
pub open spec fn view_wf<T>(v: TensorView<T>) -> bool {
    &&& valid_shape(v.shape)
    &&& v.data.len() == product(v.shape)
}

/// The view of a reshape: the same contents under a new shape.
pub open spec fn reshaped<T>(v: TensorView<T>, s2: Seq<usize>) -> TensorView<T> {
    TensorView { data: v.data, shape: s2 }
}

/// Reshaping to any compatible shape and then back to the original shape is
/// lossless: the round trip restores the original tensor view exactly,
/// element for element.
pub proof fn lemma_reshape_round_trip<T>(v: TensorView<T>, s2: Seq<usize>)
    ensures
        reshaped(reshaped(v, s2), v.shape) == v,
{
}

pub struct Tensor<T> {
    data: Arc<Vec<T>>,
    shape: Vec<usize>,
}

impl<T> View for Tensor<T> {
    type V = TensorView<T>;

    closed spec fn view(&self) -> TensorView<T> {
        TensorView { data: self.data@, shape: self.shape@ }
    }
}

impl<T: TensorElement> Tensor<T> {
    pub open spec fn wf(&self) -> bool {
        view_wf(self@)
    }

    /// Builds a tensor from a flat row-major buffer and a shape; refuses the
    /// pair unless the shape is valid and the buffer holds exactly
    /// `product(shape)` elements.
    pub fn new(data: Vec<T>, shape: Vec<usize>) -> (r: Result<Tensor<T>, TensorError>)
        ensures
            match r {
                Ok(t) => {
                    &&& valid_shape(shape@)
                    &&& data@.len() == product(shape@)
                    &&& t@.data == data@
                    &&& t@.shape == shape@
                    &&& t.wf()
                },
                Err(e) => {
                    &&& e == TensorError::InvalidShape
                    &&& !(valid_shape(shape@) && data@.len() == product(shape@))
                },
            },
    {
        let n = data.len();
        if shape.len() < 1 || shape.len() > MAX_DIMS {
            return Err(TensorError::InvalidShape);
        }
        let mut d: usize = 0;
        while d < shape.len()
            invariant
                0 <= d <= shape@.len(),
                forall|e: int| 0 <= e < d ==> shape@[e] >= 1,
            decreases shape@.len() - d,
        {
            if shape[d] == 0 {
                return Err(TensorError::InvalidShape);
            }
            d = d + 1;
        }
        match checked_product(&shape) {
            Some(p) => {
                if p == n {
                    Ok(Tensor { data: Arc::new(data), shape })
                } else {
                    Err(TensorError::InvalidShape)
                }
            },
            None => Err(TensorError::InvalidShape),
        }
    }

    /// A tensor of the given shape whose every element is the element type's
    /// zero value.
    pub fn zeros(shape: Vec<usize>) -> (r: Tensor<T>)
        requires
            valid_shape(shape@),
            product(shape@) <= usize::MAX,
        ensures
            r@.shape == shape@,
            r@.data.len() == product(shape@),
            forall|t: int| 0 <= t < r@.data.len() ==> r@.data[t] == T::zero_spec(),
            r.wf(),
    {
        let p = match checked_product(&shape) {
            Some(p) => p,
            None => {
                proof {
                    assert(false);
                }
                0
            },
        };
        let mut data: Vec<T> = Vec::new();
        let mut t: usize = 0;
        while t < p
            invariant
                data@.len() == t,
                0 <= t <= p,
                forall|e: int| 0 <= e < t ==> data@[e] == T::zero_spec(),
            decreases p - t,
        {
            data.push(T::zero());
            t = t + 1;
        }
        Tensor { data: Arc::new(data), shape }
    }

    /// The tensor's own declared shape.
    pub fn shape(&self) -> (r: Vec<usize>)
        ensures
            r@ == self@.shape,
    {
        slice_to_vec(self.shape.as_slice())
    }

    /// Reinterprets the buffer under a new shape of the same element count:
    /// a pure relabeling that shares the existing buffer, with no copy.
    /// Refuses the shape unless it is valid and preserves the element count.
    pub fn reshape(&self, shape2: Vec<usize>) -> (r: Result<Tensor<T>, TensorError>)
        requires
            self.wf(),
        ensures
            match r {
                Ok(t) => {
                    &&& valid_shape(shape2@)
                    &&& product(shape2@) == product(self@.shape)
                    &&& t@ == reshaped(self@, shape2@)
                    &&& t.wf()
                },
                Err(e) => {
                    &&& e == TensorError::ShapeMismatch
                    &&& !(valid_shape(shape2@) && product(shape2@) == product(self@.shape))
                },
            },
    {
        if shape2.len() < 1 || shape2.len() > MAX_DIMS {
            return Err(TensorError::ShapeMismatch);
        }
        let mut d: usize = 0;
        while d < shape2.len()
            invariant
                0 <= d <= shape2@.len(),
                forall|e: int| 0 <= e < d ==> shape2@[e] >= 1,
            decreases shape2@.len() - d,
        {
            if shape2[d] == 0 {
                return Err(TensorError::ShapeMismatch);
            }
            d = d + 1;
        }
        let n = self.data.len();
        match checked_product(&shape2) {
            Some(p) => {
                if p == n {
                    Ok(Tensor { data: Arc::clone(&self.data), shape: shape2 })
                } else {
                    Err(TensorError::ShapeMismatch)
                }
            },
            None => {
                proof {
                    assert(product(self@.shape) == n as int);
                }
                Err(TensorError::ShapeMismatch)
            },
        }
    }
}

/// Every target extent of the canonical shapes is an exact multiple of the
/// matching source extent.
pub open spec fn divides_all(s1: Seq<usize>, s2: Seq<usize>) -> bool {
    forall|d: int|
        0 <= d < 4 ==> #[trigger] ((extend_spec(s2)[d] as int) % (extend_spec(s1)[d] as int)) == 0
}

/// Every already-written output cell of a tiling is the source element at
/// the componentwise remainder of its multi-index.
pub open spec fn tile_prefix<T>(
    src: Seq<T>,
    e1: Seq<usize>,
    out: Seq<T>,
    e2: Seq<usize>,
) -> bool {
    forall|i: int, j: int, k: int, l: int|
        0 <= i < e2[0] && 0 <= j < e2[1] && 0 <= k < e2[2] && 0 <= l < e2[3] && flat4(e2, i, j, k, l)
            < out.len() ==> out[#[trigger] flat4(e2, i, j, k, l)] == src[flat4(
            e1,
            i % (e1[0] as int),
            j % (e1[1] as int),
            k % (e1[2] as int),
            l % (e1[3] as int),
        )]
}

/// The output of a tiling: every element of `out`, indexed by a multi-index
/// of its canonical shape, is the source element at the componentwise
/// remainder of that multi-index.
pub open spec fn tiles<T>(src: TensorView<T>, out: TensorView<T>) -> bool {
    tile_prefix(src.data, extend_spec(src.shape), out.data, extend_spec(out.shape))
}

impl<T: TensorElement> Tensor<T> {
    /// Copies this tensor's contents into every tile position of a freshly
    /// allocated buffer of shape `shape2` (shapes aligned at their last
    /// dimension). Fails, before any write, if and only if some extent of
    /// `shape2` is not an exact multiple of the matching source extent.
    #[verifier::loop_isolation(false)]
    pub fn repeat(&self, shape2: Vec<usize>) -> (r: Result<Tensor<T>, TensorError>)
        requires
            self.wf(),
            valid_shape(shape2@),
            shape2@.len() >= self@.shape.len(),
            product(shape2@) <= usize::MAX,
        ensures
            match r {
                Ok(t) => {
                    &&& divides_all(self@.shape, shape2@)
                    &&& t@.shape == shape2@
                    &&& t.wf()
                    &&& tiles(self@, t@)
                },
                Err(e) => {
                    &&& e == TensorError::DimensionMismatch
                    &&& !divides_all(self@.shape, shape2@)
                },
            },
    {
        proof {
            lemma_extend_valid(self@.shape);
            lemma_extend_valid(shape2@);
        }
        let e1 = extend_shape(&self.shape);
        let e2 = extend_shape(&shape2);
        let ghost ev1 = e1@;
        let ghost ev2 = e2@;
        let n_src = self.data.len();
        let mut d: usize = 0;
        while d < MAX_DIMS
            invariant
                0 <= d <= 4,
                forall|e: int| 0 <= e < d ==> #[trigger] ((ev2[e] as int) % (ev1[e] as int)) == 0,
            decreases 4 - d,
        {
            if e2[d] % e1[d] != 0 {
                return Err(TensorError::DimensionMismatch);
            }
            d = d + 1;
        }
        let mut out: Vec<T> = Vec::new();
        proof {
            assert(flat4(ev2, 0, 0, 0, 0) == 0) by (nonlinear_arith);
        }
        let mut i: usize = 0;
        while i < e2[0]
            invariant
                0 <= i <= ev2[0],
                out@.len() == flat4(ev2, i as int, 0, 0, 0),
                tile_prefix(self@.data, ev1, out@, ev2),
            decreases ev2[0] - i,
        {
            let mut j: usize = 0;
            while j < e2[1]
                invariant
                    0 <= j <= ev2[1],
                    out@.len() == flat4(ev2, i as int, j as int, 0, 0),
                    tile_prefix(self@.data, ev1, out@, ev2),
                decreases ev2[1] - j,
            {
                let mut k: usize = 0;
                while k < e2[2]
                    invariant
                        0 <= k <= ev2[2],
                        out@.len() == flat4(ev2, i as int, j as int, k as int, 0),
                        tile_prefix(self@.data, ev1, out@, ev2),
                    decreases ev2[2] - k,
                {
                    let mut l: usize = 0;
                    while l < e2[3]
                        invariant
                            0 <= l <= ev2[3],
                            out@.len() == flat4(ev2, i as int, j as int, k as int, l as int),
                            tile_prefix(self@.data, ev1, out@, ev2),
                        decreases ev2[3] - l,
                    {
                        proof {
                            lemma_flat4_bounds(ev2, i as int, j as int, k as int, l as int);
                        }
                        let si = i % e1[0];
                        let sj = j % e1[1];
                        let sk = k % e1[2];
                        let sl = l % e1[3];
                        let sidx = flat_index(&e1, si, sj, sk, sl);
                        let v = self.data[sidx];
                        let ghost oldout = out@;
                        out.push(v);
                        proof {
                            assert forall|a: int, b: int, c: int, e: int|
                                0 <= a < ev2[0] && 0 <= b < ev2[1] && 0 <= c < ev2[2] && 0 <= e
                                    < ev2[3] && flat4(ev2, a, b, c, e)
                                    < out@.len() implies out@[#[trigger] flat4(ev2, a, b, c, e)]
                                == self@.data[flat4(
                                ev1,
                                a % (ev1[0] as int),
                                b % (ev1[1] as int),
                                c % (ev1[2] as int),
                                e % (ev1[3] as int),
                            )] by {
                                if flat4(ev2, a, b, c, e) < oldout.len() {
                                    assert(out@[flat4(ev2, a, b, c, e)] == oldout[flat4(
                                        ev2,
                                        a,
                                        b,
                                        c,
                                        e,
                                    )]);
                                } else {
                                    lemma_flat4_inverse(ev2, a, b, c, e);
                                    lemma_flat4_inverse(
                                        ev2,
                                        i as int,
                                        j as int,
                                        k as int,
                                        l as int,
                                    );
                                    assert(a == i as int && b == j as int && c == k as int && e
                                        == l as int);
                                }
                            }
                        }
                        l = l + 1;
                    }
                    proof {
                        lemma_flat4_step(ev2, i as int, j as int, k as int);
                    }
                    k = k + 1;
                }
                proof {
                    lemma_flat4_step(ev2, i as int, j as int, 0);
                }
                j = j + 1;
            }
            proof {
                lemma_flat4_step(ev2, i as int, 0, 0);
            }
            i = i + 1;
        }
        proof {
            lemma_flat4_total(ev2);
        }
        Ok(Tensor { data: Arc::new(out), shape: shape2 })
    }
}

/// Cell `(i, c)` of a gather output is element `c` of source row
/// `idxs.data[i]`, copied verbatim.
pub open spec fn gather_cell_ok<T>(
    src: TensorView<T>,
    idxs: TensorView<usize>,
    out: Seq<T>,
    i: int,
    c: int,
) -> bool {
    out[i * (src.shape[1] as int) + c] == src.data[(idxs.data[i] as int) * (src.shape[1] as int)
        + c]
}

impl<T: TensorElement> Tensor<T> {
    /// Selects whole rows of this 2-D tensor by an index vector: row `i` of
    /// the result is a verbatim copy of source row `idxs[i]` (the embedding
    /// lookup primitive). Fails, before any write, if and only if some index
    /// is at least the source's row count.
    #[verifier::loop_isolation(false)]
    pub fn get_rows(&self, idxs: &Tensor<usize>) -> (r: Result<Tensor<T>, TensorError>)
        requires
            self.wf(),
            idxs.wf(),
            self@.shape.len() == 2,
            idxs@.shape.len() == 1,
            (idxs@.shape[0] as int) * (self@.shape[1] as int) <= usize::MAX,
        ensures
            match r {
                Ok(t) => {
                    &&& forall|i: int|
                        0 <= i < idxs@.data.len() ==> (#[trigger] idxs@.data[i]) < self@.shape[0]
                    &&& t@.shape == seq![idxs@.shape[0], self@.shape[1]]
                    &&& t.wf()
                    &&& forall|i: int, c: int|
                        0 <= i < idxs@.data.len() && 0 <= c < self@.shape[1]
                            ==> #[trigger] gather_cell_ok(self@, idxs@, t@.data, i, c)
                },
                Err(e) => {
                    &&& e == TensorError::IndexOutOfRange
                    &&& exists|i: int|
                        0 <= i < idxs@.data.len() && (#[trigger] idxs@.data[i]) >= self@.shape[0]
                },
            },
    {
        proof {
            crate::shape::lemma_product2(self@.shape);
            crate::shape::lemma_product1(idxs@.shape);
        }
        let rows = self.shape[0];
        let cols = self.shape[1];
        let k = idxs.data.len();
        let n_src = self.data.len();
        proof {
            assert(self@.data.len() == n_src as int);
            assert((rows as int) * (cols as int) == product(self@.shape));
            assert(idxs@.data.len() == idxs@.shape[0]);
        }
        let mut i: usize = 0;
        while i < k
            invariant
                0 <= i <= k,
                forall|e: int| 0 <= e < i ==> (#[trigger] idxs@.data[e]) < rows,
            decreases k - i,
        {
            if idxs.data[i] >= rows {
                return Err(TensorError::IndexOutOfRange);
            }
            i = i + 1;
        }
        let mut out: Vec<T> = Vec::new();
        let mut i: usize = 0;
        while i < k
            invariant
                0 <= i <= k,
                out@.len() == i * (cols as int),
                forall|a: int, c: int|
                    0 <= a < i && 0 <= c < cols ==> #[trigger] gather_cell_ok(
                        self@,
                        idxs@,
                        out@,
                        a,
                        c,
                    ),
            decreases k - i,
        {
            let idx = idxs.data[i];
            proof {
                assert((idx as int) * (cols as int) + (cols as int) <= (rows as int) * (
                cols as int)) by (nonlinear_arith)
                    requires
                        0 <= idx as int <= (rows as int) - 1,
                        cols as int >= 1,
                ;
                assert((i as int) * (cols as int) + (cols as int) <= (k as int) * (cols as int))
                    by (nonlinear_arith)
                    requires
                        0 <= i as int <= (k as int) - 1,
                        cols as int >= 1,
                ;
            }
            let base = idx * cols;
            let obase = i * cols;
            let mut c: usize = 0;
            while c < cols
                invariant
                    0 <= c <= cols,
                    out@.len() == obase + c,
                    forall|a: int, cc: int|
                        0 <= a < i && 0 <= cc < cols ==> #[trigger] gather_cell_ok(
                            self@,
                            idxs@,
                            out@,
                            a,
                            cc,
                        ),
                    forall|cc: int|
                        0 <= cc < c ==> #[trigger] gather_cell_ok(self@, idxs@, out@, i as int, cc),
                decreases cols - c,
            {
                let ghost oldout = out@;
                out.push(self.data[base + c]);
                proof {
                    assert forall|a: int, cc: int|
                        0 <= a < i && 0 <= cc < cols implies #[trigger] gather_cell_ok(
                        self@,
                        idxs@,
                        out@,
                        a,
                        cc,
                    ) by {
                        assert(a * (cols as int) + cc < i * (cols as int)) by (nonlinear_arith)
                            requires
                                0 <= a < i as int,
                                0 <= cc < cols as int,
                        ;
                        assert(gather_cell_ok(self@, idxs@, oldout, a, cc));
                    }
                    assert forall|cc: int| 0 <= cc < c + 1 implies #[trigger] gather_cell_ok(
                        self@,
                        idxs@,
                        out@,
                        i as int,
                        cc,
                    ) by {
                        if cc < c {
                            assert(gather_cell_ok(self@, idxs@, oldout, i as int, cc));
                        } else {
                            assert(out@[i as int * (cols as int) + cc] == self@.data[(idx as int) * (
                            cols as int) + cc]);
                        }
                    }
                }
                c = c + 1;
            }
            proof {
                assert((i as int + 1) * (cols as int) == i as int * (cols as int) + cols as int)
                    by (nonlinear_arith);
            }
            i = i + 1;
        }
        let mut oshape: Vec<usize> = Vec::new();
        oshape.push(k);
        oshape.push(cols);
        proof {
            assert(oshape@ =~= seq![idxs@.shape[0], self@.shape[1]]);
            crate::shape::lemma_product2(oshape@);
        }
        Ok(Tensor { data: Arc::new(out), shape: oshape })
    }
}

/// The canonical (rank-4) result shape of a batched matrix multiply: the
/// shared batch extents, the row extent of `a`, the row extent of `bt`.
pub open spec fn matmul_shape4(sa: Seq<usize>, sb: Seq<usize>) -> Seq<usize> {
    seq![extend_spec(sa)[0], extend_spec(sa)[1], extend_spec(sa)[2], extend_spec(sb)[2]]
}

/// The declared result shape: the canonical result truncated to the larger
/// of the two operand ranks (the dropped leading extents are all 1).
pub open spec fn matmul_shape(sa: Seq<usize>, sb: Seq<usize>) -> Seq<usize> {
    let rank = if sa.len() >= sb.len() {
        sa.len() as int
    } else {
        sb.len() as int
    };
    matmul_shape4(sa, sb).skip(4 - rank)
}

/// The operands of a batched matrix multiply agree: equal batch extents and
/// equal contraction extents.
pub open spec fn matmul_compatible(sa: Seq<usize>, sb: Seq<usize>) -> bool {
    &&& extend_spec(sa)[0] == extend_spec(sb)[0]
    &&& extend_spec(sa)[1] == extend_spec(sb)[1]
    &&& extend_spec(sa)[3] == extend_spec(sb)[3]
}

/// Cell `(i, j, r, c)` of a batched matrix multiply is the dot product of
/// row `r` of `a` and row `c` of `bt` in batch `(i, j)`, accumulated by
/// `step` left to right from zero and written back through `round`.
pub open spec fn matmul_cell_ok<T1, T2, U, FS: Fn(T1, T2, u32) -> u32, FR: Fn(u32) -> U>(
    a: Seq<T1>,
    sa: Seq<usize>,
    bt: Seq<T2>,
    sb: Seq<usize>,
    out: Seq<U>,
    step: FS,
    round: FR,
    i: int,
    j: int,
    r: int,
    c: int,
) -> bool {
    let ea = extend_spec(sa);
    let eb = extend_spec(sb);
    let n = ea[3] as int;
    let base_a = flat4(ea, i, j, r, 0);
    let base_b = flat4(eb, i, j, c, 0);
    exists|acc: u32|
        #[trigger] call_ensures(round, (acc,), out[flat4(matmul_shape4(sa, sb), i, j, r, c)])
            && crate::ops::fold2_rel(
            step,
            0u32,
            a.subrange(base_a, base_a + n),
            bt.subrange(base_b, base_b + n),
            acc,
        )
}

/// Every cell of a finished batched matrix multiply is the rounded dot
/// product of its operand rows.
pub open spec fn matmul_cells_ok<T1, T2, U, FS: Fn(T1, T2, u32) -> u32, FR: Fn(u32) -> U>(
    a: Seq<T1>,
    sa: Seq<usize>,
    bt: Seq<T2>,
    sb: Seq<usize>,
    out: Seq<U>,
    step: FS,
    round: FR,
) -> bool {
    forall|i: int, j: int, r: int, c: int|
        0 <= i < matmul_shape4(sa, sb)[0] && 0 <= j < matmul_shape4(sa, sb)[1] && 0 <= r
            < matmul_shape4(sa, sb)[2] && 0 <= c < matmul_shape4(sa, sb)[3]
            ==> #[trigger] matmul_cell_ok(a, sa, bt, sb, out, step, round, i, j, r, c)
}

impl<T: TensorElement> Tensor<T> {
    /// Generic batched matrix multiplication. With both operands
    /// canonicalized to rank 4, `self` is `[b1, b0, m, n]` and `bt` is
    /// `[b1, b0, p, n]` (the second operand arrives transposed, sharing the
    /// contraction extent `n`); the result has shape `[b1, b0, m, p]` and
    /// cell `(i, j, r, c)` is the dot product of row `r` of `self` and row
    /// `c` of `bt`, accumulated by `step` left to right from zero and
    /// written back through `round`. Fails, before any write, if and only
    /// if the batch extents or the contraction extents differ.
    #[verifier::loop_isolation(false)]
    pub fn matmul<T2, U, FS, FR>(&self, bt: &Tensor<T2>, step: &FS, round: &FR) -> (res: Result<
        Tensor<U>,
        TensorError,
    >) where
        T2: TensorElement,
        U: TensorElement,
        FS: Fn(T, T2, u32) -> u32,
        FR: Fn(u32) -> U,

        requires
            self.wf(),
            bt.wf(),
            product(matmul_shape4(self@.shape, bt@.shape)) <= usize::MAX,
            forall|x: T, y: T2, acc: u32| call_requires(*step, (x, y, acc)),
            forall|acc: u32| call_requires(*round, (acc,)),
        ensures
            match res {
                Ok(t) => {
                    &&& matmul_compatible(self@.shape, bt@.shape)
                    &&& t@.shape == matmul_shape(self@.shape, bt@.shape)
                    &&& t.wf()
                    &&& matmul_cells_ok(
                        self@.data,
                        self@.shape,
                        bt@.data,
                        bt@.shape,
                        t@.data,
                        *step,
                        *round,
                    )
                },
                Err(e) => {
                    &&& e == TensorError::ShapeMismatch
                    &&& !matmul_compatible(self@.shape, bt@.shape)
                },
            },
    {
        proof {
            lemma_extend_valid(self@.shape);
            lemma_extend_valid(bt@.shape);
        }
        let ea = extend_shape(&self.shape);
        let eb = extend_shape(&bt.shape);
        let ghost eva = ea@;
        let ghost evb = eb@;
        if !(ea[0] == eb[0] && ea[1] == eb[1] && ea[3] == eb[3]) {
            return Err(TensorError::ShapeMismatch);
        }
        let mut ec: Vec<usize> = Vec::new();
        ec.push(ea[0]);
        ec.push(ea[1]);
        ec.push(ea[2]);
        ec.push(eb[2]);
        let ghost evc = ec@;
        proof {
            assert(evc =~= matmul_shape4(self@.shape, bt@.shape));
        }
        let n = ea[3];
        let na = self.data.len();
        let nb = bt.data.len();
        let mut out: Vec<U> = Vec::new();
        proof {
            assert(flat4(evc, 0, 0, 0, 0) == 0) by (nonlinear_arith);
        }
        let mut i: usize = 0;
        while i < ec[0]
            invariant
                0 <= i <= evc[0],
                out@.len() == flat4(evc, i as int, 0, 0, 0),
                forall|a: int, b: int, r: int, c: int|
                    0 <= a < evc[0] && 0 <= b < evc[1] && 0 <= r < evc[2] && 0 <= c < evc[3]
                        && flat4(evc, a, b, r, c) < out@.len() ==> #[trigger] matmul_cell_ok(
                        self@.data,
                        self@.shape,
                        bt@.data,
                        bt@.shape,
                        out@,
                        *step,
                        *round,
                        a,
                        b,
                        r,
                        c,
                    ),
            decreases evc[0] - i,
        {
            let mut j: usize = 0;
            while j < ec[1]
                invariant
                    0 <= j <= evc[1],
                    out@.len() == flat4(evc, i as int, j as int, 0, 0),
                    forall|a: int, b: int, r: int, c: int|
                        0 <= a < evc[0] && 0 <= b < evc[1] && 0 <= r < evc[2] && 0 <= c < evc[3]
                            && flat4(evc, a, b, r, c) < out@.len() ==> #[trigger] matmul_cell_ok(
                            self@.data,
                            self@.shape,
                            bt@.data,
                            bt@.shape,
                            out@,
                            *step,
                            *round,
                            a,
                            b,
                            r,
                            c,
                        ),
                decreases evc[1] - j,
            {
                let mut r: usize = 0;
                while r < ec[2]
                    invariant
                        0 <= r <= evc[2],
                        out@.len() == flat4(evc, i as int, j as int, r as int, 0),
                        forall|a: int, b: int, rr: int, c: int|
                            0 <= a < evc[0] && 0 <= b < evc[1] && 0 <= rr < evc[2] && 0 <= c
                                < evc[3] && flat4(evc, a, b, rr, c)
                                < out@.len() ==> #[trigger] matmul_cell_ok(
                                self@.data,
                                self@.shape,
                                bt@.data,
                                bt@.shape,
                                out@,
                                *step,
                                *round,
                                a,
                                b,
                                rr,
                                c,
                            ),
                    decreases evc[2] - r,
                {
                    let mut c: usize = 0;
                    while c < ec[3]
                        invariant
                            0 <= c <= evc[3],
                            out@.len() == flat4(evc, i as int, j as int, r as int, c as int),
                            forall|a: int, b: int, rr: int, cc: int|
                                0 <= a < evc[0] && 0 <= b < evc[1] && 0 <= rr < evc[2] && 0 <= cc
                                    < evc[3] && flat4(evc, a, b, rr, cc)
                                    < out@.len() ==> #[trigger] matmul_cell_ok(
                                    self@.data,
                                    self@.shape,
                                    bt@.data,
                                    bt@.shape,
                                    out@,
                                    *step,
                                    *round,
                                    a,
                                    b,
                                    rr,
                                    cc,
                                ),
                        decreases evc[3] - c,
                    {
                        proof {
                            lemma_flat4_bounds(evc, i as int, j as int, r as int, c as int);
                            lemma_flat4_bounds(eva, i as int, j as int, r as int, (n - 1) as int);
                            lemma_flat4_bounds(evb, i as int, j as int, c as int, (n - 1) as int);
                        }
                        let base_a = flat_index(&ea, i, j, r, 0);
                        let base_b = flat_index(&eb, i, j, c, 0);
                        let acc = crate::ops::dotv(
                            self.data.as_slice(),
                            base_a,
                            bt.data.as_slice(),
                            base_b,
                            n,
                            step,
                        );
                        let v = round(acc);
                        let ghost oldout = out@;
                        out.push(v);
                        proof {
                            assert(call_ensures(
                                *round,
                                (acc,),
                                out@[flat4(evc, i as int, j as int, r as int, c as int)],
                            ));
                            assert(matmul_cell_ok(
                                self@.data,
                                self@.shape,
                                bt@.data,
                                bt@.shape,
                                out@,
                                *step,
                                *round,
                                i as int,
                                j as int,
                                r as int,
                                c as int,
                            ));
                            assert forall|a: int, b: int, rr: int, cc: int|
                                0 <= a < evc[0] && 0 <= b < evc[1] && 0 <= rr < evc[2] && 0 <= cc
                                    < evc[3] && flat4(evc, a, b, rr, cc)
                                    < out@.len() implies #[trigger] matmul_cell_ok(
                                self@.data,
                                self@.shape,
                                bt@.data,
                                bt@.shape,
                                out@,
                                *step,
                                *round,
                                a,
                                b,
                                rr,
                                cc,
                            ) by {
                                let ghost sa = self@.shape;
                                let ghost sb = bt@.shape;
                                let ghost pos = flat4(matmul_shape4(sa, sb), a, b, rr, cc);
                                assert(pos == flat4(evc, a, b, rr, cc));
                                if flat4(evc, a, b, rr, cc) < oldout.len() {
                                    lemma_flat4_bounds(evc, a, b, rr, cc);
                                    assert(matmul_cell_ok(
                                        self@.data,
                                        sa,
                                        bt@.data,
                                        sb,
                                        oldout,
                                        *step,
                                        *round,
                                        a,
                                        b,
                                        rr,
                                        cc,
                                    ));
                                    let acc0 = choose|acc0: u32|
                                        call_ensures(*round, (acc0,), oldout[pos]) && crate::ops::fold2_rel(
                                            *step,
                                            0u32,
                                            self@.data.subrange(
                                                flat4(extend_spec(sa), a, b, rr, 0),
                                                flat4(extend_spec(sa), a, b, rr, 0) + (
                                                extend_spec(sa)[3] as int),
                                            ),
                                            bt@.data.subrange(
                                                flat4(extend_spec(sb), a, b, cc, 0),
                                                flat4(extend_spec(sb), a, b, cc, 0) + (
                                                extend_spec(sa)[3] as int),
                                            ),
                                            acc0,
                                        );
                                    assert(out@[pos] == oldout[pos]);
                                    assert(call_ensures(*round, (acc0,), out@[pos]));
                                } else {
                                    lemma_flat4_inverse(evc, a, b, rr, cc);
                                    lemma_flat4_inverse(
                                        evc,
                                        i as int,
                                        j as int,
                                        r as int,
                                        c as int,
                                    );
                                    assert(a == i as int && b == j as int && rr == r as int && cc
                                        == c as int);
                                }
                            }
                        }
                        c = c + 1;
                    }
                    proof {
                        lemma_flat4_step(evc, i as int, j as int, r as int);
                    }
                    r = r + 1;
                }
                proof {
                    lemma_flat4_step(evc, i as int, j as int, 0);
                }
                j = j + 1;
            }
            proof {
                lemma_flat4_step(evc, i as int, 0, 0);
            }
            i = i + 1;
        }
        proof {
            lemma_flat4_total(evc);
        }
        let rank = if self.shape.len() >= bt.shape.len() {
            self.shape.len()
        } else {
            bt.shape.len()
        };
        let mut oshape: Vec<usize> = Vec::new();
        let mut d: usize = MAX_DIMS - rank;
        while d < MAX_DIMS
            invariant
                4 - rank <= d <= 4,
                oshape@.len() == d - (4 - rank),
                forall|e: int| 0 <= e < oshape@.len() ==> oshape@[e] == evc[e + 4 - rank],
            decreases 4 - d,
        {
            oshape.push(ec[d]);
            d = d + 1;
        }
        proof {
            assert(oshape@ =~= matmul_shape(self@.shape, bt@.shape));
            assert(extend_spec(oshape@) =~= evc);
            lemma_extend_product(oshape@);
            assert(valid_shape(oshape@));
            assert forall|a: int, b: int, rr: int, cc: int|
                0 <= a < evc[0] && 0 <= b < evc[1] && 0 <= rr < evc[2] && 0 <= cc
                    < evc[3] implies #[trigger] matmul_cell_ok(
                self@.data,
                self@.shape,
                bt@.data,
                bt@.shape,
                out@,
                *step,
                *round,
                a,
                b,
                rr,
                cc,
            ) by {
                lemma_flat4_bounds(evc, a, b, rr, cc);
            }
            assert(matmul_cells_ok(
                self@.data,
                self@.shape,
                bt@.data,
                bt@.shape,
                out@,
                *step,
                *round,
            ));
        }
        Ok(Tensor { data: Arc::new(out), shape: oshape })
    }
}

/// Row `r` of a row-scaling kernel: some factor `fac` is an output of `fr`
/// on exactly the input row, and every element of the output row is an
/// output of `fc` on the matching input element and that one shared factor.
pub open spec fn scaled_row_ok<T, FR: Fn(&[T]) -> u32, FC: Fn(T, u32) -> T>(
    x: Seq<T>,
    n: int,
    out: Seq<T>,
    fr: FR,
    fc: FC,
    r: int,
) -> bool {
    exists|row: &[T], fac: u32|
        {
            &&& row@ == x.subrange(r * n, r * n + n)
            &&& #[trigger] call_ensures(fr, (row,), fac)
            &&& forall|l: int|
                0 <= l < n ==> call_ensures(fc, (x[r * n + l], fac), #[trigger] out[r * n + l])
        }
}

impl<T: TensorElement> Tensor<T> {
    /// Applies a caller-supplied scalar map to every element independently,
    /// batched over all dimensions (the elementwise activation kernel):
    /// output element `t` is an output of `f` on input element `t`.
    pub fn map_elems<U: TensorElement, F: Fn(T) -> U>(&self, f: &F) -> (res: Tensor<U>)
        requires
            self.wf(),
            forall|x: T| call_requires(*f, (x,)),
        ensures
            res@.shape == self@.shape,
            res.wf(),
            forall|t: int|
                0 <= t < self@.data.len() ==> call_ensures(
                    *f,
                    (self@.data[t],),
                    #[trigger] res@.data[t],
                ),
    {
        let n = self.data.len();
        let mut out: Vec<U> = Vec::new();
        let mut t: usize = 0;
        while t < n
            invariant
                0 <= t <= n,
                n == self@.data.len(),
                self.wf(),
                forall|x: T| call_requires(*f, (x,)),
                out@.len() == t,
                forall|e: int|
                    0 <= e < t ==> call_ensures(*f, (self@.data[e],), #[trigger] out@[e]),
            decreases n - t,
        {
            let v = f(self.data[t]);
            out.push(v);
            t = t + 1;
        }
        Tensor { data: Arc::new(out), shape: slice_to_vec(self.shape.as_slice()) }
    }

    /// Normalizes each innermost row by a factor computed from that row,
    /// batched over all outer dimensions (the row-normalization kernel):
    /// `fr` reduces a row to one factor, and `fc` combines every element of
    /// the row with that factor.
    #[verifier::loop_isolation(false)]
    pub fn scale_rows<FR: Fn(&[T]) -> u32, FC: Fn(T, u32) -> T>(&self, fr: &FR, fc: &FC) -> (res:
        Tensor<T>)
        requires
            self.wf(),
            forall|row: &[T]| call_requires(*fr, (row,)),
            forall|x: T, fac: u32| call_requires(*fc, (x, fac)),
        ensures
            res@.shape == self@.shape,
            res.wf(),
            forall|r: int|
                0 <= r < product(self@.shape.drop_last()) ==> #[trigger] scaled_row_ok(
                    self@.data,
                    self@.shape.last() as int,
                    res@.data,
                    *fr,
                    *fc,
                    r,
                ),
    {
        let n_elems = self.data.len();
        let nlast = self.shape[self.shape.len() - 1];
        let nrows = n_elems / nlast;
        let ghost nl = nlast as int;
        proof {
            assert(product(self@.shape) == product(self@.shape.drop_last()) * nl);
            crate::shape::lemma_product_pos(self@.shape.drop_last());
            vstd::arithmetic::div_mod::lemma_fundamental_div_mod_converse(
                n_elems as int,
                nl,
                product(self@.shape.drop_last()),
                0,
            );
            assert(nrows as int == product(self@.shape.drop_last()));
        }
        let mut out: Vec<T> = Vec::new();
        let mut r: usize = 0;
        while r < nrows
            invariant
                0 <= r <= nrows,
                out@.len() == r * nl,
                forall|a: int|
                    0 <= a < r ==> #[trigger] scaled_row_ok(self@.data, nl, out@, *fr, *fc, a),
            decreases nrows - r,
        {
            proof {
                assert((r as int) * nl + nl <= (nrows as int) * nl) by (nonlinear_arith)
                    requires
                        0 <= r as int <= (nrows as int) - 1,
                        nl >= 1,
                ;
                assert((nrows as int) * nl == n_elems as int);
            }
            let base = r * nlast;
            let rowslice = vstd::slice::slice_subrange(self.data.as_slice(), base, base + nlast);
            let fac = fr(rowslice);
            let ghost rowghost = rowslice;
            let mut l: usize = 0;
            while l < nlast
                invariant
                    0 <= l <= nlast,
                    out@.len() == base + l,
                    forall|a: int|
                        0 <= a < r ==> #[trigger] scaled_row_ok(self@.data, nl, out@, *fr, *fc, a),
                    forall|ll: int|
                        0 <= ll < l ==> call_ensures(
                            *fc,
                            (self@.data[base + ll], fac),
                            #[trigger] out@[base + ll],
                        ),
                decreases nlast - l,
            {
                let v = fc(self.data[base + l], fac);
                let ghost oldout = out@;
                out.push(v);
                proof {
                    assert forall|a: int| 0 <= a < r implies #[trigger] scaled_row_ok(
                        self@.data,
                        nl,
                        out@,
                        *fr,
                        *fc,
                        a,
                    ) by {
                        assert(scaled_row_ok(self@.data, nl, oldout, *fr, *fc, a));
                        let (row0, fac0) = choose|row0: &[T], fac0: u32|
                            {
                                &&& row0@ == self@.data.subrange(a * nl, a * nl + nl)
                                &&& #[trigger] call_ensures(*fr, (row0,), fac0)
                                &&& forall|ll: int|
                                    0 <= ll < nl ==> call_ensures(
                                        *fc,
                                        (self@.data[a * nl + ll], fac0),
                                        #[trigger] oldout[a * nl + ll],
                                    )
                            };
                        assert((a + 1) * nl <= (r as int) * nl) by (nonlinear_arith)
                            requires
                                0 <= a < r as int,
                                nl >= 1,
                        ;
                        assert forall|ll: int| 0 <= ll < nl implies call_ensures(
                            *fc,
                            (self@.data[a * nl + ll], fac0),
                            #[trigger] out@[a * nl + ll],
                        ) by {
                            assert(a * nl + ll < (a + 1) * nl) by (nonlinear_arith)
                                requires
                                    0 <= ll < nl,
                            ;
                            assert(out@[a * nl + ll] == oldout[a * nl + ll]);
                        }
                    }
                }
                l = l + 1;
            }
            proof {
                assert(rowghost@ == self@.data.subrange((r as int) * nl, (r as int) * nl + nl));
                assert forall|ll: int| 0 <= ll < nl implies call_ensures(
                    *fc,
                    (self@.data[(r as int) * nl + ll], fac),
                    #[trigger] out@[(r as int) * nl + ll],
                ) by {
                    assert(out@[(r as int) * nl + ll] == out@[base + ll]);
                }
                assert(scaled_row_ok(self@.data, nl, out@, *fr, *fc, r as int));
                assert((r as int + 1) * nl == (r as int) * nl + nl) by (nonlinear_arith);
                assert forall|a: int| 0 <= a < r + 1 implies #[trigger] scaled_row_ok(
                    self@.data,
                    nl,
                    out@,
                    *fr,
                    *fc,
                    a,
                ) by {}
            }
            r = r + 1;
        }
        proof {
            assert(self@.shape.last() == self@.shape[self@.shape.len() - 1]);
        }
        Tensor { data: Arc::new(out), shape: slice_to_vec(self.shape.as_slice()) }
    }
}

/// `s` is a raw attention score: the dot product of query row `i` and key
/// row `j` (rows of width `d`), accumulated by `step` and scaled by `fmul`
/// with the caller's scale factor.
pub open spec fn score_ok<T, FS: Fn(T, T, u32) -> u32, FM: Fn(u32, u32) -> u32>(
    q: Seq<T>,
    k: Seq<T>,
    d: int,
    scale: u32,
    step: FS,
    fmul: FM,
    i: int,
    j: int,
    s: u32,
) -> bool {
    exists|dotr: u32|
        #[trigger] call_ensures(fmul, (scale, dotr), s) && crate::ops::fold2_rel(
            step,
            0u32,
            q.subrange(i * d, i * d + d),
            k.subrange(j * d, j * d + d),
            dotr,
        )
}

/// `o` is an attention output cell: the fold of `fout` over value row `j`
/// (of width `n`) and the weight row `w`, written back through `round`.
pub open spec fn outcell_ok<T, FO: Fn(T, u32, u32) -> u32, FR: Fn(u32) -> T>(
    v: Seq<T>,
    w: Seq<u32>,
    n: int,
    fout: FO,
    round: FR,
    j: int,
    o: T,
) -> bool {
    exists|acc: u32|
        #[trigger] call_ensures(round, (acc,), o) && crate::ops::fold2_rel(
            fout,
            0u32,
            v.subrange(j * n, j * n + n),
            w,
            acc,
        )
}

/// The named intermediates of one attention row: `s_raw` holds the scaled
/// query-key scores of query row `i`, `w` is a softmax of `s_raw`, and every
/// output cell of row `i` folds `w` against a value row.
pub open spec fn attn_wits_ok<
    T,
    FS: Fn(T, T, u32) -> u32,
    FM: Fn(u32, u32) -> u32,
    F1: Fn(u32, u32) -> u32,
    F2: Fn(u32, u32) -> u32,
    F3: Fn(u32, u32) -> u32,
    F4: Fn(u32, u32) -> u32,
    FO: Fn(T, u32, u32) -> u32,
    FR: Fn(u32) -> T,
>(
    v: Seq<T>,
    q: Seq<T>,
    k: Seq<T>,
    out: Seq<T>,
    n: int,
    d: int,
    scale: u32,
    step: FS,
    fmul: FM,
    fmax: F1,
    fexpsub: F2,
    fadd: F3,
    fdiv: F4,
    fout: FO,
    round: FR,
    i: int,
    s_raw: Seq<u32>,
    w: Seq<u32>,
) -> bool {
    &&& s_raw.len() == n
    &&& forall|j: int|
        0 <= j < n ==> score_ok(q, k, d, scale, step, fmul, i, j, #[trigger] s_raw[j])
    &&& crate::ops::softmax_rel(fmax, fexpsub, fadd, fdiv, s_raw, w)
    &&& forall|j: int|
        0 <= j < d ==> outcell_ok(v, w, n, fout, round, j, #[trigger] out[i * d + j])
}

/// Output row `i` of the attention kernel: for some score row and some
/// softmax of it, every cell of output row `i` is the weighted fold of a
/// value row against those weights.
pub open spec fn attn_row_ok<
    T,
    FS: Fn(T, T, u32) -> u32,
    FM: Fn(u32, u32) -> u32,
    F1: Fn(u32, u32) -> u32,
    F2: Fn(u32, u32) -> u32,
    F3: Fn(u32, u32) -> u32,
    F4: Fn(u32, u32) -> u32,
    FO: Fn(T, u32, u32) -> u32,
    FR: Fn(u32) -> T,
>(
    v: Seq<T>,
    q: Seq<T>,
    k: Seq<T>,
    out: Seq<T>,
    n: int,
    d: int,
    scale: u32,
    step: FS,
    fmul: FM,
    fmax: F1,
    fexpsub: F2,
    fadd: F3,
    fdiv: F4,
    fout: FO,
    round: FR,
    i: int,
) -> bool {
    exists|s_raw: Seq<u32>, w: Seq<u32>|
        #[trigger] attn_wits_ok(
            v,
            q,
            k,
            out,
            n,
            d,
            scale,
            step,
            fmul,
            fmax,
            fexpsub,
            fadd,
            fdiv,
            fout,
            round,
            i,
            s_raw,
            w,
        )
}

/// The operands of the attention kernel agree: queries and keys are `[n, d]`
/// (one row per sequence position) and the values are `[d, n]` (one row per
/// embedding channel).
pub open spec fn attn_compatible(sv: Seq<usize>, sq: Seq<usize>, sk: Seq<usize>) -> bool {
    &&& sv.len() == 2
    &&& sq.len() == 2
    &&& sk == sq
    &&& sv[0] == sq[1]
    &&& sv[1] == sq[0]
}

impl<T: TensorElement> Tensor<T> {
    /// Scaled-dot-product attention over one head, called on the values.
    /// `self` holds the values as `[d, n]` (one row per embedding channel);
    /// `q` and `k` hold queries and keys as `[n, d]` (one row per sequence
    /// position). For each query position `i`: every key position is scored
    /// by the scaled `step` dot product, the full score row is normalized by
    /// a numerically-stable softmax (maximum subtracted before
    /// exponentiating), and output cell `(i, j)` folds the weights against
    /// value row `j` through `fout` and `round`. The whole score matrix is
    /// materialized row by row; this is full attention, not a streaming
    /// variant. Fails, before any write, if and only if the three shapes do
    /// not agree.
    #[verifier::loop_isolation(false)]
    pub fn flash_attn<FS, FM, F1, F2, F3, F4, FO, FR>(
        &self,
        q: &Tensor<T>,
        k: &Tensor<T>,
        scale: u32,
        step: &FS,
        fmul: &FM,
        fmax: &F1,
        fexpsub: &F2,
        fadd: &F3,
        fdiv: &F4,
        fout: &FO,
        round: &FR,
    ) -> (res: Result<Tensor<T>, TensorError>) where
        FS: Fn(T, T, u32) -> u32,
        FM: Fn(u32, u32) -> u32,
        F1: Fn(u32, u32) -> u32,
        F2: Fn(u32, u32) -> u32,
        F3: Fn(u32, u32) -> u32,
        F4: Fn(u32, u32) -> u32,
        FO: Fn(T, u32, u32) -> u32,
        FR: Fn(u32) -> T,

        requires
            self.wf(),
            q.wf(),
            k.wf(),
            forall|x: T, y: T, acc: u32| call_requires(*step, (x, y, acc)),
            forall|a: u32, b: u32| call_requires(*fmul, (a, b)),
            forall|a: u32, b: u32| call_requires(*fmax, (a, b)),
            forall|a: u32, b: u32| call_requires(*fexpsub, (a, b)),
            forall|a: u32, b: u32| call_requires(*fadd, (a, b)),
            forall|a: u32, b: u32| call_requires(*fdiv, (a, b)),
            forall|x: T, y: u32, acc: u32| call_requires(*fout, (x, y, acc)),
            forall|acc: u32| call_requires(*round, (acc,)),
        ensures
            match res {
                Ok(o) => {
                    &&& attn_compatible(self@.shape, q@.shape, k@.shape)
                    &&& o@.shape == q@.shape
                    &&& o.wf()
                    &&& forall|i: int|
                        0 <= i < q@.shape[0] ==> attn_row_ok(
                            self@.data,
                            q@.data,
                            k@.data,
                            o@.data,
                            q@.shape[0] as int,
                            q@.shape[1] as int,
                            scale,
                            *step,
                            *fmul,
                            *fmax,
                            *fexpsub,
                            *fadd,
                            *fdiv,
                            *fout,
                            *round,
                            i,
                        )
                },
                Err(e) => {
                    &&& e == TensorError::ShapeMismatch
                    &&& !attn_compatible(self@.shape, q@.shape, k@.shape)
                },
            },
    {
        if !(self.shape.len() == 2 && q.shape.len() == 2 && k.shape.len() == 2) {
            return Err(TensorError::ShapeMismatch);
        }
        let d = self.shape[0];
        let n = self.shape[1];
        if !(q.shape[0] == n && q.shape[1] == d && k.shape[0] == n && k.shape[1] == d) {
            return Err(TensorError::ShapeMismatch);
        }
        proof {
            assert(k@.shape =~= q@.shape);
            crate::shape::lemma_product2(self@.shape);
            crate::shape::lemma_product2(q@.shape);
            crate::shape::lemma_product2(k@.shape);
            assert((n as int) * (d as int) == (d as int) * (n as int)) by (nonlinear_arith);
        }
        let ghost nn = n as int;
        let ghost dd = d as int;
        let nv = self.data.len();
        let nq = q.data.len();
        let nk = k.data.len();
        proof {
            assert(nv as int == dd * nn);
            assert(nq as int == nn * dd);
            assert(nk as int == nn * dd);
        }
        let mut out: Vec<T> = Vec::new();
        let mut i: usize = 0;
        while i < n
            invariant
                0 <= i <= n,
                out@.len() == i * dd,
                forall|a: int|
                    0 <= a < i ==> attn_row_ok(
                        self@.data,
                        q@.data,
                        k@.data,
                        out@,
                        nn,
                        dd,
                        scale,
                        *step,
                        *fmul,
                        *fmax,
                        *fexpsub,
                        *fadd,
                        *fdiv,
                        *fout,
                        *round,
                        a,
                    ),
            decreases n - i,
        {
            proof {
                assert((i as int) * dd + dd <= nn * dd) by (nonlinear_arith)
                    requires
                        0 <= i as int <= nn - 1,
                        dd >= 1,
                ;
            }
            let qbase = i * d;
            let mut s: Vec<u32> = Vec::new();
            let mut j: usize = 0;
            while j < n
                invariant
                    0 <= j <= n,
                    s@.len() == j,
                    forall|jj: int|
                        0 <= jj < j ==> score_ok(
                            q@.data,
                            k@.data,
                            dd,
                            scale,
                            *step,
                            *fmul,
                            i as int,
                            jj,
                            #[trigger] s@[jj],
                        ),
                decreases n - j,
            {
                proof {
                    assert((j as int) * dd + dd <= nn * dd) by (nonlinear_arith)
                        requires
                            0 <= j as int <= nn - 1,
                            dd >= 1,
                    ;
                }
                let dotr = crate::ops::dotv(
                    q.data.as_slice(),
                    qbase,
                    k.data.as_slice(),
                    j * d,
                    d,
                    step,
                );
                let sj = fmul(scale, dotr);
                s.push(sj);
                j = j + 1;
            }
            let ghost sraw = s@;
            crate::ops::softmax_inplace(&mut s, fmax, fexpsub, fadd, fdiv);
            let ghost w = s@;
            let mut j: usize = 0;
            while j < d
                invariant
                    0 <= j <= d,
                    out@.len() == i * dd + j,
                    s@ == w,
                    s@.len() == nn,
                    forall|a: int|
                        0 <= a < i ==> attn_row_ok(
                            self@.data,
                            q@.data,
                            k@.data,
                            out@,
                            nn,
                            dd,
                            scale,
                            *step,
                            *fmul,
                            *fmax,
                            *fexpsub,
                            *fadd,
                            *fdiv,
                            *fout,
                            *round,
                            a,
                        ),
                    forall|jj: int|
                        0 <= jj < j ==> outcell_ok(
                            self@.data,
                            w,
                            nn,
                            *fout,
                            *round,
                            jj,
                            #[trigger] out@[i * dd + jj],
                        ),
                decreases d - j,
            {
                proof {
                    assert((j as int) * nn + nn <= dd * nn) by (nonlinear_arith)
                        requires
                            0 <= j as int <= dd - 1,
                            nn >= 1,
                    ;
                }
                let acc = crate::ops::dotv(
                    self.data.as_slice(),
                    j * n,
                    s.as_slice(),
                    0,
                    n,
                    fout,
                );
                let o = round(acc);
                let ghost oldout = out@;
                out.push(o);
                proof {
                    assert(s@.subrange(0, nn) =~= w);
                    assert(outcell_ok(
                        self@.data,
                        w,
                        nn,
                        *fout,
                        *round,
                        j as int,
                        out@[i * dd + j],
                    ));
                    assert forall|a: int| 0 <= a < i implies attn_row_ok(
                        self@.data,
                        q@.data,
                        k@.data,
                        out@,
                        nn,
                        dd,
                        scale,
                        *step,
                        *fmul,
                        *fmax,
                        *fexpsub,
                        *fadd,
                        *fdiv,
                        *fout,
                        *round,
                        a,
                    ) by {
                        assert(attn_row_ok(
                            self@.data,
                            q@.data,
                            k@.data,
                            oldout,
                            nn,
                            dd,
                            scale,
                            *step,
                            *fmul,
                            *fmax,
                            *fexpsub,
                            *fadd,
                            *fdiv,
                            *fout,
                            *round,
                            a,
                        ));
                        let (sr0, w0) = choose|sr0: Seq<u32>, w0: Seq<u32>|
                            #[trigger] attn_wits_ok(
                                self@.data,
                                q@.data,
                                k@.data,
                                oldout,
                                nn,
                                dd,
                                scale,
                                *step,
                                *fmul,
                                *fmax,
                                *fexpsub,
                                *fadd,
                                *fdiv,
                                *fout,
                                *round,
                                a,
                                sr0,
                                w0,
                            );
                        assert(attn_wits_ok(
                            self@.data,
                            q@.data,
                            k@.data,
                            oldout,
                            nn,
                            dd,
                            scale,
                            *step,
                            *fmul,
                            *fmax,
                            *fexpsub,
                            *fadd,
                            *fdiv,
                            *fout,
                            *round,
                            a,
                            sr0,
                            w0,
                        ));
                        assert((a + 1) * dd <= (i as int) * dd) by (nonlinear_arith)
                            requires
                                0 <= a < i as int,
                                dd >= 1,
                        ;
                        assert forall|jj: int| 0 <= jj < dd implies outcell_ok(
                            self@.data,
                            w0,
                            nn,
                            *fout,
                            *round,
                            jj,
                            #[trigger] out@[a * dd + jj],
                        ) by {
                            assert(a * dd + jj < (a + 1) * dd) by (nonlinear_arith)
                                requires
                                    0 <= jj < dd,
                            ;
                            assert(out@[a * dd + jj] == oldout[a * dd + jj]);
                        }
                        assert(attn_wits_ok(
                            self@.data,
                            q@.data,
                            k@.data,
                            out@,
                            nn,
                            dd,
                            scale,
                            *step,
                            *fmul,
                            *fmax,
                            *fexpsub,
                            *fadd,
                            *fdiv,
                            *fout,
                            *round,
                            a,
                            sr0,
                            w0,
                        ));
                    }
                }
                j = j + 1;
            }
            proof {
                assert(sraw.len() == nn);
                assert(forall|jj: int|
                    0 <= jj < nn ==> score_ok(
                        q@.data,
                        k@.data,
                        dd,
                        scale,
                        *step,
                        *fmul,
                        i as int,
                        jj,
                        #[trigger] sraw[jj],
                    ));
                assert(crate::ops::softmax_rel(*fmax, *fexpsub, *fadd, *fdiv, sraw, w));
                assert(forall|jj: int|
                    0 <= jj < dd ==> outcell_ok(
                        self@.data,
                        w,
                        nn,
                        *fout,
                        *round,
                        jj,
                        #[trigger] out@[(i as int) * dd + jj],
                    ));
                assert(attn_wits_ok(
                    self@.data,
                    q@.data,
                    k@.data,
                    out@,
                    nn,
                    dd,
                    scale,
                    *step,
                    *fmul,
                    *fmax,
                    *fexpsub,
                    *fadd,
                    *fdiv,
                    *fout,
                    *round,
                    i as int,
                    sraw,
                    w,
                ));
                assert((i as int + 1) * dd == (i as int) * dd + dd) by (nonlinear_arith);
            }
            i = i + 1;
        }
        let oshape = q.shape();
        proof {
            assert((n as int) * dd == product(q@.shape));
        }
        Ok(Tensor { data: Arc::new(out), shape: oshape })
    }
}

impl<T: TensorElement> Clone for Tensor<T> {
    /// A new handle onto the same value; the buffer is shared, not copied.
    fn clone(&self) -> (res: Self)
        ensures
            res@ == self@,
    {
        Tensor { data: Arc::clone(&self.data), shape: slice_to_vec(self.shape.as_slice()) }
    }
}

} // verus!
