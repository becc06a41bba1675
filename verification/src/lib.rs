//! A verified core for a transformer inference runtime: an N-dimensional
//! tensor value type with its kernel suite (matrix multiplication, attention,
//! normalization, activation, repetition, row gather), the shape and stride
//! algebra beneath it, and the parser for the binary model format.
//!
//! Tensor elements are stored as plain bit patterns (`u16` for half-precision
//! values, `u32` for single-precision values, `usize` for indices). The
//! kernels own every shape check, every index computation and every buffer
//! write; the scalar floating-point steps are supplied by the caller as
//! closures, and each kernel's contract pins the output cells to the
//! closures' contracts on exactly the operands the kernel is specified over.
use vstd::prelude::*;

pub mod ggml;
pub mod ops;
pub mod shape;
pub mod tensor;

verus! {

/// Why a tensor operation refused its operands.
#[derive(Clone, Copy, Debug, PartialEq, Eq, Structural)]
pub enum TensorError {
    /// A buffer length does not match the element count of a shape.
    InvalidShape,
    /// Operand shapes violate a kernel's contract.
    ShapeMismatch,
    /// A repetition factor does not divide the target extent evenly.
    DimensionMismatch,
    /// A gather index exceeds the source's row count.
    IndexOutOfRange,
}

/// The size of a chunk in bytes (512 bits): byte strides of the metadata
/// tensor are rounded up to it.
pub const CHUNK_SIZE: usize = 64;

/// The element type of a metadata tensor; only the 32-bit single-precision
/// layout is described.
#[derive(Debug, Clone, Copy, PartialEq, Eq, Structural)]
pub enum Type {
    Single,
}

/// The width of one element of the type, in bytes.
pub open spec fn bytes_of(t: Type) -> usize {
    match t {
        Type::Single => 4usize,
    }
}

/// How many elements of the type one chunk holds.
pub open spec fn per_chunk_of(t: Type) -> usize {
    match t {
        Type::Single => 16usize,
    }
}

impl Type {
    pub fn bytes(&self) -> (r: usize)
        ensures
            r == bytes_of(*self),
    {
        match self {
            Type::Single => 4,
        }
    }

    pub fn per_chunk(&self) -> (r: usize)
        ensures
            r == per_chunk_of(*self),
    {
        match self {
            Type::Single => 16,
        }
    }
}

/// `n` rounded up to the next multiple of `m`.
pub open spec fn round_up_spec(n: int, m: int) -> int {
    ((n + m - 1) / m) * m
}

/// Rounds a number up to a multiple of another number, which must be a
/// power of two.
fn round_up_to_multiple(n: usize, multiple: usize) -> (r: usize)
    requires
        multiple >= 1,
        (multiple & ((multiple - 1) as usize)) == 0,
        n + multiple - 1 <= usize::MAX,
    ensures
        r == round_up_spec(n as int, multiple as int),
        r % multiple == 0,
        n <= r < n + multiple,
{
    let q = (n + (multiple - 1)) / multiple;
    proof {
        let ni = n as int;
        let m = multiple as int;
        vstd::arithmetic::div_mod::lemma_fundamental_div_mod(ni + m - 1, m);
        let rem = (ni + m - 1) % m;
        vstd::arithmetic::div_mod::lemma_mod_bound(ni + m - 1, m);
        assert(m * ((ni + m - 1) / m) == ((ni + m - 1) / m) * m) by (nonlinear_arith);
        assert((q as int) * m == ni + m - 1 - rem);
        vstd::arithmetic::div_mod::lemma_mod_multiples_basic(q as int, m);
    }
    q * multiple
}

/// The byte stride of dimension `i` of a metadata tensor: the element width
/// for the first dimension, then each previous stride times the previous
/// extent, rounded up to a whole chunk.
pub open spec fn stride_rec(t: Type, shape: Seq<usize>, i: int) -> int
    decreases i,
{
    if i <= 0 {
        bytes_of(t) as int
    } else {
        round_up_spec(stride_rec(t, shape, i - 1) * shape[i - 1], CHUNK_SIZE as int)
    }
}

/// All byte strides of the shape, and every intermediate of their
/// computation, fit the machine word.
pub open spec fn strides_fit(t: Type, shape: Seq<usize>) -> bool {
    forall|i: int|
        1 <= i < shape.len() ==> #[trigger] stride_rec(t, shape, i - 1) * shape[i - 1] + (
        CHUNK_SIZE - 1) <= usize::MAX
}

/// A typed tensor descriptor: an element type, a shape of up to four
/// extents, the chunk-aligned byte stride of each dimension, and an
/// optional zero-filled byte buffer.
pub struct Tensor {
    ty: Type,
    dims: usize,
    shape: Vec<usize>,
    stride: Vec<usize>,
    data: Option<Vec<u8>>,
}

impl Tensor {
    pub closed spec fn wf(&self) -> bool {
        &&& 1 <= self.dims <= 4
        &&& self.shape@.len() == self.dims
        &&& self.stride@.len() == self.dims
        &&& forall|i: int| 0 <= i < self.dims ==> self.stride@[i] == stride_rec(self.ty, self.shape@, i)
    }

    pub closed spec fn spec_ty(&self) -> Type {
        self.ty
    }

    pub closed spec fn spec_shape(&self) -> Seq<usize> {
        self.shape@
    }

    pub closed spec fn spec_data(&self) -> Option<Seq<u8>> {
        match self.data {
            Some(ref d) => Some(d@),
            None => None,
        }
    }

    /// A descriptor with no buffer: the shape is taken as given and the
    /// byte strides are computed from it, each rounded up to a whole chunk.
    pub fn null(ty: Type, shape: &[usize]) -> (r: Tensor)
        requires
            1 <= shape@.len() <= 4,
            strides_fit(ty, shape@),
        ensures
            r.wf(),
            r.spec_ty() == ty,
            r.spec_shape() == shape@,
            r.spec_data() is None,
    {
        let dims = shape.len();
        let shape_vec = vstd::slice::slice_to_vec(shape);
        let mut stride: Vec<usize> = Vec::new();
        stride.push(ty.bytes());
        let mut i: usize = 1;
        while i < dims
            invariant
                1 <= i <= dims,
                dims == shape@.len() <= 4,
                strides_fit(ty, shape@),
                stride@.len() == i,
                forall|j: int| 0 <= j < i ==> stride@[j] == stride_rec(ty, shape@, j),
                forall|j: int| 0 <= j < i ==> stride@[j] <= usize::MAX,
            decreases dims - i,
        {
            let prev = stride[i - 1];
            proof {
                assert(stride_rec(ty, shape@, i as int - 1) * shape@[i as int - 1] + (CHUNK_SIZE
                    - 1) <= usize::MAX);
            }
            let raw = prev * shape[i - 1];
            proof {
                assert(64usize & 63usize == 0usize) by (bit_vector);
            }
            let next = round_up_to_multiple(raw, CHUNK_SIZE);
            stride.push(next);
            i = i + 1;
        }
        Tensor { ty, dims, shape: shape_vec, stride, data: None }
    }

    /// A descriptor over a fresh zero-filled buffer of
    /// `stride[dims - 1] * shape[dims - 1]` bytes.
    pub fn zeros(ty: Type, shape: &[usize]) -> (r: Tensor)
        requires
            1 <= shape@.len() <= 4,
            strides_fit(ty, shape@),
            stride_rec(ty, shape@, shape@.len() - 1) * shape@[shape@.len() - 1] <= usize::MAX,
        ensures
            r.wf(),
            r.spec_ty() == ty,
            r.spec_shape() == shape@,
            r.spec_data() matches Some(d) && d.len() == stride_rec(ty, shape@, shape@.len() - 1)
                * shape@[shape@.len() - 1] && (forall|i: int| 0 <= i < d.len() ==> d[i] == 0u8),
    {
        let mut t = Tensor::null(ty, shape);
        let last_stride = t.stride[t.dims - 1];
        let last_extent = t.shape[t.dims - 1];
        proof {
            assert(stride_rec(ty, shape@, shape@.len() - 1) >= 0);
            assert(shape@[shape@.len() - 1] >= 0);
        }
        let len = last_stride * last_extent;
        let mut data: Vec<u8> = Vec::new();
        let mut i: usize = 0;
        while i < len
            invariant
                0 <= i <= len,
                data@.len() == i,
                forall|j: int| 0 <= j < i ==> data@[j] == 0u8,
            decreases len - i,
        {
            data.push(0);
            i = i + 1;
        }
        t.data = Some(data);
        t
    }

    /// A rank-1 descriptor over the little-endian bytes of the given 32-bit
    /// words.
    #[verifier::loop_isolation(false)]
    pub fn from_slice1(ty: Type, words: &[u32]) -> (r: Tensor)
        requires
            words@.len() >= 1,
            4 * words@.len() <= usize::MAX,
        ensures
            r.wf(),
            r.spec_ty() == ty,
            r.spec_shape() == seq![words@.len() as usize],
            r.spec_data() matches Some(d) && d.len() == 4 * words@.len() && (forall|i: int|
                0 <= i < words@.len() ==> d.subrange(4 * i, 4 * i + 4)
                    == vstd::bytes::spec_u32_to_le_bytes(#[trigger] words@[i])),
    {
        let n = words.len();
        let mut shape_vec: Vec<usize> = Vec::new();
        shape_vec.push(n);
        let mut t = Tensor::null(ty, shape_vec.as_slice());
        let mut data: Vec<u8> = Vec::new();
        let mut i: usize = 0;
        while i < n
            invariant
                0 <= i <= n,
                data@.len() == 4 * i,
                forall|j: int|
                    0 <= j < i ==> data@.subrange(4 * j, 4 * j + 4)
                        == vstd::bytes::spec_u32_to_le_bytes(#[trigger] words@[j]),
            decreases n - i,
        {
            let ghost olddata = data@;
            let mut b = vstd::bytes::u32_to_le_bytes(words[i]);
            data.append(&mut b);
            proof {
                assert forall|j: int|
                    0 <= j < i + 1 implies data@.subrange(4 * j, 4 * j + 4)
                    == vstd::bytes::spec_u32_to_le_bytes(#[trigger] words@[j]) by {
                    if j < i {
                        assert(data@.subrange(4 * j, 4 * j + 4) =~= olddata.subrange(
                            4 * j,
                            4 * j + 4,
                        ));
                    } else {
                        assert(data@.subrange(4 * j, 4 * j + 4) =~= vstd::bytes::spec_u32_to_le_bytes(
                            words@[j],
                        ));
                    }
                }
            }
            i = i + 1;
        }
        proof {
            assert(t.spec_shape() =~= seq![words@.len() as usize]);
            assert(stride_rec(ty, t.spec_shape(), 0) == bytes_of(ty));
        }
        t.data = Some(data);
        t
    }

    pub fn ty(&self) -> (r: Type)
        ensures
            r == self.spec_ty(),
    {
        self.ty
    }

    pub fn shape(&self) -> (r: &[usize])
        ensures
            r@ == self.spec_shape(),
    {
        self.shape.as_slice()
    }

    pub fn stride(&self) -> (r: &[usize])
        requires
            self.wf(),
        ensures
            r@.len() == self.spec_shape().len(),
            forall|i: int|
                0 <= i < r@.len() ==> r@[i] == stride_rec(self.spec_ty(), self.spec_shape(), i),
    {
        self.stride.as_slice()
    }
}

} // verus!
