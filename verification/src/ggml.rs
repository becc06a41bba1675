//! Parser for the binary model format: a 9-word header, a vocabulary
//! section, and a sequence of named weight records. The whole layout is
//! specified by a spec-level parser over the byte sequence, and every
//! executable parsing function returns exactly what the spec parser says,
//! error for error.
//!
//! Reading the file is the caller's concern: this module consumes the bytes.
use vstd::prelude::*;

use crate::shape::product;
use vstd::bytes::{spec_u16_from_le_bytes, spec_u32_from_le_bytes, u32_from_le_bytes};
use vstd::slice::slice_subrange;

verus! {

/// The magic number every model file opens with.
pub const MAGIC: u32 = 0x67676d66;

/// The format version this parser accepts.
pub const FORMAT_VERSION: u32 = 1;

/// The per-element storage type named by a tag in the file: tag 0 is
/// single-precision, tag 1 is half-precision.
#[derive(Clone, Copy, Debug, PartialEq, Eq, Structural)]
pub enum ScalarType {
    Single,
    Half,
}

/// Why the parser refused a byte sequence.
#[derive(Clone, Copy, Debug, PartialEq, Eq, Structural)]
pub enum FormatError {
    /// The data ends before a field it promises.
    UnexpectedEof,
    /// The magic number is wrong.
    InvalidMagic,
    /// The format version is unsupported.
    InvalidVersion,
    /// The header's scalar-type tag is unsupported.
    InvalidScalarType,
    /// A weight record's name is not UTF-8.
    InvalidName,
    /// A weight record's element-type tag is unsupported.
    InvalidFtype,
    /// Two weight records share a name.
    DuplicateName,
}

/// The hyperparameters of the 9-word header.
#[derive(Clone, Copy, Debug, PartialEq, Eq, Structural)]
pub struct HParams {
    pub vocab_size: usize,
    pub dim: usize,
    pub multiple_of: usize,
    pub n_heads: usize,
    pub n_layers: usize,
    pub scalar_ty: ScalarType,
}

/// One vocabulary entry: a byte-string token and the bit pattern of its
/// single-precision merge score.
pub struct VocabEntry {
    pub token: Vec<u8>,
    pub score_bits: u32,
}

pub ghost struct VocabEntryV {
    pub token: Seq<u8>,
    pub score_bits: u32,
}

impl View for VocabEntry {
    type V = VocabEntryV;

    open spec fn view(&self) -> VocabEntryV {
        VocabEntryV { token: self.token@, score_bits: self.score_bits }
    }
}

/// A weight payload: element bit patterns at the record's declared width.
pub enum Data {
    Single(Vec<u32>),
    Half(Vec<u16>),
}

pub ghost enum DataV {
    Single(Seq<u32>),
    Half(Seq<u16>),
}

impl View for Data {
    type V = DataV;

    open spec fn view(&self) -> DataV {
        match self {
            Data::Single(v) => DataV::Single(v@),
            Data::Half(v) => DataV::Half(v@),
        }
    }
}

/// One named weight record.
pub struct Var {
    pub name: Vec<u8>,
    pub dims: Vec<usize>,
    pub data: Data,
}

pub ghost struct VarV {
    pub name: Seq<u8>,
    pub dims: Seq<usize>,
    pub data: DataV,
}

impl View for Var {
    type V = VarV;

    open spec fn view(&self) -> VarV {
        VarV { name: self.name@, dims: self.dims@, data: self.data@ }
    }
}

/// A parsed model: the hyperparameters and the weight records, in file
/// order, with pairwise-distinct names.
pub struct Ggml {
    pub hparams: HParams,
    pub vars: Vec<Var>,
}

/// Whether a byte sequence is valid UTF-8; the result of the standard
/// library's validity check, which depends on the bytes alone.
pub uninterp spec fn is_utf8(s: Seq<u8>) -> bool;

/// Relies on std::str::from_utf8: returns whether the bytes are valid UTF-8.
#[verifier::external_body]
fn utf8_valid(s: &[u8]) -> (r: bool)
    ensures
        r == is_utf8(s@),
{
    std::str::from_utf8(s).is_ok()
}

/// The little-endian 32-bit word at `off`.
pub open spec fn le32(data: Seq<u8>, off: int) -> u32 {
    spec_u32_from_le_bytes(data.subrange(off, off + 4))
}

/// The little-endian 16-bit word at `off`.
pub open spec fn le16(data: Seq<u8>, off: int) -> u16 {
    spec_u16_from_le_bytes(data.subrange(off, off + 2))
}

/// The 32-bit word at `off`, or the error the parser reports past the end.
pub open spec fn spec_read_u32(data: Seq<u8>, off: int) -> Result<u32, FormatError> {
    if 0 <= off && off + 4 <= data.len() {
        Ok(le32(data, off))
    } else {
        Err(FormatError::UnexpectedEof)
    }
}

/// The header: magic word, version, five hyperparameters, one reserved
/// word, and the scalar-type tag, of which only half precision is accepted.
pub open spec fn spec_header(data: Seq<u8>) -> Result<HParams, FormatError> {
    if data.len() < 36 {
        Err(FormatError::UnexpectedEof)
    } else if le32(data, 0) != MAGIC {
        Err(FormatError::InvalidMagic)
    } else if le32(data, 4) != FORMAT_VERSION {
        Err(FormatError::InvalidVersion)
    } else if le32(data, 32) != 1 {
        Err(FormatError::InvalidScalarType)
    } else {
        Ok(
            HParams {
                vocab_size: le32(data, 8) as usize,
                dim: le32(data, 12) as usize,
                multiple_of: le32(data, 16) as usize,
                n_heads: le32(data, 20) as usize,
                n_layers: le32(data, 24) as usize,
                scalar_ty: ScalarType::Half,
            },
        )
    }
}

/// Reads the little-endian 32-bit word at `offset`, exactly as the spec
/// parser does.
pub fn read_u32(data: &[u8], offset: usize) -> (r: Result<u32, FormatError>)
    ensures
        r == spec_read_u32(data@, offset as int),
{
    let n = data.len();
    if offset > n || n - offset < 4 {
        return Err(FormatError::UnexpectedEof);
    }
    Ok(u32_from_le_bytes(slice_subrange(data, offset, offset + 4)))
}

/// One vocabulary entry at `off`: a 32-bit length, that many token bytes,
/// and the 32-bit score that follows them.
pub open spec fn spec_vocab_entry(data: Seq<u8>, off: int) -> Result<
    (VocabEntryV, int),
    FormatError,
> {
    let len = data.len() as int;
    if off + 4 > len {
        Err(FormatError::UnexpectedEof)
    } else {
        let tok_len = le32(data, off) as int;
        if off + 4 + tok_len + 4 > len {
            Err(FormatError::UnexpectedEof)
        } else {
            Ok(
                (
                    VocabEntryV {
                        token: data.subrange(off + 4, off + 4 + tok_len),
                        score_bits: le32(data, off + 4 + tok_len),
                    },
                    off + 8 + tok_len,
                ),
            )
        }
    }
}

/// `n` vocabulary entries in sequence starting at `off`, and the offset just
/// past them.
pub open spec fn spec_vocab(data: Seq<u8>, off: int, n: nat) -> Result<
    (Seq<VocabEntryV>, int),
    FormatError,
>
    decreases n,
{
    if n == 0 {
        Ok((Seq::empty(), off))
    } else {
        match spec_vocab_entry(data, off) {
            Err(e) => Err(e),
            Ok((v, off2)) => match spec_vocab(data, off2, (n - 1) as nat) {
                Err(e) => Err(e),
                Ok((rest, end)) => Ok((seq![v].add(rest), end)),
            },
        }
    }
}

/// A prefix of already-parsed entries joined onto the rest of a section
/// parse.
pub open spec fn join_vocab(pre: Seq<VocabEntryV>, r: Result<(Seq<VocabEntryV>, int), FormatError>)
    -> Result<(Seq<VocabEntryV>, int), FormatError> {
    match r {
        Ok((rest, end)) => Ok((pre.add(rest), end)),
        Err(e) => Err(e),
    }
}

/// The views of a sequence of parsed vocabulary entries.
pub open spec fn vocab_views(v: Seq<VocabEntry>) -> Seq<VocabEntryV> {
    v.map_values(|e: VocabEntry| e@)
}

/// Parses one vocabulary entry at `offset`, exactly as the spec parser does.
pub fn parse_vocab_entry(data: &[u8], offset: usize) -> (r: Result<
    (VocabEntry, usize),
    FormatError,
>)
    ensures
        match r {
            Ok((e, off2)) => spec_vocab_entry(data@, offset as int) == Ok::<
                (VocabEntryV, int),
                FormatError,
            >((e@, off2 as int)),
            Err(e) => spec_vocab_entry(data@, offset as int) == Err::<
                (VocabEntryV, int),
                FormatError,
            >(e),
        },
{
    let n = data.len();
    if offset > n || n - offset < 4 {
        return Err(FormatError::UnexpectedEof);
    }
    let tok_len = u32_from_le_bytes(slice_subrange(data, offset, offset + 4)) as usize;
    let rem = n - offset - 4;
    if rem < tok_len || rem - tok_len < 4 {
        return Err(FormatError::UnexpectedEof);
    }
    let token = vstd::slice::slice_to_vec(slice_subrange(data, offset + 4, offset + 4 + tok_len));
    let score_bits = u32_from_le_bytes(
        slice_subrange(data, offset + 4 + tok_len, offset + 8 + tok_len),
    );
    Ok((VocabEntry { token, score_bits }, offset + 8 + tok_len))
}

/// Parses the whole vocabulary section of `n_entries` entries starting at
/// `offset`, exactly as the spec parser does.
#[verifier::loop_isolation(false)]
pub fn parse_vocab(data: &[u8], offset: usize, n_entries: usize) -> (r: Result<
    (Vec<VocabEntry>, usize),
    FormatError,
>)
    requires
        offset <= data@.len(),
    ensures
        match r {
            Ok((v, end)) => spec_vocab(data@, offset as int, n_entries as nat) == Ok::<
                (Seq<VocabEntryV>, int),
                FormatError,
            >((vocab_views(v@), end as int)) && end <= data@.len(),
            Err(e) => spec_vocab(data@, offset as int, n_entries as nat) == Err::<
                (Seq<VocabEntryV>, int),
                FormatError,
            >(e),
        },
{
    let mut acc: Vec<VocabEntry> = Vec::new();
    let mut cur = offset;
    let mut i: usize = 0;
    proof {
        assert(Seq::<VocabEntryV>::empty().add(
            match spec_vocab(data@, offset as int, n_entries as nat) {
                Ok((rest, _)) => rest,
                Err(_) => Seq::empty(),
            },
        ) =~= match spec_vocab(data@, offset as int, n_entries as nat) {
            Ok((rest, _)) => rest,
            Err(_) => Seq::empty(),
        });
        assert(vocab_views(acc@) =~= Seq::<VocabEntryV>::empty());
    }
    while i < n_entries
        invariant
            0 <= i <= n_entries,
            cur <= data@.len(),
            join_vocab(vocab_views(acc@), spec_vocab(data@, cur as int, (n_entries - i) as nat))
                == spec_vocab(data@, offset as int, n_entries as nat),
        decreases n_entries - i,
    {
        let ghost pre = vocab_views(acc@);
        let ghost restspec = spec_vocab(data@, cur as int, (n_entries - i) as nat);
        match parse_vocab_entry(data, cur) {
            Err(e) => {
                proof {
                    assert(restspec == Err::<(Seq<VocabEntryV>, int), FormatError>(e));
                }
                return Err(e);
            },
            Ok((entry, cur2)) => {
                proof {
                    assert(spec_vocab_entry(data@, cur as int) == Ok::<
                        (VocabEntryV, int),
                        FormatError,
                    >((entry@, cur2 as int)));
                    assert(cur2 as int <= data@.len());
                }
                let ghost e_view = entry@;
                acc.push(entry);
                proof {
                    assert(vocab_views(acc@) =~= pre.push(e_view));
                    let rest2 = spec_vocab(data@, cur2 as int, (n_entries - i - 1) as nat);
                    match rest2 {
                        Ok((rest, end)) => {
                            assert(pre.push(e_view).add(rest) =~= pre.add(seq![e_view].add(rest)));
                        },
                        Err(_) => {},
                    }
                }
                cur = cur2;
                i = i + 1;
            },
        }
    }
    proof {
        assert(spec_vocab(data@, cur as int, 0) == Ok::<(Seq<VocabEntryV>, int), FormatError>(
            (Seq::empty(), cur as int),
        ));
        assert(vocab_views(acc@).add(Seq::<VocabEntryV>::empty()) =~= vocab_views(acc@));
    }
    Ok((acc, cur))
}

/// One weight record at `off`: a three-word header (dimension count, name
/// length, element-type tag), the 32-bit dimension extents, the UTF-8 name,
/// and the raw element payload of `product(dims)` elements at the tag's
/// width (tag 0: 32-bit, tag 1: 16-bit).
pub open spec fn spec_var(data: Seq<u8>, off: int) -> Result<(VarV, int), FormatError> {
    let len = data.len() as int;
    if off + 12 > len {
        Err(FormatError::UnexpectedEof)
    } else {
        let nd = le32(data, off) as int;
        let name_len = le32(data, off + 4) as int;
        let ftype = le32(data, off + 8);
        let dims_end = off + 12 + 4 * nd;
        if dims_end > len {
            Err(FormatError::UnexpectedEof)
        } else {
            let dims = Seq::new(nd as nat, |i: int| le32(data, off + 12 + 4 * i) as usize);
            let name_end = dims_end + name_len;
            if name_end > len {
                Err(FormatError::UnexpectedEof)
            } else {
                let name = data.subrange(dims_end, name_end);
                if !is_utf8(name) {
                    Err(FormatError::InvalidName)
                } else {
                    let count = product(dims);
                    if ftype == 0 {
                        if name_end + 4 * count > len {
                            Err(FormatError::UnexpectedEof)
                        } else {
                            Ok(
                                (
                                    VarV {
                                        name,
                                        dims,
                                        data: DataV::Single(
                                            Seq::new(
                                                count as nat,
                                                |i: int| le32(data, name_end + 4 * i),
                                            ),
                                        ),
                                    },
                                    name_end + 4 * count,
                                ),
                            )
                        }
                    } else if ftype == 1 {
                        if name_end + 2 * count > len {
                            Err(FormatError::UnexpectedEof)
                        } else {
                            Ok(
                                (
                                    VarV {
                                        name,
                                        dims,
                                        data: DataV::Half(
                                            Seq::new(
                                                count as nat,
                                                |i: int| le16(data, name_end + 2 * i),
                                            ),
                                        ),
                                    },
                                    name_end + 2 * count,
                                ),
                            )
                        }
                    } else {
                        Err(FormatError::InvalidFtype)
                    }
                }
            }
        }
    }
}

/// The weight records from `off` to the end of the data, each name checked
/// against all earlier names; parsing stops cleanly at any tail shorter
/// than a record header. `fuel` only bounds the recursion and any value of
/// at least one per remaining byte is enough, since every record spans at
/// least twelve bytes.
pub open spec fn spec_vars(data: Seq<u8>, off: int, seen: Seq<Seq<u8>>, fuel: nat) -> Result<
    (Seq<VarV>, int),
    FormatError,
>
    decreases fuel,
{
    if off + 12 > data.len() {
        Ok((Seq::empty(), off))
    } else if fuel == 0 {
        Err(FormatError::UnexpectedEof)
    } else {
        match spec_var(data, off) {
            Err(e) => Err(e),
            Ok((v, off2)) => {
                if seen.contains(v.name) {
                    Err(FormatError::DuplicateName)
                } else {
                    match spec_vars(data, off2, seen.push(v.name), (fuel - 1) as nat) {
                        Err(e) => Err(e),
                        Ok((rest, end)) => Ok((seq![v].add(rest), end)),
                    }
                }
            },
        }
    }
}

/// A prefix of already-parsed records joined onto the rest of a record
/// chain parse.
pub open spec fn join_vars(pre: Seq<VarV>, r: Result<(Seq<VarV>, int), FormatError>) -> Result<
    (Seq<VarV>, int),
    FormatError,
> {
    match r {
        Ok((rest, end)) => Ok((pre.add(rest), end)),
        Err(e) => Err(e),
    }
}

/// The views of a sequence of parsed weight records.
pub open spec fn var_views(v: Seq<Var>) -> Seq<VarV> {
    v.map_values(|e: Var| e@)
}

/// The names of a sequence of weight-record views, in order.
pub open spec fn names_of(v: Seq<VarV>) -> Seq<Seq<u8>> {
    v.map_values(|e: VarV| e.name)
}

/// No two records share a name.
pub open spec fn unique_names(v: Seq<VarV>) -> bool {
    forall|i: int, j: int| 0 <= i < j < v.len() ==> v[i].name != v[j].name
}

/// Parses one weight record at `offset`, exactly as the spec parser does.
#[verifier::loop_isolation(false)]
pub fn parse_var(data: &[u8], offset: usize) -> (r: Result<(Var, usize), FormatError>)
    ensures
        match r {
            Ok((v, off2)) => spec_var(data@, offset as int) == Ok::<(VarV, int), FormatError>(
                (v@, off2 as int),
            ) && offset + 12 <= off2 && off2 <= data@.len(),
            Err(e) => spec_var(data@, offset as int) == Err::<(VarV, int), FormatError>(e),
        },
{
    let n = data.len();
    if offset > n || n - offset < 12 {
        return Err(FormatError::UnexpectedEof);
    }
    let nd = u32_from_le_bytes(slice_subrange(data, offset, offset + 4)) as usize;
    let name_len = u32_from_le_bytes(slice_subrange(data, offset + 4, offset + 8)) as usize;
    let ftype = u32_from_le_bytes(slice_subrange(data, offset + 8, offset + 12));
    let rem = n - offset - 12;
    let dims_bytes = match nd.checked_mul(4) {
        Some(x) => x,
        None => {
            return Err(FormatError::UnexpectedEof);
        },
    };
    if rem < dims_bytes {
        return Err(FormatError::UnexpectedEof);
    }
    let dims_end = offset + 12 + dims_bytes;
    let ghost dimseq = Seq::new(nd as nat, |i: int| le32(data@, offset + 12 + 4 * i) as usize);
    let mut dims: Vec<usize> = Vec::new();
    let mut i: usize = 0;
    while i < nd
        invariant
            0 <= i <= nd,
            dims@.len() == i,
            forall|j: int| 0 <= j < i ==> dims@[j] == le32(data@, offset + 12 + 4 * j) as usize,
        decreases nd - i,
    {
        let x = u32_from_le_bytes(slice_subrange(data, offset + 12 + i * 4, offset + 16 + i * 4));
        dims.push(x as usize);
        i = i + 1;
    }
    proof {
        assert(dims@ =~= dimseq);
    }
    let rem2 = n - dims_end;
    if rem2 < name_len {
        return Err(FormatError::UnexpectedEof);
    }
    let name_end = dims_end + name_len;
    let nameslice = slice_subrange(data, dims_end, name_end);
    if !utf8_valid(nameslice) {
        return Err(FormatError::InvalidName);
    }
    let name = vstd::slice::slice_to_vec(nameslice);
    if !(ftype == 0 || ftype == 1) {
        return Err(FormatError::InvalidFtype);
    }
    let mut any_zero = false;
    let mut z: usize = 0;
    while z < nd
        invariant
            0 <= z <= nd,
            dims@ == dimseq,
            any_zero <==> exists|j: int| 0 <= j < z && dimseq[j] == 0,
        decreases nd - z,
    {
        if dims[z] == 0 {
            any_zero = true;
        }
        z = z + 1;
    }
    let count: usize;
    if any_zero {
        proof {
            let j = choose|j: int| 0 <= j < nd && dimseq[j] == 0;
            crate::shape::lemma_product_zero(dimseq, j);
        }
        count = 0;
    } else {
        count = match crate::shape::checked_product(&dims) {
            Some(p) => p,
            None => {
                proof {
                    assert(product(dimseq) > usize::MAX);
                }
                return Err(FormatError::UnexpectedEof);
            },
        };
    }
    let rem3 = n - name_end;
    if ftype == 0 {
        let needed = match count.checked_mul(4) {
            Some(x) => x,
            None => {
                return Err(FormatError::UnexpectedEof);
            },
        };
        if rem3 < needed {
            return Err(FormatError::UnexpectedEof);
        }
        let ghost wordseq = Seq::new(count as nat, |i: int| le32(data@, name_end + 4 * i));
        let mut words: Vec<u32> = Vec::new();
        let mut c: usize = 0;
        while c < count
            invariant
                0 <= c <= count,
                words@.len() == c,
                forall|j: int| 0 <= j < c ==> words@[j] == le32(data@, name_end + 4 * j),
            decreases count - c,
        {
            let w = u32_from_le_bytes(
                slice_subrange(data, name_end + c * 4, name_end + c * 4 + 4),
            );
            words.push(w);
            c = c + 1;
        }
        proof {
            assert(words@ =~= wordseq);
        }
        Ok((Var { name, dims, data: Data::Single(words) }, name_end + needed))
    } else {
        let needed = match count.checked_mul(2) {
            Some(x) => x,
            None => {
                return Err(FormatError::UnexpectedEof);
            },
        };
        if rem3 < needed {
            return Err(FormatError::UnexpectedEof);
        }
        let ghost wordseq = Seq::new(count as nat, |i: int| le16(data@, name_end + 2 * i));
        let mut words: Vec<u16> = Vec::new();
        let mut c: usize = 0;
        while c < count
            invariant
                0 <= c <= count,
                words@.len() == c,
                forall|j: int| 0 <= j < c ==> words@[j] == le16(data@, name_end + 2 * j),
            decreases count - c,
        {
            let w = vstd::bytes::u16_from_le_bytes(
                slice_subrange(data, name_end + c * 2, name_end + c * 2 + 2),
            );
            words.push(w);
            c = c + 1;
        }
        proof {
            assert(words@ =~= wordseq);
        }
        Ok((Var { name, dims, data: Data::Half(words) }, name_end + needed))
    }
}

/// A successfully parsed weight record spans at least its twelve header
/// bytes and ends within the data.
pub proof fn lemma_spec_var_bounds(data: Seq<u8>, off: int)
    requires
        0 <= off,
    ensures
        match spec_var(data, off) {
            Ok((v, off2)) => off + 12 <= off2 <= data.len(),
            Err(e) => true,
        },
{
    match spec_var(data, off) {
        Ok((v, off2)) => {
            let nd = le32(data, off) as int;
            let dims = Seq::new(nd as nat, |i: int| le32(data, off + 12 + 4 * i) as usize);
            crate::shape::lemma_product_nonneg(dims);
            let count = product(dims);
            assert(4 * count >= 0 && 2 * count >= 0) by (nonlinear_arith)
                requires
                    count >= 0,
            ;
        },
        Err(_) => {},
    }
}

/// The fuel of the record chain is inessential: any two bounds large enough
/// that so many twelve-byte records could not fit in the data give the same
/// parse.
pub proof fn lemma_spec_vars_fuel(data: Seq<u8>, off: int, seen: Seq<Seq<u8>>, f1: nat, f2: nat)
    requires
        0 <= off,
        12 * f1 + off > data.len(),
        12 * f2 + off > data.len(),
    ensures
        spec_vars(data, off, seen, f1) == spec_vars(data, off, seen, f2),
    decreases f1 + f2,
{
    if off + 12 > data.len() {
    } else {
        assert(f1 >= 1 && f2 >= 1) by (nonlinear_arith)
            requires
                12 * f1 + off > data.len(),
                12 * f2 + off > data.len(),
                off + 12 <= data.len(),
                f1 >= 0,
                f2 >= 0,
        ;
        match spec_var(data, off) {
            Err(_) => {},
            Ok((v, off2)) => {
                lemma_spec_var_bounds(data, off);
                if !seen.contains(v.name) {
                    assert(12 * ((f1 - 1) as nat) + off2 > data.len());
                    assert(12 * ((f2 - 1) as nat) + off2 > data.len());
                    lemma_spec_vars_fuel(
                        data,
                        off2,
                        seen.push(v.name),
                        (f1 - 1) as nat,
                        (f2 - 1) as nat,
                    );
                }
            },
        }
    }
}

/// The whole model file: the header, `vocab_size` vocabulary entries, and
/// weight records to the end of the data.
pub open spec fn spec_model(data: Seq<u8>) -> Result<
    (Seq<VocabEntryV>, HParams, Seq<VarV>),
    FormatError,
> {
    match spec_header(data) {
        Err(e) => Err(e),
        Ok(h) => match spec_vocab(data, 36, h.vocab_size as nat) {
            Err(e) => Err(e),
            Ok((voc, off)) => match spec_vars(data, off, Seq::empty(), (data.len() + 1) as nat) {
                Err(e) => Err(e),
                Ok((vars, _end)) => Ok((voc, h, vars)),
            },
        },
    }
}

/// A record chain accepts no name it has already seen: the records of a
/// successful parse carry pairwise-distinct names, none of them in `seen`.
pub proof fn lemma_spec_vars_unique(data: Seq<u8>, off: int, seen: Seq<Seq<u8>>, fuel: nat)
    ensures
        match spec_vars(data, off, seen, fuel) {
            Ok((vs, end)) => unique_names(vs) && forall|i: int|
                0 <= i < vs.len() ==> !seen.contains(#[trigger] vs[i].name),
            Err(e) => true,
        },
    decreases fuel,
{
    if off + 12 > data.len() {
    } else if fuel == 0 {
    } else {
        match spec_var(data, off) {
            Err(_) => {},
            Ok((v, off2)) => {
                if seen.contains(v.name) {
                } else {
                    let seen2 = seen.push(v.name);
                    lemma_spec_vars_unique(data, off2, seen2, (fuel - 1) as nat);
                    match spec_vars(data, off2, seen2, (fuel - 1) as nat) {
                        Err(_) => {},
                        Ok((rest, _)) => {
                            let vs = seq![v].add(rest);
                            assert(seen2[seen.len() as int] == v.name);
                            assert forall|i: int, j: int| 0 <= i < j < vs.len() implies vs[i].name
                                != vs[j].name by {
                                if i == 0 {
                                    assert(!seen2.contains(rest[j - 1].name));
                                    if rest[j - 1].name == v.name {
                                        assert(seen2.contains(rest[j - 1].name));
                                    }
                                } else {
                                    assert(rest[i - 1].name != rest[j - 1].name);
                                }
                            }
                            assert forall|i: int| 0 <= i < vs.len() implies !seen.contains(
                                #[trigger] vs[i].name,
                            ) by {
                                if i == 0 {
                                } else {
                                    assert(!seen2.contains(rest[i - 1].name));
                                    if seen.contains(rest[i - 1].name) {
                                        let k = choose|k: int|
                                            0 <= k < seen.len() && seen[k] == rest[i - 1].name;
                                        assert(seen2[k] == rest[i - 1].name);
                                        assert(seen2.contains(rest[i - 1].name));
                                    }
                                }
                            }
                        },
                    }
                }
            },
        }
    }
}

impl Ggml {
    /// Parses a whole model file from its bytes, exactly as the spec parser
    /// does: the header, the vocabulary, and the named weight records, whose
    /// names come out pairwise distinct. Reading the file into the byte
    /// buffer is the caller's concern.
    pub fn load(data: &[u8]) -> (r: Result<(Vec<VocabEntry>, Ggml), FormatError>)
        ensures
            match r {
                Ok((vocab, g)) => spec_model(data@) == Ok::<
                    (Seq<VocabEntryV>, HParams, Seq<VarV>),
                    FormatError,
                >((vocab_views(vocab@), g.hparams, var_views(g.vars@))) && unique_names(
                    var_views(g.vars@),
                ),
                Err(e) => spec_model(data@) == Err::<
                    (Seq<VocabEntryV>, HParams, Seq<VarV>),
                    FormatError,
                >(e),
            },
    {
        let h = match parse_header(data) {
            Ok(h) => h,
            Err(e) => { return Err(e) },
        };
        let (vocab, off) = match parse_vocab(data, 36, h.vocab_size) {
            Ok(x) => x,
            Err(e) => { return Err(e) },
        };
        let (vars, _end) = match parse_vars(data, off) {
            Ok(x) => x,
            Err(e) => { return Err(e) },
        };
        proof {
            lemma_spec_vars_unique(
                data@,
                off as int,
                Seq::empty(),
                (data@.len() + 1) as nat,
            );
        }
        Ok((vocab, Ggml { hparams: h, vars }))
    }
}

fn eq_bytes(a: &Vec<u8>, b: &Vec<u8>) -> (r: bool)
    ensures
        r == (a@ == b@),
{
    if a.len() != b.len() {
        proof {
            assert(a@ != b@);
        }
        return false;
    }
    let n = a.len();
    let mut i: usize = 0;
    while i < n
        invariant
            0 <= i <= n,
            n == a@.len() == b@.len(),
            forall|j: int| 0 <= j < i ==> a@[j] == b@[j],
        decreases n - i,
    {
        if a[i] != b[i] {
            proof {
                assert(a@ != b@);
            }
            return false;
        }
        i = i + 1;
    }
    proof {
        assert(a@ =~= b@);
    }
    true
}

fn contains_name(vars: &Vec<Var>, name: &Vec<u8>) -> (r: bool)
    ensures
        r == names_of(var_views(vars@)).contains(name@),
{
    let n = vars.len();
    let mut i: usize = 0;
    while i < n
        invariant
            0 <= i <= n,
            n == vars@.len(),
            forall|j: int| 0 <= j < i ==> vars@[j]@.name != name@,
        decreases n - i,
    {
        if eq_bytes(&vars[i].name, name) {
            proof {
                assert(names_of(var_views(vars@))[i as int] == name@);
            }
            return true;
        }
        i = i + 1;
    }
    proof {
        assert forall|j: int|
            0 <= j < names_of(var_views(vars@)).len() implies names_of(var_views(vars@))[j]
            != name@ by {
            assert(vars@[j]@.name != name@);
        }
    }
    false
}

/// Parses the weight records from `offset` to the end of the data, exactly
/// as the spec parser does: records in file order, duplicate names refused,
/// any tail shorter than a record header accepted as the end.
#[verifier::loop_isolation(false)]
pub fn parse_vars(data: &[u8], offset: usize) -> (r: Result<(Vec<Var>, usize), FormatError>)
    requires
        offset <= data@.len(),
    ensures
        match r {
            Ok((v, end)) => spec_vars(
                data@,
                offset as int,
                Seq::empty(),
                (data@.len() + 1) as nat,
            ) == Ok::<(Seq<VarV>, int), FormatError>((var_views(v@), end as int)),
            Err(e) => spec_vars(data@, offset as int, Seq::empty(), (data@.len() + 1) as nat)
                == Err::<(Seq<VarV>, int), FormatError>(e),
        },
{
    let n = data.len();
    let ghost fuel0: nat = (data@.len() + 1) as nat;
    let ghost mut fuelg: nat = fuel0;
    let ghost mut steps: nat = 0;
    let mut vars: Vec<Var> = Vec::new();
    let mut cur = offset;
    proof {
        assert(var_views(vars@) =~= Seq::<VarV>::empty());
        assert(names_of(var_views(vars@)) =~= Seq::<Seq<u8>>::empty());
        match spec_vars(data@, cur as int, names_of(var_views(vars@)), fuelg) {
            Ok((rest, _)) => {
                assert(var_views(vars@).add(rest) =~= rest);
            },
            Err(_) => {},
        }
    }
    while n - cur >= 12
        invariant
            cur <= n == data@.len(),
            fuelg + steps == fuel0,
            offset + 12 * steps <= cur,
            join_vars(
                var_views(vars@),
                spec_vars(data@, cur as int, names_of(var_views(vars@)), fuelg),
            ) == spec_vars(data@, offset as int, Seq::empty(), fuel0),
        decreases n - cur,
    {
        proof {
            assert(12 * steps <= n) by (nonlinear_arith)
                requires
                    offset + 12 * steps <= cur <= n,
                    offset >= 0,
            ;
            assert(steps <= n) by (nonlinear_arith)
                requires
                    12 * steps <= n,
                    steps >= 0,
            ;
            assert(fuelg >= 1);
        }
        let ghost seen = names_of(var_views(vars@));
        match parse_var(data, cur) {
            Err(e) => {
                return Err(e);
            },
            Ok((var, cur2)) => {
                let ghost v_view = var@;
                if contains_name(&vars, &var.name) {
                    return Err(FormatError::DuplicateName);
                }
                let ghost oldvars = vars@;
                vars.push(var);
                proof {
                    assert(var_views(vars@) =~= var_views(oldvars).push(v_view));
                    assert(names_of(var_views(vars@)) =~= seen.push(v_view.name));
                    let rest2 = spec_vars(
                        data@,
                        cur2 as int,
                        seen.push(v_view.name),
                        (fuelg - 1) as nat,
                    );
                    match rest2 {
                        Ok((rest, end)) => {
                            assert(var_views(vars@).add(rest) =~= var_views(oldvars).add(
                                seq![v_view].add(rest),
                            ));
                        },
                        Err(_) => {},
                    }
                    fuelg = (fuelg - 1) as nat;
                    steps = steps + 1;
                    assert(12 * steps == 12 * (steps - 1) + 12) by (nonlinear_arith);
                }
                cur = cur2;
            },
        }
    }
    proof {
        assert(spec_vars(data@, cur as int, names_of(var_views(vars@)), fuelg) == Ok::<
            (Seq<VarV>, int),
            FormatError,
        >((Seq::empty(), cur as int)));
        assert(var_views(vars@).add(Seq::<VarV>::empty()) =~= var_views(vars@));
    }
    Ok((vars, cur))
}

/// Parses the 9-word header, exactly as the spec parser does.
pub fn parse_header(data: &[u8]) -> (r: Result<HParams, FormatError>)
    ensures
        r == spec_header(data@),
{
    if data.len() < 36 {
        return Err(FormatError::UnexpectedEof);
    }
    let magic = match read_u32(data, 0) {
        Ok(x) => x,
        Err(e) => { return Err(e) },
    };
    if magic != MAGIC {
        return Err(FormatError::InvalidMagic);
    }
    let version = match read_u32(data, 4) {
        Ok(x) => x,
        Err(e) => { return Err(e) },
    };
    if version != FORMAT_VERSION {
        return Err(FormatError::InvalidVersion);
    }
    let scalar_tag = match read_u32(data, 32) {
        Ok(x) => x,
        Err(e) => { return Err(e) },
    };
    if scalar_tag != 1 {
        return Err(FormatError::InvalidScalarType);
    }
    let vocab_size = match read_u32(data, 8) {
        Ok(x) => x,
        Err(e) => { return Err(e) },
    };
    let dim = match read_u32(data, 12) {
        Ok(x) => x,
        Err(e) => { return Err(e) },
    };
    let multiple_of = match read_u32(data, 16) {
        Ok(x) => x,
        Err(e) => { return Err(e) },
    };
    let n_heads = match read_u32(data, 20) {
        Ok(x) => x,
        Err(e) => { return Err(e) },
    };
    let n_layers = match read_u32(data, 24) {
        Ok(x) => x,
        Err(e) => { return Err(e) },
    };
    Ok(
        HParams {
            vocab_size: vocab_size as usize,
            dim: dim as usize,
            multiple_of: multiple_of as usize,
            n_heads: n_heads as usize,
            n_layers: n_layers as usize,
            scalar_ty: ScalarType::Half,
        },
    )
}

} // verus!
