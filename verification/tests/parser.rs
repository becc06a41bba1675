use half::f16;
use nxml::ggml::{Data, FormatError, Ggml, ScalarType};
use nxml::{Tensor, Type};

fn push_u32(out: &mut Vec<u8>, x: u32) {
    out.extend_from_slice(&x.to_le_bytes());
}

fn header(vocab_size: u32) -> Vec<u8> {
    let mut out = Vec::new();
    push_u32(&mut out, 0x67676d66);
    push_u32(&mut out, 1); // version
    push_u32(&mut out, vocab_size);
    push_u32(&mut out, 512); // dim
    push_u32(&mut out, 256); // multiple_of
    push_u32(&mut out, 8); // n_heads
    push_u32(&mut out, 2); // n_layers
    push_u32(&mut out, 0); // reserved
    push_u32(&mut out, 1); // scalar type tag: half precision
    out
}

fn vocab_entry(out: &mut Vec<u8>, token: &[u8], score: f32) {
    push_u32(out, token.len() as u32);
    out.extend_from_slice(token);
    push_u32(out, score.to_bits());
}

fn var_header(out: &mut Vec<u8>, dims: &[u32], name: &[u8], ftype: u32) {
    push_u32(out, dims.len() as u32);
    push_u32(out, name.len() as u32);
    push_u32(out, ftype);
    for d in dims {
        push_u32(out, *d);
    }
    out.extend_from_slice(name);
}

#[test]
fn read_u32_reads_little_endian() {
    let data = vec![0x78, 0x56, 0x34, 0x12, 0xff];
    assert_eq!(nxml::ggml::read_u32(&data, 0), Ok(0x12345678));
    assert_eq!(nxml::ggml::read_u32(&data, 2), Err(FormatError::UnexpectedEof));
}

#[test]
fn header_rejects_bad_magic() {
    let mut data = header(0);
    data[0] = 0;
    assert!(matches!(Ggml::load(&data), Err(FormatError::InvalidMagic)));
}

#[test]
fn header_rejects_bad_version() {
    let mut data = header(0);
    data[4] = 9;
    assert!(matches!(Ggml::load(&data), Err(FormatError::InvalidVersion)));
}

#[test]
fn header_rejects_bad_scalar_type() {
    let mut data = header(0);
    data[32] = 0;
    assert!(matches!(Ggml::load(&data), Err(FormatError::InvalidScalarType)));
}

#[test]
fn header_rejects_short_data() {
    let data = header(0)[..20].to_vec();
    assert!(matches!(Ggml::load(&data), Err(FormatError::UnexpectedEof)));
}

#[test]
fn load_parses_vocab_and_vars() {
    let mut data = header(2);
    vocab_entry(&mut data, b"hello", 1.5);
    vocab_entry(&mut data, b"", -0.25);
    var_header(&mut data, &[2, 3], b"w.half", 1);
    for x in [1.0f32, 2.0, 3.0, 4.0, 5.0, 6.0] {
        data.extend_from_slice(&f16::from_f32(x).to_bits().to_le_bytes());
    }
    var_header(&mut data, &[2], b"w.single", 0);
    for x in [7.0f32, 8.0] {
        push_u32(&mut data, x.to_bits());
    }
    let (vocab, g) = Ggml::load(&data).unwrap();
    assert_eq!(vocab.len(), 2);
    assert_eq!(vocab[0].token, b"hello".to_vec());
    assert_eq!(vocab[0].score_bits, 1.5f32.to_bits());
    assert_eq!(vocab[1].token, Vec::<u8>::new());
    assert_eq!(vocab[1].score_bits, (-0.25f32).to_bits());
    assert_eq!(g.hparams.vocab_size, 2);
    assert_eq!(g.hparams.dim, 512);
    assert_eq!(g.hparams.multiple_of, 256);
    assert_eq!(g.hparams.n_heads, 8);
    assert_eq!(g.hparams.n_layers, 2);
    assert_eq!(g.hparams.scalar_ty, ScalarType::Half);
    assert_eq!(g.vars.len(), 2);
    assert_eq!(g.vars[0].name, b"w.half".to_vec());
    assert_eq!(g.vars[0].dims, vec![2, 3]);
    match &g.vars[0].data {
        Data::Half(words) => {
            let vals: Vec<f32> = words.iter().map(|w| f16::from_bits(*w).to_f32()).collect();
            assert_eq!(vals, vec![1.0, 2.0, 3.0, 4.0, 5.0, 6.0]);
        },
        Data::Single(_) => panic!("expected half-precision payload"),
    }
    assert_eq!(g.vars[1].name, b"w.single".to_vec());
    assert_eq!(g.vars[1].dims, vec![2]);
    match &g.vars[1].data {
        Data::Single(words) => {
            assert_eq!(words, &vec![7.0f32.to_bits(), 8.0f32.to_bits()]);
        },
        Data::Half(_) => panic!("expected single-precision payload"),
    }
}

#[test]
fn load_rejects_duplicate_names() {
    let mut data = header(0);
    var_header(&mut data, &[1], b"w", 0);
    push_u32(&mut data, 1.0f32.to_bits());
    var_header(&mut data, &[1], b"w", 0);
    push_u32(&mut data, 2.0f32.to_bits());
    assert!(matches!(Ggml::load(&data), Err(FormatError::DuplicateName)));
}

#[test]
fn load_rejects_bad_ftype() {
    let mut data = header(0);
    var_header(&mut data, &[1], b"w", 7);
    push_u32(&mut data, 0);
    assert!(matches!(Ggml::load(&data), Err(FormatError::InvalidFtype)));
}

#[test]
fn load_rejects_non_utf8_name() {
    let mut data = header(0);
    var_header(&mut data, &[1], &[0xff, 0xfe], 0);
    push_u32(&mut data, 0);
    assert!(matches!(Ggml::load(&data), Err(FormatError::InvalidName)));
}

#[test]
fn load_rejects_truncated_payload() {
    let mut data = header(0);
    var_header(&mut data, &[4], b"w", 0);
    push_u32(&mut data, 1.0f32.to_bits()); // only 1 of 4 words
    assert!(matches!(Ggml::load(&data), Err(FormatError::UnexpectedEof)));
}

#[test]
fn load_accepts_short_trailing_garbage() {
    // A tail shorter than a record header ends the record section cleanly.
    let mut data = header(0);
    var_header(&mut data, &[1], b"w", 0);
    push_u32(&mut data, 1.0f32.to_bits());
    data.extend_from_slice(&[0u8; 11]);
    let (_, g) = Ggml::load(&data).unwrap();
    assert_eq!(g.vars.len(), 1);
}

#[test]
fn load_accepts_empty_var_section() {
    let mut data = header(1);
    vocab_entry(&mut data, b"a", 0.0);
    let (vocab, g) = Ggml::load(&data).unwrap();
    assert_eq!(vocab.len(), 1);
    assert_eq!(g.vars.len(), 0);
}

#[test]
fn load_accepts_header_only_file() {
    let data = header(0);
    let (vocab, g) = Ggml::load(&data).unwrap();
    assert_eq!(vocab.len(), 0);
    assert_eq!(g.vars.len(), 0);
    assert_eq!(g.hparams.vocab_size, 0);
}

#[test]
fn meta_null_computes_chunk_aligned_strides() {
    let t = Tensor::null(Type::Single, &[5, 7]);
    assert_eq!(t.ty(), Type::Single);
    assert_eq!(t.shape(), &[5, 7]);
    // stride[0] is the element width; stride[1] rounds 4 * 5 = 20 bytes up
    // to a whole 64-byte chunk.
    assert_eq!(t.stride(), &[4, 64]);
}

#[test]
fn meta_zeros_allocates_final_extent() {
    let t = Tensor::zeros(Type::Single, &[16, 3]);
    // stride[1] = round_up(4 * 16, 64) = 64; buffer = 64 * 3 bytes.
    assert_eq!(t.stride(), &[4, 64]);
    assert_eq!(t.shape(), &[16, 3]);
}

#[test]
fn meta_type_constants() {
    assert_eq!(Type::Single.bytes(), 4);
    assert_eq!(Type::Single.per_chunk(), 16);
}

#[test]
fn meta_from_slice1_stores_little_endian_words() {
    let t = Tensor::from_slice1(Type::Single, &[0x12345678, 0xdeadbeef]);
    assert_eq!(t.shape(), &[2]);
    assert_eq!(t.stride(), &[4]);
}
