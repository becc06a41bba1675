use nxml::tensor::{Tensor, TensorElement};
use nxml::TensorError;
use std::cell::RefCell;

/// Reads a tensor's flat row-major contents back out through the
/// elementwise-map kernel, which visits every element in order.
fn elems<T: TensorElement + Copy>(t: &Tensor<T>) -> Vec<T> {
    let acc = RefCell::new(Vec::new());
    let _ = t.map_elems(&|x: T| -> T {
        acc.borrow_mut().push(x);
        x
    });
    acc.into_inner()
}

#[test]
fn new_rejects_wrong_length() {
    let r = Tensor::<u16>::new(vec![1, 2, 3], vec![2, 2]);
    assert!(matches!(r, Err(TensorError::InvalidShape)));
}

#[test]
fn new_rejects_zero_extent() {
    let r = Tensor::<u16>::new(vec![], vec![0]);
    assert!(matches!(r, Err(TensorError::InvalidShape)));
}

#[test]
fn new_rejects_rank_five() {
    let r = Tensor::<u16>::new(vec![1], vec![1, 1, 1, 1, 1]);
    assert!(matches!(r, Err(TensorError::InvalidShape)));
}

#[test]
fn zeros_fills_with_zero() {
    let t = Tensor::<u32>::zeros(vec![2, 3]);
    assert_eq!(t.shape(), vec![2, 3]);
    assert_eq!(elems(&t), vec![0u32; 6]);
}

#[test]
fn reshape_round_trip_preserves_data() {
    let data: Vec<u16> = vec![10, 20, 30, 40, 50, 60];
    let t = Tensor::new(data.clone(), vec![2, 3]).unwrap();
    let back = t
        .reshape(vec![6])
        .unwrap()
        .reshape(vec![3, 2])
        .unwrap()
        .reshape(vec![2, 3])
        .unwrap();
    assert_eq!(back.shape(), vec![2, 3]);
    assert_eq!(elems(&back), data);
}

#[test]
fn reshape_rejects_wrong_product() {
    let t = Tensor::new(vec![1u32, 2, 3, 4], vec![2, 2]).unwrap();
    assert!(matches!(t.reshape(vec![5]), Err(TensorError::ShapeMismatch)));
    assert!(matches!(t.reshape(vec![4, 0]), Err(TensorError::ShapeMismatch)));
}

#[test]
fn repeat_rejects_uneven_factor() {
    let t = Tensor::new(vec![1u16, 2], vec![2]).unwrap();
    assert!(matches!(t.repeat(vec![3]), Err(TensorError::DimensionMismatch)));
    assert!(matches!(t.repeat(vec![2, 3]), Err(TensorError::DimensionMismatch)));
}

#[test]
fn repeat_tiles_exactly() {
    let t = Tensor::new(vec![1u16, 2], vec![1, 2]).unwrap();
    let r = t.repeat(vec![2, 4]).unwrap();
    assert_eq!(r.shape(), vec![2, 4]);
    assert_eq!(elems(&r), vec![1, 2, 1, 2, 1, 2, 1, 2]);
}

#[test]
fn repeat_can_raise_rank() {
    let t = Tensor::new(vec![7u32, 8, 9], vec![3]).unwrap();
    let r = t.repeat(vec![2, 3]).unwrap();
    assert_eq!(r.shape(), vec![2, 3]);
    assert_eq!(elems(&r), vec![7, 8, 9, 7, 8, 9]);
}

#[test]
fn get_rows_rejects_out_of_range() {
    let src = Tensor::new(vec![1u16, 2, 3, 4, 5, 6], vec![2, 3]).unwrap();
    let idxs = Tensor::new(vec![0usize, 2], vec![2]).unwrap();
    assert!(matches!(src.get_rows(&idxs), Err(TensorError::IndexOutOfRange)));
}

#[test]
fn get_rows_returns_row_unchanged() {
    let src = Tensor::new(vec![1u16, 2, 3, 4, 5, 6], vec![2, 3]).unwrap();
    for i in 0..2usize {
        let idxs = Tensor::new(vec![i], vec![1]).unwrap();
        let row = src.get_rows(&idxs).unwrap();
        assert_eq!(row.shape(), vec![1, 3]);
        let want: Vec<u16> = (0..3).map(|c| (i * 3 + c + 1) as u16).collect();
        assert_eq!(elems(&row), want);
    }
}

#[test]
fn get_rows_gathers_in_index_order() {
    let src = Tensor::new(vec![10u32, 11, 20, 21, 30, 31], vec![3, 2]).unwrap();
    let idxs = Tensor::new(vec![2usize, 0, 2], vec![3]).unwrap();
    let out = src.get_rows(&idxs).unwrap();
    assert_eq!(out.shape(), vec![3, 2]);
    assert_eq!(elems(&out), vec![30, 31, 10, 11, 30, 31]);
}

#[test]
fn clone_shares_value() {
    let t = Tensor::new(vec![5u16, 6], vec![2]).unwrap();
    let u = t.clone();
    assert_eq!(t.shape(), u.shape());
    assert_eq!(elems(&t), elems(&u));
}
