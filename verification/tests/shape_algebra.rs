use nxml::shape::{checked_product, extend_shape, flat_index, to_strides, MAX_DIMS};

#[test]
fn max_dims_is_four() {
    assert_eq!(MAX_DIMS, 4);
}

#[test]
fn checked_product_multiplies_extents() {
    assert_eq!(checked_product(&vec![2, 3, 4]), Some(24));
    assert_eq!(checked_product(&vec![7]), Some(7));
}

#[test]
fn checked_product_detects_overflow() {
    assert_eq!(checked_product(&vec![usize::MAX, 2]), None);
}

#[test]
fn extend_shape_left_pads_with_ones() {
    assert_eq!(extend_shape(&vec![5]), vec![1, 1, 1, 5]);
    assert_eq!(extend_shape(&vec![2, 3]), vec![1, 1, 2, 3]);
    assert_eq!(extend_shape(&vec![9, 2, 3, 4]), vec![9, 2, 3, 4]);
}

#[test]
fn to_strides_is_row_major() {
    // stride[3] = 1 and stride[d] = stride[d + 1] * shape[d + 1].
    assert_eq!(to_strides(&vec![2, 3, 4, 5]), vec![60, 20, 5, 1]);
    assert_eq!(to_strides(&vec![1, 1, 1, 7]), vec![7, 7, 7, 1]);
}

#[test]
fn flat_index_flattens_row_major() {
    let s = vec![2usize, 3, 4, 5];
    // sum(index[d] * stride[d]) with strides [60, 20, 5, 1].
    assert_eq!(flat_index(&s, 0, 0, 0, 0), 0);
    assert_eq!(flat_index(&s, 1, 2, 3, 4), 60 + 40 + 15 + 4);
    assert_eq!(flat_index(&s, 1, 2, 3, 4), 119);
}
