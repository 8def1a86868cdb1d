use ndarray::{ArrayD, Axis, IxDyn};
use pooling::{broadcast_mask, cls, Pooling, PoolingError, Tensor};

fn tensor<T>(shape: &[usize], data: Vec<T>) -> Tensor<T> {
    Tensor::from_shape_vec(shape.to_vec(), data).expect("shape and data agree")
}

/// The masked mean as a caller computes it: the weights come from the library,
/// the floating-point sums and the quotient from ndarray.
fn masked_mean(embeddings: &Tensor<f32>, mask: &Tensor<i64>) -> Tensor<f32> {
    let weights = broadcast_mask(embeddings, mask).expect("the mask fits the embeddings");
    let values =
        ArrayD::from_shape_vec(IxDyn(embeddings.shape()), embeddings.data().clone()).unwrap();
    let shape = weights.shape().clone();
    let weights = ArrayD::from_shape_vec(IxDyn(&shape), weights.into_raw_vec())
        .unwrap()
        .mapv(|x| x as f32);
    let sum = (&values * &weights).sum_axis(Axis(1));
    let count = weights
        .sum_axis(Axis(1))
        .mapv(|x| if x == 0f32 { 1.0 } else { x });
    let mean = &sum / &count;
    tensor(mean.shape(), mean.iter().copied().collect())
}

#[test]
fn default_strategy_is_cls() {
    assert_eq!(Pooling::default(), Pooling::Cls);
    assert_ne!(Pooling::default(), Pooling::Mean);
}

#[test]
fn strategy_clone_keeps_the_case() {
    assert_eq!(Pooling::Mean.clone(), Pooling::Mean);
    assert_eq!(Pooling::Cls.clone(), Pooling::Cls);
}

#[test]
fn from_shape_vec_accepts_matching_length() {
    let t = tensor(&[2, 3], vec![1, 2, 3, 4, 5, 6]);
    assert_eq!(t.ndim(), 2);
    assert_eq!(t.shape(), &vec![2usize, 3]);
    assert_eq!(t.data(), &vec![1, 2, 3, 4, 5, 6]);
    assert_eq!(t.len(), 6);
    assert_eq!(t.into_raw_vec(), vec![1, 2, 3, 4, 5, 6]);
}

#[test]
fn from_shape_vec_rejects_wrong_length() {
    assert!(Tensor::from_shape_vec(vec![2, 3], vec![1u8, 2, 3, 4, 5]).is_none());
    assert!(Tensor::from_shape_vec(vec![2, 3], vec![1u8; 7]).is_none());
    assert!(Tensor::from_shape_vec(vec![0, 3], vec![1u8]).is_none());
}

#[test]
fn from_shape_vec_rank_zero_holds_one_element() {
    let t = Tensor::from_shape_vec(Vec::new(), vec![7u8]).expect("a scalar");
    assert_eq!(t.ndim(), 0);
    assert_eq!(t.len(), 1);
    assert!(Tensor::from_shape_vec(Vec::new(), Vec::<u8>::new()).is_none());
}

#[test]
fn from_shape_vec_zero_axis_beats_huge_axes() {
    let t = Tensor::from_shape_vec(vec![usize::MAX, usize::MAX, 0], Vec::<u8>::new());
    assert!(t.is_some());
    assert_eq!(t.unwrap().len(), 0);
}

#[test]
fn from_shape_vec_rejects_overflowing_volume() {
    assert!(Tensor::from_shape_vec(vec![usize::MAX, 2], vec![0u8; 4]).is_none());
    assert!(Tensor::from_shape_vec(vec![usize::MAX, usize::MAX], Vec::<u8>::new()).is_none());
}

#[test]
fn tensor_clone_is_equal() {
    let t = tensor(&[2, 2], vec![1.0f32, 2.0, 3.0, 4.0]);
    assert_eq!(t.clone(), t);
}

#[test]
fn cls_rank2_is_identity() {
    let e = tensor(&[2, 4], vec![1.0f32, 2.0, 3.0, 4.0, 5.0, 6.0, 7.0, 8.0]);
    let out = cls(&e).expect("rank 2 is accepted");
    assert_eq!(out.shape(), &vec![2usize, 4]);
    assert_eq!(out, e);
}

#[test]
fn cls_rank2_empty_is_identity() {
    let e = tensor(&[0, 4], Vec::<f32>::new());
    assert_eq!(cls(&e).unwrap(), e);
}

#[test]
fn cls_rank3_takes_first_token() {
    let e = tensor(
        &[2, 3, 2],
        vec![1.0f32, 2.0, 3.0, 4.0, 5.0, 6.0, 7.0, 8.0, 9.0, 10.0, 11.0, 12.0],
    );
    let out = cls(&e).expect("rank 3 is accepted");
    assert_eq!(out, tensor(&[2, 2], vec![1.0f32, 2.0, 7.0, 8.0]));
}

#[test]
fn cls_rank3_single_token() {
    let e = tensor(&[3, 1, 2], vec![1, 2, 3, 4, 5, 6]);
    assert_eq!(cls(&e).unwrap(), tensor(&[3, 2], vec![1, 2, 3, 4, 5, 6]));
}

#[test]
fn cls_rank3_without_features() {
    let e = tensor(&[4, 2, 0], Vec::<f32>::new());
    assert_eq!(cls(&e).unwrap(), tensor(&[4, 0], Vec::<f32>::new()));
}

#[test]
fn cls_rank3_without_sequences() {
    let e = tensor(&[0, 2, 3], Vec::<f32>::new());
    assert_eq!(cls(&e).unwrap(), tensor(&[0, 3], Vec::<f32>::new()));
}

#[test]
fn cls_rank1_is_invalid_shape() {
    let e = tensor(&[3], vec![1.0f32, 2.0, 3.0]);
    assert_eq!(cls(&e), Err(PoolingError::InvalidShape { shape: vec![3] }));
}

#[test]
fn cls_rank4_is_invalid_shape() {
    let e = tensor(&[1, 2, 1, 2], vec![1.0f32, 2.0, 3.0, 4.0]);
    assert_eq!(
        cls(&e),
        Err(PoolingError::InvalidShape { shape: vec![1, 2, 1, 2] })
    );
}

#[test]
fn cls_rank0_is_invalid_shape() {
    let e = tensor(&[], vec![1.0f32]);
    assert_eq!(cls(&e), Err(PoolingError::InvalidShape { shape: vec![] }));
}

#[test]
fn broadcast_repeats_each_weight_over_the_features() {
    let e = tensor(&[2, 2, 3], vec![0.5f32; 12]);
    let m = tensor(&[2, 2], vec![1i64, 0, 2, 3]);
    let w = broadcast_mask(&e, &m).expect("the shapes agree");
    assert_eq!(
        w,
        tensor(&[2, 2, 3], vec![1i64, 1, 1, 0, 0, 0, 2, 2, 2, 3, 3, 3])
    );
}

#[test]
fn broadcast_spreads_a_single_column_over_the_tokens() {
    let e = tensor(&[2, 3, 2], vec![0u8; 12]);
    let m = tensor(&[2, 1], vec![4i64, 5]);
    let w = broadcast_mask(&e, &m).expect("a single column fits any token count");
    assert_eq!(
        w,
        tensor(&[2, 3, 2], vec![4i64, 4, 4, 4, 4, 4, 5, 5, 5, 5, 5, 5])
    );
}

#[test]
fn broadcast_of_a_single_column_over_no_tokens_is_empty() {
    let e = tensor(&[2, 0, 2], Vec::<f32>::new());
    let m = tensor(&[2, 1], vec![4i64, 5]);
    assert_eq!(
        broadcast_mask(&e, &m).unwrap(),
        tensor(&[2, 0, 2], Vec::<i64>::new())
    );
}

#[test]
fn broadcast_without_features_is_empty() {
    let e = tensor(&[2, 2, 0], Vec::<f32>::new());
    let m = tensor(&[2, 2], vec![1i64, 1, 1, 0]);
    assert_eq!(
        broadcast_mask(&e, &m).unwrap(),
        tensor(&[2, 2, 0], Vec::<i64>::new())
    );
}

#[test]
fn broadcast_refuses_other_batch() {
    let e = tensor(&[2, 2, 1], vec![0.0f32; 4]);
    let m = tensor(&[1, 2], vec![1i64, 1]);
    assert_eq!(
        broadcast_mask(&e, &m),
        Err(PoolingError::ShapeMismatch { embeddings: vec![2, 2, 1], mask: vec![1, 2] })
    );
}

#[test]
fn broadcast_refuses_other_token_count() {
    let e = tensor(&[1, 3, 1], vec![0.0f32; 3]);
    let m = tensor(&[1, 2], vec![1i64, 1]);
    assert_eq!(
        broadcast_mask(&e, &m),
        Err(PoolingError::ShapeMismatch { embeddings: vec![1, 3, 1], mask: vec![1, 2] })
    );
}

#[test]
fn broadcast_refuses_pooled_embeddings() {
    let e = tensor(&[2, 4], vec![0.0f32; 8]);
    let m = tensor(&[2, 4], vec![1i64; 8]);
    assert_eq!(
        broadcast_mask(&e, &m),
        Err(PoolingError::ShapeMismatch { embeddings: vec![2, 4], mask: vec![2, 4] })
    );
}

#[test]
fn broadcast_refuses_rank4_embeddings() {
    let e = tensor(&[1, 2, 2, 1], vec![0.0f32; 4]);
    let m = tensor(&[2, 2], vec![1i64; 4]);
    assert_eq!(
        broadcast_mask(&e, &m),
        Err(PoolingError::ShapeMismatch { embeddings: vec![1, 2, 2, 1], mask: vec![2, 2] })
    );
}

#[test]
fn broadcast_refuses_a_mask_that_is_no_matrix() {
    let e = tensor(&[2, 2, 1], vec![0.0f32; 4]);
    let m = tensor(&[4], vec![1i64; 4]);
    assert_eq!(
        broadcast_mask(&e, &m),
        Err(PoolingError::ShapeMismatch { embeddings: vec![2, 2, 1], mask: vec![4] })
    );
}

#[test]
fn mean_ignores_masked_tokens() {
    let e = tensor(&[1, 3, 2], vec![1.0f32, 1.0, 2.0, 2.0, 3.0, 3.0]);
    let m = tensor(&[1, 3], vec![1i64, 1, 0]);
    assert_eq!(masked_mean(&e, &m), tensor(&[1, 2], vec![1.5f32, 1.5]));
}

#[test]
fn mean_of_full_mask_is_plain_mean() {
    let e = tensor(&[2, 2, 1], vec![1.0f32, 3.0, 5.0, 7.0]);
    let m = tensor(&[2, 2], vec![1i64, 1, 1, 1]);
    assert_eq!(masked_mean(&e, &m), tensor(&[2, 1], vec![2.0f32, 6.0]));
}

#[test]
fn mean_of_empty_mask_is_zero() {
    let e = tensor(&[1, 2, 2], vec![4.0f32, -2.0, 8.0, 6.0]);
    let m = tensor(&[1, 2], vec![0i64, 0]);
    let out = masked_mean(&e, &m);
    assert_eq!(out, tensor(&[1, 2], vec![0.0f32, 0.0]));
    assert!(out.data().iter().all(|x| !x.is_nan()));
}

#[test]
fn mean_zero_row_beside_a_real_row() {
    let e = tensor(&[2, 2, 2], vec![1.0f32, 2.0, 3.0, 4.0, 5.0, 6.0, 7.0, 8.0]);
    let m = tensor(&[2, 2], vec![0i64, 0, 0, 1]);
    assert_eq!(
        masked_mean(&e, &m),
        tensor(&[2, 2], vec![0.0f32, 0.0, 7.0, 8.0])
    );
}

#[test]
fn mean_takes_weights_beyond_one() {
    let e = tensor(&[1, 2, 1], vec![1.0f32, 4.0]);
    let m = tensor(&[1, 2], vec![3i64, 1]);
    assert_eq!(masked_mean(&e, &m), tensor(&[1, 1], vec![1.75f32]));
}
