use ap_project::layout::{checked_numel, numel_of, row_major_strides_of};
use ap_project::tensor::scatter_accumulate;
use ap_project::Tensor;

fn grid(rows: usize, cols: usize) -> Tensor<f32> {
    let data: Vec<f32> = (0..rows * cols).map(|k| k as f32).collect();
    Tensor::from_vec(data, &[rows, cols])
}

#[test]
fn from_vec_keeps_row_major_order() {
    let t = Tensor::from_vec(vec![1.0f32, 2.0, 3.0, 4.0, 5.0, 6.0], &[2, 3]);
    assert_eq!(t.shape(), &[2, 3]);
    assert_eq!(t.strides(), &[3, 1]);
    assert_eq!(t.ndim(), 2);
    assert_eq!(t.numel(), 6);
    assert!(t.is_contiguous());
    assert_eq!(t.get(&[0, 0]), 1.0);
    assert_eq!(t.get(&[1, 2]), 6.0);
    assert_eq!(t.get(&[1, 0]), 4.0);
    assert_eq!(t.to_vec(), vec![1.0, 2.0, 3.0, 4.0, 5.0, 6.0]);
}

#[test]
fn row_major_strides_of_a_four_axis_shape() {
    assert_eq!(row_major_strides_of(&[2, 3, 4, 5]), vec![60, 20, 5, 1]);
    assert_eq!(numel_of(&[2, 3, 4, 5]), 120);
    assert_eq!(numel_of(&[]), 1);
    assert_eq!(numel_of(&[4, 0, 7]), 0);
}

#[test]
fn transpose_is_a_view_that_swaps_indices() {
    let base = grid(8, 10);
    let transposed = base.t();
    assert_eq!(transposed.shape(), &[10, 8]);
    assert_eq!(transposed.strides(), &[1, 10]);
    assert!(!transposed.is_contiguous());
    for i in 0..8 {
        for j in 0..10 {
            assert_eq!(base.get(&[i, j]), transposed.get(&[j, i]));
        }
    }
    // the row-major order of the view is the transposed order
    let v = transposed.to_vec();
    assert_eq!(&v[..4], &[0.0, 10.0, 20.0, 30.0]);
}

#[test]
fn views_agree_with_the_materialized_copy() {
    let base = grid(20, 20);
    let transposed = base.t();
    let reshaped = base.reshape(&[400]);
    let materialized = transposed.contiguous();
    assert!(materialized.is_contiguous());
    assert_eq!(base.get(&[3, 7]), transposed.get(&[7, 3]));
    assert_eq!(base.get(&[3, 7]), materialized.get(&[7, 3]));
    assert_eq!(reshaped.numel(), base.numel());
    assert_eq!(materialized.to_vec(), transposed.to_vec());
}

#[test]
fn transposing_twice_gives_the_matrix_back() {
    let base = grid(3, 5);
    let back = base.t().t();
    assert_eq!(back.shape(), base.shape());
    assert!(back.is_contiguous());
    assert_eq!(back.to_vec(), base.to_vec());
}

#[test]
fn reshape_keeps_row_major_values() {
    let base = grid(4, 6);
    let r = base.reshape(&[2, 3, 4]);
    assert_eq!(r.shape(), &[2, 3, 4]);
    assert_eq!(r.strides(), &[12, 4, 1]);
    assert_eq!(r.to_vec(), base.to_vec());
    assert_eq!(r.get(&[1, 2, 3]), 23.0);
    // reshaping a transposed view copies it first
    let rt = base.t().reshape(&[24]);
    assert_eq!(rt.to_vec(), base.t().to_vec());
    assert_eq!(rt.get(&[1]), 6.0);
}

#[test]
fn filled_tensor() {
    let z = Tensor::filled(&[2, 3, 4, 4], 0.0f32);
    assert_eq!(z.shape(), &[2, 3, 4, 4]);
    assert_eq!(z.numel(), 96);
    assert!(z.to_vec().iter().all(|&x| x == 0.0));
}

#[test]
fn map_applies_elementwise_in_order() {
    let t = Tensor::from_vec(vec![-1.0f32, 0.0, 2.0], &[1, 3]);
    let relu = t.map(|x: f32| x.max(0.0));
    assert_eq!(relu.shape(), &[1, 3]);
    assert_eq!(relu.get(&[0, 0]), 0.0);
    assert_eq!(relu.get(&[0, 1]), 0.0);
    assert_eq!(relu.get(&[0, 2]), 2.0);
    let tm = grid(2, 3).t().map(|x: f32| x * 2.0);
    assert_eq!(tm.to_vec(), vec![0.0, 6.0, 2.0, 8.0, 4.0, 10.0]);
}

#[test]
fn zip_map_pairs_same_positions() {
    let grad = Tensor::from_vec(vec![1.0f32, 1.0, 1.0], &[1, 3]);
    let input = Tensor::from_vec(vec![-1.0f32, 0.0, 2.0], &[1, 3]);
    let g = grad.zip_map(&input, |g: f32, x: f32| if x > 0.0 { g } else { 0.0 });
    assert_eq!(g.to_vec(), vec![0.0, 0.0, 1.0]);
}

#[test]
fn broadcast_adds_a_row_bias_to_every_row() {
    let batch = grid(3, 2);
    let bias = Tensor::from_vec(vec![10.0f32, 20.0], &[1, 2]);
    let out = batch.zip_map_broadcast(&bias, |a: f32, b: f32| a + b);
    assert_eq!(out.shape(), &[3, 2]);
    assert_eq!(out.to_vec(), vec![10.0, 21.0, 12.0, 23.0, 14.0, 25.0]);
}

#[test]
fn broadcast_adds_a_channel_bias_over_an_image() {
    let img = Tensor::filled(&[2, 3, 2, 2], 1.0f32);
    let bias = Tensor::from_vec(vec![0.5f32, 1.5, 2.5], &[1, 3, 1, 1]);
    let out = img.zip_map_broadcast(&bias, |a: f32, b: f32| a + b);
    for bi in 0..2 {
        for c in 0..3 {
            for h in 0..2 {
                for w in 0..2 {
                    assert_eq!(out.get(&[bi, c, h, w]), 1.0 + 0.5 + c as f32);
                }
            }
        }
    }
}

#[test]
fn checked_element_count() {
    assert_eq!(checked_numel(&[2, 3, 4]), Some(24));
    assert_eq!(checked_numel(&[]), Some(1));
    assert_eq!(checked_numel(&[usize::MAX, 2]), None);
    // the product is zero, but a row-major stride would not fit
    assert_eq!(checked_numel(&[0, usize::MAX, 2]), None);
    assert_eq!(checked_numel(&[0, usize::MAX]), Some(0));
}

#[test]
fn scatter_accumulates_in_order() {
    let out = scatter_accumulate(vec![0.0f32; 3], &[2, 0, 2, 1], &[1.0, 2.0, 3.0, 4.0], |a: f32, b: f32| a + b);
    assert_eq!(out, vec![2.0, 4.0, 4.0]);
    // order matters for a non-commutative combination
    let seq = scatter_accumulate(vec![0i64; 1], &[0, 0, 0], &[1, 2, 3], |a: i64, b: i64| 10 * a + b);
    assert_eq!(seq, vec![123]);
}
