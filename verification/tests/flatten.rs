use ap_project::module::flatten::Flatten;
use ap_project::Tensor;

#[test]
fn flatten_and_unflatten_round_trip_shapes() {
    let mut flatten = Flatten::new();
    let out = flatten.forward(Tensor::filled(&[2, 3, 4, 4], 0.0f32));
    assert_eq!(out.shape(), &[2, 48]);

    let grad = flatten.backward(Tensor::filled(&[2, 48], 0.0f32));
    assert_eq!(grad.shape(), &[2, 3, 4, 4]);
}

#[test]
fn flatten_keeps_values_both_ways() {
    let data: Vec<f32> = (0..24).map(|k| k as f32).collect();
    let input = Tensor::from_vec(data.clone(), &[2, 3, 2, 2]);
    let mut flatten = Flatten::default();
    let out = flatten.forward(input);
    assert_eq!(out.shape(), &[2, 12]);
    assert_eq!(out.get(&[1, 0]), 12.0);
    assert_eq!(out.to_vec(), data);
    let back = flatten.backward(out);
    assert_eq!(back.shape(), &[2, 3, 2, 2]);
    assert_eq!(back.to_vec(), data);
    assert_eq!(back.get(&[1, 2, 1, 0]), 22.0);
}

#[test]
fn flatten_of_a_transposed_view() {
    let t = Tensor::from_vec((0..6).map(|k| k as f32).collect(), &[2, 3]).t();
    let mut flatten = Flatten::new();
    let out = flatten.forward(t);
    assert_eq!(out.shape(), &[3, 2]);
    assert_eq!(out.to_vec(), vec![0.0, 3.0, 1.0, 4.0, 2.0, 5.0]);
}
