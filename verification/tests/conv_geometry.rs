use ap_project::{ConvGeometry, Tensor};

#[test]
fn output_size_without_padding() {
    let g = ConvGeometry::new(&[2, 3, 8, 8], (3, 3), 1).unwrap();
    assert_eq!(g.output_height(), 6);
    assert_eq!(g.output_width(), 6);
    let mnist = ConvGeometry::new(&[50, 1, 28, 28], (3, 3), 2).unwrap();
    assert_eq!(mnist.output_height(), 13);
    assert_eq!(mnist.output_width(), 13);
    let small = ConvGeometry::new(&[4, 1, 6, 6], (3, 3), 1).unwrap();
    assert_eq!((small.output_height(), small.output_width()), (4, 4));
}

#[test]
fn geometry_is_refused_when_there_is_none() {
    assert!(ConvGeometry::new(&[2, 3, 8], (3, 3), 1).is_none());
    assert!(ConvGeometry::new(&[2, 3, 2, 8], (3, 3), 1).is_none());
    assert!(ConvGeometry::new(&[2, 3, 8, 8], (3, 9), 1).is_none());
    assert!(ConvGeometry::new(&[2, 3, 8, 8], (3, 3), 0).is_none());
    assert!(ConvGeometry::new(&[1, 1, 1, usize::MAX], (1, 0), 1).is_none());
    let g = ConvGeometry::new(&[2, 3, 8, 8], (3, 3), 1).unwrap();
    assert_eq!((g.batch, g.channels, g.height, g.width), (2, 3, 8, 8));
    assert_eq!((g.kernel_h, g.kernel_w, g.stride), (3, 3, 1));
}

#[test]
fn im2col_gathers_every_receptive_field() {
    let input = Tensor::from_vec((1..=9).map(|k| k as f32).collect(), &[1, 1, 3, 3]);
    let g = ConvGeometry::new(input.shape(), (2, 2), 1).unwrap();
    let col = g.im2col(&input);
    assert_eq!(col.shape(), &[4, 4]);
    assert_eq!(
        col.to_vec(),
        vec![
            1.0, 2.0, 4.0, 5.0, //
            2.0, 3.0, 5.0, 6.0, //
            4.0, 5.0, 7.0, 8.0, //
            5.0, 6.0, 8.0, 9.0,
        ]
    );
}

#[test]
fn im2col_with_stride_and_channels() {
    // [1, 2, 4, 4]: channel c holds 100 * c + 4 * h + w
    let data: Vec<f32> = (0..2)
        .flat_map(|c| (0..16).map(move |k| (100 * c + k) as f32))
        .collect();
    let input = Tensor::from_vec(data, &[1, 2, 4, 4]);
    let g = ConvGeometry::new(input.shape(), (2, 2), 2).unwrap();
    let col = g.im2col(&input);
    assert_eq!(col.shape(), &[4, 8]);
    // output position (0, 1, 1) reads rows 2..4, cols 2..4 of both channels
    let row: Vec<f32> = (0..8).map(|c| col.get(&[3, c])).collect();
    assert_eq!(row, vec![10.0, 11.0, 14.0, 15.0, 110.0, 111.0, 114.0, 115.0]);
}

#[test]
fn im2col_sources_point_into_the_input() {
    let g = ConvGeometry::new(&[1, 1, 3, 3], (2, 2), 1).unwrap();
    let src = g.im2col_sources();
    assert_eq!(src, vec![0, 1, 3, 4, 1, 2, 4, 5, 3, 4, 6, 7, 4, 5, 7, 8]);
}

#[test]
fn scattering_through_the_sources_accumulates_the_input_gradient() {
    // all-ones gradient of the im2col matrix: each input cell receives one
    // contribution per receptive field that contains it
    let g = ConvGeometry::new(&[1, 1, 3, 3], (2, 2), 1).unwrap();
    let src = g.im2col_sources();
    let mut grad_input = vec![0.0f32; 9];
    for &j in src.iter() {
        grad_input[j] += 1.0;
    }
    assert_eq!(grad_input, vec![1.0, 2.0, 1.0, 2.0, 4.0, 2.0, 1.0, 2.0, 1.0]);
}

#[test]
fn product_and_image_layouts_round_trip() {
    let g = ConvGeometry::new(&[2, 1, 3, 3], (2, 2), 1).unwrap();
    // [B*OH*OW, OC] = [8, 3]
    let m = Tensor::from_vec((0..24).map(|k| k as f32).collect(), &[8, 3]);
    let img = g.rows_to_channels(&m);
    assert_eq!(img.shape(), &[2, 3, 2, 2]);
    // element [bi, oc, oi, oj] is row (bi * 2 + oi) * 2 + oj, column oc
    assert_eq!(img.get(&[1, 2, 0, 1]), m.get(&[5, 2]));
    assert_eq!(img.get(&[0, 1, 1, 1]), m.get(&[3, 1]));
    let back = g.channels_to_rows(&img);
    assert_eq!(back.shape(), &[8, 3]);
    assert_eq!(back.to_vec(), m.to_vec());
}

#[test]
fn im2col_is_the_gather_through_its_sources() {
    let data: Vec<f32> = (0..2 * 3 * 5 * 4).map(|k| k as f32 * 0.5).collect();
    let input = Tensor::from_vec(data, &[2, 3, 5, 4]);
    let g = ConvGeometry::new(input.shape(), (3, 2), 2).unwrap();
    let col = g.im2col(&input).to_vec();
    let src = g.im2col_sources();
    let values = input.to_vec();
    assert_eq!(col.len(), src.len());
    assert_eq!(col.len(), 2 * 2 * 2 * (3 * 3 * 2));
    for (p, &j) in src.iter().enumerate() {
        assert_eq!(col[p], values[j]);
    }
}

#[test]
fn im2col_of_a_transposed_view_reads_through_the_strides() {
    // a [1, 1, 3, 2] image read from a transposed matrix
    let m = Tensor::from_vec((0..6).map(|k| k as f32).collect(), &[2, 3]).t();
    let img = m.reshape(&[1, 1, 3, 2]);
    let g = ConvGeometry::new(img.shape(), (2, 2), 1).unwrap();
    let col = g.im2col(&img);
    assert_eq!(col.shape(), &[2, 4]);
    assert_eq!(col.to_vec(), vec![0.0, 3.0, 1.0, 4.0, 1.0, 4.0, 2.0, 5.0]);
}

#[test]
fn col2im_sends_each_entry_back_where_it_was_read() {
    let g = ConvGeometry::new(&[1, 1, 3, 3], (2, 2), 1).unwrap();
    let ones = Tensor::filled(&[4, 4], 1.0f32);
    let back = g.col2im(&ones, 0.0, |a: f32, b: f32| a + b);
    assert_eq!(back.shape(), &[1, 1, 3, 3]);
    assert_eq!(back.to_vec(), vec![1.0, 2.0, 1.0, 2.0, 4.0, 2.0, 1.0, 2.0, 1.0]);
    // with distinct entries: input cell (1, 1) receives the last tap of
    // row 0, the third of row 1, the second of row 2 and the first of row 3
    let grad = Tensor::from_vec((0..16).map(|k| k as f32).collect(), &[4, 4]);
    let back = g.col2im(&grad, 0.0, |a: f32, b: f32| a + b);
    assert_eq!(back.get(&[0, 0, 1, 1]), 3.0 + 6.0 + 9.0 + 12.0);
    assert_eq!(back.get(&[0, 0, 0, 0]), 0.0);
    assert_eq!(back.get(&[0, 0, 2, 2]), 15.0);
}
