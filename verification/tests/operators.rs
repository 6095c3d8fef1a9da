use llama_infer::operators::{
    dot, gather, masked_softmax, matmul_transb, random_sample, rms_norm, rope, sigmoid, silu,
};
use llama_infer::reduce::{dot_of, max_of, sum_of};
use llama_infer::sampling::{
    argmax, cumulative_weights, nonpositive, ranks_of, sample_with_bits, sampling_order, select,
    threshold,
};
use llama_infer::scalar::Scalar;
use llama_infer::tensor::{checked_shape_product, push_run, Tensor, TensorError};

/// Single-precision arithmetic as the element type.
#[derive(Clone, Copy, Debug, PartialEq)]
struct F(f32);

impl Scalar for F {
    fn zero() -> Self {
        F(0.0)
    }

    fn one() -> Self {
        F(1.0)
    }

    fn from_usize(n: usize) -> Self {
        F(n as f32)
    }

    fn uniform(bits: u32) -> Self {
        F((bits >> 8) as f32 * (1.0 / (1u32 << 24) as f32))
    }

    fn add(self, rhs: Self) -> Self {
        F(self.0 + rhs.0)
    }

    fn sub(self, rhs: Self) -> Self {
        F(self.0 - rhs.0)
    }

    fn mul(self, rhs: Self) -> Self {
        F(self.0 * rhs.0)
    }

    fn div(self, rhs: Self) -> Self {
        F(self.0 / rhs.0)
    }

    fn neg(self) -> Self {
        F(-self.0)
    }

    fn abs(self) -> Self {
        F(self.0.abs())
    }

    fn exp(self) -> Self {
        F(self.0.exp())
    }

    fn sqrt(self) -> Self {
        F(self.0.sqrt())
    }

    fn powf(self, e: Self) -> Self {
        F(self.0.powf(e.0))
    }

    fn sin_cos(self) -> (Self, Self) {
        let (s, c) = self.0.sin_cos();
        (F(s), F(c))
    }

    fn max(self, rhs: Self) -> Self {
        F(self.0.max(rhs.0))
    }

    fn min(self, rhs: Self) -> Self {
        F(self.0.min(rhs.0))
    }

    fn le(self, rhs: Self) -> bool {
        self.0 <= rhs.0
    }

    fn rank(self) -> u64 {
        let bits = self.0.to_bits();
        let key = if bits & 0x8000_0000 != 0 { !bits } else { bits | 0x8000_0000 };
        key as u64
    }
}

fn wrap(values: &[f32]) -> Vec<F> {
    values.iter().map(|v| F(*v)).collect()
}

fn tensor(values: &[f32], shape: &[usize]) -> Tensor<F> {
    Tensor::<F>::new(wrap(values), &shape.to_vec()).unwrap()
}

fn values(t: &Tensor<F>) -> Vec<f32> {
    t.data().iter().map(|v| v.0).collect()
}

fn near(a: f32, b: f32, tol: f32) -> bool {
    (a - b).abs() <= tol
}

#[test]
fn test_silu() {
    let mut y = Tensor::<F>::new(vec![F(2.), F(3.), F(4.)], &vec![1, 3]).unwrap();
    let x = Tensor::<F>::new(vec![F(1.), F(2.), F(3.)], &vec![1, 3]).unwrap();
    silu(&mut y, &x);
    assert!(y.close_to(
        &Tensor::<F>::new(vec![F(1.4621172), F(5.2847824), F(11.43089)], &vec![1, 3]).unwrap(),
        F(1e-3)
    ));
}

#[test]
fn test_rms_norm() {
    let mut y = Tensor::<F>::new(vec![F(1.), F(2.), F(3.), F(4.)], &vec![2, 2]).unwrap();
    let x = Tensor::<F>::new(vec![F(1.), F(2.), F(3.), F(4.)], &vec![2, 2]).unwrap();
    let w = Tensor::<F>::new(vec![F(1.), F(2.)], &vec![2]).unwrap();
    rms_norm(&mut y, &x, &w, F(1e-6));
    assert!(y.close_to(
        &Tensor::<F>::new(
            vec![F(0.6324554), F(2.5298216), F(0.8485281), F(2.2627416)],
            &vec![2, 2]
        )
        .unwrap(),
        F(1e-3)
    ));
}

#[test]
fn test_matmul_transb() {
    let mut c = Tensor::<F>::new(vec![F(1.), F(2.), F(3.), F(4.)], &vec![2, 2]).unwrap();
    let a =
        Tensor::<F>::new(vec![F(1.), F(2.), F(3.), F(4.), F(5.), F(6.)], &vec![2, 3]).unwrap();
    let b =
        Tensor::<F>::new(vec![F(1.), F(2.), F(3.), F(4.), F(5.), F(6.)], &vec![2, 3]).unwrap();
    matmul_transb(&mut c, F(1.), &a, &b, F(1.));
    assert!(c.close_to(
        &Tensor::<F>::new(vec![F(15.), F(34.), F(35.), F(81.)], &vec![2, 2]).unwrap(),
        F(1e-3)
    ));
}

#[test]
fn tensor_new_checks_the_element_count() {
    let ok = Tensor::<F>::new(wrap(&[1., 2., 3., 4., 5., 6.]), &vec![2, 3]);
    let t = ok.unwrap();
    assert_eq!(t.shape(), &vec![2, 3]);
    assert_eq!(t.size(), 6);
    assert_eq!(values(&t), vec![1., 2., 3., 4., 5., 6.]);

    let short = Tensor::<F>::new(wrap(&[1., 2., 3.]), &vec![2, 3]);
    assert!(matches!(short, Err(TensorError::ShapeMismatch)));
    let long = Tensor::<F>::new(wrap(&[1., 2., 3.]), &vec![2]);
    assert!(matches!(long, Err(TensorError::ShapeMismatch)));
}

#[test]
fn tensor_new_edge_shapes() {
    // no dimension at all: one element
    let scalar = Tensor::<F>::new(wrap(&[7.]), &vec![]).unwrap();
    assert_eq!(scalar.size(), 1);
    // an empty dimension: no element, whatever the others say
    let empty = Tensor::<F>::new(vec![], &vec![usize::MAX, usize::MAX, 0]).unwrap();
    assert_eq!(empty.size(), 0);
    // a product beyond the machine's range matches no buffer
    let huge = Tensor::<F>::new(vec![], &vec![usize::MAX, 2]);
    assert!(matches!(huge, Err(TensorError::ShapeMismatch)));
}

#[test]
fn shape_product_values() {
    assert_eq!(checked_shape_product(&vec![]), Some(1));
    assert_eq!(checked_shape_product(&vec![2, 3, 4]), Some(24));
    assert_eq!(checked_shape_product(&vec![5, 0, 7]), Some(0));
    assert_eq!(checked_shape_product(&vec![usize::MAX, usize::MAX, 0]), Some(0));
    assert_eq!(checked_shape_product(&vec![usize::MAX, 2]), None);
    assert_eq!(checked_shape_product(&vec![usize::MAX, 1, 1]), Some(usize::MAX));
}

#[test]
fn tensor_set_read_write() {
    let mut t = tensor(&[1., 2., 3., 4., 5., 6.], &[3, 2]);
    t.set(4, F(50.));
    assert_eq!(values(&t), vec![1., 2., 3., 4., 50., 6.]);
    assert_eq!(t.shape(), &vec![3, 2]);
    let part: Vec<f32> = t.read_at(1, 3).iter().map(|v| v.0).collect();
    assert_eq!(part, vec![2., 3., 4.]);
    t.write_at(2, &wrap(&[30., 40.]));
    assert_eq!(values(&t), vec![1., 2., 30., 40., 50., 6.]);
    t.write_at(6, &vec![]);
    assert_eq!(values(&t), vec![1., 2., 30., 40., 50., 6.]);
}

#[test]
fn data_mut_writes_through() {
    let mut t = tensor(&[1., 2., 3., 4.], &[2, 2]);
    {
        let d = t.data_mut();
        assert_eq!(d.len(), 4);
        d[1] = F(20.);
        d[3] = F(40.);
    }
    assert_eq!(values(&t), vec![1., 20., 3., 40.]);
    assert_eq!(t.shape(), &vec![2, 2]);
}

#[test]
fn tensors_of_known_shape() {
    let t = Tensor::<F>::from_parts(wrap(&[1., 2., 3., 4., 5., 6.]), &vec![3, 2]);
    assert_eq!(t.shape(), &vec![3, 2]);
    assert_eq!(values(&t), vec![1., 2., 3., 4., 5., 6.]);
    assert!(t.has_shape(&vec![3, 2]));
    assert!(!t.has_shape(&vec![2, 3]));
    assert!(!t.has_shape(&vec![6]));
    assert!(!t.has_shape(&vec![3, 2, 1]));

    let z = Tensor::<F>::zeros(&vec![2, 0, 3]);
    assert_eq!(z.size(), 0);
    let z = Tensor::<F>::zeros(&vec![2, 3]);
    assert_eq!(z.shape(), &vec![2, 3]);
    assert_eq!(values(&z), vec![0.; 6]);
    let z = Tensor::<F>::zeros(&vec![]);
    assert_eq!(values(&z), vec![0.]);
}

#[test]
fn reshape_keeps_the_elements() {
    let mut t = tensor(&[1., 2., 3., 4., 5., 6.], &[3, 2]);
    t.reshape(&vec![1, 2, 3]);
    assert_eq!(t.shape(), &vec![1, 2, 3]);
    assert_eq!(values(&t), vec![1., 2., 3., 4., 5., 6.]);
    t.reshape(&vec![6]);
    assert_eq!(t.shape(), &vec![6]);
    assert_eq!(t.size(), 6);
}

#[test]
fn transpose_turns_rows_into_columns() {
    let t = tensor(&[1., 2., 3., 4., 5., 6.], &[2, 3]).transpose();
    assert_eq!(t.shape(), &vec![3, 2]);
    assert_eq!(values(&t), vec![1., 4., 2., 5., 3., 6.]);
    let back = t.transpose();
    assert_eq!(back.shape(), &vec![2, 3]);
    assert_eq!(values(&back), vec![1., 2., 3., 4., 5., 6.]);
    let row = tensor(&[1., 2., 3.], &[1, 3]).transpose();
    assert_eq!(row.shape(), &vec![3, 1]);
    assert_eq!(values(&row), vec![1., 2., 3.]);
    let none = tensor(&[], &[0, 4]).transpose();
    assert_eq!(none.shape(), &vec![4, 0]);
}

#[test]
fn swap_leading_axes_exchanges_blocks_and_rows() {
    // [2, 3, 2]: block i, row j holds (10 i + j, 10 i + j + 0.5)
    let mut input = Vec::new();
    for i in 0..2 {
        for j in 0..3 {
            input.push((10 * i + j) as f32);
            input.push((10 * i + j) as f32 + 0.5);
        }
    }
    let t = tensor(&input, &[2, 3, 2]).swap_leading_axes();
    assert_eq!(t.shape(), &vec![3, 2, 2]);
    assert_eq!(
        values(&t),
        vec![0., 0.5, 10., 10.5, 1., 1.5, 11., 11.5, 2., 2.5, 12., 12.5]
    );
    let back = t.swap_leading_axes();
    assert_eq!(back.shape(), &vec![2, 3, 2]);
    assert_eq!(values(&back), input);
    let empty = tensor(&[], &[2, 3, 0]).swap_leading_axes();
    assert_eq!(empty.shape(), &vec![3, 2, 0]);
    let empty = tensor(&[], &[0, 3, 2]).swap_leading_axes();
    assert_eq!(empty.shape(), &vec![3, 0, 2]);
}

#[test]
fn push_run_appends_a_run() {
    let source = wrap(&[1., 2., 3., 4., 5.]);
    let mut out = wrap(&[9.]);
    push_run(&mut out, &source, 1, 3);
    push_run(&mut out, &source, 5, 0);
    push_run(&mut out, &source, 0, 1);
    let got: Vec<f32> = out.iter().map(|v| v.0).collect();
    assert_eq!(got, vec![9., 2., 3., 4., 1.]);
}

#[test]
fn close_to_compares_shape_and_values() {
    let a = tensor(&[1., 2., 3., 4.], &[2, 2]);
    assert!(a.close_to(&tensor(&[1.0005, 2., 2.9995, 4.], &[2, 2]), F(1e-3)));
    assert!(!a.close_to(&tensor(&[1.002, 2., 3., 4.], &[2, 2]), F(1e-3)));
    assert!(!a.close_to(&tensor(&[1., 2., 3., 4.002], &[2, 2]), F(1e-3)));
    // same elements, other shape
    assert!(!a.close_to(&tensor(&[1., 2., 3., 4.], &[4]), F(1e-3)));
    assert!(!a.close_to(&tensor(&[1., 2., 3., 4.], &[1, 4]), F(1e-3)));
    // not a number is close to nothing
    assert!(!a.close_to(&tensor(&[1., f32::NAN, 3., 4.], &[2, 2]), F(1e-3)));
}

#[test]
fn gather_copies_rows_exactly() {
    let table = tensor(&[0.1, 0.2, 0.3, 1.1, 1.2, 1.3, 2.1, 2.2, 2.3, -0.0, f32::MIN_POSITIVE, 3.3], &[4, 3]);
    let indices = Tensor::<u32>::new(vec![3, 0, 0, 2, 1], &vec![5]).unwrap();
    let mut y = tensor(&[9.; 15], &[5, 3]);
    gather(&mut y, &indices, &table);
    let got: Vec<u32> = y.data().iter().map(|v| v.0.to_bits()).collect();
    let rows: [usize; 5] = [3, 0, 0, 2, 1];
    let mut want: Vec<u32> = Vec::new();
    for r in rows {
        for j in 0..3 {
            want.push(table.data()[r * 3 + j].0.to_bits());
        }
    }
    assert_eq!(got, want);
    assert_eq!(y.shape(), &vec![5, 3]);
}

#[test]
fn gather_of_nothing_changes_nothing() {
    let table = tensor(&[1., 2., 3., 4.], &[2, 2]);
    let indices = Tensor::<u32>::new(vec![], &vec![0]).unwrap();
    let mut y = tensor(&[], &[0, 2]);
    gather(&mut y, &indices, &table);
    assert_eq!(y.size(), 0);
}

#[test]
fn gather_works_on_other_element_types() {
    let table = Tensor::<u32>::new(vec![10, 11, 20, 21, 30, 31], &vec![3, 2]).unwrap();
    let indices = Tensor::<u32>::new(vec![2, 2, 0], &vec![3]).unwrap();
    let mut y = Tensor::<u32>::new(vec![0; 6], &vec![3, 2]).unwrap();
    gather(&mut y, &indices, &table);
    assert_eq!(y.data(), &vec![30, 31, 30, 31, 10, 11]);
}

#[test]
fn rope_at_position_zero_is_the_identity() {
    let input = [1., 2., 3., 4., 5., 6., 7., 8.];
    let mut y = tensor(&input, &[1, 2, 4]);
    rope(&mut y, 0, F(10000.));
    assert_eq!(values(&y), input.to_vec());
}

#[test]
fn rope_turns_pairs_by_the_position_angle() {
    // one token at position 1, one head, d = 4, theta = 100:
    // pair 0 turns by 1 / 100^0 = 1, pair 1 by 1 / 100^(2/4) = 0.1
    let mut y = tensor(&[1., 2., 3., 4.], &[1, 1, 4]);
    rope(&mut y, 1, F(100.));
    let (s0, c0) = 1.0f32.sin_cos();
    let (s1, c1) = 0.1f32.sin_cos();
    let want = [1. * c0 - 3. * s0, 2. * c1 - 4. * s1, 3. * c0 + 1. * s0, 4. * c1 + 2. * s1];
    let got = values(&y);
    for k in 0..4 {
        assert!(near(got[k], want[k], 1e-5), "element {}: {} vs {}", k, got[k], want[k]);
    }
}

#[test]
fn rope_uses_the_absolute_position_of_each_token() {
    // two tokens from position 5 on equal one token at 5 and one at 6
    let mut both = tensor(&[1., 2., 3., 4., 5., 6., 7., 8.], &[2, 1, 4]);
    rope(&mut both, 5, F(10000.));
    let mut first = tensor(&[1., 2., 3., 4.], &[1, 1, 4]);
    rope(&mut first, 5, F(10000.));
    let mut second = tensor(&[5., 6., 7., 8.], &[1, 1, 4]);
    rope(&mut second, 6, F(10000.));
    let mut want = values(&first);
    want.extend(values(&second));
    assert_eq!(values(&both), want);
}

#[test]
fn rope_preserves_the_norm_of_every_pair() {
    let input: Vec<f32> = (0..48).map(|k| (k as f32) * 0.37 - 7.0).collect();
    let mut y = tensor(&input, &[3, 2, 8]);
    rope(&mut y, 11, F(10000.));
    let got = values(&y);
    for row in 0..6 {
        for i in 0..4 {
            let a = input[row * 8 + i];
            let b = input[row * 8 + i + 4];
            let a2 = got[row * 8 + i];
            let b2 = got[row * 8 + i + 4];
            assert!(near(a2 * a2 + b2 * b2, a * a + b * b, 1e-3));
        }
    }
    assert_eq!(y.shape(), &vec![3, 2, 8]);
}

#[test]
fn masked_softmax_rows_sum_to_one_and_mask_the_future() {
    // two batches of three queries over five columns: two columns come
    // from earlier positions
    let input: Vec<f32> = (0..30).map(|k| ((k * 7) % 11) as f32 * 0.5 - 2.0).collect();
    let mut y = tensor(&input, &[2, 3, 5]);
    masked_softmax(&mut y);
    let got = values(&y);
    for row in 0..6 {
        let boundary = 5 - 3 + row % 3 + 1;
        let sum: f32 = got[row * 5..row * 5 + boundary].iter().sum();
        assert!(near(sum, 1.0, 1e-3));
        for j in 0..boundary {
            assert!(got[row * 5 + j] > 0.0);
        }
        for j in boundary..5 {
            assert_eq!(got[row * 5 + j].to_bits(), 0.0f32.to_bits());
        }
    }
}

#[test]
fn masked_softmax_values() {
    let mut y = tensor(&[1., 2., 3., 1., 2., 3., 1., 2., 3.], &[3, 3]);
    masked_softmax(&mut y);
    let e1 = (-1.0f32).exp();
    let e2 = (-2.0f32).exp();
    let want = [
        1.,
        0.,
        0.,
        e1 / (e1 + 1.),
        1. / (e1 + 1.),
        0.,
        e2 / (e2 + e1 + 1.),
        e1 / (e2 + e1 + 1.),
        1. / (e2 + e1 + 1.),
    ];
    let got = values(&y);
    for k in 0..9 {
        assert!(near(got[k], want[k], 1e-6), "element {}: {} vs {}", k, got[k], want[k]);
    }
}

#[test]
fn masked_softmax_is_stable_for_large_scores() {
    let mut y = tensor(&[1000., 1000.], &[1, 2]);
    masked_softmax(&mut y);
    assert_eq!(values(&y), vec![0.5, 0.5]);
}

#[test]
fn masked_softmax_of_an_empty_tensor() {
    let mut y = tensor(&[], &[0, 4]);
    masked_softmax(&mut y);
    assert_eq!(y.size(), 0);
    let mut z = tensor(&[], &[3, 0, 0]);
    masked_softmax(&mut z);
    assert_eq!(z.size(), 0);
}

#[test]
fn rms_norm_reads_rows_by_the_shape_of_the_output() {
    // x has another shape of the same size
    let mut y = tensor(&[0.; 4], &[2, 2]);
    let x = tensor(&[3., 4., 0., 0.], &[4, 1]);
    let w = tensor(&[1., 1.], &[2]);
    rms_norm(&mut y, &x, &w, F(0.));
    let scale = (12.5f32).sqrt();
    let got = values(&y);
    assert!(near(got[0], 3. / scale, 1e-6));
    assert!(near(got[1], 4. / scale, 1e-6));
    // a row of zeros with no epsilon divides zero by zero
    assert!(got[2].is_nan() && got[3].is_nan());
}

#[test]
fn sigmoid_values() {
    assert_eq!(sigmoid(F(0.)).0, 0.5);
    assert!(near(sigmoid(F(1.)).0, 0.7310586, 1e-6));
    assert!(near(sigmoid(F(-1.)).0, 0.26894143, 1e-6));
    assert_eq!(sigmoid(F(100.)).0, 1.0);
    assert_eq!(sigmoid(F(-100.)).0, 0.0);
}

#[test]
fn dot_values() {
    let x = tensor(&[1., 2., 3., 4.], &[4]);
    let y = tensor(&[5., 6., 7., 8.], &[2, 2]);
    assert_eq!(dot(&x, &y).0, 70.);
    let e = tensor(&[], &[0]);
    assert_eq!(dot(&e, &e).0, 0.);
}

#[test]
fn reductions() {
    let a = wrap(&[1., 5., 2., 4., 3.]);
    let b = wrap(&[10., 20., 30.]);
    assert_eq!(sum_of(&a).0, 15.);
    assert_eq!(sum_of::<F>(&vec![]).0, 0.);
    assert_eq!(dot_of(&a, 1, &b, 0, 3).0, 5. * 10. + 2. * 20. + 4. * 30.);
    assert_eq!(dot_of(&a, 5, &b, 3, 0).0, 0.);
    assert_eq!(max_of(&a, 0, 5).0, 5.);
    assert_eq!(max_of(&a, 2, 3).0, 4.);
    assert_eq!(max_of(&a, 4, 1).0, 3.);
}

#[test]
fn matmul_transb_scales_and_accumulates() {
    // C = 0.5 C + 2 A B^T
    let mut c = tensor(&[2., 4., 6., 8.], &[2, 2]);
    let a = tensor(&[1., 0., 0., 1.], &[2, 2]);
    let b = tensor(&[1., 2., 3., 4.], &[2, 2]);
    matmul_transb(&mut c, F(0.5), &a, &b, F(2.));
    assert_eq!(values(&c), vec![1. + 2., 2. + 6., 3. + 4., 4. + 8.]);
}

#[test]
fn matmul_transb_treats_leading_dimensions_as_batches() {
    // two batches of [1, 2] x [3, 2]^T
    let a = tensor(&[1., 2., 3., 4.], &[2, 1, 2]);
    let b = tensor(&[1., 0., 0., 1., 1., 1., 2., 0., 0., 2., 2., 2.], &[2, 3, 2]);
    let mut c = tensor(&[0.; 6], &[2, 1, 3]);
    matmul_transb(&mut c, F(0.), &a, &b, F(1.));
    assert_eq!(values(&c), vec![1., 2., 3., 6., 8., 14.]);
}

#[test]
fn matmul_transb_without_a_shared_dimension() {
    // k = 0: every inner product is the empty sum
    let a = tensor(&[], &[2, 0]);
    let b = tensor(&[], &[3, 0]);
    let mut c = tensor(&[1., 2., 3., 4., 5., 6.], &[2, 3]);
    matmul_transb(&mut c, F(2.), &a, &b, F(1.));
    assert_eq!(values(&c), vec![2., 4., 6., 8., 10., 12.]);
}

#[test]
fn ranks_follow_the_values() {
    let v = wrap(&[-1.5, 0., 2.5, -0., f32::NEG_INFINITY, f32::INFINITY, 2.5]);
    let r = ranks_of(&v);
    assert_eq!(r.len(), 7);
    assert!(r[4] < r[0] && r[0] < r[3] && r[3] < r[1] && r[1] < r[2] && r[2] < r[5]);
    assert_eq!(r[2], r[6]);
}

#[test]
fn argmax_takes_the_first_of_equal_maxima() {
    assert_eq!(argmax(&vec![3, 9, 2, 9, 1]), 1);
    assert_eq!(argmax(&vec![7]), 0);
    assert_eq!(argmax(&vec![0, 0, 0]), 0);
    assert_eq!(argmax(&vec![1, 2, 3]), 2);
}

#[test]
fn sampling_order_is_descending_with_ties_by_index() {
    assert_eq!(sampling_order(&vec![1, 3, 2, 3]), vec![1, 3, 2, 0]);
    assert_eq!(sampling_order(&vec![5, 5, 5]), vec![0, 1, 2]);
    assert_eq!(sampling_order(&vec![0, u64::MAX, 7]), vec![1, 2, 0]);
    assert_eq!(sampling_order(&vec![]), Vec::<u32>::new());
    // the first candidate is the greedy choice
    let ranks = vec![4, 8, 8, 1, 8];
    assert_eq!(sampling_order(&ranks)[0] as usize, argmax(&ranks));
}

#[test]
fn cumulative_weights_values() {
    let v = wrap(&[1., 3., 2.]);
    let cum = cumulative_weights(&v, &vec![1, 2, 0], F(1.));
    let e1 = (-1.0f32).exp();
    let e2 = (-2.0f32).exp();
    assert_eq!(cum[0].0, 1.);
    assert!(near(cum[1].0, 1. + e1, 1e-6));
    assert!(near(cum[2].0, 1. + e1 + e2, 1e-6));
    // a temperature of two halves the distances
    let warm = cumulative_weights(&v, &vec![1, 2, 0], F(2.));
    assert!(near(warm[1].0, 1. + (-0.5f32).exp(), 1e-6));
    assert!(near(warm[2].0, 1. + (-0.5f32).exp() + e1, 1e-6));
    assert!(cumulative_weights(&v, &vec![], F(1.)).is_empty());
}

#[test]
fn threshold_takes_the_smaller_mass() {
    let cum = wrap(&[1., 1.5, 1.75, 2.]);
    // top_k caps: cum[1] = 1.5 against 0.9 * 2
    assert_eq!(threshold(&cum, F(0.9), 2, F(0.5)).0, 0.75);
    // top_p caps: 0.5 * 2 against cum[2]
    assert_eq!(threshold(&cum, F(0.5), 3, F(0.5)).0, 0.5);
    // top_k beyond the candidates: the whole mass
    assert_eq!(threshold(&cum, F(1.), 100, F(0.25)).0, 0.5);
    assert_eq!(threshold(&cum, F(1.), 4, F(0.)).0, 0.);
}

#[test]
fn select_finds_the_first_total_that_reaches_the_limit() {
    let cum = wrap(&[1., 1.5, 1.75, 2.]);
    assert_eq!(select(&cum, F(0.)), 0);
    assert_eq!(select(&cum, F(1.)), 0);
    assert_eq!(select(&cum, F(1.2)), 1);
    assert_eq!(select(&cum, F(1.5)), 1);
    assert_eq!(select(&cum, F(1.9)), 3);
    // nothing reaches the limit: the last position
    assert_eq!(select(&cum, F(5.)), 3);
    assert_eq!(select(&cum, F(f32::NAN)), 3);
}

#[test]
fn nonpositive_values() {
    assert!(nonpositive(F(0.)));
    assert!(nonpositive(F(-0.)));
    assert!(nonpositive(F(-3.)));
    assert!(!nonpositive(F(1e-30)));
    assert!(!nonpositive(F(f32::NAN)));
}

#[test]
fn sample_with_bits_follows_the_draw() {
    // order: index 2, 1, 0 with running totals 1, 1 + e^-1, 1 + e^-1 + e^-2
    let x = tensor(&[1., 2., 3.], &[3]);
    assert_eq!(sample_with_bits(&x, F(1.), 3, F(1.), 0), 2);
    assert_eq!(sample_with_bits(&x, F(1.), 3, F(1.), 0x8000_0000), 2);
    // 0.75 of 1.5032 lies between the first and the second total
    assert_eq!(sample_with_bits(&x, F(1.), 3, F(1.), 0xC000_0000), 1);
    assert_eq!(sample_with_bits(&x, F(1.), 3, F(1.), u32::MAX), 0);
    // top_k = 2 never reaches the third candidate
    assert_eq!(sample_with_bits(&x, F(1.), 2, F(1.), u32::MAX), 1);
    // top_p = 0.5 leaves less than the weight of the first
    assert_eq!(sample_with_bits(&x, F(0.5), 3, F(1.), u32::MAX), 2);
}

#[test]
fn sample_with_bits_is_greedy_on_degenerate_settings() {
    let x = tensor(&[0.5, 4., 4., -1.], &[4]);
    for bits in [0u32, 1, 0x7fff_ffff, u32::MAX] {
        assert_eq!(sample_with_bits(&x, F(0.9), 4, F(0.), bits), 1);
        assert_eq!(sample_with_bits(&x, F(0.9), 4, F(-1.), bits), 1);
        assert_eq!(sample_with_bits(&x, F(0.9), 1, F(1.), bits), 1);
        assert_eq!(sample_with_bits(&x, F(0.9), 0, F(1.), bits), 1);
        assert_eq!(sample_with_bits(&x, F(0.), 4, F(1.), bits), 1);
        assert_eq!(sample_with_bits(&x, F(-0.5), 4, F(1.), bits), 1);
    }
}

#[test]
fn random_sample_degenerate_path_is_the_argmax_every_time() {
    let x = tensor(&[0.1, 0.7, 0.3, 0.7, 0.2], &[5]);
    for _ in 0..50 {
        assert_eq!(random_sample(&x, F(0.9), 4, F(0.)), 1);
        assert_eq!(random_sample(&x, F(0.9), 1, F(1.)), 1);
        assert_eq!(random_sample(&x, F(0.), 4, F(1.)), 1);
    }
}

#[test]
fn random_sample_stays_in_range_and_prefers_likely_tokens() {
    let x = tensor(&[0., 10., 0., 9., 0., 0., 0., 0.], &[8]);
    let mut counts = [0usize; 8];
    for _ in 0..2000 {
        let tok = random_sample(&x, F(0.9), 4, F(1.)) as usize;
        assert!(tok < 8);
        counts[tok] += 1;
    }
    // the two likely tokens carry nearly all of the mass
    assert!(counts[1] + counts[3] >= 1990);
    assert!(counts[1] > counts[3]);
    assert!(counts[3] > 0);
}

#[test]
fn random_sample_with_narrow_settings_concentrates_on_the_top() {
    let x = tensor(&[1., 2., 5., 3.], &[1, 4]);
    for _ in 0..200 {
        // top_k = 2 admits the two best only
        let tok = random_sample(&x, F(1.), 2, F(1.));
        assert!(tok == 2 || tok == 3);
        // a tiny top_p admits the best only
        assert_eq!(random_sample(&x, F(1e-6), 4, F(1.)), 2);
        // a low temperature makes the best overwhelming
        assert_eq!(random_sample(&x, F(1.), 4, F(0.01)), 2);
    }
}

#[test]
fn kernels_repeat_themselves() {
    let input: Vec<f32> = (0..24).map(|k| ((k * 5) % 13) as f32 * 0.31 - 1.7).collect();
    let run = || {
        let mut y = tensor(&input, &[2, 3, 4]);
        rope(&mut y, 3, F(10000.));
        masked_softmax(&mut y);
        let x = tensor(&input, &[6, 4]);
        let w = tensor(&[0.5, 1.0, 1.5, 2.0], &[4]);
        let mut n = tensor(&[0.; 24], &[6, 4]);
        rms_norm(&mut n, &x, &w, F(1e-5));
        silu(&mut n, &x);
        let mut c = tensor(&[1.; 36], &[6, 6]);
        matmul_transb(&mut c, F(0.5), &n, &x, F(2.));
        let mut bits: Vec<u32> = y.data().iter().map(|v| v.0.to_bits()).collect();
        bits.extend(c.data().iter().map(|v| v.0.to_bits()));
        bits.push(dot(&n, &x).0.to_bits());
        bits
    };
    let first = run();
    assert_eq!(run(), first);
    assert_eq!(run(), first);
}

#[test]
fn the_same_bits_give_the_same_sample() {
    let x = tensor(&[0.3, 1.1, 0.9, 1.0, -2.0, 1.05], &[6]);
    for bits in [0u32, 0x1234_5678, 0x8000_0000, 0xdead_beef, u32::MAX] {
        let tok = sample_with_bits(&x, F(0.95), 5, F(0.8), bits);
        for _ in 0..5 {
            assert_eq!(sample_with_bits(&x, F(0.95), 5, F(0.8), bits), tok);
        }
    }
}
