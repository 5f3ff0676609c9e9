use ray_tracer::error::Error;
use ray_tracer::matrix::Matrix;

fn cells(m: &Matrix<f64>) -> Vec<Vec<f64>> {
    let n = m.order();
    (0..n)
        .map(|r| (0..n).map(|c| m.get(r, c).unwrap()).collect())
        .collect()
}

#[test]
fn construct_4x4_matrix() {
    let m = Matrix::create(
        [1., 2., 3., 4.],
        [5.5, 6.5, 7.5, 8.5],
        [9., 10., 11., 12.],
        [13.5, 14.5, 15.5, 16.5],
    );

    assert_eq!(1., m.get(0, 0).unwrap());
    assert_eq!(4., m.get(0, 3).unwrap());
    assert_eq!(5.5, m.get(1, 0).unwrap());
    assert_eq!(7.5, m.get(1, 2).unwrap());
    assert_eq!(11., m.get(2, 2).unwrap());
    assert_eq!(13.5, m.get(3, 0).unwrap());
    assert_eq!(15.5, m.get(3, 2).unwrap());
}

#[test]
fn construct_2x2_matrix() {
    let m = Matrix::create2([-3., 5.], [1., -2.]);

    assert_eq!(-3., m.get(0, 0).unwrap());
    assert_eq!(5., m.get(0, 1).unwrap());
    assert_eq!(1., m.get(1, 0).unwrap());
    assert_eq!(-2., m.get(1, 1).unwrap());
}

#[test]
fn construct_3x3_matrix() {
    let m = Matrix::create3([-3., 5., 0.], [1., -2., -7.], [0., 1., 1.]);

    assert_eq!(-3., m.get(0, 0).unwrap());
    assert_eq!(-2., m.get(1, 1).unwrap());
    assert_eq!(1., m.get(2, 2).unwrap());
}

#[test]
fn transpose_a_matrix() {
    let m = Matrix::create(
        [0., 9., 3., 0.],
        [9., 8., 0., 8.],
        [1., 8., 5., 3.],
        [0., 0., 5., 8.],
    );

    let expect = Matrix::create(
        [0., 9., 1., 0.],
        [9., 8., 8., 0.],
        [3., 0., 5., 5.],
        [0., 8., 3., 8.],
    );

    assert_eq!(cells(&expect), cells(&m.transpose()));
}

#[test]
fn transpose_identity_matrix() {
    let identity = Matrix::create(
        [1., 0., 0., 0.],
        [0., 1., 0., 0.],
        [0., 0., 1., 0.],
        [0., 0., 0., 1.],
    );
    assert_eq!(cells(&identity), cells(&identity.transpose()));
}

#[test]
fn transpose_twice_gives_the_matrix_back() {
    let m = Matrix::create3([1., 2., 3.], [4., 5., 6.], [7., 8., 9.]);
    let t = m.transpose();
    assert_eq!(vec![vec![1., 4., 7.], vec![2., 5., 8.], vec![3., 6., 9.]], cells(&t));
    assert_eq!(cells(&m), cells(&t.transpose()));
}

#[test]
fn transpose_keeps_the_order() {
    let m = Matrix::create2([1., 2.], [3., 4.]);
    let t = m.transpose();
    assert_eq!(2, t.order());
    assert_eq!(vec![vec![1., 3.], vec![2., 4.]], cells(&t));
}

#[test]
fn access_past_the_order_is_an_index_error() {
    let mut m = Matrix::create2([1., 2.], [3., 4.]);
    assert_eq!(Err(Error::IndexError), m.get(2, 0));
    assert_eq!(Err(Error::IndexError), m.get(0, 2));
    assert_eq!(Err(Error::IndexError), m.set(1, 2, 9.));
    assert_eq!(Err(Error::IndexError), m.get(4, 4));
    assert_eq!(vec![vec![1., 2.], vec![3., 4.]], cells(&m));
}

#[test]
fn set_replaces_one_cell() {
    let mut m = Matrix::create3([1., 2., 3.], [4., 5., 6.], [7., 8., 9.]);
    assert_eq!(Ok(()), m.set(2, 0, -1.));
    assert_eq!(vec![vec![1., 2., 3.], vec![4., 5., 6.], vec![-1., 8., 9.]], cells(&m));
}

#[test]
fn empty_of_unknown_order_is_a_configuration_error() {
    assert_eq!(Some(Error::ConfigurationError), Matrix::<f64>::empty(1).err());
    assert_eq!(Some(Error::ConfigurationError), Matrix::<f64>::empty(5).err());
    let m = Matrix::<f64>::empty(3).unwrap();
    assert_eq!(3, m.order());
    assert_eq!(vec![vec![0.; 3]; 3], cells(&m));
}
