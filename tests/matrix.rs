use lwe_pir::element::Element;
use lwe_pir::matrix::Matrix;

fn el(v: u64) -> Element {
    Element::from(7, v)
}

#[test]
fn matrix_shape_and_entries() {
    let m = Matrix::from(&vec![vec![el(1), el(2), el(3)], vec![el(4), el(5), el(6)]]);
    assert_eq!(m.num_rows(), 2);
    assert_eq!(m.num_cols(), 3);
    assert_eq!(m.get(1, 2), el(6));
    let s = Matrix::from_single(&el(4));
    assert_eq!(s.num_rows(), 1);
    assert_eq!(s.num_cols(), 1);
    assert_eq!(s.get(0, 0), el(4));
    let z = Matrix::zeros(7, 2, 2);
    assert_eq!(z, Matrix::from(&vec![vec![el(0), el(0)], vec![el(0), el(0)]]));
    assert_eq!(Matrix::from(&vec![]).num_cols(), 0);
}

#[test]
fn matrix_add_sub_scale() {
    let a = Matrix::from(&vec![vec![el(1), el(6)], vec![el(3), el(0)]]);
    let b = Matrix::from(&vec![vec![el(2), el(2)], vec![el(5), el(1)]]);
    assert_eq!(a.add(&b, 7), Matrix::from(&vec![vec![el(3), el(1)], vec![el(1), el(1)]]));
    assert_eq!(a.sub(&b, 7), Matrix::from(&vec![vec![el(6), el(4)], vec![el(5), el(6)]]));
    assert_eq!(a.scale(el(3)), Matrix::from(&vec![vec![el(3), el(4)], vec![el(2), el(0)]]));
    let mut c = a.duplicate();
    c.add_assign(&b, 7);
    assert_eq!(c, a.add(&b, 7));
}

#[test]
fn matrix_vector_product() {
    let a = Matrix::from(&vec![vec![el(1), el(2), el(3)], vec![el(4), el(5), el(6)]]);
    let v = vec![el(1), el(1), el(2)];
    // rows give 9 and 21, reduced modulo 7
    assert_eq!(a.mul_vec(&v, 7), vec![el(2), el(0)]);
}
