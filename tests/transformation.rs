use yatyat::transformation::{Transformation, TransformationError};

#[test]
fn id() {
    let id0 = Transformation::id(0);
    let id10 = Transformation::id(10);
    let f = Transformation::from_vec(2, vec![1, 1]).unwrap();
    assert!(id0.is_id());
    assert!(id10.is_id());
    assert!(!f.is_id());
}

#[test]
fn mod_id() {
    let id0 = Transformation::id(0);
    let id10 = Transformation::id(10);
    assert!(id0.is_id());
    assert!(id10.is_id())
}

#[test]
fn invalid_image() {
    // Invalid for value out of range
    let f = Transformation::from_vec(3, vec![0, 0, 4]);
    // Invalid for too many values
    let g = Transformation::from_vec(4, vec![1, 2, 3]);
    assert!(f.is_err());
    assert!(g.is_err());
}

#[test]
fn multiply_inverse() {
    let f = Transformation::from_vec(4, vec![3, 2, 1, 0]).unwrap();
    let f2 = f.multiply(&f).unwrap();
    println!("{:?}", f2);
    assert!(f2.is_id())
}

#[test]
fn multiply() {
    let f = Transformation::from_vec(4, vec![2, 2, 3, 1]).unwrap();
    let g = Transformation::from_vec(4, vec![2, 1, 1, 3]).unwrap();
    let fg = Transformation::from_vec(4, vec![1, 1, 3, 1]).unwrap();
    assert_eq!(fg, f.multiply(&g).unwrap());
}

#[test]
fn identity_has_every_point_fixed() {
    let id = Transformation::id(5);
    assert_eq!(id.as_vec(), &[0, 1, 2, 3, 4]);
    assert_eq!(id.degree(), 5);
}

#[test]
fn apply_gives_image_or_invalid_point() {
    let f = Transformation::from_vec(3, vec![0, 2, 2]).unwrap();
    assert_eq!(2, f.apply(1).unwrap());
    match f.apply(5) {
        Err(TransformationError::InvalidPoint { degree, point }) => {
            assert_eq!(degree, 3);
            assert_eq!(point, 5);
        }
        _ => panic!("expected InvalidPoint"),
    }
}

#[test]
fn invalid_image_reports_degree_and_image() {
    match Transformation::from_vec(3, vec![0, 0, 4]) {
        Err(TransformationError::InvalidImage { degree, image }) => {
            assert_eq!(degree, 3);
            assert_eq!(image, vec![0, 0, 4]);
        }
        _ => panic!("expected InvalidImage"),
    }
}

#[test]
fn multiply_mismatching_degree() {
    let f = Transformation::from_vec(3, vec![0, 2, 2]).unwrap();
    let g = Transformation::from_vec(2, vec![1, 0]).unwrap();
    match f.multiply(&g) {
        Err(TransformationError::MismatchingDegree { degree1, degree2 }) => {
            assert_eq!(degree1, 3);
            assert_eq!(degree2, 2);
        }
        _ => panic!("expected MismatchingDegree"),
    }
}

#[test]
fn multiply_applies_left_factor_first() {
    let f = Transformation::from_vec(3, vec![0, 2, 2]).unwrap();
    let g = Transformation::from_vec(3, vec![2, 1, 0]).unwrap();
    let fg = f.multiply(&g).unwrap();
    assert_eq!(0, fg.apply(1).unwrap());
    assert_eq!(fg.as_vec(), &[2, 0, 0]);
}
