use yatyat::semigroup::{Semigroup, TransformationSemigroup};
use yatyat::transformation::{Transformation, TransformationError};

#[test]
fn trivial_semigroup() {
    assert!(TransformationSemigroup::new(&[]).is_ok());
}

#[test]
fn valid_gens() {
    let f = Transformation::from_vec(5, vec![2, 2, 3, 1, 4]).unwrap();
    let g = Transformation::from_vec(5, vec![2, 1, 1, 3, 2]).unwrap();
    let s = TransformationSemigroup::new(&[f, g]);
    assert!(s.is_ok());
    println!("{:?}", s.unwrap());
}

#[test]
fn invalid_gens() {
    let f = Transformation::from_vec(4, vec![2, 2, 3, 1]).unwrap();
    let g = Transformation::from_vec(5, vec![2, 1, 1, 3, 2]).unwrap();
    let s = TransformationSemigroup::new(&[f, g]);
    assert!(s.is_err());
}

#[test]
fn mismatching_degree_names_first_mismatch() {
    let f = Transformation::from_vec(4, vec![2, 2, 3, 1]).unwrap();
    let g = Transformation::from_vec(4, vec![0, 1, 2, 3]).unwrap();
    let h = Transformation::from_vec(2, vec![1, 0]).unwrap();
    match TransformationSemigroup::new(&[f, g, h]) {
        Err(TransformationError::MismatchingDegree { degree1, degree2 }) => {
            assert_eq!(degree1, 4);
            assert_eq!(degree2, 2);
        }
        _ => panic!("expected MismatchingDegree"),
    }
}

#[test]
fn semigroup_accessors() {
    let f = Transformation::from_vec(3, vec![1, 1, 2]).unwrap();
    let s = TransformationSemigroup::new(&[f]).unwrap();
    assert_eq!(s.degree(), 3);
    assert_eq!(s.generators().len(), 1);
    assert_eq!(s.id().unwrap().as_vec(), &[0, 1, 2]);
    let empty = TransformationSemigroup::new(&[]).unwrap();
    assert!(empty.id().is_none());
}
