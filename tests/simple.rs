use yatyat::semigroup::TransformationSemigroup;
use yatyat::simple::FroidurePinSimple;
use yatyat::transformation::Transformation;

fn t(degree: usize, images: Vec<usize>) -> Transformation {
    Transformation::from_vec(degree, images).unwrap()
}

fn count(gens: &[Transformation]) -> usize {
    let s = TransformationSemigroup::new(gens).unwrap();
    let res = FroidurePinSimple::new(&s).build().unwrap();
    res.elements().len()
}

#[test]
fn simple_trivial_monoid() {
    assert_eq!(count(&[t(3, vec![0, 1, 2])]), 1);
}

#[test]
fn simple_symmetric_group_5() {
    assert_eq!(count(&[t(5, vec![1, 0, 2, 3, 4]), t(5, vec![0, 2, 3, 4, 1])]), 120);
}

#[test]
fn simple_paper_example() {
    assert_eq!(count(&[t(6, vec![1, 1, 3, 3, 4, 5]), t(6, vec![4, 2, 3, 3, 5, 5])]), 7);
}

#[test]
fn simple_empty() {
    assert_eq!(count(&[]), 0);
}

#[test]
fn simple_right_table_is_right() {
    let s = TransformationSemigroup::new(&[t(4, vec![1, 0, 2, 3]), t(4, vec![1, 2, 3, 0]), t(4, vec![1, 1, 2, 3])])
        .unwrap();
    let res = FroidurePinSimple::new(&s).build().unwrap();
    assert_eq!(res.elements().len(), 256);
    let gens = res.generators();
    for u in 0..res.elements().len() {
        assert_eq!(res.right_cayley(u, 0), u);
        for g in 1..=gens.len() {
            let v = res.right_cayley(u, g);
            assert_eq!(res.elements()[v], res.elements()[u].multiply(&gens[g - 1]).unwrap());
        }
    }
}
