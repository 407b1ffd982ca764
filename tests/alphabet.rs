use yatyat::alphabet::{Alphabet, AlphabetError};
use yatyat::semigroup::TransformationSemigroup;
use yatyat::transformation::Transformation;

fn t(degree: usize, images: Vec<usize>) -> Transformation {
    Transformation::from_vec(degree, images).unwrap()
}

fn semigroup() -> TransformationSemigroup {
    TransformationSemigroup::new(&[t(3, vec![1, 0, 2]), t(3, vec![1, 2, 0])]).unwrap()
}

#[test]
fn alphabet_names_generators() {
    let s = semigroup();
    let a = Alphabet::new(&s, vec!['a', 'b']).unwrap();
    assert_eq!(a.get_symbol(&'a').unwrap().as_vec(), &[1, 0, 2]);
    assert_eq!(a.get_symbol(&'b').unwrap().as_vec(), &[1, 2, 0]);
    assert_eq!(a.get_symbols(), vec!['a', 'b']);
    match a.get_symbol(&'z') {
        Err(AlphabetError::MissingSymbol { symbol }) => assert_eq!(symbol, 'z'),
        _ => panic!("expected MissingSymbol"),
    }
}

#[test]
fn alphabet_duplicate_symbol() {
    let s = semigroup();
    match Alphabet::new(&s, vec!['a', 'a']) {
        Err(AlphabetError::DuplicateSymbol { symbol }) => assert_eq!(symbol, 'a'),
        _ => panic!("expected DuplicateSymbol"),
    }
}

#[test]
fn alphabet_not_enough_symbols() {
    let s = semigroup();
    assert!(matches!(Alphabet::new(&s, vec!['a']), Err(AlphabetError::NotEnoughSymbols)));
}

#[test]
fn alphabet_words_and_collapse() {
    let s = semigroup();
    let a = Alphabet::new(&s, vec!['a', 'b']).unwrap();
    let w = a.empty_word();
    assert!(w.is_empty_word());
    assert_eq!(a.collapse_word(&w).unwrap().as_vec(), &[0, 1, 2]);
    let w = a.append_word(&w, &'a').unwrap();
    let w = a.append_word(&w, &'b').unwrap();
    let w = a.prepend_word(&w, &'b').unwrap();
    assert_eq!(w.letters(), &['b', 'a', 'b']);
    assert_eq!(w.len(), 3);
    // b then a then b, applied left to right
    assert_eq!(a.collapse_word(&w).unwrap().as_vec(), &[1, 0, 2]);
    assert!(matches!(a.append_word(&w, &'c'), Err(AlphabetError::MissingSymbol { symbol: 'c' })));
    let bad = a.prepend_word(&w, &'a').unwrap().append(&'x');
    assert!(matches!(a.collapse_word(&bad), Err(AlphabetError::MissingSymbol { symbol: 'x' })));
}

#[test]
fn alphabet_without_identity() {
    let s = TransformationSemigroup::new(&[]).unwrap();
    let a: Alphabet<Transformation, char> = Alphabet::new(&s, vec![]).unwrap();
    assert!(matches!(a.collapse_word(&a.empty_word()), Err(AlphabetError::NoIdentityElement)));
}
