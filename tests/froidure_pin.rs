use std::cmp::Ordering;

use yatyat::element::SemigroupElement;
use yatyat::froidure_pin::{FroidurePin, FroidurePinResult};
use yatyat::semigroup::{Semigroup, TransformationSemigroup};
use yatyat::transformation::Transformation;
use yatyat::word::Word;

fn t(degree: usize, images: Vec<usize>) -> Transformation {
    Transformation::from_vec(degree, images).unwrap()
}

fn enumerate(gens: &[Transformation]) -> FroidurePinResult<Transformation> {
    let s = TransformationSemigroup::new(gens).unwrap();
    FroidurePin::new(&s).build().unwrap()
}

/// The value of a word over the result's generators, multiplied out.
fn word_value(res: &FroidurePinResult<Transformation>, word: &[usize]) -> Transformation {
    let gens = res.generators();
    let mut acc = gens[word[0] - 1].duplicate();
    for g in &word[1..] {
        acc = acc.multiply(&gens[*g - 1]).unwrap();
    }
    acc
}

fn check_tables(res: &FroidurePinResult<Transformation>) {
    let elements = res.elements();
    let gens = res.generators();
    for u in 0..elements.len() {
        assert_eq!(res.right_cayley(u, 0), u);
        assert_eq!(res.left_cayley(u, 0), u);
        for g in 1..=gens.len() {
            let r = res.right_cayley(u, g);
            let l = res.left_cayley(u, g);
            assert_eq!(elements[r], elements[u].multiply(&gens[g - 1]).unwrap());
            assert_eq!(elements[l], gens[g - 1].multiply(&elements[u]).unwrap());
        }
        assert_eq!(res.index_of(&elements[u]), Some(u));
    }
}

#[test]
fn transformation_monoid_5() {
    let s = TransformationSemigroup::new(&[
        Transformation::from_vec(5, vec![1, 0, 2, 3, 4]).unwrap(),
        Transformation::from_vec(5, vec![1, 2, 3, 4, 0]).unwrap(),
        Transformation::from_vec(5, vec![1, 1, 2, 3, 4]).unwrap(),
    ])
    .unwrap();
    let fp = FroidurePin::new(&s);
    let res = fp.build().unwrap();
    assert!(res.elements().len() == 3125);
}

#[test]
fn empty_generators() {
    let res = enumerate(&[]);
    assert_eq!(res.len(), 0);
    assert_eq!(res.rewrite_rules().len(), 0);
}

#[test]
fn trivial_monoid() {
    let res = enumerate(&[t(3, vec![0, 1, 2])]);
    assert_eq!(res.len(), 1);
    assert_eq!(res.generators().len(), 0);
    assert!(res.elements()[0].is_id());
}

#[test]
fn symmetric_group_5() {
    let res = enumerate(&[t(5, vec![1, 0, 2, 3, 4]), t(5, vec![0, 2, 3, 4, 1])]);
    assert_eq!(res.len(), 120);
    check_tables(&res);
}

#[test]
fn paper_example() {
    let res = enumerate(&[t(6, vec![1, 1, 3, 3, 4, 5]), t(6, vec![4, 2, 3, 3, 5, 5])]);
    assert_eq!(res.len(), 7);
    check_tables(&res);
    // Every length-3 extension of a word of the seven elements collapses onto one of them.
    for u in 0..res.len() {
        let w = res.word_of(u);
        for g in 1..=2 {
            let mut letters = w.letters().to_vec();
            letters.push(g);
            let v = res.right_cayley(u, g);
            assert_eq!(res.elements()[v], word_value(&res, &letters));
        }
    }
}

#[test]
fn rewrite_rules_are_sound() {
    let res = enumerate(&[t(6, vec![1, 1, 3, 3, 4, 5]), t(6, vec![4, 2, 3, 3, 5, 5])]);
    assert!(res.rewrite_rules().len() > 0);
    for (lhs, rhs) in res.rewrite_rules() {
        let l = lhs.letters();
        let r = rhs.letters();
        assert!(l.len() > r.len() || (l.len() == r.len() && l > r));
        let lv = word_value(&res, l);
        let rv = if r.is_empty() { res.elements()[0].duplicate() } else { word_value(&res, r) };
        assert_eq!(lv, rv);
    }
}

#[test]
fn words_in_shortlex_order() {
    let res = enumerate(&[t(5, vec![1, 0, 2, 3, 4]), t(5, vec![0, 2, 3, 4, 1])]);
    let words: Vec<Vec<usize>> = (0..res.len()).map(|i| res.word_of(i).letters().to_vec()).collect();
    assert!(words[0].is_empty());
    for i in 1..words.len() {
        let (a, b) = (&words[i - 1], &words[i]);
        assert!(a.len() < b.len() || (a.len() == b.len() && a < b));
        assert_eq!(word_value(&res, b), res.elements()[i]);
    }
}

#[test]
fn duplicate_and_identity_generators_are_dropped() {
    let a = t(3, vec![1, 0, 2]);
    let id = t(3, vec![0, 1, 2]);
    let res = enumerate(&[a.duplicate(), id, a.duplicate(), t(3, vec![1, 2, 0])]);
    assert_eq!(res.generators().len(), 2);
    assert_eq!(res.generators()[0], a);
    assert_eq!(res.len(), 6);
    check_tables(&res);
}

#[test]
fn rebuilding_from_generators_gives_same_elements() {
    let first = enumerate(&[t(6, vec![1, 1, 3, 3, 4, 5]), t(6, vec![4, 2, 3, 3, 5, 5])]);
    let gens: Vec<Transformation> = first.generators().iter().map(|g| g.duplicate()).collect();
    let second = enumerate(&gens);
    assert_eq!(first.len(), second.len());
    for i in 0..first.len() {
        assert_eq!(first.elements()[i], second.elements()[i]);
    }
    assert_eq!(first.rewrite_rules().len(), second.rewrite_rules().len());
}

#[test]
fn reduce_word_follows_the_right_table() {
    let res = enumerate(&[t(5, vec![1, 0, 2, 3, 4]), t(5, vec![0, 2, 3, 4, 1])]);
    let word = [2, 2, 1, 2, 1, 1, 2, 2, 2];
    let i = res.reduce_word(&word).unwrap();
    assert_eq!(res.elements()[i], word_value(&res, &word));
    let shortlex = res.word_of(i);
    assert!(shortlex.len() <= word.len());
    assert_eq!(word_value(&res, shortlex.letters()), res.elements()[i]);
    assert_eq!(res.reduce_word(&[]), Some(0));
    assert_eq!(res.reduce_word(&[3]), None);
    assert_eq!(res.reduce_word(&[0, 1]), None);
}

#[test]
fn word_append_and_prepend() {
    let w = Word::<usize>::empty_word().append(&2).prepend(&1).append(&3);
    assert_eq!(w.letters(), &[1, 2, 3]);
    assert_eq!(w.len(), 3);
    assert!(!w.is_empty_word());
}

#[test]
fn decomposition_of_every_element() {
    let res = enumerate(&[t(6, vec![1, 1, 3, 3, 4, 5]), t(6, vec![4, 2, 3, 3, 5, 5])]);
    let gens = res.generators();
    let elements = res.elements();
    assert_eq!(res.length(0), 0);
    assert_eq!(res.prefix(0), None);
    for i in 1..res.len() {
        assert!(res.length(i) >= 1);
        let last = &gens[res.last(i) - 1];
        let first = &gens[res.first(i) - 1];
        let p = res.prefix(i).unwrap();
        let s = res.suffix(i).unwrap();
        assert_eq!(elements[i], elements[p].multiply(last).unwrap());
        assert_eq!(elements[i], first.multiply(&elements[s]).unwrap());
        assert_eq!(res.word_of(i).len(), res.length(i));
    }
}

#[test]
fn no_identity_cyclic_group() {
    let s = TransformationSemigroup::new(&[t(3, vec![1, 2, 0])]).unwrap().without_identity();
    assert!(s.id().is_none());
    let res = FroidurePin::new(&s).build().unwrap();
    assert_eq!(res.len(), 3);
    assert_eq!(res.generators().len(), 1);
    assert_eq!(res.word_of(0).letters(), &[1]);
    assert_eq!(res.word_of(2).letters(), &[1, 1, 1]);
    assert!(res.elements()[2].is_id());
    assert_eq!(res.prefix(0), None);
    assert_eq!(res.suffix(0), None);
    assert_eq!(res.reduce_word(&[]), None);
    assert_eq!(res.reduce_word(&[1, 1, 1, 1]), Some(0));
    check_tables(&res);
    // the rule a^4 = a
    let rules = res.rewrite_rules();
    assert_eq!(rules.len(), 1);
    assert_eq!(rules[0].0.letters(), &[1, 1, 1, 1]);
    assert_eq!(rules[0].1.letters(), &[1]);
}

#[test]
fn shortlex_comparison_of_words() {
    let w = |v: Vec<usize>| Word::from_vec(v);
    assert_eq!(w(vec![2]).shortlex_cmp(&w(vec![1, 1])), Ordering::Less);
    assert_eq!(w(vec![1, 2]).shortlex_cmp(&w(vec![2, 1])), Ordering::Less);
    assert_eq!(w(vec![2, 1]).shortlex_cmp(&w(vec![1, 2])), Ordering::Greater);
    assert_eq!(w(vec![1, 2]).shortlex_cmp(&w(vec![1, 2])), Ordering::Equal);
    assert_eq!(w(vec![]).shortlex_cmp(&w(vec![])), Ordering::Equal);
    let res = enumerate(&[t(6, vec![1, 1, 3, 3, 4, 5]), t(6, vec![4, 2, 3, 3, 5, 5])]);
    for (lhs, rhs) in res.rewrite_rules() {
        assert_eq!(lhs.shortlex_cmp(rhs), Ordering::Greater);
    }
}

/// Every word over `k` letters of at most `len` letters, in shortlex order.
fn all_words(k: usize, len: usize) -> Vec<Vec<usize>> {
    let mut out: Vec<Vec<usize>> = vec![vec![]];
    let mut layer: Vec<Vec<usize>> = vec![vec![]];
    for _ in 0..len {
        let mut next = Vec::new();
        for w in &layer {
            for g in 1..=k {
                let mut v = w.clone();
                v.push(g);
                next.push(v);
            }
        }
        out.extend(next.iter().cloned());
        layer = next;
    }
    out
}

#[test]
fn recorded_words_are_shortlex_least() {
    for gens in [
        vec![t(6, vec![1, 1, 3, 3, 4, 5]), t(6, vec![4, 2, 3, 3, 5, 5])],
        vec![t(4, vec![1, 0, 2, 3]), t(4, vec![1, 2, 3, 0])],
    ] {
        let res = enumerate(&gens);
        let k = res.generators().len();
        for i in 0..res.len() {
            let word = res.word_of(i).letters().to_vec();
            for w in all_words(k, word.len()) {
                if w == word {
                    break;
                }
                let value = if w.is_empty() { res.elements()[0].duplicate() } else { word_value(&res, &w) };
                assert_ne!(value, res.elements()[i], "{:?} is shorter than {:?}", w, word);
            }
        }
    }
}

#[test]
fn suffix_word_drops_the_first_letter() {
    let res = enumerate(&[t(5, vec![1, 0, 2, 3, 4]), t(5, vec![0, 2, 3, 4, 1])]);
    for i in 0..res.len() {
        if res.length(i) >= 2 {
            let s = res.suffix(i).unwrap();
            assert!(s < i);
            assert_eq!(res.word_of(s).letters(), &res.word_of(i).letters()[1..]);
            let p = res.prefix(i).unwrap();
            let w = res.word_of(i).letters().to_vec();
            assert_eq!(res.word_of(p).letters(), &w[..w.len() - 1]);
        }
    }
}

#[test]
fn rules_come_from_table_entries_in_order() {
    let res = enumerate(&[t(6, vec![1, 1, 3, 3, 4, 5]), t(6, vec![4, 2, 3, 3, 5, 5])]);
    let mut previous: Option<(usize, usize)> = None;
    for (lhs, rhs) in res.rewrite_rules() {
        let l = lhs.letters();
        let (prefix, g) = (&l[..l.len() - 1], l[l.len() - 1]);
        let u = (0..res.len()).find(|&u| res.word_of(u).letters() == prefix).unwrap();
        let v = res.right_cayley(u, g);
        assert_eq!(res.word_of(v).letters(), rhs.letters());
        if let Some(before) = previous {
            assert!(before < (u, g));
        }
        previous = Some((u, g));
    }
}
