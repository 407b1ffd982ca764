use vstd::prelude::*;

use crate::element::SemigroupElement;
use crate::froidure_pin::{all_of_shape, views};
use crate::semigroup::{well_formed, Semigroup};
use crate::word::Word;

verus! {

/// Why an alphabet could not be built or used.
#[derive(Debug, Clone, Copy, PartialEq, Eq)]
pub enum AlphabetError<A> {
    /// The symbol names no generator.
    MissingSymbol { symbol: A },
    /// The empty word stands for the identity, and the semigroup has none.
    NoIdentityElement,
    /// There are fewer symbols than generators.
    NotEnoughSymbols,
    /// The symbol was already given to an earlier generator.
    DuplicateSymbol { symbol: A },
}

/// `==` on symbols compares their values.
pub open spec fn symbols_compare_by_value<A: vstd::std_specs::cmp::PartialEqSpec>() -> bool {
    &&& A::obeys_eq_spec()
    &&& forall|a: A, b: A| a.eq_spec(&b) <==> a == b
}

/// The first position of `a` in `s`, or `s.len()` where it does not occur.
pub open spec fn position_of<A>(s: Seq<A>, a: A) -> int
    decreases s.len(),
{
    if s.len() == 0 {
        0
    } else if s[0] == a {
        0
    } else {
        1 + position_of(s.drop_first(), a)
    }
}

/// The symbols that go to `k` generators: the first `k`, or all where there are fewer.
pub open spec fn given_symbols<A>(s: Seq<A>, k: nat) -> Seq<A> {
    s.subrange(0, if s.len() < k { s.len() as int } else { k as int })
}

/// No symbol occurs twice in `s`.
pub open spec fn distinct<A>(s: Seq<A>) -> bool {
    forall|i: int, j: int| 0 <= i < j < s.len() ==> s[i] != s[j]
}

/// The generators that the symbols of `w` name, multiplied out; the empty word stands
/// for `identity`.
pub open spec fn collapse<T: SemigroupElement, A>(
    symbols: Seq<A>,
    gens: Seq<T::V>,
    identity: T::V,
    w: Seq<A>,
) -> T::V
    decreases w.len(),
{
    if w.len() == 0 {
        identity
    } else if w.len() == 1 {
        gens[position_of(symbols, w[0])]
    } else {
        T::product(
            collapse::<T, A>(symbols, gens, identity, w.drop_last()),
            gens[position_of(symbols, w.last())],
        )
    }
}

proof fn lemma_position_of<A>(s: Seq<A>, a: A)
    ensures
        0 <= position_of(s, a) <= s.len(),
        position_of(s, a) < s.len() <==> s.contains(a),
        position_of(s, a) < s.len() ==> s[position_of(s, a)] == a,
    decreases s.len(),
{
    if s.len() > 0 && s[0] != a {
        lemma_position_of(s.drop_first(), a);
        if s.contains(a) {
            let i = choose|i: int| 0 <= i < s.len() && s[i] == a;
            assert(s.drop_first()[i - 1] == a);
        }
        if s.drop_first().contains(a) {
            let i = choose|i: int| 0 <= i < s.drop_first().len() && s.drop_first()[i] == a;
            assert(s[i + 1] == a);
        }
    }
}

/// A map from symbols to the generators of a semigroup, with its identity if any.
pub struct Alphabet<T: SemigroupElement, A> {
    identity: Option<T>,
    symbols: Vec<A>,
    generators: Vec<T>,
    shape: Ghost<nat>,
}

impl<T: SemigroupElement, A: Copy + vstd::std_specs::cmp::PartialEqSpec> Alphabet<T, A> {
    /// The symbols, one per generator, in the generators' order.
    pub closed spec fn spec_symbols(&self) -> Seq<A> {
        self.symbols@
    }

    /// The generators, as views.
    pub closed spec fn gens(&self) -> Seq<T::V> {
        views(self.generators@)
    }

    /// The identity, where the semigroup has one.
    pub closed spec fn spec_identity(&self) -> Option<T::V> {
        match self.identity {
            Some(e) => Some(e@),
            None => None,
        }
    }

    /// One distinct symbol per generator; the generators and identity multiply.
    pub closed spec fn wf(&self) -> bool {
        &&& self.symbols@.len() == self.generators@.len()
        &&& distinct(self.symbols@)
        &&& all_of_shape::<T>(self.gens(), self.shape@)
        &&& self.identity matches Some(e) ==> T::valid(e@) && T::shape(e@) == self.shape@
            && T::spec_is_id(e@)
    }

    /// The generator named by `a`, where one is.
    pub open spec fn generator_of(&self, a: A) -> T::V {
        self.gens()[position_of(self.spec_symbols(), a)]
    }

    /// Gives the generators of `semigroup` the symbols of `symbol_iter`, in order. Fails
    /// with `DuplicateSymbol` on the first symbol given twice, else with
    /// `NotEnoughSymbols` where there are fewer symbols than generators.
    pub fn new<S: Semigroup<T>>(semigroup: &S, symbol_iter: Vec<A>) -> (r: Result<
        Self,
        AlphabetError<A>,
    >)
        requires
            symbols_compare_by_value::<A>(),
            well_formed::<T>(semigroup.spec_generators(), semigroup.spec_identity()),
        ensures
            ({
                let k = semigroup.spec_generators().len();
                let given = given_symbols(symbol_iter@, k);
                &&& r is Ok <==> distinct(given) && symbol_iter@.len() >= k
                &&& r matches Ok(a) ==> a.wf() && a.spec_symbols() == given && a.gens()
                    == semigroup.spec_generators() && a.spec_identity() == semigroup.spec_identity()
                &&& r matches Err(e) ==> if distinct(given) {
                    e == AlphabetError::<A>::NotEnoughSymbols
                } else {
                    exists|j: int|
                        0 <= j < given.len() && distinct(#[trigger] given.subrange(0, j))
                            && given.subrange(0, j).contains(given[j]) && e == (
                        AlphabetError::DuplicateSymbol { symbol: given[j] })
                }
            }),
    {
        let gens = semigroup.generators();
        let ghost sg = semigroup.spec_generators();
        let ghost shape: nat = if sg.len() > 0 {
            T::shape(sg[0])
        } else {
            match semigroup.spec_identity() {
                Some(e) => T::shape(e),
                None => 0,
            }
        };
        let m = if symbol_iter.len() < gens.len() {
            symbol_iter.len()
        } else {
            gens.len()
        };
        let ghost given = symbol_iter@.subrange(0, m as int);
        assert(given == given_symbols(symbol_iter@, gens@.len()));
        let mut symbols: Vec<A> = Vec::new();
        let mut generators: Vec<T> = Vec::new();
        let mut i: usize = 0;
        while i < m
            invariant
                symbols_compare_by_value::<A>(),
                m == (if symbol_iter@.len() < gens@.len() {
                    symbol_iter@.len()
                } else {
                    gens@.len() as nat
                }),
                gens@.len() == semigroup.spec_generators().len(),
                m <= gens@.len(),
                m <= symbol_iter@.len(),
                given == symbol_iter@.subrange(0, m as int),
                sg == views(gens@),
                i <= m,
                symbols@ == given.subrange(0, i as int),
                distinct(symbols@),
                generators@.len() == i,
                views(generators@) == sg.subrange(0, i as int),
            decreases m - i,
        {
            let symbol = symbol_iter[i];
            let mut j: usize = 0;
            let mut found = false;
            while j < symbols.len() && !found
                invariant
                    symbols_compare_by_value::<A>(),
                    j <= symbols@.len(),
                    found ==> j < symbols@.len() && symbols@[j as int] == symbol,
                    forall|t: int| 0 <= t < j ==> symbols@[t] != symbol,
                decreases symbols@.len() - j + (if found { 0int } else { 1int }),
            {
                if symbols[j] == symbol {
                    found = true;
                } else {
                    j = j + 1;
                }
            }
            if found {
                proof {
                    assert(given[j as int] == given[i as int]);
                    assert(!distinct(given));
                    assert(given.subrange(0, i as int) == symbols@);
                    assert(given.subrange(0, i as int).contains(given[i as int]));
                    assert(distinct(given.subrange(0, i as int)));
                }
                return Err(AlphabetError::DuplicateSymbol { symbol });
            }
            proof {
                assert(forall|t: int| 0 <= t < symbols@.len() ==> symbols@[t] != symbol);
            }
            symbols.push(symbol);
            let g = gens[i].duplicate();
            let ghost prev = generators@;
            assert(g@ == sg[i as int]);
            generators.push(g);
            i = i + 1;
            assert(symbols@ =~= given.subrange(0, i as int));
            assert forall|t: int| 0 <= t < i implies #[trigger] views(generators@)[t] == sg.subrange(0, i as int)[t] by {
                if t < i - 1 {
                    assert(generators@[t] == prev[t]);
                    assert(views(prev)[t] == prev[t]@);
                }
            }
            assert(views(generators@) =~= sg.subrange(0, i as int));
        }
        assert(symbols@ =~= given);
        if symbol_iter.len() < gens.len() {
            return Err(AlphabetError::NotEnoughSymbols);
        }
        assert(views(generators@) =~= sg);
        proof {
            assert forall|i: int| 0 <= i < sg.len() implies T::valid(#[trigger] sg[i]) && T::shape(
                sg[i],
            ) == shape by {
                assert(crate::element::compatible::<T>(sg[i], sg[0]));
            }
        }
        let identity = semigroup.id();
        Ok(Alphabet { identity, symbols, generators, shape: Ghost(shape) })
    }

    /// Finds the position of `symbol`, or `symbols.len()` where it names no generator.
    fn find(&self, symbol: &A) -> (r: usize)
        requires
            symbols_compare_by_value::<A>(),
        ensures
            r == position_of(self.symbols@, *symbol),
    {
        proof {
            lemma_position_of(self.symbols@, *symbol);
        }
        let mut j: usize = 0;
        while j < self.symbols.len()
            invariant
                symbols_compare_by_value::<A>(),
                j <= self.symbols@.len(),
                forall|t: int| 0 <= t < j ==> self.symbols@[t] != *symbol,
                0 <= position_of(self.symbols@, *symbol) <= self.symbols@.len(),
                position_of(self.symbols@, *symbol) < self.symbols@.len() ==> self.symbols@[position_of(self.symbols@, *symbol)] == *symbol,
            decreases self.symbols@.len() - j,
        {
            if self.symbols[j] == *symbol {
                proof {
                    lemma_position_first(self.symbols@, *symbol, j as int);
                }
                return j;
            }
            j = j + 1;
        }
        proof {
            if position_of(self.symbols@, *symbol) < self.symbols@.len() {
                assert(self.symbols@[position_of(self.symbols@, *symbol)] == *symbol);
            }
        }
        j
    }

    /// The generator that `symbol` names, or `MissingSymbol`.
    pub fn get_symbol(&self, symbol: &A) -> (r: Result<&T, AlphabetError<A>>)
        requires
            symbols_compare_by_value::<A>(),
            self.wf(),
        ensures
            self.spec_symbols().contains(*symbol) <==> r is Ok,
            r matches Ok(t) ==> t@ == self.generator_of(*symbol),
            r matches Err(e) ==> e == (AlphabetError::MissingSymbol { symbol: *symbol }),
    {
        let j = self.find(symbol);
        proof {
            lemma_position_of(self.symbols@, *symbol);
        }
        if j < self.generators.len() {
            Ok(&self.generators[j])
        } else {
            Err(AlphabetError::MissingSymbol { symbol: *symbol })
        }
    }

    /// All symbols of the alphabet, in the order of the generators they name.
    pub fn get_symbols(&self) -> (r: Vec<A>)
        ensures
            r@ == self.spec_symbols(),
    {
        let mut r: Vec<A> = Vec::new();
        let mut i: usize = 0;
        while i < self.symbols.len()
            invariant
                i <= self.symbols@.len(),
                r@ == self.symbols@.subrange(0, i as int),
            decreases self.symbols@.len() - i,
        {
            r.push(self.symbols[i]);
            i = i + 1;
            assert(r@ =~= self.symbols@.subrange(0, i as int));
        }
        assert(r@ =~= self.symbols@);
        r
    }

    /// `word` followed by `symbol`, or `MissingSymbol`.
    pub fn append_word(&self, word: &Word<A>, symbol: &A) -> (r: Result<Word<A>, AlphabetError<A>>)
        requires
            symbols_compare_by_value::<A>(),
        ensures
            self.spec_symbols().contains(*symbol) <==> r is Ok,
            r matches Ok(w) ==> w@ == word@.push(*symbol),
            r matches Err(e) ==> e == (AlphabetError::MissingSymbol { symbol: *symbol }),
    {
        let j = self.find(symbol);
        proof {
            lemma_position_of(self.symbols@, *symbol);
        }
        if j < self.symbols.len() {
            Ok(word.append(symbol))
        } else {
            Err(AlphabetError::MissingSymbol { symbol: *symbol })
        }
    }

    /// `symbol` followed by `word`, or `MissingSymbol`.
    pub fn prepend_word(&self, word: &Word<A>, symbol: &A) -> (r: Result<Word<A>, AlphabetError<A>>)
        requires
            symbols_compare_by_value::<A>(),
        ensures
            self.spec_symbols().contains(*symbol) <==> r is Ok,
            r matches Ok(w) ==> w@ == seq![*symbol] + word@,
            r matches Err(e) ==> e == (AlphabetError::MissingSymbol { symbol: *symbol }),
    {
        let j = self.find(symbol);
        proof {
            lemma_position_of(self.symbols@, *symbol);
        }
        if j < self.symbols.len() {
            Ok(word.prepend(symbol))
        } else {
            Err(AlphabetError::MissingSymbol { symbol: *symbol })
        }
    }

    /// The empty word.
    pub fn empty_word(&self) -> (r: Word<A>)
        ensures
            r@ == Seq::<A>::empty(),
    {
        Word::empty_word()
    }

    /// The element that `word` stands for: the product of the generators its symbols
    /// name, the identity for the empty word. Fails with `MissingSymbol` on the first
    /// symbol that names no generator, and with `NoIdentityElement` on the empty word
    /// where there is no identity.
    pub fn collapse_word(&self, word: &Word<A>) -> (r: Result<T, AlphabetError<A>>)
        requires
            symbols_compare_by_value::<A>(),
            self.wf(),
        ensures
            word@.len() == 0 ==> match self.spec_identity() {
                Some(e) => r matches Ok(t) && t@ == e,
                None => r == Err::<T, AlphabetError<A>>(AlphabetError::NoIdentityElement),
            },
            word@.len() > 0 ==> ((forall|i: int| 0 <= i < word@.len() ==> self.spec_symbols().contains(
                #[trigger] word@[i],
            )) <==> r is Ok),
            word@.len() > 0 ==> (r matches Ok(t) ==> t@ == collapse::<T, A>(
                self.spec_symbols(),
                self.gens(),
                self.gens()[0],
                word@,
            )),
            r matches Err(AlphabetError::MissingSymbol { symbol }) ==> exists|i: int|
                0 <= i < word@.len() && word@[i] == symbol && !self.spec_symbols().contains(symbol)
                    && forall|j: int| 0 <= j < i ==> self.spec_symbols().contains(#[trigger] word@[j]),
    {
        let letters = word.letters();
        if letters.len() == 0 {
            return match &self.identity {
                Some(e) => Ok(e.duplicate()),
                None => Err(AlphabetError::NoIdentityElement),
            };
        }
        let ghost w = word@;
        let ghost id = self.gens()[0];
        let j0 = self.find(&letters[0]);
        proof {
            lemma_position_of(self.symbols@, letters@[0]);
        }
        if j0 >= self.generators.len() {
            return Err(AlphabetError::MissingSymbol { symbol: letters[0] });
        }
        let mut acc = self.generators[j0].duplicate();
        proof {
            assert(w.subrange(0, 1) =~= seq![w[0]]);
            assert(self.gens()[j0 as int] == self.generators@[j0 as int]@);
        }
        let mut i: usize = 1;
        while i < letters.len()
            invariant
                symbols_compare_by_value::<A>(),
                self.wf(),
                letters@ == w,
                w == word@,
                1 <= i <= w.len(),
                acc@ == collapse::<T, A>(self.symbols@, self.gens(), id, w.subrange(0, i as int)),
                T::valid(acc@),
                T::shape(acc@) == self.shape@,
                forall|t: int| 0 <= t < i ==> self.symbols@.contains(#[trigger] w[t]),
            decreases w.len() - i,
        {
            let j = self.find(&letters[i]);
            proof {
                lemma_position_of(self.symbols@, w[i as int]);
            }
            if j >= self.generators.len() {
                return Err(AlphabetError::MissingSymbol { symbol: letters[i] });
            }
            proof {
                assert(self.gens()[j as int] == self.generators@[j as int]@);
                T::lemma_product_closed(acc@, self.generators@[j as int]@);
            }
            acc = acc.multiply(&self.generators[j]);
            i = i + 1;
            proof {
                let sub = w.subrange(0, i as int);
                assert(sub.drop_last() =~= w.subrange(0, i - 1));
                assert(sub.last() == w[i - 1]);
            }
        }
        assert(w.subrange(0, i as int) =~= w);
        Ok(acc)
    }
}

/// Where `s[j]` is `a` and no earlier symbol is, `j` is the first position of `a`.
proof fn lemma_position_first<A>(s: Seq<A>, a: A, j: int)
    requires
        0 <= j < s.len(),
        s[j] == a,
        forall|t: int| 0 <= t < j ==> s[t] != a,
    ensures
        position_of(s, a) == j,
    decreases j,
{
    if j > 0 {
        assert forall|t: int| 0 <= t < j - 1 implies s.drop_first()[t] != a by {
            assert(s.drop_first()[t] == s[t + 1]);
        }
        lemma_position_first(s.drop_first(), a, j - 1);
    }
}

} // verus!
