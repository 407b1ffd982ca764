use vstd::prelude::*;

use crate::element::SemigroupElement;
use crate::element_index::ElementIndex;
use crate::froidure_pin::{
    all_of_shape, evaluate, offset_of, exceeds_tables, is_value_word, is_word_over, lemma_evaluate_push, views,
    EnumerationError, FroidurePin,
};
use crate::semigroup::{well_formed, Semigroup};
use crate::vec2::Vec2;

verus! {

/// A plain enumeration of a semigroup: every element found is multiplied by every
/// generator, and each product looked up; only the right Cayley table is kept.
pub struct FroidurePinSimple<T: SemigroupElement> {
    generators: Vec<T>,
    has_identity: bool,
    elements: Vec<T>,
    element_map: ElementIndex,
    right_cayley_graph: Vec2<Option<usize>>,
    shape: Ghost<nat>,
    words: Ghost<Seq<Seq<usize>>>,
}

impl<T: SemigroupElement> FroidurePinSimple<T> {
    /// The generators, as views.
    pub closed spec fn gens(&self) -> Seq<T::V> {
        views(self.generators@)
    }

    /// The elements found, as views.
    pub closed spec fn elems(&self) -> Seq<T::V> {
        views(self.elements@)
    }

    /// Whether an identity sits at position 0.
    pub closed spec fn spec_has_identity(&self) -> bool {
        self.has_identity
    }

    /// A word over the generators whose value is element `i`.
    pub closed spec fn word(&self, i: int) -> Seq<usize> {
        self.words@[i]
    }

    /// The value of a word over the generators.
    pub open spec fn value(&self, w: Seq<usize>) -> T::V {
        evaluate::<T>(self.gens(), self.elems()[0], w)
    }

    /// The right Cayley table.
    pub closed spec fn right(&self) -> Seq<Seq<Option<usize>>> {
        self.right_cayley_graph@
    }

    /// The position of the first element processed: after the identity, if any.
    closed spec fn offset(&self) -> int {
        offset_of(self.has_identity)
    }

    /// The elements are distinct, valid and of one shape, the generators come first after
    /// the identity, and every filled entry of the table names the right product.
    pub closed spec fn inv(&self) -> bool {
        let n = self.elements@.len();
        let k = self.generators@.len();
        &&& self.element_map.indexes::<T>(self.elements@)
        &&& self.right_cayley_graph.wf()
        &&& self.right_cayley_graph@.len() == n
        &&& self.right_cayley_graph.spec_n_cols() == k + 1
        &&& n * (k + 1) <= usize::MAX
        &&& k + 1 <= usize::MAX
        &&& n >= self.offset() + k
        &&& all_of_shape::<T>(self.gens(), self.shape@)
        &&& all_of_shape::<T>(self.elems(), self.shape@)
        &&& self.words@.len() == n
        &&& forall|i: int|
            0 <= i < n ==> is_value_word(#[trigger] self.words@[i], k, self.has_identity)
                && self.elements@[i]@ == evaluate::<T>(
                views(self.generators@),
                self.elements@[0]@,
                self.words@[i],
            )
        &&& self.has_identity ==> n >= 1 && T::spec_is_id(self.elements@[0]@)
        &&& forall|g: int|
            1 <= g <= k ==> #[trigger] self.elements@[g - 1 + self.offset()]@ == self.generators@[g
                - 1]@
        &&& forall|i: int, j: int|
            0 <= i < n && 0 <= j < n && i != j ==> #[trigger] self.elements@[i]@
                != #[trigger] self.elements@[j]@
        &&& forall|u: int, g: int|
            0 <= u < n && 1 <= g <= k ==> (#[trigger] self.right_cayley_graph@[u][g] matches Some(
                v,
            ) ==> v < n && self.elements@[v as int]@ == T::product(
                self.elements@[u]@,
                self.generators@[g - 1]@,
            ))
        &&& forall|u: int| 0 <= u < n ==> #[trigger] self.right_cayley_graph@[u][0] == Some(u as usize)
        &&& forall|u: int, g: int|
            0 <= u < self.offset() && 0 <= g <= k ==> (#[trigger] self.right_cayley_graph@[u][g]) is Some
    }

    /// Every row of the table is filled in.
    pub closed spec fn complete(&self) -> bool {
        forall|u: int, g: int|
            0 <= u < self.elements@.len() && 0 <= g <= self.generators@.len() ==> (
            #[trigger] self.right_cayley_graph@[u][g]) is Some
    }

    /// Sets up the enumeration of `semigroup`, as `FroidurePin::new` does: the identity,
    /// if declared, then the distinct non-identity generators.
    pub fn new<U: Semigroup<T>>(semigroup: &U) -> (r: Self)
        requires
            well_formed::<T>(semigroup.spec_generators(), semigroup.spec_identity()),
            (semigroup.spec_generators().len() + 1) * (semigroup.spec_generators().len() + 1)
                <= usize::MAX,
        ensures
            r.inv(),
            r.gens() == crate::froidure_pin::normalise::<T>(semigroup.spec_generators()),
            semigroup.spec_identity() matches Some(e) ==> r.elems() == seq![e] + r.gens(),
            semigroup.spec_identity() is None ==> r.elems() == r.gens(),
    {
        let fp = FroidurePin::new(semigroup);
        let parts = fp.into_start();
        let (generators, has_identity, elements, element_map, right_cayley_graph, shape, words) =
            parts;
        let r = FroidurePinSimple {
            generators,
            has_identity,
            elements,
            element_map,
            right_cayley_graph,
            shape,
            words,
        };
        r
    }

    /// The word of element `u` followed by `g` stands for their product.
    proof fn lemma_extended_word(&self, u: int, g: int)
        requires
            self.inv(),
            0 <= u < self.elements@.len(),
            1 <= g <= self.generators@.len(),
        ensures
            is_value_word(self.words@[u].push(g as usize), self.generators@.len(), self.has_identity),
            evaluate::<T>(
                views(self.generators@),
                self.elements@[0]@,
                self.words@[u].push(g as usize),
            ) == T::product(self.elements@[u]@, self.generators@[g - 1]@),
    {
        let k = self.generators@.len();
        let wu = self.words@[u];
        let wn = wu.push(g as usize);
        assert(is_value_word(wu, k, self.has_identity));
        assert(self.elems()[0] == self.elements@[0]@);
        assert(views(self.generators@)[g - 1] == self.generators@[g - 1]@);
        lemma_evaluate_push::<T>(views(self.generators@), self.elements@[0]@, wu, g as usize, self.shape@);
        assert forall|m: int| 0 <= m < wn.len() implies 1 <= #[trigger] wn[m] <= k by {
            if m < wu.len() {
                assert(wn[m] == wu[m]);
            }
        }
    }

    /// Where the elements found and one more distinct product do not fit in the table, the
    /// generators give more distinct elements than the table can hold.
    proof fn lemma_overflow(&self, u: int, g: int, x: T::V, limit: int)
        requires
            self.inv(),
            0 <= u < self.elements@.len(),
            1 <= g <= self.generators@.len(),
            x == T::product(self.elements@[u]@, self.generators@[g - 1]@),
            forall|j: int| 0 <= j < self.elements@.len() ==> self.elements@[j]@ != x,
            self.elements@.len() >= limit,
            (limit + 1) * (self.generators@.len() + 1) > usize::MAX,
        ensures
            exceeds_tables::<T>(self.gens(), self.elements@[0]@, self.has_identity),
    {
        self.lemma_extended_word(u, g);
        let n = self.elements@.len();
        let k = self.generators@.len();
        let gs = self.gens();
        let e0 = self.elements@[0]@;
        let wn = self.words@[u].push(g as usize);
        let ws = self.words@.push(wn);
        assert forall|i: int| 0 <= i < ws.len() implies is_value_word(#[trigger] ws[i], k, self.has_identity) by {
            if i < n {
                assert(ws[i] == self.words@[i]);
            }
        }
        assert forall|i: int, j: int| 0 <= i < j < ws.len() implies evaluate::<T>(gs, e0, #[trigger] ws[i])
            != evaluate::<T>(gs, e0, #[trigger] ws[j]) by {
            assert(ws[i] == self.words@[i]);
            if j < n {
                assert(ws[j] == self.words@[j]);
            }
        }
        assert(crate::froidure_pin::distinct_value_words::<T>(gs, e0, self.has_identity, ws));
        assert(ws.len() * (k + 1) > usize::MAX) by (nonlinear_arith)
            requires
                ws.len() == n + 1,
                n >= limit,
                (limit + 1) * (k + 1) > usize::MAX,
        ;
    }

    /// Multiplies every element by every generator, appending the products not seen
    /// before, until no new element turns up.
    #[verifier::rlimit(60)]
    fn run(&mut self) -> (r: Result<(), EnumerationError>)
        requires
            old(self).inv(),
        ensures
            r is Ok ==> {
                &&& final(self).inv()
                &&& final(self).complete()
                &&& final(self).generators@ == old(self).generators@
                &&& old(self).elements@.len() <= final(self).elements@.len()
                &&& final(self).elements@.subrange(0, old(self).elements@.len() as int)
                    == old(self).elements@
            },
            r is Err ==> r == Err::<(), EnumerationError>(EnumerationError::TooManyElements)
                && exceeds_tables::<T>(old(self).gens(), old(self).elements@[0]@, old(self).has_identity),
            old(self).elements@.len() == 0 ==> r is Ok,
    {
        let ghost start = *self;
        if self.elements.len() == 0 {
            proof {
                assert(self.elements@.subrange(0, 0) =~= self.elements@);
            }
            return Ok(());
        }
        let k = self.generators.len();
        let mut u: usize = if self.has_identity {
            1
        } else {
            0
        };
        let limit = usize::MAX / (k + 1);
        proof {
            let m = usize::MAX as int;
            let d = (k + 1) as int;
            vstd::arithmetic::div_mod::lemma_fundamental_div_mod(m, d);
            assert(limit * (k + 1) <= usize::MAX) by (nonlinear_arith)
                requires
                    m == d * (m / d) + m % d,
                    m % d >= 0,
                    limit == m / d,
                    d == k + 1,
                    m == usize::MAX,
            ;
            assert((limit + 1) * (k + 1) > usize::MAX) by (nonlinear_arith)
                requires
                    m == d * (m / d) + m % d,
                    m % d < d,
                    limit == m / d,
                    d == k + 1,
                    m == usize::MAX,
            ;
            assert(self.elements@.subrange(0, start.elements@.len() as int) =~= start.elements@);
        }
        while u < self.elements.len()
            invariant
                start == *old(self),
                start.elements@.len() >= 1,
                (limit + 1) * (k + 1) > usize::MAX,
                self.inv(),
                k == self.generators@.len(),
                self.generators@ == start.generators@,
                self.has_identity == start.has_identity,
                limit * (k + 1) <= usize::MAX,
                start.elements@.len() <= self.elements@.len(),
                self.elements@.subrange(0, start.elements@.len() as int) == start.elements@,
                self.offset() <= u <= self.elements@.len(),
                forall|a: int, g: int| 0 <= a < u && 0 <= g <= k ==> (#[trigger] self.right_cayley_graph@[a][g]) is Some,
            decreases usize::MAX - u,
        {
            let mut g: usize = 1;
            while g <= k
                invariant
                    start == *old(self),
                    start.elements@.len() >= 1,
                    (limit + 1) * (k + 1) > usize::MAX,
                    self.inv(),
                    k == self.generators@.len(),
                    self.generators@ == start.generators@,
                    self.has_identity == start.has_identity,
                    limit * (k + 1) <= usize::MAX,
                    start.elements@.len() <= self.elements@.len(),
                    self.elements@.subrange(0, start.elements@.len() as int) == start.elements@,
                    self.offset() <= u < self.elements@.len(),
                    1 <= g <= k + 1,
                    forall|a: int, h: int| 0 <= a < u && 0 <= h <= k ==> (#[trigger] self.right_cayley_graph@[a][h]) is Some,
                    forall|h: int| 0 <= h < g ==> (#[trigger] self.right_cayley_graph@[u as int][h]) is Some,
                decreases k + 1 - g,
            {
                let ghost before = *self;
                proof {
                    assert(self.elems()[u as int] == self.elements@[u as int]@);
                    assert(self.gens()[g - 1] == self.generators@[g - 1]@);
                    self.right_cayley_graph.lemma_shape();
                }
                let p = self.elements[u].multiply(&self.generators[g - 1]);
                let v = match self.element_map.find(&self.elements, &p) {
                    Some(idx) => idx,
                    None => {
                        let n = self.elements.len();
                        if n >= limit {
                            proof {
                                self.lemma_overflow(u as int, g as int, p@, limit as int);
                                assert(self.elements@[0] == self.elements@.subrange(
                                    0,
                                    start.elements@.len() as int,
                                )[0]);
                                assert(self.gens() == start.gens());
                            }
                            return Err(EnumerationError::TooManyElements);
                        }
                        proof {
                            assert((n + 1) * (k + 1) <= limit * (k + 1)) by (nonlinear_arith)
                                requires
                                    n + 1 <= limit,
                            ;
                            T::lemma_product_closed(self.elements@[u as int]@, self.generators@[g - 1]@);
                            self.lemma_extended_word(u as int, g as int);
                        }
                        self.push_element(p, Ghost(self.words@[u as int].push(g)));
                        n
                    },
                };
                proof {
                    self.right_cayley_graph.lemma_shape();
                }
                self.right_cayley_graph.set(u, g, Some(v));
                proof {
                    let n = self.elements@.len();
                    assert forall|a: int, h: int|
                        0 <= a < n && 1 <= h <= k implies (#[trigger] self.right_cayley_graph@[a][h] matches Some(
                        w,
                    ) ==> w < n && self.elements@[w as int]@ == T::product(
                        self.elements@[a]@,
                        self.generators@[h - 1]@,
                    )) by {
                    }
                    assert forall|a: int| 0 <= a < n implies #[trigger] self.right_cayley_graph@[a][0]
                        == Some(a as usize) by {
                    }
                    assert forall|a: int, h: int| 0 <= a <= u && 0 <= h <= k && (a < u || h < g + 1)
                        implies (#[trigger] self.right_cayley_graph@[a][h]) is Some by {
                        if !(a == u && h == g) {
                            assert(before.right_cayley_graph@[a][h] is Some);
                            assert(before.right_cayley_graph@[a] == before.right_cayley_graph@.subrange(
                                0,
                                before.elements@.len() as int,
                            )[a]);
                        }
                    }
                    assert(self.elements@.subrange(0, start.elements@.len() as int) =~= start.elements@) by {
                        assert forall|i: int| 0 <= i < start.elements@.len() implies self.elements@[i] == start.elements@[i] by {
                            assert(before.elements@[i] == before.elements@.subrange(0, start.elements@.len() as int)[i]);
                        }
                    }
                }
                g = g + 1;
            }
            u = u + 1;
        }
        Ok(())
    }

    /// Appends `x`, which is new and valid, with an empty row of the table.
    fn push_element(&mut self, x: T, Ghost(w): Ghost<Seq<usize>>)
        requires
            old(self).inv(),
            is_value_word(w, old(self).generators@.len(), old(self).has_identity),
            old(self).elements@.len() >= 1,
            x@ == evaluate::<T>(views(old(self).generators@), old(self).elements@[0]@, w),
            forall|i: int| 0 <= i < old(self).elements@.len() ==> old(self).elements@[i]@ != x@,
            T::valid(x@),
            T::shape(x@) == old(self).shape@,
            (old(self).elements@.len() + 1) * (old(self).generators@.len() + 1) <= usize::MAX,
        ensures
            final(self).inv(),
            final(self).elements@ == old(self).elements@.push(x),
            final(self).words@ == old(self).words@.push(w),
            final(self).generators@ == old(self).generators@,
            final(self).has_identity == old(self).has_identity,
            final(self).right_cayley_graph.spec_n_cols() == old(self).right_cayley_graph.spec_n_cols(),
            final(self).right_cayley_graph@.subrange(0, old(self).elements@.len() as int) == old(self).right_cayley_graph@,
    {
        let ghost before = *self;
        let n = self.elements.len();
        proof {
            self.right_cayley_graph.lemma_shape();
            assert(n + 1 <= usize::MAX) by (nonlinear_arith)
                requires
                    (n + 1) * (self.generators@.len() + 1) <= usize::MAX,
            ;
        }
        self.elements.push(x);
        assert(self.elements@.drop_last() =~= before.elements@);
        self.element_map.push(&self.elements);
        self.words = Ghost(self.words@.push(w));
        self.right_cayley_graph.add_row();
        proof {
            self.right_cayley_graph.lemma_shape();
        }
        let ghost r1 = self.right_cayley_graph@;
        self.right_cayley_graph.set(n, 0, Some(n));
        proof {
            let k = self.generators@.len();
            assert(self.elems() =~= before.elems().push(x@));
            assert forall|i: int| 0 <= i < n implies #[trigger] self.elements@[i] == before.elements@[i] by {
            }
            assert forall|a: int, c: int| 0 <= a < n && 0 <= c <= k implies #[trigger] self.right_cayley_graph@[a][c]
                == before.right_cayley_graph@[a][c] by {
                assert(r1[a] == r1.subrange(0, n as int)[a]);
            }
            assert forall|c: int| 1 <= c <= k implies (#[trigger] self.right_cayley_graph@[n as int][c]) is None by {
                assert(crate::vec2::is_default(r1[n as int][c]));
            }
            assert forall|i: int, j: int|
                0 <= i < n + 1 && 0 <= j < n + 1 && i != j implies #[trigger] self.elements@[i]@
                != #[trigger] self.elements@[j]@ by {
            }
            assert forall|u: int, g: int|
                0 <= u < n + 1 && 1 <= g <= k implies (#[trigger] self.right_cayley_graph@[u][g] matches Some(
                v,
            ) ==> v < n + 1 && self.elements@[v as int]@ == T::product(
                self.elements@[u]@,
                self.generators@[g - 1]@,
            )) by {
                if u < n {
                    if let Some(v) = before.right_cayley_graph@[u][g] {
                        assert(self.elements@[v as int] == before.elements@[v as int]);
                    }
                }
            }
            assert forall|u: int| 0 <= u < n + 1 implies #[trigger] self.right_cayley_graph@[u][0] == Some(u as usize) by {
                if u < n {
                    assert(before.right_cayley_graph@[u][0] == Some(u as usize));
                }
            }
            assert forall|u: int, g: int|
                0 <= u < self.offset() && 0 <= g <= k implies (#[trigger] self.right_cayley_graph@[u][g]) is Some by {
                assert(before.right_cayley_graph@[u][g] is Some);
            }
            assert(n * (k + 1) <= (n + 1) * (k + 1)) by (nonlinear_arith);
            assert(self.right_cayley_graph@.subrange(0, n as int) =~= before.right_cayley_graph@);
            assert(self.elements@[0] == before.elements@[0]);
            assert forall|i: int| 0 <= i < n + 1 implies is_value_word(
                #[trigger] self.words@[i],
                k,
                self.has_identity,
            ) && self.elements@[i]@ == evaluate::<T>(
                views(self.generators@),
                self.elements@[0]@,
                self.words@[i],
            ) by {
                if i < n {
                    assert(self.words@[i] == before.words@[i]);
                }
            }
        }
    }

    /// Every word over the generators has its value among the elements: the enumeration
    /// has every element of the semigroup.
    pub proof fn lemma_every_value_found(&self, w: Seq<usize>)
        requires
            self.inv(),
            self.complete(),
            is_value_word(w, self.gens().len(), self.spec_has_identity()),
        ensures
            exists|i: int| 0 <= i < self.elems().len() && self.elems()[i] == self.value(w),
        decreases w.len(),
    {
        let k = self.generators@.len();
        if w.len() == 0 {
            assert(self.elems()[0] == self.value(w));
        } else if w.len() == 1 {
            let g = w[0] as int;
            assert(1 <= w[0] <= k);
            let i = g - 1 + self.offset();
            assert(self.elements@[i]@ == self.generators@[g - 1]@);
            assert(self.elems()[i] == self.elements@[i]@);
            assert(self.gens()[g - 1] == self.generators@[g - 1]@);
        } else {
            let x = w.drop_last();
            assert(is_word_over(x, k));
            assert(1 <= w[w.len() - 1] <= k);
            self.lemma_every_value_found(x);
            let i = choose|i: int| 0 <= i < self.elems().len() && self.elems()[i] == self.value(x);
            let a = w.last() as int;
            assert(self.right_cayley_graph@[i][a] is Some);
            let v = self.right_cayley_graph@[i][a].unwrap();
            assert(self.elems()[i] == self.elements@[i]@);
            assert(self.elems()[v as int] == self.elements@[v as int]@);
            assert(self.gens()[a - 1] == self.generators@[a - 1]@);
            assert(self.value(w) == T::product(self.value(x), self.gens()[a - 1]));
        }
    }

    /// Runs the enumeration; the enumeration handed back has every element of the
    /// semigroup, distinct, with its row of the right Cayley table filled in and right.
    pub fn build(self) -> (r: Result<Self, EnumerationError>)
        requires
            self.inv(),
        ensures
            r matches Ok(s) ==> {
                &&& s.inv()
                &&& s.complete()
                &&& s.gens() == self.gens()
                &&& s.elems().subrange(0, self.elems().len() as int) == self.elems()
            },
            r is Err ==> r == Err::<Self, EnumerationError>(EnumerationError::TooManyElements)
                && exceeds_tables::<T>(self.gens(), self.elems()[0], self.spec_has_identity()),
    {
        let mut this = self;
        match this.run() {
            Ok(()) => {
                proof {
                    assert(this.elems().subrange(0, self.elems().len() as int) =~= self.elems()) by {
                        assert forall|i: int| 0 <= i < self.elems().len() implies this.elements@[i] == self.elements@[i] by {
                            assert(this.elements@[i] == this.elements@.subrange(0, self.elements@.len() as int)[i]);
                        }
                    }
                }
                Ok(this)
            },
            Err(e) => {
                proof {
                    assert(self.elems()[0] == self.elements@[0]@);
                }
                Err(e)
            },
        }
    }

    /// The elements found.
    pub fn elements(&self) -> (r: &[T])
        ensures
            views(r@) == self.elems(),
    {
        self.elements.as_slice()
    }

    /// The generators the enumeration works with.
    pub fn generators(&self) -> (r: &[T])
        ensures
            views(r@) == self.gens(),
    {
        self.generators.as_slice()
    }

    /// The element that element `u` times generator `g` gives (`g == 0` stands for the
    /// identity).
    pub fn right_cayley(&self, u: usize, g: usize) -> (r: usize)
        requires
            self.inv(),
            self.complete(),
            u < self.elems().len(),
            g <= self.gens().len(),
        ensures
            self.right()[u as int][g as int] == Some(r),
            r < self.elems().len(),
            1 <= g ==> self.elems()[r as int] == T::product(self.elems()[u as int], self.gens()[g - 1]),
            g == 0 ==> r == u,
    {
        proof {
            assert(self.elems()[u as int] == self.elements@[u as int]@);
            if g >= 1 {
                assert(self.gens()[g - 1] == self.generators@[g - 1]@);
            }
        }
        let r = self.right_cayley_graph.get(u, g).unwrap();
        proof {
            assert(self.elems()[r as int] == self.elements@[r as int]@);
        }
        r
    }
}

} // verus!
