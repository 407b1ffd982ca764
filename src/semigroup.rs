use vstd::prelude::*;

use crate::element::{compatible, SemigroupElement};
use crate::transformation::{identity_images, Transformation, TransformationError};

verus! {

/// A semigroup given by a list of generators, and an identity where it is a monoid.
pub trait Semigroup<U: SemigroupElement> {
    /// The generators, as given.
    spec fn spec_generators(&self) -> Seq<U::V>;

    /// The identity, where the semigroup is declared a monoid.
    spec fn spec_identity(&self) -> Option<U::V>;

    /// The identity, if this semigroup has one.
    fn id(&self) -> (r: Option<U>)
        ensures
            r is Some <==> self.spec_identity() is Some,
            r matches Some(e) ==> self.spec_identity() == Some(e@),
    ;

    /// The generators of this semigroup.
    fn generators(&self) -> (r: &[U])
        ensures
            r@.len() == self.spec_generators().len(),
            forall|i: int| 0 <= i < r@.len() ==> (#[trigger] r@[i])@ == self.spec_generators()[i],
    ;
}

/// The generators multiply with each other, and a declared identity is an identity
/// that multiplies with them.
pub open spec fn well_formed<U: SemigroupElement>(
    generators: Seq<U::V>,
    identity: Option<U::V>,
) -> bool {
    &&& forall|i: int, j: int|
        0 <= i < generators.len() && 0 <= j < generators.len() ==> compatible::<U>(
            #[trigger] generators[i],
            #[trigger] generators[j],
        )
    &&& identity matches Some(e) ==> {
        &&& U::valid(e)
        &&& U::spec_is_id(e)
        &&& forall|i: int| 0 <= i < generators.len() ==> compatible::<U>(e, #[trigger] generators[i])
    }
}

/// A semigroup of transformations, all of one degree.
///
/// One with at least one generator is taken as a monoid, with the identity of its degree,
/// unless it was made `without_identity`.
#[derive(Debug)]
pub struct TransformationSemigroup {
    degree: usize,
    generators: Vec<Transformation>,
    monoid: bool,
}

impl TransformationSemigroup {
    #[verifier::type_invariant]
    spec fn generators_agree(self) -> bool {
        &&& self.generators@.len() == 0 ==> self.degree == 0
        &&& forall|j: int|
            0 <= j < self.generators@.len() ==> {
                &&& (#[trigger] self.generators@[j])@.len() == self.degree
                &&& crate::transformation::is_transformation(self.generators@[j]@)
            }
    }

    /// The semigroup generated by `gens`, or `MismatchingDegree` naming the degree of the
    /// first generator and that of the first one whose degree differs.
    pub fn new(gens: &[Transformation]) -> (r: Result<Self, TransformationError>)
        ensures
            r is Ok <==> forall|i: int| 0 <= i < gens@.len() ==> (#[trigger] gens@[i])@.len()
                == gens@[0]@.len(),
            r matches Ok(s) ==> {
                &&& s.spec_generators() == gens@.map_values(|g: Transformation| g@)
                &&& s.spec_identity() == if gens@.len() == 0 {
                    None
                } else {
                    Some(identity_images(gens@[0]@.len()))
                }
                &&& well_formed::<Transformation>(s.spec_generators(), s.spec_identity())
            },
            r matches Err(e) ==> exists|j: int|
                0 < j < gens@.len() && (#[trigger] gens@[j])@.len() != gens@[0]@.len() && (forall|
                    i: int,
                | 0 <= i < j ==> (#[trigger] gens@[i])@.len() == gens@[0]@.len()) && e == (
                TransformationError::MismatchingDegree {
                    degree1: gens@[0]@.len() as usize,
                    degree2: gens@[j]@.len() as usize,
                }),
    {
        let degree = if gens.len() > 0 {
            gens[0].degree()
        } else {
            0
        };
        let mut generators: Vec<Transformation> = Vec::with_capacity(gens.len());
        let mut i: usize = 0;
        while i < gens.len()
            invariant
                i <= gens@.len(),
                gens@.len() > 0 ==> degree == gens@[0]@.len(),
                generators@.len() == i,
                forall|j: int| 0 <= j < i ==> (#[trigger] gens@[j])@.len() == degree,
                forall|j: int| 0 <= j < i ==> (#[trigger] generators@[j])@ == gens@[j]@,
                forall|j: int|
                    0 <= j < i ==> crate::transformation::is_transformation(
                        #[trigger] generators@[j]@,
                    ),
            decreases gens@.len() - i,
        {
            let d = gens[i].degree();
            if d != degree {
                return Err(
                    TransformationError::MismatchingDegree { degree1: degree, degree2: d },
                );
            }
            let g = gens[i].duplicate();
            generators.push(g);
            i = i + 1;
        }
        let r = TransformationSemigroup { degree, generators, monoid: true };
        assert(r.spec_generators() =~= gens@.map_values(|g: Transformation| g@));
        proof {
            let id = identity_images(degree as nat);
            assert(crate::transformation::is_transformation(id));
            assert(crate::transformation::fixes_all(id));
        }
        Ok(r)
    }

    /// The same generators, with no identity declared.
    pub fn without_identity(self) -> (r: Self)
        ensures
            r.spec_generators() == self.spec_generators(),
            r.spec_identity() is None,
            well_formed::<Transformation>(self.spec_generators(), self.spec_identity())
                ==> well_formed::<Transformation>(r.spec_generators(), r.spec_identity()),
    {
        proof {
            use_type_invariant(&self);
        }
        TransformationSemigroup { degree: self.degree, generators: self.generators, monoid: false }
    }

    /// The degree of the transformations in this semigroup.
    pub fn degree(&self) -> (r: usize)
        ensures
            self.spec_generators().len() > 0 ==> r == self.spec_generators()[0].len(),
            self.spec_generators().len() == 0 ==> r == 0,
    {
        proof {
            use_type_invariant(self);
        }
        self.degree
    }
}

impl Semigroup<Transformation> for TransformationSemigroup {
    closed spec fn spec_generators(&self) -> Seq<Seq<usize>> {
        self.generators@.map_values(|g: Transformation| g@)
    }

    closed spec fn spec_identity(&self) -> Option<Seq<usize>> {
        if self.generators@.len() == 0 || !self.monoid {
            None
        } else {
            Some(identity_images(self.degree as nat))
        }
    }

    fn id(&self) -> (r: Option<Transformation>) {
        if self.generators.len() == 0 || !self.monoid {
            None
        } else {
            Some(Transformation::id(self.degree))
        }
    }

    fn generators(&self) -> (r: &[Transformation]) {
        self.generators.as_slice()
    }
}

} // verus!
