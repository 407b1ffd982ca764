use vstd::prelude::*;

use crate::element::SemigroupElement;

verus! {

/// Why a transformation could not be built or used.
#[derive(Debug)]
pub enum TransformationError {
    /// The images do not describe a map from `0..degree` to itself.
    InvalidImage { degree: usize, image: Vec<usize> },
    /// The point lies outside `0..degree`.
    InvalidPoint { degree: usize, point: usize },
    /// The operation is only defined for transformations of equal degree.
    MismatchingDegree { degree1: usize, degree2: usize },
}

/// The images make a transformation of `0..s.len()`: each lies in that range.
pub open spec fn is_transformation(s: Seq<usize>) -> bool {
    forall|i: int| 0 <= i < s.len() ==> #[trigger] s[i] < s.len()
}

/// Applying `f` first and then `g`.
pub open spec fn compose(f: Seq<usize>, g: Seq<usize>) -> Seq<usize> {
    Seq::new(f.len(), |x: int| g[f[x] as int])
}

/// The identity transformation of `0..n`.
pub open spec fn identity_images(n: nat) -> Seq<usize> {
    Seq::new(n, |i: int| i as usize)
}

/// Every point is its own image.
pub open spec fn fixes_all(s: Seq<usize>) -> bool {
    forall|i: int| 0 <= i < s.len() ==> #[trigger] s[i] == i
}

pub const HASH_SEED: u64 = 14695981039346656037;

pub const HASH_FACTOR: u64 = 1099511628211;

/// A polynomial hash of the images, in wrapping 64-bit arithmetic.
pub open spec fn hash_images(s: Seq<usize>) -> u64
    decreases s.len(),
{
    if s.len() == 0 {
        HASH_SEED
    } else {
        vstd::wrapping::u64_specs::wrapping_add(
            vstd::wrapping::u64_specs::wrapping_mul(hash_images(s.drop_last()), HASH_FACTOR),
            s.last() as u64,
        )
    }
}

/// A transformation of the points `0..degree`, stored as the image of each point.
#[derive(Debug, Hash)]
pub struct Transformation {
    degree: usize,
    vals: Vec<usize>,
}

impl View for Transformation {
    type V = Seq<usize>;

    /// The image of each point, in order.
    closed spec fn view(&self) -> Seq<usize> {
        self.vals@
    }
}

impl Transformation {
    #[verifier::type_invariant]
    spec fn images_in_range(self) -> bool {
        &&& self.vals@.len() == self.degree
        &&& is_transformation(self.vals@)
    }

    /// The image of each point, in order.
    pub fn as_vec(&self) -> (r: &[usize])
        ensures
            r@ == self@,
    {
        self.vals.as_slice()
    }

    /// The transformation with the given images, or `InvalidImage` where there are not
    /// `degree` of them or one lies outside `0..degree`.
    pub fn from_vec(degree: usize, vals: Vec<usize>) -> (r: Result<Self, TransformationError>)
        ensures
            (vals@.len() == degree && is_transformation(vals@)) <==> r is Ok,
            r matches Ok(t) ==> t@ == vals@,
            r matches Err(e) ==> e matches TransformationError::InvalidImage { degree: d, image }
                && d == degree && image@ == vals@,
    {
        if vals.len() != degree {
            return Err(TransformationError::InvalidImage { degree, image: vals });
        }
        let mut i: usize = 0;
        while i < vals.len()
            invariant
                i <= vals@.len(),
                vals@.len() == degree,
                forall|j: int| 0 <= j < i ==> #[trigger] vals@[j] < degree,
            decreases vals@.len() - i,
        {
            if vals[i] >= degree {
                return Err(TransformationError::InvalidImage { degree, image: vals });
            }
            i = i + 1;
        }
        Ok(Transformation::from_vec_unchecked(degree, vals))
    }

    /// The transformation with the given images, which the caller has checked.
    pub(crate) fn from_vec_unchecked(degree: usize, vals: Vec<usize>) -> (r: Self)
        requires
            vals@.len() == degree,
            is_transformation(vals@),
        ensures
            r@ == vals@,
    {
        Self { degree, vals }
    }

    /// The identity transformation of the points `0..degree`.
    pub fn id(degree: usize) -> (r: Self)
        ensures
            r@ == identity_images(degree as nat),
    {
        let mut vals: Vec<usize> = Vec::with_capacity(degree);
        let mut i: usize = 0;
        while i < degree
            invariant
                i <= degree,
                vals@ == identity_images(i as nat),
            decreases degree - i,
        {
            vals.push(i);
            i = i + 1;
            assert(vals@ =~= identity_images(i as nat));
        }
        Self { degree, vals }
    }

    /// Whether every point is its own image.
    pub fn is_id(&self) -> (r: bool)
        ensures
            r == fixes_all(self@),
    {
        let mut i: usize = 0;
        while i < self.vals.len()
            invariant
                i <= self.vals@.len(),
                forall|j: int| 0 <= j < i ==> #[trigger] self.vals@[j] == j,
            decreases self.vals@.len() - i,
        {
            if self.vals[i] != i {
                return false;
            }
            i = i + 1;
        }
        true
    }

    /// The number of points; each image lies below it.
    pub fn degree(&self) -> (r: usize)
        ensures
            r == self@.len(),
            is_transformation(self@),
    {
        proof {
            use_type_invariant(self);
        }
        self.degree
    }

    /// The image of `x`, or `InvalidPoint` where `x` is not below the degree.
    pub fn apply(&self, x: usize) -> (r: Result<usize, TransformationError>)
        ensures
            x < self@.len() <==> r is Ok,
            r matches Ok(y) ==> y == self@[x as int],
            r matches Err(e) ==> e == (TransformationError::InvalidPoint {
                degree: self@.len() as usize,
                point: x,
            }),
    {
        proof {
            use_type_invariant(self);
        }
        if x < self.degree {
            Ok(self.vals[x])
        } else {
            Err(TransformationError::InvalidPoint { degree: self.degree, point: x })
        }
    }

    /// The composite that applies `self` first and then `other`, or `MismatchingDegree`
    /// where the degrees differ.
    pub fn multiply(&self, other: &Self) -> (r: Result<Self, TransformationError>)
        ensures
            self@.len() == other@.len() <==> r is Ok,
            r matches Ok(t) ==> t@ == compose(self@, other@),
            r matches Err(e) ==> e == (TransformationError::MismatchingDegree {
                degree1: self@.len() as usize,
                degree2: other@.len() as usize,
            }),
    {
        proof {
            use_type_invariant(self);
            use_type_invariant(other);
        }
        if self.degree == other.degree {
            let mut vals: Vec<usize> = Vec::with_capacity(self.degree);
            let mut x: usize = 0;
            while x < self.degree
                invariant
                    x <= self.degree,
                    self.vals@.len() == self.degree,
                    other.vals@.len() == self.degree,
                    is_transformation(self.vals@),
                    is_transformation(other.vals@),
                    vals@ == compose(self.vals@.subrange(0, x as int), other.vals@),
                decreases self.degree - x,
            {
                let y = self.vals[x];
                vals.push(other.vals[y]);
                x = x + 1;
                assert(vals@ =~= compose(self.vals@.subrange(0, x as int), other.vals@));
            }
            assert(self.vals@.subrange(0, x as int) =~= self.vals@);
            assert forall|i: int| 0 <= i < vals@.len() implies #[trigger] vals@[i] < vals@.len() by {
                assert(other.vals@[self.vals@[i] as int] < self.degree);
            }
            Ok(Transformation::from_vec_unchecked(self.degree, vals))
        } else {
            Err(TransformationError::MismatchingDegree { degree1: self.degree, degree2: other.degree })
        }
    }
}

impl PartialEq for Transformation {
    fn eq(&self, other: &Self) -> (r: bool)
        ensures
            r == (self@ == other@),
    {
        if self.vals.len() != other.vals.len() {
            return false;
        }
        let mut i: usize = 0;
        while i < self.vals.len()
            invariant
                i <= self.vals@.len(),
                self.vals@.len() == other.vals@.len(),
                forall|j: int| 0 <= j < i ==> self.vals@[j] == other.vals@[j],
            decreases self.vals@.len() - i,
        {
            if self.vals[i] != other.vals[i] {
                return false;
            }
            i = i + 1;
        }
        assert(self.vals@ =~= other.vals@);
        true
    }
}

impl vstd::std_specs::cmp::PartialEqSpecImpl for Transformation {
    open spec fn obeys_eq_spec() -> bool {
        true
    }

    open spec fn eq_spec(&self, other: &Self) -> bool {
        self@ == other@
    }
}

impl Eq for Transformation {

}

impl SemigroupElement for Transformation {
    open spec fn valid(v: Seq<usize>) -> bool {
        is_transformation(v)
    }

    open spec fn shape(v: Seq<usize>) -> nat {
        v.len()
    }

    open spec fn product(a: Seq<usize>, b: Seq<usize>) -> Seq<usize> {
        compose(a, b)
    }

    open spec fn spec_is_id(a: Seq<usize>) -> bool {
        fixes_all(a)
    }

    open spec fn spec_hash(a: Seq<usize>) -> u64 {
        hash_images(a)
    }

    proof fn lemma_eq_is_view_eq() {
    }

    proof fn lemma_product_closed(a: Seq<usize>, b: Seq<usize>) {
        assert forall|i: int| 0 <= i < compose(a, b).len() implies #[trigger] compose(a, b)[i]
            < compose(a, b).len() by {
            assert(b[a[i] as int] < b.len());
        }
    }

    proof fn lemma_associative(a: Seq<usize>, b: Seq<usize>, c: Seq<usize>) {
        assert forall|x: int| 0 <= x < a.len() implies #[trigger] compose(compose(a, b), c)[x]
            == compose(a, compose(b, c))[x] by {
            assert(a[x] < a.len());
        }
        assert(compose(compose(a, b), c) =~= compose(a, compose(b, c)));
    }

    proof fn lemma_identity(e: Seq<usize>, a: Seq<usize>) {
        assert forall|x: int| 0 <= x < a.len() implies #[trigger] compose(e, a)[x] == a[x] by {
        }
        assert forall|x: int| 0 <= x < a.len() implies #[trigger] compose(a, e)[x] == a[x] by {
            assert(a[x] < a.len());
        }
        assert(compose(e, a) =~= a);
        assert(compose(a, e) =~= a);
    }

    fn multiply(&self, other: &Self) -> (r: Self) {
        match Transformation::multiply(self, other) {
            Ok(t) => t,
            Err(_) => {
                assert(false);
                Transformation::id(0)
            },
        }
    }

    fn is_id(&self) -> (r: bool) {
        Transformation::is_id(self)
    }

    fn hash_code(&self) -> (r: u64) {
        let mut h: u64 = HASH_SEED;
        let mut i: usize = 0;
        while i < self.vals.len()
            invariant
                i <= self.vals@.len(),
                h == hash_images(self.vals@.subrange(0, i as int)),
            decreases self.vals@.len() - i,
        {
            let ghost prefix = self.vals@.subrange(0, i as int);
            h = h.wrapping_mul(HASH_FACTOR).wrapping_add(self.vals[i] as u64);
            i = i + 1;
            assert(self.vals@.subrange(0, i as int).drop_last() =~= prefix);
        }
        assert(self.vals@.subrange(0, i as int) =~= self.vals@);
        h
    }

    fn duplicate(&self) -> (r: Self) {
        proof {
            use_type_invariant(self);
        }
        let vals = self.vals.clone();
        assert(vals@ =~= self.vals@);
        Self { degree: self.degree, vals }
    }
}

} // verus!
