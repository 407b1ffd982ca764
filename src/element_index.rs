use std::collections::HashMap;

use vstd::prelude::*;

use crate::element::SemigroupElement;

verus! {

broadcast use vstd::std_specs::hash::group_hash_axioms;

/// Finds the position of an element in a list of elements, by value.
///
/// Positions are filed under the hash code of the element stored there; a lookup
/// compares the element sought with those filed under its hash code.
#[derive(Debug, Clone)]
pub struct ElementIndex {
    buckets: HashMap<u64, Vec<usize>>,
    count: usize,
}

impl ElementIndex {
    /// Every position of `es` is filed, under the hash code of its element, and every
    /// filed position lies in `es` under the right hash code; `count` positions in all.
    pub closed spec fn indexes<T: SemigroupElement>(&self, es: Seq<T>) -> bool {
        &&& self.count == es.len()
        &&& forall|h: u64, k: int|
            #![trigger self.buckets@[h]@[k]]
            self.buckets@.contains_key(h) && 0 <= k < self.buckets@[h]@.len() ==> {
                &&& self.buckets@[h]@[k] < es.len()
                &&& T::spec_hash(es[self.buckets@[h]@[k] as int]@) == h
            }
        &&& forall|i: int|
            0 <= i < es.len() ==> {
                &&& self.buckets@.contains_key(T::spec_hash(#[trigger] es[i]@))
                &&& self.buckets@[T::spec_hash(es[i]@)]@.contains(i as usize)
            }
    }

    /// The index of an empty list.
    pub fn new<T: SemigroupElement>() -> (r: Self)
        ensures
            r.indexes::<T>(Seq::empty()),
    {
        ElementIndex { buckets: HashMap::new(), count: 0 }
    }

    /// A position of `elements` that holds `x`, or `None` where no position does.
    pub fn find<T: SemigroupElement>(&self, elements: &Vec<T>, x: &T) -> (r: Option<usize>)
        requires
            self.indexes::<T>(elements@),
        ensures
            r matches Some(i) ==> i < elements@.len() && elements@[i as int]@ == x@,
            r is None ==> forall|i: int| 0 <= i < elements@.len() ==> elements@[i]@ != x@,
    {
        proof {
            T::lemma_eq_is_view_eq();
        }
        let h = x.hash_code();
        match self.buckets.get(&h) {
            None => {
                assert forall|i: int| 0 <= i < elements@.len() implies elements@[i]@ != x@ by {
                    assert(self.buckets@.contains_key(T::spec_hash(elements@[i]@)));
                }
                None
            },
            Some(bucket) => {
                let mut k: usize = 0;
                while k < bucket.len()
                    invariant
                        self.indexes::<T>(elements@),
                        self.buckets@.contains_key(h),
                        self.buckets@[h] == *bucket,
                        h == T::spec_hash(x@),
                        k <= bucket@.len(),
                        T::obeys_eq_spec(),
                        forall|a: T, b: T| a.eq_spec(&b) <==> a@ == b@,
                        forall|j: int| 0 <= j < k ==> elements@[bucket@[j] as int]@ != x@,
                    decreases bucket@.len() - k,
                {
                    let idx = bucket[k];
                    assert(self.buckets@[h]@[k as int] == idx);
                    if elements[idx] == *x {
                        return Some(idx);
                    }
                    k = k + 1;
                }
                assert forall|i: int| 0 <= i < elements@.len() implies elements@[i]@ != x@ by {
                    if elements@[i]@ == x@ {
                        assert(T::spec_hash(elements@[i]@) == h);
                        assert(self.buckets@.contains_key(T::spec_hash(elements@[i]@)));
                        assert(self.buckets@[h]@.contains(i as usize));
                        let j = choose|j: int| 0 <= j < bucket@.len() && bucket@[j] == i as usize;
                        assert(elements@[bucket@[j] as int]@ != x@);
                    }
                }
                None
            },
        }
    }

    /// Files the last position of `elements`, just appended.
    pub fn push<T: SemigroupElement>(&mut self, elements: &Vec<T>)
        requires
            elements@.len() >= 1,
            old(self).indexes::<T>(elements@.drop_last()),
        ensures
            final(self).indexes::<T>(elements@),
    {
        let n = elements.len() - 1;
        let h = elements[n].hash_code();
        let ghost before = self.buckets@;
        let mut bucket = match self.buckets.remove(&h) {
            Some(b) => b,
            None => Vec::new(),
        };
        let ghost old_bucket = bucket@;
        bucket.push(n);
        self.buckets.insert(h, bucket);
        self.count = self.count + 1;
        proof {
            let es = elements@;
            let prev = es.drop_last();
            assert forall|g: u64, k: int|
                #![trigger self.buckets@[g]@[k]]
                self.buckets@.contains_key(g) && 0 <= k < self.buckets@[g]@.len() implies {
                &&& self.buckets@[g]@[k] < es.len()
                &&& T::spec_hash(es[self.buckets@[g]@[k] as int]@) == g
            } by {
                if g == h {
                    if k < old_bucket.len() {
                        assert(before.contains_key(h));
                        assert(self.buckets@[g]@[k] == before[h]@[k]);
                        assert(es[before[h]@[k] as int] == prev[before[h]@[k] as int]);
                    }
                } else {
                    assert(self.buckets@[g] == before[g]);
                    assert(es[before[g]@[k] as int] == prev[before[g]@[k] as int]);
                }
            }
            assert forall|i: int| 0 <= i < es.len() implies {
                &&& self.buckets@.contains_key(T::spec_hash(#[trigger] es[i]@))
                &&& self.buckets@[T::spec_hash(es[i]@)]@.contains(i as usize)
            } by {
                if i < n {
                    assert(es[i] == prev[i]);
                    let g = T::spec_hash(es[i]@);
                    assert(before.contains_key(g));
                    assert(before[g]@.contains(i as usize));
                    if g == h {
                        let j = choose|j: int| 0 <= j < old_bucket.len() && old_bucket[j] == i as usize;
                        assert(self.buckets@[g]@[j] == i as usize);
                    } else {
                        assert(self.buckets@[g] == before[g]);
                    }
                } else {
                    assert(self.buckets@[h]@[old_bucket.len() as int] == n);
                }
            }
        }
    }
}

} // verus!
