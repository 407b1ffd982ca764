use vstd::prelude::*;

use itertools::Itertools;

use crate::element::SemigroupElement;
use crate::element_index::ElementIndex;
use crate::semigroup::{well_formed, Semigroup};
use crate::vec2::Vec2;
use crate::word::{
    lemma_lex_prepend, lemma_lex_extend, lemma_lex_irreflexive, lemma_lex_last_letter, lemma_lex_push_inverse,
    lemma_lex_transitive, lemma_lex_trichotomy, lemma_shortlex_transitive, lex_lt, shortlex_lt, Word,
};

verus! {

/// The positions at which each distinct value of `s` first occurs, in order.
pub open spec fn first_positions<V>(s: Seq<V>) -> Seq<usize>
    decreases s.len(),
{
    if s.len() == 0 {
        Seq::empty()
    } else if s.drop_last().contains(s.last()) {
        first_positions(s.drop_last())
    } else {
        first_positions(s.drop_last()).push((s.len() - 1) as usize)
    }
}

/// The values of `s` at the positions `ps` that are not identities, in order.
pub open spec fn non_identities<T: SemigroupElement>(s: Seq<T::V>, ps: Seq<usize>) -> Seq<T::V>
    decreases ps.len(),
{
    if ps.len() == 0 {
        Seq::empty()
    } else {
        let r = non_identities::<T>(s, ps.drop_last());
        if T::spec_is_id(s[ps.last() as int]) {
            r
        } else {
            r.push(s[ps.last() as int])
        }
    }
}

/// The generators that the enumeration works with: the distinct non-identity ones,
/// in order of first occurrence.
pub open spec fn normalise<T: SemigroupElement>(s: Seq<T::V>) -> Seq<T::V> {
    non_identities::<T>(s, first_positions(s))
}

/// The views of a sequence of elements.
pub open spec fn views<T: View>(s: Seq<T>) -> Seq<T::V> {
    s.map_values(|x: T| x@)
}

/// Every letter of `w` names one of `k` generators, `1..=k`.
pub open spec fn is_word_over(w: Seq<usize>, k: nat) -> bool {
    forall|i: int| 0 <= i < w.len() ==> 1 <= #[trigger] w[i] <= k
}

/// The value of a word: the product of its letters, with letter `g` standing for
/// `gens[g - 1]`; the empty word stands for `identity`.
pub open spec fn evaluate<T: SemigroupElement>(
    gens: Seq<T::V>,
    identity: T::V,
    w: Seq<usize>,
) -> T::V
    decreases w.len(),
{
    if w.len() == 0 {
        identity
    } else if w.len() == 1 {
        gens[w[0] - 1]
    } else {
        T::product(evaluate::<T>(gens, identity, w.drop_last()), gens[w.last() - 1])
    }
}

/// All of `s` is valid and of shape `shape`.
pub open spec fn all_of_shape<T: SemigroupElement>(s: Seq<T::V>, shape: nat) -> bool {
    forall|i: int| 0 <= i < s.len() ==> T::valid(#[trigger] s[i]) && T::shape(s[i]) == shape
}

/// The values of a word are valid and of the generators' shape.
pub proof fn lemma_evaluate_valid<T: SemigroupElement>(
    gens: Seq<T::V>,
    identity: T::V,
    w: Seq<usize>,
    shape: nat,
)
    requires
        all_of_shape::<T>(gens, shape),
        is_word_over(w, gens.len()),
        T::valid(identity),
        T::shape(identity) == shape,
    ensures
        T::valid(evaluate::<T>(gens, identity, w)),
        T::shape(evaluate::<T>(gens, identity, w)) == shape,
    decreases w.len(),
{
    if w.len() >= 2 {
        lemma_evaluate_valid::<T>(gens, identity, w.drop_last(), shape);
        T::lemma_product_closed(evaluate::<T>(gens, identity, w.drop_last()), gens[w.last() - 1]);
    } else if w.len() == 1 {
        assert(1 <= w[0] <= gens.len());
    }
}

/// Appending a letter multiplies the value by that generator on the right.
pub proof fn lemma_evaluate_push<T: SemigroupElement>(
    gens: Seq<T::V>,
    identity: T::V,
    w: Seq<usize>,
    g: usize,
    shape: nat,
)
    requires
        all_of_shape::<T>(gens, shape),
        is_word_over(w, gens.len()),
        1 <= g <= gens.len(),
        T::valid(identity),
        T::shape(identity) == shape,
        w.len() == 0 ==> T::spec_is_id(identity),
    ensures
        evaluate::<T>(gens, identity, w.push(g)) == T::product(
            evaluate::<T>(gens, identity, w),
            gens[g - 1],
        ),
{
    assert(w.push(g).drop_last() =~= w);
    if w.len() == 0 {
        T::lemma_identity(identity, gens[g - 1]);
    }
}

/// Prepending a letter multiplies the value by that generator on the left.
pub proof fn lemma_evaluate_prepend<T: SemigroupElement>(
    gens: Seq<T::V>,
    identity: T::V,
    f: usize,
    w: Seq<usize>,
    shape: nat,
)
    requires
        all_of_shape::<T>(gens, shape),
        is_word_over(w, gens.len()),
        1 <= f <= gens.len(),
        T::valid(identity),
        T::shape(identity) == shape,
        w.len() == 0 ==> T::spec_is_id(identity),
    ensures
        evaluate::<T>(gens, identity, seq![f] + w) == T::product(
            gens[f - 1],
            evaluate::<T>(gens, identity, w),
        ),
    decreases w.len(),
{
    let fw = seq![f] + w;
    if w.len() > 0 {
        assert(fw.last() == w.last());
    }
    if w.len() == 0 {
        assert(fw =~= seq![f]);
        T::lemma_identity(identity, gens[f - 1]);
    } else if w.len() == 1 {
        assert(fw.drop_last() =~= seq![f]);
        assert(1 <= w[0] <= gens.len());
        assert(fw.len() == 2);
        assert(evaluate::<T>(gens, identity, fw) == T::product(
            evaluate::<T>(gens, identity, fw.drop_last()),
            gens[fw.last() - 1],
        ));
        assert(seq![f][0] == f);
        assert(evaluate::<T>(gens, identity, seq![f]) == gens[f - 1]);
    } else {
        let w0 = w.drop_last();
        assert(fw.drop_last() =~= seq![f] + w0);
        assert(evaluate::<T>(gens, identity, fw) == T::product(
            evaluate::<T>(gens, identity, fw.drop_last()),
            gens[fw.last() - 1],
        ));
        assert(is_word_over(w0, gens.len()));
        lemma_evaluate_prepend::<T>(gens, identity, f, w0, shape);
        lemma_evaluate_valid::<T>(gens, identity, w0, shape);
        assert(1 <= w.last() <= gens.len());
        T::lemma_associative(gens[f - 1], evaluate::<T>(gens, identity, w0), gens[w.last() - 1]);
    }
}

/// The positions of first occurrences are increasing, and the values there distinct.
pub proof fn lemma_first_positions<V>(s: Seq<V>)
    requires
        s.len() <= usize::MAX,
    ensures
        forall|a: int| 0 <= a < first_positions(s).len() ==> #[trigger] first_positions(s)[a] < s.len(),
        forall|a: int, b: int|
            0 <= a < b < first_positions(s).len() ==> #[trigger] s[first_positions(s)[a] as int]
                != #[trigger] s[first_positions(s)[b] as int],
    decreases s.len(),
{
    if s.len() > 0 {
        let t = s.drop_last();
        lemma_first_positions(t);
        let fp = first_positions(s);
        let ft = first_positions(t);
        assert forall|a: int| 0 <= a < ft.len() implies s[#[trigger] ft[a] as int] == t[ft[a] as int] by {
        }
        if !t.contains(s.last()) {
            assert(fp == ft.push((s.len() - 1) as usize));
            assert forall|a: int, b: int|
                0 <= a < b < fp.len() implies #[trigger] s[fp[a] as int] != #[trigger] s[fp[b] as int] by {
                assert(fp[a] == ft[a]);
                assert(ft[a] < t.len());
                assert(s[fp[a] as int] == t[ft[a] as int]);
                if b == fp.len() - 1 {
                    assert(fp[b] == s.len() - 1);
                    assert(s[fp[b] as int] == s.last());
                    if s[fp[a] as int] == s.last() {
                        assert(t[ft[a] as int] == s.last());
                        assert(t.contains(s.last()));
                    }
                } else {
                    assert(fp[b] == ft[b]);
                    assert(s[fp[b] as int] == t[ft[b] as int]);
                }
            }
        } else {
            assert(fp == ft);
            assert forall|a: int, b: int|
                0 <= a < b < fp.len() implies #[trigger] s[fp[a] as int] != #[trigger] s[fp[b] as int] by {
                assert(ft[a] < t.len());
                assert(ft[b] < t.len());
                assert(s[fp[a] as int] == t[ft[a] as int]);
                assert(s[fp[b] as int] == t[ft[b] as int]);
            }
        }
    }
}

/// Keeping the non-identities among values at distinct positions gives distinct
/// non-identities of the same shape.
pub proof fn lemma_non_identities<T: SemigroupElement>(s: Seq<T::V>, ps: Seq<usize>, shape: nat)
    requires
        all_of_shape::<T>(s, shape),
        forall|a: int| 0 <= a < ps.len() ==> #[trigger] ps[a] < s.len(),
        forall|a: int, b: int|
            0 <= a < b < ps.len() ==> #[trigger] s[ps[a] as int] != #[trigger] s[ps[b] as int],
    ensures
        all_of_shape::<T>(non_identities::<T>(s, ps), shape),
        forall|a: int|
            0 <= a < non_identities::<T>(s, ps).len() ==> !T::spec_is_id(
                #[trigger] non_identities::<T>(s, ps)[a],
            ),
        forall|a: int, b: int|
            0 <= a < b < non_identities::<T>(s, ps).len() ==> #[trigger] non_identities::<T>(
                s,
                ps,
            )[a] != #[trigger] non_identities::<T>(s, ps)[b],
        forall|a: int|
            0 <= a < non_identities::<T>(s, ps).len() ==> exists|j: int|
                0 <= j < ps.len() && #[trigger] non_identities::<T>(s, ps)[a] == s[ps[j] as int],
    decreases ps.len(),
{
    if ps.len() > 0 {
        let q = ps.drop_last();
        lemma_non_identities::<T>(s, q, shape);
        let r = non_identities::<T>(s, q);
        let x = s[ps.last() as int];
        assert forall|a: int| 0 <= a < r.len() implies exists|j: int|
            0 <= j < ps.len() && #[trigger] r[a] == s[ps[j] as int] by {
            let j = choose|j: int| 0 <= j < q.len() && r[a] == s[q[j] as int];
            assert(ps[j] == q[j]);
        }
        if !T::spec_is_id(x) {
            let rx = r.push(x);
            assert forall|a: int, b: int| 0 <= a < b < rx.len() implies #[trigger] rx[a] != #[trigger] rx[b] by {
                if b == rx.len() - 1 {
                    let j = choose|j: int| 0 <= j < q.len() && r[a] == s[q[j] as int];
                    assert(ps[j] == q[j]);
                    assert(s[ps[j] as int] != s[ps[ps.len() - 1] as int]);
                }
            }
            assert forall|a: int| 0 <= a < rx.len() implies exists|j: int|
                0 <= j < ps.len() && #[trigger] rx[a] == s[ps[j] as int] by {
                if a == rx.len() - 1 {
                    assert(rx[a] == s[ps[ps.len() - 1] as int]);
                } else {
                    assert(rx[a] == r[a]);
                }
            }
        }
    }
}

/// A sequence of distinct values, each of which occurs in `s`, is no longer than `s`.
pub proof fn lemma_distinct_in<V>(a: Seq<V>, s: Seq<V>)
    requires
        forall|i: int, j: int| 0 <= i < j < a.len() ==> #[trigger] a[i] != #[trigger] a[j],
        forall|i: int| 0 <= i < a.len() ==> exists|j: int| 0 <= j < s.len() && #[trigger] a[i] == s[j],
    ensures
        a.len() <= s.len(),
{
    let f = |i: int| choose|j: int| 0 <= j < s.len() && a[i] == s[j];
    let dom = Set::new(|i: int| 0 <= i < a.len());
    let img = dom.map(f);
    assert(dom =~= vstd::set_lib::set_int_range(0, a.len() as int));
    vstd::set_lib::lemma_int_range(0, a.len() as int);
    assert forall|x: int, y: int| dom.contains(x) && dom.contains(y) && #[trigger] f(x) == #[trigger] f(y) implies x == y by {
        if x != y {
            if x < y {
                assert(a[x] != a[y]);
            } else {
                assert(a[y] != a[x]);
            }
        }
    }
    assert(vstd::relations::injective_on(f, dom));
    vstd::set_lib::lemma_map_size(dom, img, f);
    assert forall|y: int| img.contains(y) implies vstd::set_lib::set_int_range(0, s.len() as int).contains(y) by {
        let x = choose|x: int| dom.contains(x) && f(x) == y;
        assert(exists|j: int| 0 <= j < s.len() && a[x] == s[j]);
    }
    assert(img.subset_of(vstd::set_lib::set_int_range(0, s.len() as int)));
    vstd::set_lib::lemma_int_range(0, s.len() as int);
    vstd::set_lib::lemma_len_subset(img, vstd::set_lib::set_int_range(0, s.len() as int));
}

/// Where the values of `s` are distinct, each first occurs at its own position.
proof fn lemma_first_positions_distinct<V>(s: Seq<V>)
    requires
        s.len() <= usize::MAX,
        forall|a: int, b: int| 0 <= a < b < s.len() ==> s[a] != s[b],
    ensures
        first_positions(s) == Seq::new(s.len(), |i: int| i as usize),
    decreases s.len(),
{
    if s.len() > 0 {
        let t = s.drop_last();
        lemma_first_positions_distinct(t);
        if t.contains(s.last()) {
            let j = choose|j: int| 0 <= j < t.len() && t[j] == s.last();
            assert(s[j] == s[s.len() - 1]);
        }
        assert(first_positions(s) =~= Seq::new(s.len(), |i: int| i as usize));
    } else {
        assert(first_positions(s) =~= Seq::new(s.len(), |i: int| i as usize));
    }
}

/// Keeping the non-identities at positions `0..m` of a sequence without identities keeps
/// all of its first `m` values.
proof fn lemma_non_identities_all<T: SemigroupElement>(s: Seq<T::V>, m: int)
    requires
        0 <= m <= s.len(),
        s.len() <= usize::MAX,
        forall|g: int| 0 <= g < s.len() ==> !T::spec_is_id(#[trigger] s[g]),
    ensures
        non_identities::<T>(s, Seq::new(m as nat, |i: int| i as usize)) == s.subrange(0, m),
    decreases m,
{
    let ps = Seq::new(m as nat, |i: int| i as usize);
    if m > 0 {
        assert(ps.drop_last() =~= Seq::new((m - 1) as nat, |i: int| i as usize));
        lemma_non_identities_all::<T>(s, m - 1);
        assert(ps.last() == (m - 1) as usize);
        assert(s.subrange(0, m) =~= s.subrange(0, m - 1).push(s[m - 1]));
    } else {
        assert(non_identities::<T>(s, ps) =~= s.subrange(0, m));
    }
}

/// Normalising a sequence of distinct non-identities changes nothing.
pub proof fn lemma_normalise_fixed<T: SemigroupElement>(s: Seq<T::V>)
    requires
        forall|a: int, b: int| 0 <= a < b < s.len() ==> s[a] != s[b],
        forall|g: int| 0 <= g < s.len() ==> !T::spec_is_id(#[trigger] s[g]),
        s.len() <= usize::MAX,
    ensures
        normalise::<T>(s) == s,
{
    lemma_first_positions_distinct(s);
    lemma_non_identities_all::<T>(s, s.len() as int);
    assert(s.subrange(0, s.len() as int) =~= s);
}

/// Two lists, each strictly increasing in shortlex order, that hold the same words are the
/// same list.
pub proof fn lemma_sorted_lists_equal(a: Seq<Seq<usize>>, b: Seq<Seq<usize>>)
    requires
        forall|i: int, j: int| 0 <= i < j < a.len() ==> shortlex_lt(#[trigger] a[i], #[trigger] a[j]),
        forall|i: int, j: int| 0 <= i < j < b.len() ==> shortlex_lt(#[trigger] b[i], #[trigger] b[j]),
        forall|i: int| 0 <= i < a.len() ==> b.contains(#[trigger] a[i]),
        forall|j: int| 0 <= j < b.len() ==> a.contains(#[trigger] b[j]),
    ensures
        a == b,
    decreases a.len() + b.len(),
{
    if a.len() == 0 {
        if b.len() > 0 {
            assert(a.contains(b[0]));
        }
        assert(a =~= b);
    } else if b.len() == 0 {
        assert(b.contains(a[0]));
    } else {
        let x = a.last();
        let y = b.last();
        assert(b.contains(x));
        assert(a.contains(y));
        let jx = choose|j: int| 0 <= j < b.len() && b[j] == x;
        let iy = choose|i: int| 0 <= i < a.len() && a[i] == y;
        if x != y {
            if jx < b.len() - 1 {
                assert(shortlex_lt(x, y));
            }
            if iy < a.len() - 1 {
                assert(shortlex_lt(y, x));
            }
            if jx < b.len() - 1 && iy < a.len() - 1 {
                lemma_shortlex_transitive(x, y, x);
                lemma_lex_irreflexive(x);
            }
        }
        assert(x == y);
        let a2 = a.drop_last();
        let b2 = b.drop_last();
        assert forall|i: int| 0 <= i < a2.len() implies b2.contains(#[trigger] a2[i]) by {
            assert(b.contains(a[i]));
            let j = choose|j: int| 0 <= j < b.len() && b[j] == a[i];
            assert(shortlex_lt(a[i], x));
            if j == b.len() - 1 {
                lemma_lex_irreflexive(x);
            }
            assert(b2[j] == a2[i]);
        }
        assert forall|j: int| 0 <= j < b2.len() implies a2.contains(#[trigger] b2[j]) by {
            assert(a.contains(b[j]));
            let i = choose|i: int| 0 <= i < a.len() && a[i] == b[j];
            assert(shortlex_lt(b[j], y));
            if i == a.len() - 1 {
                lemma_lex_irreflexive(y);
            }
            assert(a2[i] == b2[j]);
        }
        lemma_sorted_lists_equal(a2, b2);
        assert(a =~= a2.push(x));
        assert(b =~= b2.push(y));
    }
}

/// Relies on itertools' `Itertools::unique_by`: it yields, in order, each item whose key
/// has not been produced before. The key is the element, compared with `==` (equality of
/// views) and hashed consistently with it, so the positions kept are those where each
/// distinct element first occurs.
#[verifier::external_body]
fn first_occurrences<T: SemigroupElement>(items: &[T]) -> (r: Vec<usize>)
    ensures
        r@ == first_positions(views(items@)),
{
    items.iter().enumerate().unique_by(|(_, x)| *x).map(|(i, _)| i).collect()
}

/// The position of the first generator: after the identity, if there is one.
pub open spec fn offset_of(has_identity: bool) -> int {
    if has_identity {
        1
    } else {
        0
    }
}

/// The generators and elements are valid, of one shape, the elements distinct, an
/// identity first where there is one, and the generators next, each with its letter as
/// its word.
#[verifier::opaque]
spec fn elements_ok<T: SemigroupElement>(
    gens: Seq<T>,
    elements: Seq<T>,
    words: Seq<Seq<usize>>,
    has_identity: bool,
    shape: nat,
) -> bool {
    let n = elements.len();
    let o = offset_of(has_identity);
    &&& all_of_shape::<T>(views(gens), shape)
    &&& all_of_shape::<T>(views(elements), shape)
    &&& forall|g: int| 0 <= g < gens.len() ==> !T::spec_is_id(#[trigger] gens[g]@)
    &&& forall|i: int, j: int|
        0 <= i < n && 0 <= j < n && i != j ==> #[trigger] elements[i]@ != #[trigger] elements[j]@
    &&& has_identity ==> n >= 1 && T::spec_is_id(elements[0]@)
    &&& n >= o + gens.len()
    &&& forall|i: int|
        o <= i < o + gens.len() ==> #[trigger] words[i] == seq![(i - o + 1) as usize]
}

/// Each element is the value of its word; `first`, `last` and `length` describe the
/// word, `prefix` names the element of the word without its last letter, `suffix` one
/// that the first letter turns into this element; the words increase in shortlex order.
#[verifier::opaque]
spec fn words_ok<T: SemigroupElement>(
    gens: Seq<T>,
    elements: Seq<T>,
    words: Seq<Seq<usize>>,
    first: Seq<usize>,
    last: Seq<usize>,
    prefix: Seq<Option<usize>>,
    suffix: Seq<Option<usize>>,
    length: Seq<usize>,
    has_identity: bool,
) -> bool {
    let n = elements.len();
    let k = gens.len();
    &&& forall|i: int|
        0 <= i < n ==> {
            &&& is_word_over(#[trigger] words[i], k)
            &&& length[i] == words[i].len()
            &&& words[i].len() <= i + 1
            &&& elements[i]@ == evaluate::<T>(views(gens), elements[0]@, words[i])
            &&& (words[i].len() == 0 <==> (has_identity && i == 0))
        }
    &&& forall|i: int|
        0 <= i < n && #[trigger] words[i].len() >= 1 ==> {
            &&& first[i] == words[i][0]
            &&& last[i] == words[i].last()
        }
    &&& forall|i: int|
        0 <= i < n && #[trigger] words[i].len() >= 2 ==> {
            &&& prefix[i] matches Some(p) && p < i && words[p as int] == words[i].drop_last()
            &&& suffix[i] matches Some(s) && s < i && words[s as int].len() + 1 == words[i].len()
                && words[s as int] == words[i].drop_first() && elements[s as int]@ == evaluate::<T>(
                views(gens),
                elements[0]@,
                words[i].drop_first(),
            ) && elements[i]@ == T::product(gens[first[i] - 1]@, elements[s as int]@)
        }
    &&& forall|i: int|
        0 <= i < n && #[trigger] words[i].len() == 1 ==> {
            &&& prefix[i] == (if has_identity {
                Some(0usize)
            } else {
                None
            })
            &&& suffix[i] == prefix[i]
        }
    &&& forall|i: int|
        0 <= i < n && #[trigger] words[i].len() == 0 ==> prefix[i] is None && suffix[i] is None
    &&& forall|i: int, j: int| 0 <= i < j < n ==> shortlex_lt(#[trigger] words[i], #[trigger] words[j])
}

/// A word that stands for an element: letters naming generators, and not empty unless
/// there is an identity for the empty word to stand for.
pub open spec fn is_value_word(w: Seq<usize>, k: nat, has_identity: bool) -> bool {
    is_word_over(w, k) && (w.len() > 0 || has_identity)
}

/// The recorded word of an element is the least word of its value in shortlex order.
#[verifier::opaque]
spec fn minimal_ok<T: SemigroupElement>(
    gens: Seq<T>,
    elements: Seq<T>,
    words: Seq<Seq<usize>>,
    has_identity: bool,
) -> bool {
    forall|i: int, w: Seq<usize>|
        #![trigger elements[i], evaluate::<T>(views(gens), elements[0]@, w)]
        0 <= i < elements.len() && is_value_word(w, gens.len(), has_identity) && evaluate::<T>(
            views(gens),
            elements[0]@,
            w,
        ) == elements[i]@ ==> words[i] == w || shortlex_lt(words[i], w)
}

/// The value of every word of at most `len` letters is among the elements.
#[verifier::opaque]
spec fn covered_upto<T: SemigroupElement>(
    gens: Seq<T>,
    elements: Seq<T>,
    has_identity: bool,
    len: nat,
) -> bool {
    forall|w: Seq<usize>|
        #![trigger evaluate::<T>(views(gens), elements[0]@, w)]
        is_value_word(w, gens.len(), has_identity) && w.len() <= len ==> exists|i: int|
            0 <= i < elements.len() && #[trigger] elements[i]@ == evaluate::<T>(
                views(gens),
                elements[0]@,
                w,
            )
}

/// The words of `ws` stand for elements, pairwise distinct.
pub open spec fn distinct_value_words<T: SemigroupElement>(
    gens: Seq<T::V>,
    identity: T::V,
    has_identity: bool,
    ws: Seq<Seq<usize>>,
) -> bool {
    &&& forall|i: int| 0 <= i < ws.len() ==> is_value_word(#[trigger] ws[i], gens.len(), has_identity)
    &&& forall|i: int, j: int|
        0 <= i < j < ws.len() ==> evaluate::<T>(gens, identity, #[trigger] ws[i])
            != evaluate::<T>(gens, identity, #[trigger] ws[j])
}

/// The generators give more distinct elements than tables of `k + 1` columns can hold in
/// the address space.
pub open spec fn exceeds_tables<T: SemigroupElement>(
    gens: Seq<T::V>,
    identity: T::V,
    has_identity: bool,
) -> bool {
    exists|ws: Seq<Seq<usize>>|
        #[trigger] distinct_value_words::<T>(gens, identity, has_identity, ws) && ws.len() * (
        gens.len() + 1) > usize::MAX
}

/// Every filled entry of the right table names the product of its row's element and
/// its column's generator, every filled entry of the left table the product the other
/// way round; column 0 stands for the identity.
#[verifier::opaque]
spec fn tables_ok<T: SemigroupElement>(
    gens: Seq<T>,
    elements: Seq<T>,
    right: Seq<Seq<Option<usize>>>,
    left: Seq<Seq<Option<usize>>>,
) -> bool {
    let n = elements.len();
    let k = gens.len();
    &&& forall|u: int, g: int|
        0 <= u < n && 1 <= g <= k ==> (#[trigger] right[u][g] matches Some(v) ==> v < n
            && elements[v as int]@ == T::product(elements[u]@, gens[g - 1]@))
    &&& forall|u: int, g: int|
        0 <= u < n && 1 <= g <= k ==> (#[trigger] left[u][g] matches Some(v) ==> v < n
            && elements[v as int]@ == T::product(gens[g - 1]@, elements[u]@))
    &&& forall|u: int| 0 <= u < n ==> #[trigger] right[u][0] == Some(u as usize)
    &&& forall|u: int| 0 <= u < n ==> #[trigger] left[u][0] == Some(u as usize)
}

/// Each rule equates the values of two words over the generators, the left one longer
/// or, at equal length, later in lexicographic order.
#[verifier::opaque]
spec fn rules_ok<T: SemigroupElement>(
    gens: Seq<T>,
    elements: Seq<T>,
    rules: Seq<(Seq<usize>, Seq<usize>)>,
    has_identity: bool,
) -> bool {
    &&& (rules.len() == 0 || elements.len() > 0)
    &&& forall|r: int|
        0 <= r < rules.len() ==> {
            let (lhs, rhs) = #[trigger] rules[r];
            &&& is_word_over(lhs, gens.len())
            &&& is_word_over(rhs, gens.len())
            &&& lhs.len() >= 1
            &&& (rhs.len() == 0 ==> has_identity)
            &&& evaluate::<T>(views(gens), elements[0]@, lhs) == evaluate::<T>(
                views(gens),
                elements[0]@,
                rhs,
            )
            &&& shortlex_lt(rhs, lhs)
        }
}

/// The rule found at element `x.0` and generator `x.1` was found before element `u` and
/// generator `g`: the pass over elements in order, each with generators in order.
pub open spec fn found_before(x: (usize, usize, usize), u: int, g: int) -> bool {
    x.0 < u || (x.0 == u && x.1 < g)
}

/// Rule `r` was found at element `u` and generator `g`, whose product is element `v`: its
/// left word is the word of `u` followed by `g`, its right word the word of `v`.
#[verifier::opaque]
spec fn sources_ok<T: SemigroupElement>(
    gens: Seq<T>,
    elements: Seq<T>,
    words: Seq<Seq<usize>>,
    rules: Seq<(Seq<usize>, Seq<usize>)>,
    sources: Seq<(usize, usize, usize)>,
) -> bool {
    &&& sources.len() == rules.len()
    &&& forall|r: int|
        0 <= r < rules.len() ==> {
            let (u, g, v) = #[trigger] sources[r];
            &&& u < elements.len()
            &&& 1 <= g <= gens.len()
            &&& v < elements.len()
            &&& rules[r].0 == words[u as int].push(g)
            &&& rules[r].1 == words[v as int]
            &&& elements[v as int]@ == T::product(elements[u as int]@, gens[g - 1]@)
        }
    &&& forall|r1: int, r2: int|
        0 <= r1 < r2 < sources.len() ==> found_before(
            #[trigger] sources[r1],
            (#[trigger] sources[r2]).0 as int,
            sources[r2].1 as int,
        )
}

/// The word of every element of two or more letters is marked as new in `reduced`, at
/// its prefix and its last letter.
#[verifier::opaque]
spec fn reduced_ok(
    words: Seq<Seq<usize>>,
    prefix: Seq<Option<usize>>,
    last: Seq<usize>,
    reduced: Seq<Seq<bool>>,
) -> bool {
    forall|t: int|
        0 <= t < words.len() && (#[trigger] words[t]).len() >= 2 ==> (prefix[t] matches Some(p)
            && reduced[p as int][last[t] as int])
}

/// Why an enumeration stopped without a result.
#[derive(Debug, Clone, Copy, PartialEq, Eq)]
pub enum EnumerationError {
    /// The tables would outgrow the address space.
    TooManyElements,
}

/// The word at position `pos`, spelled out along `prefix` from its last letters.
fn spell_word(
    prefix: &Vec<Option<usize>>,
    last: &Vec<usize>,
    length: &Vec<usize>,
    pos: usize,
    Ghost(words): Ghost<Seq<Seq<usize>>>,
) -> (r: Word<usize>)
    requires
        pos < words.len(),
        prefix@.len() == words.len(),
        last@.len() == words.len(),
        length@.len() == words.len(),
        forall|i: int| 0 <= i < words.len() ==> length@[i] == (#[trigger] words[i]).len(),
        forall|i: int|
            0 <= i < words.len() && (#[trigger] words[i]).len() >= 1 ==> last@[i] == words[i].last(),
        forall|i: int|
            0 <= i < words.len() && (#[trigger] words[i]).len() >= 2 ==> (prefix@[i] matches Some(p)
                && p < i && words[p as int] == words[i].drop_last()),
    ensures
        r@ == words[pos as int],
{
    let len = length[pos];
    let ghost w = words[pos as int];
    let mut rev: Vec<usize> = Vec::new();
    let mut cur = pos;
    let mut j = len;
    while j > 0
        invariant
            pos < words.len(),
            prefix@.len() == words.len(),
            last@.len() == words.len(),
            length@.len() == words.len(),
            forall|i: int| 0 <= i < words.len() ==> length@[i] == (#[trigger] words[i]).len(),
            forall|i: int|
                0 <= i < words.len() && (#[trigger] words[i]).len() >= 1 ==> last@[i]
                    == words[i].last(),
            forall|i: int|
                0 <= i < words.len() && (#[trigger] words[i]).len() >= 2 ==> (prefix@[i] matches Some(
                    p,
                ) && p < i && words[p as int] == words[i].drop_last()),
            j <= len,
            len == w.len(),
            w == words[pos as int],
            cur < words.len(),
            j >= 1 ==> words[cur as int] == w.subrange(0, j as int),
            rev@.len() == len - j,
            forall|t: int| 0 <= t < len - j ==> #[trigger] rev@[t] == w[len - 1 - t],
        decreases j,
    {
        assert(words[cur as int].len() == j);
        rev.push(last[cur]);
        if j >= 2 {
            cur = prefix[cur].unwrap();
            assert(words[cur as int] =~= w.subrange(0, j - 1));
        }
        j = j - 1;
    }
    let mut out: Vec<usize> = Vec::new();
    let mut i: usize = 0;
    while i < len
        invariant
            i <= len,
            len == w.len(),
            rev@.len() == len,
            forall|t: int| 0 <= t < len ==> #[trigger] rev@[t] == w[len - 1 - t],
            out@ == w.subrange(0, i as int),
        decreases len - i,
    {
        out.push(rev[len - 1 - i]);
        i = i + 1;
        assert(out@ =~= w.subrange(0, i as int));
    }
    assert(w.subrange(0, len as int) =~= w);
    Word::from_vec(out)
}

/// The outcome of an enumeration: the generators it worked with, the elements in
/// shortlex order of their words, the index from element to position, the rewrite rules,
/// both Cayley tables, and the bookkeeping that spells out each element's word.
pub struct FroidurePinResult<T: SemigroupElement> {
    generators: Vec<T>,
    has_identity: bool,
    elements: Vec<T>,
    element_map: ElementIndex,
    rewrite_rules: Vec<(Word<usize>, Word<usize>)>,
    left_cayley_graph: Vec2<Option<usize>>,
    right_cayley_graph: Vec2<Option<usize>>,
    prefix: Vec<Option<usize>>,
    last: Vec<usize>,
    suffix: Vec<Option<usize>>,
    first: Vec<usize>,
    length: Vec<usize>,
    words: Ghost<Seq<Seq<usize>>>,
    shape: Ghost<nat>,
    rule_sources: Ghost<Seq<(usize, usize, usize)>>,
}

impl<T: SemigroupElement> FroidurePinResult<T> {
    /// The generators, as views.
    pub closed spec fn gens(&self) -> Seq<T::V> {
        views(self.generators@)
    }

    /// The elements, as views.
    pub closed spec fn elems(&self) -> Seq<T::V> {
        views(self.elements@)
    }

    /// Whether an identity sits at position 0.
    pub closed spec fn spec_has_identity(&self) -> bool {
        self.has_identity
    }

    /// The generator with letter `g`, for `g` in `1..=k`.
    pub open spec fn generator(&self, g: int) -> T::V {
        self.gens()[g - 1]
    }

    /// The value of a word over the generators.
    pub open spec fn value(&self, w: Seq<usize>) -> T::V {
        evaluate::<T>(self.gens(), self.elems()[0], w)
    }

    /// The shortlex word of element `i`.
    pub closed spec fn word(&self, i: int) -> Seq<usize> {
        self.words@[i]
    }

    /// The right Cayley table: row per element, column per generator (0 for the identity).
    pub closed spec fn right(&self) -> Seq<Seq<Option<usize>>> {
        self.right_cayley_graph@
    }

    /// The left Cayley table, laid out as the right one.
    pub closed spec fn left(&self) -> Seq<Seq<Option<usize>>> {
        self.left_cayley_graph@
    }

    /// The rewrite rules, as pairs of words.
    pub closed spec fn rules(&self) -> Seq<(Seq<usize>, Seq<usize>)> {
        self.rewrite_rules@.map_values(|r: (Word<usize>, Word<usize>)| (r.0@, r.1@))
    }

    /// The first letter of each element's word.
    pub closed spec fn spec_first(&self) -> Seq<usize> {
        self.first@
    }

    /// The last letter of each element's word.
    pub closed spec fn spec_last(&self) -> Seq<usize> {
        self.last@
    }

    /// The element of each word without its last letter.
    pub closed spec fn spec_prefix(&self) -> Seq<Option<usize>> {
        self.prefix@
    }

    /// An element that each element's first letter turns into it.
    pub closed spec fn spec_suffix(&self) -> Seq<Option<usize>> {
        self.suffix@
    }

    /// The length of each element's word.
    pub closed spec fn spec_length(&self) -> Seq<usize> {
        self.length@
    }

    /// The invariants of the enumeration hold, and both tables are filled in.
    pub closed spec fn wf(&self) -> bool {
        let n = self.elements@.len();
        let k = self.generators@.len();
        &&& self.first@.len() == n
        &&& self.last@.len() == n
        &&& self.prefix@.len() == n
        &&& self.suffix@.len() == n
        &&& self.length@.len() == n
        &&& self.words@.len() == n
        &&& self.element_map.indexes::<T>(self.elements@)
        &&& self.right_cayley_graph.wf()
        &&& self.left_cayley_graph.wf()
        &&& self.right_cayley_graph@.len() == n
        &&& self.left_cayley_graph@.len() == n
        &&& self.right_cayley_graph.spec_n_cols() == k + 1
        &&& self.left_cayley_graph.spec_n_cols() == k + 1
        &&& elements_ok::<T>(self.generators@, self.elements@, self.words@, self.has_identity, self.shape@)
        &&& words_ok::<T>(
            self.generators@,
            self.elements@,
            self.words@,
            self.first@,
            self.last@,
            self.prefix@,
            self.suffix@,
            self.length@,
            self.has_identity,
        )
        &&& tables_ok::<T>(self.generators@, self.elements@, self.right_cayley_graph@, self.left_cayley_graph@)
        &&& rules_ok::<T>(self.generators@, self.elements@, self.rules(), self.has_identity)
        &&& minimal_ok::<T>(self.generators@, self.elements@, self.words@, self.has_identity)
        &&& sources_ok::<T>(
            self.generators@,
            self.elements@,
            self.words@,
            self.rules(),
            self.rule_sources@,
        )
        &&& forall|u: int, g: int|
            0 <= u < n && 0 <= g <= k ==> (#[trigger] self.right_cayley_graph@[u][g]) is Some
        &&& forall|u: int, g: int|
            0 <= u < n && 0 <= g <= k ==> (#[trigger] self.left_cayley_graph@[u][g]) is Some
    }

    /// Every element of a word of one letter or more is the element of its prefix times
    /// its last letter, and its first letter times the element of its suffix; without an
    /// identity, a one-letter element is its generator.
    pub proof fn lemma_decomposition(&self, i: int)
        requires
            self.wf(),
            0 <= i < self.elems().len(),
            self.spec_length()[i] >= 1,
        ensures
            1 <= self.spec_first()[i] <= self.gens().len(),
            1 <= self.spec_last()[i] <= self.gens().len(),
            match self.spec_prefix()[i] {
                Some(p) => p < self.elems().len() && self.elems()[i] == T::product(
                    self.elems()[p as int],
                    self.generator(self.spec_last()[i] as int),
                ) && (self.spec_length()[i] >= 2 ==> p < i && self.word(p as int) == self.word(
                    i,
                ).drop_last()),
                None => !self.spec_has_identity() && self.elems()[i] == self.generator(
                    self.spec_last()[i] as int,
                ),
            },
            match self.spec_suffix()[i] {
                Some(q) => q < self.elems().len() && self.elems()[i] == T::product(
                    self.generator(self.spec_first()[i] as int),
                    self.elems()[q as int],
                ) && (self.spec_length()[i] >= 2 ==> q < i && self.spec_length()[q as int] + 1
                    == self.spec_length()[i] && self.word(q as int) == self.word(i).drop_first()
                    && self.elems()[q as int] == self.value(self.word(i).drop_first())),
                None => !self.spec_has_identity() && self.elems()[i] == self.generator(
                    self.spec_first()[i] as int,
                ),
            },
    {
        reveal(words_ok);
        reveal(elements_ok);
        let w = self.words@[i];
        let k = self.generators@.len();
        assert(is_word_over(w, k));
        assert(1 <= w[0] <= k);
        assert(1 <= w[w.len() - 1] <= k);
        assert(self.elems()[i] == self.elements@[i]@);
        if w.len() >= 2 {
            let p = self.prefix@[i].unwrap();
            let q = self.suffix@[i].unwrap();
            assert(self.words@[p as int] == w.drop_last());
            assert(self.elems()[p as int] == self.elements@[p as int]@);
            assert(self.elems()[q as int] == self.elements@[q as int]@);
        } else {
            assert(w =~= seq![w[0]]);
            if self.has_identity {
                assert(self.words@[0].len() == 0);
                assert(self.elems()[0] == self.elements@[0]@);
                assert(all_of_shape::<T>(views(self.elements@), self.shape@));
                assert(all_of_shape::<T>(views(self.generators@), self.shape@));
                assert(views(self.elements@)[0] == self.elements@[0]@);
                assert(views(self.generators@)[w[0] - 1] == self.generators@[w[0] - 1]@);
                T::lemma_identity(self.elements@[0]@, self.gens()[w[0] - 1]);
            }
        }
    }

    /// The recorded word of an element is the least word of its value in shortlex order:
    /// every other word over the generators with that value is longer, or as long and
    /// later lexicographically.
    pub proof fn lemma_shortest_word(&self, i: int, w: Seq<usize>)
        requires
            self.wf(),
            0 <= i < self.elems().len(),
            is_value_word(w, self.gens().len(), self.spec_has_identity()),
            self.value(w) == self.elems()[i],
        ensures
            self.word(i) == w || shortlex_lt(self.word(i), w),
    {
        reveal(minimal_ok);
        assert(self.elems()[i] == self.elements@[i]@);
        assert(self.elems()[0] == self.elements@[0]@);
    }

    /// Each element has exactly one position: distinct positions hold distinct elements.
    pub proof fn lemma_distinct(&self, i: int, j: int)
        requires
            self.wf(),
            0 <= i < self.elems().len(),
            0 <= j < self.elems().len(),
            i != j,
        ensures
            self.elems()[i] != self.elems()[j],
    {
        reveal(elements_ok);
        assert(self.elems()[i] == self.elements@[i]@);
        assert(self.elems()[j] == self.elements@[j]@);
    }

    /// Both Cayley tables are filled in, and name the products: right by the generator,
    /// and left by it.
    pub proof fn lemma_closure(&self, u: int, g: int)
        requires
            self.wf(),
            0 <= u < self.elems().len(),
            1 <= g <= self.gens().len(),
        ensures
            self.right()[u][g] matches Some(v) && v < self.elems().len() && self.elems()[v as int]
                == T::product(self.elems()[u], self.generator(g)),
            self.left()[u][g] matches Some(v) && v < self.elems().len() && self.elems()[v as int]
                == T::product(self.generator(g), self.elems()[u]),
    {
        reveal(tables_ok);
        assert(self.right_cayley_graph@[u][g] is Some);
        assert(self.left_cayley_graph@[u][g] is Some);
        let v = self.right_cayley_graph@[u][g].unwrap();
        let w = self.left_cayley_graph@[u][g].unwrap();
        assert(self.elems()[v as int] == self.elements@[v as int]@);
        assert(self.elems()[w as int] == self.elements@[w as int]@);
        assert(self.elems()[u] == self.elements@[u]@);
        assert(self.gens()[g - 1] == self.generators@[g - 1]@);
    }

    /// Column 0 of both tables stands for the identity: it leaves every element in place.
    pub proof fn lemma_identity_column(&self, u: int)
        requires
            self.wf(),
            0 <= u < self.elems().len(),
        ensures
            self.right()[u][0] == Some(u as usize),
            self.left()[u][0] == Some(u as usize),
    {
        reveal(tables_ok);
    }

    /// Each element is the value of its word, and the words of the elements increase
    /// strictly in shortlex order: shorter first, then lexicographically.
    pub proof fn lemma_shortlex_order(&self, i: int, j: int)
        requires
            self.wf(),
            0 <= i < j < self.elems().len(),
        ensures
            shortlex_lt(self.word(i), self.word(j)),
            self.spec_length()[i] <= self.spec_length()[j],
            self.spec_length()[i] == self.word(i).len(),
            self.elems()[i] == self.value(self.word(i)),
    {
        reveal(words_ok);
        assert(self.elems()[i] == self.elements@[i]@);
        assert(self.elems()[0] == self.elements@[0]@);
    }

    /// Where rule `r` was found: at element `u` and generator `g`, whose product is `v`.
    pub closed spec fn rule_source(&self, r: int) -> (usize, usize, usize) {
        self.rule_sources@[r]
    }

    /// Each rewrite rule equates the values of its two words, and its left word is
    /// greater in shortlex order. It was found at an element `u` and a generator `g`: its
    /// left word is the word of `u` followed by `g`, its right word the word of the element
    /// `v` that the right table gives for `u` and `g`.
    pub proof fn lemma_rewrite_rule(&self, r: int)
        requires
            self.wf(),
            0 <= r < self.rules().len(),
        ensures
            self.value(self.rules()[r].0) == self.value(self.rules()[r].1),
            shortlex_lt(self.rules()[r].1, self.rules()[r].0),
            is_word_over(self.rules()[r].0, self.gens().len()),
            is_word_over(self.rules()[r].1, self.gens().len()),
            ({
                let (u, g, v) = self.rule_source(r);
                &&& u < self.elems().len()
                &&& 1 <= g <= self.gens().len()
                &&& self.rules()[r].0 == self.word(u as int).push(g)
                &&& self.rules()[r].1 == self.word(v as int)
                &&& self.right()[u as int][g as int] == Some(v)
            }),
    {
        reveal(rules_ok);
        reveal(sources_ok);
        reveal(tables_ok);
        reveal(elements_ok);
        assert(self.rules().len() == self.rewrite_rules@.len());
        assert(self.elems()[0] == self.elements@[0]@);
        let (u, g, v) = self.rule_sources@[r];
        assert(self.right_cayley_graph@[u as int][g as int] is Some);
        let w = self.right_cayley_graph@[u as int][g as int].unwrap();
        if w != v {
            assert(self.elements@[w as int]@ != self.elements@[v as int]@);
        }
    }

    /// The rules come in the order they were found: by element, then by generator.
    pub proof fn lemma_rule_order(&self, r1: int, r2: int)
        requires
            self.wf(),
            0 <= r1 < r2 < self.rules().len(),
        ensures
            found_before(
                self.rule_source(r1),
                self.rule_source(r2).0 as int,
                self.rule_source(r2).1 as int,
            ),
    {
        reveal(sources_ok);
        assert(self.rules().len() == self.rule_sources@.len());
        assert(found_before(
            self.rule_sources@[r1],
            self.rule_sources@[r2].0 as int,
            self.rule_sources@[r2].1 as int,
        ));
    }

    /// Every word over the generators has its value among the elements: the result has
    /// every element of the semigroup, each under the shortlex-least word of its value.
    pub proof fn lemma_every_value_found(&self, w: Seq<usize>)
        requires
            self.wf(),
            is_value_word(w, self.gens().len(), self.spec_has_identity()),
        ensures
            exists|i: int| 0 <= i < self.elems().len() && self.elems()[i] == self.value(w),
        decreases w.len(),
    {
        reveal(elements_ok);
        reveal(words_ok);
        reveal(tables_ok);
        let k = self.generators@.len();
        let o = offset_of(self.has_identity);
        if w.len() == 0 {
            assert(self.elems()[0] == self.value(w));
        } else if w.len() == 1 {
            let g = w[0] as int;
            assert(1 <= w[0] <= k);
            let i = g - 1 + o;
            assert(self.words@[i] == seq![(i - o + 1) as usize]);
            assert(self.words@[i] =~= w);
            assert(self.elements@[i]@ == evaluate::<T>(views(self.generators@), self.elements@[0]@, w));
            assert(self.elems()[i] == self.elements@[i]@);
            assert(self.elems()[0] == self.elements@[0]@);
        } else {
            let x = w.drop_last();
            assert(is_word_over(x, k));
            assert(1 <= w[w.len() - 1] <= k);
            self.lemma_every_value_found(x);
            let i = choose|i: int| 0 <= i < self.elems().len() && self.elems()[i] == self.value(x);
            let a = w.last() as int;
            assert(self.right_cayley_graph@[i][a] is Some);
            let v = self.right_cayley_graph@[i][a].unwrap();
            assert(self.elems()[i] == self.elements@[i]@);
            assert(self.elems()[v as int] == self.elements@[v as int]@);
            assert(self.gens()[a - 1] == self.generators@[a - 1]@);
            assert(self.value(w) == T::product(self.value(x), self.gens()[a - 1]));
        }
    }

    /// Two results over the same generators and the same identity hold the same elements
    /// under the same words, in the same order: building again from a result's generators
    /// gives the same elements.
    pub proof fn lemma_same_result(&self, other: &Self)
        requires
            self.wf(),
            other.wf(),
            self.gens() == other.gens(),
            self.spec_has_identity() == other.spec_has_identity(),
            self.elems().len() > 0 ==> other.elems().len() > 0 && self.elems()[0] == other.elems()[0],
            other.elems().len() > 0 ==> self.elems().len() > 0,
        ensures
            self.elems() == other.elems(),
            forall|i: int| 0 <= i < self.elems().len() ==> #[trigger] self.word(i) == other.word(i),
    {
        reveal(words_ok);
        reveal(minimal_ok);
        let k = self.generators@.len();
        let wa = self.words@;
        let wb = other.words@;
        assert(self.gens().len() == k);
        assert(other.gens().len() == other.generators@.len());
        assert(k == other.generators@.len());
        if self.elements@.len() > 0 {
            assert(self.elems()[0] == self.elements@[0]@);
            assert(other.elems()[0] == other.elements@[0]@);
        }
        if other.elements@.len() > 0 {
            assert(self.elems()[0] == self.elements@[0]@);
            assert(other.elems()[0] == other.elements@[0]@);
        }
        assert forall|i: int| 0 <= i < wa.len() implies wb.contains(#[trigger] wa[i]) by {
            assert(is_value_word(wa[i], k, self.has_identity));
            other.lemma_every_value_found(wa[i]);
            let j = choose|j: int| 0 <= j < other.elems().len() && other.elems()[j] == other.value(wa[i]);
            assert(self.value(wa[i]) == other.value(wa[i]));
            assert(self.elems()[i] == self.elements@[i]@);
            assert(other.elems()[j] == other.elements@[j]@);
            assert(is_value_word(wb[j], k, self.has_identity));
            assert(other.value(wb[j]) == self.value(wb[j]));
            assert(other.elements@[j]@ == other.value(wb[j]));
            assert(wb[j] == wa[i] || shortlex_lt(wb[j], wa[i]));
            assert(wa[i] == wb[j] || shortlex_lt(wa[i], wb[j]));
            if wa[i] != wb[j] {
                lemma_shortlex_transitive(wa[i], wb[j], wa[i]);
                lemma_lex_irreflexive(wa[i]);
            }
        }
        assert forall|j: int| 0 <= j < wb.len() implies wa.contains(#[trigger] wb[j]) by {
            assert(is_value_word(wb[j], k, self.has_identity));
            self.lemma_every_value_found(wb[j]);
            let i = choose|i: int| 0 <= i < self.elems().len() && self.elems()[i] == self.value(wb[j]);
            assert(self.value(wb[j]) == other.value(wb[j]));
            assert(self.elems()[i] == self.elements@[i]@);
            assert(other.elems()[j] == other.elements@[j]@);
            assert(is_value_word(wa[i], k, self.has_identity));
            assert(other.value(wa[i]) == self.value(wa[i]));
            assert(self.elements@[i]@ == self.value(wa[i]));
            assert(wb[j] == wa[i] || shortlex_lt(wb[j], wa[i]));
            assert(wa[i] == wb[j] || shortlex_lt(wa[i], wb[j]));
            if wa[i] != wb[j] {
                lemma_shortlex_transitive(wa[i], wb[j], wa[i]);
                lemma_lex_irreflexive(wa[i]);
            }
        }
        lemma_sorted_lists_equal(wa, wb);
        assert forall|i: int| 0 <= i < self.elems().len() implies self.elems()[i] == other.elems()[i] by {
            assert(self.elems()[i] == self.elements@[i]@);
            assert(other.elems()[i] == other.elements@[i]@);
            assert(self.value(wa[i]) == other.value(wb[i]));
        }
        assert(self.elems() =~= other.elems());
    }

    /// The element that the word `w` over the generators stands for, read off the right
    /// Cayley table from the first letter on; `None` where a letter names no generator,
    /// or `w` is empty and there is no identity.
    pub fn reduce_word(&self, w: &[usize]) -> (r: Option<usize>)
        requires
            self.wf(),
        ensures
            r is Some <==> is_word_over(w@, self.gens().len()) && (w@.len() > 0
                || self.spec_has_identity()),
            r matches Some(i) ==> i < self.elems().len() && self.elems()[i as int] == self.value(w@),
    {
        let k = self.generators.len();
        let mut i: usize = 0;
        while i < w.len()
            invariant
                i <= w@.len(),
                k == self.generators@.len(),
                forall|t: int| 0 <= t < i ==> 1 <= #[trigger] w@[t] <= k,
            decreases w@.len() - i,
        {
            if w[i] == 0 || w[i] > k {
                return None;
            }
            i = i + 1;
        }
        proof {
            reveal(elements_ok);
            reveal(words_ok);
        }
        if w.len() == 0 {
            if self.has_identity {
                proof {
                    assert(self.words@[0].len() == 0);
                    assert(self.elems()[0] == self.elements@[0]@);
                }
                return Some(0);
            } else {
                return None;
            }
        }
        let o: usize = if self.has_identity {
            1
        } else {
            0
        };
        let mut cur = w[0] - 1 + o;
        proof {
            let g = w@[0] as int;
            assert(self.words@[g - 1 + o] == seq![g as usize]);
            assert(self.elems()[cur as int] == self.elements@[cur as int]@);
            assert(w@.subrange(0, 1) =~= seq![w@[0]]);
        }
        let mut j: usize = 1;
        while j < w.len()
            invariant
                self.wf(),
                k == self.generators@.len(),
                is_word_over(w@, k as nat),
                1 <= j <= w@.len(),
                cur < self.elems().len(),
                self.elems()[cur as int] == self.value(w@.subrange(0, j as int)),
            decreases w@.len() - j,
        {
            let g = w[j];
            proof {
                self.lemma_closure(cur as int, g as int);
                let sub = w@.subrange(0, j + 1);
                assert(sub.drop_last() =~= w@.subrange(0, j as int));
                assert(sub.last() == g);
            }
            cur = self.right_cayley(cur, g);
            j = j + 1;
        }
        assert(w@.subrange(0, j as int) =~= w@);
        Some(cur)
    }

    /// The generators of a result are their own normal form: distinct, none an identity,
    /// so an enumeration set up from them works with the very same generators.
    pub proof fn lemma_generators_normalised(&self)
        requires
            self.wf(),
        ensures
            normalise::<T>(self.gens()) == self.gens(),
    {
        reveal(elements_ok);
        reveal(words_ok);
        let gs = self.gens();
        let k = gs.len();
        let o = offset_of(self.has_identity);
        self.right_cayley_graph.lemma_shape();
        assert forall|a: int, b: int| 0 <= a < b < k implies gs[a] != gs[b] by {
            assert(self.words@[o + a] == seq![(a + 1) as usize]);
            assert(self.words@[o + b] == seq![(b + 1) as usize]);
            assert(seq![(a + 1) as usize][0] == (a + 1) as usize);
            assert(seq![(b + 1) as usize][0] == (b + 1) as usize);
            assert(self.elements@[o + a]@ == gs[a]);
            assert(self.elements@[o + b]@ == gs[b]);
            assert(self.elements@[o + a]@ != self.elements@[o + b]@);
        }
        assert forall|g: int| 0 <= g < k implies !T::spec_is_id(#[trigger] gs[g]) by {
            assert(gs[g] == self.generators@[g]@);
        }
        lemma_normalise_fixed::<T>(gs);
    }

    /// The letter of the first generator in the word of element `i` (0 for the identity).
    pub fn first(&self, i: usize) -> (r: usize)
        requires
            self.wf(),
            i < self.elems().len(),
        ensures
            r == self.spec_first()[i as int],
    {
        self.first[i]
    }

    /// The letter of the last generator in the word of element `i` (0 for the identity).
    pub fn last(&self, i: usize) -> (r: usize)
        requires
            self.wf(),
            i < self.elems().len(),
        ensures
            r == self.spec_last()[i as int],
    {
        self.last[i]
    }

    /// The element whose word is that of element `i` without its last letter.
    pub fn prefix(&self, i: usize) -> (r: Option<usize>)
        requires
            self.wf(),
            i < self.elems().len(),
        ensures
            r == self.spec_prefix()[i as int],
    {
        self.prefix[i]
    }

    /// An element that the first letter of element `i` turns into element `i`.
    pub fn suffix(&self, i: usize) -> (r: Option<usize>)
        requires
            self.wf(),
            i < self.elems().len(),
        ensures
            r == self.spec_suffix()[i as int],
    {
        self.suffix[i]
    }

    /// The length of the word of element `i`.
    pub fn length(&self, i: usize) -> (r: usize)
        requires
            self.wf(),
            i < self.elems().len(),
        ensures
            r == self.spec_length()[i as int],
    {
        self.length[i]
    }

    /// The generators the enumeration worked with.
    pub fn generators(&self) -> (r: &[T])
        ensures
            views(r@) == self.gens(),
    {
        self.generators.as_slice()
    }

    /// The elements, in shortlex order of their words.
    pub fn elements(&self) -> (r: &[T])
        ensures
            views(r@) == self.elems(),
    {
        self.elements.as_slice()
    }

    /// The number of elements.
    pub fn len(&self) -> (r: usize)
        ensures
            r == self.elems().len(),
    {
        self.elements.len()
    }

    /// The rewrite rules, in the order they were found.
    pub fn rewrite_rules(&self) -> (r: &[(Word<usize>, Word<usize>)])
        ensures
            r@.map_values(|x: (Word<usize>, Word<usize>)| (x.0@, x.1@)) == self.rules(),
    {
        self.rewrite_rules.as_slice()
    }

    /// The position of `x` among the elements, or `None` where it is not one of them.
    pub fn index_of(&self, x: &T) -> (r: Option<usize>)
        requires
            self.wf(),
        ensures
            r matches Some(i) ==> i < self.elems().len() && self.elems()[i as int] == x@,
            r is None <==> forall|i: int| 0 <= i < self.elems().len() ==> self.elems()[i] != x@,
    {
        let r = self.element_map.find(&self.elements, x);
        proof {
            if let Some(i) = r {
                assert(self.elems()[i as int] == self.elements@[i as int]@);
            } else {
                assert forall|i: int| 0 <= i < self.elems().len() implies self.elems()[i] != x@ by {
                    assert(self.elems()[i] == self.elements@[i]@);
                }
            }
        }
        r
    }

    /// The element that element `u` times generator `g` gives (`g == 0` stands for the
    /// identity).
    pub fn right_cayley(&self, u: usize, g: usize) -> (r: usize)
        requires
            self.wf(),
            u < self.elems().len(),
            g <= self.gens().len(),
        ensures
            self.right()[u as int][g as int] == Some(r),
    {
        self.right_cayley_graph.get(u, g).unwrap()
    }

    /// The element that generator `g` times element `u` gives (`g == 0` stands for the
    /// identity).
    pub fn left_cayley(&self, u: usize, g: usize) -> (r: usize)
        requires
            self.wf(),
            u < self.elems().len(),
            g <= self.gens().len(),
        ensures
            self.left()[u as int][g as int] == Some(r),
    {
        self.left_cayley_graph.get(u, g).unwrap()
    }

    /// The shortlex word of element `pos`.
    pub fn word_of(&self, pos: usize) -> (r: Word<usize>)
        requires
            self.wf(),
            pos < self.elems().len(),
        ensures
            r@ == self.word(pos as int),
    {
        proof {
            reveal(words_ok);
        }
        spell_word(&self.prefix, &self.last, &self.length, pos, Ghost(self.words@))
    }
}

/// The Froidure–Pin enumeration of a semigroup from its generators.
///
/// Elements are found in shortlex order of the words over the generators that produce
/// them; `words` records the word of each element, which `prefix` and `last` spell out.
pub struct FroidurePin<T: SemigroupElement> {
    current_word_length: usize,
    generators: Vec<T>,
    has_identity: bool,
    elements: Vec<T>,
    element_map: ElementIndex,
    rewrite_rules: Vec<(Word<usize>, Word<usize>)>,
    left_cayley_graph: Vec2<Option<usize>>,
    right_cayley_graph: Vec2<Option<usize>>,
    reduced: Vec2<bool>,
    prefix: Vec<Option<usize>>,
    last: Vec<usize>,
    suffix: Vec<Option<usize>>,
    first: Vec<usize>,
    length: Vec<usize>,
    words: Ghost<Seq<Seq<usize>>>,
    shape: Ghost<nat>,
    rule_sources: Ghost<Seq<(usize, usize, usize)>>,
}

impl<T: SemigroupElement> FroidurePin<T> {
    /// The generators that the enumeration works with.
    pub closed spec fn gens(&self) -> Seq<T::V> {
        views(self.generators@)
    }

    /// The elements found so far.
    pub closed spec fn elems(&self) -> Seq<T::V> {
        views(self.elements@)
    }

    /// Whether an identity sits at position 0.
    pub closed spec fn spec_has_identity(&self) -> bool {
        self.has_identity
    }

    /// The number of the generators.
    pub closed spec fn k(&self) -> nat {
        self.generators@.len()
    }

    /// The position of the first generator.
    pub closed spec fn offset(&self) -> int {
        offset_of(self.has_identity)
    }

    /// The value of a word over the generators.
    pub closed spec fn value(&self, w: Seq<usize>) -> T::V {
        evaluate::<T>(self.gens(), self.elements@[0]@, w)
    }

    /// The word of element `i`.
    pub closed spec fn word(&self, i: int) -> Seq<usize> {
        self.words@[i]
    }

    /// The right table: a row per element, a column per generator and one for the identity.
    pub closed spec fn right(&self) -> Seq<Seq<Option<usize>>> {
        self.right_cayley_graph@
    }

    /// The left table, laid out as the right one.
    pub closed spec fn left(&self) -> Seq<Seq<Option<usize>>> {
        self.left_cayley_graph@
    }

    /// The rewrite rules emitted so far, as pairs of words.
    pub closed spec fn rules(&self) -> Seq<(Seq<usize>, Seq<usize>)> {
        self.rewrite_rules@.map_values(|r: (Word<usize>, Word<usize>)| (r.0@, r.1@))
    }

    /// Sizes: one entry per element in every array and table, a column per generator
    /// and one for the identity.
    closed spec fn inv_sizes(&self) -> bool {
        let n = self.elements@.len();
        &&& self.first@.len() == n
        &&& self.last@.len() == n
        &&& self.prefix@.len() == n
        &&& self.suffix@.len() == n
        &&& self.length@.len() == n
        &&& self.words@.len() == n
        &&& self.element_map.indexes::<T>(self.elements@)
        &&& self.right_cayley_graph.wf()
        &&& self.left_cayley_graph.wf()
        &&& self.reduced.wf()
        &&& self.right_cayley_graph@.len() == n
        &&& self.left_cayley_graph@.len() == n
        &&& self.reduced@.len() == n
        &&& self.right_cayley_graph.spec_n_cols() == self.k() + 1
        &&& self.left_cayley_graph.spec_n_cols() == self.k() + 1
        &&& self.reduced.spec_n_cols() == self.k() + 1
        &&& n * (self.k() + 1) <= usize::MAX
        &&& self.k() + 1 <= usize::MAX
    }

    /// The generators, the identity and the elements all multiply with each other.
    closed spec fn inv_elements(&self) -> bool {
        elements_ok::<T>(self.generators@, self.elements@, self.words@, self.has_identity, self.shape@)
    }

    /// Each element is the value of its word, and the bookkeeping arrays describe that
    /// word; the words come in strictly increasing shortlex order.
    closed spec fn inv_words(&self) -> bool {
        words_ok::<T>(
            self.generators@,
            self.elements@,
            self.words@,
            self.first@,
            self.last@,
            self.prefix@,
            self.suffix@,
            self.length@,
            self.has_identity,
        )
    }

    /// Every entry of the tables that is filled in names the right product.
    closed spec fn inv_tables(&self) -> bool {
        tables_ok::<T>(
            self.generators@,
            self.elements@,
            self.right_cayley_graph@,
            self.left_cayley_graph@,
        )
    }

    /// Each rewrite rule equates two words, the left one greater in shortlex order.
    closed spec fn inv_rules(&self) -> bool {
        rules_ok::<T>(self.generators@, self.elements@, self.rules(), self.has_identity)
    }

    /// Each element's recorded word is the shortlex-least word of its value.
    closed spec fn inv_minimal(&self) -> bool {
        minimal_ok::<T>(self.generators@, self.elements@, self.words@, self.has_identity)
    }

    /// Every word of at most `len` letters has its value among the elements.
    closed spec fn covered(&self, len: nat) -> bool {
        covered_upto::<T>(self.generators@, self.elements@, self.has_identity, len)
    }

    /// Each rule comes from an element and a generator, as recorded in `rule_sources`.
    closed spec fn inv_sources(&self) -> bool {
        sources_ok::<T>(
            self.generators@,
            self.elements@,
            self.words@,
            self.rules(),
            self.rule_sources@,
        )
    }

    /// The words of two or more letters are marked as new where they were formed.
    closed spec fn inv_reduced(&self) -> bool {
        reduced_ok(self.words@, self.prefix@, self.last@, self.reduced@)
    }

    /// The state is consistent: sizes, elements, words, tables and rules.
    pub closed spec fn inv(&self) -> bool {
        &&& self.inv_reduced()
        &&& self.inv_sources()
        &&& self.inv_sizes()
        &&& self.inv_elements()
        &&& self.inv_words()
        &&& self.inv_tables()
        &&& self.inv_rules()
        &&& self.inv_minimal()
    }

    /// Everything but the tables and the rewrite rules is as in `other`.
    closed spec fn same_elements(&self, other: &Self) -> bool {
        &&& self.elements@ == other.elements@
        &&& self.words@ == other.words@
        &&& self.first@ == other.first@
        &&& self.last@ == other.last@
        &&& self.prefix@ == other.prefix@
        &&& self.suffix@ == other.suffix@
        &&& self.length@ == other.length@
        &&& self.generators@ == other.generators@
        &&& self.has_identity == other.has_identity
        &&& self.shape@ == other.shape@
        &&& self.current_word_length == other.current_word_length
    }

    /// Every column of row `u` of the right table is filled in.
    closed spec fn right_done(&self, u: int) -> bool {
        forall|g: int| 0 <= g <= self.k() ==> (#[trigger] self.right_cayley_graph@[u][g]) is Some
    }

    /// Every column of row `u` of the left table is filled in.
    closed spec fn left_done(&self, u: int) -> bool {
        forall|g: int| 0 <= g <= self.k() ==> (#[trigger] self.left_cayley_graph@[u][g]) is Some
    }

    /// The generator with letter `g` is the element at position `g - 1 + offset`.
    proof fn lemma_generator_position(&self, g: int)
        requires
            self.inv(),
            1 <= g <= self.k(),
        ensures
            0 <= g - 1 + self.offset() < self.elements@.len(),
            self.elements@[g - 1 + self.offset()]@ == self.gens()[g - 1],
            self.words@[g - 1 + self.offset()].len() == 1,
    {
        reveal(elements_ok);
        reveal(words_ok);
        let i = g - 1 + self.offset();
        assert(self.inv_elements());
        assert(self.offset() <= i < self.offset() + self.k());
        assert(self.words@[i] == seq![(i - self.offset() + 1) as usize]);
        assert(self.words@[i] == seq![g as usize]);
        assert(self.words@[i][0] == g);
        assert(self.inv_words());
        assert(self.elements@[i]@ == self.value(self.words@[i]));
    }

    /// The word of element `i` is no longer than `i + 1` letters, and `length` holds its
    /// length.
    proof fn lemma_word_length(&self, i: int)
        requires
            self.inv(),
            0 <= i < self.elements@.len(),
        ensures
            self.words@[i].len() <= i + 1,
            self.length@[i] == self.words@[i].len(),
            is_word_over(self.words@[i], self.k()),
            self.elements@[i]@ == self.value(self.words@[i]),
            self.words@[i].len() == 0 <==> (self.has_identity && i == 0),
            self.words@[i].len() >= 1 ==> self.first@[i] == self.words@[i][0] && self.last@[i]
                == self.words@[i].last(),
    {
        reveal(words_ok);
    }

    /// Element `i` is the product of the element at its prefix and its last letter.
    proof fn lemma_prefix_value(&self, i: int)
        requires
            self.inv(),
            0 <= i < self.elements@.len(),
            self.words@[i].len() >= 2,
        ensures
            self.prefix@[i] matches Some(p) && p < i && self.elements@[i]@ == T::product(
                self.elements@[p as int]@,
                self.gens()[self.last@[i] - 1],
            ) && self.words@[p as int] == self.words@[i].drop_last(),
            1 <= self.last@[i] <= self.k(),
    {
        reveal(words_ok);
        let p = self.prefix@[i].unwrap() as int;
        let w = self.words@[i];
        assert(is_word_over(w, self.k()));
        assert(1 <= w[w.len() - 1] <= self.k());
        assert(self.words@[p] == w.drop_last());
    }

    /// Every element and generator can be multiplied with every other.
    proof fn lemma_all_compatible(&self)
        requires
            self.inv(),
        ensures
            forall|i: int|
                0 <= i < self.elements@.len() ==> T::valid(#[trigger] self.elements@[i]@)
                    && T::shape(self.elements@[i]@) == self.shape@,
            forall|g: int|
                0 <= g < self.k() ==> T::valid(#[trigger] self.gens()[g]) && T::shape(
                    self.gens()[g],
                ) == self.shape@,
    {
        reveal(elements_ok);
        assert forall|i: int| 0 <= i < self.elements@.len() implies T::valid(
            #[trigger] self.elements@[i]@,
        ) && T::shape(self.elements@[i]@) == self.shape@ by {
            assert(self.elems()[i] == self.elements@[i]@);
        }
    }

    /// The word of the element at `pos`, spelled out along its prefixes.
    pub fn pos_to_word(&self, pos: usize) -> (r: Word<usize>)
        requires
            self.inv(),
            pos < self.elems().len(),
        ensures
            r@ == self.word(pos as int),
    {
        proof {
            reveal(words_ok);
        }
        spell_word(&self.prefix, &self.last, &self.length, pos, Ghost(self.words@))
    }

    /// Records that element `u` times generator `g` is element `v`.
    fn set_right(&mut self, u: usize, g: usize, v: usize)
        requires
            old(self).inv(),
            u < old(self).elements@.len(),
            1 <= g <= old(self).k(),
            v < old(self).elements@.len(),
            old(self).elements@[v as int]@ == T::product(
                old(self).elements@[u as int]@,
                old(self).gens()[g - 1],
            ),
        ensures
            final(self).inv(),
            final(self).same_elements(old(self)),
            final(self).rewrite_rules@ == old(self).rewrite_rules@,
            final(self).rule_sources@ == old(self).rule_sources@,
            final(self).left_cayley_graph@ == old(self).left_cayley_graph@,
            final(self).reduced@ == old(self).reduced@,
            final(self).right_cayley_graph@ == old(self).right_cayley_graph@.update(
                u as int,
                old(self).right_cayley_graph@[u as int].update(g as int, Some(v)),
            ),
    {
        proof {
            reveal(tables_ok);
        }
        proof {
            self.right_cayley_graph.lemma_shape();
        }
        let ghost old_self = *self;
        self.right_cayley_graph.set(u, g, Some(v));
        proof {
            assert(self.rules() == old_self.rules());
            assert forall|a: int, c: int|
                0 <= a < self.elements@.len() && 1 <= c <= self.k() implies (
                #[trigger] self.right_cayley_graph@[a][c] matches Some(w) ==> w < self.elements@.len()
                    && self.elements@[w as int]@ == T::product(self.elements@[a]@, self.gens()[c - 1])) by {
            }
            assert forall|a: int| 0 <= a < self.elements@.len() implies #[trigger] self.right_cayley_graph@[a][0]
                == Some(a as usize) && self.left_cayley_graph@[a][0] == Some(a as usize) by {
                assert(old_self.right_cayley_graph@[a][0] == Some(a as usize));
            }
        }
    }

    /// Records that generator `g` times element `u` is element `v`.
    fn set_left(&mut self, u: usize, g: usize, v: usize)
        requires
            old(self).inv(),
            u < old(self).elements@.len(),
            1 <= g <= old(self).k(),
            v < old(self).elements@.len(),
            old(self).elements@[v as int]@ == T::product(
                old(self).gens()[g - 1],
                old(self).elements@[u as int]@,
            ),
        ensures
            final(self).inv(),
            final(self).same_elements(old(self)),
            final(self).rewrite_rules@ == old(self).rewrite_rules@,
            final(self).rule_sources@ == old(self).rule_sources@,
            final(self).right_cayley_graph@ == old(self).right_cayley_graph@,
            final(self).reduced@ == old(self).reduced@,
            final(self).left_cayley_graph@ == old(self).left_cayley_graph@.update(
                u as int,
                old(self).left_cayley_graph@[u as int].update(g as int, Some(v)),
            ),
    {
        proof {
            reveal(tables_ok);
        }
        proof {
            self.left_cayley_graph.lemma_shape();
        }
        let ghost old_self = *self;
        self.left_cayley_graph.set(u, g, Some(v));
        proof {
            assert(self.rules() == old_self.rules());
            assert forall|a: int, c: int|
                0 <= a < self.elements@.len() && 1 <= c <= self.k() implies (
                #[trigger] self.left_cayley_graph@[a][c] matches Some(w) ==> w < self.elements@.len()
                    && self.elements@[w as int]@ == T::product(self.gens()[c - 1], self.elements@[a]@)) by {
            }
            assert forall|a: int| 0 <= a < self.elements@.len() implies #[trigger] self.right_cayley_graph@[a][0]
                == Some(a as usize) && self.left_cayley_graph@[a][0] == Some(a as usize) by {
                assert(old_self.right_cayley_graph@[a][0] == Some(a as usize));
                assert(old_self.left_cayley_graph@[a][0] == Some(a as usize));
            }
        }
    }

    /// An identity at position 0 is an identity.
    proof fn lemma_identity_first(&self)
        requires
            self.inv(),
        ensures
            self.has_identity ==> self.elements@.len() >= 1 && T::spec_is_id(self.elements@[0]@),
    {
        reveal(elements_ok);
    }

    /// Records the rule that the word of `u` followed by `g` equals the word of `v`.
    #[verifier::spinoff_prover]
    fn push_rule(&mut self, u: usize, g: usize, v: usize)
        requires
            old(self).inv(),
            u < old(self).elements@.len(),
            1 <= g <= old(self).k(),
            v < old(self).elements@.len(),
            old(self).elements@[v as int]@ == T::product(
                old(self).elements@[u as int]@,
                old(self).gens()[g - 1],
            ),
            shortlex_lt(old(self).words@[v as int], old(self).words@[u as int].push(g)),
            forall|r: int|
                0 <= r < old(self).rule_sources@.len() ==> found_before(
                    #[trigger] old(self).rule_sources@[r],
                    u as int,
                    g as int,
                ),
        ensures
            final(self).inv(),
            final(self).same_elements(old(self)),
            final(self).right_cayley_graph@ == old(self).right_cayley_graph@,
            final(self).left_cayley_graph@ == old(self).left_cayley_graph@,
            final(self).reduced@ == old(self).reduced@,
            final(self).rules() == old(self).rules().push(
                (old(self).words@[u as int].push(g), old(self).words@[v as int]),
            ),
            final(self).rule_sources@ == old(self).rule_sources@.push((u, g, v)),
    {
        proof {
            reveal(rules_ok);
            self.lemma_word_length(u as int);
            self.lemma_word_length(v as int);
            self.lemma_identity_first();
        }
        let lhs = self.pos_to_word(u).append(&g);
        let rhs = self.pos_to_word(v);
        proof {
            let wu = self.words@[u as int];
            self.lemma_all_compatible();
            assert(is_word_over(wu, self.k()));
            lemma_evaluate_push::<T>(self.gens(), self.elements@[0]@, wu, g, self.shape@);
            assert(is_word_over(wu.push(g), self.k())) by {
                assert forall|i: int| 0 <= i < wu.push(g).len() implies 1 <= #[trigger] wu.push(
                    g,
                )[i] <= self.k() by {
                    if i < wu.len() {
                        assert(wu.push(g)[i] == wu[i]);
                    }
                }
            }
            assert(self.words@[v as int].len() == 0 ==> self.has_identity);
        }
        self.rewrite_rules.push((lhs, rhs));
        self.rule_sources = Ghost(self.rule_sources@.push((u, g, v)));
        proof {
            assert(self.rules() =~= old(self).rules().push(
                (old(self).words@[u as int].push(g), old(self).words@[v as int]),
            ));
            reveal(sources_ok);
            assert(self.gens()[g - 1] == self.generators@[g - 1]@);
            assert forall|r: int| 0 <= r < self.rules().len() implies {
                let (a, b, c) = #[trigger] self.rule_sources@[r];
                &&& a < self.elements@.len()
                &&& 1 <= b <= self.generators@.len()
                &&& c < self.elements@.len()
                &&& self.rules()[r].0 == self.words@[a as int].push(b)
                &&& self.rules()[r].1 == self.words@[c as int]
                &&& self.elements@[c as int]@ == T::product(
                    self.elements@[a as int]@,
                    self.generators@[b - 1]@,
                )
            } by {
                if r < old(self).rules().len() {
                    assert(self.rule_sources@[r] == old(self).rule_sources@[r]);
                    assert(self.rules()[r] == old(self).rules()[r]);
                }
            }
            assert forall|r1: int, r2: int|
                0 <= r1 < r2 < self.rule_sources@.len() implies found_before(
                #[trigger] self.rule_sources@[r1],
                (#[trigger] self.rule_sources@[r2]).0 as int,
                self.rule_sources@[r2].1 as int,
            ) by {
                assert(self.rule_sources@[r1] == old(self).rule_sources@[r1]);
                if r2 < old(self).rule_sources@.len() {
                    assert(self.rule_sources@[r2] == old(self).rule_sources@[r2]);
                }
            }
        }
    }

    #[verifier::opaque]
    /// `self` is `old` with one more element `x`, the product of element `u` and
    /// generator `g`, whose suffix is `s`.
    closed spec fn pushed(&self, old: &Self, x: T::V, u: int, g: int, s: int) -> bool {
        let n = old.elements@.len();
        let k = old.k();
        &&& self.elements@.len() == n + 1
        &&& forall|i: int| 0 <= i < n ==> #[trigger] self.elements@[i] == old.elements@[i]
        &&& self.elements@[n as int]@ == x
        &&& self.words@ == old.words@.push(old.words@[u].push(g as usize))
        &&& self.first@ == old.first@.push(old.first@[u])
        &&& self.last@ == old.last@.push(g as usize)
        &&& self.prefix@ == old.prefix@.push(Some(u as usize))
        &&& self.suffix@ == old.suffix@.push(Some(s as usize))
        &&& self.length@ == old.length@.push((old.length@[u] + 1) as usize)
        &&& self.generators@ == old.generators@
        &&& self.has_identity == old.has_identity
        &&& self.shape@ == old.shape@
        &&& self.current_word_length == old.current_word_length
        &&& self.rewrite_rules@ == old.rewrite_rules@
        &&& self.rule_sources@ == old.rule_sources@
        &&& self.element_map.indexes::<T>(self.elements@)
        &&& self.right_cayley_graph.wf()
        &&& self.left_cayley_graph.wf()
        &&& self.reduced.wf()
        &&& self.right_cayley_graph@.len() == n + 1
        &&& self.left_cayley_graph@.len() == n + 1
        &&& self.reduced@.len() == n + 1
        &&& self.right_cayley_graph.spec_n_cols() == k + 1
        &&& self.left_cayley_graph.spec_n_cols() == k + 1
        &&& self.reduced.spec_n_cols() == k + 1
        &&& (n + 1) * (k + 1) <= usize::MAX
        &&& forall|a: int, c: int|
            0 <= a < n && 0 <= c <= k ==> #[trigger] self.left_cayley_graph@[a][c]
                == old.left_cayley_graph@[a][c]
        &&& forall|a: int, c: int|
            0 <= a < n && 0 <= c <= k && !(a == u && c == g) ==> #[trigger] self.right_cayley_graph@[a][c]
                == old.right_cayley_graph@[a][c]
        &&& self.right_cayley_graph@[u][g] == Some(n as usize)
        &&& forall|a: int, b: int|
            0 <= a < n && 0 <= b <= k && !(a == u && b == g) ==> #[trigger] self.reduced@[a][b]
                == old.reduced@[a][b]
        &&& self.reduced@[u][g]
        &&& self.right_cayley_graph@[n as int][0] == Some(n as usize)
        &&& self.left_cayley_graph@[n as int][0] == Some(n as usize)
        &&& forall|c: int| 1 <= c <= k ==> (#[trigger] self.right_cayley_graph@[n as int][c]) is None
        &&& forall|c: int| 1 <= c <= k ==> (#[trigger] self.left_cayley_graph@[n as int][c]) is None
    }

    /// What `push_element` asks of the new element.
    /// What appending `x`, the new product of element `u` and generator `g`, asks of the
    /// state, apart from its suffix.
    closed spec fn can_extend(&self, x: T::V, u: int, g: int) -> bool {
        let n = self.elements@.len();
        &&& 0 <= u < n
        &&& 1 <= g <= self.k()
        &&& self.words@[u].len() >= 1
        &&& x == T::product(self.elements@[u]@, self.gens()[g - 1])
        &&& self.covered(self.words@[u].len())
        &&& forall|j: int| 0 <= j < u ==> self.right_done(j)
        &&& forall|a: int| 1 <= a < g ==> (#[trigger] self.right_cayley_graph@[u][a]) is Some
        &&& forall|i: int| 0 <= i < n ==> self.elements@[i]@ != x
        &&& forall|i: int| 0 <= i < n ==> shortlex_lt(#[trigger] self.words@[i], self.words@[u].push(g as usize))
        &&& (n + 1) * (self.k() + 1) <= usize::MAX
    }

    /// What `push_element` asks of the new element and its suffix `s`.
    closed spec fn can_push(&self, x: T::V, u: int, g: int, s: int) -> bool {
        let n = self.elements@.len();
        &&& self.can_extend(x, u, g)
        &&& 0 <= s < n
        &&& x == T::product(self.gens()[self.first@[u] - 1], self.elements@[s]@)
        &&& self.words@[s].len() == self.words@[u].len()
        &&& self.elements@[s]@ == self.value(self.words@[u].push(g as usize).drop_first())
        &&& self.words@[s] == self.words@[u].push(g as usize).drop_first()
    }

    proof fn lemma_pushed_elements(&self, old: &Self, x: T::V, u: int, g: int, s: int)
        requires
            old.inv(),
            old.can_push(x, u, g, s),
            self.pushed(old, x, u, g, s),
        ensures
            self.inv_sizes(),
            self.inv_elements(),
    {
        reveal(elements_ok);
        reveal(FroidurePin::pushed);
        let n = old.elements@.len();
        let k = old.k();
        old.lemma_all_compatible();
        T::lemma_product_closed(old.elements@[u]@, old.gens()[g - 1]);
        assert(self.gens() =~= old.gens());
        assert(self.elems() =~= old.elems().push(x));
        assert forall|i: int, j: int|
            0 <= i < n + 1 && 0 <= j < n + 1 && i != j implies #[trigger] self.elements@[i]@
            != #[trigger] self.elements@[j]@ by {
            if i < n && j < n {
                assert(old.elements@[i]@ != old.elements@[j]@);
            }
        }
        assert forall|i: int| self.offset() <= i < self.offset() + k implies #[trigger] self.words@[i]
            == seq![(i - self.offset() + 1) as usize] by {
            assert(old.words@[i] == seq![(i - self.offset() + 1) as usize]);
        }
        if self.has_identity {
            assert(self.elements@[0] == old.elements@[0]);
        }
    }

    #[verifier::rlimit(100)]
    #[verifier::spinoff_prover]
    proof fn lemma_pushed_words(&self, old: &Self, x: T::V, u: int, g: int, s: int)
        requires
            old.inv(),
            old.can_push(x, u, g, s),
            self.pushed(old, x, u, g, s),
        ensures
            self.inv_words(),
    {
        reveal(words_ok);
        reveal(FroidurePin::pushed);
        let n = old.elements@.len();
        let k = old.k();
        let wu = old.words@[u];
        let wn = wu.push(g as usize);
        old.lemma_all_compatible();
        assert(is_word_over(wu, k));
        lemma_evaluate_push::<T>(old.gens(), old.elements@[0]@, wu, g as usize, old.shape@);
        assert(self.gens() =~= old.gens());
        assert(self.elements@[0] == old.elements@[0]);
        assert(forall|w: Seq<usize>| #[trigger] self.value(w) == old.value(w));
        assert(is_word_over(wn, k)) by {
            assert forall|i: int| 0 <= i < wn.len() implies 1 <= #[trigger] wn[i] <= k by {
                if i < wu.len() {
                    assert(wn[i] == wu[i]);
                }
            }
        }
        assert(wn[0] == wu[0]);
        assert(wn.drop_last() =~= wu);
        assert(wu.len() <= u + 1);
        assert(n + 1 <= usize::MAX) by (nonlinear_arith)
            requires
                (n + 1) * (k + 1) <= usize::MAX,
        ;
        assert(self.words@[n as int] == wn);
        assert(self.first@[n as int] == old.first@[u]);
        assert(self.last@[n as int] == g);
        assert(self.prefix@[n as int] == Some(u as usize));
        assert(self.suffix@[n as int] == Some(s as usize));
        assert(self.length@[n as int] == wn.len());
        assert(self.elements@[n as int]@ == self.value(wn));
        assert(self.words@[u] == old.words@[u]);
        assert(self.elements@[s] == old.elements@[s]);
        assert forall|i: int|
            0 <= i < n + 1 implies {
            &&& is_word_over(#[trigger] self.words@[i], k)
            &&& self.length@[i] == self.words@[i].len()
            &&& self.words@[i].len() <= i + 1
            &&& self.elements@[i]@ == self.value(self.words@[i])
            &&& (self.words@[i].len() == 0 <==> (self.has_identity && i == 0))
        } by {
            if i < n {
                assert(self.words@[i] == old.words@[i]);
            }
        }
        assert forall|i: int|
            0 <= i < n + 1 && #[trigger] self.words@[i].len() >= 1 implies {
            &&& self.first@[i] == self.words@[i][0]
            &&& self.last@[i] == self.words@[i].last()
        } by {
            if i < n {
                assert(self.words@[i] == old.words@[i]);
            }
        }
        let gs = self.generators@;
        let es = self.elements@;
        let e0 = es[0]@;
        assert forall|i: int|
            0 <= i < n + 1 && #[trigger] self.words@[i].len() >= 2 implies {
            &&& self.prefix@[i] matches Some(p) && p < i && self.words@[p as int]
                == self.words@[i].drop_last()
            &&& self.suffix@[i] matches Some(q) && q < i && self.words@[q as int].len() + 1
                == self.words@[i].len() && self.words@[q as int] == self.words@[i].drop_first()
                && es[q as int]@ == evaluate::<T>(
                views(gs),
                e0,
                self.words@[i].drop_first(),
            ) && es[i]@ == T::product(gs[self.first@[i] - 1]@, es[q as int]@)
        } by {
            if i < n {
                assert(self.words@[i] == old.words@[i]);
                let p = old.prefix@[i].unwrap();
                let q = old.suffix@[i].unwrap();
                assert(self.words@[p as int] == old.words@[p as int]);
                assert(self.words@[q as int] == old.words@[q as int]);
                assert(es[q as int] == old.elements@[q as int]);
                assert(es[i] == old.elements@[i]);
            } else {
                assert(self.words@[u] == old.words@[u]);
                assert(self.words@[s] == old.words@[s]);
                assert(es[s] == old.elements@[s]);
                assert(old.gens()[old.first@[u] - 1] == gs[old.first@[u] - 1]@);
            }
        }
        assert forall|i: int|
            0 <= i < n + 1 && #[trigger] self.words@[i].len() == 1 implies {
            &&& self.prefix@[i] == (if self.has_identity {
                Some(0usize)
            } else {
                None
            })
            &&& self.suffix@[i] == self.prefix@[i]
        } by {
            if i < n {
                assert(self.words@[i] == old.words@[i]);
            }
        }
        assert forall|i: int|
            0 <= i < n + 1 && #[trigger] self.words@[i].len() == 0 implies self.prefix@[i] is None
            && self.suffix@[i] is None by {
            if i < n {
                assert(self.words@[i] == old.words@[i]);
            }
        }
        assert forall|i: int, j: int|
            0 <= i < j < n + 1 implies shortlex_lt(#[trigger] self.words@[i], #[trigger] self.words@[j]) by {
            assert(self.words@[i] == old.words@[i]);
            if j < n {
                assert(self.words@[j] == old.words@[j]);
                assert(shortlex_lt(old.words@[i], old.words@[j]));
            }
        }
    }

    /// A word of the value of the product of element `u` and generator `g`, which is not
    /// among the elements, is no less in shortlex order than the word of `u` followed by
    /// `g`, where all words of up to that many letters before it have been tried.
    proof fn lemma_new_is_least(&self, u: int, g: int, x: T::V, w: Seq<usize>)
        requires
            self.inv(),
            self.can_extend(x, u, g),
            is_value_word(w, self.k(), self.has_identity),
            self.value(w) == x,
        ensures
            self.words@[u].push(g as usize) == w || shortlex_lt(self.words@[u].push(g as usize), w),
    {
        reveal(minimal_ok);
        reveal(tables_ok);
        let n = self.elements@.len();
        let c = self.words@[u].len();
        let wu = self.words@[u];
        let big_w = wu.push(g as usize);
        let gs = self.gens();
        let e0 = self.elements@[0]@;
        let k = self.k();
        self.lemma_all_compatible();
        self.lemma_word_length(u);
        if w.len() <= c {
            self.lemma_covered_word(c, w);
            let j = choose|j: int| 0 <= j < n && self.elements@[j]@ == self.value(w);
        } else if w.len() == c + 1 {
            lemma_lex_trichotomy(big_w, w);
            if lex_lt(w, big_w) {
                let y = w.drop_last();
                let a = w.last();
                assert(w =~= y.push(a));
                assert(is_word_over(y, k));
                assert(1 <= w[w.len() - 1] <= k);
                assert(gs[a - 1] == self.generators@[a - 1]@);
                assert(self.value(w) == T::product(self.value(y), gs[a - 1]));
                lemma_lex_push_inverse(y, a, wu, g as usize);
                if y == wu && a < g {
                    assert(self.right_cayley_graph@[u][a as int] is Some);
                    let v = self.right_cayley_graph@[u][a as int].unwrap();
                    assert(self.elements@[v as int]@ == x);
                } else {
                    self.lemma_covered_word(c, y);
                    let j = choose|j: int| 0 <= j < n && self.elements@[j]@ == self.value(y);
                    assert(self.words@[j] == y || shortlex_lt(self.words@[j], y));
                    self.lemma_word_length(j);
                    if self.words@[j].len() < c {
                        let wj = self.words@[j];
                        let w2 = wj.push(a);
                        if wj.len() == 0 {
                            reveal(elements_ok);
                        }
                        lemma_evaluate_push::<T>(gs, e0, wj, a, self.shape@);
                        assert(is_word_over(w2, k)) by {
                            assert forall|m: int| 0 <= m < w2.len() implies 1 <= #[trigger] w2[m] <= k by {
                                if m < wj.len() {
                                    assert(w2[m] == wj[m]);
                                }
                            }
                        }
                        self.lemma_covered_word(c, w2);
                        let j2 = choose|j2: int| 0 <= j2 < n && self.elements@[j2]@ == self.value(w2);
                        assert(self.elements@[j2]@ == x);
                    } else {
                        assert(lex_lt(self.words@[j], wu)) by {
                            if self.words@[j] != y {
                                lemma_lex_transitive(self.words@[j], y, wu);
                            }
                        }
                        if j >= u {
                            if j == u {
                                lemma_lex_irreflexive(wu);
                            } else {
                                self.lemma_sorted_lex(u, j);
                                lemma_lex_transitive(wu, self.words@[j], wu);
                                lemma_lex_irreflexive(wu);
                            }
                        }
                        assert(self.right_done(j));
                        assert(self.right_cayley_graph@[j][a as int] is Some);
                        let v = self.right_cayley_graph@[j][a as int].unwrap();
                        assert(self.elements@[v as int]@ == x);
                    }
                }
            }
        }
    }

    /// Words of one length at later positions come later lexicographically.
    proof fn lemma_sorted_lex(&self, i: int, j: int)
        requires
            self.inv(),
            0 <= i < j < self.elements@.len(),
            self.words@[i].len() == self.words@[j].len(),
        ensures
            lex_lt(self.words@[i], self.words@[j]),
    {
        reveal(words_ok);
        assert(shortlex_lt(self.words@[i], self.words@[j]));
    }

    #[verifier::spinoff_prover]
    proof fn lemma_pushed_reduced(&self, old: &Self, x: T::V, u: int, g: int, s: int)
        requires
            old.inv(),
            old.can_push(x, u, g, s),
            self.pushed(old, x, u, g, s),
        ensures
            self.inv_reduced(),
    {
        reveal(reduced_ok);
        reveal(FroidurePin::pushed);
        let n = old.elements@.len();
        old.right_cayley_graph.lemma_shape();
        assert(n <= usize::MAX) by (nonlinear_arith)
            requires
                n * (old.k() + 1) <= usize::MAX,
        ;
        assert(old.inv_reduced());
        assert forall|t: int|
            0 <= t < self.words@.len() && (#[trigger] self.words@[t]).len() >= 2 implies (
            self.prefix@[t] matches Some(p) && self.reduced@[p as int][self.last@[t] as int]) by {
            if t < n {
                assert(self.words@[t] == old.words@[t]);
                old.lemma_prefix_value(t);
                let p = old.prefix@[t].unwrap();
                assert(old.reduced@[p as int][old.last@[t] as int]);
                assert(self.prefix@[t] == old.prefix@[t]);
                assert(self.last@[t] == old.last@[t]);
                if !(p == u && old.last@[t] == g) {
                    assert(self.reduced@[p as int][old.last@[t] as int] == old.reduced@[p as int][old.last@[t] as int]);
                }
            } else {
                assert(t == n);
                assert((u as usize) as int == u);
                assert((g as usize) as int == g);
                assert(self.prefix@[t] == Some(u as usize));
                assert(self.last@[t] == g as usize);
                assert(u < n);
                assert(self.reduced@[u][g]);
            }
        }
    }

    proof fn lemma_pushed_minimal(&self, old: &Self, x: T::V, u: int, g: int, s: int)
        requires
            old.inv(),
            old.can_push(x, u, g, s),
            self.pushed(old, x, u, g, s),
        ensures
            self.inv_minimal(),
    {
        reveal(minimal_ok);
        reveal(FroidurePin::pushed);
        let n = old.elements@.len();
        let gs = self.generators@;
        let es = self.elements@;
        let k = gs.len();
        assert(es[0] == old.elements@[0]);
        let c = old.words@[u].len();
        let wu = old.words@[u];
        let big_w = wu.push(g as usize);
        assert forall|i: int, w: Seq<usize>|
            #![trigger es[i], evaluate::<T>(views(gs), es[0]@, w)]
            0 <= i < es.len() && is_value_word(w, gs.len(), self.has_identity) && evaluate::<T>(
                views(gs),
                es[0]@,
                w,
            ) == es[i]@ implies self.words@[i] == w || shortlex_lt(self.words@[i], w) by {
            if i < n {
                assert(es[i] == old.elements@[i]);
                assert(self.words@[i] == old.words@[i]);
                assert(old.elements@[i] == old.elements@[i]);
            } else {
                assert(self.words@[i] == big_w);
                assert(old.value(w) == x);
                old.lemma_new_is_least(u, g, x, w);
            }
        }
    }

    proof fn lemma_pushed_tables(&self, old: &Self, x: T::V, u: int, g: int, s: int)
        requires
            old.inv(),
            old.can_push(x, u, g, s),
            self.pushed(old, x, u, g, s),
        ensures
            self.inv_tables(),
            self.inv_rules(),
            self.inv_sources(),
    {
        reveal(tables_ok);
        reveal(rules_ok);
        reveal(sources_ok);
        reveal(FroidurePin::pushed);
        let n = old.elements@.len();
        let k = old.k();
        let gs = self.generators@;
        let es = self.elements@;
        let r = self.right_cayley_graph@;
        let l = self.left_cayley_graph@;
        assert(gs == old.generators@);
        assert(n + 1 <= usize::MAX) by (nonlinear_arith)
            requires
                (n + 1) * (k + 1) <= usize::MAX,
        ;
        assert forall|a: int, c: int|
            0 <= a < n + 1 && 1 <= c <= k implies (#[trigger] r[a][c] matches Some(v) ==> v < n + 1
            && es[v as int]@ == T::product(es[a]@, gs[c - 1]@)) by {
            if a < n {
                assert(es[a] == old.elements@[a]);
                if a == u && c == g {
                    assert(old.gens()[g - 1] == gs[g - 1]@);
                } else {
                    assert(r[a][c] == old.right_cayley_graph@[a][c]);
                    if let Some(v) = old.right_cayley_graph@[a][c] {
                        assert(es[v as int] == old.elements@[v as int]);
                    }
                }
            }
        }
        assert forall|a: int, c: int|
            0 <= a < n + 1 && 1 <= c <= k implies (#[trigger] l[a][c] matches Some(v) ==> v < n + 1
            && es[v as int]@ == T::product(gs[c - 1]@, es[a]@)) by {
            if a < n {
                assert(es[a] == old.elements@[a]);
                assert(l[a][c] == old.left_cayley_graph@[a][c]);
                if let Some(v) = old.left_cayley_graph@[a][c] {
                    assert(es[v as int] == old.elements@[v as int]);
                }
            }
        }
        assert forall|a: int| 0 <= a < n + 1 implies #[trigger] r[a][0] == Some(a as usize) by {
            if a < n {
                assert(old.right_cayley_graph@[a][0] == Some(a as usize));
                assert(r[a][0] == old.right_cayley_graph@[a][0]);
            }
        }
        assert forall|a: int| 0 <= a < n + 1 implies #[trigger] l[a][0] == Some(a as usize) by {
            if a < n {
                assert(old.left_cayley_graph@[a][0] == Some(a as usize));
                assert(l[a][0] == old.left_cayley_graph@[a][0]);
            }
        }
        assert(self.rules() == old.rules());
        assert(es[0] == old.elements@[0]);
        assert forall|r: int| 0 <= r < self.rules().len() implies {
            let (a, b, c) = #[trigger] self.rule_sources@[r];
            &&& a < es.len()
            &&& 1 <= b <= gs.len()
            &&& c < es.len()
            &&& self.rules()[r].0 == self.words@[a as int].push(b)
            &&& self.rules()[r].1 == self.words@[c as int]
            &&& es[c as int]@ == T::product(es[a as int]@, gs[b - 1]@)
        } by {
            let (a, b, c) = old.rule_sources@[r];
            assert(self.words@[a as int] == old.words@[a as int]);
            assert(self.words@[c as int] == old.words@[c as int]);
            assert(es[a as int] == old.elements@[a as int]);
            assert(es[c as int] == old.elements@[c as int]);
        }
    }

    /// Appends `x`, the product of element `u` and generator `g`, as a new element whose
    /// word is that of `u` followed by `g`; `s` is its suffix.
    #[verifier::rlimit(100)]
    fn push_element(&mut self, x: T, u: usize, g: usize, s: usize) -> (n: usize)
        requires
            old(self).inv(),
            old(self).can_push(x@, u as int, g as int, s as int),
        ensures
            n == old(self).elements@.len(),
            final(self).inv(),
            final(self).pushed(old(self), x@, u as int, g as int, s as int),
    {
        let n = self.elements.len();
        let ghost old_self = *self;
        let f = self.first[u];
        proof {
            self.lemma_word_length(u as int);
            assert(n * (self.k() + 1) <= (n + 1) * (self.k() + 1)) by (nonlinear_arith);
            assert(n + 1 <= usize::MAX) by (nonlinear_arith)
                requires
                    (n + 1) * (self.k() + 1) <= usize::MAX,
            ;
        }
        let len = self.length[u] + 1;
        self.elements.push(x);
        assert(self.elements@.drop_last() =~= old_self.elements@);
        self.element_map.push(&self.elements);
        self.first.push(f);
        self.last.push(g);
        self.prefix.push(Some(u));
        self.suffix.push(Some(s));
        self.length.push(len);
        self.words = Ghost(self.words@.push(old_self.words@[u as int].push(g)));
        proof {
            self.reduced.lemma_shape();
            self.right_cayley_graph.lemma_shape();
            self.left_cayley_graph.lemma_shape();
        }
        self.reduced.add_row();
        proof {
            self.reduced.lemma_shape();
        }
        let ghost red1 = self.reduced@;
        self.reduced.set(u, g, true);
        proof {
            assert forall|a: int, b: int|
                0 <= a < n && 0 <= b <= old_self.k() && !(a == u && b == g) implies #[trigger] self.reduced@[a][b]
                == old_self.reduced@[a][b] by {
                assert(red1[a] == red1.subrange(0, n as int)[a]);
            }
        }
        self.right_cayley_graph.add_row();
        self.left_cayley_graph.add_row();
        proof {
            self.right_cayley_graph.lemma_shape();
            self.left_cayley_graph.lemma_shape();
        }
        let ghost r1 = self.right_cayley_graph@;
        let ghost l1 = self.left_cayley_graph@;
        self.right_cayley_graph.set(n, 0, Some(n));
        proof {
            self.right_cayley_graph.lemma_shape();
        }
        let ghost r2 = self.right_cayley_graph@;
        self.right_cayley_graph.set(u, g, Some(n));
        self.left_cayley_graph.set(n, 0, Some(n));
        proof {
            let k = old_self.k();
            assert forall|i: int| 0 <= i < n implies #[trigger] self.elements@[i] == old_self.elements@[i] by {
                assert(self.elements@[i] == self.elements@.drop_last()[i]);
            }
            assert forall|a: int, c: int|
                0 <= a < n && 0 <= c <= k implies #[trigger] self.left_cayley_graph@[a][c]
                == old_self.left_cayley_graph@[a][c] by {
                assert(l1[a] == l1.subrange(0, n as int)[a]);
            }
            assert forall|a: int, c: int|
                0 <= a < n && 0 <= c <= k && !(a == u && c == g) implies #[trigger] self.right_cayley_graph@[a][c]
                == old_self.right_cayley_graph@[a][c] by {
                assert(r1[a] == r1.subrange(0, n as int)[a]);
            }
            assert forall|c: int| 1 <= c <= k implies (#[trigger] self.right_cayley_graph@[n as int][c]) is None by {
                assert(crate::vec2::is_default(r1[n as int][c]));
            }
            assert forall|c: int| 1 <= c <= k implies (#[trigger] self.left_cayley_graph@[n as int][c]) is None by {
                assert(crate::vec2::is_default(l1[n as int][c]));
            }
            reveal(FroidurePin::pushed);
            assert(self.pushed(&old_self, x@, u as int, g as int, s as int));
            self.lemma_pushed_elements(&old_self, x@, u as int, g as int, s as int);
            self.lemma_pushed_words(&old_self, x@, u as int, g as int, s as int);
            self.lemma_pushed_tables(&old_self, x@, u as int, g as int, s as int);
            self.lemma_pushed_minimal(&old_self, x@, u as int, g as int, s as int);
            self.lemma_pushed_reduced(&old_self, x@, u as int, g as int, s as int);
        }
        n
    }

    /// A filled entry of the right table names the product; so does one of the left.
    proof fn lemma_entries(&self, a: int, c: int)
        requires
            self.inv(),
            0 <= a < self.elements@.len(),
            1 <= c <= self.k(),
        ensures
            self.right_cayley_graph@[a][c] matches Some(v) ==> v < self.elements@.len()
                && self.elements@[v as int]@ == T::product(self.elements@[a]@, self.gens()[c - 1]),
            self.left_cayley_graph@[a][c] matches Some(v) ==> v < self.elements@.len()
                && self.elements@[v as int]@ == T::product(self.gens()[c - 1], self.elements@[a]@),
    {
        reveal(tables_ok);
    }

    /// An element of a word of two or more letters is its first letter times its suffix;
    /// one of a single letter is that generator.
    proof fn lemma_suffix_value(&self, i: int)
        requires
            self.inv(),
            0 <= i < self.elements@.len(),
            self.words@[i].len() >= 1,
        ensures
            1 <= self.first@[i] <= self.k(),
            self.words@[i].len() >= 2 ==> (self.suffix@[i] matches Some(s) && s < i
                && self.words@[s as int].len() + 1 == self.words@[i].len()
                && self.words@[s as int] == self.words@[i].drop_first()
                && self.elements@[s as int]@ == self.value(self.words@[i].drop_first())
                && self.elements@[i]@ == T::product(
                self.gens()[self.first@[i] - 1],
                self.elements@[s as int]@,
            )),
            self.words@[i].len() == 1 ==> self.elements@[i]@ == self.gens()[self.first@[i] - 1]
                && self.last@[i] == self.first@[i],
    {
        reveal(words_ok);
        let w = self.words@[i];
        assert(1 <= w[0] <= self.k());
        assert(self.gens()[self.first@[i] - 1] == self.generators@[self.first@[i] - 1]@);
    }

    /// Distinct elements have distinct words.
    proof fn lemma_words_unique(&self, i: int, j: int)
        requires
            self.inv(),
            0 <= i < self.elements@.len(),
            0 <= j < self.elements@.len(),
            self.words@[i] == self.words@[j],
        ensures
            i == j,
    {
        reveal(words_ok);
        if i < j {
            assert(shortlex_lt(self.words@[i], self.words@[j]));
            lemma_lex_irreflexive(self.words@[i]);
        } else if j < i {
            assert(shortlex_lt(self.words@[j], self.words@[i]));
            lemma_lex_irreflexive(self.words@[i]);
        }
    }

    /// The word of the suffix of an element is the element's word without its first letter.
    proof fn lemma_suffix_word(&self, u: int)
        requires
            self.inv(),
            0 <= u < self.elements@.len(),
            self.words@[u].len() >= 2,
        ensures
            self.suffix@[u] matches Some(s) && self.words@[s as int] == self.words@[u].drop_first(),
            self.words@[u] == seq![self.first@[u]] + self.words@[u].drop_first(),
    {
        self.lemma_suffix_value(u);
        self.lemma_word_length(u);
        let wu = self.words@[u];
        assert(wu =~= seq![self.first@[u]] + wu.drop_first());
    }

    /// Every table entry that the structural shortcut reads for element `u` and generator
    /// `g` is filled in, where `s` `g` was not new and the rows it may reach are done.
    proof fn lemma_shortcut_defined(&self, u: int, g: int, s: int, t: int)
        requires
            self.inv(),
            0 <= u < self.elements@.len(),
            1 <= g <= self.k(),
            self.words@[u].len() >= 2,
            self.suffix@[u] == Some(s as usize),
            0 <= s <= usize::MAX,
            0 <= t <= usize::MAX,
            !self.reduced@[s][g],
            self.right_cayley_graph@[s][g] == Some(t as usize),
            forall|j: int| 0 <= j < u ==> self.right_done(j),
            forall|a: int| 1 <= a < g ==> (#[trigger] self.right_cayley_graph@[u][a]) is Some,
            forall|i: int|
                0 <= i < self.elements@.len() && #[trigger] self.words@[i].len()
                    < self.words@[u].len() ==> self.right_done(i) && self.left_done(i),
        ensures
            0 <= t < self.elements@.len(),
            self.words@[t].len() == 1 ==> (self.right_cayley_graph@[
                self.first@[u] - 1 + self.offset()][self.last@[t] as int]) is Some,
            self.words@[t].len() >= 2 ==> (self.prefix@[t] matches Some(pt) && self.left_cayley_graph@[
                pt as int][self.first@[u] as int] matches Some(w) && (self.right_cayley_graph@[
                w as int][self.last@[t] as int]) is Some),
    {
        reveal(reduced_ok);
        self.lemma_suffix_word(u);
        self.lemma_suffix_value(u);
        self.lemma_entries(s, g);
        self.lemma_all_compatible();
        self.right_cayley_graph.lemma_shape();
        self.left_cayley_graph.lemma_shape();
        let c = self.words@[u].len();
        let wu = self.words@[u];
        let f = self.first@[u];
        let ws = self.words@[s];
        let wsg = ws.push(g as usize);
        let gs = self.gens();
        let e0 = self.elements@[0]@;
        self.lemma_word_length(s);
        self.lemma_word_length(t);
        assert(gs[g - 1] == self.generators@[g - 1]@);
        lemma_evaluate_push::<T>(gs, e0, ws, g as usize, self.shape@);
        assert(is_word_over(wsg, self.k())) by {
            assert forall|i: int| 0 <= i < wsg.len() implies 1 <= #[trigger] wsg[i] <= self.k() by {
                if i < ws.len() {
                    assert(wsg[i] == ws[i]);
                }
            }
        }
        self.lemma_shortest(t, wsg);
        let wt = self.words@[t];
        if wt == wsg {
            self.lemma_prefix_value(t);
            let p = self.prefix@[t].unwrap() as int;
            assert(self.words@[p] == ws);
            self.lemma_words_unique(p, s);
            assert(self.reduced@[p][self.last@[t] as int]);
        }
        assert(shortlex_lt(wt, wsg));
        assert(f - 1 + self.offset() == f - 1 + self.offset());
        if wt.len() == 1 {
            self.lemma_generator_position(f as int);
            assert(self.right_done(f - 1 + self.offset()));
            self.lemma_prefix_value_len1(t);
        } else if wt.len() >= 2 {
            self.lemma_prefix_value(t);
            let pt = self.prefix@[t].unwrap() as int;
            let lt = self.last@[t];
            self.lemma_word_length(pt);
            assert(self.left_done(pt));
            assert(self.left_cayley_graph@[pt][f as int] is Some);
            let w = self.left_cayley_graph@[pt][f as int].unwrap() as int;
            self.lemma_entries(pt, f as int);
            let wpt = self.words@[pt];
            let w2 = seq![f] + wpt;
            lemma_evaluate_prepend::<T>(gs, e0, f, wpt, self.shape@);
            assert(is_word_over(w2, self.k())) by {
                assert forall|i: int| 0 <= i < w2.len() implies 1 <= #[trigger] w2[i] <= self.k() by {
                    if i > 0 {
                        assert(w2[i] == wpt[i - 1]);
                    }
                }
            }
            assert(gs[f - 1] == self.generators@[f - 1]@);
            self.lemma_shortest(w, w2);
            self.lemma_word_length(w);
            assert(wpt.len() + 1 == wt.len());
            assert(w2.len() == wpt.len() + 1);
            if wt.len() < c || self.words@[w].len() < c {
                assert(self.words@[w].len() < c);
                assert(self.right_done(w));
            } else {
                assert(wt =~= wpt.push(lt));
                lemma_lex_push_inverse(wpt, lt, ws, g as usize);
                if wpt == ws {
                    assert((s as usize) as int == s);
                    assert(ws == wu.drop_first());
                    assert(wu == seq![f] + wu.drop_first());
                    assert(w2 == wu);
                    if self.words@[w] == wu {
                        self.lemma_words_unique(w, u);
                        lemma_lex_irreflexive(ws);
                        assert(lt < g);
                        assert(self.right_cayley_graph@[u][lt as int] is Some);
                    } else {
                        self.lemma_before(w, u);
                        assert(self.right_done(w));
                    }
                } else {
                    assert(ws == wu.drop_first());
                    assert(wu == seq![f] + wu.drop_first());
                    lemma_lex_prepend(f, wpt, ws);
                    if self.words@[w] != w2 {
                        lemma_lex_transitive(self.words@[w], w2, wu);
                    }
                    self.lemma_before(w, u);
                    assert(self.right_done(w));
                }
            }
            assert(self.right_cayley_graph@[w][lt as int] is Some);
        }
    }

    /// An element whose word comes before that of `u`, of the same length, sits before it.
    proof fn lemma_before(&self, w: int, u: int)
        requires
            self.inv(),
            0 <= w < self.elements@.len(),
            0 <= u < self.elements@.len(),
            self.words@[w].len() == self.words@[u].len(),
            lex_lt(self.words@[w], self.words@[u]),
        ensures
            w < u,
    {
        if w == u {
            lemma_lex_irreflexive(self.words@[u]);
        } else if w > u {
            self.lemma_sorted_lex(u, w);
            lemma_lex_transitive(self.words@[u], self.words@[w], self.words@[u]);
            lemma_lex_irreflexive(self.words@[u]);
        }
    }

    /// An element of one letter is that generator, with that letter first and last.
    proof fn lemma_prefix_value_len1(&self, t: int)
        requires
            self.inv(),
            0 <= t < self.elements@.len(),
            self.words@[t].len() == 1,
        ensures
            1 <= self.last@[t] <= self.k(),
    {
        reveal(words_ok);
        assert(is_word_over(self.words@[t], self.k()));
        assert(1 <= self.words@[t][0] <= self.k());
    }
    /// Reads element `u` times generator `g` off the tables, where `u` is its first letter
    /// `f` times its suffix `s`, and the word of `s` followed by `g` was not new: `s g` is
    /// an element `t`, and `f t` is `f` times the prefix of `t`, times the last letter of `t`.
    fn shortcut(&self, u: usize, g: usize, s: usize, f: usize) -> (r: usize)
        requires
            self.inv(),
            u < self.elements@.len(),
            1 <= g <= self.k(),
            self.words@[u as int].len() >= 2,
            self.suffix@[u as int] == Some(s),
            self.first@[u as int] == f,
            !self.reduced@[s as int][g as int],
            forall|j: int| 0 <= j < u ==> self.right_done(j),
            forall|a: int| 1 <= a < g ==> (#[trigger] self.right_cayley_graph@[u as int][a]) is Some,
            forall|i: int|
                0 <= i < self.elements@.len() && #[trigger] self.words@[i].len()
                    < self.words@[u as int].len() ==> self.right_done(i) && self.left_done(i),
        ensures
            r < self.elements@.len(),
            self.elements@[r as int]@ == T::product(self.elements@[u as int]@, self.gens()[g - 1]),
    {
        let o: usize = if self.has_identity {
            1
        } else {
            0
        };
        proof {
            self.lemma_suffix_value(u as int);
            self.lemma_generator_position(f as int);
            self.lemma_all_compatible();
            self.lemma_entries(s as int, g as int);
            self.right_cayley_graph.lemma_shape();
            self.left_cayley_graph.lemma_shape();
            assert(self.right_done(s as int));
        }
        let eu = Ghost(self.elements@[u as int]@);
        let es = Ghost(self.elements@[s as int]@);
        let gf = Ghost(self.gens()[f - 1]);
        let gg = Ghost(self.gens()[g - 1]);
        proof {
            T::lemma_associative(gf@, es@, gg@);
        }
        let t = self.right_cayley_graph.get(s, g).unwrap();
        proof {
            self.lemma_word_length(t as int);
            self.lemma_shortcut_defined(u as int, g as int, s as int, t as int);
        }
        if self.length[t] == 0 {
            proof {
                reveal(elements_ok);
                T::lemma_identity(self.elements@[t as int]@, gf@);
            }
            f - 1 + o
        } else {
            let lt = self.last[t];
            proof {
                self.lemma_suffix_value(t as int);
            }
            let w = if self.length[t] == 1 {
                f - 1 + o
            } else {
                proof {
                    self.lemma_prefix_value(t as int);
                }
                let pt = self.prefix[t].unwrap();
                proof {
                    self.lemma_entries(pt as int, f as int);
                    T::lemma_associative(gf@, self.elements@[pt as int]@, self.gens()[lt - 1]);
                }
                self.left_cayley_graph.get(pt, f).unwrap()
            };
            proof {
                self.lemma_suffix_value(t as int);
                if self.words@[t as int].len() >= 2 {
                    self.lemma_prefix_value(t as int);
                }
                self.lemma_entries(w as int, lt as int);
            }
            self.right_cayley_graph.get(w, lt).unwrap()
        }
    }

    /// Growing the list of elements keeps every word covered that was covered.
    proof fn lemma_covered_grows(&self, old: &Self, len: nat)
        requires
            old.covered(len),
            old.elements@.len() >= 1,
            old.elements@.len() <= self.elements@.len(),
            self.elements@.subrange(0, old.elements@.len() as int) == old.elements@,
            self.generators@ == old.generators@,
            self.has_identity == old.has_identity,
        ensures
            self.covered(len),
    {
        reveal(covered_upto);
        let n0 = old.elements@.len() as int;
        assert(self.elements@[0] == self.elements@.subrange(0, n0)[0]);
        assert forall|w: Seq<usize>|
            is_value_word(w, self.generators@.len(), self.has_identity) && w.len() <= len implies exists|i: int|
            0 <= i < self.elements@.len() && #[trigger] self.elements@[i]@ == evaluate::<T>(
                views(self.generators@),
                self.elements@[0]@,
                w,
            ) by {
            let i = choose|i: int|
                0 <= i < n0 && #[trigger] old.elements@[i]@ == evaluate::<T>(
                    views(old.generators@),
                    old.elements@[0]@,
                    w,
                );
            assert(self.elements@[i] == self.elements@.subrange(0, n0)[i]);
        }
    }

    /// No word of an element's value comes before its recorded word in shortlex order.
    proof fn lemma_shortest(&self, i: int, w: Seq<usize>)
        requires
            self.inv(),
            0 <= i < self.elements@.len(),
            is_value_word(w, self.k(), self.has_identity),
            self.value(w) == self.elements@[i]@,
        ensures
            self.words@[i].len() <= w.len(),
            self.words@[i] == w || shortlex_lt(self.words@[i], w),
    {
        reveal(minimal_ok);
    }

    /// A covered word has its value among the elements.
    proof fn lemma_covered_word(&self, len: nat, w: Seq<usize>)
        requires
            self.covered(len),
            is_value_word(w, self.k(), self.has_identity),
            w.len() <= len,
        ensures
            exists|j: int| 0 <= j < self.elements@.len() && self.elements@[j]@ == self.value(w),
    {
        reveal(covered_upto);
        let j = choose|j: int|
            0 <= j < self.elements@.len() && #[trigger] self.elements@[j]@ == evaluate::<T>(
                views(self.generators@),
                self.elements@[0]@,
                w,
            );
    }

    /// The suffix of a new element `u` times `g`: the element `t` that `g` takes the
    /// suffix `s` of `u` to has a word one letter shorter than the product's, and is the
    /// value of the product's word without its first letter.
    proof fn lemma_new_suffix(&self, u: int, g: int, s: int, t: int, x: T::V)
        requires
            self.inv(),
            0 <= u < self.elements@.len(),
            1 <= g <= self.k(),
            self.words@[u].len() >= 2,
            self.covered(self.words@[u].len()),
            0 <= s <= usize::MAX,
            0 <= t <= usize::MAX,
            self.suffix@[u] == Some(s as usize),
            self.right_cayley_graph@[s][g] == Some(t as usize),
            x == T::product(self.elements@[u]@, self.gens()[g - 1]),
            forall|j: int| 0 <= j < self.elements@.len() ==> self.elements@[j]@ != x,
        ensures
            0 <= t < self.elements@.len(),
            self.words@[t].len() == self.words@[u].len(),
            self.elements@[t]@ == self.value(self.words@[u].push(g as usize).drop_first()),
            x == T::product(self.gens()[self.first@[u] - 1], self.elements@[t]@),
    {
        self.lemma_suffix_value(u);
        self.lemma_all_compatible();
        self.lemma_entries(s, g);
        self.lemma_word_length(u);
        self.lemma_word_length(t);
        let c = self.words@[u].len();
        let wu = self.words@[u];
        let f = self.first@[u];
        let e0 = self.elements@[0]@;
        let gs = self.gens();
        let tail = wu.drop_first();
        assert(is_word_over(tail, self.k())) by {
            assert forall|i: int| 0 <= i < tail.len() implies 1 <= #[trigger] tail[i] <= self.k() by {
                assert(tail[i] == wu[i + 1]);
            }
        }
        assert(wu.push(g as usize).drop_first() =~= tail.push(g as usize));
        lemma_evaluate_push::<T>(gs, e0, tail, g as usize, self.shape@);
        let dropped = tail.push(g as usize);
        assert(is_word_over(dropped, self.k())) by {
            assert forall|i: int| 0 <= i < dropped.len() implies 1 <= #[trigger] dropped[i] <= self.k() by {
                if i < tail.len() {
                    assert(dropped[i] == tail[i]);
                }
            }
        }
        assert(self.elements@[t]@ == self.value(dropped));
        self.lemma_shortest(t, dropped);
        T::lemma_associative(gs[f - 1], self.elements@[s]@, gs[g - 1]);
        assert(x == T::product(gs[f - 1], self.elements@[t]@));
        if self.words@[t].len() < c {
            let wt = self.words@[t];
            let w2 = seq![f] + wt;
            if wt.len() == 0 {
                reveal(elements_ok);
            }
            lemma_evaluate_prepend::<T>(gs, e0, f, wt, self.shape@);
            assert(is_word_over(w2, self.k())) by {
                assert forall|i: int| 0 <= i < w2.len() implies 1 <= #[trigger] w2[i] <= self.k() by {
                    if i > 0 {
                        assert(w2[i] == wt[i - 1]);
                    }
                }
            }
            assert(self.value(w2) == x);
            self.lemma_covered_word(c, w2);
            let j = choose|j: int| 0 <= j < self.elements@.len() && self.elements@[j]@ == self.value(w2);
            assert(self.elements@[j]@ != x);
        }
    }

    /// The suffix `t` of a new element `u` times `g` has as its word exactly the new word
    /// without its first letter.
    proof fn lemma_new_suffix_word(&self, u: int, g: int, s: int, t: int, x: T::V)
        requires
            self.inv(),
            self.can_extend(x, u, g),
            self.words@[u].len() >= 2,
            0 <= s <= usize::MAX,
            0 <= t <= usize::MAX,
            self.suffix@[u] == Some(s as usize),
            self.right_cayley_graph@[s][g] == Some(t as usize),
        ensures
            self.words@[t] == self.words@[u].push(g as usize).drop_first(),
    {
        self.lemma_new_suffix(u, g, s, t, x);
        self.lemma_suffix_word(u);
        self.lemma_all_compatible();
        let wu = self.words@[u];
        let f = self.first@[u];
        let tail = wu.drop_first();
        let dropped = wu.push(g as usize).drop_first();
        let big_w = wu.push(g as usize);
        let wt = self.words@[t];
        self.lemma_word_length(u);
        self.lemma_word_length(t);
        assert(dropped =~= tail.push(g as usize));
        assert(is_word_over(dropped, self.k())) by {
            assert forall|i: int| 0 <= i < dropped.len() implies 1 <= #[trigger] dropped[i] <= self.k() by {
                if i < tail.len() {
                    assert(dropped[i] == wu[i + 1]);
                }
            }
        }
        self.lemma_shortest(t, dropped);
        if wt != dropped {
            assert(lex_lt(wt, dropped));
            lemma_lex_prepend(f, wt, dropped);
            let w2 = seq![f] + wt;
            assert(big_w =~= seq![f] + dropped);
            if wt.len() == 0 {
                reveal(elements_ok);
            }
            lemma_evaluate_prepend::<T>(self.gens(), self.elements@[0]@, f, wt, self.shape@);
            assert(is_word_over(w2, self.k())) by {
                assert forall|i: int| 0 <= i < w2.len() implies 1 <= #[trigger] w2[i] <= self.k() by {
                    if i > 0 {
                        assert(w2[i] == wt[i - 1]);
                    }
                }
            }
            assert(self.value(w2) == x);
            self.lemma_new_is_least(u, g, x, w2);
            lemma_lex_transitive(w2, big_w, w2);
            lemma_lex_irreflexive(w2);
        }
    }

    /// Where the elements found and one more distinct value do not fit in the tables, the
    /// generators give more distinct elements than the tables can hold.
    proof fn lemma_overflow(&self, u: int, g: int, x: T::V, limit: int)
        requires
            self.inv(),
            0 <= u < self.elements@.len(),
            1 <= g <= self.k(),
            self.words@[u].len() >= 1,
            x == T::product(self.elements@[u]@, self.gens()[g - 1]),
            forall|j: int| 0 <= j < self.elements@.len() ==> self.elements@[j]@ != x,
            self.elements@.len() >= limit,
            (limit + 1) * (self.k() + 1) > usize::MAX,
        ensures
            exceeds_tables::<T>(self.gens(), self.elements@[0]@, self.has_identity),
    {
        reveal(words_ok);
        reveal(elements_ok);
        self.lemma_all_compatible();
        let n = self.elements@.len();
        let k = self.k();
        let gs = self.gens();
        let e0 = self.elements@[0]@;
        let wu = self.words@[u];
        let wn = wu.push(g as usize);
        let ws = self.words@.push(wn);
        assert(is_word_over(wu, k));
        lemma_evaluate_push::<T>(gs, e0, wu, g as usize, self.shape@);
        assert(evaluate::<T>(gs, e0, wn) == x);
        assert forall|i: int| 0 <= i < ws.len() implies is_value_word(#[trigger] ws[i], k, self.has_identity) by {
            if i < n {
                assert(ws[i] == self.words@[i]);
            } else {
                assert forall|m: int| 0 <= m < wn.len() implies 1 <= #[trigger] wn[m] <= k by {
                    if m < wu.len() {
                        assert(wn[m] == wu[m]);
                    }
                }
            }
        }
        assert forall|i: int, j: int| 0 <= i < j < ws.len() implies evaluate::<T>(gs, e0, #[trigger] ws[i])
            != evaluate::<T>(gs, e0, #[trigger] ws[j]) by {
            assert(ws[i] == self.words@[i]);
            assert(evaluate::<T>(gs, e0, ws[i]) == self.elements@[i]@);
            if j < n {
                assert(ws[j] == self.words@[j]);
                assert(self.elements@[i]@ != self.elements@[j]@);
            }
        }
        assert(distinct_value_words::<T>(gs, e0, self.has_identity, ws));
        assert(ws.len() * (k + 1) > usize::MAX) by (nonlinear_arith)
            requires
                ws.len() == n + 1,
                n >= limit,
                (limit + 1) * (k + 1) > usize::MAX,
        ;
    }

    /// Fills in the right table at element `u` and generator `g`: by the structural
    /// shortcut where the word of the suffix followed by `g` was not new, else by
    /// multiplying, recording a rule or a new element. Fails only where a new element would
    /// not fit in the tables.
    fn right_step(&mut self, u: usize, g: usize, limit: usize) -> (r: Result<(), EnumerationError>)
        requires
            old(self).inv(),
            u < old(self).elements@.len(),
            1 <= g <= old(self).k(),
            limit * (old(self).k() + 1) <= usize::MAX,
            (limit + 1) * (old(self).k() + 1) > usize::MAX,
            old(self).words@[u as int].len() >= 1,
            old(self).covered(old(self).words@[u as int].len()),
            forall|i: int|
                0 <= i < old(self).elements@.len() && #[trigger] old(self).words@[i].len()
                    < old(self).words@[u as int].len() ==> old(self).right_done(i)
                    && old(self).left_done(i),
            forall|j: int| 0 <= j < u ==> old(self).right_done(j),
            forall|a: int| 1 <= a < g ==> (#[trigger] old(self).right_cayley_graph@[u as int][a]) is Some,
            forall|r: int|
                0 <= r < old(self).rule_sources@.len() ==> found_before(
                    #[trigger] old(self).rule_sources@[r],
                    u as int,
                    g as int,
                ),
            forall|i: int|
                0 <= i < old(self).elements@.len() ==> shortlex_lt(
                    #[trigger] old(self).words@[i],
                    old(self).words@[u as int].push(g),
                ),
        ensures
            r is Ok ==> {
                let n = old(self).elements@.len();
                &&& final(self).inv()
                &&& final(self).generators@ == old(self).generators@
                &&& final(self).has_identity == old(self).has_identity
                &&& final(self).current_word_length == old(self).current_word_length
                &&& final(self).elements@.len() == n || final(self).elements@.len() == n + 1
                &&& final(self).elements@.subrange(0, n as int) == old(self).elements@
                &&& final(self).words@.subrange(0, n as int) == old(self).words@
                &&& final(self).elements@.len() == n + 1 ==> final(self).words@[n as int]
                    == old(self).words@[u as int].push(g)
                &&& forall|a: int, c: int|
                    0 <= a < n && 0 <= c <= old(self).k() && !(a == u && c == g) ==> #[trigger] final(self).right_cayley_graph@[a][c] == old(self).right_cayley_graph@[a][c]
                &&& forall|a: int, c: int|
                    0 <= a < n && 0 <= c <= old(self).k() ==> #[trigger] final(self).left_cayley_graph@[a][c] == old(self).left_cayley_graph@[a][c]
                &&& final(self).right_cayley_graph@[u as int][g as int] is Some
                &&& final(self).covered(old(self).words@[u as int].len())
                &&& forall|r: int|
                    0 <= r < final(self).rule_sources@.len() ==> found_before(
                        #[trigger] final(self).rule_sources@[r],
                        u as int,
                        g + 1,
                    )
            },
            r is Err ==> r == Err::<(), EnumerationError>(EnumerationError::TooManyElements)
                && exceeds_tables::<T>(old(self).gens(), old(self).elements@[0]@, old(self).has_identity),
            old(self).elements@.len() == 0 ==> r is Ok,
    {
        let ghost old_self = *self;
        let ghost c = self.words@[u as int].len();
        let o: usize = if self.has_identity {
            1
        } else {
            0
        };
        let f = self.first[u];
        proof {
            self.lemma_word_length(u as int);
            self.lemma_suffix_value(u as int);
            self.lemma_all_compatible();
            assert(self.gens()[g - 1] == self.generators@[g - 1]@);
            self.right_cayley_graph.lemma_shape();
            self.left_cayley_graph.lemma_shape();
        }
        let mut target: Option<usize> = None;
        if self.length[u] >= 2 {
            let s = self.suffix[u].unwrap();
            if !*self.reduced.get(s, g) {
                target = Some(self.shortcut(u, g, s, f));
            }
        }
        match target {
            Some(x) => {
                self.set_right(u, g, x);
                proof {
                    assert(self.elements@.subrange(0, old_self.elements@.len() as int) =~= old_self.elements@);
                    assert(self.words@.subrange(0, old_self.elements@.len() as int) =~= old_self.words@);
                    self.lemma_covered_grows(&old_self, c);
                }
                Ok(())
            },
            None => {
                let p = self.elements[u].multiply(&self.generators[g - 1]);
                match self.element_map.find(&self.elements, &p) {
                    Some(v) => {
                        self.push_rule(u, g, v);
                        self.set_right(u, g, v);
                        proof {
                            assert(self.elements@.subrange(0, old_self.elements@.len() as int) =~= old_self.elements@);
                            assert(self.words@.subrange(0, old_self.elements@.len() as int) =~= old_self.words@);
                            self.lemma_covered_grows(&old_self, c);
                        }
                        Ok(())
                    },
                    None => {
                        let n = self.elements.len();
                        if n >= limit {
                            proof {
                                self.lemma_overflow(u as int, g as int, p@, limit as int);
                            }
                            return Err(EnumerationError::TooManyElements);
                        }
                        proof {
                            assert((n + 1) * (self.k() + 1) <= limit * (self.k() + 1)) by (nonlinear_arith)
                                requires
                                    n + 1 <= limit,
                            ;
                        }
                        let s_new = if self.length[u] == 1 {
                            proof {
                                self.lemma_generator_position(g as int);
                                let wn = self.words@[u as int].push(g);
                                assert(wn.drop_first() =~= seq![g]);
                                assert(seq![g][0] == g);
                                reveal(elements_ok);
                                assert(self.words@[g - 1 + o] == seq![(g - 1 + o - o + 1) as usize]);
                                assert(self.value(seq![g]) == self.gens()[g - 1]);
                            }
                            g - 1 + o
                        } else {
                            let s = self.suffix[u].unwrap();
                            proof {
                                assert(self.words@[s as int].len() < c);
                                self.lemma_entries(s as int, g as int);
                            }
                            let t = self.right_cayley_graph.get(s, g).unwrap();
                            proof {
                                self.lemma_new_suffix(u as int, g as int, s as int, t as int, p@);
                                self.lemma_new_suffix_word(u as int, g as int, s as int, t as int, p@);
                            }
                            t
                        };
                        self.push_element(p, u, g, s_new);
                        proof {
                            reveal(FroidurePin::pushed);
                            assert(self.elements@.subrange(0, n as int) =~= old_self.elements@);
                            assert(self.words@.subrange(0, n as int) =~= old_self.words@);
                            self.lemma_covered_grows(&old_self, c);
                        }
                        Ok(())
                    },
                }
            },
        }
    }

    /// Fills in the left table at element `u` and generator `g`, from the left product of
    /// its prefix and its last letter. The rows it reads are filled in already.
    fn left_step(&mut self, u: usize, g: usize)
        requires
            old(self).inv(),
            u < old(self).elements@.len(),
            1 <= g <= old(self).k(),
            old(self).words@[u as int].len() >= 1,
            forall|i: int|
                0 <= i < old(self).elements@.len() && #[trigger] old(self).words@[i].len()
                    < old(self).words@[u as int].len() ==> old(self).left_done(i),
            forall|i: int|
                0 <= i < old(self).elements@.len() && #[trigger] old(self).words@[i].len()
                    <= old(self).words@[u as int].len() ==> old(self).right_done(i),
        ensures
            final(self).inv(),
            final(self).same_elements(old(self)),
            final(self).rule_sources@ == old(self).rule_sources@,
            final(self).right_cayley_graph@ == old(self).right_cayley_graph@,
            final(self).left_cayley_graph@ == old(self).left_cayley_graph@.update(
                u as int,
                old(self).left_cayley_graph@[u as int].update(
                    g as int,
                    final(self).left_cayley_graph@[u as int][g as int],
                ),
            ),
            final(self).left_cayley_graph@[u as int][g as int] is Some,
    {
        let o: usize = if self.has_identity {
            1
        } else {
            0
        };
        let lu = self.last[u];
        proof {
            self.lemma_word_length(u as int);
            self.lemma_suffix_value(u as int);
            self.lemma_all_compatible();
            self.lemma_generator_position(g as int);
            assert(self.gens()[g - 1] == self.generators@[g - 1]@);
            self.right_cayley_graph.lemma_shape();
            self.left_cayley_graph.lemma_shape();
        }
        let x = if self.length[u] == 1 {
            g - 1 + o
        } else {
            proof {
                self.lemma_prefix_value(u as int);
            }
            let p = self.prefix[u].unwrap();
            proof {
                self.lemma_entries(p as int, g as int);
                T::lemma_associative(self.gens()[g - 1], self.elements@[p as int]@, self.gens()[lu - 1]);
                assert(self.words@[p as int].len() < self.words@[u as int].len());
                assert(self.left_done(p as int));
                assert(self.left_cayley_graph@[p as int][g as int] is Some);
            }
            let x = self.left_cayley_graph.get(p, g).unwrap();
            proof {
                self.lemma_word_length(p as int);
                let wp = self.words@[p as int];
                let w2 = seq![g] + wp;
                let gs = self.gens();
                let e0 = self.elements@[0]@;
                assert(is_word_over(wp, self.k()));
                lemma_evaluate_prepend::<T>(gs, e0, g, wp, self.shape@);
                assert(is_word_over(w2, self.k())) by {
                    assert forall|i: int| 0 <= i < w2.len() implies 1 <= #[trigger] w2[i] <= self.k() by {
                        if i > 0 {
                            assert(w2[i] == wp[i - 1]);
                        }
                    }
                }
                assert(self.elements@[p as int]@ == self.value(wp));
                assert(self.value(w2) == self.elements@[x as int]@);
                self.lemma_shortest(x as int, w2);
            }
            x
        };
        proof {
            if self.words@[u as int].len() >= 2 {
                self.lemma_prefix_value(u as int);
            }
            self.lemma_word_length(x as int);
            assert(self.right_done(x as int));
            assert(self.right_cayley_graph@[x as int][lu as int] is Some);
            self.lemma_entries(x as int, lu as int);
        }
        let y = self.right_cayley_graph.get(x, lu).unwrap();
        self.set_left(u, g, y);
    }

    /// Words further on are no shorter.
    proof fn lemma_lengths_sorted(&self, i: int, j: int)
        requires
            self.inv(),
            0 <= i <= j < self.elements@.len(),
        ensures
            self.words@[i].len() <= self.words@[j].len(),
    {
        reveal(words_ok);
        if i < j {
            assert(shortlex_lt(self.words@[i], self.words@[j]));
        }
    }

    /// Where every word of `c` letters is covered, and every element whose word has at
    /// most `c` letters has its row of the right table filled in, so is every word of
    /// `c + 1` letters.
    proof fn lemma_cover_next(&self, c: nat, end: int)
        requires
            self.inv(),
            c >= 1,
            self.covered(c),
            0 <= end <= self.elements@.len(),
            forall|i: int| 0 <= i < end ==> self.right_done(i),
            forall|i: int| end <= i < self.elements@.len() ==> #[trigger] self.words@[i].len() > c,
        ensures
            self.covered(c + 1),
    {
        reveal(minimal_ok);
        reveal(tables_ok);
        let gs = self.generators@;
        let es = self.elements@;
        let k = gs.len();
        assert forall|w: Seq<usize>|
            is_value_word(w, k, self.has_identity) && w.len() <= c + 1 implies exists|i: int|
            0 <= i < es.len() && es[i]@ == self.value(w) by {
            if w.len() == c + 1 {
                let x = w.drop_last();
                let a = w.last();
                assert(is_word_over(x, k));
                assert(1 <= w[w.len() - 1] <= k);
                self.lemma_covered_word(c, x);
                let j = choose|j: int| 0 <= j < es.len() && es[j]@ == self.value(x);
                self.lemma_shortest(j, x);
                assert(j < end);
                assert(self.right_done(j));
                self.right_cayley_graph.lemma_shape();
                assert(self.right_cayley_graph@[j][a as int] is Some);
                let v = self.right_cayley_graph@[j][a as int].unwrap();
                assert(es[v as int]@ == T::product(es[j]@, gs[a - 1]@));
                assert(self.gens()[a - 1] == gs[a - 1]@);
                assert(self.value(w) == T::product(self.value(x), self.gens()[w.last() - 1]));
                assert(es[v as int]@ == self.value(w));
                assert(0 <= v < es.len());
            } else {
                self.lemma_covered_word(c, w);
            }
        }
        reveal(covered_upto);
    }

    /// Runs the enumeration to its end: for each word length, the right pass over the
    /// elements of that length, then the left pass over them.
    #[verifier::rlimit(100)]
    #[verifier::spinoff_prover]
    /// The right pass over the elements of the current word length, from position `v` on:
    /// fills in their rows of the right table, finding the elements one letter longer.
    /// Fails only where those do not fit in the tables.
    #[verifier::rlimit(100)]
    #[verifier::spinoff_prover]
    fn right_pass(&mut self, v: usize, limit: usize) -> (r: Result<usize, EnumerationError>)
        requires
            old(self).inv(),
            limit * (old(self).k() + 1) <= usize::MAX,
            (limit + 1) * (old(self).k() + 1) > usize::MAX,
            old(self).current_word_length >= 1,
            old(self).covered(old(self).current_word_length as nat),
            v < old(self).elements@.len(),
            old(self).words@[v as int].len() == old(self).current_word_length,
            forall|i: int| 0 <= i < v ==> #[trigger] old(self).words@[i].len() < old(self).current_word_length,
            forall|i: int|
                0 <= i < old(self).elements@.len() ==> #[trigger] old(self).words@[i].len()
                    <= old(self).current_word_length,
            forall|i: int| 0 <= i < v ==> old(self).right_done(i) && old(self).left_done(i),
            forall|r: int|
                0 <= r < old(self).rule_sources@.len() ==> found_before(
                    #[trigger] old(self).rule_sources@[r],
                    v as int,
                    1,
                ),
        ensures
            r matches Ok(end) ==> {
                let c = old(self).current_word_length;
                &&& final(self).inv()
                &&& final(self).generators@ == old(self).generators@
                &&& final(self).has_identity == old(self).has_identity
                &&& final(self).current_word_length == c
                &&& old(self).elements@.len() <= final(self).elements@.len()
                &&& final(self).elements@.subrange(0, old(self).elements@.len() as int)
                    == old(self).elements@
                &&& v < end <= final(self).elements@.len()
                &&& final(self).covered((c + 1) as nat)
                &&& forall|i: int| v <= i < end ==> #[trigger] final(self).words@[i].len() == c
                &&& forall|i: int|
                    end <= i < final(self).elements@.len() ==> #[trigger] final(self).words@[i].len()
                        == c + 1
                &&& forall|i: int| 0 <= i < v ==> #[trigger] final(self).words@[i].len() < c
                &&& forall|i: int| 0 <= i < end ==> final(self).right_done(i)
                &&& forall|i: int| 0 <= i < v ==> final(self).left_done(i)
                &&& forall|r: int|
                    0 <= r < final(self).rule_sources@.len() ==> found_before(
                        #[trigger] final(self).rule_sources@[r],
                        end as int,
                        1,
                    )
            },
            r is Err ==> r == Err::<usize, EnumerationError>(EnumerationError::TooManyElements)
                && exceeds_tables::<T>(old(self).gens(), old(self).elements@[0]@, old(self).has_identity),
    {
        let ghost start = *self;
        let k = self.generators.len();
        let o: usize = if self.has_identity {
            1
        } else {
            0
        };
        proof {
            assert(self.elements@.subrange(0, start.elements@.len() as int) =~= start.elements@);
        }
        let c = self.current_word_length;
        let mut u = v;
        proof {
            assert forall|i: int| v <= i < self.elements@.len() implies #[trigger] self.words@[i].len() >= c by {
                reveal(words_ok);
                if i > v {
                    assert(shortlex_lt(self.words@[v as int], self.words@[i]));
                }
            }
            assert forall|i: int| 0 <= i < self.elements@.len() implies shortlex_lt(
                #[trigger] self.words@[i],
                self.words@[v as int].push(1),
            ) by {
            }
        }
        while u < self.elements.len() && self.length[u] == c
            invariant
                start == *old(self),
                self.inv(),
                k == self.k(),
                limit * (k + 1) <= usize::MAX,
                (limit + 1) * (k + 1) > usize::MAX,
                start.elements@.len() >= 1,
                self.covered(c as nat),
                o == self.offset(),
                self.generators@ == start.generators@,
                self.has_identity == start.has_identity,
                self.elements@.subrange(0, start.elements@.len() as int) == start.elements@,
                start.elements@.len() <= self.elements@.len(),
                c == self.current_word_length,
                c >= 1,
                v < u || (v == u && u < self.elements@.len() && self.words@[u as int].len() == c),
                u <= self.elements@.len(),
                forall|i: int| v <= i < u ==> #[trigger] self.words@[i].len() == c,
                forall|i: int| 0 <= i < v ==> #[trigger] self.words@[i].len() < c,
                forall|i: int|
                    0 <= i < self.elements@.len() ==> #[trigger] self.words@[i].len() <= c + 1,
                forall|i: int|
                    u <= i < self.elements@.len() ==> #[trigger] self.words@[i].len() >= c,
                forall|i: int| 0 <= i < u ==> self.right_done(i),
                forall|i: int| 0 <= i < v ==> self.left_done(i),
                forall|r: int|
                    0 <= r < self.rule_sources@.len() ==> found_before(
                        #[trigger] self.rule_sources@[r],
                        u as int,
                        1,
                    ),
                u < self.elements@.len() && self.words@[u as int].len() == c ==> forall|i: int|
                    0 <= i < self.elements@.len() ==> shortlex_lt(
                        #[trigger] self.words@[i],
                        self.words@[u as int].push(1),
                    ),
            decreases usize::MAX - u,
        {
            proof {
                self.lemma_word_length(u as int);
                reveal(tables_ok);
                assert(self.right_cayley_graph@[u as int][0] == Some(u));
            }
            let mut g: usize = 1;
            while g <= k
                invariant
                    start == *old(self),
                    self.inv(),
                    k == self.k(),
                    limit * (k + 1) <= usize::MAX,
                    (limit + 1) * (k + 1) > usize::MAX,
                    start.elements@.len() >= 1,
                    self.covered(c as nat),
                    o == self.offset(),
                    self.generators@ == start.generators@,
                    self.has_identity == start.has_identity,
                    self.elements@.subrange(0, start.elements@.len() as int) == start.elements@,
                    start.elements@.len() <= self.elements@.len(),
                    c == self.current_word_length,
                    c >= 1,
                    v <= u < self.elements@.len(),
                    self.words@[u as int].len() == c,
                    1 <= g <= k + 1,
                    forall|i: int| v <= i < u ==> #[trigger] self.words@[i].len() == c,
                    forall|i: int| 0 <= i < v ==> #[trigger] self.words@[i].len() < c,
                    forall|i: int|
                        0 <= i < self.elements@.len() ==> #[trigger] self.words@[i].len() <= c + 1,
                    forall|i: int|
                        u <= i < self.elements@.len() ==> #[trigger] self.words@[i].len() >= c,
                    forall|i: int| 0 <= i < u ==> self.right_done(i),
                    forall|i: int| 0 <= i < v ==> self.left_done(i),
                    forall|h: int| 0 <= h < g ==> (#[trigger] self.right_cayley_graph@[u as int][h]) is Some,
                    forall|r: int|
                        0 <= r < self.rule_sources@.len() ==> found_before(
                            #[trigger] self.rule_sources@[r],
                            u as int,
                            g as int,
                        ),
                    forall|i: int|
                        0 <= i < self.elements@.len() ==> shortlex_lt(
                            #[trigger] self.words@[i],
                            self.words@[u as int].push(g),
                        ),
                decreases k + 1 - g,
            {
                let ghost before = *self;
                proof {
                    reveal(tables_ok);
                    assert(self.right_cayley_graph@[u as int][0] == Some(u));
                }
                proof {
                    assert forall|i: int|
                        0 <= i < self.elements@.len() && #[trigger] self.words@[i].len() < c
                            implies self.right_done(i) by {
                        if i >= v {
                            if i < u {
                                assert(self.words@[i].len() == c);
                            } else {
                                assert(self.words@[i].len() >= c);
                            }
                        }
                    }
                }
                match self.right_step(u, g, limit) {
                    Ok(()) => {},
                    Err(e) => {
                        proof {
                            assert(before.elements@[0] == before.elements@.subrange(
                                0,
                                start.elements@.len() as int,
                            )[0]);
                            assert(before.gens() == start.gens());
                        }
                        return Err(e);
                    },
                }
                proof {
                    let n0 = before.elements@.len();
                    let wg = before.words@[u as int].push(g);
                    let wg1 = before.words@[u as int].push((g + 1) as usize);
                    lemma_lex_last_letter(before.words@[u as int], g, (g + 1) as usize);
                    assert(shortlex_lt(wg, wg1));
                    assert forall|i: int| 0 <= i < n0 implies #[trigger] self.words@[i] == before.words@[i] by {
                        assert(self.words@[i] == self.words@.subrange(0, n0 as int)[i]);
                    }
                    assert(self.elements@.subrange(0, start.elements@.len() as int) =~= start.elements@) by {
                        assert forall|i: int| 0 <= i < start.elements@.len() implies self.elements@[i] == start.elements@[i] by {
                            assert(self.elements@[i] == self.elements@.subrange(0, n0 as int)[i]);
                            assert(before.elements@[i] == before.elements@.subrange(0, start.elements@.len() as int)[i]);
                        }
                    }
                    assert forall|i: int| 0 <= i < self.elements@.len() implies shortlex_lt(
                        #[trigger] self.words@[i],
                        self.words@[u as int].push((g + 1) as usize),
                    ) by {
                        if i < n0 {
                            lemma_shortlex_transitive(self.words@[i], wg, wg1);
                        }
                    }
                    assert forall|i: int| 0 <= i < u implies self.right_done(i) by {
                        assert forall|h: int| 0 <= h <= k implies (#[trigger] self.right_cayley_graph@[i][h]) is Some by {
                            assert(before.right_done(i));
                            assert(before.right_cayley_graph@[i][h] is Some);
                        }
                    }
                    assert forall|i: int| 0 <= i < v implies self.left_done(i) by {
                        assert forall|h: int| 0 <= h <= k implies (#[trigger] self.left_cayley_graph@[i][h]) is Some by {
                            assert(before.left_done(i));
                            assert(before.left_cayley_graph@[i][h] is Some);
                        }
                    }
                    assert forall|h: int| 0 <= h < g + 1 implies (#[trigger] self.right_cayley_graph@[u as int][h]) is Some by {
                        if h < g {
                            assert(before.right_cayley_graph@[u as int][h] is Some);
                        }
                    }
                }
                g = g + 1;
            }
            proof {
                assert(self.right_done(u as int));
                if u + 1 < self.elements@.len() && self.words@[u + 1].len() == c {
                    assert(shortlex_lt(self.words@[u as int], self.words@[u + 1])) by {
                        reveal(words_ok);
                    }
                    lemma_lex_extend(self.words@[u as int], self.words@[u + 1], (k + 1) as usize, 1);
                    assert forall|i: int| 0 <= i < self.elements@.len() implies shortlex_lt(
                        #[trigger] self.words@[i],
                        self.words@[u + 1].push(1),
                    ) by {
                        lemma_shortlex_transitive(
                            self.words@[i],
                            self.words@[u as int].push((k + 1) as usize),
                            self.words@[u + 1].push(1),
                        );
                    }
                }
            }
            u = u + 1;
            proof {
                if u < self.elements@.len() {
                    self.lemma_word_length(u as int);
                }
            }
        }
        let end = u;
        proof {
            if end < self.elements@.len() {
                self.lemma_word_length(end as int);
                assert(self.words@[end as int].len() == c + 1);
            }
            assert forall|i: int| end <= i < self.elements@.len() implies #[trigger] self.words@[i].len() == c + 1 by {
                self.lemma_lengths_sorted(end as int, i);
            }
            self.lemma_cover_next(c as nat, end as int);
        }
        Ok(end)
    }

    /// The left pass over the elements at positions `v..end`, all of the current word
    /// length: fills in their rows of the left table from rows filled in before.
    #[verifier::rlimit(100)]
    #[verifier::spinoff_prover]
    fn left_pass(&mut self, v: usize, end: usize)
        requires
            old(self).inv(),
            old(self).current_word_length >= 1,
            v < end <= old(self).elements@.len(),
            old(self).covered((old(self).current_word_length + 1) as nat),
            forall|i: int| v <= i < end ==> #[trigger] old(self).words@[i].len() == old(self).current_word_length,
            forall|i: int|
                end <= i < old(self).elements@.len() ==> #[trigger] old(self).words@[i].len()
                    == old(self).current_word_length + 1,
            forall|i: int| 0 <= i < v ==> #[trigger] old(self).words@[i].len() < old(self).current_word_length,
            forall|i: int| 0 <= i < end ==> old(self).right_done(i),
            forall|i: int| 0 <= i < v ==> old(self).left_done(i),
        ensures
            final(self).inv(),
            final(self).same_elements(old(self)),
            final(self).rule_sources@ == old(self).rule_sources@,
            forall|i: int| 0 <= i < end ==> final(self).right_done(i) && final(self).left_done(i),
    {
        let ghost start = *self;
        let k = self.generators.len();
        let o: usize = if self.has_identity {
            1
        } else {
            0
        };
        let c = self.current_word_length;
        proof {
            assert(self.elements@.subrange(0, start.elements@.len() as int) =~= start.elements@);
        }
        let mut u = v;
        while u < end
            invariant
                start == *old(self),
                self.inv(),
                k == self.k(),
                o == self.offset(),
                self.generators@ == start.generators@,
                self.has_identity == start.has_identity,
                self.elements@.subrange(0, start.elements@.len() as int) == start.elements@,
                start.elements@.len() <= self.elements@.len(),
                c == self.current_word_length,
                c >= 1,
                v <= u <= end,
                v < end,
                end <= self.elements@.len(),
                end < self.elements@.len() ==> self.words@[end as int].len() == c + 1,
                self.covered((c + 1) as nat),
                self.same_elements(&start),
                self.rule_sources@ == start.rule_sources@,
                start.elements@.len() >= 1,
                forall|i: int| end <= i < self.elements@.len() ==> #[trigger] self.words@[i].len() == c + 1,
                forall|i: int| v <= i < end ==> #[trigger] self.words@[i].len() == c,
                forall|i: int| 0 <= i < v ==> #[trigger] self.words@[i].len() < c,
                forall|i: int|
                    0 <= i < self.elements@.len() ==> #[trigger] self.words@[i].len() <= c + 1,
                forall|i: int| 0 <= i < end ==> self.right_done(i),
                forall|i: int| 0 <= i < u ==> self.left_done(i),
            decreases end - u,
        {
            proof {
                reveal(tables_ok);
                assert(self.left_cayley_graph@[u as int][0] == Some(u));
            }
            let mut g: usize = 1;
            while g <= k
                invariant
                    start == *old(self),
                    self.inv(),
                    k == self.k(),
                    o == self.offset(),
                    self.generators@ == start.generators@,
                    self.has_identity == start.has_identity,
                    self.elements@.subrange(0, start.elements@.len() as int) == start.elements@,
                    start.elements@.len() <= self.elements@.len(),
                    c == self.current_word_length,
                    c >= 1,
                    v <= u < end,
                    v < end,
                    end <= self.elements@.len(),
                    end < self.elements@.len() ==> self.words@[end as int].len() == c + 1,
                    self.covered((c + 1) as nat),
                    self.same_elements(&start),
                    self.rule_sources@ == start.rule_sources@,
                self.rule_sources@ == start.rule_sources@,
                self.same_elements(&start),
                self.rule_sources@ == start.rule_sources@,
                    start.elements@.len() >= 1,
                    forall|i: int| end <= i < self.elements@.len() ==> #[trigger] self.words@[i].len() == c + 1,
                    1 <= g <= k + 1,
                    forall|i: int| v <= i < end ==> #[trigger] self.words@[i].len() == c,
                    forall|i: int| 0 <= i < v ==> #[trigger] self.words@[i].len() < c,
                    forall|i: int|
                        0 <= i < self.elements@.len() ==> #[trigger] self.words@[i].len() <= c + 1,
                    forall|i: int| 0 <= i < end ==> self.right_done(i),
                    forall|i: int| 0 <= i < u ==> self.left_done(i),
                    forall|h: int| 0 <= h < g ==> (#[trigger] self.left_cayley_graph@[u as int][h]) is Some,
                decreases k + 1 - g,
            {
                let ghost before = *self;
                proof {
                    reveal(tables_ok);
                    assert(self.left_cayley_graph@[u as int][0] == Some(u));
                    self.left_cayley_graph.lemma_shape();
                }
                proof {
                    assert forall|i: int|
                        0 <= i < self.elements@.len() && #[trigger] self.words@[i].len() < c
                            implies self.left_done(i) by {
                        if i >= v {
                            if i < end {
                                assert(self.words@[i].len() == c);
                            } else {
                                assert(self.words@[i].len() == c + 1);
                            }
                        }
                    }
                    assert forall|i: int|
                        0 <= i < self.elements@.len() && #[trigger] self.words@[i].len() <= c
                            implies self.right_done(i) by {
                        if i >= end {
                            assert(self.words@[i].len() == c + 1);
                        }
                    }
                }
                self.left_step(u, g);
                proof {
                    assert forall|i: int| 0 <= i < end implies self.right_done(i) by {
                        assert(before.right_done(i));
                    }
                    assert forall|i: int| 0 <= i < u implies self.left_done(i) by {
                        assert forall|h: int| 0 <= h <= k implies (#[trigger] self.left_cayley_graph@[i][h]) is Some by {
                            assert(before.left_done(i));
                            assert(before.left_cayley_graph@[i][h] is Some);
                        }
                    }
                    assert forall|h: int| 0 <= h < g + 1 implies (#[trigger] self.left_cayley_graph@[u as int][h]) is Some by {
                        if h < g {
                            assert(before.left_cayley_graph@[u as int][h] is Some);
                        }
                    }
                }
                g = g + 1;
            }
            proof {
                assert(self.left_done(u as int));
            }
            u = u + 1;
        }
    }

    fn run(&mut self) -> (r: Result<(), EnumerationError>)
        requires
            old(self).inv(),
            old(self).fresh(),
        ensures
            r is Ok ==> {
                &&& final(self).inv()
                &&& final(self).generators@ == old(self).generators@
                &&& final(self).has_identity == old(self).has_identity
                &&& old(self).elements@.len() <= final(self).elements@.len()
                &&& final(self).elements@.subrange(0, old(self).elements@.len() as int)
                    == old(self).elements@
                &&& forall|u: int|
                    0 <= u < final(self).elements@.len() ==> final(self).right_done(u)
                        && final(self).left_done(u)
            },
            r is Err ==> r == Err::<(), EnumerationError>(EnumerationError::TooManyElements)
                && exceeds_tables::<T>(old(self).gens(), old(self).elements@[0]@, old(self).has_identity),
            old(self).elements@.len() == 0 ==> r is Ok,
    {
        let ghost start = *self;
        if self.elements.len() == 0 {
            proof {
                assert(self.elements@.subrange(0, 0) =~= self.elements@);
            }
            return Ok(());
        }
        let k = self.generators.len();
        let o: usize = if self.has_identity {
            1
        } else {
            0
        };
        proof {
            reveal(words_ok);
            reveal(elements_ok);
            reveal(tables_ok);
        }
        let limit = usize::MAX / (k + 1);
        proof {
            let m = usize::MAX as int;
            let d = (k + 1) as int;
            vstd::arithmetic::div_mod::lemma_fundamental_div_mod(m, d);
            assert(limit == m / d);
            assert(limit * (k + 1) <= usize::MAX) by (nonlinear_arith)
                requires
                    m == d * (m / d) + m % d,
                    m % d >= 0,
                    limit == m / d,
                    d == k + 1,
                    m == usize::MAX,
            ;
            assert((limit + 1) * (k + 1) > usize::MAX) by (nonlinear_arith)
                requires
                    m == d * (m / d) + m % d,
                    m % d < d,
                    limit == m / d,
                    d == k + 1,
                    m == usize::MAX,
            ;
            assert forall|i: int| 0 <= i < o implies self.right_done(i) && self.left_done(i) by {
                assert forall|g: int| 0 <= g <= k implies (#[trigger] self.right_cayley_graph@[i][g]) is Some by {
                }
                assert forall|g: int| 0 <= g <= k implies (#[trigger] self.left_cayley_graph@[i][g]) is Some by {
                    assert(self.right_cayley_graph@[i][g] is Some);
                }
            }
            assert forall|i: int| o <= i < self.elements@.len() implies #[trigger] self.words@[i].len() == 1 by {
                assert(self.words@[i] == seq![(i - o + 1) as usize]);
            }
        }
        let mut v: usize = o;
        while v < self.elements.len()
            invariant
                start == *old(self),
                self.inv(),
                k == self.k(),
                limit * (k + 1) <= usize::MAX,
                (limit + 1) * (k + 1) > usize::MAX,
                start.elements@.len() >= 1,
                self.covered(self.current_word_length as nat),
                o == self.offset(),
                self.generators@ == start.generators@,
                self.has_identity == start.has_identity,
                self.elements@.subrange(0, start.elements@.len() as int) == start.elements@,
                start.elements@.len() <= self.elements@.len(),
                v <= self.elements@.len(),
                self.current_word_length >= 1,
                v < self.elements@.len() ==> self.words@[v as int].len() == self.current_word_length,
                forall|i: int| 0 <= i < v ==> #[trigger] self.words@[i].len() < self.current_word_length,
                forall|i: int|
                    0 <= i < self.elements@.len() ==> #[trigger] self.words@[i].len()
                        <= self.current_word_length,
                forall|i: int| 0 <= i < v ==> self.right_done(i) && self.left_done(i),
                forall|r: int|
                    0 <= r < self.rule_sources@.len() ==> found_before(
                        #[trigger] self.rule_sources@[r],
                        v as int,
                        1,
                    ),
            decreases usize::MAX - v,
        {
            let c = self.current_word_length;
            let ghost before = *self;
            let end = match self.right_pass(v, limit) {
                Ok(end) => end,
                Err(e) => {
                    proof {
                        assert(before.elements@[0] == before.elements@.subrange(
                            0,
                            start.elements@.len() as int,
                        )[0]);
                        assert(before.elements@[0] == start.elements@[0]);
                        assert(before.gens() == start.gens());
                        assert(before.has_identity == start.has_identity);
                        assert(exceeds_tables::<T>(before.gens(), before.elements@[0]@, before.has_identity));
                        assert(exceeds_tables::<T>(start.gens(), start.elements@[0]@, start.has_identity));
                        assert(e == EnumerationError::TooManyElements);
                    }
                    return Err(e);
                },
            };
            let ghost mid = *self;
            proof {
                assert(self.elements@.subrange(0, start.elements@.len() as int) =~= start.elements@) by {
                    assert forall|i: int| 0 <= i < start.elements@.len() implies self.elements@[i] == start.elements@[i] by {
                        assert(self.elements@[i] == self.elements@.subrange(0, before.elements@.len() as int)[i]);
                        assert(before.elements@[i] == before.elements@.subrange(0, start.elements@.len() as int)[i]);
                    }
                }
            }
            self.left_pass(v, end);
            proof {
                self.lemma_word_length(v as int);
                assert(1 <= self.words@[v as int][0] <= k);
                assert(self.elements@.len() * 2 <= self.elements@.len() * (k + 1)) by (nonlinear_arith)
                    requires
                        k >= 1,
                ;
            }
            assert(forall|i: int| 0 <= i < end ==> self.right_done(i) && self.left_done(i));
            let ghost pre = *self;
            v = end;
            self.current_word_length = c + 1;
            proof {
                assert forall|i: int| 0 <= i < v implies self.right_done(i) && self.left_done(i) by {
                    assert(pre.right_done(i) && pre.left_done(i));
                    assert forall|h: int| 0 <= h <= k implies (#[trigger] self.right_cayley_graph@[i][h]) is Some by {
                        assert(pre.right_cayley_graph@[i][h] is Some);
                    }
                    assert forall|h: int| 0 <= h <= k implies (#[trigger] self.left_cayley_graph@[i][h]) is Some by {
                        assert(pre.left_cayley_graph@[i][h] is Some);
                    }
                }
                reveal(words_ok);
                reveal(elements_ok);
                reveal(tables_ok);
                reveal(rules_ok);
            }
        }
        Ok(())
    }

    /// Runs the enumeration and hands its tables over to a result.
    ///
    /// On `Ok` the result holds every element, each the value of its word, which is the
    /// shortlex-least word of that value; the words increase strictly in shortlex order;
    /// both Cayley tables are filled in throughout and right; every rewrite rule is sound.
    /// It fails only where the generators give more distinct elements than the tables can
    /// hold.
    pub fn build(self) -> (r: Result<FroidurePinResult<T>, EnumerationError>)
        requires
            self.inv(),
            self.fresh(),
        ensures
            r matches Ok(res) ==> {
                &&& res.wf()
                &&& res.gens() == self.gens()
                &&& res.spec_has_identity() == self.spec_has_identity()
                &&& res.elems().subrange(0, self.elems().len() as int) == self.elems()
            },
            r is Err ==> r == Err::<FroidurePinResult<T>, EnumerationError>(
                EnumerationError::TooManyElements,
            ) && exceeds_tables::<T>(self.gens(), self.elems()[0], self.spec_has_identity()),
    {
        let mut this = self;
        match this.run() {
            Err(e) => {
                proof {
                    assert(self.elems()[0] == self.elements@[0]@);
                }
                Err(e)
            },
            Ok(()) => {
                proof {
                    reveal(tables_ok);
                    assert forall|u: int, g: int|
                        0 <= u < this.elements@.len() && 0 <= g <= this.generators@.len() implies (
                        #[trigger] this.right_cayley_graph@[u][g]) is Some by {
                        assert(this.right_done(u));
                    }
                    assert forall|u: int, g: int|
                        0 <= u < this.elements@.len() && 0 <= g <= this.generators@.len() implies (
                        #[trigger] this.left_cayley_graph@[u][g]) is Some by {
                        assert(this.left_done(u));
                    }
                }
                let res = FroidurePinResult {
                    generators: this.generators,
                    has_identity: this.has_identity,
                    elements: this.elements,
                    element_map: this.element_map,
                    rewrite_rules: this.rewrite_rules,
                    left_cayley_graph: this.left_cayley_graph,
                    right_cayley_graph: this.right_cayley_graph,
                    prefix: this.prefix,
                    last: this.last,
                    suffix: this.suffix,
                    first: this.first,
                    length: this.length,
                    words: this.words,
                    shape: this.shape,
                    rule_sources: this.rule_sources,
                };
                proof {
                    let n0 = self.elements@.len() as int;
                    assert(res.elems().subrange(0, n0) =~= self.elems()) by {
                        assert forall|i: int| 0 <= i < n0 implies res.elements@[i] == self.elements@[i] by {
                            assert(res.elements@[i] == res.elements@.subrange(0, n0)[i]);
                        }
                    }
                    assert(res.rules() == this.rules());
                }
                Ok(res)
            },
        }
    }

    /// The parts of the starting state that a plain enumeration works from.
    pub(crate) fn into_start(self) -> (r: (
        Vec<T>,
        bool,
        Vec<T>,
        ElementIndex,
        Vec2<Option<usize>>,
        Ghost<nat>,
        Ghost<Seq<Seq<usize>>>,
    ))
        requires
            self.inv(),
            self.fresh(),
        ensures
            ({
                let (generators, has_identity, elements, element_map, right, shape, words) = r;
                let n = elements@.len();
                let k = generators@.len();
                let o: int = if has_identity {
                    1
                } else {
                    0
                };
                &&& words@.len() == n
                &&& forall|i: int|
                    0 <= i < n ==> is_value_word(#[trigger] words@[i], k, has_identity)
                        && elements@[i]@ == evaluate::<T>(views(generators@), elements@[0]@, words@[i])
                &&& has_identity ==> n >= 1 && T::spec_is_id(elements@[0]@)
                &&& forall|g: int|
                    1 <= g <= k ==> #[trigger] elements@[g - 1 + offset_of(has_identity)]@
                        == generators@[g - 1]@
                &&& views(generators@) == self.gens()
                &&& views(elements@) == self.elems()
                &&& has_identity == self.spec_has_identity()
                &&& element_map.indexes::<T>(elements@)
                &&& right.wf()
                &&& right@.len() == n
                &&& right.spec_n_cols() == k + 1
                &&& n * (k + 1) <= usize::MAX
                &&& k + 1 <= usize::MAX
                &&& n >= o + k
                &&& all_of_shape::<T>(views(generators@), shape@)
                &&& all_of_shape::<T>(views(elements@), shape@)
                &&& forall|i: int, j: int|
                    0 <= i < n && 0 <= j < n && i != j ==> #[trigger] elements@[i]@
                        != #[trigger] elements@[j]@
                &&& forall|u: int, g: int|
                    0 <= u < n && 1 <= g <= k ==> (#[trigger] right@[u][g] matches Some(v) ==> v < n
                        && elements@[v as int]@ == T::product(elements@[u]@, generators@[g - 1]@))
                &&& forall|u: int| 0 <= u < n ==> #[trigger] right@[u][0] == Some(u as usize)
                &&& forall|u: int, g: int|
                    0 <= u < o && 0 <= g <= k ==> (#[trigger] right@[u][g]) is Some
            }),
    {
        proof {
            reveal(elements_ok);
            reveal(tables_ok);
            reveal(words_ok);
            assert forall|g: int| 1 <= g <= self.k() implies #[trigger] self.elements@[g - 1 + self.offset()]@
                == self.generators@[g - 1]@ by {
                self.lemma_generator_position(g);
            }
            assert forall|u: int, g: int|
                0 <= u < self.offset() && 0 <= g <= self.k() implies (#[trigger] self.right_cayley_graph@[u][g]) is Some by {
            }
        }
        (
            self.generators,
            self.has_identity,
            self.elements,
            self.element_map,
            self.right_cayley_graph,
            self.shape,
            self.words,
        )
    }

    /// The state that the enumeration starts from: the identity, if any, and one element
    /// per generator; only the identity row and column of the tables are filled in.
    pub closed spec fn fresh(&self) -> bool {
        let n = self.elements@.len();
        &&& n == self.offset() + self.k()
        &&& self.current_word_length == 1
        &&& forall|g: int| 0 <= g <= self.k() ==> self.has_identity ==> (
        #[trigger] self.right_cayley_graph@[0][g]) is Some && self.left_cayley_graph@[0][g] is Some
        &&& self.covered(1)
        &&& self.rule_sources@.len() == 0
    }

    /// The first letter of each element's word (0 for the identity).
    pub closed spec fn spec_first(&self) -> Seq<usize> {
        self.first@
    }

    /// The last letter of each element's word (0 for the identity).
    pub closed spec fn spec_last(&self) -> Seq<usize> {
        self.last@
    }

    /// Sets up the enumeration of `semigroup`: the identity, if it declares one, at
    /// position 0, then its distinct non-identity generators in order of first occurrence.
    pub fn new<U: Semigroup<T>>(semigroup: &U) -> (r: Self)
        requires
            well_formed::<T>(semigroup.spec_generators(), semigroup.spec_identity()),
            (semigroup.spec_generators().len() + 1) * (semigroup.spec_generators().len() + 1)
                <= usize::MAX,
        ensures
            r.inv(),
            r.fresh(),
            r.gens() == normalise::<T>(semigroup.spec_generators()),
            r.spec_has_identity() == semigroup.spec_identity() is Some,
            semigroup.spec_identity() matches Some(e) ==> r.elems() == seq![e] + r.gens(),
            semigroup.spec_identity() is None ==> r.elems() == r.gens(),
            r.rules().len() == 0,
            r.spec_has_identity() ==> r.spec_first()[0] == 0 && r.spec_last()[0] == 0,
            forall|u: int| 0 <= u < r.elems().len() ==> #[trigger] r.right()[u][0] == Some(u as usize)
                && r.left()[u][0] == Some(u as usize),
            forall|g: int|
                1 <= g <= r.gens().len() && r.spec_has_identity() ==> #[trigger] r.right()[0][g]
                    == Some(g as usize) && r.left()[0][g] == Some(g as usize),
            forall|u: int, g: int|
                0 <= u < r.elems().len() && 1 <= g <= r.gens().len() && !(r.spec_has_identity()
                    && u == 0) ==> (#[trigger] r.right()[u][g]) is None && r.left()[u][g] is None,
    {
        let gens = semigroup.generators();
        let ghost sg = views(gens@);
        assert(sg =~= semigroup.spec_generators());
        let ghost shape: nat = if sg.len() > 0 {
            T::shape(sg[0])
        } else {
            match semigroup.spec_identity() {
                Some(e) => T::shape(e),
                None => 0,
            }
        };
        let positions = first_occurrences(gens);
        proof {
            assert(sg.len() <= usize::MAX) by (nonlinear_arith)
                requires
                    (sg.len() + 1) * (sg.len() + 1) <= usize::MAX,
            ;
            lemma_first_positions(sg);
            assert forall|i: int| 0 <= i < sg.len() implies T::valid(#[trigger] sg[i]) && T::shape(
                sg[i],
            ) == shape by {
                assert(crate::element::compatible::<T>(sg[i], sg[0]));
            }
            lemma_non_identities::<T>(sg, positions@, shape);
        }
        let mut generators: Vec<T> = Vec::new();
        let mut j: usize = 0;
        while j < positions.len()
            invariant
                j <= positions@.len(),
                positions@ == first_positions(sg),
                sg == views(gens@),
                forall|a: int| 0 <= a < positions@.len() ==> #[trigger] positions@[a] < sg.len(),
                views(generators@) == non_identities::<T>(sg, positions@.subrange(0, j as int)),
            decreases positions@.len() - j,
        {
            let p = positions[j];
            let ghost before = positions@.subrange(0, j as int);
            assert(positions@.subrange(0, j + 1).drop_last() =~= before);
            if !gens[p].is_id() {
                let g = gens[p].duplicate();
                generators.push(g);
                assert(views(generators@) =~= non_identities::<T>(
                    sg,
                    positions@.subrange(0, j + 1),
                ));
            }
            j = j + 1;
        }
        assert(positions@.subrange(0, j as int) =~= positions@);
        let k = generators.len();
        let ghost sgens = views(generators@);
        assert(sgens == normalise::<T>(sg));
        proof {
            assert(k <= sg.len()) by {
                assert forall|a: int| 0 <= a < sgens.len() implies exists|i: int|
                    0 <= i < sg.len() && #[trigger] sgens[a] == sg[i] by {
                    let j0 = choose|j0: int| 0 <= j0 < positions@.len() && sgens[a] == sg[positions@[j0] as int];
                }
                lemma_distinct_in(sgens, sg);
            }
            assert((k + 1) * (k + 1) <= (sg.len() + 1) * (sg.len() + 1)) by (nonlinear_arith)
                requires
                    k <= sg.len(),
            ;
        }
        let identity = semigroup.id();
        let has_identity = identity.is_some();
        let ghost o: int = if has_identity {
            1
        } else {
            0
        };
        let mut elements: Vec<T> = Vec::new();
        let mut element_map = ElementIndex::new::<T>();
        let mut first: Vec<usize> = Vec::new();
        let mut last: Vec<usize> = Vec::new();
        let mut prefix: Vec<Option<usize>> = Vec::new();
        let mut suffix: Vec<Option<usize>> = Vec::new();
        let mut length: Vec<usize> = Vec::new();
        let ghost e0 = match semigroup.spec_identity() {
            Some(e) => e,
            None => sgens[0],
        };
        match identity {
            Some(e) => {
                elements.push(e);
                assert(elements@.drop_last() =~= Seq::<T>::empty());
                element_map.push(&elements);
                first.push(0);
                last.push(0);
                prefix.push(None);
                suffix.push(None);
                length.push(0);
            },
            None => {},
        }
        let pre = if has_identity {
            Some(0usize)
        } else {
            None
        };
        let mut g: usize = 0;
        while g < k
            invariant
                k == generators@.len(),
                sgens == views(generators@),
                has_identity == (o == 1),
                0 <= o <= 1,
                pre == (if has_identity {
                    Some(0usize)
                } else {
                    None
                }),
                g <= k,
                (k + 1) * (k + 1) <= usize::MAX,
                elements@.len() == o + g,
                has_identity ==> elements@[0]@ == e0,
                forall|i: int| 0 <= i < g ==> #[trigger] elements@[o + i]@ == sgens[i],
                element_map.indexes::<T>(elements@),
                first@.len() == o + g,
                last@.len() == o + g,
                prefix@.len() == o + g,
                suffix@.len() == o + g,
                length@.len() == o + g,
                has_identity ==> first@[0] == 0 && last@[0] == 0 && prefix@[0] is None
                    && suffix@[0] is None && length@[0] == 0,
                forall|j: int| o <= j < o + g ==> #[trigger] first@[j] == j - o + 1,
                forall|j: int| o <= j < o + g ==> #[trigger] last@[j] == j - o + 1,
                forall|j: int| o <= j < o + g ==> #[trigger] prefix@[j] == pre,
                forall|j: int| o <= j < o + g ==> #[trigger] suffix@[j] == pre,
                forall|j: int| o <= j < o + g ==> #[trigger] length@[j] == 1,
            decreases k - g,
        {
            let x = generators[g].duplicate();
            let ghost prev = elements@;
            elements.push(x);
            assert(elements@.drop_last() =~= prev);
            element_map.push(&elements);
            first.push(g + 1);
            last.push(g + 1);
            prefix.push(pre);
            suffix.push(pre);
            length.push(1);
            g = g + 1;
        }
        let n = elements.len();
        proof {
            assert(n * (k + 1) <= usize::MAX) by (nonlinear_arith)
                requires
                    n <= k + 1,
                    (k + 1) * (k + 1) <= usize::MAX,
            ;
        }
        assert(k + 1 <= usize::MAX) by (nonlinear_arith)
            requires
                (k + 1) * (k + 1) <= usize::MAX,
        ;
        let mut right_cayley_graph: Vec2<Option<usize>> = Vec2::new(n, k + 1);
        let mut left_cayley_graph: Vec2<Option<usize>> = Vec2::new(n, k + 1);
        let reduced: Vec2<bool> = Vec2::new(n, k + 1);
        let mut u: usize = 0;
        while u < n
            invariant
                u <= n,
                right_cayley_graph.wf(),
                left_cayley_graph.wf(),
                right_cayley_graph@.len() == n,
                left_cayley_graph@.len() == n,
                right_cayley_graph.spec_n_cols() == k + 1,
                left_cayley_graph.spec_n_cols() == k + 1,
                forall|a: int| 0 <= a < u ==> #[trigger] right_cayley_graph@[a][0] == Some(a as usize),
                forall|a: int| 0 <= a < u ==> #[trigger] left_cayley_graph@[a][0] == Some(a as usize),
                forall|a: int, c: int|
                    0 <= a < n && 1 <= c <= k ==> (#[trigger] right_cayley_graph@[a][c]) is None,
                forall|a: int, c: int|
                    0 <= a < n && 1 <= c <= k ==> (#[trigger] left_cayley_graph@[a][c]) is None,
            decreases n - u,
        {
            proof {
                right_cayley_graph.lemma_shape();
                left_cayley_graph.lemma_shape();
            }
            right_cayley_graph.set(u, 0, Some(u));
            left_cayley_graph.set(u, 0, Some(u));
            u = u + 1;
        }
        if has_identity {
            let mut g: usize = 1;
            while g <= k
                invariant
                    1 <= g <= k + 1,
                    n == k + 1,
                    right_cayley_graph.wf(),
                    left_cayley_graph.wf(),
                    right_cayley_graph@.len() == n,
                    left_cayley_graph@.len() == n,
                    right_cayley_graph.spec_n_cols() == k + 1,
                    left_cayley_graph.spec_n_cols() == k + 1,
                    forall|a: int| 0 <= a < n ==> #[trigger] right_cayley_graph@[a][0] == Some(a as usize),
                    forall|a: int| 0 <= a < n ==> #[trigger] left_cayley_graph@[a][0] == Some(a as usize),
                    forall|c: int| 1 <= c < g ==> #[trigger] right_cayley_graph@[0][c] == Some(c as usize),
                    forall|c: int| 1 <= c < g ==> #[trigger] left_cayley_graph@[0][c] == Some(c as usize),
                    forall|a: int, c: int|
                        0 < a < n && 1 <= c <= k ==> (#[trigger] right_cayley_graph@[a][c]) is None,
                    forall|a: int, c: int|
                        0 < a < n && 1 <= c <= k ==> (#[trigger] left_cayley_graph@[a][c]) is None,
                    forall|c: int| g <= c <= k ==> (#[trigger] right_cayley_graph@[0][c]) is None,
                    forall|c: int| g <= c <= k ==> (#[trigger] left_cayley_graph@[0][c]) is None,
                decreases k + 1 - g,
            {
                proof {
                    right_cayley_graph.lemma_shape();
                    left_cayley_graph.lemma_shape();
                }
                right_cayley_graph.set(0, g, Some(g));
                left_cayley_graph.set(0, g, Some(g));
                g = g + 1;
            }
        }
        let ghost words = Seq::new(
            n as nat,
            |i: int|
                if has_identity && i == 0 {
                    Seq::<usize>::empty()
                } else {
                    seq![(i - o + 1) as usize]
                },
        );
        let r = FroidurePin {
            current_word_length: 1,
            generators,
            has_identity,
            elements,
            element_map,
            rewrite_rules: Vec::new(),
            left_cayley_graph,
            right_cayley_graph,
            reduced,
            prefix,
            last,
            suffix,
            first,
            length,
            words: Ghost(words),
            shape: Ghost(shape),
            rule_sources: Ghost(Seq::empty()),
        };
        proof {
            reveal(elements_ok);
            reveal(words_ok);
            reveal(tables_ok);
            reveal(rules_ok);
            reveal(sources_ok);
            reveal(reduced_ok);
            assert forall|g: int| 0 <= g < k implies !T::spec_is_id(#[trigger] r.generators@[g]@) by {
                assert(sgens[g] == r.generators@[g]@);
            }
            assert(r.offset() == o);
            assert(r.gens() == sgens);
            assert forall|i: int| 0 <= i < n implies T::valid(#[trigger] r.elems()[i]) && T::shape(
                r.elems()[i],
            ) == shape by {
                if !(has_identity && i == 0) {
                    assert(r.elements@[o + (i - o)]@ == sgens[i - o]);
                }
            }
            assert forall|i: int, j: int|
                0 <= i < n && 0 <= j < n && i != j implies #[trigger] r.elements@[i]@
                != #[trigger] r.elements@[j]@ by {
                if has_identity && i == 0 {
                    assert(r.elements@[o + (j - o)]@ == sgens[j - o]);
                } else if has_identity && j == 0 {
                    assert(r.elements@[o + (i - o)]@ == sgens[i - o]);
                } else {
                    assert(r.elements@[o + (i - o)]@ == sgens[i - o]);
                    assert(r.elements@[o + (j - o)]@ == sgens[j - o]);
                    if i < j {
                        assert(sgens[i - o] != sgens[j - o]);
                    } else {
                        assert(sgens[j - o] != sgens[i - o]);
                    }
                }
            }
            assert forall|i: int| o <= i < o + k implies #[trigger] r.words@[i] == seq![
                (i - o + 1) as usize,
            ] by {
            }
            assert forall|i: int| 0 <= i < n implies {
                &&& is_word_over(#[trigger] r.words@[i], k as nat)
                &&& r.length@[i] == r.words@[i].len()
                &&& r.words@[i].len() <= i + 1
                &&& r.elements@[i]@ == r.value(r.words@[i])
                &&& (r.words@[i].len() == 0 <==> (r.has_identity && i == 0))
            } by {
                if !(has_identity && i == 0) {
                    assert(r.elements@[o + (i - o)]@ == sgens[i - o]);
                    assert(first@[i] == i - o + 1);
                    assert(r.words@[i][0] == (i - o + 1) as usize);
                }
            }
            assert forall|i: int, j: int|
                0 <= i < j < n implies shortlex_lt(#[trigger] r.words@[i], #[trigger] r.words@[j]) by {
                if !(has_identity && i == 0) {
                    assert(r.words@[i][0] == (i - o + 1) as usize);
                    assert(r.words@[j][0] == (j - o + 1) as usize);
                }
            }
            assert forall|i: int|
                0 <= i < n && #[trigger] r.words@[i].len() >= 1 implies {
                &&& r.first@[i] == r.words@[i][0]
                &&& r.last@[i] == r.words@[i].last()
            } by {
                assert(first@[i] == i - o + 1);
            }
            assert forall|i: int|
                0 <= i < n && #[trigger] r.words@[i].len() == 1 implies {
                &&& r.prefix@[i] == (if r.has_identity {
                    Some(0usize)
                } else {
                    None
                })
                &&& r.suffix@[i] == r.prefix@[i]
            } by {
                assert(first@[i] == i - o + 1);
            }
            assert(r.inv_words());
            assert(r.inv_tables()) by {
                assert forall|u: int, gg: int|
                    0 <= u < n && 1 <= gg <= k implies (#[trigger] r.right_cayley_graph@[u][gg] matches Some(
                    v,
                ) ==> v < n && r.elements@[v as int]@ == T::product(
                    r.elements@[u]@,
                    r.gens()[gg - 1],
                )) by {
                    if has_identity && u == 0 {
                        assert(r.elements@[o + (gg - 1)]@ == sgens[gg - 1]);
                        T::lemma_identity(r.elements@[0]@, sgens[gg - 1]);
                    }
                }
                assert forall|u: int, gg: int|
                    0 <= u < n && 1 <= gg <= k implies (#[trigger] r.left_cayley_graph@[u][gg] matches Some(
                    v,
                ) ==> v < n && r.elements@[v as int]@ == T::product(
                    r.gens()[gg - 1],
                    r.elements@[u]@,
                )) by {
                    if has_identity && u == 0 {
                        assert(r.elements@[o + (gg - 1)]@ == sgens[gg - 1]);
                        T::lemma_identity(r.elements@[0]@, sgens[gg - 1]);
                    }
                }
            }
            if has_identity {
                assert forall|i: int| 0 <= i < n implies #[trigger] r.elems()[i] == (seq![e0] + sgens)[i] by {
                    if i > 0 {
                        assert(r.elements@[o + (i - o)]@ == sgens[i - o]);
                    }
                }
                assert(r.elems() =~= seq![e0] + sgens);
            } else {
                assert forall|i: int| 0 <= i < n implies #[trigger] r.elems()[i] == sgens[i] by {
                    assert(r.elements@[o + (i - o)]@ == sgens[i - o]);
                }
                assert(r.elems() =~= sgens);
            }
            assert(r.inv_minimal()) by {
                reveal(minimal_ok);
                assert forall|i: int, w: Seq<usize>|
                    0 <= i < n && is_value_word(w, k as nat, has_identity) && evaluate::<T>(
                        views(r.generators@),
                        r.elements@[0]@,
                        w,
                    ) == r.elements@[i]@ implies r.words@[i] == w || shortlex_lt(r.words@[i], w) by {
                    if w.len() == 0 {
                        assert(evaluate::<T>(views(r.generators@), r.elements@[0]@, w)
                            == r.elements@[0]@);
                        if i != 0 {
                            assert(r.elements@[i]@ != r.elements@[0]@);
                        }
                        assert(r.words@[0].len() == 0);
                        assert(r.words@[0] =~= w);
                    } else if w.len() == 1 {
                        if !(has_identity && i == 0) {
                            let a = w[0] as int;
                            let j = a - 1 + o;
                            assert(r.words@[j] == seq![(j - o + 1) as usize]);
                            assert(w =~= seq![w[0]]);
                            assert(r.elements@[j]@ == evaluate::<T>(
                                views(r.generators@),
                                r.elements@[0]@,
                                r.words@[j],
                            ));
                            assert(r.words@[j] == w);
                            if i != j {
                                assert(r.elements@[i]@ != r.elements@[j]@);
                            }
                        }
                    }
                }
            }
            assert(r.covered(1)) by {
                reveal(covered_upto);
                assert forall|w: Seq<usize>|
                    is_value_word(w, k as nat, has_identity) && w.len() <= 1 implies exists|i: int|
                    0 <= i < n && #[trigger] r.elements@[i]@ == evaluate::<T>(
                        views(r.generators@),
                        r.elements@[0]@,
                        w,
                    ) by {
                    if w.len() == 0 {
                        assert(r.elements@[0]@ == evaluate::<T>(
                            views(r.generators@),
                            r.elements@[0]@,
                            w,
                        ));
                    } else {
                        let g = w[0] as int;
                        let i = g - 1 + o;
                        assert(r.words@[i] == seq![(i - o + 1) as usize]);
                        assert(w =~= seq![w[0]]);
                        assert(r.words@[i] == w);
                        assert(r.elements@[i]@ == evaluate::<T>(
                            views(r.generators@),
                            r.elements@[0]@,
                            r.words@[i],
                        ));
                    }
                }
            }
        }
        r
    }
}

} // verus!
