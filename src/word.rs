use vstd::prelude::*;

verus! {

/// Shortlex ("military") order on words: shorter words first, words of equal length
/// compared letter by letter.
pub open spec fn shortlex_lt(a: Seq<usize>, b: Seq<usize>) -> bool {
    a.len() < b.len() || (a.len() == b.len() && lex_lt(a, b))
}

/// Lexicographic order on words of equal length.
pub open spec fn lex_lt(a: Seq<usize>, b: Seq<usize>) -> bool
    decreases a.len(),
{
    if a.len() == 0 || b.len() == 0 {
        false
    } else if a[0] != b[0] {
        a[0] < b[0]
    } else {
        lex_lt(a.drop_first(), b.drop_first())
    }
}

/// The order is transitive on words of one length.
pub proof fn lemma_lex_transitive(a: Seq<usize>, b: Seq<usize>, c: Seq<usize>)
    requires
        a.len() == b.len(),
        b.len() == c.len(),
        lex_lt(a, b),
        lex_lt(b, c),
    ensures
        lex_lt(a, c),
    decreases a.len(),
{
    if a.len() > 0 && a[0] == b[0] && b[0] == c[0] {
        lemma_lex_transitive(a.drop_first(), b.drop_first(), c.drop_first());
    }
}

/// Shortlex order is transitive.
pub proof fn lemma_shortlex_transitive(a: Seq<usize>, b: Seq<usize>, c: Seq<usize>)
    requires
        shortlex_lt(a, b),
        shortlex_lt(b, c),
    ensures
        shortlex_lt(a, c),
{
    if a.len() == b.len() && b.len() == c.len() {
        lemma_lex_transitive(a, b, c);
    }
}

/// Extending two words of one length by a letter each keeps their order.
pub proof fn lemma_lex_extend(a: Seq<usize>, b: Seq<usize>, x: usize, y: usize)
    requires
        a.len() == b.len(),
        lex_lt(a, b),
    ensures
        lex_lt(a.push(x), b.push(y)),
    decreases a.len(),
{
    assert(a.push(x)[0] == a[0]);
    assert(b.push(y)[0] == b[0]);
    if a[0] == b[0] {
        assert(a.push(x).drop_first() =~= a.drop_first().push(x));
        assert(b.push(y).drop_first() =~= b.drop_first().push(y));
        lemma_lex_extend(a.drop_first(), b.drop_first(), x, y);
    }
}

/// A word followed by a smaller letter comes first.
pub proof fn lemma_lex_last_letter(a: Seq<usize>, x: usize, y: usize)
    requires
        x < y,
    ensures
        lex_lt(a.push(x), a.push(y)),
    decreases a.len(),
{
    if a.len() > 0 {
        assert(a.push(x).drop_first() =~= a.drop_first().push(x));
        assert(a.push(y).drop_first() =~= a.drop_first().push(y));
        lemma_lex_last_letter(a.drop_first(), x, y);
    }
}

/// A word over an alphabet.
#[derive(Debug, Clone, Hash)]
pub struct Word<A> {
    word: Vec<A>,
}

impl<A> View for Word<A> {
    type V = Seq<A>;

    /// The letters of the word, in order.
    closed spec fn view(&self) -> Seq<A> {
        self.word@
    }
}

impl<A: Copy> Word<A> {
    /// The word with the given letters.
    pub fn from_vec(word: Vec<A>) -> (r: Self)
        ensures
            r@ == word@,
    {
        Word { word }
    }

    /// The letters of the word, in order.
    pub fn letters(&self) -> (r: &[A])
        ensures
            r@ == self@,
    {
        self.word.as_slice()
    }

    /// The empty word.
    pub fn empty_word() -> (r: Self)
        ensures
            r@ == Seq::<A>::empty(),
    {
        Word { word: Vec::new() }
    }

    /// Whether the word has no letters.
    pub fn is_empty_word(&self) -> (r: bool)
        ensures
            r == (self@.len() == 0),
    {
        self.word.len() == 0
    }

    /// This word followed by `a`.
    pub fn append(&self, a: &A) -> (r: Self)
        ensures
            r@ == self@.push(*a),
    {
        let mut word: Vec<A> = Vec::new();
        let mut i: usize = 0;
        while i < self.word.len()
            invariant
                i <= self.word@.len(),
                word@ == self.word@.subrange(0, i as int),
            decreases self.word@.len() - i,
        {
            word.push(self.word[i]);
            i = i + 1;
            assert(word@ =~= self.word@.subrange(0, i as int));
        }
        word.push(*a);
        assert(word@ =~= self.word@.push(*a));
        Word { word }
    }

    /// `a` followed by this word.
    pub fn prepend(&self, a: &A) -> (r: Self)
        ensures
            r@ == seq![*a] + self@,
    {
        let mut word: Vec<A> = Vec::new();
        word.push(*a);
        let mut i: usize = 0;
        while i < self.word.len()
            invariant
                i <= self.word@.len(),
                word@ == seq![*a] + self.word@.subrange(0, i as int),
            decreases self.word@.len() - i,
        {
            word.push(self.word[i]);
            i = i + 1;
            assert(word@ =~= seq![*a] + self.word@.subrange(0, i as int));
        }
        assert(self.word@.subrange(0, i as int) =~= self.word@);
        Word { word }
    }

    /// The number of letters.
    pub fn len(&self) -> (r: usize)
        ensures
            r == self@.len(),
    {
        self.word.len()
    }
}

impl Word<usize> {
    /// Compares two words in shortlex order: by length, then letter by letter.
    pub fn shortlex_cmp(&self, other: &Self) -> (r: core::cmp::Ordering)
        ensures
            (r == core::cmp::Ordering::Less) == shortlex_lt(self@, other@),
            (r == core::cmp::Ordering::Greater) == shortlex_lt(other@, self@),
            (r == core::cmp::Ordering::Equal) == (self@ == other@),
    {
        let a = &self.word;
        let b = &other.word;
        if a.len() < b.len() {
            proof {
                lemma_lex_irreflexive_len(other@, self@);
            }
            return core::cmp::Ordering::Less;
        }
        if a.len() > b.len() {
            return core::cmp::Ordering::Greater;
        }
        let mut i: usize = 0;
        while i < a.len()
            invariant
                a@ == self@,
                b@ == other@,
                a@.len() == b@.len(),
                i <= a@.len(),
                a@.subrange(0, i as int) == b@.subrange(0, i as int),
            decreases a@.len() - i,
        {
            if a[i] != b[i] {
                proof {
                    lemma_lex_first_difference(a@, b@, i as int);
                    lemma_lex_first_difference(b@, a@, i as int);
                }
                if a[i] < b[i] {
                    return core::cmp::Ordering::Less;
                } else {
                    return core::cmp::Ordering::Greater;
                }
            }
            i = i + 1;
            assert(a@.subrange(0, i as int) =~= a@.subrange(0, i - 1).push(a@[i - 1]));
            assert(b@.subrange(0, i as int) =~= b@.subrange(0, i - 1).push(b@[i - 1]));
        }
        assert(a@ =~= a@.subrange(0, i as int));
        assert(b@ =~= b@.subrange(0, i as int));
        proof {
            lemma_lex_irreflexive(a@);
        }
        core::cmp::Ordering::Equal
    }
}

/// No word comes before itself.
pub proof fn lemma_lex_irreflexive(a: Seq<usize>)
    ensures
        !lex_lt(a, a),
    decreases a.len(),
{
    if a.len() > 0 {
        lemma_lex_irreflexive(a.drop_first());
    }
}

/// Of two words of one length, one comes first or they are equal.
pub proof fn lemma_lex_trichotomy(a: Seq<usize>, b: Seq<usize>)
    requires
        a.len() == b.len(),
    ensures
        lex_lt(a, b) || lex_lt(b, a) || a == b,
    decreases a.len(),
{
    if a.len() > 0 && a[0] == b[0] {
        lemma_lex_trichotomy(a.drop_first(), b.drop_first());
        if a.drop_first() == b.drop_first() {
            assert(a =~= b) by {
                assert forall|i: int| 0 <= i < a.len() implies a[i] == b[i] by {
                    if i > 0 {
                        assert(a[i] == a.drop_first()[i - 1]);
                        assert(b[i] == b.drop_first()[i - 1]);
                    }
                }
            }
        }
    } else if a.len() == 0 {
        assert(a =~= b);
    }
}

/// Where `y` followed by `a` comes before `w` followed by `g`, of one length, `y` comes
/// before `w`, or they are equal and `a` comes before `g`.
pub proof fn lemma_lex_push_inverse(y: Seq<usize>, a: usize, w: Seq<usize>, g: usize)
    requires
        y.len() == w.len(),
        lex_lt(y.push(a), w.push(g)),
    ensures
        lex_lt(y, w) || (y == w && a < g),
    decreases y.len(),
{
    if y.len() == 0 {
        assert(y =~= w);
        assert(y.push(a)[0] == a);
        assert(w.push(g)[0] == g);
        if a == g {
            assert(y.push(a).drop_first().len() == 0);
            assert(!lex_lt(y.push(a).drop_first(), w.push(g).drop_first()));
        }
    } else {
        assert(y.push(a)[0] == y[0]);
        assert(w.push(g)[0] == w[0]);
        if y[0] == w[0] {
            assert(y.push(a).drop_first() =~= y.drop_first().push(a));
            assert(w.push(g).drop_first() =~= w.drop_first().push(g));
            lemma_lex_push_inverse(y.drop_first(), a, w.drop_first(), g);
            if y.drop_first() == w.drop_first() {
                assert(y =~= w) by {
                    assert forall|i: int| 0 <= i < y.len() implies y[i] == w[i] by {
                        if i > 0 {
                            assert(y[i] == y.drop_first()[i - 1]);
                            assert(w[i] == w.drop_first()[i - 1]);
                        }
                    }
                }
            }
        }
    }
}

/// Putting one letter in front of two words keeps their order.
pub proof fn lemma_lex_prepend(f: usize, a: Seq<usize>, b: Seq<usize>)
    requires
        lex_lt(a, b),
    ensures
        lex_lt(seq![f] + a, seq![f] + b),
{
    assert((seq![f] + a).drop_first() =~= a);
    assert((seq![f] + b).drop_first() =~= b);
    assert((seq![f] + a)[0] == f);
    assert((seq![f] + b)[0] == f);
}

/// A longer word does not come before a shorter one.
proof fn lemma_lex_irreflexive_len(a: Seq<usize>, b: Seq<usize>)
    requires
        a.len() > b.len(),
    ensures
        !shortlex_lt(a, b),
{
}

/// Words of one length that agree before position `i` and differ there are ordered by
/// their letters at `i`.
proof fn lemma_lex_first_difference(a: Seq<usize>, b: Seq<usize>, i: int)
    requires
        a.len() == b.len(),
        0 <= i < a.len(),
        a.subrange(0, i) == b.subrange(0, i),
        a[i] != b[i],
    ensures
        lex_lt(a, b) == (a[i] < b[i]),
    decreases i,
{
    if i > 0 {
        assert(a[0] == a.subrange(0, i)[0]);
        assert(b[0] == b.subrange(0, i)[0]);
        assert(a.drop_first().subrange(0, i - 1) =~= a.subrange(0, i).drop_first());
        assert(b.drop_first().subrange(0, i - 1) =~= b.subrange(0, i).drop_first());
        lemma_lex_first_difference(a.drop_first(), b.drop_first(), i - 1);
    }
}

} // verus!
