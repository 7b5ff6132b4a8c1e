//! Three-way comparison, and the lexicographic order that it gives to sequences.

use vstd::prelude::*;

verus! {

/// How one value stands to another in an order.
#[derive(Clone, Copy, Debug, PartialEq, Eq, Structural)]
pub enum Relation {
    Before,
    Same,
    After,
}

impl Relation {
    /// The relation seen from the other side.
    pub open spec fn flipped(self) -> Relation {
        match self {
            Relation::Before => Relation::After,
            Relation::Same => Relation::Same,
            Relation::After => Relation::Before,
        }
    }

    /// Computes `flipped`.
    pub fn flip(self) -> (r: Relation)
        ensures
            r == self.flipped(),
    {
        match self {
            Relation::Before => Relation::After,
            Relation::Same => Relation::Same,
            Relation::After => Relation::Before,
        }
    }
}

/// The order of the integers.
pub open spec fn int_relation(a: int, b: int) -> Relation {
    if a < b {
        Relation::Before
    } else if a == b {
        Relation::Same
    } else {
        Relation::After
    }
}

/// A three-way comparison is a total order if `Same` means equality, the two strict
/// outcomes mirror each other, and "not after" is transitive.
pub open spec fn is_total<T>(rel: spec_fn(T, T) -> Relation) -> bool {
    &&& forall|x: T, y: T| (#[trigger] rel(x, y) == Relation::Same) <==> x == y
    &&& forall|x: T, y: T| #[trigger] rel(y, x) == rel(x, y).flipped()
    &&& forall|x: T, y: T, z: T|
        #[trigger] rel(x, y) != Relation::After && #[trigger] rel(y, z) != Relation::After
            ==> rel(x, z) != Relation::After
}

/// Lexicographic comparison: the first position at which the sequences differ
/// decides, and a proper prefix comes before what it is a prefix of.
pub open spec fn lex_relation<T>(a: Seq<T>, b: Seq<T>, rel: spec_fn(T, T) -> Relation) -> Relation
    decreases a.len(),
{
    if a.len() == 0 {
        if b.len() == 0 {
            Relation::Same
        } else {
            Relation::Before
        }
    } else if b.len() == 0 {
        Relation::After
    } else if rel(a[0], b[0]) == Relation::Same {
        lex_relation(a.drop_first(), b.drop_first(), rel)
    } else {
        rel(a[0], b[0])
    }
}

/// Two sequences compare as `Same` exactly if they are equal.
pub proof fn lemma_lex_same<T>(a: Seq<T>, b: Seq<T>, rel: spec_fn(T, T) -> Relation)
    requires
        is_total(rel),
    ensures
        (lex_relation(a, b, rel) == Relation::Same) <==> a == b,
    decreases a.len(),
{
    if a.len() == 0 || b.len() == 0 {
        if a.len() == 0 && b.len() == 0 {
            assert(a =~= b);
        }
    } else {
        lemma_lex_same(a.drop_first(), b.drop_first(), rel);
        if rel(a[0], b[0]) == Relation::Same && a.drop_first() == b.drop_first() {
            assert(a =~= seq![a[0]] + a.drop_first());
            assert(b =~= seq![b[0]] + b.drop_first());
        }
    }
}

/// Swapping the two sequences flips the outcome.
pub proof fn lemma_lex_flip<T>(a: Seq<T>, b: Seq<T>, rel: spec_fn(T, T) -> Relation)
    requires
        is_total(rel),
    ensures
        lex_relation(b, a, rel) == lex_relation(a, b, rel).flipped(),
    decreases a.len(),
{
    if a.len() != 0 && b.len() != 0 {
        lemma_lex_flip(a.drop_first(), b.drop_first(), rel);
        assert(rel(b[0], a[0]) == rel(a[0], b[0]).flipped());
    }
}

/// "Not after" is transitive.
pub proof fn lemma_lex_transitive<T>(a: Seq<T>, b: Seq<T>, c: Seq<T>, rel: spec_fn(T, T) -> Relation)
    requires
        is_total(rel),
        lex_relation(a, b, rel) != Relation::After,
        lex_relation(b, c, rel) != Relation::After,
    ensures
        lex_relation(a, c, rel) != Relation::After,
    decreases a.len(),
{
    if a.len() != 0 && b.len() != 0 && c.len() != 0 {
        let ab = rel(a[0], b[0]);
        let bc = rel(b[0], c[0]);
        let ac = rel(a[0], c[0]);
        assert(rel(c[0], a[0]) == ac.flipped());
        assert(rel(b[0], a[0]) == ab.flipped());
        assert(rel(c[0], b[0]) == bc.flipped());
        if ab == Relation::Same && bc == Relation::Same {
            lemma_lex_transitive(a.drop_first(), b.drop_first(), c.drop_first(), rel);
        } else if ac == Relation::Same {
            // a[0] == c[0], and b[0] lies between them: all three are equal.
            assert(a[0] == c[0]);
        }
    }
}

/// Comparing from position `i` on: the cells at `i` decide unless they are the
/// same, and a sequence that ends at `i` comes first.
pub proof fn lemma_lex_step<T>(a: Seq<T>, b: Seq<T>, i: int, rel: spec_fn(T, T) -> Relation)
    requires
        0 <= i <= a.len(),
        0 <= i <= b.len(),
    ensures
        lex_relation(a.skip(i), b.skip(i), rel) == if i == a.len() {
            if i == b.len() {
                Relation::Same
            } else {
                Relation::Before
            }
        } else if i == b.len() {
            Relation::After
        } else if rel(a[i], b[i]) == Relation::Same {
            lex_relation(a.skip(i + 1), b.skip(i + 1), rel)
        } else {
            rel(a[i], b[i])
        },
{
    if i < a.len() && i < b.len() {
        assert(a.skip(i).drop_first() =~= a.skip(i + 1));
        assert(b.skip(i).drop_first() =~= b.skip(i + 1));
    }
}

/// The "not after" of a total three-way comparison: a total order in the usual sense.
pub open spec fn not_after<T>(rel: spec_fn(T, T) -> Relation) -> spec_fn(T, T) -> bool {
    |x: T, y: T| rel(x, y) != Relation::After
}

/// `not_after` of a total comparison is reflexive, antisymmetric, transitive and
/// strongly connected.
pub proof fn lemma_not_after_total_ordering<T>(rel: spec_fn(T, T) -> Relation)
    requires
        is_total(rel),
    ensures
        vstd::relations::total_ordering(not_after(rel)),
{
    let le = not_after(rel);
    assert forall|x: T| #[trigger] le(x, x) by {
        assert(rel(x, x) == Relation::Same);
    }
    assert forall|x: T, y: T| #[trigger] le(x, y) && #[trigger] le(y, x) implies x == y by {
        assert(rel(y, x) == rel(x, y).flipped());
    }
    assert forall|x: T, y: T, z: T| #[trigger] le(x, y) && #[trigger] le(y, z) implies le(x, z) by {
        assert(rel(x, y) != Relation::After && rel(y, z) != Relation::After);
    }
    assert forall|x: T, y: T| #[trigger] le(x, y) || #[trigger] le(y, x) by {
        assert(rel(y, x) == rel(x, y).flipped());
    }
}

} // verus!
