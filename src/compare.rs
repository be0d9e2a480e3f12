use vstd::prelude::*;
use core::cmp::Ordering;
use crate::card::CardRank;
use crate::hand::{Hand, ranks};

verus! {

/// The numbers a hand is compared by: the strength of its category, then the
/// ordinals of its cards' ranks, most significant card first.
pub open spec fn strength(h: Hand) -> Seq<int> {
    seq![h.category.ord()] + ranks(h.cards@).map_values(|r: CardRank| r.ord())
}

/// Lexicographic comparison: the first position where the sequences differ
/// decides.
pub open spec fn lex_cmp(a: Seq<int>, b: Seq<int>) -> Ordering
    decreases a.len(),
{
    if a.len() == 0 || b.len() == 0 {
        Ordering::Equal
    } else if a[0] < b[0] {
        Ordering::Less
    } else if a[0] > b[0] {
        Ordering::Greater
    } else {
        lex_cmp(a.drop_first(), b.drop_first())
    }
}

/// How hand `a` compares with hand `b`.
pub open spec fn compare_hands(a: Hand, b: Hand) -> Ordering {
    lex_cmp(strength(a), strength(b))
}

/// Antisymmetry: swapping the operands reverses the outcome.
pub proof fn lemma_lex_cmp_flip(a: Seq<int>, b: Seq<int>)
    ensures
        lex_cmp(a, b) == Ordering::Less <==> lex_cmp(b, a) == Ordering::Greater,
        lex_cmp(a, b) == Ordering::Equal <==> lex_cmp(b, a) == Ordering::Equal,
    decreases a.len(),
{
    if a.len() > 0 && b.len() > 0 && a[0] == b[0] {
        lemma_lex_cmp_flip(a.drop_first(), b.drop_first());
    }
}

/// Transitivity: `a` at least `b` and `b` at least `c` make `a` at least
/// `c`, strictly if either step is strict.
pub proof fn lemma_lex_cmp_trans(a: Seq<int>, b: Seq<int>, c: Seq<int>)
    requires
        a.len() == b.len(),
        b.len() == c.len(),
        lex_cmp(a, b) != Ordering::Less,
        lex_cmp(b, c) != Ordering::Less,
    ensures
        lex_cmp(a, c) != Ordering::Less,
        lex_cmp(a, b) == Ordering::Greater || lex_cmp(b, c) == Ordering::Greater ==> lex_cmp(a, c)
            == Ordering::Greater,
    decreases a.len(),
{
    if a.len() > 0 && a[0] == b[0] && b[0] == c[0] {
        lemma_lex_cmp_trans(a.drop_first(), b.drop_first(), c.drop_first());
    }
}

/// Reflexivity: every sequence is equal to itself.
pub proof fn lemma_lex_cmp_refl(a: Seq<int>)
    ensures
        lex_cmp(a, a) == Ordering::Equal,
    decreases a.len(),
{
    if a.len() > 0 {
        lemma_lex_cmp_refl(a.drop_first());
    }
}

/// Every hand's strength has six entries.
pub proof fn lemma_strength_len(h: Hand)
    ensures
        strength(h).len() == 6,
{
}

/// Hands are totally preordered: every hand ties with itself, swapping two
/// hands reverses their outcome, and the order is transitive.
pub proof fn lemma_compare_hands_order(a: Hand, b: Hand, c: Hand)
    ensures
        compare_hands(a, a) == Ordering::Equal,
        compare_hands(a, b) == Ordering::Less <==> compare_hands(b, a) == Ordering::Greater,
        compare_hands(a, b) == Ordering::Equal <==> compare_hands(b, a) == Ordering::Equal,
        compare_hands(a, b) != Ordering::Less && compare_hands(b, c) != Ordering::Less ==> compare_hands(a, c)
            != Ordering::Less,
{
    lemma_lex_cmp_refl(strength(a));
    lemma_lex_cmp_flip(strength(a), strength(b));
    if compare_hands(a, b) != Ordering::Less && compare_hands(b, c) != Ordering::Less {
        lemma_lex_cmp_trans(strength(a), strength(b), strength(c));
    }
}

impl Hand {

    /// The category's strength followed by the five rank ordinals.
    fn strength_key(&self) -> (k: Vec<u8>)
        ensures
            k@.len() == 6,
            forall|i: int| 0 <= i < 6 ==> #[trigger] k@[i] as int == strength(*self)[i],
    {
        let mut k: Vec<u8> = Vec::new();
        k.push(self.category.value());
        let mut i: usize = 0;
        while i < 5
            invariant
                i <= 5,
                k@.len() == i + 1,
                forall|j: int| 0 <= j <= i ==> #[trigger] k@[j] as int == strength(*self)[j],
            decreases 5 - i,
        {
            k.push(self.cards[i].rank.value());
            i += 1;
        }
        k
    }

    /// Compares two hands: the higher category wins; within a category the
    /// first card, in significance order, whose rank differs decides.
    pub fn compare(&self, other: &Hand) -> (r: Ordering)
        ensures
            r == compare_hands(*self, *other),
    {
        let a = self.strength_key();
        let b = other.strength_key();
        let ghost sa = strength(*self);
        let ghost sb = strength(*other);
        let mut j: usize = 0;
        assert(sa.skip(0) =~= sa && sb.skip(0) =~= sb);
        while j < 6
            invariant
                j <= 6,
                a@.len() == 6,
                b@.len() == 6,
                sa == strength(*self),
                sb == strength(*other),
                sa.len() == 6,
                sb.len() == 6,
                forall|i: int| 0 <= i < 6 ==> #[trigger] a@[i] as int == sa[i],
                forall|i: int| 0 <= i < 6 ==> #[trigger] b@[i] as int == sb[i],
                lex_cmp(sa, sb) == lex_cmp(sa.skip(j as int), sb.skip(j as int)),
            decreases 6 - j,
        {
            assert(sa.skip(j as int)[0] == sa[j as int]);
            assert(sb.skip(j as int)[0] == sb[j as int]);
            assert(sa.skip(j as int).len() > 0 && sb.skip(j as int).len() > 0);
            if a[j] < b[j] {
                return Ordering::Less;
            }
            if a[j] > b[j] {
                return Ordering::Greater;
            }
            assert(sa.skip(j as int).drop_first() =~= sa.skip(j + 1));
            assert(sb.skip(j as int).drop_first() =~= sb.skip(j + 1));
            j += 1;
        }
        assert(sa.skip(6).len() == 0);
        Ordering::Equal
    }
}

impl PartialEq for Hand {
    fn eq(&self, other: &Hand) -> (r: bool) {
        match self.compare(other) {
            Ordering::Equal => true,
            _ => false,
        }
    }
}

impl vstd::std_specs::cmp::PartialEqSpecImpl for Hand {
    open spec fn obeys_eq_spec() -> bool {
        true
    }

    open spec fn eq_spec(&self, other: &Hand) -> bool {
        compare_hands(*self, *other) == Ordering::Equal
    }
}

impl PartialOrd for Hand {
    fn partial_cmp(&self, other: &Hand) -> (r: Option<Ordering>) {
        Some(self.compare(other))
    }
}

impl vstd::std_specs::cmp::PartialOrdSpecImpl for Hand {
    open spec fn obeys_partial_cmp_spec() -> bool {
        true
    }

    open spec fn partial_cmp_spec(&self, other: &Hand) -> Option<Ordering> {
        Some(compare_hands(*self, *other))
    }
}

} // verus!
