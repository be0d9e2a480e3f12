use vstd::prelude::*;
use vstd::relations::{sorted_by, total_ordering};
use crate::card::{Card, CardRank, lemma_ord_injective};

verus! {

broadcast use vstd::seq_lib::group_to_multiset_ensures, vstd::multiset::group_multiset_axioms;

/// The ten hand categories, weakest first.
#[derive(Clone, Copy, Debug, PartialEq, Eq, Structural, PartialOrd, Ord)]
pub enum HandCategory {
    HighCard,
    Pair,
    TwoPair,
    ThreeOfAKind,
    Straight,
    Flush,
    FullHouse,
    FourOfAKind,
    StraightFlush,
    RoyalFlush,
}

impl HandCategory {
    /// The category's strength: HighCard is 0, RoyalFlush is 9.
    pub open spec fn ord(self) -> int {
        match self {
            HandCategory::HighCard => 0,
            HandCategory::Pair => 1,
            HandCategory::TwoPair => 2,
            HandCategory::ThreeOfAKind => 3,
            HandCategory::Straight => 4,
            HandCategory::Flush => 5,
            HandCategory::FullHouse => 6,
            HandCategory::FourOfAKind => 7,
            HandCategory::StraightFlush => 8,
            HandCategory::RoyalFlush => 9,
        }
    }

    /// The category's strength as a number.
    pub fn value(&self) -> (r: u8)
        ensures
            r as int == self.ord(),
    {
        match self {
            HandCategory::HighCard => 0,
            HandCategory::Pair => 1,
            HandCategory::TwoPair => 2,
            HandCategory::ThreeOfAKind => 3,
            HandCategory::Straight => 4,
            HandCategory::Flush => 5,
            HandCategory::FullHouse => 6,
            HandCategory::FourOfAKind => 7,
            HandCategory::StraightFlush => 8,
            HandCategory::RoyalFlush => 9,
        }
    }
}

/// The ranks of a card sequence, position by position.
pub open spec fn ranks(s: Seq<Card>) -> Seq<CardRank> {
    s.map_values(|c: Card| c.rank)
}

/// How many cards of `s` have rank `r`: the size of `r`'s group.
pub open spec fn rank_count(s: Seq<Card>, r: CardRank) -> nat {
    ranks(s).to_multiset().count(r)
}

/// Sort key of a rank: its weight first, its ordinal second.
pub open spec fn weight_key(w: spec_fn(CardRank) -> int, r: CardRank) -> int {
    w(r) * 16 + r.ord()
}

/// `a` may stand before `b` when ranks are ordered by weight, then by rank,
/// both descending.
pub open spec fn by_weight(w: spec_fn(CardRank) -> int) -> spec_fn(CardRank, CardRank) -> bool {
    |a: CardRank, b: CardRank| weight_key(w, a) >= weight_key(w, b)
}

/// Ranks in descending order.
pub open spec fn high_first() -> spec_fn(CardRank, CardRank) -> bool {
    by_weight(|r: CardRank| 0int)
}

/// Ranks by descending group size in `s`, then by descending rank.
pub open spec fn group_first(s: Seq<Card>) -> spec_fn(CardRank, CardRank) -> bool {
    by_weight(|r: CardRank| rank_count(s, r) as int)
}

/// The ranks of `s` from highest to lowest.
pub open spec fn desc_ranks(s: Seq<Card>) -> Seq<CardRank> {
    ranks(s).sort_by(high_first())
}

/// The ranks of `s` grouped: larger groups first, higher ranks first among
/// groups of one size.
pub open spec fn grouped_ranks(s: Seq<Card>) -> Seq<CardRank> {
    ranks(s).sort_by(group_first(s))
}

/// All cards share one suit.
pub open spec fn is_flush(s: Seq<Card>) -> bool {
    forall|i: int| 0 <= i < s.len() ==> #[trigger] s[i].suit == s[0].suit
}

/// How far each of the four highest ranks stands above the lowest one.
pub open spec fn gaps(s: Seq<Card>) -> Seq<int> {
    let d = desc_ranks(s);
    seq![d[0].ord() - d[4].ord(), d[1].ord() - d[4].ord(), d[2].ord() - d[4].ord(), d[3].ord() - d[4].ord()]
}

/// Ace, Five, Four, Three, Two: the straight in which the Ace plays low.
pub open spec fn is_wheel(s: Seq<Card>) -> bool {
    gaps(s) == seq![12int, 3, 2, 1]
}

/// Five ranks in a run, or the wheel.
pub open spec fn is_straight(s: Seq<Card>) -> bool {
    gaps(s) == seq![4int, 3, 2, 1] || is_wheel(s)
}

/// Every card is a Ten or higher.
pub open spec fn all_ten_or_higher(s: Seq<Card>) -> bool {
    forall|i: int| 0 <= i < s.len() ==> #[trigger] s[i].rank.ord() >= 8
}

/// The category of a hand that is neither a flush nor a straight, from the
/// sizes of its largest and second largest rank groups.
pub open spec fn group_category(s: Seq<Card>) -> HandCategory {
    let g = grouped_ranks(s);
    let top = rank_count(s, g[0]);
    let second = if top < 5 { rank_count(s, g[top as int]) } else { 0 };
    if top == 4 {
        HandCategory::FourOfAKind
    } else if top == 3 {
        if second == 2 { HandCategory::FullHouse } else { HandCategory::ThreeOfAKind }
    } else if top == 2 {
        if second == 2 { HandCategory::TwoPair } else { HandCategory::Pair }
    } else {
        HandCategory::HighCard
    }
}

/// The category of five cards.
pub open spec fn category_of(s: Seq<Card>) -> HandCategory {
    if is_flush(s) && is_straight(s) {
        if all_ten_or_higher(s) { HandCategory::RoyalFlush } else { HandCategory::StraightFlush }
    } else if is_flush(s) {
        HandCategory::Flush
    } else if is_straight(s) {
        HandCategory::Straight
    } else {
        group_category(s)
    }
}

/// The ranks of five cards in significance order: the Five leads a wheel,
/// flushes and straights go from high to low, and other hands go group by
/// group.
pub open spec fn significance(s: Seq<Card>) -> Seq<CardRank> {
    if is_wheel(s) {
        seq![CardRank::Five, CardRank::Four, CardRank::Three, CardRank::Two, CardRank::Ace]
    } else if is_flush(s) || is_straight(s) {
        desc_ranks(s)
    } else {
        grouped_ranks(s)
    }
}

/// Ordering by weight, then rank, is a total order on ranks.
pub proof fn lemma_by_weight_total(w: spec_fn(CardRank) -> int)
    ensures
        total_ordering(by_weight(w)),
{
    let f = by_weight(w);
    assert forall|a: CardRank, b: CardRank| #[trigger] f(a, b) && #[trigger] f(b, a) implies a == b by {
        lemma_ord_injective(a, b);
        lemma_ord_injective(b, a);
        let x = w(a);
        let y = w(b);
        assert(x * 16 + a.ord() == y * 16 + b.ord());
        if x > y {
            assert(x * 16 >= y * 16 + 16);
        } else if x < y {
            assert(y * 16 >= x * 16 + 16);
        }
    }
    assert forall|a: CardRank, b: CardRank, c: CardRank| #[trigger] f(a, b) && #[trigger] f(b, c) implies f(a, c) by {}
    assert forall|a: CardRank, b: CardRank| #[trigger] f(a, b) || #[trigger] f(b, a) by {}
    assert forall|a: CardRank| #[trigger] f(a, a) by {}
}

/// The weights held in a table indexed by rank ordinal.
pub open spec fn weight_of(w: Seq<u8>) -> spec_fn(CardRank) -> int {
    |r: CardRank| w[r.ord()] as int
}

fn weighted_key(w: &Vec<u8>, c: &Card) -> (k: u16)
    requires
        w.len() == 13,
    ensures
        k as int == weight_key(weight_of(w@), c.rank),
{
    let r = c.rank.value();
    w[r as usize] as u16 * 16 + r as u16
}

/// Exchanges two cards; the cards held, and their ranks, stay the same.
fn swap_cards(v: &mut Vec<Card>, i: usize, j: usize)
    requires
        i < old(v).len(),
        j < old(v).len(),
    ensures
        final(v)@ == old(v)@.update(i as int, old(v)@[j as int]).update(j as int, old(v)@[i as int]),
        final(v)@.to_multiset() == old(v)@.to_multiset(),
        ranks(final(v)@).to_multiset() == ranks(old(v)@).to_multiset(),
{
    let ghost s = v@;
    let a = v[i];
    let b = v[j];
    v.set(i, b);
    v.set(j, a);
    proof {
        let t = s.update(i as int, s[j as int]);
        assert(t.to_multiset() =~= s.to_multiset().insert(s[j as int]).remove(s[i as int]));
        assert(v@.to_multiset() =~= t.to_multiset().insert(s[i as int]).remove(t[j as int]));
        assert(v@.to_multiset() =~= s.to_multiset());
        let rs = ranks(s);
        let rt = rs.update(i as int, rs[j as int]);
        assert(ranks(v@) =~= rt.update(j as int, rs[i as int]));
        assert(rt.to_multiset() =~= rs.to_multiset().insert(rs[j as int]).remove(rs[i as int]));
        assert(ranks(v@).to_multiset() =~= rt.to_multiset().insert(rs[i as int]).remove(rt[j as int]));
        assert(ranks(v@).to_multiset() =~= rs.to_multiset());
    }
}

/// Orders the cards by the weight of their rank, then by rank, both
/// descending (selection sort).
fn sort_by_weight(v: &mut Vec<Card>, w: &Vec<u8>)
    requires
        w.len() == 13,
    ensures
        final(v)@.to_multiset() == old(v)@.to_multiset(),
        ranks(final(v)@).to_multiset() == ranks(old(v)@).to_multiset(),
        final(v)@.len() == old(v)@.len(),
        sorted_by(ranks(final(v)@), by_weight(weight_of(w@))),
{
    let ghost s = v@;
    let ghost wf = weight_of(w@);
    let n = v.len();
    let mut i: usize = 0;
    while i < n
        invariant
            n == v.len(),
            w.len() == 13,
            wf == weight_of(w@),
            i <= n,
            v@.to_multiset() == s.to_multiset(),
            ranks(v@).to_multiset() == ranks(s).to_multiset(),
            forall|p: int, q: int|
                0 <= p < q < n && p < i ==> weight_key(wf, #[trigger] v@[p].rank) >= weight_key(wf, #[trigger] v@[q].rank),
        decreases n - i,
    {
        let mut m: usize = i;
        let mut km = weighted_key(w, &v[i]);
        let mut j: usize = i + 1;
        while j < n
            invariant
                n == v.len(),
                w.len() == 13,
                wf == weight_of(w@),
                i <= m < n,
                i < j <= n,
                km as int == weight_key(wf, v@[m as int].rank),
                forall|q: int| i <= q < j ==> km as int >= weight_key(wf, #[trigger] v@[q].rank),
            decreases n - j,
        {
            let kj = weighted_key(w, &v[j]);
            if kj > km {
                m = j;
                km = kj;
            }
            j += 1;
        }
        swap_cards(v, i, m);
        i += 1;
    }
    proof {
        let rv = ranks(v@);
        assert forall|p: int, q: int| 0 <= p < q < rv.len() implies #[trigger] by_weight(wf)(rv[p], rv[q]) by {
            assert(weight_key(wf, v@[p].rank) >= weight_key(wf, v@[q].rank));
        }
    }
}

/// Two rank sequences with the same ranks, both sorted by one total order,
/// are that order's sort of the ranks of `s`.
proof fn lemma_sorted_ranks(v: Seq<Card>, s: Seq<Card>, f: spec_fn(CardRank, CardRank) -> bool)
    requires
        total_ordering(f),
        ranks(v).to_multiset() == ranks(s).to_multiset(),
        sorted_by(ranks(v), f),
    ensures
        ranks(v) == ranks(s).sort_by(f),
{
    ranks(s).lemma_sort_by_ensures(f);
    vstd::seq_lib::lemma_sorted_unique(ranks(v), ranks(s).sort_by(f), f);
}

/// A table of thirteen zero weights.
fn zero_weights() -> (w: Vec<u8>)
    ensures
        w.len() == 13,
        forall|k: int| 0 <= k < 13 ==> #[trigger] w@[k] == 0,
{
    let mut w: Vec<u8> = Vec::new();
    let mut i: usize = 0;
    while i < 13
        invariant
            i <= 13,
            w.len() == i,
            forall|k: int| 0 <= k < i ==> #[trigger] w@[k] == 0,
        decreases 13 - i,
    {
        w.push(0);
        i += 1;
    }
    w
}

/// The size of each rank's group, indexed by rank ordinal.
fn group_sizes(v: &Vec<Card>) -> (w: Vec<u8>)
    requires
        v.len() <= 5,
    ensures
        w.len() == 13,
        forall|r: CardRank| #[trigger] w@[r.ord()] as int == rank_count(v@, r),
        forall|k: int| 0 <= k < 13 ==> #[trigger] w@[k] <= 5,
{
    let mut w = zero_weights();
    let mut i: usize = 0;
    assert(ranks(v@.take(0)) =~= Seq::<CardRank>::empty());
    proof {
        assert forall|r: CardRank| #[trigger] w@[r.ord()] as int == rank_count(v@.take(0), r) by {
            lemma_ord_injective(r, r);
        }
    }
    while i < v.len()
        invariant
            w.len() == 13,
            i <= v.len(),
            v.len() <= 5,
            forall|r: CardRank| #[trigger] w@[r.ord()] as int == rank_count(v@.take(i as int), r),
            forall|k: int| 0 <= k < 13 ==> #[trigger] w@[k] <= i,
        decreases v.len() - i,
    {
        let k = v[i].rank.value() as usize;
        let c = w[k];
        w.set(k, c + 1);
        proof {
            let ri = v@[i as int].rank;
            assert(ranks(v@.take(i + 1)) =~= ranks(v@.take(i as int)).push(ri));
            assert forall|r: CardRank| #[trigger] w@[r.ord()] as int == rank_count(v@.take(i + 1), r) by {
                lemma_ord_injective(r, ri);
            }
        }
        i += 1;
    }
    assert(v@.take(v.len() as int) =~= v@);
    w
}

/// A five-card hand: its category and its cards in significance order.
/// Hands compare by category first, then by the ranks of their cards in
/// order; suits never count.
#[derive(Clone, Copy, Debug)]
pub struct Hand {
    pub category: HandCategory,
    pub cards: [Card; 5],
}

/// The category of five cards and the cards in significance order.
pub fn categorize(cards: [Card; 5]) -> (r: (HandCategory, [Card; 5]))
    ensures
        r.0 == category_of(cards@),
        r.1@.to_multiset() == cards@.to_multiset(),
        ranks(r.1@) == significance(cards@),
{
    let (sorted, category) = Hand::sort_and_categorize(cards);
    (category, sorted)
}

impl Hand {
    /// `self` is what evaluating the five cards `s` gives: the same cards,
    /// their category, and their ranks in significance order.
    pub open spec fn rates(self, s: Seq<Card>) -> bool {
        &&& self.cards@.to_multiset() == s.to_multiset()
        &&& self.category == category_of(s)
        &&& ranks(self.cards@) == significance(s)
    }

    /// Evaluates five cards.
    pub fn new(cards: [Card; 5]) -> (h: Hand)
        ensures
            h.rates(cards@),
    {
        let (sorted, category) = Self::sort_and_categorize(cards);
        Hand { category, cards: sorted }
    }

    /// The cards in significance order, and their category.
    fn sort_and_categorize(cards: [Card; 5]) -> (r: ([Card; 5], HandCategory))
        ensures
            r.0@.to_multiset() == cards@.to_multiset(),
            ranks(r.0@) == significance(cards@),
            r.1 == category_of(cards@),
    {
        let ghost s = cards@;
        let mut v: Vec<Card> = Vec::new();
        v.push(cards[0]);
        v.push(cards[1]);
        v.push(cards[2]);
        v.push(cards[3]);
        v.push(cards[4]);
        assert(v@ =~= s);
        let zeros = zero_weights();
        sort_by_weight(&mut v, &zeros);
        proof {
            let rv = ranks(v@);
            assert forall|p: int, q: int| 0 <= p < q < rv.len() implies #[trigger] high_first()(rv[p], rv[q]) by {
                assert(by_weight(weight_of(zeros@))(rv[p], rv[q]));
            }
            lemma_by_weight_total(|r: CardRank| 0int);
            lemma_sorted_ranks(v@, s, high_first());
        }
        let flush = cards[0].suit == cards[1].suit && cards[0].suit == cards[2].suit
            && cards[0].suit == cards[3].suit && cards[0].suit == cards[4].suit;
        assert(flush == is_flush(s));
        let d0 = v[0].rank.value();
        let d1 = v[1].rank.value();
        let d2 = v[2].rank.value();
        let d3 = v[3].rank.value();
        let d4 = v[4].rank.value();
        let run = d0 == d4 + 4 && d1 == d4 + 3 && d2 == d4 + 2 && d3 == d4 + 1;
        let wheel = d0 == d4 + 12 && d1 == d4 + 3 && d2 == d4 + 2 && d3 == d4 + 1;
        proof {
            let g = seq![d0 - d4, d1 - d4, d2 - d4, d3 - d4];
            assert(gaps(s) =~= g);
            if run {
                assert(gaps(s) =~= seq![4int, 3, 2, 1]);
            } else {
                assert(gaps(s)[0] != 4 || gaps(s)[1] != 3 || gaps(s)[2] != 2 || gaps(s)[3] != 1);
            }
            if wheel {
                assert(gaps(s) =~= seq![12int, 3, 2, 1]);
            } else {
                assert(gaps(s)[0] != 12 || gaps(s)[1] != 3 || gaps(s)[2] != 2 || gaps(s)[3] != 1);
            }
        }
        assert(wheel == is_wheel(s));
        assert(run || wheel <==> is_straight(s));
        if wheel {
            swap_cards(&mut v, 0, 1);
            swap_cards(&mut v, 1, 2);
            swap_cards(&mut v, 2, 3);
            swap_cards(&mut v, 3, 4);
            assert(ranks(v@) =~= seq![CardRank::Five, CardRank::Four, CardRank::Three, CardRank::Two, CardRank::Ace]);
        }
        let category = if flush && (run || wheel) {
            let royal = cards[0].rank.value() >= 8 && cards[1].rank.value() >= 8
                && cards[2].rank.value() >= 8 && cards[3].rank.value() >= 8
                && cards[4].rank.value() >= 8;
            assert(royal == all_ten_or_higher(s));
            if royal { HandCategory::RoyalFlush } else { HandCategory::StraightFlush }
        } else if flush {
            HandCategory::Flush
        } else if run || wheel {
            HandCategory::Straight
        } else {
            let sizes = group_sizes(&v);
            proof {
                assert forall|r: CardRank| #[trigger] sizes@[r.ord()] as int == rank_count(s, r) by {}
            }
            sort_by_weight(&mut v, &sizes);
            proof {
                let rv = ranks(v@);
                assert forall|p: int, q: int| 0 <= p < q < rv.len() implies #[trigger] group_first(s)(rv[p], rv[q]) by {
                    assert(by_weight(weight_of(sizes@))(rv[p], rv[q]));
                }
                lemma_by_weight_total(|r: CardRank| rank_count(s, r) as int);
                lemma_sorted_ranks(v@, s, group_first(s));
            }
            let top = sizes[v[0].rank.value() as usize];
            let second = if top < 5 { sizes[v[top as usize].rank.value() as usize] } else { 0 };
            if top == 4 {
                HandCategory::FourOfAKind
            } else if top == 3 {
                if second == 2 { HandCategory::FullHouse } else { HandCategory::ThreeOfAKind }
            } else if top == 2 {
                if second == 2 { HandCategory::TwoPair } else { HandCategory::Pair }
            } else {
                HandCategory::HighCard
            }
        };
        let out = [v[0], v[1], v[2], v[3], v[4]];
        assert(out@ =~= v@);
        (out, category)
    }
}

} // verus!
