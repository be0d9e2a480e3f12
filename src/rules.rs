use vstd::prelude::*;
use vstd::relations::total_ordering;
use core::cmp::Ordering;
use crate::card::{Card, CardRank, lemma_ord_injective};
use crate::hand::{
    Hand, HandCategory, category_of, desc_ranks, gaps, grouped_ranks, high_first, group_first,
    is_flush, is_straight, is_wheel, rank_count, ranks, significance, weight_key,
    lemma_by_weight_total,
};
use crate::compare::{compare_hands, lex_cmp, strength, lemma_lex_cmp_refl};

verus! {

/// A higher category beats a lower one, whatever the ranks of the cards:
/// any four of a kind beats any full house, and so on.
pub proof fn lemma_category_decides(a: Hand, b: Hand)
    requires
        a.category.ord() > b.category.ord(),
    ensures
        compare_hands(a, b) == Ordering::Greater,
        compare_hands(b, a) == Ordering::Less,
{
}

/// Hands of one category whose cards have the same ranks in the same order
/// tie, whatever their suits.
pub proof fn lemma_same_ranks_tie(a: Hand, b: Hand)
    requires
        a.category == b.category,
        ranks(a.cards@) == ranks(b.cards@),
    ensures
        compare_hands(a, b) == Ordering::Equal,
{
    assert(strength(a) =~= strength(b));
    lemma_lex_cmp_refl(strength(a));
}

/// Every rank in the sorted rank sequence is the rank of one of the cards,
/// and the other way round.
proof fn lemma_sorted_ranks_members(s: Seq<Card>, f: spec_fn(CardRank, CardRank) -> bool)
    requires
        total_ordering(f),
    ensures
        forall|i: int| 0 <= i < ranks(s).sort_by(f).len() ==> ranks(s).contains(#[trigger] ranks(s).sort_by(f)[i]),
        forall|i: int| 0 <= i < s.len() ==> ranks(s).sort_by(f).contains(#[trigger] s[i].rank),
        ranks(s).sort_by(f).len() == s.len(),
{
    broadcast use vstd::seq_lib::group_to_multiset_ensures, vstd::multiset::group_multiset_axioms;
    let d = ranks(s).sort_by(f);
    ranks(s).lemma_sort_by_ensures(f);
    assert(d.to_multiset().len() == d.len());
    assert(ranks(s).to_multiset().len() == s.len());
    assert forall|i: int| 0 <= i < d.len() implies ranks(s).contains(#[trigger] d[i]) by {
        assert(d.to_multiset().count(d[i]) > 0);
    }
    assert forall|i: int| 0 <= i < s.len() implies d.contains(#[trigger] s[i].rank) by {
        assert(ranks(s)[i] == s[i].rank);
        assert(ranks(s).to_multiset().count(s[i].rank) > 0);
    }
}

/// The ranks of five cards from high to low, with their ordinals in range.
proof fn lemma_desc_ranks_facts(s: Seq<Card>)
    requires
        s.len() == 5,
    ensures
        desc_ranks(s).len() == 5,
        forall|i: int, j: int| 0 <= i < j < 5 ==> desc_ranks(s)[i].ord() >= desc_ranks(s)[j].ord(),
        forall|i: int| 0 <= i < 5 ==> 0 <= #[trigger] desc_ranks(s)[i].ord() <= 12,
        forall|i: int| 0 <= i < 5 ==> exists|j: int| 0 <= j < 5 && s[j].rank == #[trigger] desc_ranks(s)[i],
        forall|j: int| 0 <= j < 5 ==> desc_ranks(s).contains(#[trigger] s[j].rank),
{
    let d = desc_ranks(s);
    lemma_by_weight_total(|r: CardRank| 0int);
    ranks(s).lemma_sort_by_ensures(high_first());
    lemma_sorted_ranks_members(s, high_first());
    assert forall|i: int, j: int| 0 <= i < j < 5 implies d[i].ord() >= d[j].ord() by {
        assert(high_first()(d[i], d[j]));
    }
    assert forall|i: int| 0 <= i < 5 implies 0 <= #[trigger] d[i].ord() <= 12 by {
        lemma_ord_injective(d[i], d[i]);
    }
    assert forall|i: int| 0 <= i < 5 implies exists|j: int| 0 <= j < 5 && s[j].rank == #[trigger] d[i] by {
        assert(ranks(s).contains(d[i]));
        let j = choose|j: int| 0 <= j < ranks(s).len() && ranks(s)[j] == d[i];
        assert(s[j].rank == d[i]);
    }
}

/// Among flushes, a hand is a royal flush exactly when its ranks are Ace,
/// King, Queen, Jack and Ten; any other run is a straight flush, and a flush
/// that is no run is a plain flush.
pub proof fn lemma_flush_categories(s: Seq<Card>)
    requires
        s.len() == 5,
        is_flush(s),
    ensures
        category_of(s) == HandCategory::RoyalFlush <==> desc_ranks(s) == seq![
            CardRank::Ace,
            CardRank::King,
            CardRank::Queen,
            CardRank::Jack,
            CardRank::Ten,
        ],
        is_straight(s) && category_of(s) != HandCategory::RoyalFlush ==> category_of(s)
            == HandCategory::StraightFlush,
        !is_straight(s) ==> category_of(s) == HandCategory::Flush,
{
    let d = desc_ranks(s);
    let royal = seq![CardRank::Ace, CardRank::King, CardRank::Queen, CardRank::Jack, CardRank::Ten];
    lemma_desc_ranks_facts(s);
    if category_of(s) == HandCategory::RoyalFlush {
        assert forall|i: int| 0 <= i < 5 implies #[trigger] d[i].ord() >= 8 by {
            let j = choose|j: int| 0 <= j < 5 && s[j].rank == #[trigger] d[i];
            assert(s[j].rank.ord() >= 8);
        }
        assert(d[4].ord() >= 8);
        assert(gaps(s)[0] == d[0].ord() - d[4].ord());
        assert(!is_wheel(s));
        assert(gaps(s) == seq![4int, 3, 2, 1]);
        assert(gaps(s)[0] == 4 && gaps(s)[1] == 3 && gaps(s)[2] == 2 && gaps(s)[3] == 1);
        assert forall|i: int| 0 <= i < 5 implies #[trigger] d[i] == royal[i] by {
            lemma_ord_injective(d[i], royal[i]);
        }
        assert(d =~= royal);
    }
    if d == royal {
        assert(gaps(s) =~= seq![4int, 3, 2, 1]);
        assert forall|j: int| 0 <= j < s.len() implies #[trigger] s[j].rank.ord() >= 8 by {
            assert(d.contains(s[j].rank));
            let i = choose|i: int| 0 <= i < 5 && d[i] == s[j].rank;
            assert(d[i].ord() >= 8);
        }
    }
}

/// The wheel is a straight (a straight flush when suited) led by its Five,
/// with the Ace last.
pub proof fn lemma_wheel_is_straight(s: Seq<Card>)
    requires
        s.len() == 5,
        is_wheel(s),
    ensures
        is_straight(s),
        significance(s) == seq![CardRank::Five, CardRank::Four, CardRank::Three, CardRank::Two, CardRank::Ace],
        !is_flush(s) ==> category_of(s) == HandCategory::Straight,
        is_flush(s) ==> category_of(s) == HandCategory::StraightFlush,
{
    let d = desc_ranks(s);
    lemma_desc_ranks_facts(s);
    assert(gaps(s)[0] == 12);
    assert(d[4].ord() == 0);
    let j = choose|j: int| 0 <= j < 5 && s[j].rank == #[trigger] d[4];
    assert(s[j].rank.ord() < 8);
}

/// The wheel loses to every other straight of its category: the Ace plays
/// low, so even the Six-high straight beats it.
pub proof fn lemma_wheel_loses(w: Hand, sw: Seq<Card>, h: Hand, s: Seq<Card>)
    requires
        sw.len() == 5,
        s.len() == 5,
        w.rates(sw),
        h.rates(s),
        is_wheel(sw),
        is_straight(s),
        !is_wheel(s),
        w.category == h.category,
    ensures
        compare_hands(w, h) == Ordering::Less,
{
    lemma_wheel_is_straight(sw);
    lemma_desc_ranks_facts(s);
    let d = desc_ranks(s);
    assert(gaps(s) == seq![4int, 3, 2, 1]);
    assert(gaps(s)[0] == 4);
    assert(d[0].ord() >= 4);
    let a = strength(w);
    let b = strength(h);
    assert(a[0] == b[0]);
    assert(a[1] == 3);
    assert(b[1] == d[0].ord());
    assert(a.drop_first()[0] < b.drop_first()[0]);
    assert(lex_cmp(a.drop_first(), b.drop_first()) == Ordering::Less);
}

/// In a two-pair hand the higher pair leads the significance order: its
/// two cards come first.
proof fn lemma_two_pair_leads(s: Seq<Card>)
    requires
        s.len() == 5,
        category_of(s) == HandCategory::TwoPair,
    ensures
        significance(s) == grouped_ranks(s),
        grouped_ranks(s).len() == 5,
        grouped_ranks(s)[1] == grouped_ranks(s)[0],
{
    broadcast use vstd::seq_lib::group_to_multiset_ensures, vstd::multiset::group_multiset_axioms;
    let f = group_first(s);
    let g = grouped_ranks(s);
    lemma_by_weight_total(|r: CardRank| rank_count(s, r) as int);
    ranks(s).lemma_sort_by_ensures(f);
    assert(g.to_multiset().len() == g.len());
    assert(ranks(s).to_multiset().len() == 5);
    assert(rank_count(s, g[0]) == 2);
    assert(g.to_multiset().count(g[0]) == 2);
    let rest = g.remove(0);
    assert(rest.to_multiset().count(g[0]) == 1);
    assert(rest.contains(g[0]));
    let k = choose|k: int| 0 <= k < rest.len() && rest[k] == g[0];
    assert(g[k + 1] == g[0]);
    if k + 1 != 1 {
        assert(f(g[0], g[1]));
        assert(f(g[1], g[k + 1]));
        assert(f(g[1], g[0]));
    }
}

/// Two two-pair hands with the same higher pair are ordered by their lower
/// pairs. In a two-pair hand's significance order the first rank is the
/// higher pair and the third the lower pair.
pub proof fn lemma_two_pair_order(a: Hand, sa: Seq<Card>, b: Hand, sb: Seq<Card>)
    requires
        sa.len() == 5,
        sb.len() == 5,
        a.rates(sa),
        b.rates(sb),
        a.category == HandCategory::TwoPair,
        b.category == HandCategory::TwoPair,
        significance(sa)[0] == significance(sb)[0],
        significance(sa)[2].ord() < significance(sb)[2].ord(),
    ensures
        compare_hands(a, b) == Ordering::Less,
        compare_hands(b, a) == Ordering::Greater,
{
    lemma_two_pair_leads(sa);
    lemma_two_pair_leads(sb);
    let x = strength(a);
    let y = strength(b);
    assert(x[0] == y[0] && x[1] == y[1] && x[2] == y[2] && x[3] < y[3]);
    let x1 = x.drop_first();
    let y1 = y.drop_first();
    let x2 = x1.drop_first();
    let y2 = y1.drop_first();
    let x3 = x2.drop_first();
    let y3 = y2.drop_first();
    assert(x3[0] < y3[0]);
    assert(lex_cmp(x3, y3) == Ordering::Less);
    assert(lex_cmp(x2, y2) == Ordering::Less);
    assert(lex_cmp(x1, y1) == Ordering::Less);
    crate::compare::lemma_lex_cmp_flip(x, y);
}

/// Cards that are a rearrangement of one another have ranks that are a
/// rearrangement of one another.
pub proof fn lemma_ranks_rearranged(a: Seq<Card>, b: Seq<Card>)
    requires
        a.to_multiset() == b.to_multiset(),
    ensures
        ranks(a).to_multiset() == ranks(b).to_multiset(),
    decreases a.len(),
{
    broadcast use vstd::seq_lib::group_to_multiset_ensures, vstd::multiset::group_multiset_axioms;
    assert(a.len() == a.to_multiset().len());
    assert(b.len() == b.to_multiset().len());
    if a.len() == 0 {
        assert(ranks(a) =~= ranks(b));
    } else {
        let x = a.last();
        let a1 = a.drop_last();
        assert(a =~= a1.push(x));
        assert(a.to_multiset() =~= a1.to_multiset().insert(x));
        assert(b.to_multiset().count(x) > 0);
        assert(b.contains(x));
        let j = choose|j: int| 0 <= j < b.len() && b[j] == x;
        let b1 = b.remove(j);
        assert(b1.to_multiset() =~= b.to_multiset().remove(x));
        assert(a1.to_multiset() =~= b1.to_multiset());
        lemma_ranks_rearranged(a1, b1);
        assert(ranks(a) =~= ranks(a1).push(x.rank));
        assert(ranks(b1) =~= ranks(b).remove(j));
        assert(ranks(b)[j] == x.rank);
        assert(ranks(b1).to_multiset() =~= ranks(b).to_multiset().remove(x.rank));
        assert(ranks(b).to_multiset().count(x.rank) > 0);
        assert(ranks(a).to_multiset() =~= ranks(b).to_multiset());
    }
}

/// Every card of `a` is a card of `b`.
proof fn lemma_members(a: Seq<Card>, b: Seq<Card>, i: int)
    requires
        a.to_multiset() == b.to_multiset(),
        0 <= i < a.len(),
    ensures
        exists|j: int| 0 <= j < b.len() && b[j] == a[i],
{
    broadcast use vstd::seq_lib::group_to_multiset_ensures;
    assert(a.contains(a[i]));
    assert(a.to_multiset().count(a[i]) > 0);
    assert(b.contains(a[i]));
}

/// A flush stays a flush, and a hand of Tens and higher stays so, when its
/// cards are rearranged.
proof fn lemma_flush_rearranged(a: Seq<Card>, b: Seq<Card>)
    requires
        a.to_multiset() == b.to_multiset(),
        a.len() == 5,
        b.len() == 5,
    ensures
        is_flush(b) ==> is_flush(a),
        crate::hand::all_ten_or_higher(b) ==> crate::hand::all_ten_or_higher(a),
{
    if is_flush(b) {
        assert forall|i: int| 0 <= i < a.len() implies #[trigger] a[i].suit == a[0].suit by {
            lemma_members(a, b, i);
            lemma_members(a, b, 0);
        }
    }
    if crate::hand::all_ten_or_higher(b) {
        assert forall|i: int| 0 <= i < a.len() implies #[trigger] a[i].rank.ord() >= 8 by {
            lemma_members(a, b, i);
        }
    }
}

/// One total order sorts rearranged rank sequences alike.
proof fn lemma_sort_rearranged(a: Seq<Card>, b: Seq<Card>, f: spec_fn(CardRank, CardRank) -> bool)
    requires
        total_ordering(f),
        ranks(a).to_multiset() == ranks(b).to_multiset(),
    ensures
        ranks(a).sort_by(f) == ranks(b).sort_by(f),
{
    ranks(a).lemma_sort_by_ensures(f);
    ranks(b).lemma_sort_by_ensures(f);
    vstd::seq_lib::lemma_sorted_unique(ranks(a).sort_by(f), ranks(b).sort_by(f), f);
}

/// Category and significance order depend on which cards a hand holds, not
/// on the order they come in.
pub proof fn lemma_rating_ignores_order(a: Seq<Card>, b: Seq<Card>)
    requires
        a.len() == 5,
        b.len() == 5,
        a.to_multiset() == b.to_multiset(),
    ensures
        category_of(a) == category_of(b),
        significance(a) == significance(b),
{
    lemma_ranks_rearranged(a, b);
    lemma_flush_rearranged(a, b);
    lemma_flush_rearranged(b, a);
    assert(group_first(a) == group_first(b)) by {
        assert forall|r: CardRank| rank_count(a, r) == rank_count(b, r) by {}
        assert((|r: CardRank| rank_count(a, r) as int) =~= (|r: CardRank| rank_count(b, r) as int));
    }
    lemma_by_weight_total(|r: CardRank| 0int);
    lemma_by_weight_total(|r: CardRank| rank_count(a, r) as int);
    lemma_sort_rearranged(a, b, high_first());
    lemma_sort_rearranged(a, b, group_first(a));
    assert(desc_ranks(a) == desc_ranks(b));
    assert(grouped_ranks(a) == grouped_ranks(b));
}

/// Evaluating a hand's own cards, already in significance order, gives the
/// same category and the same significance order again.
pub proof fn lemma_rating_is_stable(h: Hand, s: Seq<Card>)
    requires
        s.len() == 5,
        h.rates(s),
    ensures
        h.rates(h.cards@),
        category_of(h.cards@) == h.category,
        significance(h.cards@) == ranks(h.cards@),
{
    lemma_rating_ignores_order(h.cards@, s);
}

/// Five cards of distinct ranks count each of their ranks once.
proof fn lemma_distinct_counts(s: Seq<Card>)
    requires
        forall|i: int, j: int| 0 <= i < j < s.len() ==> s[i].rank != s[j].rank,
    ensures
        forall|r: CardRank| #[trigger] ranks(s).to_multiset().count(r) <= 1,
    decreases s.len(),
{
    broadcast use vstd::seq_lib::group_to_multiset_ensures, vstd::multiset::group_multiset_axioms;
    if s.len() > 0 {
        let s1 = s.drop_last();
        lemma_distinct_counts(s1);
        assert(ranks(s) =~= ranks(s1).push(s.last().rank));
        assert forall|r: CardRank| #[trigger] ranks(s).to_multiset().count(r) <= 1 by {
            if r == s.last().rank {
                if ranks(s1).to_multiset().count(r) > 0 {
                    assert(ranks(s1).contains(r));
                    let j = choose|j: int| 0 <= j < ranks(s1).len() && ranks(s1)[j] == r;
                    assert(s[j].rank == s[s.len() - 1].rank);
                }
            }
        }
    }
}

/// Among five cards of distinct ranks, the ranks from high to low fall
/// strictly.
proof fn lemma_distinct_desc(s: Seq<Card>)
    requires
        s.len() == 5,
        forall|i: int, j: int| 0 <= i < j < s.len() ==> s[i].rank != s[j].rank,
    ensures
        forall|i: int, j: int| 0 <= i < j < 5 ==> desc_ranks(s)[i].ord() > desc_ranks(s)[j].ord(),
{
    broadcast use vstd::seq_lib::group_to_multiset_ensures, vstd::multiset::group_multiset_axioms;
    let d = desc_ranks(s);
    lemma_desc_ranks_facts(s);
    lemma_distinct_counts(s);
    lemma_by_weight_total(|r: CardRank| 0int);
    ranks(s).lemma_sort_by_ensures(high_first());
    assert forall|i: int, j: int| 0 <= i < j < 5 implies d[i].ord() > d[j].ord() by {
        if d[i].ord() == d[j].ord() {
            lemma_ord_injective(d[i], d[j]);
            let rest = d.remove(i);
            assert(rest[j - 1] == d[j]);
            assert(rest.contains(d[i]));
            assert(rest.to_multiset().count(d[i]) > 0);
            assert(rest.to_multiset() == d.to_multiset().remove(d[i]));
            assert(d.to_multiset().count(d[i]) >= 2);
            assert(ranks(s).to_multiset().count(d[i]) <= 1);
        }
    }
}

/// No two of the five ranks lie more than four apart.
pub open spec fn ranks_span_four(s: Seq<Card>) -> bool {
    forall|i: int, j: int| 0 <= i < 5 && 0 <= j < 5 ==> #[trigger] s[i].rank.ord() - #[trigger] s[j].rank.ord() <= 4
}

/// Every rank is one of Ace, Two, Three, Four and Five.
pub open spec fn ranks_ace_to_five(s: Seq<Card>) -> bool {
    forall|i: int| 0 <= i < 5 ==> #[trigger] s[i].rank.ord() <= 3 || s[i].rank == CardRank::Ace
}

proof fn lemma_run_spans_four(s: Seq<Card>)
    requires
        s.len() == 5,
        gaps(s) == seq![4int, 3, 2, 1],
    ensures
        ranks_span_four(s),
{
    let d = desc_ranks(s);
    lemma_desc_ranks_facts(s);
    assert(gaps(s)[0] == 4);
    assert forall|i: int, j: int| 0 <= i < 5 && 0 <= j < 5 implies #[trigger] s[i].rank.ord() - #[trigger] s[j].rank.ord() <= 4 by {
        assert(d.contains(s[i].rank));
        assert(d.contains(s[j].rank));
        let a = choose|k: int| 0 <= k < 5 && d[k] == s[i].rank;
        let b = choose|k: int| 0 <= k < 5 && d[k] == s[j].rank;
        assert(d[a].ord() <= d[0].ord() && d[b].ord() >= d[4].ord());
    }
}

proof fn lemma_wheel_ace_to_five(s: Seq<Card>)
    requires
        s.len() == 5,
        is_wheel(s),
    ensures
        ranks_ace_to_five(s),
{
    let d = desc_ranks(s);
    lemma_desc_ranks_facts(s);
    assert(gaps(s)[0] == 12 && gaps(s)[1] == 3 && gaps(s)[2] == 2 && gaps(s)[3] == 1);
    assert forall|i: int| 0 <= i < 5 implies #[trigger] s[i].rank.ord() <= 3 || s[i].rank == CardRank::Ace by {
        assert(d.contains(s[i].rank));
        let k = choose|k: int| 0 <= k < 5 && d[k] == s[i].rank;
        lemma_ord_injective(s[i].rank, CardRank::Ace);
    }
}

proof fn lemma_span_four_is_run(s: Seq<Card>)
    requires
        s.len() == 5,
        forall|i: int, j: int| 0 <= i < j < s.len() ==> s[i].rank != s[j].rank,
        ranks_span_four(s),
    ensures
        gaps(s) == seq![4int, 3, 2, 1],
{
    let d = desc_ranks(s);
    lemma_desc_ranks_facts(s);
    lemma_distinct_desc(s);
    assert(d[0].ord() > d[1].ord() && d[1].ord() > d[2].ord() && d[2].ord() > d[3].ord() && d[3].ord() > d[4].ord());
    let a = choose|j: int| 0 <= j < 5 && s[j].rank == #[trigger] d[0];
    let b = choose|j: int| 0 <= j < 5 && s[j].rank == #[trigger] d[4];
    assert(s[a].rank.ord() - s[b].rank.ord() <= 4);
    assert(gaps(s) =~= seq![4int, 3, 2, 1]);
}

proof fn lemma_ace_to_five_is_wheel(s: Seq<Card>)
    requires
        s.len() == 5,
        forall|i: int, j: int| 0 <= i < j < s.len() ==> s[i].rank != s[j].rank,
        ranks_ace_to_five(s),
    ensures
        is_wheel(s),
{
    let d = desc_ranks(s);
    lemma_desc_ranks_facts(s);
    lemma_distinct_desc(s);
    assert(d[0].ord() > d[1].ord() && d[1].ord() > d[2].ord() && d[2].ord() > d[3].ord() && d[3].ord() > d[4].ord());
    assert forall|k: int| 0 <= k < 5 implies #[trigger] d[k].ord() <= 3 || d[k].ord() == 12 by {
        let j = choose|j: int| 0 <= j < 5 && s[j].rank == #[trigger] d[k];
        assert(s[j].rank.ord() <= 3 || s[j].rank == CardRank::Ace);
    }
    assert(d[0].ord() <= 3 || d[0].ord() == 12);
    assert(d[1].ord() <= 3 || d[1].ord() == 12);
    assert(d[2].ord() <= 3 || d[2].ord() == 12);
    assert(d[3].ord() <= 3 || d[3].ord() == 12);
    assert(d[4].ord() <= 3 || d[4].ord() == 12);
    assert(gaps(s) =~= seq![12int, 3, 2, 1]);
}

/// For five cards of distinct ranks, a straight is either five consecutive
/// ranks (no two more than four apart) or exactly Ace, Two, Three, Four and
/// Five.
pub proof fn lemma_straight_is_run(s: Seq<Card>)
    requires
        s.len() == 5,
        forall|i: int, j: int| 0 <= i < j < s.len() ==> s[i].rank != s[j].rank,
    ensures
        is_straight(s) <==> ranks_span_four(s) || ranks_ace_to_five(s),
        is_wheel(s) <==> ranks_ace_to_five(s),
{
    if is_wheel(s) {
        lemma_wheel_ace_to_five(s);
    } else if is_straight(s) {
        lemma_run_spans_four(s);
    }
    if ranks_span_four(s) {
        lemma_span_four_is_run(s);
    }
    if ranks_ace_to_five(s) {
        lemma_ace_to_five_is_wheel(s);
    }
}

/// Five cards of one suit and distinct ranks: a royal flush exactly when
/// the ranks are Ten to Ace; otherwise a straight flush exactly when the
/// ranks are consecutive or Ace to Five; otherwise a flush.
pub proof fn lemma_one_suit_categories(s: Seq<Card>)
    requires
        s.len() == 5,
        is_flush(s),
        forall|i: int, j: int| 0 <= i < j < s.len() ==> s[i].rank != s[j].rank,
    ensures
        category_of(s) == HandCategory::RoyalFlush <==> desc_ranks(s) == seq![
            CardRank::Ace,
            CardRank::King,
            CardRank::Queen,
            CardRank::Jack,
            CardRank::Ten,
        ],
        category_of(s) != HandCategory::RoyalFlush ==> (category_of(s) == HandCategory::StraightFlush
            <==> ranks_span_four(s) || ranks_ace_to_five(s)),
        category_of(s) != HandCategory::RoyalFlush && !(ranks_span_four(s) || ranks_ace_to_five(s))
            ==> category_of(s) == HandCategory::Flush,
{
    lemma_flush_categories(s);
    lemma_straight_is_run(s);
}

/// Three distinct values occur at most as often, together, as the
/// sequence is long.
proof fn lemma_three_counts(t: Seq<CardRank>, a: CardRank, b: CardRank, c: CardRank)
    requires
        a != b,
        b != c,
        a != c,
    ensures
        t.to_multiset().count(a) + t.to_multiset().count(b) + t.to_multiset().count(c) <= t.len(),
    decreases t.len(),
{
    broadcast use vstd::seq_lib::group_to_multiset_ensures, vstd::multiset::group_multiset_axioms;
    if t.len() == 0 {
        assert(t.to_multiset() =~= vstd::multiset::Multiset::<CardRank>::empty());
    } else {
        lemma_three_counts(t.drop_last(), a, b, c);
        assert(t =~= t.drop_last().push(t.last()));
    }
}

/// A sequence holding only `x` counts `x` once per position.
proof fn lemma_constant_count(t: Seq<CardRank>, x: CardRank)
    requires
        forall|i: int| 0 <= i < t.len() ==> t[i] == x,
    ensures
        t.to_multiset().count(x) == t.len(),
    decreases t.len(),
{
    broadcast use vstd::seq_lib::group_to_multiset_ensures, vstd::multiset::group_multiset_axioms;
    if t.len() == 0 {
        assert(t.to_multiset() =~= vstd::multiset::Multiset::<CardRank>::empty());
    } else {
        lemma_constant_count(t.drop_last(), x);
        assert(t =~= t.drop_last().push(t.last()));
    }
}

/// The facts about the grouped order that the proofs below share.
proof fn lemma_grouped_facts(s: Seq<Card>)
    requires
        s.len() == 5,
    ensures
        grouped_ranks(s).len() == 5,
        grouped_ranks(s).to_multiset() == ranks(s).to_multiset(),
        total_ordering(group_first(s)),
        vstd::relations::sorted_by(grouped_ranks(s), group_first(s)),
{
    broadcast use vstd::seq_lib::group_to_multiset_ensures;
    lemma_by_weight_total(|r: CardRank| rank_count(s, r) as int);
    ranks(s).lemma_sort_by_ensures(group_first(s));
    assert(grouped_ranks(s).to_multiset().len() == grouped_ranks(s).len());
    assert(ranks(s).to_multiset().len() == 5);
}

/// In the grouped order, the group of the leading rank fills the first
/// positions.
proof fn lemma_group_prefix(s: Seq<Card>, k: int)
    requires
        s.len() == 5,
        0 <= k < 5,
        k < rank_count(s, grouped_ranks(s)[0]),
    ensures
        grouped_ranks(s)[k] == grouped_ranks(s)[0],
{
    broadcast use vstd::seq_lib::group_to_multiset_ensures, vstd::multiset::group_multiset_axioms;
    let g = grouped_ranks(s);
    let f = group_first(s);
    lemma_grouped_facts(s);
    if g[k] != g[0] {
        assert forall|m: int| k <= m < 5 implies #[trigger] g[m] != g[0] by {
            if m > k {
                assert(f(g[k], g[m]));
            }
            assert(f(g[0], g[k]));
            if g[m] == g[0] {
                assert(f(g[k], g[0]));
            }
        }
        let head = g.take(k);
        let tail = g.skip(k);
        assert(g =~= head + tail);
        vstd::seq_lib::lemma_multiset_commutative(head, tail);
        assert(!tail.contains(g[0]));
        assert(tail.to_multiset().count(g[0]) == 0);
        assert(head.to_multiset().count(g[0]) <= head.to_multiset().len());
        assert(g.to_multiset().count(g[0]) <= k);
    }
}

/// Every rank of the hand stands in the grouped order.
proof fn lemma_grouped_position(s: Seq<Card>, r: CardRank) -> (m: int)
    requires
        s.len() == 5,
        rank_count(s, r) > 0,
    ensures
        0 <= m < 5,
        grouped_ranks(s)[m] == r,
{
    broadcast use vstd::seq_lib::group_to_multiset_ensures;
    lemma_grouped_facts(s);
    assert(grouped_ranks(s).to_multiset().count(r) > 0);
    assert(grouped_ranks(s).contains(r));
    choose|m: int| 0 <= m < 5 && grouped_ranks(s)[m] == r
}

/// A rank at or before another in the grouped order has a group at least
/// as large.
proof fn lemma_grouped_sizes_fall(s: Seq<Card>, i: int, j: int)
    requires
        s.len() == 5,
        0 <= i <= j < 5,
    ensures
        rank_count(s, grouped_ranks(s)[i]) >= rank_count(s, grouped_ranks(s)[j]),
        rank_count(s, grouped_ranks(s)[i]) == rank_count(s, grouped_ranks(s)[j])
            ==> grouped_ranks(s)[i].ord() >= grouped_ranks(s)[j].ord(),
{
    let g = grouped_ranks(s);
    lemma_grouped_facts(s);
    if i < j {
        assert(group_first(s)(g[i], g[j]));
    }
    lemma_ord_injective(g[i], g[j]);
    lemma_ord_injective(g[j], g[i]);
    let x = rank_count(s, g[i]) as int;
    let y = rank_count(s, g[j]) as int;
    if x < y {
        assert(x * 16 + 16 <= y * 16);
    }
}

/// The leading rank of the grouped order has the largest group, and the
/// rank right after its group has the largest group among the others.
proof fn lemma_leading_groups(s: Seq<Card>)
    requires
        s.len() == 5,
    ensures
        forall|r: CardRank| #[trigger] rank_count(s, r) <= rank_count(s, grouped_ranks(s)[0]),
        rank_count(s, grouped_ranks(s)[0]) < 5 ==> grouped_ranks(s)[rank_count(s, grouped_ranks(s)[0]) as int]
            != grouped_ranks(s)[0],
        rank_count(s, grouped_ranks(s)[0]) < 5 ==> forall|r: CardRank| r != grouped_ranks(s)[0] ==>
            #[trigger] rank_count(s, r) <= rank_count(s, grouped_ranks(s)[rank_count(s, grouped_ranks(s)[0]) as int]),
        rank_count(s, grouped_ranks(s)[0]) >= 5 ==> forall|r: CardRank| r != grouped_ranks(s)[0] ==>
            #[trigger] rank_count(s, r) == 0,
{
    broadcast use vstd::seq_lib::group_to_multiset_ensures, vstd::multiset::group_multiset_axioms;
    let g = grouped_ranks(s);
    let top = rank_count(s, g[0]) as int;
    lemma_grouped_facts(s);
    assert(top >= 1) by {
        assert(g.to_multiset().count(g[0]) > 0);
    }
    assert forall|r: CardRank| #[trigger] rank_count(s, r) <= rank_count(s, g[0]) by {
        if rank_count(s, r) > 0 {
            let m = lemma_grouped_position(s, r);
            lemma_grouped_sizes_fall(s, 0, m);
        }
    }
    if top < 5 {
        if g[top] == g[0] {
            let head = g.take(top + 1);
            let tail = g.skip(top + 1);
            assert forall|i: int| 0 <= i < head.len() implies head[i] == g[0] by {
                if i < top {
                    lemma_group_prefix(s, i);
                }
            }
            lemma_constant_count(head, g[0]);
            assert(g =~= head + tail);
            vstd::seq_lib::lemma_multiset_commutative(head, tail);
            assert(g.to_multiset().count(g[0]) >= top + 1);
        }
        assert forall|r: CardRank| r != g[0] implies #[trigger] rank_count(s, r) <= rank_count(s, g[top]) by {
            if rank_count(s, r) > 0 {
                let m = lemma_grouped_position(s, r);
                if m < top {
                    lemma_group_prefix(s, m);
                }
                lemma_grouped_sizes_fall(s, top, m);
            }
        }
    } else {
        assert forall|r: CardRank| r != g[0] implies #[trigger] rank_count(s, r) == 0 by {
            if rank_count(s, r) > 0 {
                let m = lemma_grouped_position(s, r);
                lemma_group_prefix(s, m);
            }
        }
    }
}

/// The category of a hand that is neither a flush nor a straight, from the
/// size of its largest rank group and the largest size among the other
/// ranks: four and one, three and two, three and one, two and two, two and
/// one, and single cards.
pub open spec fn sizes_category(top: nat, second: nat) -> HandCategory {
    if top == 4 {
        HandCategory::FourOfAKind
    } else if top == 3 {
        if second == 2 { HandCategory::FullHouse } else { HandCategory::ThreeOfAKind }
    } else if top == 2 {
        if second == 2 { HandCategory::TwoPair } else { HandCategory::Pair }
    } else {
        HandCategory::HighCard
    }
}

/// A hand that is neither a flush nor a straight is categorized by its rank
/// multiplicities: `a` is a rank of the largest group, `b` a rank of the
/// largest group among the other ranks, and their sizes decide.
pub proof fn lemma_category_by_group_sizes(s: Seq<Card>) -> (ab: (CardRank, CardRank))
    requires
        s.len() == 5,
        !is_flush(s),
        !is_straight(s),
    ensures
        ab.0 != ab.1,
        forall|r: CardRank| #[trigger] rank_count(s, r) <= rank_count(s, ab.0),
        forall|r: CardRank| r != ab.0 ==> #[trigger] rank_count(s, r) <= rank_count(s, ab.1),
        category_of(s) == sizes_category(rank_count(s, ab.0), rank_count(s, ab.1)),
{
    let g = grouped_ranks(s);
    lemma_leading_groups(s);
    lemma_grouped_facts(s);
    let top = rank_count(s, g[0]);
    if top < 5 {
        (g[0], g[top as int])
    } else {
        let b = if g[0] == CardRank::Two { CardRank::Three } else { CardRank::Two };
        assert(rank_count(s, b) == 0);
        (g[0], b)
    }
}

/// In a two-pair hand, the higher pair's rank comes first in significance
/// order and the lower pair's rank third.
proof fn lemma_two_pair_ranks(s: Seq<Card>, high: CardRank, low: CardRank)
    requires
        s.len() == 5,
        category_of(s) == HandCategory::TwoPair,
        rank_count(s, high) == 2,
        rank_count(s, low) == 2,
        high.ord() > low.ord(),
    ensures
        significance(s)[0] == high,
        significance(s)[2] == low,
{
    let g = grouped_ranks(s);
    lemma_two_pair_leads(s);
    lemma_leading_groups(s);
    lemma_grouped_facts(s);
    assert(rank_count(s, g[0]) == 2);
    assert(rank_count(s, g[2]) == 2);
    assert(ranks(s).len() == 5);
    lemma_ord_injective(g[0], high);
    lemma_ord_injective(high, low);
    if g[0] != high {
        let m = lemma_grouped_position(s, high);
        lemma_grouped_sizes_fall(s, 0, m);
        lemma_three_counts(ranks(s), g[0], high, low);
    }
    if g[2] != low {
        lemma_ord_injective(g[2], low);
        lemma_three_counts(ranks(s), g[2], high, low);
    }
}

/// Two two-pair hands with the same higher pair are ordered by the ranks of
/// their lower pairs, whatever their kickers.
pub proof fn lemma_two_pair_by_pairs(
    a: Hand,
    sa: Seq<Card>,
    b: Hand,
    sb: Seq<Card>,
    high: CardRank,
    low_a: CardRank,
    low_b: CardRank,
)
    requires
        sa.len() == 5,
        sb.len() == 5,
        a.rates(sa),
        b.rates(sb),
        a.category == HandCategory::TwoPair,
        b.category == HandCategory::TwoPair,
        rank_count(sa, high) == 2,
        rank_count(sa, low_a) == 2,
        high.ord() > low_a.ord(),
        rank_count(sb, high) == 2,
        rank_count(sb, low_b) == 2,
        high.ord() > low_b.ord(),
        low_a.ord() < low_b.ord(),
    ensures
        compare_hands(a, b) == Ordering::Less,
        compare_hands(b, a) == Ordering::Greater,
{
    lemma_two_pair_ranks(sa, high, low_a);
    lemma_two_pair_ranks(sb, high, low_b);
    lemma_two_pair_order(a, sa, b, sb);
}

} // verus!
