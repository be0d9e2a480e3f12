use vstd::prelude::*;
use itertools::Itertools;
use core::cmp::Ordering;
use crate::card::{Card, CardRank};
use crate::hand::{Hand, category_of, significance, ranks};
use crate::compare::{strength, lex_cmp, lemma_lex_cmp_flip, lemma_lex_cmp_trans};

verus! {

/// `c` picks `k` distinct positions of a pool of `n`, in increasing order.
pub open spec fn is_combination(c: Seq<usize>, n: nat, k: nat) -> bool {
    &&& c.len() == k
    &&& forall|i: int| 0 <= i < c.len() ==> #[trigger] c[i] < n
    &&& forall|i: int, j: int| 0 <= i < j < c.len() ==> c[i] < c[j]
}

/// The cards of `pool` at the positions `c`.
pub open spec fn pick(pool: Seq<Card>, c: Seq<usize>) -> Seq<Card> {
    c.map_values(|i: usize| pool[i as int])
}

/// What any evaluation of the five cards `s` is compared by.
pub open spec fn rated_strength(s: Seq<Card>) -> Seq<int> {
    seq![category_of(s).ord()] + significance(s).map_values(|r: CardRank| r.ord())
}

/// A hand compares by what the cards it rates give.
pub proof fn lemma_rates_strength(h: Hand, s: Seq<Card>)
    requires
        h.rates(s),
    ensures
        strength(h) == rated_strength(s),
{
    assert(strength(h) =~= rated_strength(s));
}

/// Five cards give six numbers to compare by.
pub proof fn lemma_rated_strength_len(s: Seq<Card>)
    requires
        s.len() == 5,
    ensures
        rated_strength(s).len() == 6,
{
    broadcast use vstd::seq_lib::group_to_multiset_ensures;
    let f = crate::hand::high_first();
    let g = crate::hand::group_first(s);
    ranks(s).lemma_sort_by_ensures(f);
    ranks(s).lemma_sort_by_ensures(g);
    assert(ranks(s).to_multiset().len() == 5);
    assert(ranks(s).sort_by(f).to_multiset().len() == ranks(s).sort_by(f).len());
    assert(ranks(s).sort_by(g).to_multiset().len() == ranks(s).sort_by(g).len());
}

/// Relies on itertools::Itertools::combinations: over `0..n` it yields every
/// increasing selection of `k` indices, and nothing else.
#[verifier::external_body]
fn index_combinations(n: usize, k: usize) -> (r: Vec<Vec<usize>>)
    ensures
        forall|i: int| 0 <= i < r.len() ==> is_combination(#[trigger] r@[i]@, n as nat, k as nat),
        forall|c: Seq<usize>|
            is_combination(c, n as nat, k as nat) ==> exists|i: int| 0 <= i < r.len() && #[trigger] r@[i]@ == c,
{
    (0..n).combinations(k).collect()
}

/// The strongest five-card hand that the pool holds, or `None` when it
/// holds fewer than five cards. The result rates five of the pool's cards,
/// and no five of them rate higher.
pub fn best_hand(pool: &Vec<Card>) -> (r: Option<Hand>)
    ensures
        r is None <==> pool.len() < 5,
        r matches Some(h) ==> exists|c: Seq<usize>|
            is_combination(c, pool.len() as nat, 5) && #[trigger] h.rates(pick(pool@, c)),
        r matches Some(h) ==> forall|c: Seq<usize>, h2: Hand|
            is_combination(c, pool.len() as nat, 5) && #[trigger] h2.rates(pick(pool@, c))
                ==> lex_cmp(strength(h), strength(h2)) != Ordering::Less,
{
    if pool.len() < 5 {
        return None;
    }
    let n = pool.len();
    let combos = index_combinations(n, 5);
    let ghost all = combos@.map_values(|c: Vec<usize>| c@);
    let mut best: Option<Hand> = None;
    let mut i: usize = 0;
    while i < combos.len()
        invariant
            n == pool.len(),
            n >= 5,
            i <= combos.len(),
            forall|j: int| 0 <= j < combos.len() ==> is_combination(#[trigger] combos@[j]@, n as nat, 5),
            best is None <==> i == 0,
            best matches Some(h) ==> exists|c: Seq<usize>|
                is_combination(c, n as nat, 5) && #[trigger] h.rates(pick(pool@, c)),
            best matches Some(h) ==> forall|j: int| 0 <= j < i ==>
                lex_cmp(strength(h), rated_strength(pick(pool@, #[trigger] combos@[j]@))) != Ordering::Less,
        decreases combos.len() - i,
    {
        let c = &combos[i];
        let ghost cs = c@;
        assert(is_combination(cs, n as nat, 5));
        let cards = [pool[c[0]], pool[c[1]], pool[c[2]], pool[c[3]], pool[c[4]]];
        assert(cards@ =~= pick(pool@, cs));
        let h = Hand::new(cards);
        proof {
            lemma_rates_strength(h, pick(pool@, cs));
        }
        let replace = match &best {
            None => true,
            Some(b) => match h.compare(b) {
                Ordering::Greater => true,
                _ => false,
            },
        };
        if replace {
            proof {
                if let Some(b) = best {
                    assert forall|j: int| 0 <= j < i + 1 implies
                        lex_cmp(strength(h), rated_strength(pick(pool@, #[trigger] combos@[j]@))) != Ordering::Less by {
                        if j < i {
                            lemma_rated_strength_len(pick(pool@, combos@[j]@));
                            lemma_lex_cmp_trans(strength(h), strength(b), rated_strength(pick(pool@, combos@[j]@)));
                        } else {
                            crate::compare::lemma_lex_cmp_refl(strength(h));
                        }
                    }
                } else {
                    crate::compare::lemma_lex_cmp_refl(strength(h));
                }
            }
            best = Some(h);
        } else {
            proof {
                let b = best.unwrap();
                lemma_lex_cmp_flip(strength(h), strength(b));
                assert forall|j: int| 0 <= j < i + 1 implies
                    lex_cmp(strength(b), rated_strength(pick(pool@, #[trigger] combos@[j]@))) != Ordering::Less by {
                    if j == i {
                        assert(lex_cmp(strength(b), strength(h)) != Ordering::Less);
                    }
                }
            }
        }
        i += 1;
    }
    proof {
        let ghost c5 = seq![0usize, 1, 2, 3, 4];
        assert(is_combination(c5, n as nat, 5));
        if let Some(h) = best {
            assert forall|c: Seq<usize>, h2: Hand|
                is_combination(c, n as nat, 5) && #[trigger] h2.rates(pick(pool@, c))
                    implies lex_cmp(strength(h), strength(h2)) != Ordering::Less by {
                let j = choose|j: int| 0 <= j < combos.len() && #[trigger] combos@[j]@ == c;
                lemma_rates_strength(h2, pick(pool@, c));
            }
        }
    }
    best
}

/// The community cards followed by the hole cards at positions `p`.
pub open spec fn with_hole(community: Seq<Card>, hole: Seq<Card>, p: Seq<usize>) -> Seq<Card> {
    community + pick(hole, p)
}

/// Joins the community cards with the hole cards at positions `p`.
fn join_hole(community: &Vec<Card>, hole: &Vec<Card>, p: &Vec<usize>) -> (r: Vec<Card>)
    requires
        forall|i: int| 0 <= i < p.len() ==> #[trigger] p@[i] < hole.len(),
    ensures
        r@ == with_hole(community@, hole@, p@),
{
    let mut r: Vec<Card> = Vec::new();
    let mut i: usize = 0;
    while i < community.len()
        invariant
            i <= community.len(),
            r@ == community@.take(i as int),
        decreases community.len() - i,
    {
        r.push(community[i]);
        i += 1;
        assert(r@ =~= community@.take(i as int));
    }
    assert(community@.take(community.len() as int) =~= community@);
    let mut j: usize = 0;
    while j < p.len()
        invariant
            j <= p.len(),
            forall|i: int| 0 <= i < p.len() ==> #[trigger] p@[i] < hole.len(),
            r@ == community@ + pick(hole@, p@.take(j as int)),
        decreases p.len() - j,
    {
        r.push(hole[p[j]]);
        j += 1;
        assert(r@ =~= community@ + pick(hole@, p@.take(j as int)));
    }
    assert(p@.take(p.len() as int) =~= p@);
    r
}

/// The strongest hand from the community cards joined with exactly `k` of
/// the hole cards, over every choice of those `k`. `None` when there are
/// fewer than `k` hole cards or fewer than five cards to choose from.
pub fn best_hand_using(community: &Vec<Card>, hole: &Vec<Card>, k: usize) -> (r: Option<Hand>)
    ensures
        r is None <==> (k > hole.len() || community.len() + k < 5),
        r matches Some(h) ==> exists|p: Seq<usize>, c: Seq<usize>|
            is_combination(p, hole.len() as nat, k as nat)
            && is_combination(c, (community.len() + k) as nat, 5)
            && #[trigger] h.rates(pick(with_hole(community@, hole@, p), c)),
        r matches Some(h) ==> forall|p: Seq<usize>, c: Seq<usize>, h2: Hand|
            is_combination(p, hole.len() as nat, k as nat)
            && is_combination(c, (community.len() + k) as nat, 5)
            && #[trigger] h2.rates(pick(with_hole(community@, hole@, p), c))
                ==> lex_cmp(strength(h), strength(h2)) != Ordering::Less,
{
    if k > hole.len() {
        return None;
    }
    if k < 5 && community.len() < 5 - k {
        return None;
    }
    let ghost m = (community.len() + k) as nat;
    let picks = index_combinations(hole.len(), k);
    let mut best: Option<Hand> = None;
    let mut i: usize = 0;
    while i < picks.len()
        invariant
            k <= hole.len(),
            m == community.len() + k,
            m >= 5,
            i <= picks.len(),
            forall|j: int| 0 <= j < picks.len() ==> is_combination(#[trigger] picks@[j]@, hole.len() as nat, k as nat),
            best is None <==> i == 0,
            best matches Some(h) ==> exists|p: Seq<usize>, c: Seq<usize>|
                is_combination(p, hole.len() as nat, k as nat)
                && is_combination(c, m, 5)
                && #[trigger] h.rates(pick(with_hole(community@, hole@, p), c)),
            best matches Some(h) ==> forall|j: int, c: Seq<usize>, h2: Hand|
                0 <= j < i && is_combination(c, m, 5)
                && #[trigger] h2.rates(pick(with_hole(community@, hole@, #[trigger] picks@[j]@), c))
                    ==> lex_cmp(strength(h), strength(h2)) != Ordering::Less,
        decreases picks.len() - i,
    {
        let p = &picks[i];
        let ghost ps = p@;
        assert(is_combination(ps, hole.len() as nat, k as nat));
        let pool = join_hole(community, hole, p);
        let found = best_hand(&pool);
        let h = found.unwrap();
        proof { crate::compare::lemma_strength_len(h); }
        let replace = match &best {
            None => true,
            Some(b) => match h.compare(b) {
                Ordering::Greater => true,
                _ => false,
            },
        };
        if replace {
            proof {
                assert forall|j: int, c: Seq<usize>, h2: Hand|
                    0 <= j < i + 1 && is_combination(c, m, 5)
                    && #[trigger] h2.rates(pick(with_hole(community@, hole@, #[trigger] picks@[j]@), c))
                        implies lex_cmp(strength(h), strength(h2)) != Ordering::Less by {
                    crate::compare::lemma_strength_len(h2);
                    if j < i {
                        let b = best.unwrap();
                        crate::compare::lemma_strength_len(b);
                        lemma_lex_cmp_trans(strength(h), strength(b), strength(h2));
                    }
                }
            }
            best = Some(h);
        } else {
            proof {
                let b = best.unwrap();
                lemma_lex_cmp_flip(strength(h), strength(b));
                assert forall|j: int, c: Seq<usize>, h2: Hand|
                    0 <= j < i + 1 && is_combination(c, m, 5)
                    && #[trigger] h2.rates(pick(with_hole(community@, hole@, #[trigger] picks@[j]@), c))
                        implies lex_cmp(strength(b), strength(h2)) != Ordering::Less by {
                    if j == i {
                        crate::compare::lemma_strength_len(b);
                        crate::compare::lemma_strength_len(h2);
                        lemma_lex_cmp_trans(strength(b), strength(h), strength(h2));
                    }
                }
            }
        }
        i += 1;
    }
    proof {
        let first_pick = Seq::new(k as nat, |i: int| i as usize);
        assert(is_combination(first_pick, hole.len() as nat, k as nat));
        let first_at = choose|j: int| 0 <= j < picks.len() && #[trigger] picks@[j]@ == first_pick;
        if let Some(h) = best {
            assert forall|p: Seq<usize>, c: Seq<usize>, h2: Hand|
                is_combination(p, hole.len() as nat, k as nat)
                && is_combination(c, m, 5)
                && #[trigger] h2.rates(pick(with_hole(community@, hole@, p), c))
                    implies lex_cmp(strength(h), strength(h2)) != Ordering::Less by {
                let j = choose|j: int| 0 <= j < picks.len() && #[trigger] picks@[j]@ == p;
            }
        }
    }
    best
}

/// The community cards followed by all the hole cards.
fn join(community: &Vec<Card>, hole: &Vec<Card>) -> (r: Vec<Card>)
    ensures
        r@ == community@ + hole@,
{
    let mut r: Vec<Card> = Vec::new();
    let mut i: usize = 0;
    while i < community.len()
        invariant
            i <= community.len(),
            r@ == community@.take(i as int),
        decreases community.len() - i,
    {
        r.push(community[i]);
        i += 1;
        assert(r@ =~= community@.take(i as int));
    }
    assert(community@.take(community.len() as int) =~= community@);
    let mut j: usize = 0;
    while j < hole.len()
        invariant
            j <= hole.len(),
            r@ == community@ + hole@.take(j as int),
        decreases hole.len() - j,
    {
        r.push(hole[j]);
        j += 1;
        assert(r@ =~= community@ + hole@.take(j as int));
    }
    assert(hole@.take(hole.len() as int) =~= hole@);
    r
}

/// The strongest hand a player can form, as in hold'em. With at most two
/// hole cards it is the best five of the community and hole cards together,
/// and `None` only when they number fewer than five. With more hole cards,
/// exactly two of them play (`best_hand_using` with two), and `None` comes
/// only when there are fewer than three community cards.
pub fn form_best_hand(community: &Vec<Card>, hole: &Vec<Card>) -> (r: Option<Hand>)
    ensures
        hole.len() <= 2 ==> (r is None <==> community.len() + hole.len() < 5),
        hole.len() <= 2 ==> (r matches Some(h) ==> exists|c: Seq<usize>|
            is_combination(c, (community.len() + hole.len()) as nat, 5)
            && #[trigger] h.rates(pick(community@ + hole@, c))),
        hole.len() <= 2 ==> (r matches Some(h) ==> forall|c: Seq<usize>, h2: Hand|
            is_combination(c, (community.len() + hole.len()) as nat, 5)
            && #[trigger] h2.rates(pick(community@ + hole@, c))
                ==> lex_cmp(strength(h), strength(h2)) != Ordering::Less),
        hole.len() > 2 ==> (r is None <==> community.len() < 3),
        hole.len() > 2 ==> (r matches Some(h) ==> exists|p: Seq<usize>, c: Seq<usize>|
            is_combination(p, hole.len() as nat, 2)
            && is_combination(c, (community.len() + 2) as nat, 5)
            && #[trigger] h.rates(pick(with_hole(community@, hole@, p), c))),
        hole.len() > 2 ==> (r matches Some(h) ==> forall|p: Seq<usize>, c: Seq<usize>, h2: Hand|
            is_combination(p, hole.len() as nat, 2)
            && is_combination(c, (community.len() + 2) as nat, 5)
            && #[trigger] h2.rates(pick(with_hole(community@, hole@, p), c))
                ==> lex_cmp(strength(h), strength(h2)) != Ordering::Less),
{
    if hole.len() <= 2 {
        let pool = join(community, hole);
        best_hand(&pool)
    } else {
        best_hand_using(community, hole, 2)
    }
}

} // verus!
