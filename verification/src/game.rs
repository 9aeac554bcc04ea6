//! Hand categories, the pooled-card model shared by all detectors, and the
//! strength scorer.

use crate::card::distinct_cards;
use crate::card::Card;
use crate::card::Rank;
use crate::card::Suit;
use crate::GameType;
use vstd::multiset::Multiset;
use vstd::prelude::*;

verus! {

broadcast use
    vstd::seq_lib::group_seq_properties,
    vstd::seq_lib::group_filter_ensures,
    Seq::lemma_filter_push,
    Seq::lemma_take_succ_push,
;

/// The ten hand categories.
#[derive(Debug, PartialEq, Clone, Copy, Eq, Hash, Structural)]
pub enum HandCombination {
    RoyalFlush,
    StraightFlush,
    Quads,
    FullHouse,
    Flush,
    Straight,
    TreeOfAKind,
    TwoPairs,
    OnePair,
    HighCards,
}

/// A classified hand: the category and the single comparable score.
#[derive(Debug, PartialEq, Clone, Copy, Eq, Structural)]
pub struct HandStrength {
    pub hand_combination: HandCombination,
    pub points: u64,
}

/// The cards of the pool whose rank value is `v`, in pool order.
pub open spec fn cards_of_rank(pool: Seq<Card>, v: int) -> Seq<Card> {
    pool.filter(|c: Card| c.rank.spec_value() == v)
}

/// How many cards of rank value `v` the pool holds.
pub open spec fn count_rank(pool: Seq<Card>, v: int) -> nat {
    cards_of_rank(pool, v).len()
}

/// The cards of the pool with suit `s`, in pool order.
pub open spec fn cards_of_suit(pool: Seq<Card>, s: Suit) -> Seq<Card> {
    pool.filter(|c: Card| c.suit == s)
}

/// How many cards of suit `s` the pool holds.
pub open spec fn count_suit(pool: Seq<Card>, s: Suit) -> nat {
    cards_of_suit(pool, s).len()
}

/// The pool holds at least one card of rank value `v`.
pub open spec fn has_rank(pool: Seq<Card>, v: int) -> bool {
    exists|i: int| 0 <= i < pool.len() && pool[i].rank.spec_value() == v
}

/// The cards are ordered by weakly decreasing rank value.
pub open spec fn sorted_desc(s: Seq<Card>) -> bool {
    forall|i: int, j: int| 0 <= i <= j < s.len() ==> s[i].rank.spec_value() >= s[j].rank.spec_value()
}

/// Sorts the cards by descending rank value (a stable order is not promised;
/// only the multiset of cards is preserved).
pub fn sort_by_rank_desc(cards: &mut Vec<Card>)
    ensures
        sorted_desc(final(cards)@),
        final(cards)@.to_multiset() == old(cards)@.to_multiset(),
        final(cards)@.len() == old(cards)@.len(),
        forall|c: Card| final(cards)@.contains(c) <==> old(cards)@.contains(c),
{
    let ghost orig = cards@;
    let mut out: Vec<Card> = Vec::new();
    while cards.len() > 0
        invariant
            out@.to_multiset().add(cards@.to_multiset()) == orig.to_multiset(),
            sorted_desc(out@),
            forall|a: int, b: int|
                0 <= a < out@.len() && 0 <= b < cards@.len() ==> out@[a].rank.spec_value()
                    >= cards@[b].rank.spec_value(),
        decreases cards@.len(),
    {
        let mut m: usize = 0;
        let mut k: usize = 1;
        while k < cards.len()
            invariant
                m < k <= cards@.len() || (m == 0 && k <= cards@.len()),
                m < cards@.len(),
                cards@.len() > 0,
                forall|t: int| 0 <= t < k ==> cards@[t].rank.spec_value() <= cards@[
                    m as int].rank.spec_value(),
            decreases cards@.len() - k,
        {
            if cards[k].rank.value() > cards[m].rank.value() {
                m = k;
            }
            k += 1;
        }
        let ghost before = cards@;
        let c = cards.remove(m);
        proof {
            assert(before =~= cards@.insert(m as int, c));
            cards@.to_multiset_ensures();
            old_remove_multiset(orig, out@, cards@, c, m as int);
        }
        out.push(c);
        proof {
            out@.to_multiset_ensures();
        }
    }
    proof {
        assert(cards@.to_multiset() =~= Multiset::<Card>::empty());
        assert(out@.to_multiset().add(cards@.to_multiset()) =~= out@.to_multiset());
        assert(out@.to_multiset() == orig.to_multiset());
    }
    *cards = out;
    proof {
        cards@.to_multiset_ensures();
        orig.to_multiset_ensures();
        assert(cards@.to_multiset().len() == orig.to_multiset().len());
        assert forall|c: Card| cards@.contains(c) <==> orig.contains(c) by {
            cards@.to_multiset_ensures();
            orig.to_multiset_ensures();
            assert(cards@.to_multiset().count(c) == orig.to_multiset().count(c));
            assert(cards@.contains(c) <==> cards@.to_multiset().count(c) > 0);
            assert(orig.contains(c) <==> orig.to_multiset().count(c) > 0);
        }
    }
}

pub proof fn old_remove_multiset(
    orig: Seq<Card>,
    out: Seq<Card>,
    remaining: Seq<Card>,
    c: Card,
    m: int,
)
    requires
        out.to_multiset().add(remaining.insert(m, c).to_multiset()) == orig.to_multiset(),
        0 <= m <= remaining.len(),
    ensures
        out.push(c).to_multiset().add(remaining.to_multiset()) == orig.to_multiset(),
{
    let before = remaining.insert(m, c);
    assert(before.remove(m) =~= remaining);
    before.to_multiset_ensures();
    vstd::seq_lib::to_multiset_remove(before, m);
    out.to_multiset_ensures();
    assert(before[m] == c);
    assert(before.to_multiset() == remaining.to_multiset().insert(c));
    assert(out.push(c).to_multiset() == out.to_multiset().insert(c));
    assert(out.push(c).to_multiset().add(remaining.to_multiset()) =~= out.to_multiset().add(
        remaining.to_multiset().insert(c),
    ));
    assert(out.to_multiset().add(remaining.to_multiset().insert(c)) =~= out.to_multiset().add(
        before.to_multiset(),
    ));
}

/// The pool grouped by rank value: `groups[v]` holds exactly the pool's cards
/// of rank value `v`, in pool order, for `v` in 0..15.
pub struct RankGroups {
    pub groups: Vec<Vec<Card>>,
}

/// The grouping invariant tying `RankGroups` to the pool it was built from.
pub open spec fn rank_groups_wf(g: &RankGroups, pool: Seq<Card>) -> bool {
    &&& g.groups@.len() == 15
    &&& forall|v: int| 0 <= v < 15 ==> (#[trigger] g.groups@[v])@ == cards_of_rank(pool, v)
}

/// The pool grouped by suit: `groups[i]` holds exactly the pool's cards of the
/// suit at deck-generation position `i`, in pool order, for `i` in 0..4.
pub struct SuitGroups {
    pub groups: Vec<Vec<Card>>,
}

/// The grouping invariant tying `SuitGroups` to the pool it was built from.
pub open spec fn suit_groups_wf(g: &SuitGroups, pool: Seq<Card>) -> bool {
    &&& g.groups@.len() == 4
    &&& forall|i: int| 0 <= i < 4 ==> (#[trigger] g.groups@[i])@ == cards_of_suit(
        pool,
        crate::card::suit_of_index(i),
    )
}

/// Groups the pool by rank value.
pub fn group_by_rank(pool: &Vec<Card>) -> (g: RankGroups)
    ensures
        rank_groups_wf(&g, pool@),
{
    let mut groups: Vec<Vec<Card>> = Vec::new();
    let mut v: usize = 0;
    while v < 15
        invariant
            v <= 15,
            groups@.len() == v,
            forall|u: int| 0 <= u < v ==> (#[trigger] groups@[u])@ == cards_of_rank(pool@, u),
        decreases 15 - v,
    {
        let mut grp: Vec<Card> = Vec::new();
        let mut i: usize = 0;
        proof {
            assert(pool@.take(0) =~= Seq::<Card>::empty());
            assert(cards_of_rank(pool@.take(0), v as int) =~= Seq::<Card>::empty()) by {
                reveal(Seq::filter);
            }
        }
        while i < pool.len()
            invariant
                i <= pool@.len(),
                grp@ == cards_of_rank(pool@.take(i as int), v as int),
            decreases pool@.len() - i,
        {
            let c = pool[i];
            if c.rank.value() as usize == v {
                grp.push(c);
            }
            i += 1;
        }
        proof {
            assert(pool@.take(pool@.len() as int) =~= pool@);
        }
        groups.push(grp);
        v += 1;
    }
    RankGroups { groups }
}

/// Groups the pool by suit.
pub fn group_by_suit(pool: &Vec<Card>) -> (g: SuitGroups)
    ensures
        suit_groups_wf(&g, pool@),
{
    let mut groups: Vec<Vec<Card>> = Vec::new();
    let mut si: usize = 0;
    while si < 4
        invariant
            si <= 4,
            groups@.len() == si,
            forall|u: int| 0 <= u < si ==> (#[trigger] groups@[u])@ == cards_of_suit(
                pool@,
                crate::card::suit_of_index(u),
            ),
        decreases 4 - si,
    {
        let s = crate::card::suit_from_index(si);
        let mut grp: Vec<Card> = Vec::new();
        let mut i: usize = 0;
        proof {
            assert(pool@.take(0) =~= Seq::<Card>::empty());
            assert(cards_of_suit(pool@.take(0), s) =~= Seq::<Card>::empty()) by {
                reveal(Seq::filter);
            }
        }
        while i < pool.len()
            invariant
                i <= pool@.len(),
                grp@ == cards_of_suit(pool@.take(i as int), s),
        decreases pool@.len() - i,
        {
            let c = pool[i];
            if suits_eq(c.suit, s) {
                grp.push(c);
            }
            i += 1;
        }
        proof {
            assert(pool@.take(pool@.len() as int) =~= pool@);
        }
        groups.push(grp);
        si += 1;
    }
    SuitGroups { groups }
}

/// The pool's cards whose rank value is not `v`, in pool order: the kicker
/// candidates once rank `v` is used up.
pub open spec fn kickers_excluding(pool: Seq<Card>, v: int) -> Seq<Card> {
    pool.filter(|c: Card| c.rank.spec_value() != v)
}

/// The pool's cards whose rank value is neither `v1` nor `v2`, in pool order.
pub open spec fn kickers_excluding2(pool: Seq<Card>, v1: int, v2: int) -> Seq<Card> {
    pool.filter(|c: Card| c.rank.spec_value() != v1 && c.rank.spec_value() != v2)
}

/// Copies a card vector.
pub fn copy_cards(v: &Vec<Card>) -> (r: Vec<Card>)
    ensures
        r@ == v@,
{
    let mut r: Vec<Card> = Vec::new();
    let mut i: usize = 0;
    while i < v.len()
        invariant
            i <= v@.len(),
            r@ == v@.take(i as int),
        decreases v@.len() - i,
    {
        r.push(v[i]);
        i += 1;
    }
    proof {
        assert(v@.take(v@.len() as int) =~= v@);
    }
    r
}

/// Keeps the cards of suit `s`, in order.
pub fn filter_by_suit(v: &Vec<Card>, s: Suit) -> (r: Vec<Card>)
    ensures
        r@ == cards_of_suit(v@, s),
{
    let mut r: Vec<Card> = Vec::new();
    let mut i: usize = 0;
    proof {
        assert(cards_of_suit(v@.take(0), s) =~= Seq::<Card>::empty()) by {
            reveal(Seq::filter);
        }
        assert(v@.take(0) =~= Seq::<Card>::empty());
    }
    while i < v.len()
        invariant
            i <= v@.len(),
            r@ == cards_of_suit(v@.take(i as int), s),
        decreases v@.len() - i,
    {
        if suits_eq(v[i].suit, s) {
            r.push(v[i]);
        }
        i += 1;
    }
    proof {
        assert(v@.take(v@.len() as int) =~= v@);
    }
    r
}

/// Keeps the cards whose rank value is `value`, in order.
pub fn filter_rank(v: &Vec<Card>, value: u8) -> (r: Vec<Card>)
    ensures
        r@ == cards_of_rank(v@, value as int),
{
    let mut r: Vec<Card> = Vec::new();
    let mut i: usize = 0;
    proof {
        assert(cards_of_rank(v@.take(0), value as int) =~= Seq::<Card>::empty()) by {
            reveal(Seq::filter);
        }
        assert(v@.take(0) =~= Seq::<Card>::empty());
    }
    while i < v.len()
        invariant
            i <= v@.len(),
            r@ == cards_of_rank(v@.take(i as int), value as int),
        decreases v@.len() - i,
    {
        if v[i].rank.value() == value {
            r.push(v[i]);
        }
        i += 1;
    }
    proof {
        assert(v@.take(v@.len() as int) =~= v@);
    }
    r
}

/// Keeps the cards whose rank value is not `value`, in order.
pub fn filter_not_rank(v: &Vec<Card>, value: u8) -> (r: Vec<Card>)
    ensures
        r@ == kickers_excluding(v@, value as int),
{
    let mut r: Vec<Card> = Vec::new();
    let mut i: usize = 0;
    proof {
        assert(kickers_excluding(v@.take(0), value as int) =~= Seq::<Card>::empty()) by {
            reveal(Seq::filter);
        }
        assert(v@.take(0) =~= Seq::<Card>::empty());
    }
    while i < v.len()
        invariant
            i <= v@.len(),
            r@ == kickers_excluding(v@.take(i as int), value as int),
        decreases v@.len() - i,
    {
        if v[i].rank.value() != value {
            r.push(v[i]);
        }
        i += 1;
    }
    proof {
        assert(v@.take(v@.len() as int) =~= v@);
    }
    r
}

/// Keeps the cards whose rank value is neither `v1` nor `v2`, in order.
pub fn filter_not_rank2(v: &Vec<Card>, v1: u8, v2: u8) -> (r: Vec<Card>)
    ensures
        r@ == kickers_excluding2(v@, v1 as int, v2 as int),
{
    let mut r: Vec<Card> = Vec::new();
    let mut i: usize = 0;
    proof {
        assert(kickers_excluding2(v@.take(0), v1 as int, v2 as int) =~= Seq::<Card>::empty()) by {
            reveal(Seq::filter);
        }
        assert(v@.take(0) =~= Seq::<Card>::empty());
    }
    while i < v.len()
        invariant
            i <= v@.len(),
            r@ == kickers_excluding2(v@.take(i as int), v1 as int, v2 as int),
        decreases v@.len() - i,
    {
        if v[i].rank.value() != v1 && v[i].rank.value() != v2 {
            r.push(v[i]);
        }
        i += 1;
    }
    proof {
        assert(v@.take(v@.len() as int) =~= v@);
    }
    r
}

/// Filtering keeps a descending order.
pub proof fn lemma_sorted_filter(pool: Seq<Card>, p: spec_fn(Card) -> bool)
    requires
        sorted_desc(pool),
    ensures
        sorted_desc(pool.filter(p)),
        distinct_cards(pool) ==> distinct_cards(pool.filter(p)),
    decreases pool.len(),
{
    reveal(Seq::filter);
    if pool.len() == 0 {
    } else {
        let d = pool.drop_last();
        assert(sorted_desc(d));
        assert(distinct_cards(pool) ==> distinct_cards(d));
        lemma_sorted_filter(d, p);
        if p(pool.last()) {
            let f = d.filter(p).push(pool.last());
            assert forall|i: int, j: int| 0 <= i <= j < f.len() implies f[i].rank.spec_value()
                >= f[j].rank.spec_value() by {
                if j < f.len() - 1 {
                    assert(f[i] == d.filter(p)[i] && f[j] == d.filter(p)[j]);
                } else if i < f.len() - 1 {
                    assert(f[i] == d.filter(p)[i]);
                    assert(d.filter(p).contains(f[i])) by {
                        assert(0 <= i < d.filter(p).len() && d.filter(p)[i] == f[i]);
                    }
                    d.lemma_filter_contains_rev(p, f[i]);
                    let w = choose|w: int| 0 <= w < d.len() && d[w] == f[i];
                    assert(pool[w] == f[i]);
                    assert(pool[w].rank.spec_value() >= pool.last().rank.spec_value());
                }
            }
            if distinct_cards(pool) {
                assert forall|i: int, j: int| 0 <= i < j < f.len() implies f[i] != f[j] by {
                    if j == f.len() - 1 {
                        assert(f[i] == d.filter(p)[i]);
                        assert(d.filter(p).contains(f[i])) by {
                            assert(0 <= i < d.filter(p).len() && d.filter(p)[i] == f[i]);
                        }
                        d.lemma_filter_contains_rev(p, f[i]);
                        let w = choose|w: int| 0 <= w < d.len() && d[w] == f[i];
                        assert(pool[w] == f[i] && pool[pool.len() - 1] == pool.last());
                    } else {
                        assert(f[i] == d.filter(p)[i] && f[j] == d.filter(p)[j]);
                    }
                }
            }
        }
    }
}

/// The elements of a filtered pool are exactly the pool members that satisfy
/// the predicate.
pub proof fn lemma_filter_membership(pool: Seq<Card>, p: spec_fn(Card) -> bool)
    ensures
        forall|c: Card| pool.filter(p).contains(c) <==> pool.contains(c) && p(c),
{
    assert forall|c: Card| pool.filter(p).contains(c) <==> pool.contains(c) && p(c) by {
        if pool.filter(p).contains(c) {
            pool.lemma_filter_contains_rev(p, c);
            let i = choose|i: int| 0 <= i < pool.filter(p).len() && pool.filter(p)[i] == c;
            pool.lemma_filter_pred(p, i);
        }
        if pool.contains(c) && p(c) {
            let i = choose|i: int| 0 <= i < pool.len() && pool[i] == c;
            pool.lemma_filter_contains(p, i);
        }
    }
}

/// A filtered length only depends on the multiset of cards, not their order.
pub proof fn lemma_filter_len_to_multiset(s: Seq<Card>, p: spec_fn(Card) -> bool)
    ensures
        s.filter(p).len() == s.to_multiset().filter(p).len(),
    decreases s.len(),
{
    broadcast use vstd::multiset::group_multiset_axioms;
    broadcast use vstd::multiset::lemma_insert_len;

    reveal(Seq::filter);
    s.to_multiset_ensures();
    if s.len() == 0 {
        assert(s.to_multiset() =~= Multiset::<Card>::empty());
        assert(s.to_multiset().filter(p) =~= Multiset::<Card>::empty());
    } else {
        let d = s.drop_last();
        let x = s.last();
        lemma_filter_len_to_multiset(d, p);
        d.to_multiset_ensures();
        vstd::seq_lib::to_multiset_build(d, x);
        assert(s =~= d.push(x));
        assert(s.to_multiset() == d.to_multiset().insert(x));
        if p(x) {
            assert(s.to_multiset().filter(p) =~= d.to_multiset().filter(p).insert(x));
        } else {
            assert(s.to_multiset().filter(p) =~= d.to_multiset().filter(p));
        }
    }
}

/// Two pools with the same cards agree on every filtered count.
pub proof fn lemma_filter_len_permutation(a: Seq<Card>, b: Seq<Card>, p: spec_fn(Card) -> bool)
    requires
        a.to_multiset() == b.to_multiset(),
    ensures
        a.filter(p).len() == b.filter(p).len(),
{
    lemma_filter_len_to_multiset(a, p);
    lemma_filter_len_to_multiset(b, p);
}

/// The first `n` cards, or all of them if fewer.
pub fn take_cards(v: &Vec<Card>, n: usize) -> (r: Vec<Card>)
    requires
        n <= v@.len(),
    ensures
        r@ == v@.take(n as int),
{
    let mut r: Vec<Card> = Vec::new();
    let mut i: usize = 0;
    while i < n
        invariant
            i <= n <= v@.len(),
            r@ == v@.take(i as int),
        decreases n - i,
    {
        r.push(v[i]);
        i += 1;
    }
    r
}

/// No card lies in both sequences.
pub open spec fn disjoint_cards(a: Seq<Card>, b: Seq<Card>) -> bool {
    forall|c: Card| a.contains(c) ==> !b.contains(c)
}

/// Among the cards of `src`, the hand keeps only top-ranked ones: no left-out
/// `src` card outranks a kept one.
pub open spec fn picks_top(h: Seq<Card>, src: Seq<Card>) -> bool {
    forall|a: Card, b: Card|
        #[trigger] src.contains(a) && !h.contains(a) && #[trigger] h.contains(b) && src.contains(b)
            ==> a.rank.spec_value() <= b.rank.spec_value()
}

/// A suit group in good shape: uniform suit, descending, no duplicates.
pub open spec fn suit_group_ok(grp: Seq<Card>, s: Suit) -> bool {
    &&& sorted_desc(grp)
    &&& distinct_cards(grp)
    &&& forall|k: int| 0 <= k < grp.len() ==> (#[trigger] grp[k]).suit == s
}

/// All four suit groups in good shape.
pub open spec fn suit_groups_ok(g: &SuitGroups) -> bool {
    &&& g.groups@.len() == 4
    &&& forall|i: int| 0 <= i < 4 ==> suit_group_ok(
        (#[trigger] g.groups@[i])@,
        crate::card::suit_of_index(i),
    )
}

/// A rank group in good shape: uniform rank value, no duplicates.
pub open spec fn rank_group_ok(grp: Seq<Card>, v: int) -> bool {
    &&& distinct_cards(grp)
    &&& forall|k: int| 0 <= k < grp.len() ==> (#[trigger] grp[k]).rank.spec_value() == v
}

/// All fifteen rank groups in good shape.
pub open spec fn rank_groups_ok(g: &RankGroups) -> bool {
    &&& g.groups@.len() == 15
    &&& forall|v: int| 0 <= v < 15 ==> rank_group_ok((#[trigger] g.groups@[v])@, v)
}

/// Suit groups built from a sorted, duplicate-free pool are in good shape.
pub proof fn lemma_suit_groups_ok(g: &SuitGroups, pool: Seq<Card>)
    requires
        suit_groups_wf(g, pool),
        sorted_desc(pool),
        distinct_cards(pool),
    ensures
        suit_groups_ok(g),
{
    assert forall|i: int| 0 <= i < 4 implies suit_group_ok(
        (#[trigger] g.groups@[i])@,
        crate::card::suit_of_index(i),
    ) by {
        let s = crate::card::suit_of_index(i);
        let p = |c: Card| c.suit == s;
        lemma_sorted_filter(pool, p);
        assert(g.groups@[i]@ == pool.filter(p));
        assert forall|k: int| 0 <= k < g.groups@[i]@.len() implies (#[trigger] g.groups@[i]@[
            k]).suit == s by {
            pool.lemma_filter_pred(p, k);
        }
    }
}

/// Rank groups built from a duplicate-free pool are in good shape.
pub proof fn lemma_rank_groups_ok(g: &RankGroups, pool: Seq<Card>)
    requires
        rank_groups_wf(g, pool),
        sorted_desc(pool),
        distinct_cards(pool),
    ensures
        rank_groups_ok(g),
{
    assert forall|v: int| 0 <= v < 15 implies rank_group_ok((#[trigger] g.groups@[v])@, v) by {
        let p = |c: Card| c.rank.spec_value() == v;
        lemma_sorted_filter(pool, p);
        assert(g.groups@[v]@ == pool.filter(p));
        assert forall|k: int| 0 <= k < g.groups@[v]@.len() implies (#[trigger] g.groups@[v]@[
            k]).rank.spec_value() == v by {
            pool.lemma_filter_pred(p, k);
        }
    }
}

/// Filtering keeps distinctness, sorted or not.
pub proof fn lemma_distinct_filter(pool: Seq<Card>, p: spec_fn(Card) -> bool)
    requires
        distinct_cards(pool),
    ensures
        distinct_cards(pool.filter(p)),
    decreases pool.len(),
{
    reveal(Seq::filter);
    if pool.len() == 0 {
    } else {
        let d = pool.drop_last();
        assert(distinct_cards(d));
        lemma_distinct_filter(d, p);
        if p(pool.last()) {
            let f = d.filter(p).push(pool.last());
            assert forall|i: int, j: int| 0 <= i < j < f.len() implies f[i] != f[j] by {
                if j == f.len() - 1 {
                    assert(f[i] == d.filter(p)[i]);
                    assert(d.filter(p).contains(f[i])) by {
                        assert(0 <= i < d.filter(p).len() && d.filter(p)[i] == f[i]);
                    }
                    d.lemma_filter_contains_rev(p, f[i]);
                    let w = choose|w: int| 0 <= w < d.len() && d[w] == f[i];
                    assert(pool[w] == f[i] && pool[pool.len() - 1] == pool.last());
                } else {
                    assert(f[i] == d.filter(p)[i] && f[j] == d.filter(p)[j]);
                }
            }
        }
    }
}

/// Reordering cards keeps distinctness.
pub proof fn lemma_distinct_permutation(a: Seq<Card>, b: Seq<Card>)
    requires
        a.to_multiset() == b.to_multiset(),
        distinct_cards(a),
    ensures
        distinct_cards(b),
{
    assert(a.no_duplicates());
    a.lemma_multiset_has_no_duplicates();
    b.lemma_multiset_has_no_duplicates_conv();
    assert(b.no_duplicates());
}

/// A hand that keeps exactly the first `n` cards of a descending source keeps
/// only top-ranked ones.
pub proof fn lemma_picks_top_prefix(h: Seq<Card>, src: Seq<Card>, n: int)
    requires
        sorted_desc(src),
        distinct_cards(src),
        0 <= n <= src.len(),
        forall|k: int| 0 <= k < n ==> h.contains(#[trigger] src[k]),
        forall|c: Card| src.contains(c) && h.contains(c) ==> (exists|k: int|
            0 <= k < n && src[k] == c),
    ensures
        picks_top(h, src),
{
    assert forall|a: Card, b: Card|
        #[trigger] src.contains(a) && !h.contains(a) && #[trigger] h.contains(b) && src.contains(
            b,
        ) implies a.rank.spec_value() <= b.rank.spec_value() by {
        let ka = choose|ka: int| 0 <= ka < src.len() && src[ka] == a;
        assert(ka >= n);
        let kb = choose|kb: int| 0 <= kb < n && src[kb] == b;
        assert(src[kb].rank.spec_value() >= src[ka].rank.spec_value());
    }
}

/// `picks_top` only reads membership and ranks, so it carries over to any
/// reordering of the source.
pub proof fn lemma_picks_top_permutation(h: Seq<Card>, src1: Seq<Card>, src2: Seq<Card>)
    requires
        picks_top(h, src1),
        forall|c: Card| src1.contains(c) <==> src2.contains(c),
    ensures
        picks_top(h, src2),
{
}

/// A filtered pool's multiset is the filtered multiset.
pub proof fn lemma_to_multiset_filter(s: Seq<Card>, p: spec_fn(Card) -> bool)
    ensures
        s.filter(p).to_multiset() == s.to_multiset().filter(p),
    decreases s.len(),
{
    broadcast use vstd::multiset::group_multiset_axioms;

    reveal(Seq::filter);
    s.to_multiset_ensures();
    if s.len() == 0 {
        assert(s.to_multiset() =~= Multiset::<Card>::empty());
        assert(s.to_multiset().filter(p) =~= Multiset::<Card>::empty());
    } else {
        let d = s.drop_last();
        let x = s.last();
        lemma_to_multiset_filter(d, p);
        d.to_multiset_ensures();
        vstd::seq_lib::to_multiset_build(d, x);
        assert(s =~= d.push(x));
        assert(s.to_multiset() == d.to_multiset().insert(x));
        if p(x) {
            d.filter(p).to_multiset_ensures();
            vstd::seq_lib::to_multiset_build(d.filter(p), x);
            assert(s.to_multiset().filter(p) =~= d.to_multiset().filter(p).insert(x));
        } else {
            assert(s.to_multiset().filter(p) =~= d.to_multiset().filter(p));
        }
    }
}

/// A rank is present exactly when its count is positive.
pub proof fn lemma_has_rank_count(pool: Seq<Card>, v: int)
    ensures
        has_rank(pool, v) <==> count_rank(pool, v) > 0,
{
    let p = |c: Card| c.rank.spec_value() == v;
    lemma_filter_membership(pool, p);
    if has_rank(pool, v) {
        let i = choose|i: int| 0 <= i < pool.len() && pool[i].rank.spec_value() == v;
        assert(pool.contains(pool[i]));
        assert(pool.filter(p).contains(pool[i]));
    }
    if count_rank(pool, v) > 0 {
        let c = pool.filter(p)[0];
        assert(pool.filter(p).contains(c));
        assert(pool.contains(c) && p(c));
        let i = choose|i: int| 0 <= i < pool.len() && pool[i] == c;
        assert(pool[i].rank.spec_value() == v);
    }
}

/// Pointwise-equal conditions pick the same top rank.
pub proof fn lemma_top_rank_sat_equiv(c1: spec_fn(int) -> bool, c2: spec_fn(int) -> bool, below: int)
    requires
        forall|v: int| #[trigger] c1(v) == #[trigger] c2(v),
    ensures
        top_rank_sat(c1, below) == top_rank_sat(c2, below),
    decreases below,
{
    if below <= 2 {
    } else {
        assert(c1(below - 1) == c2(below - 1));
        lemma_top_rank_sat_equiv(c1, c2, below - 1);
    }
}

/// The four suit counts partition the pool.
pub proof fn lemma_suit_partition(pool: Seq<Card>)
    ensures
        pool.len() == count_suit(pool, Suit::Hearts) + count_suit(pool, Suit::Clubs) + count_suit(
            pool,
            Suit::Diamonds,
        ) + count_suit(pool, Suit::Spades),
    decreases pool.len(),
{
    reveal(Seq::filter);
    if pool.len() > 0 {
        lemma_suit_partition(pool.drop_last());
    }
}

/// How many of the hand's cards come from the given source.
pub open spec fn from_count(h: Seq<Card>, src: Seq<Card>) -> int {
    h.filter(|c: Card| src.contains(c)).len() as int
}

/// The Omaha composition rule: a scored five-card hand uses exactly two hole
/// cards and exactly three board cards.
pub open spec fn omaha_five(h: Seq<Card>, hole: Seq<Card>, board: Seq<Card>) -> bool {
    &&& h.len() == 5
    &&& distinct_cards(h)
    &&& forall|i: int| 0 <= i < 5 ==> hole.contains(#[trigger] h[i]) || board.contains(h[i])
    &&& from_count(h, hole) == 2
    &&& from_count(h, board) == 3
}

/// The highest rank value below `below` that satisfies `cond`, or 0 when no
/// rank value in 2..below does.
pub open spec fn top_rank_sat(cond: spec_fn(int) -> bool, below: int) -> int
    decreases below,
{
    if below <= 2 {
        0
    } else if cond(below - 1) {
        below - 1
    } else {
        top_rank_sat(cond, below - 1)
    }
}

/// What `top_rank_sat` promises: its result satisfies `cond`, nothing between
/// the result and the bound does, and 0 means nothing below the bound does.
pub proof fn lemma_top_rank_sat(cond: spec_fn(int) -> bool, below: int)
    ensures
        top_rank_sat(cond, below) == 0 || (2 <= top_rank_sat(cond, below) < below && cond(
            top_rank_sat(cond, below),
        )),
        forall|v: int| top_rank_sat(cond, below) < v < below && v >= 2 ==> !(#[trigger] cond(v)),
        top_rank_sat(cond, below) == 0 ==> forall|v: int| 2 <= v < below ==> !(#[trigger] cond(v)),
    decreases below,
{
    if below <= 2 {
    } else if cond(below - 1) {
    } else {
        lemma_top_rank_sat(cond, below - 1);
    }
}

/// The condition "the pool holds exactly `k` cards of this rank value".
pub open spec fn count_eq_cond(pool: Seq<Card>, k: nat) -> spec_fn(int) -> bool {
    |v: int| count_rank(pool, v) == k
}

/// Finds the highest rank value below `below` of which the pool holds exactly
/// `k` cards, or 0 when there is none.
pub fn find_top_rank_with_count(
    rank_map: &RankGroups,
    cards: &Vec<Card>,
    k: usize,
    below: u8,
) -> (t: u8)
    requires
        rank_groups_wf(rank_map, cards@),
        2 <= below <= 15,
    ensures
        t as int == top_rank_sat(count_eq_cond(cards@, k as nat), below as int),
{
    let ghost cond = count_eq_cond(cards@, k as nat);
    let mut v: u8 = below - 1;
    while v >= 2
        invariant
            2 <= below <= 15,
            1 <= v <= below - 1,
            rank_groups_wf(rank_map, cards@),
            top_rank_sat(cond, below as int) == top_rank_sat(cond, v + 1),
            cond == count_eq_cond(cards@, k as nat),
        decreases v,
    {
        if rank_map.groups[v as usize].len() == k {
            proof {
                assert(cond(v as int));
            }
            return v;
        }
        proof {
            assert(!cond(v as int));
        }
        v -= 1;
    }
    proof {
        assert(top_rank_sat(cond, 2) == 0);
    }
    0
}

/// Counts the cards of rank value `value`.
pub fn count_cards_of_rank(v: &Vec<Card>, value: u8) -> (n: usize)
    ensures
        n == count_rank(v@, value as int),
{
    let mut n: usize = 0;
    let mut i: usize = 0;
    proof {
        assert(v@.take(0) =~= Seq::<Card>::empty());
        assert(count_rank(v@.take(0), value as int) == 0) by {
            reveal(Seq::filter);
        }
    }
    while i < v.len()
        invariant
            i <= v@.len(),
            n == count_rank(v@.take(i as int), value as int),
            n <= i,
        decreases v@.len() - i,
    {
        if v[i].rank.value() == value {
            n += 1;
        }
        i += 1;
    }
    proof {
        assert(v@.take(v@.len() as int) =~= v@);
    }
    n
}

/// A pool that is exactly board plus hole holds exactly their cards.
pub proof fn lemma_pool_contains(pool: Seq<Card>, hole: Seq<Card>, board: Seq<Card>)
    requires
        pool.to_multiset() == board.to_multiset().add(hole.to_multiset()),
    ensures
        forall|c: Card|
            #[trigger] pool.contains(c) <==> hole.contains(c) || board.contains(c),
{
    broadcast use vstd::multiset::group_multiset_axioms;

    pool.to_multiset_ensures();
    hole.to_multiset_ensures();
    board.to_multiset_ensures();
    assert forall|c: Card| #[trigger] pool.contains(c) <==> hole.contains(c) || board.contains(
        c,
    ) by {
        assert(pool.contains(c) <==> pool.to_multiset().count(c) > 0);
        assert(hole.contains(c) <==> hole.to_multiset().count(c) > 0);
        assert(board.contains(c) <==> board.to_multiset().count(c) > 0);
        assert(pool.to_multiset().count(c) == board.to_multiset().count(c)
            + hole.to_multiset().count(c));
    }
}

/// Finds some card of rank value `value`, exactly when the pool holds one.
pub fn find_card_of_rank(cards: &Vec<Card>, value: u8) -> (r: Option<Card>)
    ensures
        r is Some <==> has_rank(cards@, value as int),
        r is Some ==> cards@.contains(r->0) && r->0.rank.spec_value() == value as int,
{
    let mut i: usize = 0;
    while i < cards.len()
        invariant
            i <= cards@.len(),
            forall|j: int| 0 <= j < i ==> (#[trigger] cards@[j]).rank.spec_value() != value as int,
        decreases cards@.len() - i,
    {
        if cards[i].rank.value() == value {
            proof {
                assert(cards@.contains(cards@[i as int]));
            }
            return Some(cards[i]);
        }
        i += 1;
    }
    None
}

/// True when the sequence holds this very card.
pub fn contains_card(v: &Vec<Card>, c: Card) -> (r: bool)
    ensures
        r == v@.contains(c),
{
    let mut i: usize = 0;
    while i < v.len()
        invariant
            i <= v@.len(),
            forall|j: int| 0 <= j < i ==> v@[j] != c,
        decreases v@.len() - i,
    {
        if v[i] == c {
            proof {
                assert(v@.contains(c)) by {
                    assert(v@[i as int] == c);
                }
            }
            return true;
        }
        i += 1;
    }
    false
}

/// `kick` is the best card of `src` whose rank value is not `v`.
pub open spec fn is_top_other(kick: Card, src: Seq<Card>, v: int) -> bool {
    &&& src.contains(kick)
    &&& kick.rank.spec_value() != v
    &&& forall|c: Card|
        src.contains(c) && (#[trigger] c.rank.spec_value()) != v ==> c.rank.spec_value()
            <= kick.rank.spec_value()
}

/// Picks the best card of a descending source whose rank value is not `v`;
/// the source must hold one.
pub fn top_other_card(src: &Vec<Card>, v: u8) -> (kick: Card)
    requires
        sorted_desc(src@),
        kickers_excluding(src@, v as int).len() > 0,
    ensures
        is_top_other(kick, src@, v as int),
        kick == kickers_excluding(src@, v as int)[0],
{
    let ks = filter_not_rank(src, v);
    proof {
        let p = |c: Card| c.rank.spec_value() != v;
        lemma_filter_membership(src@, p);
        src@.lemma_filter_pred(p, 0);
        assert(ks@.contains(ks@[0])) by {
            assert(0 <= 0 < ks@.len() && ks@[0] == ks@[0]);
        }
        assert forall|c: Card|
            src@.contains(c) && (#[trigger] c.rank.spec_value()) != v implies c.rank.spec_value()
            <= ks@[0].rank.spec_value() by {
            assert(ks@.contains(c));
            let i = choose|i: int| 0 <= i < ks@.len() && ks@[i] == c;
            lemma_sorted_filter(src@, p);
            assert(ks@[0].rank.spec_value() >= ks@[i].rank.spec_value());
        }
    }
    ks[0]
}

/// `kick` is the best card of `src` whose rank value is neither `v1` nor `v2`.
pub open spec fn is_top_other2(kick: Card, src: Seq<Card>, v1: int, v2: int) -> bool {
    &&& src.contains(kick)
    &&& kick.rank.spec_value() != v1
    &&& kick.rank.spec_value() != v2
    &&& forall|c: Card|
        src.contains(c) && (#[trigger] c.rank.spec_value()) != v1 && c.rank.spec_value() != v2
            ==> c.rank.spec_value() <= kick.rank.spec_value()
}

/// Picks the best card of a descending source whose rank value is neither
/// `v1` nor `v2`; the source must hold one.
pub fn top_other2_card(src: &Vec<Card>, v1: u8, v2: u8) -> (kick: Card)
    requires
        sorted_desc(src@),
        kickers_excluding2(src@, v1 as int, v2 as int).len() > 0,
    ensures
        is_top_other2(kick, src@, v1 as int, v2 as int),
        kick == kickers_excluding2(src@, v1 as int, v2 as int)[0],
{
    let ks = filter_not_rank2(src, v1, v2);
    proof {
        let p = |c: Card| c.rank.spec_value() != v1 as int && c.rank.spec_value() != v2 as int;
        lemma_filter_membership(src@, p);
        src@.lemma_filter_pred(p, 0);
        assert(ks@.contains(ks@[0])) by {
            assert(0 <= 0 < ks@.len() && ks@[0] == ks@[0]);
        }
        assert forall|c: Card|
            src@.contains(c) && (#[trigger] c.rank.spec_value()) != v1 as int
                && c.rank.spec_value() != v2 as int implies c.rank.spec_value()
            <= ks@[0].rank.spec_value() by {
            assert(ks@.contains(c));
            let i = choose|i: int| 0 <= i < ks@.len() && ks@[i] == c;
            lemma_sorted_filter(src@, p);
            assert(ks@[0].rank.spec_value() >= ks@[i].rank.spec_value());
        }
    }
    ks[0]
}

/// Every digit of a classified hand is a rank value, and the leading one is a
/// true card rank, never the synthetic low Ace.
pub open spec fn hand_digits_ok(h: Seq<Card>) -> bool {
    &&& h.len() == 5
    &&& forall|k: int| 0 <= k < 5 ==> 1 <= (#[trigger] h[k]).rank.spec_value() <= 14
    &&& h[0].rank.spec_value() >= 2
}

/// Rank values always lie between 1 and 14.
pub proof fn lemma_rank_value_range()
    ensures
        forall|c: Card| 1 <= #[trigger] c.rank.spec_value() <= 14,
{
}

/// When the pool is exactly the board plus the hole cards, every rank count
/// splits accordingly.
pub proof fn lemma_count_rank_split(pool: Seq<Card>, hole: Seq<Card>, board: Seq<Card>, v: int)
    requires
        pool.to_multiset() == board.to_multiset().add(hole.to_multiset()),
    ensures
        count_rank(pool, v) == count_rank(board, v) + count_rank(hole, v),
{
    broadcast use vstd::multiset::group_multiset_axioms;

    let p = |c: Card| c.rank.spec_value() == v;
    lemma_filter_len_to_multiset(pool, p);
    lemma_filter_len_to_multiset(board, p);
    lemma_filter_len_to_multiset(hole, p);
    assert(pool.to_multiset().filter(p) =~= board.to_multiset().filter(p).add(
        hole.to_multiset().filter(p),
    ));
}

/// Complementary rank filters split the pool's length.
pub proof fn lemma_filter_rank_split(pool: Seq<Card>, v: int)
    ensures
        count_rank(pool, v) + kickers_excluding(pool, v).len() == pool.len(),
    decreases pool.len(),
{
    reveal(Seq::filter);
    if pool.len() > 0 {
        lemma_filter_rank_split(pool.drop_last(), v);
    }
}

/// Two rank filters and the rest split the pool's length.
pub proof fn lemma_filter_rank_split2(pool: Seq<Card>, v1: int, v2: int)
    requires
        v1 != v2,
    ensures
        count_rank(pool, v1) + count_rank(pool, v2) + kickers_excluding2(pool, v1, v2).len()
            == pool.len(),
    decreases pool.len(),
{
    reveal(Seq::filter);
    if pool.len() > 0 {
        lemma_filter_rank_split2(pool.drop_last(), v1, v2);
    }
}

/// A five-card hand reordered from the two best cards of a descending hole
/// selection and the three best of a descending board selection satisfies the
/// Omaha composition rule and keeps only top-ranked cards of each selection.
pub proof fn lemma_two_hole_three_board(
    h: Seq<Card>,
    pre: Seq<Card>,
    hs: Seq<Card>,
    bs: Seq<Card>,
    hole: Seq<Card>,
    board: Seq<Card>,
)
    requires
        sorted_desc(hs),
        distinct_cards(hs),
        sorted_desc(bs),
        distinct_cards(bs),
        hs.len() >= 2,
        bs.len() >= 3,
        forall|c: Card| hs.contains(c) ==> hole.contains(c),
        forall|c: Card| bs.contains(c) ==> board.contains(c),
        disjoint_cards(hole, board),
        pre == seq![hs[0], hs[1], bs[0], bs[1], bs[2]],
        h.to_multiset() == pre.to_multiset(),
    ensures
        h.len() == 5,
        distinct_cards(h),
        forall|i: int| 0 <= i < 5 ==> hole.contains(#[trigger] h[i]) || board.contains(h[i]),
        from_count(h, hole) == 2,
        from_count(h, board) == 3,
        picks_top(h, hs),
        picks_top(h, bs),
{
    h.to_multiset_ensures();
    pre.to_multiset_ensures();
    assert(h.len() == pre.len());
    assert forall|c: Card| h.contains(c) <==> pre.contains(c) by {
        assert(h.to_multiset().count(c) == pre.to_multiset().count(c));
        assert(h.contains(c) <==> h.to_multiset().count(c) > 0);
        assert(pre.contains(c) <==> pre.to_multiset().count(c) > 0);
    }
    assert(hs.contains(hs[0]) && hs.contains(hs[1]));
    assert(bs.contains(bs[0]) && bs.contains(bs[1]) && bs.contains(bs[2]));
    assert forall|c: Card| pre.contains(c) implies (c == hs[0] || c == hs[1] || c == bs[0] || c
        == bs[2] || c == bs[1]) by {
        let k = choose|k: int| 0 <= k < 5 && pre[k] == c;
    }
    assert(pre.contains(pre[0]) && pre.contains(pre[1]) && pre.contains(pre[2]) && pre.contains(
        pre[3],
    ) && pre.contains(pre[4]));
    // no hole card equals a board card, so the five are pairwise distinct
    assert(distinct_cards(pre));
    lemma_distinct_permutation(pre, h);
    assert forall|i: int| 0 <= i < 5 implies hole.contains(#[trigger] h[i]) || board.contains(
        h[i],
    ) by {
        assert(h.contains(h[i]));
    }
    // exactly the two hole-side cards pass the hole filter
    let ph = |c: Card| hole.contains(c);
    let pb = |c: Card| board.contains(c);
    lemma_filter_len_permutation(h, pre, ph);
    lemma_filter_len_permutation(h, pre, pb);
    let e = Seq::<Card>::empty();
    assert(pre =~= e.push(hs[0]).push(hs[1]).push(bs[0]).push(bs[1]).push(bs[2]));
    assert(e.filter(ph) =~= e && e.filter(pb) =~= e) by {
        reveal(Seq::filter);
    }
    assert(!ph(bs[0]) && !ph(bs[1]) && !ph(bs[2]));
    assert(!pb(hs[0]) && !pb(hs[1]));
    assert(pre.filter(ph).len() == 2);
    assert(pre.filter(pb).len() == 3);
    // the hand keeps only top-ranked cards of either selection
    lemma_picks_top_prefix(h, hs, 2);
    lemma_picks_top_prefix(h, bs, 3);
}

/// The score of a hand, read as base-14 digits after a leading category base
/// value: one digit per card, in hand order, each the card's rank value.
pub open spec fn points_of(start: int, hand: Seq<Card>) -> int
    decreases hand.len(),
{
    if hand.len() == 0 {
        start
    } else {
        points_of(start, hand.drop_last()) * 14 + hand.last().rank.spec_value()
    }
}

/// 14 to the `n`th power.
pub open spec fn pow14(n: nat) -> int
    decreases n,
{
    if n == 0 {
        1
    } else {
        14 * pow14((n - 1) as nat)
    }
}

/// The largest digit tail a hand of `n` cards can add to the score.
pub open spec fn max_tail(n: nat) -> int
    decreases n,
{
    if n == 0 {
        0
    } else {
        max_tail((n - 1) as nat) * 14 + 14
    }
}

/// The smallest digit tail a hand of `n` cards can add to the score.
pub open spec fn min_tail(n: nat) -> int
    decreases n,
{
    if n == 0 {
        0
    } else {
        min_tail((n - 1) as nat) * 14 + 1
    }
}

/// Every scored hand stays inside the band of its category base: digits are
/// rank values, so each lies between 1 and 14.
pub proof fn lemma_points_bounds(start: int, hand: Seq<Card>)
    ensures
        start * pow14(hand.len()) + min_tail(hand.len()) <= points_of(start, hand) <= start
            * pow14(hand.len()) + max_tail(hand.len()),
    decreases hand.len(),
{
    if hand.len() == 0 {
    } else {
        let rest = hand.drop_last();
        lemma_points_bounds(start, rest);
        let n1 = rest.len();
        assert(1 <= hand.last().rank.spec_value() <= 14);
        assert((start * pow14(n1) + min_tail(n1)) * 14 == start * pow14(n1) * 14 + min_tail(n1)
            * 14) by (nonlinear_arith);
        assert((start * pow14(n1) + max_tail(n1)) * 14 == start * pow14(n1) * 14 + max_tail(n1)
            * 14) by (nonlinear_arith);
        assert(start * pow14(n1) * 14 == start * pow14(hand.len())) by (nonlinear_arith)
            requires
                pow14(hand.len()) == 14 * pow14(n1),
        ;
        assert(points_of(start, hand) == points_of(start, rest) * 14 + hand.last().rank.spec_value());
        assert(points_of(start, rest) * 14 >= (start * pow14(n1) + min_tail(n1)) * 14)
            by (nonlinear_arith)
            requires
                points_of(start, rest) >= start * pow14(n1) + min_tail(n1),
        ;
        assert(points_of(start, rest) * 14 <= (start * pow14(n1) + max_tail(n1)) * 14)
            by (nonlinear_arith)
            requires
                points_of(start, rest) <= start * pow14(n1) + max_tail(n1),
        ;
    }
}

/// A hand that leads with a digit of at least 2 scores at least that much
/// above the plain minimum; every five-card hand the classifier builds does.
pub proof fn lemma_points_lead_digit(start: int, hand: Seq<Card>)
    requires
        hand.len() == 5,
        hand[0].rank.spec_value() >= 2,
    ensures
        points_of(start, hand) >= start * pow14(5) + 2 * pow14(4) + min_tail(4),
        points_of(start, hand) <= start * pow14(5) + max_tail(5),
{
    lemma_points_bounds(start, hand);
    reveal_with_fuel(points_of, 3);
    reveal_with_fuel(pow14, 6);
    reveal_with_fuel(min_tail, 6);
    reveal_with_fuel(max_tail, 6);
    let h1 = hand.take(1);
    assert(h1.drop_last() =~= Seq::<Card>::empty());
    assert(h1.last() == hand[0]);
    assert(points_of(start, h1.drop_last()) == start);
    assert(points_of(start, h1) == start * 14 + hand[0].rank.spec_value());
    lemma_points_suffix(start, hand, 1);
    lemma_points_bounds(points_of(start, h1), hand.skip(1));
    assert(hand.skip(1).len() == 4);
    assert(points_of(start, hand) >= points_of(start, h1) * pow14(4) + min_tail(4));
    assert(points_of(start, h1) * pow14(4) >= (start * 14 + 2) * pow14(4)) by (nonlinear_arith)
        requires
            points_of(start, h1) >= start * 14 + 2,
            pow14(4) > 0,
    ;
    assert((start * 14 + 2) * pow14(4) == start * 14 * pow14(4) + 2 * pow14(4))
        by (nonlinear_arith);
    assert(start * 14 * pow14(4) == start * pow14(5)) by (nonlinear_arith)
        requires
            pow14(5) == 14 * pow14(4),
    ;
    assert(pow14(4) == 38416);
}

/// Scoring a hand splits at any point: the first `i` cards give an
/// intermediate score, the rest continue from it.
pub proof fn lemma_points_suffix(start: int, hand: Seq<Card>, i: int)
    requires
        0 <= i <= hand.len(),
    ensures
        points_of(start, hand) == points_of(points_of(start, hand.take(i)), hand.skip(i)),
    decreases hand.len() - i,
{
    if i == hand.len() {
        assert(hand.take(i) =~= hand);
        assert(hand.skip(i) =~= Seq::<Card>::empty());
    } else {
        lemma_points_suffix(start, hand, i + 1);
        let a = hand.take(i);
        let b = hand.take(i + 1);
        assert(b.drop_last() =~= a);
        assert(b.last() == hand[i]);
        assert(points_of(start, b) == points_of(start, a) * 14 + hand[i].rank.spec_value());
        let s2 = hand.skip(i);
        let s3 = hand.skip(i + 1);
        lemma_points_step(points_of(start, a), s2);
        assert(s2.skip(1) =~= s3);
        assert(s2[0] == hand[i]);
    }
}

/// Scoring one leading card folds it into the start value.
proof fn lemma_points_step(start: int, hand: Seq<Card>)
    requires
        hand.len() >= 1,
    ensures
        points_of(start, hand) == points_of(
            start * 14 + hand[0].rank.spec_value(),
            hand.skip(1),
        ),
    decreases hand.len(),
{
    if hand.len() == 1 {
        assert(hand.drop_last() =~= Seq::<Card>::empty());
        assert(hand.skip(1) =~= Seq::<Card>::empty());
        assert(hand.last() == hand[0]);
        assert(points_of(start, Seq::<Card>::empty()) == start);
        assert(points_of(start, hand) == points_of(start, hand.drop_last()) * 14
            + hand.last().rank.spec_value());
        let s2 = start * 14 + hand[0].rank.spec_value();
        assert(points_of(s2, hand.skip(1)) == s2);
    } else {
        lemma_points_step(start, hand.drop_last());
        assert(hand.drop_last()[0] == hand[0]);
        assert(hand.skip(1).drop_last() =~= hand.drop_last().skip(1));
        assert(hand.skip(1).last() == hand.last());
        assert(points_of(start, hand) == points_of(start, hand.drop_last()) * 14
            + hand.last().rank.spec_value());
        let s2 = start * 14 + hand[0].rank.spec_value();
        assert(hand.skip(1).len() >= 1);
        assert(points_of(s2, hand.skip(1)) == points_of(s2, hand.skip(1).drop_last()) * 14
            + hand.skip(1).last().rank.spec_value());
        assert(points_of(s2, hand.skip(1).drop_last()) == points_of(s2, hand.drop_last().skip(1)));
    }
}

/// The powers of 14 and digit tails used by five-card hands, as plain bounds.
pub proof fn lemma_pow14_small(n: nat)
    requires
        n <= 5,
    ensures
        1 <= pow14(n) <= 537824,
        0 <= max_tail(n) <= 579194,
        0 <= min_tail(n),
{
    reveal_with_fuel(pow14, 6);
    reveal_with_fuel(max_tail, 6);
    reveal_with_fuel(min_tail, 6);
    if n == 0 {
    } else if n == 1 {
    } else if n == 2 {
    } else if n == 3 {
    } else if n == 4 {
    } else {
        assert(n == 5);
    }
}

/// Reduces a hand to its comparable score: starting from the category base
/// value, each card in hand order multiplies by 14 and adds the rank value.
pub fn calc_points(start_points: u64, cards: &Vec<Card>) -> (points: u64)
    requires
        start_points <= 10,
        cards@.len() <= 5,
    ensures
        points == points_of(start_points as int, cards@),
{
    let mut points: u64 = start_points;
    let mut i: usize = 0;
    proof {
        assert(cards@.take(0) =~= Seq::<Card>::empty());
    }
    while i < cards.len()
        invariant
            i <= cards@.len() <= 5,
            start_points <= 10,
            points == points_of(start_points as int, cards@.take(i as int)),
        decreases cards@.len() - i,
    {
        proof {
            lemma_points_bounds(start_points as int, cards@.take(i as int));
            lemma_pow14_small(i as nat);
            assert(start_points * pow14(i as nat) <= 10 * 537824) by (nonlinear_arith)
                requires
                    start_points <= 10,
                    1 <= pow14(i as nat) <= 537824,
            ;
            assert(points <= 10 * 537824 + 579194);
            assert(cards@.take(i + 1).drop_last() =~= cards@.take(i as int));
            assert(cards@.take(i + 1).last() == cards@[i as int]);
        }
        let c = cards[i];
        points = points * 14 + c.rank.value() as u64;
        i += 1;
    }
    proof {
        assert(cards@.take(cards@.len() as int) =~= cards@);
    }
    points
}

/// True when the two suits are the same.
pub fn suits_eq(a: Suit, b: Suit) -> (r: bool)
    ensures
        r == (a == b),
{
    match (a, b) {
        (Suit::Hearts, Suit::Hearts) => true,
        (Suit::Clubs, Suit::Clubs) => true,
        (Suit::Diamonds, Suit::Diamonds) => true,
        (Suit::Spades, Suit::Spades) => true,
        _ => false,
    }
}

/// True when the two ranks are the same.
pub fn ranks_eq(a: Rank, b: Rank) -> (r: bool)
    ensures
        r == (a == b),
{
    a.value() == b.value()
}


/// The suit group of the pool at deck-generation position `i`.
pub open spec fn suit_grp(pool: Seq<Card>, i: int) -> Seq<Card> {
    cards_of_suit(pool, crate::card::suit_of_index(i))
}

/// Some suit group of the pool carries a straight flush.
pub open spec fn sf_exists(gt: GameType, pool: Seq<Card>, hole: Seq<Card>) -> bool {
    exists|i: int|
        0 <= i < 4 && crate::strength::straight_flush::group_has_sf(
            #[trigger] suit_grp(pool, i),
            crate::card::suit_of_index(i),
            hole,
            gt == GameType::Omaha,
            crate::strength::straight::deck_low(gt),
        )
}

/// Some suit group of the pool carries an Ace-high straight flush.
pub open spec fn royal_exists(gt: GameType, pool: Seq<Card>, hole: Seq<Card>) -> bool {
    exists|i: int|
        0 <= i < 4 && top_rank_sat(
            crate::strength::straight_flush::sf_cond(
                #[trigger] suit_grp(pool, i),
                crate::card::suit_of_index(i),
                hole,
                gt == GameType::Omaha,
                crate::strength::straight::deck_low(gt),
            ),
            15,
        ) == 14
}

/// The pool carries four of a kind (with the Omaha sharing rule where it
/// applies).
pub open spec fn quads_exists(gt: GameType, pool: Seq<Card>, hole: Seq<Card>) -> bool {
    if gt == GameType::Omaha {
        exists|v: int|
            2 <= v <= 14 && count_rank(pool, v) == 4 && 1 <= count_rank(hole, v) <= 2
    } else {
        exists|v: int| 2 <= v <= 14 && count_rank(pool, v) == 4
    }
}

/// The pool carries a full house.
pub open spec fn full_house_exists(gt: GameType, pool: Seq<Card>, hole: Seq<Card>) -> bool {
    if gt == GameType::Omaha {
        top_rank_sat(crate::strength::full_house::omaha_fh_cond(pool, hole), 15) != 0
    } else {
        let t = top_rank_sat(count_eq_cond(pool, 3), 15);
        t != 0 && (top_rank_sat(count_eq_cond(pool, 3), t) != 0 || top_rank_sat(
            count_eq_cond(pool, 2),
            15,
        ) != 0)
    }
}

/// The pool carries a flush.
pub open spec fn flush_exists(gt: GameType, pool: Seq<Card>, hole: Seq<Card>, board: Seq<Card>)
    -> bool {
    if gt == GameType::Omaha {
        exists|s: Suit| count_suit(hole, s) >= 2 && count_suit(board, s) >= 3
    } else {
        exists|i: int| 0 <= i < 4 && (#[trigger] suit_grp(pool, i)).len() >= 5
    }
}

/// The pool carries a straight (including the wheel).
pub open spec fn straight_exists(gt: GameType, pool: Seq<Card>) -> bool {
    top_rank_sat(
        crate::strength::straight::straight_cond(pool, crate::strength::straight::deck_low(gt)),
        15,
    ) != 0 || crate::strength::straight::wheel_at(pool, crate::strength::straight::deck_low(gt))
}

/// The pool carries three of a kind.
pub open spec fn trips_exists(gt: GameType, pool: Seq<Card>, hole: Seq<Card>) -> bool {
    if gt == GameType::Omaha {
        exists|v: int| 2 <= v <= 14 && count_rank(pool, v) == 3 && count_rank(hole, v) <= 2
    } else {
        exists|v: int| 2 <= v <= 14 && count_rank(pool, v) == 3
    }
}

/// The pool carries two pairs.
pub open spec fn two_pairs_exists(gt: GameType, pool: Seq<Card>, hole: Seq<Card>) -> bool {
    let v1 = top_rank_sat(count_eq_cond(pool, 2), 15);
    if gt == GameType::Omaha {
        v1 != 0 && top_rank_sat(
            crate::strength::two_pairs::omaha_second_pair_cond(pool, hole, v1),
            v1,
        ) != 0
    } else {
        v1 != 0 && top_rank_sat(count_eq_cond(pool, 2), v1) != 0
    }
}

/// The pool carries a pair.
pub open spec fn pair_exists(pool: Seq<Card>) -> bool {
    exists|v: int| 2 <= v <= 14 && count_rank(pool, v) == 2
}

/// The single best category of the pool, by the variant's precedence order:
/// short-deck play puts the flush above the full house and lets the
/// trips-beat-straight flag swap the straight and three-of-a-kind slots.
pub open spec fn classify(
    gt: GameType,
    trips_beat_straight: bool,
    pool: Seq<Card>,
    hole: Seq<Card>,
    board: Seq<Card>,
) -> HandCombination {
    if sf_exists(gt, pool, hole) {
        if royal_exists(gt, pool, hole) {
            HandCombination::RoyalFlush
        } else {
            HandCombination::StraightFlush
        }
    } else if quads_exists(gt, pool, hole) {
        HandCombination::Quads
    } else if gt != GameType::ShortdeckHoldem && full_house_exists(gt, pool, hole) {
        HandCombination::FullHouse
    } else if flush_exists(gt, pool, hole, board) {
        HandCombination::Flush
    } else if gt == GameType::ShortdeckHoldem && full_house_exists(gt, pool, hole) {
        HandCombination::FullHouse
    } else if gt == GameType::ShortdeckHoldem && trips_beat_straight && trips_exists(
        gt,
        pool,
        hole,
    ) {
        HandCombination::TreeOfAKind
    } else if straight_exists(gt, pool) {
        HandCombination::Straight
    } else if trips_exists(gt, pool, hole) {
        HandCombination::TreeOfAKind
    } else if two_pairs_exists(gt, pool, hole) {
        HandCombination::TwoPairs
    } else if pair_exists(pool) {
        HandCombination::OnePair
    } else {
        HandCombination::HighCards
    }
}

/// The category base value under the variant's precedence table.
pub open spec fn base_value(gt: GameType, trips_beat_straight: bool, c: HandCombination) -> int {
    match c {
        HandCombination::RoyalFlush => 10,
        HandCombination::StraightFlush => 9,
        HandCombination::Quads => 8,
        HandCombination::FullHouse => if gt == GameType::ShortdeckHoldem {
            6
        } else {
            7
        },
        HandCombination::Flush => if gt == GameType::ShortdeckHoldem {
            7
        } else {
            6
        },
        HandCombination::Straight => if gt == GameType::ShortdeckHoldem
            && trips_beat_straight {
            4
        } else {
            5
        },
        HandCombination::TreeOfAKind => if gt == GameType::ShortdeckHoldem
            && trips_beat_straight {
            5
        } else {
            4
        },
        HandCombination::TwoPairs => 3,
        HandCombination::OnePair => 2,
        HandCombination::HighCards => 1,
    }
}

/// A well-formed classified strength: the score sits inside the band that its
/// category base value commands, so categories dominate kickers.
pub open spec fn strength_wf(s: HandStrength, gt: GameType, trips_beat_straight: bool) -> bool {
    &&& base_value(gt, trips_beat_straight, s.hand_combination) * pow14(5) + 2 * pow14(4)
        + min_tail(4) <= s.points
    &&& s.points <= base_value(gt, trips_beat_straight, s.hand_combination) * pow14(5) + max_tail(
        5,
    )
}

/// Valid classifier inputs: a full board, a variant-sized hand, distinct deck
/// cards throughout.
pub open spec fn hand_inputs_ok(gt: GameType, hole: Seq<Card>, board: Seq<Card>) -> bool {
    &&& board.len() == 5
    &&& (if gt == GameType::Omaha {
        hole.len() == 4
    } else {
        hole.len() == 2
    })
    &&& distinct_cards(board + hole)
    &&& forall|i: int| 0 <= i < board.len() ==> crate::card::deck_card(#[trigger] board[i])
    &&& forall|i: int| 0 <= i < hole.len() ==> crate::card::deck_card(#[trigger] hole[i])
}


/// A suit group that carries a straight flush holds at least five cards.
pub proof fn lemma_group_sf_len(grp: Seq<Card>, s: Suit, hole: Seq<Card>, omaha: bool, low: int)
    requires
        crate::strength::straight_flush::group_has_sf(grp, s, hole, omaha, low),
        2 <= low <= 6,
    ensures
        grp.len() >= 5,
{
    let cond = crate::strength::straight_flush::sf_cond(grp, s, hole, omaha, low);
    let top = top_rank_sat(cond, 15);
    let v1: int;
    let v2: int;
    let v3: int;
    let v4: int;
    let v5: int;
    if top != 0 {
        lemma_top_rank_sat(cond, 15);
        assert(cond(top));
        v1 = top;
        v2 = top - 1;
        v3 = top - 2;
        v4 = top - 3;
        v5 = top - 4;
    } else {
        v1 = 14;
        v2 = low;
        v3 = low + 1;
        v4 = low + 2;
        v5 = low + 3;
    }
    assert(has_rank(grp, v1) && has_rank(grp, v2) && has_rank(grp, v3) && has_rank(grp, v4)
        && has_rank(grp, v5));
    assert(v1 != v2 && v1 != v3 && v1 != v4 && v1 != v5 && v2 != v3 && v2 != v4 && v2 != v5 && v3
        != v4 && v3 != v5 && v4 != v5);
    let i1 = choose|i: int| 0 <= i < grp.len() && grp[i].rank.spec_value() == v1;
    let i2 = choose|i: int| 0 <= i < grp.len() && grp[i].rank.spec_value() == v2;
    let i3 = choose|i: int| 0 <= i < grp.len() && grp[i].rank.spec_value() == v3;
    let i4 = choose|i: int| 0 <= i < grp.len() && grp[i].rank.spec_value() == v4;
    let i5 = choose|i: int| 0 <= i < grp.len() && grp[i].rank.spec_value() == v5;
    assert(i1 != i2 && i1 != i3 && i1 != i4 && i1 != i5 && i2 != i3 && i2 != i4 && i2 != i5 && i3
        != i4 && i3 != i5 && i4 != i5);
    assert(grp.len() >= 5);
}

/// At most one suit group of a pool of at most nine cards carries a straight
/// flush.
pub proof fn lemma_sf_group_unique(pool: Seq<Card>, hole: Seq<Card>, omaha: bool, low: int)
    requires
        pool.len() <= 9,
        2 <= low <= 6,
    ensures
        forall|i: int, j: int|
            0 <= i < j < 4 ==> !(crate::strength::straight_flush::group_has_sf(
                #[trigger] suit_grp(pool, i),
                crate::card::suit_of_index(i),
                hole,
                omaha,
                low,
            ) && crate::strength::straight_flush::group_has_sf(
                #[trigger] suit_grp(pool, j),
                crate::card::suit_of_index(j),
                hole,
                omaha,
                low,
            )),
{
    assert forall|i: int, j: int|
        0 <= i < j < 4 implies !(crate::strength::straight_flush::group_has_sf(
        #[trigger] suit_grp(pool, i),
        crate::card::suit_of_index(i),
        hole,
        omaha,
        low,
    ) && crate::strength::straight_flush::group_has_sf(
        #[trigger] suit_grp(pool, j),
        crate::card::suit_of_index(j),
        hole,
        omaha,
        low,
    )) by {
        if crate::strength::straight_flush::group_has_sf(
            suit_grp(pool, i),
            crate::card::suit_of_index(i),
            hole,
            omaha,
            low,
        ) && crate::strength::straight_flush::group_has_sf(
            suit_grp(pool, j),
            crate::card::suit_of_index(j),
            hole,
            omaha,
            low,
        ) {
            lemma_group_sf_len(suit_grp(pool, i), crate::card::suit_of_index(i), hole, omaha, low);
            lemma_group_sf_len(suit_grp(pool, j), crate::card::suit_of_index(j), hole, omaha, low);
            lemma_suit_partition(pool);
            assert(suit_grp(pool, 0) == cards_of_suit(pool, Suit::Hearts));
            assert(suit_grp(pool, 1) == cards_of_suit(pool, Suit::Clubs));
            assert(suit_grp(pool, 2) == cards_of_suit(pool, Suit::Diamonds));
            assert(suit_grp(pool, 3) == cards_of_suit(pool, Suit::Spades));
            assert(false);
        }
    }
}


/// Classification reads only what cards the pool holds, never their order.
pub proof fn lemma_classify_permutation(
    gt: GameType,
    trips_beat_straight: bool,
    p1: Seq<Card>,
    p2: Seq<Card>,
    hole: Seq<Card>,
    board: Seq<Card>,
)
    requires
        p1.to_multiset() == p2.to_multiset(),
    ensures
        classify(gt, trips_beat_straight, p1, hole, board) == classify(
            gt,
            trips_beat_straight,
            p2,
            hole,
            board,
        ),
        sf_exists(gt, p1, hole) == sf_exists(gt, p2, hole),
        royal_exists(gt, p1, hole) == royal_exists(gt, p2, hole),
{
    broadcast use vstd::multiset::group_multiset_axioms;

    let low = crate::strength::straight::deck_low(gt);
    let omaha = gt == GameType::Omaha;
    // rank counts agree
    assert forall|v: int| #[trigger] count_rank(p1, v) == count_rank(p2, v) by {
        lemma_filter_len_permutation(p1, p2, |c: Card| c.rank.spec_value() == v);
    }
    // presence agrees
    assert forall|v: int| #[trigger] has_rank(p1, v) == has_rank(p2, v) by {
        lemma_has_rank_count(p1, v);
        lemma_has_rank_count(p2, v);
    }
    // suit groups agree card for card
    assert forall|i: int| 0 <= i < 4 implies (#[trigger] suit_grp(p1, i)).to_multiset()
        == suit_grp(p2, i).to_multiset() by {
        let sp = |c: Card| c.suit == crate::card::suit_of_index(i);
        lemma_to_multiset_filter(p1, sp);
        lemma_to_multiset_filter(p2, sp);
        assert(p1.to_multiset().filter(sp) =~= p2.to_multiset().filter(sp));
    }
    assert forall|i: int, v: int|
        0 <= i < 4 implies #[trigger] count_rank(suit_grp(p1, i), v) == count_rank(
        suit_grp(p2, i),
        v,
    ) by {
        lemma_filter_len_permutation(
            suit_grp(p1, i),
            suit_grp(p2, i),
            |c: Card| c.rank.spec_value() == v,
        );
    }
    assert forall|i: int, v: int|
        0 <= i < 4 implies #[trigger] has_rank(suit_grp(p1, i), v) == has_rank(
        suit_grp(p2, i),
        v,
    ) by {
        lemma_filter_len_permutation(
            suit_grp(p1, i),
            suit_grp(p2, i),
            |c: Card| c.rank.spec_value() == v,
        );
        lemma_has_rank_count(suit_grp(p1, i), v);
        lemma_has_rank_count(suit_grp(p2, i), v);
    }
    // straight-flush conditions agree per suit
    assert forall|i: int| 0 <= i < 4 implies crate::strength::straight_flush::group_has_sf(
        #[trigger] suit_grp(p1, i),
        crate::card::suit_of_index(i),
        hole,
        omaha,
        low,
    ) == crate::strength::straight_flush::group_has_sf(
        suit_grp(p2, i),
        crate::card::suit_of_index(i),
        hole,
        omaha,
        low,
    ) && top_rank_sat(
        crate::strength::straight_flush::sf_cond(
            suit_grp(p1, i),
            crate::card::suit_of_index(i),
            hole,
            omaha,
            low,
        ),
        15,
    ) == top_rank_sat(
        crate::strength::straight_flush::sf_cond(
            suit_grp(p2, i),
            crate::card::suit_of_index(i),
            hole,
            omaha,
            low,
        ),
        15,
    ) by {
        let s = crate::card::suit_of_index(i);
        let c1 = crate::strength::straight_flush::sf_cond(suit_grp(p1, i), s, hole, omaha, low);
        let c2 = crate::strength::straight_flush::sf_cond(suit_grp(p2, i), s, hole, omaha, low);
        assert forall|hi: int| #[trigger] c1(hi) == #[trigger] c2(hi) by {}
        lemma_top_rank_sat_equiv(c1, c2, 15);
    }
    assert(sf_exists(gt, p1, hole) == sf_exists(gt, p2, hole)) by {
        if sf_exists(gt, p1, hole) {
            let i = choose|i: int|
                0 <= i < 4 && crate::strength::straight_flush::group_has_sf(
                    #[trigger] suit_grp(p1, i),
                    crate::card::suit_of_index(i),
                    hole,
                    omaha,
                    low,
                );
            assert(crate::strength::straight_flush::group_has_sf(
                suit_grp(p2, i),
                crate::card::suit_of_index(i),
                hole,
                omaha,
                low,
            ));
        }
        if sf_exists(gt, p2, hole) {
            let i = choose|i: int|
                0 <= i < 4 && crate::strength::straight_flush::group_has_sf(
                    #[trigger] suit_grp(p2, i),
                    crate::card::suit_of_index(i),
                    hole,
                    omaha,
                    low,
                );
            assert(crate::strength::straight_flush::group_has_sf(
                suit_grp(p1, i),
                crate::card::suit_of_index(i),
                hole,
                omaha,
                low,
            ));
        }
    }
    assert(royal_exists(gt, p1, hole) == royal_exists(gt, p2, hole)) by {
        if royal_exists(gt, p1, hole) {
            let i = choose|i: int|
                0 <= i < 4 && top_rank_sat(
                    crate::strength::straight_flush::sf_cond(
                        #[trigger] suit_grp(p1, i),
                        crate::card::suit_of_index(i),
                        hole,
                        omaha,
                        low,
                    ),
                    15,
                ) == 14;
            assert(top_rank_sat(
                crate::strength::straight_flush::sf_cond(
                    suit_grp(p2, i),
                    crate::card::suit_of_index(i),
                    hole,
                    omaha,
                    low,
                ),
                15,
            ) == 14);
        }
        if royal_exists(gt, p2, hole) {
            let i = choose|i: int|
                0 <= i < 4 && top_rank_sat(
                    crate::strength::straight_flush::sf_cond(
                        #[trigger] suit_grp(p2, i),
                        crate::card::suit_of_index(i),
                        hole,
                        omaha,
                        low,
                    ),
                    15,
                ) == 14;
            assert(top_rank_sat(
                crate::strength::straight_flush::sf_cond(
                    suit_grp(p1, i),
                    crate::card::suit_of_index(i),
                    hole,
                    omaha,
                    low,
                ),
                15,
            ) == 14);
        }
    }
    // quads, trips, pair agree via counts; the searched conditions need
    // pointwise equivalence
    assert forall|k: nat| #[trigger] top_rank_sat(count_eq_cond(p1, k), 15) == top_rank_sat(
        count_eq_cond(p2, k),
        15,
    ) by {
        assert forall|v: int| #[trigger] count_eq_cond(p1, k)(v) == #[trigger] count_eq_cond(
            p2,
            k,
        )(v) by {}
        lemma_top_rank_sat_equiv(count_eq_cond(p1, k), count_eq_cond(p2, k), 15);
    }
    let tp1 = top_rank_sat(count_eq_cond(p1, 2), 15);
    assert forall|b: int| #[trigger] top_rank_sat(count_eq_cond(p1, 2), b) == top_rank_sat(
        count_eq_cond(p2, 2),
        b,
    ) by {
        assert forall|v: int| #[trigger] count_eq_cond(p1, 2)(v) == #[trigger] count_eq_cond(
            p2,
            2,
        )(v) by {}
        lemma_top_rank_sat_equiv(count_eq_cond(p1, 2), count_eq_cond(p2, 2), b);
    }
    assert forall|b: int| #[trigger] top_rank_sat(count_eq_cond(p1, 3), b) == top_rank_sat(
        count_eq_cond(p2, 3),
        b,
    ) by {
        assert forall|v: int| #[trigger] count_eq_cond(p1, 3)(v) == #[trigger] count_eq_cond(
            p2,
            3,
        )(v) by {}
        lemma_top_rank_sat_equiv(count_eq_cond(p1, 3), count_eq_cond(p2, 3), b);
    }
    // full house
    if omaha {
        let f1 = crate::strength::full_house::omaha_fh_cond(p1, hole);
        let f2 = crate::strength::full_house::omaha_fh_cond(p2, hole);
        assert forall|v: int| #[trigger] f1(v) == #[trigger] f2(v) by {
            let q1 = crate::strength::full_house::omaha_fh_pair_cond(p1, hole, v);
            let q2 = crate::strength::full_house::omaha_fh_pair_cond(p2, hole, v);
            assert forall|w: int| #[trigger] q1(w) == #[trigger] q2(w) by {}
            lemma_top_rank_sat_equiv(q1, q2, 15);
        }
        lemma_top_rank_sat_equiv(f1, f2, 15);
    }
    assert(full_house_exists(gt, p1, hole) == full_house_exists(gt, p2, hole));
    // flush
    if !omaha {
        assert forall|i: int| 0 <= i < 4 implies (#[trigger] suit_grp(p1, i)).len() == suit_grp(
            p2,
            i,
        ).len() by {
            lemma_filter_len_permutation(
                p1,
                p2,
                |c: Card| c.suit == crate::card::suit_of_index(i),
            );
        }
    }
    assert(flush_exists(gt, p1, hole, board) == flush_exists(gt, p2, hole, board)) by {
        if !omaha {
            if flush_exists(gt, p1, hole, board) {
                let i = choose|i: int| 0 <= i < 4 && (#[trigger] suit_grp(p1, i)).len() >= 5;
                assert(suit_grp(p2, i).len() >= 5);
            }
            if flush_exists(gt, p2, hole, board) {
                let i = choose|i: int| 0 <= i < 4 && (#[trigger] suit_grp(p2, i)).len() >= 5;
                assert(suit_grp(p1, i).len() >= 5);
            }
        }
    }
    // straight
    {
        let s1 = crate::strength::straight::straight_cond(p1, low);
        let s2 = crate::strength::straight::straight_cond(p2, low);
        assert forall|hi: int| #[trigger] s1(hi) == #[trigger] s2(hi) by {}
        lemma_top_rank_sat_equiv(s1, s2, 15);
    }
    assert(straight_exists(gt, p1) == straight_exists(gt, p2)) by {
        assert(has_rank(p1, 14) == has_rank(p2, 14));
        assert(has_rank(p1, low) == has_rank(p2, low));
        assert(has_rank(p1, low + 1) == has_rank(p2, low + 1));
        assert(has_rank(p1, low + 2) == has_rank(p2, low + 2));
        assert(has_rank(p1, low + 3) == has_rank(p2, low + 3));
        assert(crate::strength::straight::wheel_at(p1, low) == crate::strength::straight::wheel_at(
            p2,
            low,
        ));
    }
    // two pairs
    if omaha {
        let w1 = crate::strength::two_pairs::omaha_second_pair_cond(p1, hole, tp1);
        let w2 = crate::strength::two_pairs::omaha_second_pair_cond(p2, hole, tp1);
        assert forall|w: int| #[trigger] w1(w) == #[trigger] w2(w) by {}
        lemma_top_rank_sat_equiv(w1, w2, tp1);
    }
    assert(two_pairs_exists(gt, p1, hole) == two_pairs_exists(gt, p2, hole));
    assert(trips_exists(gt, p1, hole) == trips_exists(gt, p2, hole)) by {
        if trips_exists(gt, p1, hole) {
            let v = choose|v: int|
                2 <= v <= 14 && #[trigger] count_rank(p1, v) == 3 && (omaha ==> count_rank(
                    hole,
                    v,
                ) <= 2);
            assert(count_rank(p2, v) == 3);
        }
        if trips_exists(gt, p2, hole) {
            let v = choose|v: int|
                2 <= v <= 14 && #[trigger] count_rank(p2, v) == 3 && (omaha ==> count_rank(
                    hole,
                    v,
                ) <= 2);
            assert(count_rank(p1, v) == 3);
        }
    }
    assert(quads_exists(gt, p1, hole) == quads_exists(gt, p2, hole)) by {
        if quads_exists(gt, p1, hole) {
            let v = choose|v: int|
                2 <= v <= 14 && #[trigger] count_rank(p1, v) == 4 && (omaha ==> 1 <= count_rank(
                    hole,
                    v,
                ) <= 2);
            assert(count_rank(p2, v) == 4);
        }
        if quads_exists(gt, p2, hole) {
            let v = choose|v: int|
                2 <= v <= 14 && #[trigger] count_rank(p2, v) == 4 && (omaha ==> 1 <= count_rank(
                    hole,
                    v,
                ) <= 2);
            assert(count_rank(p1, v) == 4);
        }
    }
    assert(pair_exists(p1) == pair_exists(p2)) by {
        if pair_exists(p1) {
            let v = choose|v: int| 2 <= v <= 14 && #[trigger] count_rank(p1, v) == 2;
            assert(count_rank(p2, v) == 2);
        }
        if pair_exists(p2) {
            let v = choose|v: int| 2 <= v <= 14 && #[trigger] count_rank(p2, v) == 2;
            assert(count_rank(p1, v) == 2);
        }
    }
}


/// An identity marker to anchor quantifier instantiation on plain integers.
pub open spec fn spec_id(v: int) -> int {
    v
}

/// A straight-flush hand, lowest card first: five consecutive rank values, or
/// the wheel with its Ace last.
pub open spec fn sf_shape(hand: Seq<Card>, low: int) -> bool {
    ||| exists|hi: int|
        low + 4 <= #[trigger] spec_id(hi) <= 14 && (forall|d: int|
            0 <= d < 5 ==> (#[trigger] hand[d]).rank.spec_value() == hi - 4 + d)
    ||| ((forall|d: int| 0 <= d < 4 ==> (#[trigger] hand[d]).rank.spec_value() == low + d) && hand[
        4].rank.spec_value() == 14)
}

/// What the straight-flush detector's output means for classification: the
/// straight-flush tier applies, the hand is five cards whose values run
/// consecutively (or form the wheel with the Ace last), and it starts at ten
/// exactly when the pool carries an Ace-high straight flush.
proof fn lemma_sf_hand_shape(
    game_type: GameType,
    suit_map: &SuitGroups,
    gpool: Seq<Card>,
    hole: Seq<Card>,
    hand: Seq<Card>,
)
    requires
        suit_groups_wf(suit_map, gpool),
        gpool.len() <= 9,
        exists|i: int|
            0 <= i < 4 && crate::strength::straight_flush::group_has_sf(
                (#[trigger] suit_map.groups@[i])@,
                crate::card::suit_of_index(i),
                hole,
                game_type == GameType::Omaha,
                crate::strength::straight::deck_low(game_type),
            ) && hand == crate::strength::straight_flush::sf_hand_for(
                suit_map.groups@[i]@,
                crate::card::suit_of_index(i),
                hole,
                game_type == GameType::Omaha,
                crate::strength::straight::deck_low(game_type),
            ),
    ensures
        hand.len() == 5,
        sf_exists(game_type, gpool, hole),
        (hand[0].rank.spec_value() == 10) <==> royal_exists(game_type, gpool, hole),
        sf_shape(hand, crate::strength::straight::deck_low(game_type)),
{
    let omaha = game_type == GameType::Omaha;
    let lowi = crate::strength::straight::deck_low(game_type);
    assert forall|i: int| 0 <= i < 4 implies (#[trigger] suit_map.groups@[i])@ == suit_grp(
        gpool,
        i,
    ) by {}
    let wi = choose|i: int|
        0 <= i < 4 && crate::strength::straight_flush::group_has_sf(
            (#[trigger] suit_map.groups@[i])@,
            crate::card::suit_of_index(i),
            hole,
            omaha,
            lowi,
        ) && hand == crate::strength::straight_flush::sf_hand_for(
            suit_map.groups@[i]@,
            crate::card::suit_of_index(i),
            hole,
            omaha,
            lowi,
        );
    assert(sf_exists(game_type, gpool, hole)) by {
        assert(crate::strength::straight_flush::group_has_sf(
            suit_grp(gpool, wi),
            crate::card::suit_of_index(wi),
            hole,
            omaha,
            lowi,
        ));
    }
    lemma_sf_group_unique(gpool, hole, omaha, lowi);
    crate::card::lemma_rank_of_value_inverse();
    let ws = crate::card::suit_of_index(wi);
    let wgrp = suit_grp(gpool, wi);
    let wcnd = crate::strength::straight_flush::sf_cond(wgrp, ws, hole, omaha, lowi);
    let whi = top_rank_sat(wcnd, 15);
    lemma_top_rank_sat(wcnd, 15);
    if whi != 0 {
        assert(wcnd(whi));
        assert forall|d: int| 0 <= d < 5 implies (#[trigger] hand[d]).rank.spec_value() == whi - 4
            + d by {
            assert(hand[d] == crate::strength::straight_flush::sf_card(ws, whi - 4 + d));
        }
        assert(sf_shape(hand, lowi)) by {
            assert(lowi + 4 <= spec_id(whi) <= 14 && (forall|d: int|
                0 <= d < 5 ==> (#[trigger] hand[d]).rank.spec_value() == whi - 4 + d));
        }
    } else {
        assert forall|d: int| 0 <= d < 4 implies (#[trigger] hand[d]).rank.spec_value() == lowi
            + d by {
            assert(hand[d] == crate::strength::straight_flush::sf_card(ws, lowi + d));
        }
        assert(hand[4] == crate::strength::straight_flush::sf_card(ws, 14));
        assert(hand[4].rank.spec_value() == 14);
    }
    // royal exactly when the winning window tops out at the Ace
    if hand[0].rank.spec_value() == 10 {
        assert(whi != 0);
        assert(whi == 14);
        assert(royal_exists(game_type, gpool, hole)) by {
            assert(top_rank_sat(
                crate::strength::straight_flush::sf_cond(
                    suit_grp(gpool, wi),
                    crate::card::suit_of_index(wi),
                    hole,
                    omaha,
                    lowi,
                ),
                15,
            ) == 14);
        }
    } else {
        if royal_exists(game_type, gpool, hole) {
            let j = choose|j: int|
                0 <= j < 4 && top_rank_sat(
                    crate::strength::straight_flush::sf_cond(
                        #[trigger] suit_grp(gpool, j),
                        crate::card::suit_of_index(j),
                        hole,
                        omaha,
                        lowi,
                    ),
                    15,
                ) == 14;
            assert(crate::strength::straight_flush::group_has_sf(
                suit_grp(gpool, j),
                crate::card::suit_of_index(j),
                hole,
                omaha,
                lowi,
            ));
            assert(j == wi);
            assert(whi == 14);
            assert(hand[0].rank.spec_value() == 10);
            assert(false);
        }
    }
}

/// Handles the straight-flush tier of the classifier: returns the scored
/// royal or straight flush exactly when some suit group carries one.
#[verifier::rlimit(100)]
fn classify_straight_flush(
    game_type: GameType,
    suit_map: &SuitGroups,
    player_cards: &Vec<Card>,
    Ghost(gpool): Ghost<Seq<Card>>,
    trips_beat_straight: bool,
) -> (r: Option<HandStrength>)
    requires
        suit_groups_ok(suit_map),
        suit_groups_wf(suit_map, gpool),
        gpool.len() <= 9,
    ensures
        (r is Some) <==> sf_exists(game_type, gpool, player_cards@),
        r is Some ==> r->0.hand_combination == (if royal_exists(game_type, gpool, player_cards@) {
            HandCombination::RoyalFlush
        } else {
            HandCombination::StraightFlush
        }),
        r is Some ==> strength_wf(r->0, game_type, trips_beat_straight),
{
    let ghost omaha = game_type == GameType::Omaha;
    let ghost lowi = crate::strength::straight::deck_low(game_type);
    match crate::strength::straight_flush::get_straight_flush(game_type, &suit_map, player_cards) {
        Some(hand) => {
            proof {
                lemma_sf_hand_shape(game_type, suit_map, gpool, player_cards@, hand@);
            }
            let is_royal = hand[0].rank.value() == 10;
            let is_wheel = hand[4].rank.value() != hand[3].rank.value() + 1;
            let mut sh: Vec<Card> = Vec::new();
            if is_wheel {
                sh.push(hand[3]);
                sh.push(hand[2]);
                sh.push(hand[1]);
                sh.push(hand[0]);
                sh.push(Card { suit: hand[4].suit, rank: Rank::LowAce });
            } else {
                sh.push(hand[4]);
                sh.push(hand[3]);
                sh.push(hand[2]);
                sh.push(hand[1]);
                sh.push(hand[0]);
            }
            proof {
                assert(hand_digits_ok(sh@));
            }
            let base: u64 = if is_royal {
                10
            } else {
                9
            };
            let points = calc_points(base, &sh);
            proof {
                lemma_points_lead_digit(base as int, sh@);
            }
            if is_royal {
                return Some(HandStrength { hand_combination: HandCombination::RoyalFlush, points });
            }
            return Some(
                HandStrength { hand_combination: HandCombination::StraightFlush, points },
            );
        },
        None => {
            proof {
                assert(!sf_exists(game_type, gpool, player_cards@)) by {
                    if sf_exists(game_type, gpool, player_cards@) {
                        let i = choose|i: int|
                            0 <= i < 4 && crate::strength::straight_flush::group_has_sf(
                                #[trigger] suit_grp(gpool, i),
                                crate::card::suit_of_index(i),
                                player_cards@,
                                omaha,
                                lowi,
                            );
                        assert((suit_map.groups@[i])@ == suit_grp(gpool, i));
                        assert(crate::strength::straight_flush::group_has_sf(
                            (suit_map.groups@[i])@,
                            crate::card::suit_of_index(i),
                            player_cards@,
                            omaha,
                            lowi,
                        ));
                    }
                }
            }
            None
        },
    }
}

/// Classifies the union of the board and one player's hole cards: detects the
/// best category under the variant's precedence order and reduces the winning
/// five cards to a single comparable score.
#[verifier::rlimit(100)]
pub fn get_hand_strength(
    game_type: GameType,
    board: &Vec<Card>,
    player_cards: &Vec<Card>,
    trips_beat_straight: bool,
) -> (r: HandStrength)
    requires
        hand_inputs_ok(game_type, player_cards@, board@),
    ensures
        r.hand_combination == classify(
            game_type,
            trips_beat_straight,
            board@ + player_cards@,
            player_cards@,
            board@,
        ),
        strength_wf(r, game_type, trips_beat_straight),
{
    broadcast use vstd::seq_lib::lemma_multiset_commutative;

    let ghost pool0 = board@ + player_cards@;
    let mut cards = copy_cards(board);
    let mut ph = copy_cards(player_cards);
    cards.append(&mut ph);
    proof {
        assert(cards@ == pool0);
    }
    sort_by_rank_desc(&mut cards);
    let ghost gpool = cards@;
    proof {
        assert(pool0.to_multiset() == board@.to_multiset().add(player_cards@.to_multiset()));
        lemma_classify_permutation(
            game_type,
            trips_beat_straight,
            gpool,
            pool0,
            player_cards@,
            board@,
        );
        lemma_distinct_permutation(pool0, gpool);
        assert forall|k: int| 0 <= k < gpool.len() implies crate::card::deck_card(
            #[trigger] gpool[k],
        ) by {
            assert(gpool.contains(gpool[k]));
            assert(pool0.contains(gpool[k]));
            let w = choose|w: int| 0 <= w < pool0.len() && pool0[w] == gpool[k];
            if w < board@.len() {
                assert(board@[w] == gpool[k]);
            } else {
                assert(player_cards@[w - board@.len()] == gpool[k]);
            }
        }
        assert(distinct_cards(player_cards@)) by {
            assert forall|a: int, b: int|
                0 <= a < b < player_cards@.len() implies player_cards@[a] != player_cards@[b] by {
                assert(pool0[board@.len() + a] == player_cards@[a]);
                assert(pool0[board@.len() + b] == player_cards@[b]);
            }
        }
        assert(distinct_cards(board@)) by {
            assert forall|a: int, b: int|
                0 <= a < b < board@.len() implies board@[a] != board@[b] by {
                assert(pool0[a] == board@[a]);
                assert(pool0[b] == board@[b]);
            }
        }
        assert(disjoint_cards(player_cards@, board@)) by {
            assert forall|c: Card| player_cards@.contains(c) implies !board@.contains(c) by {
                if board@.contains(c) {
                    let a = choose|a: int| 0 <= a < board@.len() && board@[a] == c;
                    let b = choose|b: int|
                        0 <= b < player_cards@.len() && player_cards@[b] == c;
                    assert(pool0[a] == c && pool0[board@.len() + b] == c);
                }
            }
        }
    }
    let suit_map = group_by_suit(&cards);
    let rank_map = group_by_rank(&cards);
    proof {
        lemma_suit_groups_ok(&suit_map, gpool);
        assert forall|i: int| 0 <= i < 4 implies (#[trigger] suit_map.groups@[i])@ == suit_grp(
            gpool,
            i,
        ) by {}
    }
    let is_omaha = match game_type {
        GameType::Omaha => true,
        _ => false,
    };
    let is_shortdeck = match game_type {
        GameType::ShortdeckHoldem => true,
        _ => false,
    };
    let ghost omaha = game_type == GameType::Omaha;
    let ghost lowi = crate::strength::straight::deck_low(game_type);
    // straight flush and royal flush
    match classify_straight_flush(
        game_type,
        &suit_map,
        player_cards,
        Ghost(gpool),
        trips_beat_straight,
    ) {
        Some(st) => {
            return st;
        },
        None => {},
    }
    // four of a kind
    match crate::strength::quads::get_quads(game_type, &cards, &rank_map, player_cards, board) {
        Some(hand) => {
            let points = calc_points(8, &hand);
            proof {
                lemma_points_lead_digit(8, hand@);
            }
            return HandStrength { hand_combination: HandCombination::Quads, points };
        },
        None => {},
    }
    if !is_shortdeck {
        match crate::strength::full_house::get_full_house(
            game_type,
            &rank_map,
            &cards,
            player_cards,
            board,
        ) {
            Some(hand) => {
                let points = calc_points(7, &hand);
                proof {
                    lemma_points_lead_digit(7, hand@);
                }
                return HandStrength { hand_combination: HandCombination::FullHouse, points };
            },
            None => {},
        }
        match crate::strength::flush::get_flush(game_type, &suit_map, player_cards, board) {
            Some(hand) => {
                let points = calc_points(6, &hand);
                proof {
                    assert(flush_exists(game_type, gpool, player_cards@, board@)) by {
                        if !omaha {
                            let i = choose|i: int|
                                0 <= i < 4 && (#[trigger] suit_map.groups@[i])@.len() >= 5;
                            assert(suit_grp(gpool, i).len() >= 5);
                        }
                    }
                    flush_members(hand@, gpool, &suit_map, player_cards@, board@, omaha);
                    deck_digits(hand@, gpool);
                    lemma_points_lead_digit(6, hand@);
                }
                return HandStrength { hand_combination: HandCombination::Flush, points };
            },
            None => {
                proof {
                    assert(!flush_exists(game_type, gpool, player_cards@, board@)) by {
                        if !omaha && flush_exists(game_type, gpool, player_cards@, board@) {
                            let i = choose|i: int|
                                0 <= i < 4 && (#[trigger] suit_grp(gpool, i)).len() >= 5;
                            assert(suit_map.groups@[i]@.len() >= 5);
                        }
                    }
                }
            },
        }
        match crate::strength::straight::get_straight(game_type, &cards) {
            Some(hand) => {
                let points = calc_points(5, &hand);
                proof {
                    lemma_points_lead_digit(5, hand@);
                }
                return HandStrength { hand_combination: HandCombination::Straight, points };
            },
            None => {},
        }
        match crate::strength::three_of_a_kind::get_three_of_a_kind(
            game_type,
            &cards,
            &rank_map,
            player_cards,
            board,
        ) {
            Some(hand) => {
                let points = calc_points(4, &hand);
                proof {
                    lemma_points_lead_digit(4, hand@);
                }
                return HandStrength { hand_combination: HandCombination::TreeOfAKind, points };
            },
            None => {},
        }
    } else {
        match crate::strength::flush::get_flush(game_type, &suit_map, player_cards, board) {
            Some(hand) => {
                let points = calc_points(7, &hand);
                proof {
                    assert(flush_exists(game_type, gpool, player_cards@, board@)) by {
                        let i = choose|i: int|
                            0 <= i < 4 && (#[trigger] suit_map.groups@[i])@.len() >= 5;
                        assert(suit_grp(gpool, i).len() >= 5);
                    }
                    flush_members(hand@, gpool, &suit_map, player_cards@, board@, omaha);
                    deck_digits(hand@, gpool);
                    lemma_points_lead_digit(7, hand@);
                }
                return HandStrength { hand_combination: HandCombination::Flush, points };
            },
            None => {
                proof {
                    assert(!flush_exists(game_type, gpool, player_cards@, board@)) by {
                        if flush_exists(game_type, gpool, player_cards@, board@) {
                            let i = choose|i: int|
                                0 <= i < 4 && (#[trigger] suit_grp(gpool, i)).len() >= 5;
                            assert(suit_map.groups@[i]@.len() >= 5);
                        }
                    }
                }
            },
        }
        match crate::strength::full_house::get_full_house(
            game_type,
            &rank_map,
            &cards,
            player_cards,
            board,
        ) {
            Some(hand) => {
                let points = calc_points(6, &hand);
                proof {
                    lemma_points_lead_digit(6, hand@);
                }
                return HandStrength { hand_combination: HandCombination::FullHouse, points };
            },
            None => {},
        }
        if trips_beat_straight {
            match crate::strength::three_of_a_kind::get_three_of_a_kind(
                game_type,
                &cards,
                &rank_map,
                player_cards,
                board,
            ) {
                Some(hand) => {
                    let points = calc_points(5, &hand);
                    proof {
                        lemma_points_lead_digit(5, hand@);
                    }
                    return HandStrength {
                        hand_combination: HandCombination::TreeOfAKind,
                        points,
                    };
                },
                None => {},
            }
            match crate::strength::straight::get_straight(game_type, &cards) {
                Some(hand) => {
                    let points = calc_points(4, &hand);
                    proof {
                        lemma_points_lead_digit(4, hand@);
                    }
                    return HandStrength { hand_combination: HandCombination::Straight, points };
                },
                None => {},
            }
        } else {
            match crate::strength::straight::get_straight(game_type, &cards) {
                Some(hand) => {
                    let points = calc_points(5, &hand);
                    proof {
                        lemma_points_lead_digit(5, hand@);
                    }
                    return HandStrength { hand_combination: HandCombination::Straight, points };
                },
                None => {},
            }
            match crate::strength::three_of_a_kind::get_three_of_a_kind(
                game_type,
                &cards,
                &rank_map,
                player_cards,
                board,
            ) {
                Some(hand) => {
                    let points = calc_points(4, &hand);
                    proof {
                        lemma_points_lead_digit(4, hand@);
                    }
                    return HandStrength {
                        hand_combination: HandCombination::TreeOfAKind,
                        points,
                    };
                },
                None => {},
            }
        }
    }
    match crate::strength::two_pairs::get_two_pairs(
        game_type,
        &cards,
        &rank_map,
        player_cards,
        board,
    ) {
        Some(hand) => {
            let points = calc_points(3, &hand);
            proof {
                lemma_points_lead_digit(3, hand@);
            }
            return HandStrength { hand_combination: HandCombination::TwoPairs, points };
        },
        None => {},
    }
    match crate::strength::one_pair::get_one_pair(
        game_type,
        &cards,
        &rank_map,
        player_cards,
        board,
    ) {
        Some(hand) => {
            let points = calc_points(2, &hand);
            proof {
                lemma_points_lead_digit(2, hand@);
            }
            return HandStrength { hand_combination: HandCombination::OnePair, points };
        },
        None => {},
    }
    let hand = crate::strength::high_cards::get_high_cards(game_type, &cards, player_cards, board);
    proof {
        assert(hand_digits_ok(hand@)) by {
            if omaha {
                lemma_pool_contains(gpool, player_cards@, board@);
                assert forall|k: int|
                    0 <= k < 5 implies 1 <= (#[trigger] hand@[k]).rank.spec_value() <= 14
                    && hand@[k].rank.spec_value() >= 2 by {
                    lemma_rank_value_range();
                    assert(hand@.contains(hand@[k]));
                    assert(gpool.contains(hand@[k]));
                    let w = choose|w: int| 0 <= w < gpool.len() && gpool[w] == hand@[k];
                    assert(crate::card::deck_card(gpool[w]));
                }
            } else {
                assert forall|k: int|
                    0 <= k < 5 implies 1 <= (#[trigger] hand@[k]).rank.spec_value() <= 14
                    && hand@[k].rank.spec_value() >= 2 by {
                    lemma_rank_value_range();
                    assert(hand@[k] == gpool[k]);
                    assert(crate::card::deck_card(gpool[k]));
                }
            }
        }
    }
    let points = calc_points(1, &hand);
    proof {
        lemma_points_lead_digit(1, hand@);
    }
    HandStrength { hand_combination: HandCombination::HighCards, points }
}

/// The five cards a flush detector returns all come from the pool.
proof fn flush_members(
    h: Seq<Card>,
    pool: Seq<Card>,
    suit_map: &SuitGroups,
    hole: Seq<Card>,
    board: Seq<Card>,
    omaha: bool,
)
    requires
        h.len() == 5,
        suit_groups_wf(suit_map, pool),
        pool.to_multiset() == board.to_multiset().add(hole.to_multiset()),
        omaha ==> omaha_five(h, hole, board),
        !omaha ==> exists|i: int|
            0 <= i < 4 && (#[trigger] suit_map.groups@[i])@.len() >= 5 && h
                == suit_map.groups@[i]@.take(5),
    ensures
        forall|k: int| 0 <= k < 5 ==> pool.contains(#[trigger] h[k]),
{
    broadcast use vstd::seq_lib::group_seq_properties;

    if omaha {
        lemma_pool_contains(pool, hole, board);
        assert forall|k: int| 0 <= k < 5 implies pool.contains(#[trigger] h[k]) by {
            assert(hole.contains(h[k]) || board.contains(h[k]));
        }
    } else {
        let i = choose|i: int|
            0 <= i < 4 && (#[trigger] suit_map.groups@[i])@.len() >= 5 && h
                == suit_map.groups@[i]@.take(5);
        let grp = suit_map.groups@[i]@;
        let p = |c: Card| c.suit == crate::card::suit_of_index(i);
        assert(grp == pool.filter(p));
        assert forall|k: int| 0 <= k < 5 implies pool.contains(#[trigger] h[k]) by {
            assert(h[k] == grp[k]);
            assert(grp.contains(grp[k])) by {
                assert(0 <= k < grp.len() && grp[k] == grp[k]);
            }
            pool.lemma_filter_contains_rev(p, grp[k]);
        }
    }
}

/// Five cards that all come from a deck-card pool have in-range digits.
proof fn deck_digits(h: Seq<Card>, pool: Seq<Card>)
    requires
        h.len() == 5,
        forall|k: int| 0 <= k < 5 ==> pool.contains(#[trigger] h[k]),
        forall|k: int| 0 <= k < pool.len() ==> crate::card::deck_card(#[trigger] pool[k]),
    ensures
        hand_digits_ok(h),
{
    lemma_rank_value_range();
    assert forall|k: int| 0 <= k < 5 implies 1 <= (#[trigger] h[k]).rank.spec_value() <= 14
        && h[k].rank.spec_value() != 1 by {
        let w = choose|w: int| 0 <= w < pool.len() && pool[w] == h[k];
        assert(crate::card::deck_card(pool[w]));
    }
}


/// Classifies every player's hand against the same board, in player order.
pub fn get_results(
    game_type: GameType,
    trips_beat_straight: bool,
    players: &Vec<crate::player::Player>,
    board: &Vec<Card>,
) -> (r: Vec<HandStrength>)
    requires
        forall|i: int|
            0 <= i < players@.len() ==> hand_inputs_ok(
                game_type,
                (#[trigger] players@[i]).hand@,
                board@,
            ),
    ensures
        r@.len() == players@.len(),
        forall|i: int|
            0 <= i < players@.len() ==> (#[trigger] r@[i]).hand_combination == classify(
                game_type,
                trips_beat_straight,
                board@ + players@[i].hand@,
                players@[i].hand@,
                board@,
            ) && strength_wf(r@[i], game_type, trips_beat_straight),
{
    let mut r: Vec<HandStrength> = Vec::new();
    let mut i: usize = 0;
    while i < players.len()
        invariant
            i <= players@.len(),
            r@.len() == i,
            forall|j: int|
                0 <= j < players@.len() ==> hand_inputs_ok(
                    game_type,
                    (#[trigger] players@[j]).hand@,
                    board@,
                ),
            forall|j: int|
                0 <= j < i ==> (#[trigger] r@[j]).hand_combination == classify(
                    game_type,
                    trips_beat_straight,
                    board@ + players@[j].hand@,
                    players@[j].hand@,
                    board@,
                ) && strength_wf(r@[j], game_type, trips_beat_straight),
        decreases players@.len() - i,
    {
        let hs = get_hand_strength(game_type, board, &players[i].hand, trips_beat_straight);
        r.push(hs);
        i += 1;
    }
    r
}


/// For any one pool of cards, the classifier names exactly one best category:
/// classification is a function of the cards alone, so two classifications of
/// the same pool can never disagree, and the high-card category, which every
/// pool satisfies, is reached exactly when nothing stronger is.
pub proof fn lemma_exactly_one_best_category(
    gt: GameType,
    trips_beat_straight: bool,
    pool: Seq<Card>,
    hole: Seq<Card>,
    board: Seq<Card>,
    c1: HandCombination,
    c2: HandCombination,
)
    requires
        c1 == classify(gt, trips_beat_straight, pool, hole, board),
        c2 == classify(gt, trips_beat_straight, pool, hole, board),
    ensures
        c1 == c2,
        !sf_exists(gt, pool, hole) && !quads_exists(gt, pool, hole) && !full_house_exists(
            gt,
            pool,
            hole,
        ) && !flush_exists(gt, pool, hole, board) && !straight_exists(gt, pool) && !trips_exists(
            gt,
            pool,
            hole,
        ) && !two_pairs_exists(gt, pool, hole) && !pair_exists(pool) ==> c1
            == HandCombination::HighCards,
{
}

/// Score monotonicity: between two well-formed strengths of different
/// categories, the one whose category ranks higher under the variant's
/// precedence table always scores higher, whatever the kickers.
pub proof fn lemma_score_monotonic(
    s1: HandStrength,
    s2: HandStrength,
    gt: GameType,
    trips_beat_straight: bool,
)
    requires
        strength_wf(s1, gt, trips_beat_straight),
        strength_wf(s2, gt, trips_beat_straight),
        base_value(gt, trips_beat_straight, s1.hand_combination) > base_value(
            gt,
            trips_beat_straight,
            s2.hand_combination,
        ),
    ensures
        s1.points > s2.points,
{
    reveal_with_fuel(pow14, 6);
    reveal_with_fuel(min_tail, 6);
    reveal_with_fuel(max_tail, 6);
    let b1 = base_value(gt, trips_beat_straight, s1.hand_combination);
    let b2 = base_value(gt, trips_beat_straight, s2.hand_combination);
    assert(pow14(5) == 537824 && pow14(4) == 38416);
    assert(min_tail(4) == 2955 && max_tail(5) == 579194);
    assert(b1 * 537824 >= (b2 + 1) * 537824) by (nonlinear_arith)
        requires
            b1 >= b2 + 1,
    ;
    assert((b2 + 1) * 537824 == b2 * 537824 + 537824) by (nonlinear_arith);
}

} // verus!
