//! The simulation engine: owns the table state, enumerates or samples the
//! missing community cards, classifies every player per completed board and
//! folds the outcomes into per-player aggregates.

use crate::card::deck_card;
use crate::card::distinct_cards;
use crate::card::Card;
use crate::card::Rank;
use crate::game::contains_card;
use crate::game::copy_cards;
use crate::game::disjoint_cards;
use crate::game::ranks_eq;
use crate::game::HandCombination;
use crate::player::Player;
use crate::Cards;
use crate::GameType;
use vstd::prelude::*;

verus! {

broadcast use
    vstd::seq_lib::group_seq_properties,
    Seq::lemma_filter_push,
    Seq::lemma_take_succ_push,
;

/// One table: the players' hole cards, the known community cards and the
/// dead cards removed from play.
#[derive(Debug, Clone)]
pub struct Table {
    pub players: Vec<Player>,
    pub community_cards: Vec<Card>,
    pub dead_cards: Vec<Card>,
}

/// One player's aggregate over a finished run: the hole cards, the win and
/// tie counts, and one occurrence counter per category (indexed by
/// `combo_index`).
#[derive(Debug, Clone)]
pub struct PlayerResult {
    pub hand: Vec<Card>,
    pub wins: u64,
    pub ties: u64,
    pub ranks: Vec<u64>,
}

/// The final output of a run: per-player aggregates in input order, the
/// number of boards evaluated, whether the run sampled instead of
/// enumerating, and the elapsed wall time.
#[derive(Debug)]
pub struct SimulationResult {
    pub player_results: Vec<PlayerResult>,
    pub iterations: u64,
    pub approximate: bool,
    pub time_in_ms: u64,
}

/// The position of a category in a `PlayerResult`'s counter vector.
pub open spec fn combo_index(c: HandCombination) -> int {
    match c {
        HandCombination::RoyalFlush => 0,
        HandCombination::StraightFlush => 1,
        HandCombination::Quads => 2,
        HandCombination::FullHouse => 3,
        HandCombination::Flush => 4,
        HandCombination::Straight => 5,
        HandCombination::TreeOfAKind => 6,
        HandCombination::TwoPairs => 7,
        HandCombination::OnePair => 8,
        HandCombination::HighCards => 9,
    }
}

/// Executable twin of `combo_index`.
pub fn combo_index_of(c: HandCombination) -> (i: usize)
    ensures
        i == combo_index(c),
{
    match c {
        HandCombination::RoyalFlush => 0,
        HandCombination::StraightFlush => 1,
        HandCombination::Quads => 2,
        HandCombination::FullHouse => 3,
        HandCombination::Flush => 4,
        HandCombination::Straight => 5,
        HandCombination::TreeOfAKind => 6,
        HandCombination::TwoPairs => 7,
        HandCombination::OnePair => 8,
        HandCombination::HighCards => 9,
    }
}

/// The sum of a counter vector.
pub open spec fn sum_u64(s: Seq<u64>) -> int
    decreases s.len(),
{
    if s.len() == 0 {
        0
    } else {
        sum_u64(s.drop_last()) + s.last()
    }
}

/// A well-formed accumulator: ten counters, and never more wins and ties
/// together than boards tallied.
pub open spec fn pr_wf(p: PlayerResult) -> bool {
    &&& p.ranks@.len() == 10
    &&& 0 <= p.wins + p.ties <= sum_u64(p.ranks@)
}

/// A card that belongs to the variant's deck.
pub open spec fn in_deck(game_type: GameType, c: Card) -> bool {
    deck_card(c) && (game_type == GameType::ShortdeckHoldem ==> c.rank.spec_value() > 5)
}

impl Table {
    /// Seats the given hands at a table with the given board and dead cards.
    pub fn new(player_hands: Vec<Cards>, community_cards: Vec<Card>, dead_cards: Vec<Card>) -> (t:
        Table)
        ensures
            t.players@.len() == player_hands@.len(),
            forall|i: int|
                0 <= i < player_hands@.len() ==> (#[trigger] t.players@[i]).hand@ == player_hands@[
                    i].cards@,
            t.community_cards@ == community_cards@,
            t.dead_cards@ == dead_cards@,
    {
        let mut players: Vec<Player> = Vec::new();
        let mut i: usize = 0;
        while i < player_hands.len()
            invariant
                i <= player_hands@.len(),
                players@.len() == i,
                forall|j: int|
                    0 <= j < i ==> (#[trigger] players@[j]).hand@ == player_hands@[j].cards@,
            decreases player_hands@.len() - i,
        {
            let hand = copy_cards(&player_hands[i].cards);
            players.push(Player::new(hand));
            i += 1;
        }
        Table { players, community_cards, dead_cards }
    }

    /// The structural validity of the table for a variant: at least one
    /// player, at most five community cards, variant-sized hands, every card
    /// from the variant's deck, and no card in two places at once.
    pub open spec fn table_ok(&self, game_type: GameType) -> bool {
        &&& self.players@.len() >= 1
        &&& self.community_cards@.len() <= 5
        &&& forall|p: int|
            0 <= p < self.players@.len() ==> (#[trigger] self.players@[p]).hand@.len() == (
            if game_type == GameType::Omaha {
                4int
            } else {
                2int
            })
        &&& forall|k: int|
            0 <= k < self.community_cards@.len() ==> in_deck(
                game_type,
                #[trigger] self.community_cards@[k],
            )
        &&& forall|p: int, k: int|
            0 <= p < self.players@.len() && 0 <= k < self.players@[p].hand@.len() ==> in_deck(
                game_type,
                #[trigger] self.players@[p].hand@[k],
            )
        &&& distinct_cards(self.community_cards@)
        &&& distinct_cards(self.dead_cards@)
        &&& forall|p: int|
            0 <= p < self.players@.len() ==> distinct_cards((#[trigger] self.players@[p]).hand@)
        &&& forall|p: int|
            0 <= p < self.players@.len() ==> disjoint_cards(
                (#[trigger] self.players@[p]).hand@,
                self.community_cards@,
            )
        &&& forall|p: int, q: int|
            0 <= p < q < self.players@.len() ==> disjoint_cards(
                (#[trigger] self.players@[p]).hand@,
                (#[trigger] self.players@[q]).hand@,
            )
        &&& disjoint_cards(self.dead_cards@, self.community_cards@)
        &&& forall|p: int|
            0 <= p < self.players@.len() ==> disjoint_cards(
                self.dead_cards@,
                (#[trigger] self.players@[p]).hand@,
            )
    }

    /// Checks the structural validity of the table, exactly.
    pub fn validate(&self, game_type: GameType) -> (r: bool)
        ensures
            r == self.table_ok(game_type),
    {
        if self.players.len() < 1 {
            return false;
        }
        if self.community_cards.len() > 5 {
            return false;
        }
        let want: usize = match game_type {
            GameType::Omaha => 4,
            _ => 2,
        };
        if !all_in_deck(game_type, &self.community_cards) {
            return false;
        }
        if !all_distinct(&self.community_cards) {
            return false;
        }
        if !all_distinct(&self.dead_cards) {
            return false;
        }
        if !vecs_disjoint(&self.dead_cards, &self.community_cards) {
            return false;
        }
        let mut p: usize = 0;
        while p < self.players.len()
            invariant
                p <= self.players@.len(),
                want == (if game_type == GameType::Omaha {
                    4int
                } else {
                    2int
                }),
                forall|j: int|
                    0 <= j < p ==> (#[trigger] self.players@[j]).hand@.len() == want && (forall|
                        k: int,
                    |
                        0 <= k < self.players@[j].hand@.len() ==> in_deck(
                            game_type,
                            #[trigger] self.players@[j].hand@[k],
                        )) && distinct_cards(self.players@[j].hand@) && disjoint_cards(
                        self.players@[j].hand@,
                        self.community_cards@,
                    ) && disjoint_cards(self.dead_cards@, self.players@[j].hand@) && (forall|
                        q: int,
                    |
                        0 <= q < j ==> disjoint_cards(
                            (#[trigger] self.players@[q]).hand@,
                            self.players@[j].hand@,
                        )),
            decreases self.players@.len() - p,
        {
            let hand = &self.players[p].hand;
            if hand.len() != want {
                return false;
            }
            if !all_in_deck(game_type, hand) {
                return false;
            }
            if !all_distinct(hand) {
                return false;
            }
            if !vecs_disjoint(hand, &self.community_cards) {
                return false;
            }
            if !vecs_disjoint(&self.dead_cards, hand) {
                return false;
            }
            let mut q: usize = 0;
            while q < p
                invariant
                    q <= p < self.players@.len(),
                    forall|u: int|
                        0 <= u < q ==> disjoint_cards(
                            (#[trigger] self.players@[u]).hand@,
                            self.players@[p as int].hand@,
                        ),
                decreases p - q,
            {
                if !vecs_disjoint(&self.players[q].hand, &self.players[p].hand) {
                    return false;
                }
                q += 1;
            }
            p += 1;
        }
        true
    }

    /// The pool of cards still unseen: exactly the variant's deck minus the
    /// dead cards, the community cards and every player's hole cards.
    pub fn get_unused_cards(&self, game_type: GameType) -> (pool: Vec<Card>)
        ensures
            pool@ == deck_seq(game_type).filter(
                |c: Card|
                    !self.dead_cards@.contains(c) && !self.community_cards@.contains(c) && !(
                    exists|p: int|
                        0 <= p < self.players@.len() && (
                        #[trigger] self.players@[p]).hand@.contains(c)),
            ),
            pool@.len() == self.unused_size(game_type),
            distinct_cards(pool@),
            forall|k: int| 0 <= k < pool@.len() ==> in_deck(game_type, #[trigger] pool@[k]),
            forall|c: Card|
                #[trigger] pool@.contains(c) <==> (in_deck(game_type, c)
                    && !self.dead_cards@.contains(c) && !self.community_cards@.contains(c) && !(
                exists|p: int|
                    0 <= p < self.players@.len() && (#[trigger] self.players@[p]).hand@.contains(
                        c,
                    ))),
    {
        let ghost upred = |c: Card|
            !self.dead_cards@.contains(c) && !self.community_cards@.contains(c) && !(exists|p: int|
                0 <= p < self.players@.len() && (#[trigger] self.players@[p]).hand@.contains(c));
        let deck = match game_type {
            GameType::ShortdeckHoldem => Card::get_short_deck_cards(),
            _ => Card::get_all_cards(),
        };
        proof {
            assert(deck@ =~= deck_seq(game_type));
            assert(deck_seq(game_type).take(0) =~= Seq::<Card>::empty());
            assert(Seq::<Card>::empty().filter(upred) =~= Seq::<Card>::empty()) by {
                reveal(Seq::filter);
            }
        }
        let mut pool: Vec<Card> = Vec::new();
        let mut i: usize = 0;
        while i < deck.len()
            invariant
                i <= deck@.len(),
                deck@ == deck_seq(game_type),
                upred == (|c: Card|
                    !self.dead_cards@.contains(c) && !self.community_cards@.contains(c) && !(
                    exists|p: int|
                        0 <= p < self.players@.len() && (
                        #[trigger] self.players@[p]).hand@.contains(c))),
                pool@ == deck@.take(i as int).filter(upred),
                distinct_cards(deck@),
                forall|k: int| 0 <= k < deck@.len() ==> in_deck(game_type, #[trigger] deck@[k]),
                forall|c: Card| deck@.contains(c) <==> in_deck(game_type, c),
                forall|k: int| 0 <= k < pool@.len() ==> deck@.take(i as int).contains(
                    #[trigger] pool@[k],
                ),
                distinct_cards(pool@),
                forall|c: Card|
                    #[trigger] pool@.contains(c) <==> (deck@.take(i as int).contains(c)
                        && !self.dead_cards@.contains(c) && !self.community_cards@.contains(c)
                        && !(exists|p: int|
                        0 <= p < self.players@.len() && (
                        #[trigger] self.players@[p]).hand@.contains(c))),
            decreases deck@.len() - i,
        {
            let c = deck[i];
            if !contains_card(&self.dead_cards, c) && !contains_card(&self.community_cards, c)
                && !any_player_has(&self.players, c) {
                proof {
                    assert(deck@.take(i + 1).contains(c)) by {
                        assert(deck@.take(i + 1)[i as int] == c);
                    }
                    assert(forall|k: int|
                        0 <= k < pool@.len() ==> !(#[trigger] pool@[k] == c)) by {
                        if exists|k: int| 0 <= k < pool@.len() && pool@[k] == c {
                            let k = choose|k: int| 0 <= k < pool@.len() && pool@[k] == c;
                            assert(pool@.contains(c));
                            let w = choose|w: int|
                                0 <= w < i && deck@.take(i as int)[w] == c;
                            assert(deck@[w] == c && deck@[i as int] == c);
                        }
                    }
                }
                pool.push(c);
            }
            i += 1;
        }
        proof {
            assert(deck@.take(deck@.len() as int) =~= deck@);
        }
        pool
    }

    /// Runs the simulation with a caller-supplied generator, so that a run
    /// can be made deterministic. Enumerates every completion of the board
    /// when the whole space fits the iteration budget or an exhaustive run is
    /// demanded; otherwise draws boards at random, one per iteration, up to
    /// the budget. Every player's category counters sum to the number of
    /// boards evaluated, and wins and ties together never exceed it.
    pub fn get_results_with_rng(
        &self,
        game_type: GameType,
        limit: u64,
        trips_beat_straight: bool,
        exhaustive: bool,
        rng: &mut rand::rngs::StdRng,
    ) -> (r: SimulationResult)
        requires
            self.table_ok(game_type),
        ensures
            r.player_results@.len() == self.players@.len(),
            forall|i: int|
                0 <= i < self.players@.len() ==> (#[trigger] r.player_results@[i]).hand@
                    == self.players@[i].hand@,
            forall|i: int|
                0 <= i < self.players@.len() ==> pr_wf(#[trigger] r.player_results@[i])
                    && sum_u64(r.player_results@[i].ranks@) == r.iterations
                    && r.player_results@[i].wins + r.player_results@[i].ties <= r.iterations,
            r.approximate == (!exhaustive && n_choose_k(
                self.unused_size(game_type),
                (5 - self.community_cards@.len()) as nat,
            ) > limit),
            r.approximate ==> r.iterations == limit,
            !r.approximate ==> r.iterations == n_choose_k(
                self.unused_size(game_type),
                (5 - self.community_cards@.len()) as nat,
            ),
    {
        let start_instant = crate::clock::clock_now();
        let pool = self.get_unused_cards(game_type);
        proof {
            deck_seq(game_type).lemma_filter_len(
                |c: Card|
                    !self.dead_cards@.contains(c) && !self.community_cards@.contains(c) && !(
                    exists|p: int|
                        0 <= p < self.players@.len() && (
                        #[trigger] self.players@[p]).hand@.contains(c)),
            );
            assert(pool@.len() <= 52);
            assert(cards_clean(self, game_type, pool@));
        }
        let missing = 5 - self.community_cards.len();
        let total = count_combinations(pool.len(), missing);
        let approximate = !exhaustive && total > limit;
        // empty accumulators: zero counters per player
        let mut results: Vec<PlayerResult> = Vec::new();
        let mut i: usize = 0;
        while i < self.players.len()
            invariant
                i <= self.players@.len(),
                results@.len() == i,
                forall|j: int|
                    0 <= j < i ==> (#[trigger] results@[j]).hand@ == self.players@[j].hand@
                        && pr_wf(results@[j]) && sum_u64(results@[j].ranks@) == 0,
            decreases self.players@.len() - i,
        {
            let hand = copy_cards(&self.players[i].hand);
            let mut ranks: Vec<u64> = Vec::new();
            let mut z: usize = 0;
            while z < 10
                invariant
                    z <= 10,
                    ranks@.len() == z,
                    sum_u64(ranks@) == 0,
                decreases 10 - z,
            {
                let ghost before = ranks@;
                ranks.push(0);
                proof {
                    assert(ranks@.drop_last() =~= before);
                    assert(sum_u64(ranks@) == sum_u64(before) + 0);
                }
                z += 1;
            }
            results.push(PlayerResult { hand, wins: 0, ties: 0, ranks });
            i += 1;
        }
        let iterations: u64;
        if !approximate {
            let mut current: Vec<Card> = Vec::new();
            proof {
                lemma_choose_le_pow2(pool@.len() as nat, missing as nat);
                vstd::arithmetic::power2::lemma2_to64();
                vstd::arithmetic::power2::lemma2_to64_rest();
                lemma_pow2_le_52(pool@.len() as nat);
            }
            iterations = self.enumerate_rec(
                game_type,
                trips_beat_straight,
                &pool,
                0,
                missing,
                &mut current,
                &mut results,
            );
        } else {
            proof {
                if pool@.len() < missing {
                    lemma_choose_zero(pool@.len() as nat, missing as nat);
                }
            }
            let mut it: u64 = 0;
            while it < limit
                invariant
                    it <= limit,
                    total > limit,
                    missing <= 5,
                    missing + self.community_cards@.len() == 5,
                    missing <= pool@.len() <= 52,
                    total == n_choose_k(pool@.len() as nat, missing as nat),
                    self.table_ok(game_type),
                    cards_clean(self, game_type, pool@),
                    distinct_cards(pool@),
                    results@.len() == self.players@.len(),
                    forall|j: int|
                        0 <= j < results@.len() ==> (#[trigger] results@[j]).hand@
                            == self.players@[j].hand@ && pr_wf(results@[j]) && sum_u64(
                            results@[j].ranks@,
                        ) == it,
                decreases limit - it,
            {
                let mut work = copy_cards(&pool);
                let mut drawn: Vec<Card> = Vec::new();
                let mut j: usize = 0;
                while j < missing
                    invariant
                        j <= missing <= 5,
                        drawn@.len() == j,
                        work@.len() == pool@.len() - j,
                        missing <= pool@.len(),
                        distinct_cards(pool@),
                        drawn@.to_multiset().add(work@.to_multiset()) == pool@.to_multiset(),
                    decreases missing - j,
                {
                    let idx = crate::rng::rng_below(rng, work.len());
                    let ghost before = work@;
                    let c = work.remove(idx);
                    proof {
                        assert(before =~= work@.insert(idx as int, c));
                        crate::game::old_remove_multiset(pool@, drawn@, work@, c, idx as int);
                    }
                    drawn.push(c);
                    proof {
                        drawn@.to_multiset_ensures();
                        assert(drawn@.drop_last() =~= drawn@.take(j as int));
                        vstd::seq_lib::to_multiset_build(drawn@.drop_last(), c);
                        assert(drawn@ =~= drawn@.drop_last().push(c));
                    }
                    j += 1;
                }
                proof {
                    vstd::seq_lib::lemma_multiset_commutative(drawn@, work@);
                    assert((drawn@ + work@).to_multiset() == pool@.to_multiset());
                    crate::game::lemma_distinct_permutation(pool@, drawn@ + work@);
                    assert(cards_clean(self, game_type, drawn@)) by {
                        assert forall|k: int| 0 <= k < drawn@.len() implies pool@.contains(
                            #[trigger] drawn@[k],
                        ) by {
                            assert((drawn@ + work@)[k] == drawn@[k]);
                            assert((drawn@ + work@).contains(drawn@[k]));
                            (drawn@ + work@).to_multiset_ensures();
                            pool@.to_multiset_ensures();
                            assert((drawn@ + work@).to_multiset().count(drawn@[k]) > 0);
                            assert(pool@.to_multiset().count(drawn@[k]) > 0);
                        }
                        assert forall|a: int, b: int|
                            0 <= a < b < drawn@.len() implies drawn@[a] != drawn@[b] by {
                            assert((drawn@ + work@)[a] == drawn@[a]);
                            assert((drawn@ + work@)[b] == drawn@[b]);
                        }
                        assert forall|k: int|
                            0 <= k < drawn@.len() implies in_deck(game_type, #[trigger] drawn@[k])
                                && !self.community_cards@.contains(drawn@[k]) && (forall|p: int|
                            0 <= p < self.players@.len() ==> !(
                            #[trigger] self.players@[p]).hand@.contains(drawn@[k])) by {
                            assert(pool@.contains(drawn@[k]));
                            let w = choose|w: int| 0 <= w < pool@.len() && pool@[w] == drawn@[k];
                            assert(in_deck(game_type, pool@[w]));
                        }
                    }
                    lemma_board_inputs_ok(self, game_type, drawn@);
                }
                let mut board_full = copy_cards(&self.community_cards);
                let mut d2 = copy_cards(&drawn);
                board_full.append(&mut d2);
                let strengths = crate::game::get_results(
                    game_type,
                    trips_beat_straight,
                    &self.players,
                    &board_full,
                );
                apply_board(&mut results, &strengths);
                it += 1;
            }
            iterations = limit;
        }
        SimulationResult {
            player_results: results,
            iterations,
            approximate,
            time_in_ms: crate::clock::elapsed_millis(&start_instant),
        }
    }

    /// Runs the simulation with a fresh entropy-seeded generator.
    pub fn get_results(
        &self,
        game_type: GameType,
        limit: u64,
        trips_beat_straight: bool,
        exhaustive: bool,
    ) -> (r: SimulationResult)
        requires
            self.table_ok(game_type),
        ensures
            r.player_results@.len() == self.players@.len(),
            forall|i: int|
                0 <= i < self.players@.len() ==> (#[trigger] r.player_results@[i]).hand@
                    == self.players@[i].hand@,
            forall|i: int|
                0 <= i < self.players@.len() ==> pr_wf(#[trigger] r.player_results@[i])
                    && sum_u64(r.player_results@[i].ranks@) == r.iterations
                    && r.player_results@[i].wins + r.player_results@[i].ties <= r.iterations,
            r.approximate == (!exhaustive && n_choose_k(
                self.unused_size(game_type),
                (5 - self.community_cards@.len()) as nat,
            ) > limit),
            r.approximate ==> r.iterations == limit,
            !r.approximate ==> r.iterations == n_choose_k(
                self.unused_size(game_type),
                (5 - self.community_cards@.len()) as nat,
            ),
    {
        let mut rng = crate::rng::rng_from_entropy();
        self.get_results_with_rng(game_type, limit, trips_beat_straight, exhaustive, &mut rng)
    }
}

/// True when every card belongs to the variant's deck.
fn all_in_deck(game_type: GameType, v: &Vec<Card>) -> (r: bool)
    ensures
        r == forall|k: int| 0 <= k < v@.len() ==> in_deck(game_type, #[trigger] v@[k]),
{
    let is_shortdeck = match game_type {
        GameType::ShortdeckHoldem => true,
        _ => false,
    };
    let mut i: usize = 0;
    while i < v.len()
        invariant
            i <= v@.len(),
            is_shortdeck == (game_type == GameType::ShortdeckHoldem),
            forall|k: int| 0 <= k < i ==> in_deck(game_type, #[trigger] v@[k]),
        decreases v@.len() - i,
    {
        if ranks_eq(v[i].rank, Rank::LowAce) {
            return false;
        }
        if is_shortdeck && v[i].rank.value() <= 5 {
            return false;
        }
        i += 1;
    }
    true
}

/// True when no card appears twice.
fn all_distinct(v: &Vec<Card>) -> (r: bool)
    ensures
        r == distinct_cards(v@),
{
    let mut i: usize = 0;
    while i < v.len()
        invariant
            i <= v@.len(),
            forall|a: int, b: int| 0 <= a < b < v@.len() && b < i ==> v@[a] != v@[b],
        decreases v@.len() - i,
    {
        let mut j: usize = 0;
        while j < i
            invariant
                j <= i < v@.len(),
                forall|a: int| 0 <= a < j ==> v@[a] != v@[i as int],
            decreases i - j,
        {
            if v[j] == v[i] {
                proof {
                    assert(!distinct_cards(v@));
                }
                return false;
            }
            j += 1;
        }
        i += 1;
    }
    true
}

/// True when the two card vectors share no card.
fn vecs_disjoint(a: &Vec<Card>, b: &Vec<Card>) -> (r: bool)
    ensures
        r == disjoint_cards(a@, b@),
{
    let mut i: usize = 0;
    while i < a.len()
        invariant
            i <= a@.len(),
            forall|k: int| 0 <= k < i ==> !b@.contains(#[trigger] a@[k]),
        decreases a@.len() - i,
    {
        if contains_card(b, a[i]) {
            proof {
                assert(a@.contains(a@[i as int]));
            }
            return false;
        }
        i += 1;
    }
    proof {
        if !disjoint_cards(a@, b@) {
            let c = choose|c: Card| a@.contains(c) && b@.contains(c);
            let k = choose|k: int| 0 <= k < a@.len() && a@[k] == c;
        }
    }
    true
}

/// True when some player holds this very card.
fn any_player_has(players: &Vec<Player>, c: Card) -> (r: bool)
    ensures
        r == exists|p: int|
            0 <= p < players@.len() && (#[trigger] players@[p]).hand@.contains(c),
{
    let mut p: usize = 0;
    while p < players.len()
        invariant
            p <= players@.len(),
            forall|j: int| 0 <= j < p ==> !(#[trigger] players@[j]).hand@.contains(c),
        decreases players@.len() - p,
    {
        if contains_card(&players[p].hand, c) {
            return true;
        }
        p += 1;
    }
    false
}


/// The number of `k`-card subsets of an `n`-card pool, by Pascal's rule.
pub open spec fn n_choose_k(n: nat, k: nat) -> nat
    decreases n,
{
    if k == 0 {
        1
    } else if n == 0 {
        0
    } else {
        n_choose_k((n - 1) as nat, (k - 1) as nat) + n_choose_k((n - 1) as nat, k)
    }
}

/// Binomial counts stay under the full power set.
pub proof fn lemma_choose_le_pow2(n: nat, k: nat)
    ensures
        n_choose_k(n, k) <= vstd::arithmetic::power2::pow2(n),
    decreases n,
{
    vstd::arithmetic::power2::lemma_pow2_pos(n);
    if k == 0 {
    } else if n == 0 {
    } else {
        lemma_choose_le_pow2((n - 1) as nat, (k - 1) as nat);
        lemma_choose_le_pow2((n - 1) as nat, k);
        assert(vstd::arithmetic::power2::pow2(n) == 2 * vstd::arithmetic::power2::pow2(
            (n - 1) as nat,
        )) by {
            vstd::arithmetic::power2::lemma_pow2_unfold(n);
        }
    }
}

/// No subsets larger than the pool.
pub proof fn lemma_choose_zero(n: nat, k: nat)
    requires
        n < k,
    ensures
        n_choose_k(n, k) == 0,
    decreases n,
{
    if n > 0 {
        lemma_choose_zero((n - 1) as nat, (k - 1) as nat);
        lemma_choose_zero((n - 1) as nat, k);
    }
}

/// Computes the binomial count for a small pool and draw.
pub fn count_combinations(n: usize, k: usize) -> (r: u64)
    requires
        n <= 52,
        k <= 5,
    ensures
        r == n_choose_k(n as nat, k as nat),
{
    let mut row: Vec<u64> = Vec::new();
    row.push(1);
    let mut z: usize = 1;
    while z < 6
        invariant
            1 <= z <= 6,
            row@.len() == z,
            row@[0] == 1,
            forall|j: int| 1 <= j < z ==> row@[j] == 0,
            forall|j: int| 0 <= j < z ==> row@[j] == n_choose_k(0, j as nat),
        decreases 6 - z,
    {
        row.push(0);
        z += 1;
    }
    let mut rr: usize = 0;
    while rr < n
        invariant
            rr <= n <= 52,
            row@.len() == 6,
            forall|j: int| 0 <= j < 6 ==> row@[j] == n_choose_k(rr as nat, j as nat),
        decreases n - rr,
    {
        let mut new_row: Vec<u64> = Vec::new();
        new_row.push(1);
        let mut j: usize = 1;
        while j < 6
            invariant
                1 <= j <= 6,
                rr < n <= 52,
                row@.len() == 6,
                forall|u: int| 0 <= u < 6 ==> row@[u] == n_choose_k(rr as nat, u as nat),
                new_row@.len() == j,
                forall|u: int| 0 <= u < j ==> new_row@[u] == n_choose_k((rr + 1) as nat, u as nat),
            decreases 6 - j,
        {
            proof {
                lemma_choose_le_pow2(rr as nat, (j - 1) as nat);
                lemma_choose_le_pow2(rr as nat, j as nat);
                vstd::arithmetic::power2::lemma2_to64();
                vstd::arithmetic::power2::lemma2_to64_rest();
                vstd::arithmetic::power2::lemma_pow2_adds(rr as nat, (52 - rr) as nat);
                vstd::arithmetic::power2::lemma_pow2_pos((52 - rr) as nat);
                vstd::arithmetic::power2::lemma_pow2_pos(rr as nat);
                assert(vstd::arithmetic::power2::pow2(rr as nat)
                    <= vstd::arithmetic::power2::pow2(52)) by {
                    assert(vstd::arithmetic::power2::pow2(52) == vstd::arithmetic::power2::pow2(
                        rr as nat,
                    ) * vstd::arithmetic::power2::pow2((52 - rr) as nat));
                    assert(vstd::arithmetic::power2::pow2(rr as nat) * 1
                        <= vstd::arithmetic::power2::pow2(rr as nat)
                        * vstd::arithmetic::power2::pow2((52 - rr) as nat)) by (nonlinear_arith)
                        requires
                            vstd::arithmetic::power2::pow2((52 - rr) as nat) >= 1,
                            vstd::arithmetic::power2::pow2(rr as nat) >= 1,
                    ;
                }
            }
            let v = row[j - 1] + row[j];
            new_row.push(v);
            j += 1;
        }
        row = new_row;
        rr += 1;
    }
    row[k]
}

/// The highest score on the table.
pub open spec fn max_points(s: Seq<crate::game::HandStrength>) -> u64
    decreases s.len(),
{
    if s.len() <= 1 {
        s[0].points
    } else {
        let m = max_points(s.drop_last());
        if s.last().points > m {
            s.last().points
        } else {
            m
        }
    }
}

/// How many players share the given score.
pub open spec fn count_points(s: Seq<crate::game::HandStrength>, x: u64) -> int {
    s.filter(|h: crate::game::HandStrength| h.points == x).len() as int
}

/// Every element stays at or below the sum of a counter vector.
proof fn lemma_sum_element_le(s: Seq<u64>, i: int)
    requires
        0 <= i < s.len(),
    ensures
        s[i] <= sum_u64(s),
    decreases s.len(),
{
    if i == s.len() - 1 {
        lemma_sum_nonneg(s.drop_last());
    } else {
        lemma_sum_element_le(s.drop_last(), i);
        assert(s.drop_last()[i] == s[i]);
    }
}

/// Counter sums never go negative.
proof fn lemma_sum_nonneg(s: Seq<u64>)
    ensures
        sum_u64(s) >= 0,
    decreases s.len(),
{
    if s.len() > 0 {
        lemma_sum_nonneg(s.drop_last());
    }
}

/// Bumping exactly one counter bumps the sum by one.
proof fn lemma_sum_pointwise_inc(a: Seq<u64>, b: Seq<u64>, ci: int)
    requires
        a.len() == b.len(),
        0 <= ci < a.len(),
        forall|u: int|
            0 <= u < a.len() ==> (#[trigger] b[u]) == a[u] + (if u == ci {
                1int
            } else {
                0int
            }),
    ensures
        sum_u64(b) == sum_u64(a) + 1,
    decreases a.len(),
{
    if ci == a.len() - 1 {
        assert(sum_equal_prefix(a.drop_last(), b.drop_last()));
        lemma_sum_equal(a.drop_last(), b.drop_last());
    } else {
        lemma_sum_pointwise_inc(a.drop_last(), b.drop_last(), ci);
    }
}

/// Pointwise-equal counter vectors.
spec fn sum_equal_prefix(a: Seq<u64>, b: Seq<u64>) -> bool {
    a.len() == b.len() && forall|u: int| 0 <= u < a.len() ==> a[u] == (#[trigger] b[u])
}

/// Pointwise-equal counter vectors have the same sum.
proof fn lemma_sum_equal(a: Seq<u64>, b: Seq<u64>)
    requires
        sum_equal_prefix(a, b),
    ensures
        sum_u64(a) == sum_u64(b),
{
    assert(a =~= b);
}

/// Tallies one completed board into every player's aggregate: the category
/// counter of each player's strength rises by one, and the player(s) holding
/// the single highest score gain a win when alone at the top and a tie
/// otherwise.
pub fn apply_board(results: &mut Vec<PlayerResult>, strengths: &Vec<crate::game::HandStrength>)
    requires
        old(results)@.len() == strengths@.len(),
        old(results)@.len() >= 1,
        forall|i: int| 0 <= i < old(results)@.len() ==> pr_wf(#[trigger] old(results)@[i]),
        forall|i: int|
            0 <= i < old(results)@.len() ==> sum_u64((#[trigger] old(results)@[i]).ranks@) + 1
                <= u64::MAX,
    ensures
        final(results)@.len() == old(results)@.len(),
        forall|i: int|
            0 <= i < old(results)@.len() ==> (#[trigger] final(results)@[i]).hand@ == old(
                results,
            )@[i].hand@,
        forall|i: int| 0 <= i < old(results)@.len() ==> pr_wf(#[trigger] final(results)@[i]),
        forall|i: int|
            0 <= i < old(results)@.len() ==> sum_u64((#[trigger] final(results)@[i]).ranks@)
                == sum_u64(old(results)@[i].ranks@) + 1,
        forall|i: int|
            0 <= i < old(results)@.len() ==> (#[trigger] final(results)@[i]).wins == old(
                results,
            )@[i].wins + (if strengths@[i].points == max_points(strengths@) && count_points(
                strengths@,
                max_points(strengths@),
            ) == 1 {
                1int
            } else {
                0int
            }),
        forall|i: int|
            0 <= i < old(results)@.len() ==> (#[trigger] final(results)@[i]).ties == old(
                results,
            )@[i].ties + (if strengths@[i].points == max_points(strengths@) && count_points(
                strengths@,
                max_points(strengths@),
            ) >= 2 {
                1int
            } else {
                0int
            }),
        forall|i: int, j: int|
            0 <= i < old(results)@.len() && 0 <= j < 10 ==> (#[trigger] final(results)@[i].ranks@[j])
                == old(results)@[i].ranks@[j] + (if j == combo_index(
                strengths@[i].hand_combination,
            ) {
                1int
            } else {
                0int
            }),
{
    // the single highest score on this board
    let mut top: u64 = strengths[0].points;
    let mut k: usize = 1;
    proof {
        assert(strengths@.take(1) =~= seq![strengths@[0]]);
        assert(max_points(strengths@.take(1)) == strengths@[0].points);
    }
    while k < strengths.len()
        invariant
            1 <= k <= strengths@.len(),
            top == max_points(strengths@.take(k as int)),
        decreases strengths@.len() - k,
    {
        proof {
            assert(strengths@.take(k + 1).drop_last() =~= strengths@.take(k as int));
            assert(strengths@.take(k + 1).last() == strengths@[k as int]);
        }
        if strengths[k].points > top {
            top = strengths[k].points;
        }
        k += 1;
    }
    proof {
        assert(strengths@.take(strengths@.len() as int) =~= strengths@);
    }
    // how many players share it
    let mut nt: usize = 0;
    let mut k2: usize = 0;
    proof {
        assert(strengths@.take(0) =~= Seq::<crate::game::HandStrength>::empty());
        assert(count_points(strengths@.take(0), top) == 0) by {
            reveal(Seq::filter);
        }
    }
    while k2 < strengths.len()
        invariant
            k2 <= strengths@.len(),
            nt <= k2,
            top == max_points(strengths@),
            nt == count_points(strengths@.take(k2 as int), top),
        decreases strengths@.len() - k2,
    {
        proof {
            assert(strengths@.take(k2 + 1) =~= strengths@.take(k2 as int).push(
                strengths@[k2 as int],
            ));
            let p = |h: crate::game::HandStrength| h.points == top;
            strengths@.take(k2 as int).lemma_filter_push(strengths@[k2 as int], p);
            assert(strengths@.take(k2 + 1).filter(p) == strengths@.take(k2 as int).push(
                strengths@[k2 as int],
            ).filter(p));
        }
        if strengths[k2].points == top {
            nt += 1;
        }
        k2 += 1;
    }
    proof {
        assert(strengths@.take(strengths@.len() as int) =~= strengths@);
    }
    let is_tie = nt >= 2;
    // fold the board into each player's aggregate
    let mut out: Vec<PlayerResult> = Vec::new();
    let mut i: usize = 0;
    while i < results.len()
        invariant
            i <= results@.len(),
            results@ == old(results)@,
            results@.len() == strengths@.len(),
            top == max_points(strengths@),
            nt == count_points(strengths@, top),
            is_tie == (nt >= 2),
            forall|u: int| 0 <= u < results@.len() ==> pr_wf(#[trigger] results@[u]),
            forall|u: int|
                0 <= u < results@.len() ==> sum_u64((#[trigger] results@[u]).ranks@) + 1
                    <= u64::MAX,
            out@.len() == i,
            forall|u: int|
                0 <= u < i ==> (#[trigger] out@[u]).hand@ == results@[u].hand@ && pr_wf(out@[u])
                    && sum_u64(out@[u].ranks@) == sum_u64(results@[u].ranks@) + 1 && out@[u].wins
                    == results@[u].wins + (if strengths@[u].points == top && nt == 1 {
                    1int
                } else {
                    0int
                }) && out@[u].ties == results@[u].ties + (if strengths@[u].points == top && nt
                    >= 2 {
                    1int
                } else {
                    0int
                }) && (forall|j: int|
                    0 <= j < 10 ==> (#[trigger] out@[u].ranks@[j]) == results@[u].ranks@[j] + (
                    if j == combo_index(strengths@[u].hand_combination) {
                        1int
                    } else {
                        0int
                    })),
        decreases results@.len() - i,
    {
        let pr = &results[i];
        let ci = combo_index_of(strengths[i].hand_combination);
        let mut new_ranks: Vec<u64> = Vec::new();
        let mut j: usize = 0;
        proof {
            lemma_sum_element_le(pr.ranks@, ci as int);
            lemma_sum_nonneg(pr.ranks@);
        }
        while j < 10
            invariant
                j <= 10,
                ci < 10,
                pr.ranks@.len() == 10,
                pr == results@[i as int],
                i < results@.len(),
                sum_u64(pr.ranks@) + 1 <= u64::MAX,
                pr.ranks@[ci as int] + 1 <= u64::MAX,
                new_ranks@.len() == j,
                forall|u: int|
                    0 <= u < j ==> (#[trigger] new_ranks@[u]) == pr.ranks@[u] + (if u == ci {
                        1int
                    } else {
                        0int
                    }),
            decreases 10 - j,
        {
            if j == ci {
                new_ranks.push(pr.ranks[j] + 1);
            } else {
                new_ranks.push(pr.ranks[j]);
            }
            j += 1;
        }
        proof {
            lemma_sum_pointwise_inc(pr.ranks@, new_ranks@, ci as int);
        }
        let won = strengths[i].points == top;
        let mut wins = pr.wins;
        let mut ties = pr.ties;
        if won {
            if is_tie {
                ties = ties + 1;
            } else {
                wins = wins + 1;
            }
        }
        let hand = copy_cards(&pr.hand);
        proof {
            if won && !is_tie {
                assert(nt == 1) by {
                    assert(count_points(strengths@, top) >= 1) by {
                        lemma_count_points_pos(strengths@, top, i as int);
                    }
                }
            }
        }
        out.push(PlayerResult { hand, wins, ties, ranks: new_ranks });
        i += 1;
    }
    *results = out;
}

/// A score that appears on the table is counted at least once.
proof fn lemma_count_points_pos(s: Seq<crate::game::HandStrength>, x: u64, i: int)
    requires
        0 <= i < s.len(),
        s[i].points == x,
    ensures
        count_points(s, x) >= 1,
{
    broadcast use vstd::seq_lib::group_filter_ensures;

    let p = |h: crate::game::HandStrength| h.points == x;
    s.lemma_filter_contains(p, i);
    let f = s.filter(p);
    assert(f.contains(s[i]));
}


/// The variant's deck as a sequence.
pub open spec fn deck_seq(game_type: GameType) -> Seq<Card> {
    if game_type == GameType::ShortdeckHoldem {
        Seq::new(36, |k: int| crate::card::short_deck_card(k))
    } else {
        Seq::new(52, |k: int| crate::card::full_deck_card(k))
    }
}

/// Cards that are neither on the board nor dead nor in any hand: clean
/// candidates to complete a board with.
pub open spec fn cards_clean(t: &Table, game_type: GameType, s: Seq<Card>) -> bool {
    &&& distinct_cards(s)
    &&& forall|k: int| 0 <= k < s.len() ==> in_deck(game_type, #[trigger] s[k])
    &&& forall|k: int| 0 <= k < s.len() ==> !t.community_cards@.contains(#[trigger] s[k])
    &&& forall|k: int, p: int|
        0 <= k < s.len() && 0 <= p < t.players@.len() ==> !(#[trigger] t.players@[p]).hand@.contains(
            #[trigger] s[k],
        )
}

/// Completing a valid table's board with clean cards yields valid classifier
/// inputs for every player.
proof fn lemma_board_inputs_ok(t: &Table, game_type: GameType, drawn: Seq<Card>)
    requires
        t.table_ok(game_type),
        cards_clean(t, game_type, drawn),
        t.community_cards@.len() + drawn.len() == 5,
    ensures
        forall|p: int|
            0 <= p < t.players@.len() ==> crate::game::hand_inputs_ok(
                game_type,
                (#[trigger] t.players@[p]).hand@,
                t.community_cards@ + drawn,
            ),
{
    let board = t.community_cards@ + drawn;
    let cl = t.community_cards@.len() as int;
    assert forall|p: int|
        0 <= p < t.players@.len() implies crate::game::hand_inputs_ok(
        game_type,
        (#[trigger] t.players@[p]).hand@,
        board,
    ) by {
        let hand = t.players@[p].hand@;
        let full = board + hand;
        assert(distinct_cards(full)) by {
            assert forall|a: int, b: int| 0 <= a < b < full.len() implies full[a] != full[b] by {
                let bl = board.len() as int;
                if b < cl {
                    assert(full[a] == t.community_cards@[a] && full[b] == t.community_cards@[b]);
                } else if b < bl {
                    assert(full[b] == drawn[b - cl]);
                    if a < cl {
                        if full[a] == full[b] {
                            assert(t.community_cards@.contains(drawn[b - cl])) by {
                                assert(t.community_cards@[a] == drawn[b - cl]);
                            }
                        }
                    } else {
                        assert(full[a] == drawn[a - cl]);
                    }
                } else {
                    assert(full[b] == hand[b - bl]);
                    if a < cl {
                        if full[a] == full[b] {
                            assert(hand.contains(t.community_cards@[a])) by {
                                assert(hand[b - bl] == t.community_cards@[a]);
                            }
                            assert(disjoint_cards(hand, t.community_cards@));
                            assert(t.community_cards@.contains(t.community_cards@[a]));
                        }
                    } else if a < bl {
                        assert(full[a] == drawn[a - cl]);
                        if full[a] == full[b] {
                            assert(hand.contains(drawn[a - cl])) by {
                                assert(hand[b - bl] == drawn[a - cl]);
                            }
                        }
                    } else {
                        assert(full[a] == hand[a - bl] && full[b] == hand[b - bl]);
                    }
                }
            }
        }
        assert forall|k: int| 0 <= k < board.len() implies crate::card::deck_card(
            #[trigger] board[k],
        ) by {
            if k < cl {
                assert(board[k] == t.community_cards@[k]);
                assert(in_deck(game_type, t.community_cards@[k]));
            } else {
                assert(board[k] == drawn[k - cl]);
                assert(in_deck(game_type, drawn[k - cl]));
            }
        }
        assert forall|k: int| 0 <= k < hand.len() implies crate::card::deck_card(
            #[trigger] hand[k],
        ) by {
            assert(in_deck(game_type, t.players@[p].hand@[k]));
        }
    }
}

impl Table {
    /// The number of unseen cards a run can draw from.
    pub open spec fn unused_size(&self, game_type: GameType) -> nat {
        deck_seq(game_type).filter(
            |c: Card|
                !self.dead_cards@.contains(c) && !self.community_cards@.contains(c) && !(
                exists|p: int|
                    0 <= p < self.players@.len() && (#[trigger] self.players@[p]).hand@.contains(
                        c,
                    )),
        ).len()
    }

    /// One enumeration step: extends the drawn cards with every combination
    /// of the pool's tail, tallying each completed board, and reports how
    /// many boards that was.
    fn enumerate_rec(
        &self,
        game_type: GameType,
        trips_beat_straight: bool,
        pool: &Vec<Card>,
        start: usize,
        need: usize,
        current: &mut Vec<Card>,
        results: &mut Vec<PlayerResult>,
    ) -> (count: u64)
        requires
            self.table_ok(game_type),
            start <= pool@.len(),
            pool@.len() <= 52,
            need + self.community_cards@.len() + old(current)@.len() == 5,
            cards_clean(self, game_type, pool@),
            cards_clean(self, game_type, old(current)@),
            forall|k: int, j: int|
                0 <= k < old(current)@.len() && start <= j < pool@.len() ==> (#[trigger] old(
                    current,
                )@[k]) != (#[trigger] pool@[j]),
            old(results)@.len() == self.players@.len(),
            forall|i: int| 0 <= i < old(results)@.len() ==> pr_wf(#[trigger] old(results)@[i]),
            forall|i: int|
                0 <= i < old(results)@.len() ==> (#[trigger] old(results)@[i]).hand@
                    == self.players@[i].hand@,
            forall|i: int|
                0 <= i < old(results)@.len() ==> sum_u64((#[trigger] old(results)@[i]).ranks@)
                    + n_choose_k((pool@.len() - start) as nat, need as nat) <= u64::MAX,
        ensures
            count == n_choose_k((pool@.len() - start) as nat, need as nat),
            final(current)@ == old(current)@,
            final(results)@.len() == old(results)@.len(),
            forall|i: int|
                0 <= i < old(results)@.len() ==> (#[trigger] final(results)@[i]).hand@ == old(
                    results,
                )@[i].hand@,
            forall|i: int| 0 <= i < old(results)@.len() ==> pr_wf(#[trigger] final(results)@[i]),
            forall|i: int|
                0 <= i < old(results)@.len() ==> sum_u64((#[trigger] final(results)@[i]).ranks@)
                    == sum_u64(old(results)@[i].ranks@) + count,
        decreases pool@.len() - start,
    {
        let ghost avail = (pool@.len() - start) as nat;
        if need == 0 {
            proof {
                lemma_board_inputs_ok(self, game_type, current@);
            }
            let mut board_full = copy_cards(&self.community_cards);
            let mut d2 = copy_cards(current);
            board_full.append(&mut d2);
            let strengths = crate::game::get_results(
                game_type,
                trips_beat_straight,
                &self.players,
                &board_full,
            );
            apply_board(results, &strengths);
            return 1;
        }
        if pool.len() - start < need {
            proof {
                lemma_choose_zero(avail, need as nat);
            }
            return 0;
        }
        proof {
            assert(n_choose_k(avail, need as nat) == n_choose_k(
                (avail - 1) as nat,
                (need - 1) as nat,
            ) + n_choose_k((avail - 1) as nat, need as nat));
            lemma_choose_nonneg((avail - 1) as nat, (need - 1) as nat);
            lemma_choose_nonneg((avail - 1) as nat, need as nat);
        }
        let picked = pool[start];
        current.push(picked);
        let c1 = self.enumerate_rec(
            game_type,
            trips_beat_straight,
            pool,
            start + 1,
            need - 1,
            current,
            results,
        );
        let _ = current.pop();
        proof {
            assert(current@ =~= old(current)@);
        }
        let c2 = self.enumerate_rec(
            game_type,
            trips_beat_straight,
            pool,
            start + 1,
            need,
            current,
            results,
        );
        proof {
            lemma_choose_le_pow2(avail, need as nat);
            vstd::arithmetic::power2::lemma2_to64();
            vstd::arithmetic::power2::lemma2_to64_rest();
            lemma_pow2_le_52(avail);
        }
        c1 + c2
    }
}

/// Binomial counts are never negative.
proof fn lemma_choose_nonneg(n: nat, k: nat)
    ensures
        n_choose_k(n, k) >= 0,
{
}

/// Small pools stay under the 52-card power set.
proof fn lemma_pow2_le_52(n: nat)
    requires
        n <= 52,
    ensures
        vstd::arithmetic::power2::pow2(n) <= vstd::arithmetic::power2::pow2(52),
{
    vstd::arithmetic::power2::lemma_pow2_adds(n, (52 - n) as nat);
    vstd::arithmetic::power2::lemma_pow2_pos(n);
    vstd::arithmetic::power2::lemma_pow2_pos((52 - n) as nat);
    assert(vstd::arithmetic::power2::pow2(n) * 1 <= vstd::arithmetic::power2::pow2(n)
        * vstd::arithmetic::power2::pow2((52 - n) as nat)) by (nonlinear_arith)
        requires
            vstd::arithmetic::power2::pow2((52 - n) as nat) >= 1,
            vstd::arithmetic::power2::pow2(n) >= 1,
    ;
}


/// Two counter vectors added pointwise sum to the sum of the sums.
proof fn lemma_sum_pointwise_add(a: Seq<u64>, b: Seq<u64>, c: Seq<u64>)
    requires
        a.len() == b.len() == c.len(),
        forall|u: int| 0 <= u < a.len() ==> (#[trigger] c[u]) == a[u] + b[u],
    ensures
        sum_u64(c) == sum_u64(a) + sum_u64(b),
    decreases a.len(),
{
    if a.len() > 0 {
        lemma_sum_pointwise_add(a.drop_last(), b.drop_last(), c.drop_last());
    }
}

/// What it means for `r` to merge the aggregates `a` and `b`: counter-wise
/// addition under `a`'s hole cards.
pub open spec fn merged(a: PlayerResult, b: PlayerResult, r: PlayerResult) -> bool {
    &&& r.hand@ == a.hand@
    &&& r.wins == a.wins + b.wins
    &&& r.ties == a.ties + b.ties
    &&& r.ranks@.len() == 10
    &&& forall|j: int| 0 <= j < 10 ==> (#[trigger] r.ranks@[j]) == a.ranks@[j] + b.ranks@[j]
}

/// Merges two shard-local aggregates for the same player: wins, ties and
/// every category counter add up. Shards of a partitioned run can therefore
/// be folded in any grouping.
pub fn merge_player_results(a: &PlayerResult, b: &PlayerResult) -> (r: PlayerResult)
    requires
        pr_wf(*a),
        pr_wf(*b),
        sum_u64(a.ranks@) + sum_u64(b.ranks@) <= u64::MAX,
    ensures
        merged(*a, *b, r),
        pr_wf(r),
        sum_u64(r.ranks@) == sum_u64(a.ranks@) + sum_u64(b.ranks@),
{
    let hand = copy_cards(&a.hand);
    let mut ranks: Vec<u64> = Vec::new();
    let mut j: usize = 0;
    proof {
        lemma_sum_nonneg(a.ranks@);
        lemma_sum_nonneg(b.ranks@);
    }
    while j < 10
        invariant
            j <= 10,
            a.ranks@.len() == 10,
            b.ranks@.len() == 10,
            sum_u64(a.ranks@) + sum_u64(b.ranks@) <= u64::MAX,
            ranks@.len() == j,
            forall|u: int| 0 <= u < j ==> (#[trigger] ranks@[u]) == a.ranks@[u] + b.ranks@[u],
        decreases 10 - j,
    {
        proof {
            lemma_sum_element_le(a.ranks@, j as int);
            lemma_sum_element_le(b.ranks@, j as int);
            lemma_sum_nonneg(a.ranks@);
            lemma_sum_nonneg(b.ranks@);
        }
        ranks.push(a.ranks[j] + b.ranks[j]);
        j += 1;
    }
    proof {
        lemma_sum_pointwise_add(a.ranks@, b.ranks@, ranks@);
        lemma_sum_element_le(a.ranks@, 0);
    }
    let wins = a.wins + b.wins;
    let ties = a.ties + b.ties;
    PlayerResult { hand, wins, ties, ranks }
}

/// Merging aggregates is commutative: both orders produce the same counts, so
/// the grouping of shards cannot change a run's totals.
pub proof fn lemma_merge_commutative(a: PlayerResult, b: PlayerResult, r1: PlayerResult, r2: PlayerResult)
    requires
        a.hand@ == b.hand@,
        merged(a, b, r1),
        merged(b, a, r2),
    ensures
        r1.hand@ == r2.hand@,
        r1.wins == r2.wins,
        r1.ties == r2.ties,
        r1.ranks@ == r2.ranks@,
{
    assert(r1.ranks@ =~= r2.ranks@);
}

/// Merging aggregates is associative: folding three shards left or right
/// produces the same counts, so sharding granularity never changes the final
/// aggregate.
pub proof fn lemma_merge_associative(
    a: PlayerResult,
    b: PlayerResult,
    c: PlayerResult,
    ab: PlayerResult,
    ab_c: PlayerResult,
    bc: PlayerResult,
    a_bc: PlayerResult,
)
    requires
        merged(a, b, ab),
        merged(ab, c, ab_c),
        merged(b, c, bc),
        merged(a, bc, a_bc),
    ensures
        ab_c.hand@ == a_bc.hand@,
        ab_c.wins == a_bc.wins,
        ab_c.ties == a_bc.ties,
        ab_c.ranks@ == a_bc.ranks@,
{
    assert(ab_c.ranks@ =~= a_bc.ranks@);
}

impl PlayerResult {
    /// How often this player's best hand fell in the given category.
    pub fn rank_count(&self, c: HandCombination) -> (n: u64)
        ensures
            self.ranks@.len() == 10 ==> n == self.ranks@[combo_index(c)],
    {
        let i = combo_index_of(c);
        if i < self.ranks.len() {
            self.ranks[i]
        } else {
            0
        }
    }
}

} // verus!
