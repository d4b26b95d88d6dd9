use vstd::prelude::*;
use core::cmp::Ordering;
use rust_decimal::Decimal;
use crate::deck::bits::lemma_cards_finite;
use crate::deck::{Card, Deck, Rank, Suit};
use crate::games::{
    add_decimals, count_as_decimal, credited, decimal_of_count, decimal_quotient, divide_by_count,
    equity_total, lemma_contest_step, lemma_winning_players_below, lemma_winning_players_exact,
    one_divided_by,
    one_shared_by, top_hand, winners_match, winning_players, GameEquityEvaluation, GameEvaluation,
    GameState, GameWinner,
};
use crate::games::flop_game::{
    final_states, flop_dealt, game_wf, is_complete, lemma_complete_community,
    lemma_final_states_complete, lemma_final_states_count, player_joined, river_dealt, turn_dealt, FlopGame, FlopGameState,
    FlopGameStateIterator, GameView,
};
use crate::ranking::five_cards::lemma_five_cards_make_a_hand;
use crate::ranking::hand_rank::{
    hand_rank, hand_score, lemma_rank_at_least_agrees, rank_defined, score_to_beat,
    StandardHandRanker, StandardHandRanks,
};
use crate::deck::bits::all_cards_set;

verus! {

/// A game of Texas Hold'em: each player gets two hole cards.
pub struct HoldemGameState {
    flop_game_state: FlopGameState,
}

impl View for HoldemGameState {
    type V = GameView;

    closed spec fn view(&self) -> GameView {
        self.flop_game_state@
    }
}

impl HoldemGameState {
    /// Each player gets two hole cards.
    #[verifier::type_invariant]
    closed spec fn wf(self) -> bool {
        self.flop_game_state@.per_player == 2
    }

    /// A game with no players and nothing dealt.
    pub fn new() -> (g: Self)
        ensures
            g@ == (GameView {
                hands: Seq::empty(),
                flop: Set::empty(),
                turn: None,
                river: None,
                deck: all_cards_set(),
                per_player: 2,
            }),
    {
        Self { flop_game_state: FlopGameState::new(2) }
    }
}

impl Default for HoldemGameState {
    fn default() -> (g: Self)
        ensures
            g@ == (GameView {
                hands: Seq::empty(),
                flop: Set::empty(),
                turn: None,
                river: None,
                deck: all_cards_set(),
                per_player: 2,
            }),
    {
        Self::new()
    }
}

/// Every way a game of Hold'em can end, one at a time.
pub struct HoldemFinalStates {
    states: FlopGameStateIterator,
}

impl HoldemFinalStates {
    /// Every game still to come deals two hole cards per player.
    #[verifier::type_invariant]
    closed spec fn wf(self) -> bool {
        forall|k: int|
            0 <= k < self.states.remaining().len() ==> (#[trigger] self.states.remaining()[k]).per_player
                == 2
    }

    /// The games still to come, in order.
    pub closed spec fn remaining(self) -> Seq<GameView> {
        self.states.remaining()
    }

    /// The next way the game can end, or `None` when every one has come.
    pub fn next(&mut self) -> (res: Option<HoldemGameState>)
        ensures
            old(self).remaining().len() == 0 ==> res is None && final(self).remaining() == old(
                self,
            ).remaining(),
            old(self).remaining().len() > 0 ==> (res matches Some(s) && s@ == old(
                self,
            ).remaining()[0] && final(self).remaining() == old(self).remaining().drop_first()),
            res matches Some(s) ==> game_wf(s@) && s@.per_player == 2,
    {
        proof {
            use_type_invariant(&*self);
        }
        let mut states = FlopGameStateIterator::empty();
        std::mem::swap(&mut states, &mut self.states);
        let ghost before = states.remaining();
        let res = states.next();
        proof {
            if res is Some {
                assert(before[0].per_player == 2);
            }
            assert forall|k: int| 0 <= k < states.remaining().len() implies (
            #[trigger] states.remaining()[k]).per_player == 2 by {
                assert(states.remaining()[k] == before[k + 1]);
            }
        }
        self.states = states;
        match res {
            Some(x) => Some(HoldemGameState { flop_game_state: x }),
            None => None,
        }
    }
}

impl FlopGame for HoldemGameState {
    type FinalStates = HoldemFinalStates;

    /// The community cards dealt so far.
    fn get_community_cards(&self) -> (res: Deck)
        ensures
            res@ == self@.community(),
            game_wf(self@),
            self@.per_player == 2,
    {
        proof {
            use_type_invariant(self);
        }
        self.flop_game_state.get_community_cards()
    }

    /// Seats a player with `cards`; see `FlopGameState::add_player`.
    fn add_player(&mut self, cards: Deck) -> (res: Result<(), String>)
        ensures
            old(self)@.per_player != cards@.len() ==> (res matches Err(e) && e@
                == "Incorrect number of cards"@ && final(self)@ == old(self)@),
            old(self)@.per_player == cards@.len() && !cards@.subset_of(old(self)@.deck) ==> (res matches Err(
                e,
            ) && e@ == "Cards not in deck"@ && final(self)@ == old(self)@),
            old(self)@.per_player == cards@.len() && cards@.subset_of(old(self)@.deck) ==> res is Ok
                && final(self)@ == player_joined(old(self)@, cards@),
            game_wf(final(self)@),
    {
        proof {
            use_type_invariant(&*self);
        }
        let mut state = FlopGameState::new(2);
        std::mem::swap(&mut state, &mut self.flop_game_state);
        let res = state.add_player(cards);
        self.flop_game_state = state;
        res
    }

    /// Deals the flop; see `FlopGameState::set_flop`.
    fn set_flop(&mut self, cards: Deck) -> (res: Result<(), String>)
        ensures
            cards@.len() != 3 ==> (res matches Err(e) && e@ == "Incorrect number of cards"@
                && final(self)@ == old(self)@),
            cards@.len() == 3 && !cards@.subset_of(old(self)@.deck) ==> (res matches Err(e) && e@
                == "Cards not in deck"@ && final(self)@ == old(self)@),
            cards@.len() == 3 && cards@.subset_of(old(self)@.deck) ==> res is Ok && final(self)@
                == flop_dealt(old(self)@, cards@),
            game_wf(final(self)@),
    {
        proof {
            use_type_invariant(&*self);
        }
        let mut state = FlopGameState::new(2);
        std::mem::swap(&mut state, &mut self.flop_game_state);
        let res = state.set_flop(cards);
        self.flop_game_state = state;
        res
    }

    /// Deals the turn; see `FlopGameState::set_turn`.
    fn set_turn(&mut self, card: Card) -> (res: Result<(), String>)
        ensures
            !old(self)@.deck.contains(card@) ==> (res matches Err(e) && e@ == "Card is not in deck"@
                && final(self)@ == old(self)@),
            old(self)@.deck.contains(card@) ==> res is Ok && final(self)@ == turn_dealt(
                old(self)@,
                card@,
            ),
            game_wf(final(self)@),
    {
        proof {
            use_type_invariant(&*self);
        }
        let mut state = FlopGameState::new(2);
        std::mem::swap(&mut state, &mut self.flop_game_state);
        let res = state.set_turn(card);
        self.flop_game_state = state;
        res
    }

    /// Deals the river; see `FlopGameState::set_river`.
    fn set_river(&mut self, card: Card) -> (res: Result<(), String>)
        ensures
            !old(self)@.deck.contains(card@) ==> (res matches Err(e) && e@ == "Card is not in deck"@
                && final(self)@ == old(self)@),
            old(self)@.deck.contains(card@) ==> res is Ok && final(self)@ == river_dealt(
                old(self)@,
                card@,
            ),
            game_wf(final(self)@),
    {
        proof {
            use_type_invariant(&*self);
        }
        let mut state = FlopGameState::new(2);
        std::mem::swap(&mut state, &mut self.flop_game_state);
        let res = state.set_river(card);
        self.flop_game_state = state;
        res
    }

    /// Each player's hole cards, in the order the players joined.
    fn get_player_hole_cards(&self) -> (res: &[Deck])
        ensures
            res@.map_values(|d: Deck| d@) == self@.hands,
            game_wf(self@),
            self@.per_player == 2,
    {
        proof {
            use_type_invariant(self);
        }
        self.flop_game_state.get_player_hole_cards()
    }

    /// Every way the game can end, one at a time, in the order `final_states`.
    fn get_final_states(&self) -> (it: HoldemFinalStates)
        ensures
            it.remaining() == final_states(self@),
    {
        proof {
            use_type_invariant(self);
            use_type_invariant(&self.flop_game_state);
            lemma_final_states_complete(self@);
        }
        HoldemFinalStates { states: self.flop_game_state.get_final_states() }
    }
}

impl GameState for HoldemGameState {

}

/// What a game of Hold'em is decided on: each player, in order, with the best hand of
/// its hole cards and the community cards.
pub open spec fn holdem_entries(g: GameView) -> Seq<(usize, StandardHandRanks)> {
    Seq::new(g.hands.len(), |i: int| (i as usize, hand_rank(g.hands[i].union(g.community()))))
}

/// The Hold'em winners are exactly the players whose hole cards with the community
/// cards score as high as the best such hand, each once and in increasing order; no
/// player's hand scores higher; and there are winners exactly when there are players.
pub proof fn lemma_holdem_winners(g: GameView)
    requires
        g.hands.len() <= usize::MAX,
    ensures
        winning_players(holdem_entries(g)).len() == 0 <==> g.hands.len() == 0,
        g.hands.len() > 0 ==> {
            let best = hand_score(top_hand(holdem_entries(g)).unwrap());
            let w = winning_players(holdem_entries(g));
            &&& forall|i: int|
                0 <= i < g.hands.len() ==> hand_score(
                    hand_rank(#[trigger] g.hands[i].union(g.community())),
                ) <= best
            &&& forall|k: int, l: int| 0 <= k < l < w.len() ==> #[trigger] w[k] < #[trigger] w[l]
            &&& forall|k: int|
                0 <= k < w.len() ==> #[trigger] w[k] < g.hands.len() && hand_score(
                    hand_rank(g.hands[w[k] as int].union(g.community())),
                ) == best
            &&& forall|i: int|
                0 <= i < g.hands.len() && hand_score(
                    hand_rank(#[trigger] g.hands[i].union(g.community())),
                ) == best ==> w.contains(i as usize)
        },
{
    let e = holdem_entries(g);
    assert forall|i: int| 0 <= i < e.len() implies (#[trigger] e[i]).0 == i by {}
    lemma_winning_players_exact(e);
    if g.hands.len() > 0 {
        let best = hand_score(top_hand(e).unwrap());
        assert forall|i: int| 0 <= i < g.hands.len() implies hand_score(
            hand_rank(#[trigger] g.hands[i].union(g.community())),
        ) <= best by {
            assert(e[i].1 == hand_rank(g.hands[i].union(g.community())));
        }
        assert forall|i: int|
            0 <= i < g.hands.len() && hand_score(
                hand_rank(#[trigger] g.hands[i].union(g.community())),
            ) == best implies winning_players(e).contains(i as usize) by {
            assert(e[i].1 == hand_rank(g.hands[i].union(g.community())));
        }
    }
}

/// Once the flop is dealt, each Hold'em player's two hole cards and the community cards
/// make at least five cards, so every player's hand can be ranked and the game decided.
pub proof fn lemma_holdem_can_evaluate(g: GameView)
    requires
        game_wf(g),
        g.per_player == 2,
        g.flop.len() == 3,
    ensures
        forall|i: int|
            0 <= i < g.hands.len() ==> rank_defined(#[trigger] g.hands[i].union(g.community()), 0),
{
    assert forall|i: int| 0 <= i < g.hands.len() implies rank_defined(
        #[trigger] g.hands[i].union(g.community()),
        0,
    ) by {
        let h = g.hands[i];
        let c = g.community();
        lemma_cards_finite(h);
        lemma_cards_finite(c);
        lemma_cards_finite(g.flop);
        lemma_cards_finite(h.union(c));
        assert(g.flop.subset_of(c));
        vstd::set_lib::lemma_len_subset(g.flop, c);
        vstd::set_lib::lemma_set_disjoint_lens(h, c);
        lemma_five_cards_make_a_hand(h.union(c));
    }
}

/// Decides games of Hold'em.
pub struct HoldemGameEvaluation {}

impl HoldemGameEvaluation {
    fn add_winner(winners: &mut Vec<usize>, index: usize)
        ensures
            final(winners)@ == old(winners)@.push(index),
    {
        winners.push(index);
    }

    fn assign_winner(
        winning_hands: &mut Option<StandardHandRanks>,
        winners: &mut Vec<usize>,
        index: usize,
        winning_hand: StandardHandRanks,
    )
        ensures
            *final(winning_hands) == Some(winning_hand),
            final(winners)@ == seq![index],
    {
        *winning_hands = Some(winning_hand);
        let mut only: Vec<usize> = Vec::new();
        only.push(index);
        *winners = only;
        proof {
            assert(winners@ =~= seq![index]);
        }
    }

    /// Takes a player's hand into account: a better hand than the best so far makes the
    /// player the only winner, an equal one adds the player to the winners.
    fn take_hand(
        best_hand: &mut Option<StandardHandRanks>,
        winners: &mut Vec<usize>,
        index: usize,
        rank: StandardHandRanks,
    )
        ensures
            match *old(best_hand) {
                None => *final(best_hand) == Some(rank) && final(winners)@ == seq![index],
                Some(b) => if hand_score(b) < hand_score(rank) {
                    *final(best_hand) == Some(rank) && final(winners)@ == seq![index]
                } else if hand_score(b) == hand_score(rank) {
                    *final(best_hand) == Some(b) && final(winners)@ == old(winners)@.push(index)
                } else {
                    *final(best_hand) == Some(b) && final(winners)@ == old(winners)@
                },
            },
    {
        match *best_hand {
            Some(best_hand_val) => {
                match best_hand_val.partial_cmp(&rank) {
                    Some(Ordering::Less) => {
                        Self::assign_winner(best_hand, winners, index, rank);
                    },
                    Some(Ordering::Equal) => Self::add_winner(winners, index),
                    Some(Ordering::Greater) => {},
                    None => {},
                }
            },
            None => Self::assign_winner(best_hand, winners, index, rank),
        }
    }
}

impl GameEvaluation<HoldemGameState, StandardHandRanks> for HoldemGameEvaluation {
    /// Every player's cards with the community cards can be ranked, as they can once
    /// the flop is dealt.
    open spec fn can_evaluate(&self, game_state: &HoldemGameState) -> bool {
        forall|i: int|
            0 <= i < game_state@.hands.len() ==> rank_defined(
                #[trigger] game_state@.hands[i].union(game_state@.community()),
                0,
            )
    }

    /// The winners: every player whose hole cards with the community cards make the
    /// best hand, in order, each with an equal share of the pot.
    fn evaluate_winners(&self, game_state: &HoldemGameState) -> (res: Vec<
        GameWinner<StandardHandRanks>,
    >)
        ensures
            winners_match(res@, holdem_entries(game_state@)),
    {
        let mut best_hand: Option<StandardHandRanks> = None;
        let mut winners: Vec<usize> = Vec::new();
        let players = game_state.get_player_hole_cards();
        let community = game_state.get_community_cards();
        let ghost g = game_state@;
        let ghost entries = holdem_entries(g);
        let mut i: usize = 0;
        proof {
            assert(entries.take(0) =~= Seq::<(usize, StandardHandRanks)>::empty());
            assert(winners@ =~= winning_players(entries.take(0)));
        }
        while i < players.len()
            invariant
                0 <= i <= players.len(),
                players@.map_values(|d: Deck| d@) == g.hands,
                community@ == g.community(),
                g == game_state@,
                entries == holdem_entries(g),
                best_hand == top_hand(entries.take(i as int)),
                winners@ == winning_players(entries.take(i as int)),
                self.can_evaluate(game_state),
            decreases players.len() - i,
        {
            let player = players[i];
            let combined_deck = player | community;
            proof {
                assert(player@ == g.hands[i as int]);
                assert(combined_deck@ == g.hands[i as int].union(g.community()));
                assert(entries[i as int] == (i, hand_rank(combined_deck@)));
                lemma_rank_at_least_agrees(combined_deck@, score_to_beat(best_hand));
                lemma_contest_step(entries.take(i as int), entries[i as int]);
                assert(entries.take(i + 1) =~= entries.take(i as int).push(entries[i as int]));
            }
            if let Some(rank) = StandardHandRanker::get_rank_at_least(&combined_deck, best_hand) {
                Self::take_hand(&mut best_hand, &mut winners, i, rank);
            }
            i = i + 1;
        }
        proof {
            assert(entries.take(i as int) =~= entries);
        }
        let winner_count = winners.len();
        let mut result: Vec<GameWinner<StandardHandRanks>> = Vec::new();
        if let Some(best_hand) = best_hand {
            if winner_count > 0 {
                let pot_distribution = one_shared_by(winner_count);
                let mut k: usize = 0;
                while k < winner_count
                    invariant
                        0 <= k <= winner_count,
                        winner_count == winners.len(),
                        pot_distribution == one_divided_by(winner_count as nat),
                        result.len() == k,
                        forall|j: int|
                            0 <= j < k ==> (#[trigger] result@[j]).player() == winners@[j]
                                && result@[j].hand() == best_hand && result@[j].pot()
                                == pot_distribution,
                    decreases winner_count - k,
                {
                    result.push(GameWinner::new(winners[k], pot_distribution, best_hand));
                    k = k + 1;
                }
            }
        }
        proof {
            if best_hand is None {
                assert(winning_players(entries) =~= Seq::<usize>::empty());
            }
        }
        result
    }
}

impl GameEquityEvaluation<HoldemGameState, StandardHandRanks, HoldemGameEvaluation> for HoldemGameEvaluation {
    /// The game has at least one way to end.
    open spec fn can_evaluate_equity(&self, game_state: &HoldemGameState) -> bool {
        final_states(game_state@).len() > 0
    }

    /// Each player's equity: over every way the game can end, the share of the pot the
    /// player wins, summed and divided by the number of ways.
    fn evaluate_equity(&self, game_state: &HoldemGameState) -> (res: Vec<Decimal>)
        ensures
            res.len() == game_state@.hands.len(),
            forall|p: int|
                0 <= p < res.len() ==> #[trigger] res@[p] == decimal_quotient(
                    equity_total(final_states(game_state@), p, |r: GameView| holdem_entries(r)),
                    final_states(game_state@).len(),
                ),
    {
        let players = game_state.get_player_hole_cards();
        let ghost g = game_state@;
        let ghost all = final_states(g);
        let ghost entries_of = |r: GameView| holdem_entries(r);
        proof {
            lemma_final_states_complete(g);
            lemma_final_states_count(g);
        }
        let mut winner_equity: Vec<Decimal> = Vec::new();
        let mut n: usize = 0;
        while n < players.len()
            invariant
                0 <= n <= players.len(),
                winner_equity.len() == n,
                forall|p: int| 0 <= p < n ==> #[trigger] winner_equity@[p] == decimal_of_count(0),
            decreases players.len() - n,
        {
            winner_equity.push(count_as_decimal(0));
            n = n + 1;
        }
        let num_players = players.len();
        let mut hand_count: usize = 0;
        let mut runouts = game_state.get_final_states();
        loop
            invariant
                g == game_state@,
                all == final_states(g),
                num_players == g.hands.len(),
                winner_equity.len() == num_players,
                hand_count <= all.len(),
                all.len() <= 380204032,
                runouts.remaining() == all.skip(hand_count as int),
                forall|p: int|
                    0 <= p < num_players ==> #[trigger] winner_equity@[p] == equity_total(
                        all.take(hand_count as int),
                        p,
                        entries_of,
                    ),
                forall|k: int|
                    0 <= k < all.len() ==> (#[trigger] all[k]).hands == g.hands && is_complete(
                        all[k],
                    ),
                entries_of == (|r: GameView| holdem_entries(r)),
            ensures
                hand_count == all.len(),
                forall|p: int|
                    0 <= p < num_players ==> #[trigger] winner_equity@[p] == equity_total(
                        all,
                        p,
                        entries_of,
                    ),
            decreases all.len() - hand_count,
        {
            let ghost before = runouts.remaining();
            match runouts.next() {
                Some(runout) => {
                    let ghost r = runout@;
                    proof {
                        assert(all.skip(hand_count as int)[0] == all[hand_count as int]);
                        assert(r == all[hand_count as int]);
                        lemma_complete_community(r);
                        assert forall|i: int| 0 <= i < r.hands.len() implies rank_defined(
                            #[trigger] r.hands[i].union(r.community()),
                            0,
                        ) by {
                            lemma_cards_finite(r.hands[i].union(r.community()));
                            vstd::set_lib::lemma_len_subset(
                                r.community(),
                                r.hands[i].union(r.community()),
                            );
                            lemma_five_cards_make_a_hand(r.hands[i].union(r.community()));
                        }
                    }
                    let winners = HoldemGameEvaluation {}.evaluate_winners(&runout);
                    let num_winners = winners.len();
                    let equity = if num_winners > 0 {
                        one_shared_by(num_winners)
                    } else {
                        count_as_decimal(0)
                    };
                    let ghost ws = winning_players(holdem_entries(r));
                    let ghost prev = all.take(hand_count as int);
                    proof {
                        lemma_winning_players_below(holdem_entries(r), num_players as int);
                    }
                    let mut j: usize = 0;
                    while j < winners.len()
                        invariant
                            0 <= j <= winners.len(),
                            winners_match(winners@, holdem_entries(r)),
                            ws == winning_players(holdem_entries(r)),
                            num_winners == winners.len(),
                            num_winners > 0 ==> equity == one_divided_by(num_winners as nat),
                            winner_equity.len() == num_players,
                            forall|k: int| 0 <= k < ws.len() ==> #[trigger] ws[k] < num_players,
                            forall|p: int|
                                0 <= p < num_players ==> #[trigger] winner_equity@[p] == credited(
                                    equity_total(prev, p, entries_of),
                                    ws.take(j as int),
                                    p,
                                    one_divided_by(ws.len()),
                                ),
                        decreases winners.len() - j,
                    {
                        let index = winners[j].player_index;
                        proof {
                            assert(index == ws[j as int]);
                            assert(ws.take(j + 1).drop_last() =~= ws.take(j as int));
                        }
                        let updated = add_decimals(winner_equity[index], equity);
                        winner_equity.set(index, updated);
                        j = j + 1;
                    }
                    hand_count = hand_count + 1;
                    proof {
                        assert(ws.take(j as int) =~= ws);
                        assert(all.take(hand_count as int).drop_last() =~= prev);
                        assert(all.take(hand_count as int).last() == r);
                        assert(before.drop_first() =~= all.skip(hand_count as int));
                    }
                },
                None => {
                    proof {
                        assert(all.take(hand_count as int) =~= all);
                    }
                    break;
                },
            }
        }
        let mut res: Vec<Decimal> = Vec::new();
        let mut p: usize = 0;
        while p < num_players
            invariant
                0 <= p <= num_players,
                winner_equity.len() == num_players,
                hand_count == all.len(),
                hand_count > 0,
                res.len() == p,
                forall|q: int|
                    0 <= q < p ==> #[trigger] res@[q] == decimal_quotient(
                        winner_equity@[q],
                        hand_count as nat,
                    ),
            decreases num_players - p,
        {
            res.push(divide_by_count(winner_equity[p], hand_count));
            p = p + 1;
        }
        res
    }
}

} // verus!
