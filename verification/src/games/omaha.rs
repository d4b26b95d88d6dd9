use vstd::prelude::*;
use core::cmp::Ordering;
use rust_decimal::Decimal;
use crate::deck::bits::lemma_cards_finite;
use crate::deck::{combo_cards, combo_of, lemma_combo_of, Card, Deck, Rank, Suit};
use crate::deck::combinations::{lemma_combinations_from, lex_combinations};
use crate::games::{
    add_decimals, count_as_decimal, credited, decimal_of_count, decimal_quotient, divide_by_count,
    equity_total, lemma_contest_step, lemma_flatten_forall, lemma_winning_players_below, one_divided_by,
    one_shared_by, top_hand, winners_match, winning_players, GameEquityEvaluation, GameEvaluation,
    GameState, GameWinner,
};
use crate::games::flop_game::{
    final_states, flop_dealt, game_wf, is_complete, lemma_complete_community,
    lemma_final_states_complete, lemma_final_states_count, player_joined, river_dealt, turn_dealt, FlopGame, FlopGameState,
    FlopGameStateIterator, GameView,
};
use crate::ranking::five_cards::lemma_five_cards_make_a_hand;
use crate::ranking::hand_rank::{
    hand_rank, hand_score, lemma_rank_at_least_agrees, rank_defined, score_to_beat,
    StandardHandRanker, StandardHandRanks,
};
use crate::deck::bits::all_cards_set;

verus! {

/// A game of Omaha: each player gets the same number of hole cards, of which a hand
/// uses exactly two, with exactly three community cards.
pub struct OmahaGameState {
    flop_game_state: FlopGameState,
}

impl View for OmahaGameState {
    type V = GameView;

    closed spec fn view(&self) -> GameView {
        self.flop_game_state@
    }
}

impl OmahaGameState {
    /// A game with no players and nothing dealt, in which each player gets
    /// `cards_per_player` hole cards.
    pub fn new(cards_per_player: u32) -> (g: Self)
        ensures
            g@ == (GameView {
                hands: Seq::empty(),
                flop: Set::empty(),
                turn: None,
                river: None,
                deck: all_cards_set(),
                per_player: cards_per_player as nat,
            }),
    {
        Self { flop_game_state: FlopGameState::new(cards_per_player) }
    }
}

/// Every way a game of Omaha can end, one at a time.
pub struct OmahaFinalStates {
    states: FlopGameStateIterator,
}

impl OmahaFinalStates {
    /// The games still to come, in order.
    pub closed spec fn remaining(self) -> Seq<GameView> {
        self.states.remaining()
    }

    /// The next way the game can end, or `None` when every one has come.
    pub fn next(&mut self) -> (res: Option<OmahaGameState>)
        ensures
            old(self).remaining().len() == 0 ==> res is None && final(self).remaining() == old(
                self,
            ).remaining(),
            old(self).remaining().len() > 0 ==> (res matches Some(s) && s@ == old(
                self,
            ).remaining()[0] && final(self).remaining() == old(self).remaining().drop_first()),
            res matches Some(s) ==> game_wf(s@),
    {
        match self.states.next() {
            Some(x) => Some(OmahaGameState { flop_game_state: x }),
            None => None,
        }
    }
}

impl FlopGame for OmahaGameState {
    type FinalStates = OmahaFinalStates;

    /// The community cards dealt so far.
    fn get_community_cards(&self) -> (res: Deck)
        ensures
            res@ == self@.community(),
            game_wf(self@),
    {
        self.flop_game_state.get_community_cards()
    }

    /// Seats a player with `cards`; see `FlopGameState::add_player`.
    fn add_player(&mut self, cards: Deck) -> (res: Result<(), String>)
        ensures
            old(self)@.per_player != cards@.len() ==> (res matches Err(e) && e@
                == "Incorrect number of cards"@ && final(self)@ == old(self)@),
            old(self)@.per_player == cards@.len() && !cards@.subset_of(old(self)@.deck) ==> (res matches Err(
                e,
            ) && e@ == "Cards not in deck"@ && final(self)@ == old(self)@),
            old(self)@.per_player == cards@.len() && cards@.subset_of(old(self)@.deck) ==> res is Ok
                && final(self)@ == player_joined(old(self)@, cards@),
            game_wf(final(self)@),
    {
        self.flop_game_state.add_player(cards)
    }

    /// Deals the flop; see `FlopGameState::set_flop`.
    fn set_flop(&mut self, cards: Deck) -> (res: Result<(), String>)
        ensures
            cards@.len() != 3 ==> (res matches Err(e) && e@ == "Incorrect number of cards"@
                && final(self)@ == old(self)@),
            cards@.len() == 3 && !cards@.subset_of(old(self)@.deck) ==> (res matches Err(e) && e@
                == "Cards not in deck"@ && final(self)@ == old(self)@),
            cards@.len() == 3 && cards@.subset_of(old(self)@.deck) ==> res is Ok && final(self)@
                == flop_dealt(old(self)@, cards@),
            game_wf(final(self)@),
    {
        self.flop_game_state.set_flop(cards)
    }

    /// Deals the turn; see `FlopGameState::set_turn`.
    fn set_turn(&mut self, card: Card) -> (res: Result<(), String>)
        ensures
            !old(self)@.deck.contains(card@) ==> (res matches Err(e) && e@ == "Card is not in deck"@
                && final(self)@ == old(self)@),
            old(self)@.deck.contains(card@) ==> res is Ok && final(self)@ == turn_dealt(
                old(self)@,
                card@,
            ),
            game_wf(final(self)@),
    {
        self.flop_game_state.set_turn(card)
    }

    /// Deals the river; see `FlopGameState::set_river`.
    fn set_river(&mut self, card: Card) -> (res: Result<(), String>)
        ensures
            !old(self)@.deck.contains(card@) ==> (res matches Err(e) && e@ == "Card is not in deck"@
                && final(self)@ == old(self)@),
            old(self)@.deck.contains(card@) ==> res is Ok && final(self)@ == river_dealt(
                old(self)@,
                card@,
            ),
            game_wf(final(self)@),
    {
        self.flop_game_state.set_river(card)
    }

    /// Each player's hole cards, in the order the players joined.
    fn get_player_hole_cards(&self) -> (res: &[Deck])
        ensures
            res@.map_values(|d: Deck| d@) == self@.hands,
            game_wf(self@),
    {
        self.flop_game_state.get_player_hole_cards()
    }

    /// Every way the game can end, one at a time, in the order `final_states`.
    fn get_final_states(&self) -> (it: OmahaFinalStates)
        ensures
            it.remaining() == final_states(self@),
    {
        OmahaFinalStates { states: self.flop_game_state.get_final_states() }
    }
}

impl GameState for OmahaGameState {

}

/// The ways of choosing `k` cards of a set, in lexicographic order of their positions
/// in the order Aces first.
pub open spec fn choices(cards: Set<(Rank, Suit)>, k: nat) -> Seq<Set<(Rank, Suit)>> {
    lex_combinations(cards.len(), k).map_values(|c: Seq<usize>| combo_of(cards, c))
}

/// Player `i`'s hands with three given community cards: one with each two of its hole
/// cards, in order.
pub open spec fn pairings(i: int, board: Set<(Rank, Suit)>, hole: Set<(Rank, Suit)>) -> Seq<
    (usize, StandardHandRanks),
> {
    choices(hole, 2).map_values(|h: Set<(Rank, Suit)>| (i as usize, hand_rank(board.union(h))))
}

/// Player `i`'s hands: each three of the community cards with each two of its hole
/// cards, in order.
pub open spec fn player_entries(g: GameView, i: int) -> Seq<(usize, StandardHandRanks)> {
    choices(g.community(), 3).map_values(
        |b: Set<(Rank, Suit)>| pairings(i, b, g.hands[i]),
    ).flatten()
}

/// What a game of Omaha is decided on: each player in order, each with every hand of
/// exactly three community cards and exactly two of its hole cards.
pub open spec fn omaha_entries(g: GameView) -> Seq<(usize, StandardHandRanks)> {
    Seq::new(g.hands.len(), |i: int| player_entries(g, i)).flatten()
}

/// Every entry of a game belongs to one of its players.
proof fn lemma_omaha_entries_players(g: GameView)
    ensures
        forall|k: int|
            0 <= k < omaha_entries(g).len() ==> (#[trigger] omaha_entries(g)[k]).0 < g.hands.len(),
{
    let n = g.hands.len();
    let s = Seq::new(n, |i: int| player_entries(g, i));
    let p = |e: (usize, StandardHandRanks)| e.0 < n;
    assert forall|i: int, j: int| 0 <= i < s.len() && 0 <= j < s[i].len() implies p(#[trigger] s[i][j]) by {
        let boards = choices(g.community(), 3);
        let t = boards.map_values(|b: Set<(Rank, Suit)>| pairings(i, b, g.hands[i]));
        assert forall|x: int, y: int| 0 <= x < t.len() && 0 <= y < t[x].len() implies p(#[trigger] t[x][y]) by {
            assert(t[x] == pairings(i, boards[x], g.hands[i]));
        }
        lemma_flatten_forall(t, p);
        assert(s[i] == t.flatten());
    }
    lemma_flatten_forall(s, p);
}

/// The ways of choosing cards of a deck, as the sets that `choices` lists.
proof fn lemma_choices(deck: Deck, k: nat)
    requires
        k <= 3,
    ensures
        lex_combinations(deck@.len(), k).map_values(|c: Seq<usize>| combo_cards(deck, c))
            == choices(deck@, k),
        forall|j: int|
            0 <= j < choices(deck@, k).len() ==> (#[trigger] choices(deck@, k)[j]).subset_of(
                deck@,
            ) && choices(deck@, k)[j].len() == k && choices(deck@, k)[j].finite(),
{
    deck.lemma_ordered_set(true);
    lemma_cards_finite(deck@);
    let combos = lex_combinations(deck@.len(), k);
    if k > 0 {
        lemma_combinations_from(deck@.len(), k, 0);
    }
    assert forall|j: int| 0 <= j < combos.len() implies #[trigger] combo_cards(deck, combos[j])
        == combo_of(deck@, combos[j]) by {
    }
    assert(combos.map_values(|c: Seq<usize>| combo_cards(deck, c)) =~= choices(deck@, k));
    assert forall|j: int| 0 <= j < choices(deck@, k).len() implies (#[trigger] choices(
        deck@,
        k,
    )[j]).subset_of(deck@) && choices(deck@, k)[j].len() == k && choices(deck@, k)[j].finite() by {
        lemma_combo_of(deck@, combos[j]);
    }
}

/// Decides games of Omaha.
pub struct OmahaGameEvaluation {}

impl OmahaGameEvaluation {
    fn add_winner(winners: &mut Vec<usize>, index: usize)
        ensures
            final(winners)@ == old(winners)@.push(index),
    {
        winners.push(index);
    }

    fn assign_winner(
        winning_hands: &mut Option<StandardHandRanks>,
        winners: &mut Vec<usize>,
        index: usize,
        winning_hand: StandardHandRanks,
    )
        ensures
            *final(winning_hands) == Some(winning_hand),
            final(winners)@ == seq![index],
    {
        *winning_hands = Some(winning_hand);
        let mut only: Vec<usize> = Vec::new();
        only.push(index);
        *winners = only;
        proof {
            assert(winners@ =~= seq![index]);
        }
    }

    /// Takes a player's hand into account: a better hand than the best so far makes the
    /// player the only winner, an equal one adds the player to the winners.
    fn take_hand(
        best_hand: &mut Option<StandardHandRanks>,
        winners: &mut Vec<usize>,
        index: usize,
        rank: StandardHandRanks,
    )
        ensures
            match *old(best_hand) {
                None => *final(best_hand) == Some(rank) && final(winners)@ == seq![index],
                Some(b) => if hand_score(b) < hand_score(rank) {
                    *final(best_hand) == Some(rank) && final(winners)@ == seq![index]
                } else if hand_score(b) == hand_score(rank) {
                    *final(best_hand) == Some(b) && final(winners)@ == old(winners)@.push(index)
                } else {
                    *final(best_hand) == Some(b) && final(winners)@ == old(winners)@
                },
            },
    {
        match *best_hand {
            Some(best_hand_val) => {
                match best_hand_val.partial_cmp(&rank) {
                    Some(Ordering::Less) => {
                        Self::assign_winner(best_hand, winners, index, rank);
                    },
                    Some(Ordering::Equal) => Self::add_winner(winners, index),
                    Some(Ordering::Greater) => {},
                    None => {},
                }
            },
            None => Self::assign_winner(best_hand, winners, index, rank),
        }
    }
}

impl GameEvaluation<OmahaGameState, StandardHandRanks> for OmahaGameEvaluation {
    /// Every game of Omaha can be decided: each hand has five cards.
    open spec fn can_evaluate(&self, game_state: &OmahaGameState) -> bool {
        true
    }

    /// The winners: one for each of the players' hands (three community cards with two
    /// hole cards) that is best, in order, each with an equal share of the pot. A player
    /// with two best hands is a winner twice.
    fn evaluate_winners(&self, game_state: &OmahaGameState) -> (res: Vec<
        GameWinner<StandardHandRanks>,
    >)
        ensures
            winners_match(res@, omaha_entries(game_state@)),
    {
        let mut best_hand: Option<StandardHandRanks> = None;
        let mut winners: Vec<usize> = Vec::new();
        let players = game_state.get_player_hole_cards();
        let ghost g = game_state@;
        let ghost entries = omaha_entries(g);
        let ghost mut done: Seq<(usize, StandardHandRanks)> = Seq::empty();
        let ghost pe = |k: int| player_entries(g, k);
        let mut i: usize = 0;
        proof {
            assert(Seq::new(0, pe).flatten() =~= Seq::<(usize, StandardHandRanks)>::empty());
            assert(winners@ =~= winning_players(done));
        }
        while i < players.len()
            invariant
                0 <= i <= players.len(),
                players@.map_values(|d: Deck| d@) == g.hands,
                g == game_state@,
                game_wf(g),
                entries == omaha_entries(g),
                pe == (|k: int| player_entries(g, k)),
                done == Seq::new(i as nat, pe).flatten(),
                best_hand == top_hand(done),
                winners@ == winning_players(done),
            decreases players.len() - i,
        {
            let player = players[i];
            let community = game_state.get_community_cards();
            let ghost hole = g.hands[i as int];
            let ghost comm = g.community();
            proof {
                assert(player@ == hole);
                lemma_choices(community, 3);
                lemma_choices(player, 2);
            }
            let ghost boards = choices(comm, 3);
            let ghost pf = |b: Set<(Rank, Suit)>| pairings(i as int, b, hole);
            let ghost base = done;
            let ghost mut a: int = 0;
            let mut community_choices = community.enumerate_combinations(3);
            proof {
                assert(boards.take(0).map_values(pf).flatten() =~= Seq::<(usize, StandardHandRanks)>::empty());
                assert(base + boards.take(0).map_values(pf).flatten() =~= done);
            }
            loop
                invariant
                    0 <= a <= boards.len(),
                    community_choices.remaining() == boards.skip(a),
                    g == game_state@,
                    game_wf(g),
                    0 <= i < g.hands.len(),
                    hole == g.hands[i as int],
                    comm == g.community(),
                    player@ == hole,
                    boards == choices(comm, 3),
                    pf == (|b: Set<(Rank, Suit)>| pairings(i as int, b, hole)),
                    forall|j: int|
                        0 <= j < boards.len() ==> (#[trigger] boards[j]).subset_of(comm)
                            && boards[j].len() == 3 && boards[j].finite(),
                    forall|j: int|
                        0 <= j < choices(hole, 2).len() ==> (#[trigger] choices(hole, 2)[j]).subset_of(
                            hole,
                        ) && choices(hole, 2)[j].len() == 2 && choices(hole, 2)[j].finite(),
                    done == base + boards.take(a).map_values(pf).flatten(),
                    best_hand == top_hand(done),
                    winners@ == winning_players(done),
                ensures
                    done == base + boards.map_values(pf).flatten(),
                    best_hand == top_hand(done),
                    winners@ == winning_players(done),
                decreases boards.len() - a,
            {
                match community_choices.next() {
                    Some(community_cards_of_3) => {
                        let ghost board = boards[a];
                        let ghost holes = choices(hole, 2);
                        let ghost outer = done;
                        let ghost mut b: int = 0;
                        let mut hole_choices = player.enumerate_combinations(2);
                        proof {
                            assert(boards.skip(a)[0] == board);
                            assert(community_cards_of_3@ == board);
                            assert(hole.disjoint(comm)) by {
                                assert(g.hands[i as int].disjoint(g.community()));
                            }
                            assert(pairings(i as int, board, hole).take(0) =~= Seq::<(usize, StandardHandRanks)>::empty());
                            assert(outer + pairings(i as int, board, hole).take(0) =~= done);
                            lemma_choices(player, 2);
                            assert(holes.skip(0) =~= holes);
                        }
                        loop
                            invariant
                                0 <= b <= holes.len(),
                                hole_choices.remaining() == holes.skip(b),
                                holes == choices(hole, 2),
                                community_cards_of_3@ == board,
                                board.subset_of(comm) && board.len() == 3 && board.finite(),
                                hole.disjoint(comm),
                                forall|j: int|
                                    0 <= j < holes.len() ==> (#[trigger] holes[j]).subset_of(hole)
                                        && holes[j].len() == 2 && holes[j].finite(),
                                done == outer + pairings(i as int, board, hole).take(b),
                                best_hand == top_hand(done),
                                winners@ == winning_players(done),
                            ensures
                                done == outer + pairings(i as int, board, hole),
                                best_hand == top_hand(done),
                                winners@ == winning_players(done),
                            decreases holes.len() - b,
                        {
                            match hole_choices.next() {
                                Some(player_cards_group_of_2) => {
                                    let combined_deck = community_cards_of_3 | player_cards_group_of_2;
                                    let ghost entry = pairings(i as int, board, hole)[b];
                                    proof {
                                        assert(holes.skip(b)[0] == holes[b]);
                                        let h = holes[b];
                                        assert(board.disjoint(h));
                                        assert(combined_deck@ == board.union(h));
                                        assert(entry == (i, hand_rank(combined_deck@)));
                                        vstd::set_lib::lemma_set_disjoint_lens(board, h);
                                        assert(combined_deck@.len() == 5);
                                        lemma_five_cards_make_a_hand(combined_deck@);
                                        lemma_rank_at_least_agrees(combined_deck@, score_to_beat(best_hand));
                                        lemma_contest_step(done, entry);
                                        assert(pairings(i as int, board, hole).take(b + 1) =~= pairings(
                                            i as int,
                                            board,
                                            hole,
                                        ).take(b).push(entry));
                                    }
                                    if let Some(rank) = StandardHandRanker::get_rank_at_least(
                                        &combined_deck,
                                        best_hand,
                                    ) {
                                        Self::take_hand(&mut best_hand, &mut winners, i, rank);
                                    }
                                    proof {
                                        done = done.push(entry);
                                        b = b + 1;
                                    }
                                },
                                None => {
                                    proof {
                                        assert(pairings(i as int, board, hole).take(b) =~= pairings(
                                            i as int,
                                            board,
                                            hole,
                                        ));
                                    }
                                    break;
                                },
                            }
                        }
                        proof {
                            assert(boards.take(a + 1).map_values(pf) =~= boards.take(a).map_values(
                                pf,
                            ).push(pf(board)));
                            boards.take(a).map_values(pf).lemma_flatten_push(pf(board));
                            assert(done =~= base + boards.take(a + 1).map_values(pf).flatten());
                            a = a + 1;
                        }
                    },
                    None => {
                        proof {
                            assert(boards.take(a) =~= boards);
                        }
                        break;
                    },
                }
            }
            proof {
                assert(pe(i as int) == boards.map_values(pf).flatten());
                assert(Seq::new((i + 1) as nat, pe) =~= Seq::new(i as nat, pe).push(pe(i as int)));
                Seq::new(i as nat, pe).lemma_flatten_push(pe(i as int));
            }
            i = i + 1;
        }
        proof {
            assert(Seq::new(i as nat, pe) =~= Seq::new(g.hands.len(), |k: int| player_entries(g, k)));
            assert(done == entries);
        }
        let winner_count = winners.len();
        let mut result: Vec<GameWinner<StandardHandRanks>> = Vec::new();
        if let Some(best_hand) = best_hand {
            if winner_count > 0 {
                let pot_distribution = one_shared_by(winner_count);
                let mut k: usize = 0;
                while k < winner_count
                    invariant
                        0 <= k <= winner_count,
                        winner_count == winners.len(),
                        pot_distribution == one_divided_by(winner_count as nat),
                        result.len() == k,
                        forall|j: int|
                            0 <= j < k ==> (#[trigger] result@[j]).player() == winners@[j]
                                && result@[j].hand() == best_hand && result@[j].pot()
                                == pot_distribution,
                    decreases winner_count - k,
                {
                    result.push(GameWinner::new(winners[k], pot_distribution, best_hand));
                    k = k + 1;
                }
            }
        }
        proof {
            if best_hand is None {
                assert(winning_players(entries) =~= Seq::<usize>::empty());
            }
        }
        result
    }
}

impl GameEquityEvaluation<OmahaGameState, StandardHandRanks, OmahaGameEvaluation> for OmahaGameEvaluation {
    /// The game has at least one way to end.
    open spec fn can_evaluate_equity(&self, game_state: &OmahaGameState) -> bool {
        final_states(game_state@).len() > 0
    }

    /// Each player's equity: over every way the game can end, the share of the pot the
    /// player wins, summed and divided by the number of ways.
    fn evaluate_equity(&self, game_state: &OmahaGameState) -> (res: Vec<Decimal>)
        ensures
            res.len() == game_state@.hands.len(),
            forall|p: int|
                0 <= p < res.len() ==> #[trigger] res@[p] == decimal_quotient(
                    equity_total(final_states(game_state@), p, |r: GameView| omaha_entries(r)),
                    final_states(game_state@).len(),
                ),
    {
        let players = game_state.get_player_hole_cards();
        let ghost g = game_state@;
        let ghost all = final_states(g);
        let ghost entries_of = |r: GameView| omaha_entries(r);
        proof {
            lemma_final_states_complete(g);
            lemma_final_states_count(g);
        }
        let mut winner_equity: Vec<Decimal> = Vec::new();
        let mut n: usize = 0;
        while n < players.len()
            invariant
                0 <= n <= players.len(),
                winner_equity.len() == n,
                forall|p: int| 0 <= p < n ==> #[trigger] winner_equity@[p] == decimal_of_count(0),
            decreases players.len() - n,
        {
            winner_equity.push(count_as_decimal(0));
            n = n + 1;
        }
        let num_players = players.len();
        let mut hand_count: usize = 0;
        let mut runouts = game_state.get_final_states();
        loop
            invariant
                g == game_state@,
                all == final_states(g),
                num_players == g.hands.len(),
                winner_equity.len() == num_players,
                hand_count <= all.len(),
                all.len() <= 380204032,
                runouts.remaining() == all.skip(hand_count as int),
                forall|p: int|
                    0 <= p < num_players ==> #[trigger] winner_equity@[p] == equity_total(
                        all.take(hand_count as int),
                        p,
                        entries_of,
                    ),
                forall|k: int|
                    0 <= k < all.len() ==> (#[trigger] all[k]).hands == g.hands && is_complete(
                        all[k],
                    ),
                entries_of == (|r: GameView| omaha_entries(r)),
            ensures
                hand_count == all.len(),
                forall|p: int|
                    0 <= p < num_players ==> #[trigger] winner_equity@[p] == equity_total(
                        all,
                        p,
                        entries_of,
                    ),
            decreases all.len() - hand_count,
        {
            let ghost before = runouts.remaining();
            match runouts.next() {
                Some(runout) => {
                    let ghost r = runout@;
                    proof {
                        assert(all.skip(hand_count as int)[0] == all[hand_count as int]);
                        assert(r == all[hand_count as int]);
                    }
                    let winners = OmahaGameEvaluation {}.evaluate_winners(&runout);
                    let num_winners = winners.len();
                    let equity = if num_winners > 0 {
                        one_shared_by(num_winners)
                    } else {
                        count_as_decimal(0)
                    };
                    let ghost ws = winning_players(omaha_entries(r));
                    let ghost prev = all.take(hand_count as int);
                    proof {
                        lemma_omaha_entries_players(r);
                        lemma_winning_players_below(omaha_entries(r), num_players as int);
                    }
                    let mut j: usize = 0;
                    while j < winners.len()
                        invariant
                            0 <= j <= winners.len(),
                            winners_match(winners@, omaha_entries(r)),
                            ws == winning_players(omaha_entries(r)),
                            num_winners == winners.len(),
                            num_winners > 0 ==> equity == one_divided_by(num_winners as nat),
                            winner_equity.len() == num_players,
                            forall|k: int| 0 <= k < ws.len() ==> #[trigger] ws[k] < num_players,
                            forall|p: int|
                                0 <= p < num_players ==> #[trigger] winner_equity@[p] == credited(
                                    equity_total(prev, p, entries_of),
                                    ws.take(j as int),
                                    p,
                                    one_divided_by(ws.len()),
                                ),
                        decreases winners.len() - j,
                    {
                        let index = winners[j].player_index;
                        proof {
                            assert(index == ws[j as int]);
                            assert(ws.take(j + 1).drop_last() =~= ws.take(j as int));
                        }
                        let updated = add_decimals(winner_equity[index], equity);
                        winner_equity.set(index, updated);
                        j = j + 1;
                    }
                    hand_count = hand_count + 1;
                    proof {
                        assert(ws.take(j as int) =~= ws);
                        assert(all.take(hand_count as int).drop_last() =~= prev);
                        assert(all.take(hand_count as int).last() == r);
                        assert(before.drop_first() =~= all.skip(hand_count as int));
                    }
                },
                None => {
                    proof {
                        assert(all.take(hand_count as int) =~= all);
                    }
                    break;
                },
            }
        }
        let mut res: Vec<Decimal> = Vec::new();
        let mut p: usize = 0;
        while p < num_players
            invariant
                0 <= p <= num_players,
                winner_equity.len() == num_players,
                hand_count == all.len(),
                hand_count > 0,
                res.len() == p,
                forall|q: int|
                    0 <= q < p ==> #[trigger] res@[q] == decimal_quotient(
                        winner_equity@[q],
                        hand_count as nat,
                    ),
            decreases num_players - p,
        {
            res.push(divide_by_count(winner_equity[p], hand_count));
            p = p + 1;
        }
        res
    }
}

} // verus!
