use vstd::prelude::*;
use crate::deck::{
    card_views, lemma_one_card_views, combo_cards, combo_of, lemma_combo_of, lemma_set_in_order, set_in_order, toggle_card,
    Card, Deck, DeckCardIterator, DeckIterator, Rank, Suit,
};
use crate::deck::bits::{all_cards_set, lemma_cards_finite, lemma_push_to_set};
use crate::deck::combinations::{
    binomial, lemma_binomial_small, lemma_combinations_count, lemma_combinations_from,
    lemma_lex_combinations_len, lemma_power_mono, lex_combinations, power,
};

verus! {

/// What a game dealt with a flop holds: each player's hole cards, the community cards
/// dealt so far, the cards left in the deck, and the number of hole cards per player.
pub struct GameView {
    pub hands: Seq<Set<(Rank, Suit)>>,
    pub flop: Set<(Rank, Suit)>,
    pub turn: Option<(Rank, Suit)>,
    pub river: Option<(Rank, Suit)>,
    pub deck: Set<(Rank, Suit)>,
    pub per_player: nat,
}

/// The card, if any, as a set of cards.
pub open spec fn option_cards(c: Option<(Rank, Suit)>) -> Set<(Rank, Suit)> {
    match c {
        Some(x) => set![x],
        None => Set::empty(),
    }
}

impl GameView {
    /// The community cards: the flop, the turn and the river, as far as they are dealt.
    pub open spec fn community(self) -> Set<(Rank, Suit)> {
        self.flop.union(option_cards(self.turn)).union(option_cards(self.river))
    }
}

/// No card is in two places: the players' hands, the community cards and the deck do
/// not overlap; each hand has the number of cards a player gets; a dealt flop has three
/// cards.
pub open spec fn game_wf(g: GameView) -> bool {
    &&& forall|i: int|
        0 <= i < g.hands.len() ==> {
            &&& (#[trigger] g.hands[i]).len() == g.per_player
            &&& g.hands[i].disjoint(g.deck)
            &&& g.hands[i].disjoint(g.community())
        }
    &&& forall|i: int, j: int|
        0 <= i < g.hands.len() && 0 <= j < g.hands.len() && i != j ==> (#[trigger] g.hands[i]).disjoint(
            #[trigger] g.hands[j],
        )
    &&& g.community().disjoint(g.deck)
    &&& g.flop.len() == 0 || g.flop.len() == 3
    &&& g.turn matches Some(t) ==> !g.flop.contains(t)
    &&& g.river matches Some(r) ==> !g.flop.contains(r) && g.turn != Some(r)
}

/// The game after a player joins with `cards`, which leave the deck.
pub open spec fn player_joined(g: GameView, cards: Set<(Rank, Suit)>) -> GameView {
    GameView {
        hands: g.hands.push(cards),
        flop: g.flop,
        turn: g.turn,
        river: g.river,
        deck: g.deck.difference(cards),
        per_player: g.per_player,
    }
}

/// A player who joins with as many cards as a player gets, all from the deck, keeps each
/// card in one place.
pub proof fn lemma_join_wf(g: GameView, cards: Set<(Rank, Suit)>)
    requires
        game_wf(g),
        cards.len() == g.per_player,
        cards.subset_of(g.deck),
    ensures
        game_wf(player_joined(g, cards)),
{
    let n = player_joined(g, cards);
    assert(n.community() == g.community());
    assert forall|i: int| 0 <= i < n.hands.len() implies {
        &&& (#[trigger] n.hands[i]).len() == n.per_player
        &&& n.hands[i].disjoint(n.deck)
        &&& n.hands[i].disjoint(n.community())
    } by {
        if i < g.hands.len() {
            assert(n.hands[i] == g.hands[i]);
        } else {
            assert(n.hands[i] == cards);
        }
    }
    assert forall|i: int, j: int|
        0 <= i < n.hands.len() && 0 <= j < n.hands.len() && i != j implies (#[trigger] n.hands[i]).disjoint(
        #[trigger] n.hands[j],
    ) by {
        if i < g.hands.len() && j < g.hands.len() {
            assert(n.hands[i] == g.hands[i] && n.hands[j] == g.hands[j]);
        } else if i < g.hands.len() {
            assert(n.hands[i] == g.hands[i] && n.hands[j] == cards);
        } else {
            assert(n.hands[j] == g.hands[j] && n.hands[i] == cards);
        }
    }
}

/// The game after the flop `f` is dealt from the deck.
pub open spec fn flop_dealt(g: GameView, f: Set<(Rank, Suit)>) -> GameView {
    GameView {
        hands: g.hands,
        flop: f,
        turn: g.turn,
        river: g.river,
        deck: g.deck.difference(f),
        per_player: g.per_player,
    }
}

/// The game after the turn `c` is dealt from the deck.
pub open spec fn turn_dealt(g: GameView, c: (Rank, Suit)) -> GameView {
    GameView {
        hands: g.hands,
        flop: g.flop,
        turn: Some(c),
        river: g.river,
        deck: g.deck.remove(c),
        per_player: g.per_player,
    }
}

/// The game after the river `c` is dealt from the deck.
pub open spec fn river_dealt(g: GameView, c: (Rank, Suit)) -> GameView {
    GameView {
        hands: g.hands,
        flop: g.flop,
        turn: g.turn,
        river: Some(c),
        deck: g.deck.remove(c),
        per_player: g.per_player,
    }
}

/// Every river that can still come, each dealt, in the deck's order Aces first.
pub open spec fn river_runouts(g: GameView) -> Seq<GameView> {
    set_in_order(g.deck, true).map_values(|c: (Rank, Suit)| river_dealt(g, c))
}

/// Every turn and river that can still come: each turn in the deck's order, then each
/// river after it.
pub open spec fn turn_runouts(g: GameView) -> Seq<GameView> {
    set_in_order(g.deck, true).map_values(|c: (Rank, Suit)| river_runouts(turn_dealt(g, c))).flatten()
}

/// The flop of the deck's three cards at positions `c` (see `combo_of`).
pub open spec fn flop_choice(g: GameView, c: Seq<usize>) -> GameView {
    flop_dealt(g, combo_of(g.deck, c))
}

/// Every flop, turn and river that can still come: each choice of three cards of the
/// deck in lexicographic order of positions, then each turn and river after it.
pub open spec fn flop_runouts(g: GameView) -> Seq<GameView> {
    lex_combinations(g.deck.len(), 3).map_values(|c: Seq<usize>| turn_runouts(flop_choice(g, c))).flatten()
}

/// Every way the game can end: the community cards still to come, in the order
/// `get_final_states` gives them. A complete game ends only one way, as it is.
pub open spec fn final_states(g: GameView) -> Seq<GameView> {
    if g.flop.len() == 0 {
        flop_runouts(g)
    } else if g.turn is None {
        turn_runouts(g)
    } else if g.river is None {
        river_runouts(g)
    } else {
        seq![g]
    }
}

/// The card, if any, as a pair of a rank and a suit.
pub open spec fn card_option(c: Option<Card>) -> Option<(Rank, Suit)> {
    match c {
        Some(x) => Some(x@),
        None => None,
    }
}

/// A game dealt with a flop, a turn and a river, such as Hold'em or Omaha.
pub struct FlopGameState {
    hole_cards: Vec<Deck>,
    flop: Deck,
    turn: Option<Card>,
    river: Option<Card>,
    remaining_cards_in_deck: Deck,
    num_hole_cards_per_player: u32,
}

impl View for FlopGameState {
    type V = GameView;

    closed spec fn view(&self) -> GameView {
        GameView {
            hands: self.hole_cards@.map_values(|d: Deck| d@),
            flop: self.flop@,
            turn: card_option(self.turn),
            river: card_option(self.river),
            deck: self.remaining_cards_in_deck@,
            per_player: self.num_hole_cards_per_player as nat,
        }
    }
}

impl FlopGameState {
    /// No card is in two places (see `game_wf`).
    #[verifier::type_invariant]
    pub open spec fn wf(self) -> bool {
        game_wf(self@)
    }

    /// A game with no players and nothing dealt, in which each player gets
    /// `num_hole_cards_per_player` cards.
    pub fn new(num_hole_cards_per_player: u32) -> (g: Self)
        ensures
            g@ == (GameView {
                hands: Seq::empty(),
                flop: Set::empty(),
                turn: None,
                river: None,
                deck: all_cards_set(),
                per_player: num_hole_cards_per_player as nat,
            }),
            game_wf(g@),
    {
        let g = Self {
            hole_cards: Vec::new(),
            flop: Deck::empty(),
            turn: None,
            river: None,
            remaining_cards_in_deck: Deck::all_cards(),
            num_hole_cards_per_player,
        };
        proof {
            assert(g@.hands =~= Seq::<Set<(Rank, Suit)>>::empty());
            assert(g@.community() =~= Set::<(Rank, Suit)>::empty());
        }
        g
    }

    /// A copy of the game.
    fn snapshot(&self) -> (res: Self)
        ensures
            res@ == self@,
    {
        proof {
            use_type_invariant(self);
        }
        let mut hole_cards: Vec<Deck> = Vec::new();
        let mut i: usize = 0;
        while i < self.hole_cards.len()
            invariant
                0 <= i <= self.hole_cards.len(),
                hole_cards@ == self.hole_cards@.take(i as int),
            decreases self.hole_cards.len() - i,
        {
            hole_cards.push(self.hole_cards[i]);
            proof {
                assert(self.hole_cards@.take(i + 1) =~= self.hole_cards@.take(i as int).push(
                    self.hole_cards@[i as int],
                ));
            }
            i = i + 1;
        }
        proof {
            assert(self.hole_cards@.take(i as int) =~= self.hole_cards@);
        }
        Self {
            hole_cards,
            flop: self.flop,
            turn: self.turn,
            river: self.river,
            remaining_cards_in_deck: self.remaining_cards_in_deck,
            num_hole_cards_per_player: self.num_hole_cards_per_player,
        }
    }
}

/// A game dealt with a flop, a turn and a river.
pub trait FlopGame {
    /// The ways the game can end, one at a time.
    type FinalStates;

    fn get_community_cards(&self) -> Deck;

    fn add_player(&mut self, cards: Deck) -> Result<(), String>;

    fn set_flop(&mut self, cards: Deck) -> Result<(), String>;

    fn set_turn(&mut self, card: Card) -> Result<(), String>;

    fn set_river(&mut self, card: Card) -> Result<(), String>;

    fn get_player_hole_cards(&self) -> &[Deck];

    fn get_final_states(&self) -> Self::FinalStates;
}

impl FlopGame for FlopGameState {
    type FinalStates = FlopGameStateIterator;

    /// Seats a player with `cards`, taken from the deck; fails, changing nothing, when
    /// they are not as many as each player gets, or not all in the deck.
    fn add_player(&mut self, cards: Deck) -> (res: Result<(), String>)
        ensures
            old(self)@.per_player != cards@.len() ==> (res matches Err(e) && e@
                == "Incorrect number of cards"@ && final(self)@ == old(self)@),
            old(self)@.per_player == cards@.len() && !cards@.subset_of(old(self)@.deck) ==> (res matches Err(
                e,
            ) && e@ == "Cards not in deck"@ && final(self)@ == old(self)@),
            old(self)@.per_player == cards@.len() && cards@.subset_of(old(self)@.deck) ==> res is Ok
                && final(self)@ == player_joined(old(self)@, cards@),
            game_wf(final(self)@),
    {
        proof {
            use_type_invariant(&*self);
        }
        if cards.num_cards() != self.num_hole_cards_per_player {
            return Err("Incorrect number of cards".to_owned());
        }
        if !self.remaining_cards_in_deck.has_cards(&cards) {
            return Err("Cards not in deck".to_owned());
        }
        let ghost before = self@;
        let remaining = self.remaining_cards_in_deck - cards;
        self.remaining_cards_in_deck = remaining;
        let mut hole_cards: Vec<Deck> = Vec::new();
        std::mem::swap(&mut hole_cards, &mut self.hole_cards);
        hole_cards.push(cards);
        proof {
            lemma_join_wf(before, cards@);
            assert(hole_cards@.map_values(|d: Deck| d@) =~= before.hands.push(cards@));
        }
        self.hole_cards = hole_cards;
        proof {
            assert(self@.hands =~= before.hands.push(cards@));
            assert(self@ == player_joined(before, cards@));
        }
        Ok(())
    }

    /// Deals the three `cards` as the flop, from the deck; fails, changing nothing, when
    /// they are not three or not all in the deck.
    fn set_flop(&mut self, cards: Deck) -> (res: Result<(), String>)
        ensures
            cards@.len() != 3 ==> (res matches Err(e) && e@ == "Incorrect number of cards"@
                && final(self)@ == old(self)@),
            cards@.len() == 3 && !cards@.subset_of(old(self)@.deck) ==> (res matches Err(e) && e@
                == "Cards not in deck"@ && final(self)@ == old(self)@),
            cards@.len() == 3 && cards@.subset_of(old(self)@.deck) ==> res is Ok && final(self)@
                == flop_dealt(old(self)@, cards@),
            game_wf(final(self)@),
    {
        proof {
            use_type_invariant(&*self);
        }
        if cards.num_cards() != 3 {
            return Err("Incorrect number of cards".to_owned());
        }
        if !self.remaining_cards_in_deck.has_cards(&cards) {
            return Err("Cards not in deck".to_owned());
        }
        let ghost before = self@;
        let remaining = self.remaining_cards_in_deck - cards;
        self.remaining_cards_in_deck = remaining;
        self.flop = cards;
        proof {
            assert(self@.hands =~= before.hands);
        }
        Ok(())
    }

    /// Deals `card` as the turn, from the deck; fails, changing nothing, when the deck
    /// does not hold it.
    fn set_turn(&mut self, card: Card) -> (res: Result<(), String>)
        ensures
            !old(self)@.deck.contains(card@) ==> (res matches Err(e) && e@ == "Card is not in deck"@
                && final(self)@ == old(self)@),
            old(self)@.deck.contains(card@) ==> res is Ok && final(self)@ == turn_dealt(
                old(self)@,
                card@,
            ),
            game_wf(final(self)@),
    {
        proof {
            use_type_invariant(&*self);
        }
        if !self.remaining_cards_in_deck.has_card(&card) {
            return Err("Card is not in deck".to_owned());
        }
        let ghost before = self@;
        let mut remaining = self.remaining_cards_in_deck;
        let dealt = [card];
        proof {
            assert(dealt@ =~= seq![card]);
        }
        remaining.remove_cards(&dealt);
        proof {
            lemma_one_card_views(card);
            assert(remaining@ =~= toggle_card(before.deck, card@));
        }
        self.remaining_cards_in_deck = remaining;
        self.turn = Some(card);
        proof {
            assert(self@.hands =~= before.hands);
        }
        Ok(())
    }

    /// Deals `card` as the river, from the deck; fails, changing nothing, when the deck
    /// does not hold it.
    fn set_river(&mut self, card: Card) -> (res: Result<(), String>)
        ensures
            !old(self)@.deck.contains(card@) ==> (res matches Err(e) && e@ == "Card is not in deck"@
                && final(self)@ == old(self)@),
            old(self)@.deck.contains(card@) ==> res is Ok && final(self)@ == river_dealt(
                old(self)@,
                card@,
            ),
            game_wf(final(self)@),
    {
        proof {
            use_type_invariant(&*self);
        }
        if !self.remaining_cards_in_deck.has_card(&card) {
            return Err("Card is not in deck".to_owned());
        }
        let ghost before = self@;
        let mut remaining = self.remaining_cards_in_deck;
        let dealt = [card];
        proof {
            assert(dealt@ =~= seq![card]);
        }
        remaining.remove_cards(&dealt);
        proof {
            lemma_one_card_views(card);
            assert(remaining@ =~= toggle_card(before.deck, card@));
        }
        self.remaining_cards_in_deck = remaining;
        self.river = Some(card);
        proof {
            assert(self@.hands =~= before.hands);
        }
        Ok(())
    }

    /// The community cards dealt so far.
    fn get_community_cards(&self) -> (res: Deck)
        ensures
            res@ == self@.community(),
            game_wf(self@),
    {
        proof {
            use_type_invariant(self);
        }
        let mut cards = self.flop;
        let mut other_cards: Vec<Card> = Vec::new();
        if let Some(turn) = self.turn {
            other_cards.push(turn);
        }
        proof {
            assert(card_views(other_cards@).to_set() =~= option_cards(card_option(self.turn))) by {
                if let Some(t) = self.turn {
                    assert(card_views(other_cards@) =~= Seq::<(Rank, Suit)>::empty().push(t@));
                    lemma_push_to_set(Seq::<(Rank, Suit)>::empty(), t@);
                    assert(Seq::<(Rank, Suit)>::empty().to_set() =~= Set::<(Rank, Suit)>::empty());
                } else {
                    assert(card_views(other_cards@) =~= Seq::<(Rank, Suit)>::empty());
                }
            }
        }
        let ghost first = other_cards@;
        if let Some(river) = self.river {
            other_cards.push(river);
            proof {
                assert(card_views(other_cards@) =~= card_views(first).push(river@));
                lemma_push_to_set(card_views(first), river@);
            }
        }
        cards.insert_cards(other_cards.as_slice());
        proof {
            let t = option_cards(card_option(self.turn));
            let r = option_cards(card_option(self.river));
            assert(card_views(other_cards@).to_set() =~= t.union(r));
            assert(cards@ =~= self@.flop.union(t.union(r)));
            assert(cards@ =~= self@.community());
        }
        cards
    }

    /// Each player's hole cards, in the order the players joined.
    fn get_player_hole_cards(&self) -> (res: &[Deck])
        ensures
            res@.map_values(|d: Deck| d@) == self@.hands,
            game_wf(self@),
    {
        proof {
            use_type_invariant(self);
        }
        self.hole_cards.as_slice()
    }

    /// Every way the game can end, one at a time, in the order `final_states`.
    fn get_final_states(&self) -> (it: FlopGameStateIterator)
        ensures
            it.remaining() == final_states(self@),
    {
        proof {
            use_type_invariant(self);
        }
        if self.flop.is_empty() {
            let flop_iterator = FlopIterator::new(self.snapshot());
            let it = FlopGameStateIterator {
                flop: Some(flop_iterator),
                turn: None,
                river: None,
                complete: None,
            };
            proof {
                lemma_cards_finite(self@.flop);
                assert(it.remaining() =~= final_states(self@));
            }
            it
        } else if self.turn.is_none() {
            let turn_iterator = TurnIterator::new(self.snapshot());
            let it = FlopGameStateIterator {
                flop: None,
                turn: Some(turn_iterator),
                river: None,
                complete: None,
            };
            proof {
                lemma_cards_finite(self@.flop);
                assert(it.remaining() =~= final_states(self@));
            }
            it
        } else if self.river.is_none() {
            let river_iterator = RiverIterator::new(self.snapshot());
            let it = FlopGameStateIterator {
                flop: None,
                turn: None,
                river: Some(river_iterator),
                complete: None,
            };
            proof {
                lemma_cards_finite(self@.flop);
                assert(it.remaining() =~= final_states(self@));
            }
            it
        } else {
            let it = FlopGameStateIterator {
                flop: None,
                turn: None,
                river: None,
                complete: Some(self.snapshot()),
            };
            proof {
                lemma_cards_finite(self@.flop);
                assert(it.remaining() =~= final_states(self@));
            }
            it
        }
    }
}

/// An iterator over no cards.
fn no_cards() -> (it: DeckCardIterator)
    ensures
        it.remaining().len() == 0,
{
    let empty = Deck::empty();
    let it = empty.iter(true);
    proof {
        empty.lemma_ordered(true);
    }
    it
}

/// An iterator over no choices of cards.
fn no_choices() -> (it: DeckIterator)
    ensures
        it.remaining().len() == 0,
{
    let empty = Deck::empty();
    let it = empty.enumerate_combinations(3);
    proof {
        assert(lex_combinations(0, 3).len() == 0);
    }
    it
}

/// The games that remain, for an iterator that may be absent.
pub open spec fn river_rest(it: Option<RiverIterator>) -> Seq<GameView> {
    match it {
        Some(r) => r.remaining(),
        None => Seq::empty(),
    }
}

/// Deals each card left in the deck as the river.
pub struct RiverIterator {
    base_state: FlopGameState,
    river_iterator: DeckCardIterator,
}

impl RiverIterator {
    #[verifier::type_invariant]
    closed spec fn wf(self) -> bool {
        forall|i: int|
            0 <= i < self.river_iterator.remaining().len() ==> self.base_state@.deck.contains(
                #[trigger] self.river_iterator.remaining()[i],
            )
    }

    /// The games still to come, in order.
    pub closed spec fn remaining(self) -> Seq<GameView> {
        self.river_iterator.remaining().map_values(|c: (Rank, Suit)| river_dealt(self.base_state@, c))
    }

    fn new(state: FlopGameState) -> (it: Self)
        ensures
            it.remaining() == river_runouts(state@),
    {
        let river_iterator = state.remaining_cards_in_deck.iter(true);
        proof {
            state.remaining_cards_in_deck.lemma_ordered_set(true);
            lemma_set_in_order(state@.deck, true);
            assert forall|i: int| 0 <= i < river_iterator.remaining().len() implies state@.deck.contains(
                #[trigger] river_iterator.remaining()[i],
            ) by {
                assert(set_in_order(state@.deck, true).to_set().contains(river_iterator.remaining()[i]));
            }
        }
        let it = RiverIterator { base_state: state, river_iterator };
        proof {
            assert(it.remaining() =~= river_runouts(state@));
        }
        it
    }

    /// The next game, or `None` when every river has been dealt.
    pub fn next(&mut self) -> (res: Option<FlopGameState>)
        ensures
            old(self).remaining().len() == 0 ==> res is None && final(self).remaining() == old(
                self,
            ).remaining(),
            old(self).remaining().len() > 0 ==> (res matches Some(s) && s@ == old(
                self,
            ).remaining()[0] && final(self).remaining() == old(self).remaining().drop_first()),
    {
        proof {
            use_type_invariant(&*self);
        }
        let ghost start = self.remaining();
        let mut new_state = self.base_state.snapshot();
        let mut cards = no_cards();
        std::mem::swap(&mut cards, &mut self.river_iterator);
        let next = cards.next();
        self.river_iterator = cards;
        match next {
            Some(river) => {
                proof {
                    assert(self.base_state@.deck.contains(old(self).river_iterator.remaining()[0]));
                }
                new_state.set_river(river).unwrap();
                proof {
                    assert(start.drop_first() =~= self.remaining());
                }
                Some(new_state)
            },
            None => None,
        }
    }
}

/// The games that remain after each turn still to come.
pub open spec fn turn_rest(base: GameView, cards: Seq<(Rank, Suit)>) -> Seq<GameView> {
    cards.map_values(|c: (Rank, Suit)| river_runouts(turn_dealt(base, c))).flatten()
}

/// Deals each card left in the deck as the turn, then each river after it.
pub struct TurnIterator {
    base_state: FlopGameState,
    turn_iterator: DeckCardIterator,
    river_iterator: Option<RiverIterator>,
}

impl TurnIterator {
    #[verifier::type_invariant]
    closed spec fn wf(self) -> bool {
        forall|i: int|
            0 <= i < self.turn_iterator.remaining().len() ==> self.base_state@.deck.contains(
                #[trigger] self.turn_iterator.remaining()[i],
            )
    }

    /// The games still to come, in order.
    pub closed spec fn remaining(self) -> Seq<GameView> {
        river_rest(self.river_iterator) + turn_rest(self.base_state@, self.turn_iterator.remaining())
    }

    fn new(state: FlopGameState) -> (it: Self)
        ensures
            it.remaining() == turn_runouts(state@),
    {
        let turn_iterator = state.remaining_cards_in_deck.iter(true);
        proof {
            state.remaining_cards_in_deck.lemma_ordered_set(true);
            lemma_set_in_order(state@.deck, true);
            assert forall|i: int| 0 <= i < turn_iterator.remaining().len() implies state@.deck.contains(
                #[trigger] turn_iterator.remaining()[i],
            ) by {
                assert(set_in_order(state@.deck, true).to_set().contains(turn_iterator.remaining()[i]));
            }
        }
        let it = TurnIterator { base_state: state, turn_iterator, river_iterator: None };
        proof {
            assert(it.remaining() =~= turn_runouts(state@));
        }
        it
    }

    /// The next game, or `None` when every turn and river has been dealt.
    pub fn next(&mut self) -> (res: Option<FlopGameState>)
        ensures
            old(self).remaining().len() == 0 ==> res is None && final(self).remaining() == old(
                self,
            ).remaining(),
            old(self).remaining().len() > 0 ==> (res matches Some(s) && s@ == old(
                self,
            ).remaining()[0] && final(self).remaining() == old(self).remaining().drop_first()),
    {
        let ghost start = self.remaining();
        loop
            invariant
                self.remaining() == start,
                start == old(self).remaining(),
            decreases self.turn_iterator.remaining().len(), if self.river_iterator is Some {
                1int
            } else {
                0int
            },
        {
            proof {
                use_type_invariant(&*self);
            }
            let ghost base = self.base_state@;
            let ghost cards = self.turn_iterator.remaining();
            let mut current: Option<RiverIterator> = None;
            std::mem::swap(&mut current, &mut self.river_iterator);
            match current {
                Some(mut river_iterator) => {
                    let ghost rs = river_iterator.remaining();
                    match river_iterator.next() {
                        Some(state) => {
                            self.river_iterator = Some(river_iterator);
                            proof {
                                assert(start == rs + turn_rest(base, cards));
                                assert(start.drop_first() =~= self.remaining());
                            }
                            return Some(state);
                        },
                        None => {
                            proof {
                                assert(self.remaining() =~= start);
                            }
                        },
                    }
                },
                None => {
                    let mut turns = no_cards();
                    std::mem::swap(&mut turns, &mut self.turn_iterator);
                    let next = turns.next();
                    self.turn_iterator = turns;
                    match next {
                        Some(turn) => {
                            proof {
                                assert(base.deck.contains(cards[0]));
                            }
                            let mut game_state = self.base_state.snapshot();
                            game_state.set_turn(turn).unwrap();
                            let river_iterator = RiverIterator::new(game_state);
                            self.river_iterator = Some(river_iterator);
                            proof {
                                let f = |c: (Rank, Suit)| river_runouts(turn_dealt(base, c));
                                assert(cards.map_values(f).drop_first() =~= cards.drop_first().map_values(f));
                                assert(self.remaining() =~= start);
                            }
                        },
                        None => {
                            proof {
                                assert(start =~= Seq::<GameView>::empty());
                            }
                            return None;
                        },
                    }
                },
            }
        }
    }
}

/// The games that remain after each flop still to come.
pub open spec fn flop_rest(base: GameView, flops: Seq<Set<(Rank, Suit)>>) -> Seq<GameView> {
    flops.map_values(|f: Set<(Rank, Suit)>| turn_runouts(flop_dealt(base, f))).flatten()
}

/// The games that remain, for an iterator that may be absent.
pub open spec fn turn_iter_rest(it: Option<TurnIterator>) -> Seq<GameView> {
    match it {
        Some(t) => t.remaining(),
        None => Seq::empty(),
    }
}

/// Deals each choice of three cards of the deck as the flop, then each turn and river
/// after it.
pub struct FlopIterator {
    base_state: FlopGameState,
    flop_iterator: DeckIterator,
    turn_iterator: Option<TurnIterator>,
}

impl FlopIterator {
    #[verifier::type_invariant]
    closed spec fn wf(self) -> bool {
        forall|i: int|
            0 <= i < self.flop_iterator.remaining().len() ==> (#[trigger] self.flop_iterator.remaining()[i]).subset_of(
                self.base_state@.deck,
            ) && self.flop_iterator.remaining()[i].len() == 3
    }

    /// The games still to come, in order.
    pub closed spec fn remaining(self) -> Seq<GameView> {
        turn_iter_rest(self.turn_iterator) + flop_rest(self.base_state@, self.flop_iterator.remaining())
    }

    fn new(state: FlopGameState) -> (it: Self)
        ensures
            it.remaining() == flop_runouts(state@),
    {
        let flop_iterator = state.remaining_cards_in_deck.enumerate_combinations(3);
        let ghost g = state@;
        let ghost deck = state.remaining_cards_in_deck;
        proof {
            deck.lemma_ordered_set(true);
            lemma_set_in_order(g.deck, true);
            lemma_combinations_from(g.deck.len(), 3, 0);
            let combos = lex_combinations(g.deck.len(), 3);
            assert forall|i: int| 0 <= i < combos.len() implies #[trigger] combo_cards(deck, combos[i])
                == combo_of(g.deck, combos[i]) by {
            }
            assert forall|i: int| 0 <= i < flop_iterator.remaining().len() implies (
            #[trigger] flop_iterator.remaining()[i]).subset_of(g.deck)
                && flop_iterator.remaining()[i].len() == 3 by {
                assert(flop_iterator.remaining()[i] == combo_cards(deck, combos[i]));
                lemma_combo_of(g.deck, combos[i]);
            }
            assert(flop_iterator.remaining() =~= combos.map_values(|c: Seq<usize>| combo_of(g.deck, c)));
        }
        let it = FlopIterator { base_state: state, flop_iterator, turn_iterator: None };
        proof {
            let combos = lex_combinations(g.deck.len(), 3);
            assert(combos.map_values(|c: Seq<usize>| combo_of(g.deck, c)).map_values(
                |f: Set<(Rank, Suit)>| turn_runouts(flop_dealt(g, f)),
            ) =~= combos.map_values(|c: Seq<usize>| turn_runouts(flop_choice(g, c))));
            assert(it.remaining() =~= flop_runouts(g));
        }
        it
    }

    /// The next game, or `None` when every flop, turn and river has been dealt.
    pub fn next(&mut self) -> (res: Option<FlopGameState>)
        ensures
            old(self).remaining().len() == 0 ==> res is None && final(self).remaining() == old(
                self,
            ).remaining(),
            old(self).remaining().len() > 0 ==> (res matches Some(s) && s@ == old(
                self,
            ).remaining()[0] && final(self).remaining() == old(self).remaining().drop_first()),
    {
        let ghost start = self.remaining();
        loop
            invariant
                self.remaining() == start,
                start == old(self).remaining(),
            decreases self.flop_iterator.remaining().len(), if self.turn_iterator is Some {
                1int
            } else {
                0int
            },
        {
            proof {
                use_type_invariant(&*self);
            }
            let ghost base = self.base_state@;
            let ghost flops = self.flop_iterator.remaining();
            let mut current: Option<TurnIterator> = None;
            std::mem::swap(&mut current, &mut self.turn_iterator);
            match current {
                Some(mut turn_iterator) => {
                    let ghost ts = turn_iterator.remaining();
                    match turn_iterator.next() {
                        Some(state) => {
                            self.turn_iterator = Some(turn_iterator);
                            proof {
                                assert(start == ts + flop_rest(base, flops));
                                assert(start.drop_first() =~= self.remaining());
                            }
                            return Some(state);
                        },
                        None => {
                            proof {
                                assert(self.remaining() =~= start);
                            }
                        },
                    }
                },
                None => {
                    let mut choices = no_choices();
                    std::mem::swap(&mut choices, &mut self.flop_iterator);
                    let next = choices.next();
                    self.flop_iterator = choices;
                    match next {
                        Some(flop) => {
                            proof {
                                assert(flops[0].subset_of(base.deck) && flops[0].len() == 3);
                            }
                            let mut game_state = self.base_state.snapshot();
                            game_state.set_flop(flop).unwrap();
                            let turn_iterator = TurnIterator::new(game_state);
                            self.turn_iterator = Some(turn_iterator);
                            proof {
                                let f = |fl: Set<(Rank, Suit)>| turn_runouts(flop_dealt(base, fl));
                                assert(flops.map_values(f).drop_first() =~= flops.drop_first().map_values(f));
                                assert(self.remaining() =~= start);
                            }
                        },
                        None => {
                            proof {
                                assert(start =~= Seq::<GameView>::empty());
                            }
                            return None;
                        },
                    }
                },
            }
        }
    }
}

/// Gives every way a game can end, one at a time.
pub struct FlopGameStateIterator {
    flop: Option<FlopIterator>,
    turn: Option<TurnIterator>,
    river: Option<RiverIterator>,
    complete: Option<FlopGameState>,
}

impl FlopGameStateIterator {
    #[verifier::type_invariant]
    closed spec fn wf(self) -> bool {
        (if self.flop is Some { 1int } else { 0int }) + (if self.turn is Some { 1int } else { 0int })
            + (if self.river is Some { 1int } else { 0int }) + (if self.complete is Some { 1int } else { 0int }) <= 1
    }

    /// The games still to come, in order.
    pub closed spec fn remaining(self) -> Seq<GameView> {
        match self.flop {
            Some(f) => f.remaining(),
            None => match self.turn {
                Some(t) => t.remaining(),
                None => match self.river {
                    Some(r) => r.remaining(),
                    None => match self.complete {
                        Some(g) => seq![g@],
                        None => Seq::empty(),
                    },
                },
            },
        }
    }

    /// An iterator with no games to give.
    pub(crate) fn empty() -> (it: Self)
        ensures
            it.remaining() == Seq::<GameView>::empty(),
    {
        FlopGameStateIterator { flop: None, turn: None, river: None, complete: None }
    }

    /// The next way the game can end, or `None` when every one has come.
    pub fn next(&mut self) -> (res: Option<FlopGameState>)
        ensures
            old(self).remaining().len() == 0 ==> res is None && final(self).remaining() == old(
                self,
            ).remaining(),
            old(self).remaining().len() > 0 ==> (res matches Some(s) && s@ == old(
                self,
            ).remaining()[0] && final(self).remaining() == old(self).remaining().drop_first()),
            res matches Some(s) ==> game_wf(s@),
    {
        let res = self.next_state();
        if let Some(s) = &res {
            proof {
                use_type_invariant(s);
            }
        }
        res
    }

    fn next_state(&mut self) -> (res: Option<FlopGameState>)
        ensures
            old(self).remaining().len() == 0 ==> res is None && final(self).remaining() == old(
                self,
            ).remaining(),
            old(self).remaining().len() > 0 ==> (res matches Some(s) && s@ == old(
                self,
            ).remaining()[0] && final(self).remaining() == old(self).remaining().drop_first()),
    {
        proof {
            use_type_invariant(&*self);
        }
        let ghost start = self.remaining();
        let mut flop: Option<FlopIterator> = None;
        std::mem::swap(&mut flop, &mut self.flop);
        if let Some(mut iterator) = flop {
            let res = iterator.next();
            self.flop = Some(iterator);
            return res;
        }
        let mut turn: Option<TurnIterator> = None;
        std::mem::swap(&mut turn, &mut self.turn);
        if let Some(mut iterator) = turn {
            let res = iterator.next();
            self.turn = Some(iterator);
            return res;
        }
        let mut river: Option<RiverIterator> = None;
        std::mem::swap(&mut river, &mut self.river);
        if let Some(mut iterator) = river {
            let res = iterator.next();
            self.river = Some(iterator);
            return res;
        }
        let mut complete: Option<FlopGameState> = None;
        std::mem::swap(&mut complete, &mut self.complete);
        if let Some(game_state) = complete {
            proof {
                assert(start.drop_first() =~= Seq::<GameView>::empty());
            }
            return Some(game_state);
        }
        None
    }
}

/// Whether a game has its flop, turn and river dealt.
pub open spec fn is_complete(g: GameView) -> bool {
    g.flop.len() == 3 && g.turn is Some && g.river is Some
}

/// Each way the river can come keeps the hands, flop and turn, and deals a river.
proof fn lemma_river_runouts(g: GameView)
    ensures
        forall|k: int|
            0 <= k < river_runouts(g).len() ==> {
                let r = #[trigger] river_runouts(g)[k];
                r.hands == g.hands && r.flop == g.flop && r.turn == g.turn && r.river is Some
                    && r.per_player == g.per_player
            },
{
}

/// Each way the turn and river can come keeps the hands and flop, and deals a turn and
/// a river.
proof fn lemma_turn_runouts(g: GameView)
    ensures
        forall|k: int|
            0 <= k < turn_runouts(g).len() ==> {
                let r = #[trigger] turn_runouts(g)[k];
                r.hands == g.hands && r.flop == g.flop && r.turn is Some && r.river is Some
                    && r.per_player == g.per_player
            },
{
    let cs = set_in_order(g.deck, true);
    let s = cs.map_values(|c: (Rank, Suit)| river_runouts(turn_dealt(g, c)));
    let p = |r: GameView| r.hands == g.hands && r.flop == g.flop && r.turn is Some && r.river is Some
        && r.per_player == g.per_player;
    assert forall|i: int, j: int| 0 <= i < s.len() && 0 <= j < s[i].len() implies p(#[trigger] s[i][j]) by {
        lemma_river_runouts(turn_dealt(g, cs[i]));
        assert(s[i] == river_runouts(turn_dealt(g, cs[i])));
    }
    crate::games::lemma_flatten_forall(s, p);
    assert forall|k: int| 0 <= k < turn_runouts(g).len() implies p(#[trigger] turn_runouts(g)[k]) by {
        assert(turn_runouts(g) == s.flatten());
    }
}

/// Every way a game can end has the players' hands of the game, as many hole cards per
/// player, and its flop, turn and river dealt.
pub proof fn lemma_final_states_complete(g: GameView)
    requires
        game_wf(g),
    ensures
        forall|k: int|
            0 <= k < final_states(g).len() ==> (#[trigger] final_states(g)[k]).hands == g.hands
                && is_complete(final_states(g)[k]) && final_states(g)[k].per_player == g.per_player,
{
    lemma_cards_finite(g.flop);
    lemma_cards_finite(g.deck);
    let p = |r: GameView| r.hands == g.hands && is_complete(r) && r.per_player == g.per_player;
    if g.flop.len() == 0 {
        let combos = lex_combinations(g.deck.len(), 3);
        let s = combos.map_values(|c: Seq<usize>| turn_runouts(flop_choice(g, c)));
        lemma_combinations_from(g.deck.len(), 3, 0);
        assert forall|i: int, j: int| 0 <= i < s.len() && 0 <= j < s[i].len() implies p(
            #[trigger] s[i][j],
        ) by {
            lemma_combo_of(g.deck, combos[i]);
            lemma_turn_runouts(flop_choice(g, combos[i]));
            assert(s[i] == turn_runouts(flop_choice(g, combos[i])));
        }
        crate::games::lemma_flatten_forall(s, p);
        assert forall|k: int| 0 <= k < final_states(g).len() implies p(#[trigger] final_states(g)[k]) by {
            assert(final_states(g) == s.flatten());
        }
    } else if g.turn is None {
        lemma_turn_runouts(g);
    } else if g.river is None {
        lemma_river_runouts(g);
    }
}

/// A game can end in at most 52 to the power five ways.
pub proof fn lemma_final_states_count(g: GameView)
    ensures
        final_states(g).len() <= 380204032,
{
    lemma_cards_finite(g.flop);
    lemma_cards_finite(g.deck);
    if g.flop.len() == 0 {
        let n = g.deck.len();
        let combos = lex_combinations(n, 3);
        let s = combos.map_values(|c: Seq<usize>| turn_runouts(flop_choice(g, c)));
        lemma_combinations_count(n, 3, 0);
        lemma_power_mono(n, 52, 3);
        assert(power(52, 0) == 1);
        assert(power(52, 1) == 52);
        assert(power(52, 2) == 2704);
        assert(power(52, 3) == 140608);
        assert forall|i: int| 0 <= i < s.len() implies (#[trigger] s[i]).len() <= 2704 by {
            lemma_turn_runouts_count(flop_choice(g, combos[i]));
        }
        s.lemma_flatten_length_le_mul(2704);
        s.lemma_flatten_and_flatten_alt_are_equivalent();
        assert(s.len() * 2704 <= 380204032) by (nonlinear_arith)
            requires
                s.len() <= 140608,
        ;
    } else if g.turn is None {
        lemma_turn_runouts_count(g);
    } else if g.river is None {
        lemma_set_in_order(g.deck, true);
    }
}

proof fn lemma_turn_runouts_count(g: GameView)
    ensures
        turn_runouts(g).len() <= 2704,
{
    lemma_cards_finite(g.deck);
    lemma_set_in_order(g.deck, true);
    let cs = set_in_order(g.deck, true);
    let s = cs.map_values(|c: (Rank, Suit)| river_runouts(turn_dealt(g, c)));
    assert forall|i: int| 0 <= i < s.len() implies (#[trigger] s[i]).len() <= 52 by {
        lemma_cards_finite(turn_dealt(g, cs[i]).deck);
        lemma_set_in_order(turn_dealt(g, cs[i]).deck, true);
    }
    s.lemma_flatten_length_le_mul(52);
    s.lemma_flatten_and_flatten_alt_are_equivalent();
    assert(s.len() * 52 <= 2704) by (nonlinear_arith)
        requires
            s.len() <= 52,
    ;
}

/// Joining sequences that each hold `m` elements gives `m` elements per sequence.
proof fn lemma_flatten_uniform<A>(s: Seq<Seq<A>>, m: nat)
    requires
        forall|i: int| 0 <= i < s.len() ==> (#[trigger] s[i]).len() == m,
    ensures
        s.flatten().len() == s.len() * m,
    decreases s.len(),
{
    if s.len() > 0 {
        lemma_flatten_uniform(s.drop_first(), m);
        assert(s.first().len() == m);
        assert(m + (s.len() - 1) * m == s.len() * m) by (nonlinear_arith);
    }
}

/// The number of ways a game can end, with `d` cards left in the deck: one way once the
/// river is dealt, `d` rivers after the turn, `d * (d - 1)` turns and rivers after the
/// flop, and before the flop `binomial(d, 3)` flops, each followed by `(d - 3) * (d - 4)`
/// turns and rivers.
pub proof fn lemma_final_states_len(g: GameView)
    ensures
        final_states(g).len() == ({
            let d = g.deck.len() as int;
            if g.flop.len() == 0 {
                binomial(g.deck.len(), 3) * (d - 3) * (d - 4)
            } else if g.turn is None {
                d * (d - 1)
            } else if g.river is None {
                d
            } else {
                1
            }
        }),
{
    lemma_cards_finite(g.deck);
    let d = g.deck.len() as int;
    if g.flop.len() == 0 {
        let combos = lex_combinations(g.deck.len(), 3);
        let s = combos.map_values(|c: Seq<usize>| turn_runouts(flop_choice(g, c)));
        lemma_lex_combinations_len(g.deck.len(), 3);
        lemma_combinations_from(g.deck.len(), 3, 0);
        assert(final_states(g) == s.flatten());
        if d >= 3 {
            let m = ((d - 3) * (d - 4)) as nat;
            assert((d - 3) * (d - 4) >= 0) by (nonlinear_arith)
                requires
                    d >= 3,
            ;
            assert forall|i: int| 0 <= i < s.len() implies (#[trigger] s[i]).len() == m by {
                let c = combos[i];
                lemma_combo_of(g.deck, c);
                let f = flop_choice(g, c);
                lemma_cards_finite(f.deck);
                assert(f.deck.len() == d - 3) by {
                    vstd::set_lib::lemma_set_difference_len(g.deck, combo_of(g.deck, c));
                    assert(g.deck.intersect(combo_of(g.deck, c)) =~= combo_of(g.deck, c));
                }
                lemma_turn_runouts_len(f);
            }
            lemma_flatten_uniform(s, m);
            assert(s.len() * m == binomial(g.deck.len(), 3) * (d - 3) * (d - 4)) by (nonlinear_arith)
                requires
                    m == (d - 3) * (d - 4),
                    s.len() == binomial(g.deck.len(), 3),
            ;
        } else {
            lemma_binomial_small(g.deck.len(), 3);
            assert(s.len() == 0);
            assert(s.flatten() =~= Seq::<GameView>::empty());
            assert(binomial(g.deck.len(), 3) * (d - 3) * (d - 4) == 0) by (nonlinear_arith)
                requires
                    binomial(g.deck.len(), 3) == 0,
            ;
        }
    } else if g.turn is None {
        lemma_turn_runouts_len(g);
    } else if g.river is None {
        lemma_set_in_order(g.deck, true);
        assert(final_states(g).len() == d);
    }
}

/// After the flop, with `d` cards left, the turn and river can come in `d * (d - 1)`
/// ways.
proof fn lemma_turn_runouts_len(g: GameView)
    ensures
        turn_runouts(g).len() == g.deck.len() * (g.deck.len() - 1),
{
    lemma_cards_finite(g.deck);
    lemma_set_in_order(g.deck, true);
    let d = g.deck.len() as int;
    let cs = set_in_order(g.deck, true);
    let s = cs.map_values(|c: (Rank, Suit)| river_runouts(turn_dealt(g, c)));
    if d == 0 {
        assert(s.flatten() =~= Seq::<GameView>::empty());
    } else {
        let m = (d - 1) as nat;
        assert forall|i: int| 0 <= i < s.len() implies (#[trigger] s[i]).len() == m by {
            assert(cs.to_set().contains(cs[i]));
            let t = turn_dealt(g, cs[i]);
            lemma_cards_finite(t.deck);
            lemma_set_in_order(t.deck, true);
        }
        lemma_flatten_uniform(s, m);
    }
}

/// The community of a complete game holds five cards.
pub proof fn lemma_complete_community(g: GameView)
    requires
        game_wf(g),
        is_complete(g),
    ensures
        g.community().len() == 5,
        g.community().finite(),
{
    let t = g.turn.unwrap();
    let r = g.river.unwrap();
    lemma_cards_finite(g.flop);
    assert(g.flop.union(option_cards(g.turn)) =~= g.flop.insert(t));
    assert(g.community() =~= g.flop.insert(t).insert(r));
}

} // verus!
