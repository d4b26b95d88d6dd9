use vstd::prelude::*;
use numerica::combinatorics::CombinationIterator;
use crate::deck::card::Card;
use crate::deck::{card_name, card_names, suit_rank_sets, toggle_card, toggle_cards, Rank, Suit};
use crate::deck::bits::{
    all_cards_set, card_order_ascending, lemma_card_order_ascending, lemma_cards_finite,
    lemma_filter_no_dup, lemma_filter_to_set, lemma_push_to_set, lemma_rank_from_index,
    lemma_suit_from_index,
};
use crate::deck::combinations::{
    combination_iter_new, combination_iter_next, combinations_remaining, lemma_combinations_from,
    lex_combinations,
};
use crate::deck::rank::rank_at;
use crate::deck::rank_bits::{
    best_straight, combined_ranks, first_pattern_from, lemma_rank_bits_popcount, lemma_straight_pattern,
    pattern_at, rank_bits_wf, rank_count, ranks_of_bits, top_ranks, highest_with_count,
};
use crate::deck::suit::suit_at;
use crate::ranking::standard_hand_ranker::RankOrder;

verus! {

/// The cards of a sequence of cards.
pub open spec fn card_pairs(cards: Seq<Card>) -> Seq<(Rank, Suit)> {
    cards.map_values(|c: Card| c@)
}

/// The cards of a set suit by suit (clubs, diamonds, hearts, spades), each from Two up.
pub open spec fn set_ascending(s: Set<(Rank, Suit)>) -> Seq<(Rank, Suit)> {
    card_order_ascending().filter(|c: (Rank, Suit)| s.contains(c))
}

/// The 52 cards rank by rank from Two up, each rank in the suit order clubs, diamonds,
/// hearts, spades.
pub open spec fn card_order_by_rank() -> Seq<(Rank, Suit)> {
    Seq::new(52, |i: int| (Rank::from_index(i / 4), Suit::from_index(i % 4)))
}

/// The cards of a set rank by rank from Two up.
pub open spec fn set_by_rank(s: Set<(Rank, Suit)>) -> Seq<(Rank, Suit)> {
    card_order_by_rank().filter(|c: (Rank, Suit)| s.contains(c))
}

/// The ascending order lists each card of a set once.
pub proof fn lemma_set_ascending(s: Set<(Rank, Suit)>)
    ensures
        set_ascending(s).no_duplicates(),
        set_ascending(s).to_set() == s,
        set_ascending(s).len() == s.len(),
        s.finite(),
{
    let p = |c: (Rank, Suit)| s.contains(c);
    lemma_card_order_ascending();
    lemma_cards_finite(s);
    lemma_filter_no_dup(card_order_ascending(), p);
    lemma_filter_to_set(card_order_ascending(), p);
    assert(card_order_ascending().to_set() =~= all_cards_set());
    assert(all_cards_set().filter(p) =~= s);
    set_ascending(s).unique_seq_to_set();
}

/// Walking an order of cards one card further.
proof fn lemma_filter_step(o: Seq<(Rank, Suit)>, s: Set<(Rank, Suit)>, pos: int)
    requires
        0 <= pos < o.len(),
    ensures
        o.skip(pos).filter(|c: (Rank, Suit)| s.contains(c)) == (if s.contains(o[pos]) {
            seq![o[pos]]
        } else {
            Seq::<(Rank, Suit)>::empty()
        }) + o.skip(pos + 1).filter(|c: (Rank, Suit)| s.contains(c)),
{
    let p = |c: (Rank, Suit)| s.contains(c);
    assert(o.skip(pos) =~= seq![o[pos]] + o.skip(pos + 1));
    o.skip(pos + 1).lemma_filter_prepend(o[pos], p);
}

/// Any subset of the 52 playing cards, of the first deck type: its cards are counted
/// suit by suit from the Two up.
#[derive(Debug, Clone, Copy, PartialEq, Eq, Structural)]
pub struct Deck {
    cards: crate::deck::Deck,
}

impl View for Deck {
    type V = Set<(Rank, Suit)>;

    closed spec fn view(&self) -> Set<(Rank, Suit)> {
        self.cards@
    }
}

impl Deck {
    /// Creates a deck with no cards.
    pub fn empty() -> (deck: Self)
        ensures
            deck@ == Set::<(Rank, Suit)>::empty(),
    {
        Self { cards: crate::deck::Deck::empty() }
    }

    /// Creates a deck with all 52 cards.
    pub fn all_cards() -> (deck: Self)
        ensures
            deck@ == all_cards_set(),
    {
        Self { cards: crate::deck::Deck::all_cards() }
    }

    /// The deck's cards are held in a valid deck of the second type.
    pub closed spec fn wf(self) -> bool {
        self.cards.wf()
    }

    /// Two valid decks are equal exactly when they hold the same cards.
    pub proof fn lemma_eq_iff_same_cards(a: Deck, b: Deck)
        requires
            a.wf(),
            b.wf(),
        ensures
            (a == b) <==> (a@ == b@),
    {
        crate::deck::Deck::lemma_eq_iff_same_cards(a.cards, b.cards);
    }

    /// Creates a deck holding the one card of the given rank and suit.
    pub fn get_card(rank: &Rank, suit: &Suit) -> (deck: Self)
        ensures
            deck@ == set![(*rank, *suit)],
            deck.wf(),
    {
        let cards = crate::deck::Deck::get_card(rank, suit);
        proof {
            use_type_invariant(&cards);
        }
        Self { cards }
    }

    /// Whether the deck holds the card.
    pub fn has_card(&self, card: Card) -> (res: bool)
        ensures
            res == self@.contains(card@),
    {
        let single = card.get_deck();
        let res = self.cards.has_cards(&single.cards);
        proof {
            assert(set![card@].subset_of(self@) == self@.contains(card@)) by {
                if self@.contains(card@) {
                    assert(set![card@].subset_of(self@));
                }
            }
        }
        res
    }

    /// Puts each of the cards into the deck.
    pub fn insert_cards(&mut self, cards: &[Card])
        ensures
            final(self)@ == old(self)@.union(card_pairs(cards@).to_set()),
    {
        let ghost old_set = self@;
        let mut i: usize = 0;
        while i < cards.len()
            invariant
                0 <= i <= cards.len(),
                self@ == old_set.union(card_pairs(cards@.take(i as int)).to_set()),
            decreases cards.len() - i,
        {
            let single = cards[i].get_deck();
            proof {
                assert(card_pairs(cards@.take(i + 1)) =~= card_pairs(cards@.take(i as int)).push(
                    cards@[i as int]@,
                ));
                lemma_push_to_set(card_pairs(cards@.take(i as int)), cards@[i as int]@);
            }
            self.cards = self.cards | single.cards;
            proof {
                assert(self@ =~= old_set.union(card_pairs(cards@.take(i + 1)).to_set()));
            }
            i = i + 1;
        }
        proof {
            assert(cards@.take(cards@.len() as int) =~= cards@);
        }
    }

    /// Takes each of the cards out of the deck when it holds it, and puts it in when it
    /// does not.
    pub fn remove_cards(&mut self, cards: &[Card])
        ensures
            final(self)@ == toggle_cards(old(self)@, card_pairs(cards@)),
    {
        let ghost old_set = self@;
        let mut i: usize = 0;
        while i < cards.len()
            invariant
                0 <= i <= cards.len(),
                self@ == toggle_cards(old_set, card_pairs(cards@.take(i as int))),
            decreases cards.len() - i,
        {
            let one = cards[i].to_current();
            self.cards.flip_card(&one);
            proof {
                assert(card_pairs(cards@.take(i + 1)).drop_last() =~= card_pairs(
                    cards@.take(i as int),
                ));
            }
            i = i + 1;
        }
        proof {
            assert(cards@.take(cards@.len() as int) =~= cards@);
        }
    }

    /// The card at `index` of `set_ascending`.
    pub fn get_nth_card_unchecked(&self, index: usize) -> (card: Card)
        requires
            index < self@.len(),
        ensures
            card@ == set_ascending(self@)[index as int],
    {
        let ghost o = card_order_ascending();
        let ghost s = self@;
        proof {
            lemma_set_ascending(s);
            assert(o.skip(0) =~= o);
        }
        let mut count: usize = index;
        let mut pos: usize = 0;
        while pos < 52
            invariant
                0 <= pos <= 52,
                o == card_order_ascending(),
                s == self@,
                count < o.skip(pos as int).filter(|c: (Rank, Suit)| s.contains(c)).len(),
                o.skip(pos as int).filter(|c: (Rank, Suit)| s.contains(c))[count as int]
                    == set_ascending(s)[index as int],
            decreases 52 - pos,
        {
            let rank = rank_at(pos % 13);
            let suit = suit_at(pos / 13);
            let card = Card::new(rank, suit);
            proof {
                assert(o[pos as int] == (rank, suit));
                lemma_filter_step(o, s, pos as int);
            }
            if self.has_card(card) {
                if count == 0 {
                    return card;
                } else {
                    count = count - 1;
                }
            }
            pos = pos + 1;
        }
        proof {
            assert(o.skip(52) =~= Seq::<(Rank, Suit)>::empty());
            reveal(Seq::filter);
        }
        Card::new(Rank::Two, Suit::Clubs)
    }

    fn remove_nth_card_unchecked(&mut self, index: usize) -> (card: Card)
        requires
            index < old(self)@.len(),
        ensures
            card@ == set_ascending(old(self)@)[index as int],
            final(self)@ == old(self)@.remove(card@),
    {
        let card = self.get_nth_card_unchecked(index);
        proof {
            lemma_set_ascending(self@);
            assert(set_ascending(self@).contains(card@));
        }
        let ghost before = self@;
        let taken = [card];
        proof {
            assert(taken@ =~= seq![card]);
        }
        self.remove_cards(&taken);
        proof {
            let cs = card_pairs(seq![card]);
            assert(cs =~= seq![card@]);
            assert(cs.drop_last() =~= Seq::<(Rank, Suit)>::empty());
            assert(toggle_cards(before, cs.drop_last()) == before);
            assert(toggle_cards(before, cs) == toggle_card(before, card@));
        }
        card
    }

    /// Takes out the card at `index` of `set_ascending`; fails when the deck holds no
    /// more than `index` cards.
    pub fn try_remove_nth_card(&mut self, index: usize) -> (res: Result<Card, String>)
        ensures
            index >= old(self)@.len() <==> res is Err,
            res matches Err(e) ==> e@ == "Too many cards"@ && *final(self) == *old(self),
            res matches Ok(card) ==> card@ == set_ascending(old(self)@)[index as int]
                && final(self)@ == old(self)@.remove(card@),
    {
        let num_cards = self.num_cards();
        if index >= num_cards as usize {
            return Err("Too many cards".to_owned());
        }
        Ok(self.remove_nth_card_unchecked(index))
    }

    /// Takes out `number_to_remove` cards chosen at random; fails, leaving the deck as it
    /// was, when the deck holds fewer cards.
    pub fn try_remove_random_cards(&mut self, number_to_remove: u32) -> (res: Result<Vec<Card>, String>)
        ensures
            number_to_remove > old(self)@.len() <==> res is Err,
            res matches Err(e) ==> e@ == "Too many cards to remove"@ && *final(self) == *old(self),
            res matches Ok(v) ==> {
                &&& v.len() == number_to_remove
                &&& card_pairs(v@).no_duplicates()
                &&& card_pairs(v@).to_set().subset_of(old(self)@)
                &&& final(self)@ == old(self)@.difference(card_pairs(v@).to_set())
            },
    {
        let mut num_cards = self.num_cards();
        let mut cards: Vec<Card> = Vec::new();
        if number_to_remove > num_cards {
            return Err("Too many cards to remove".to_owned());
        }
        let ghost old_set = self@;
        let mut k: u32 = 0;
        while k < number_to_remove
            invariant
                k <= number_to_remove <= old_set.len(),
                cards.len() == k,
                num_cards == old_set.len() - k,
                self@.len() == num_cards,
                card_pairs(cards@).no_duplicates(),
                card_pairs(cards@).to_set().subset_of(old_set),
                self@ == old_set.difference(card_pairs(cards@).to_set()),
            decreases number_to_remove - k,
        {
            let index = crate::deck::random_below(num_cards);
            let ghost before = self@;
            let card = match self.try_remove_nth_card(index as usize) {
                Ok(card) => card,
                Err(e) => {
                    return Err(e);
                },
            };
            proof {
                lemma_set_ascending(before);
                assert(set_ascending(before).contains(set_ascending(before)[index as int]));
                assert(before.contains(card@));
                let cs = card_pairs(cards@);
                assert(card_pairs(cards@.push(card)) =~= cs.push(card@));
                assert(!cs.contains(card@)) by {
                    if cs.contains(card@) {
                        assert(cs.to_set().contains(card@));
                    }
                };
                lemma_push_to_set(cs, card@);
                assert(self@ =~= old_set.difference(cs.push(card@).to_set()));
            }
            cards.push(card);
            num_cards = num_cards - 1;
            k = k + 1;
        }
        Ok(cards)
    }

    /// Whether the deck holds no card.
    pub fn is_empty(&self) -> (res: bool)
        ensures
            res == self@.is_empty(),
    {
        self.cards.is_empty()
    }

    /// The number of cards in the deck.
    pub fn num_cards(&self) -> (n: u32)
        ensures
            n == self@.len(),
            n <= 52,
    {
        self.cards.num_cards()
    }

    /// Walks the four suits, clubs to spades, giving the ranks the deck holds in each.
    pub fn get_single_suit_ranks(&self) -> (it: SingleSuitRankIterator)
        ensures
            it.remaining() == suit_rank_sets(self@, 0).map_values(|p: (Set<Rank>, Suit)| p.0),
    {
        SingleSuitRankIterator { suits: self.cards.get_single_suit_ranks() }
    }

    /// The ranks the deck holds in any suit.
    pub fn get_combined_rank_bitfield(&self) -> (res: RankBitfield)
        ensures
            res@ == combined_ranks(self@),
    {
        let ranks = self.cards.get_combined_ranks();
        RankBitfield { ranks: ranks.to_bits() }
    }

    /// How many cards of each rank the deck holds.
    pub fn get_rank_count(&self) -> (res: RankCount)
        ensures
            forall|r: Rank| res.count(r) == rank_count(self@, r),
    {
        RankCount { counts: self.cards.get_rank_count() }
    }

    /// Every way of choosing `num_cards` cards of the deck, one deck each: the index lists
    /// of `lex_combinations` into `set_ascending`, in that order; none when `num_cards`
    /// is zero.
    pub fn enumerate_combinations(self, num_cards: usize) -> (it: DeckIterator)
        ensures
            it.remaining() == lex_combinations(self@.len(), num_cards as nat).map_values(
                |c: Seq<usize>| ascending_choice(self@, c),
            ),
    {
        DeckIterator::new(self, num_cards)
    }

    /// The names of the deck's cards rank by rank from the Two up, separated by single
    /// spaces.
    pub fn to_string(&self) -> (res: String)
        ensures
            res@ == card_names(set_by_rank(self@)),
    {
        let ghost o = card_order_by_rank();
        let ghost s = self@;
        let mut res = String::new();
        let mut pos: usize = 0;
        let mut written: usize = 0;
        proof {
            assert(o.take(0).filter(|c: (Rank, Suit)| s.contains(c)) =~= Seq::<(Rank, Suit)>::empty());
        }
        while pos < 52
            invariant
                0 <= pos <= 52,
                o == card_order_by_rank(),
                s == self@,
                written == o.take(pos as int).filter(|c: (Rank, Suit)| s.contains(c)).len(),
                written <= pos,
                res@ == card_names(o.take(pos as int).filter(|c: (Rank, Suit)| s.contains(c))),
            decreases 52 - pos,
        {
            let rank = rank_at(pos / 4);
            let suit = suit_at(pos % 4);
            let card = Card::new(rank, suit);
            let ghost before = o.take(pos as int).filter(|c: (Rank, Suit)| s.contains(c));
            proof {
                assert(o[pos as int] == (rank, suit));
                assert(o.take(pos + 1) =~= o.take(pos as int).push(o[pos as int]));
                o.take(pos as int).lemma_filter_push(o[pos as int], |c: (Rank, Suit)| s.contains(c));
            }
            if self.has_card(card) {
                let name = card.to_string();
                if written > 0 {
                    res.append(" ");
                }
                res.append(name.as_str());
                proof {
                    reveal_strlit(" ");
                    let after = before.push(card@);
                    assert(after.drop_last() =~= before);
                    assert(res@ =~= card_names(after));
                }
                written = written + 1;
            }
            pos = pos + 1;
        }
        proof {
            assert(o.take(52) =~= o);
        }
        res
    }
}

impl core::ops::BitOr for Deck {
    type Output = Deck;

    fn bitor(self, rhs: Self) -> (res: Self::Output)
        ensures
            res@ == self@.union(rhs@),
    {
        Self { cards: self.cards | rhs.cards }
    }
}

impl vstd::std_specs::ops::BitOrSpecImpl for Deck {
    open spec fn obeys_bitor_spec() -> bool {
        true
    }

    open spec fn bitor_req(self, rhs: Deck) -> bool {
        true
    }

    closed spec fn bitor_spec(self, rhs: Deck) -> Deck {
        Deck { cards: crate::deck::Deck { cards: self.cards.cards | rhs.cards.cards } }
    }
}

/// The cards at the positions `c` of a set of cards in the order `set_ascending`.
pub open spec fn ascending_choice(s: Set<(Rank, Suit)>, c: Seq<usize>) -> Set<(Rank, Suit)> {
    c.map_values(|i: usize| set_ascending(s)[i as int]).to_set()
}

/// Walks the four suits of a deck, giving the ranks that the deck holds in each.
pub struct SingleSuitRankIterator {
    suits: crate::deck::SingleSuitRankIterator,
}

impl SingleSuitRankIterator {
    /// The ranks of the suits still to come.
    pub closed spec fn remaining(self) -> Seq<Set<Rank>> {
        self.suits.remaining().map_values(|p: (Set<Rank>, Suit)| p.0)
    }

    /// The ranks of the next suit, or `None` after the spades.
    pub fn next(&mut self) -> (res: Option<RankBitfield>)
        ensures
            old(self).remaining().len() == 0 ==> res is None && final(self).remaining() == old(
                self,
            ).remaining(),
            old(self).remaining().len() > 0 ==> (res matches Some(b) && b@ == old(
                self,
            ).remaining()[0] && final(self).remaining() == old(self).remaining().drop_first()),
    {
        let ghost before = self.suits.remaining();
        match self.suits.next() {
            Some((ranks, _)) => {
                proof {
                    assert(before.map_values(|p: (Set<Rank>, Suit)| p.0).drop_first() =~= before.drop_first().map_values(
                        |p: (Set<Rank>, Suit)| p.0,
                    ));
                }
                Some(RankBitfield { ranks: ranks.to_bits() })
            },
            None => None,
        }
    }
}

/// A set of ranks, recorded as a word: bit `i + 1` for the rank of index `i`, and bit 0
/// again for an Ace.
pub struct RankBitfield {
    ranks: u64,
}

impl View for RankBitfield {
    type V = Set<Rank>;

    closed spec fn view(&self) -> Set<Rank> {
        ranks_of_bits(self.ranks)
    }
}

impl RankBitfield {
    #[verifier::type_invariant]
    closed spec fn wf(self) -> bool {
        rank_bits_wf(self.ranks)
    }

    /// The top card of the highest five ranks in a row, an Ace also counting below the
    /// Two.
    pub fn get_straight(&self) -> (res: Option<Rank>)
        ensures
            res == best_straight(self@),
    {
        proof {
            use_type_invariant(self);
            lemma_straight_pattern(self.ranks, 0);
        }
        let result = Self::matches_pattern(self.ranks, 0b11111, 5);
        match result {
            Some(x) => {
                proof {
                    lemma_rank_from_index(x + 2);
                }
                Some(rank_at(x + 2))
            },
            None => None,
        }
    }

    /// The number of set bits: each rank once, and an Ace a second time.
    pub fn count_ones(&self) -> (n: u32)
        ensures
            n == self@.len() + if self@.contains(Rank::Ace) {
                1nat
            } else {
                0nat
            },
    {
        let w = self.ranks_word();
        proof {
            lemma_rank_bits_popcount(w);
        }
        crate::deck::bits::count_ones(w)
    }

    /// The five highest ranks, from the highest down, when there are at least five.
    pub fn get_highest_five(&self) -> (res: Option<[Rank; 5]>)
        ensures
            res is Some <==> self@.len() >= 5,
            res matches Some(a) ==> a@ == top_ranks(self@).take(5),
    {
        crate::deck::RankSet::from_bits(self.ranks_word()).get_highest_five(&RankOrder::AceIsHigh)
    }

    fn ranks_word(&self) -> (w: u64)
        ensures
            w == self.ranks,
            rank_bits_wf(w),
    {
        proof {
            use_type_invariant(self);
        }
        self.ranks
    }

    /// The first step `i` (see `first_pattern_from`) at which `required_on_bits`,
    /// shifted left by `14 - field_length - i`, is contained in `bits_to_check`, given
    /// as `15 - field_length - i`.
    fn matches_pattern(bits_to_check: u64, required_on_bits: u64, field_length: usize) -> (res: Option<usize>)
        requires
            field_length <= 15,
        ensures
            res == match first_pattern_from(bits_to_check, required_on_bits, field_length as int, 0) {
                Some(i) => Some((15 - field_length - i) as usize),
                None => None,
            },
    {
        let ghost fl = field_length as int;
        let mut i: usize = 0;
        while i < 15 - field_length
            invariant
                0 <= i <= 15 - field_length,
                field_length <= 15,
                fl == field_length,
                first_pattern_from(bits_to_check, required_on_bits, fl, 0) == first_pattern_from(
                    bits_to_check,
                    required_on_bits,
                    fl,
                    i as int,
                ),
            decreases 15 - field_length - i,
        {
            let shift = (14 - field_length - i) as u64;
            let must_match = required_on_bits << shift;
            proof {
                assert(shift == (14 - fl - i) as u64);
                assert((must_match & bits_to_check == must_match) == pattern_at(
                    bits_to_check,
                    required_on_bits,
                    shift,
                ));
            }
            if must_match & bits_to_check == must_match {
                return Some(15 - field_length - i);
            }
            i = i + 1;
        }
        return None;
    }
}

/// How many cards of each rank a deck holds.
pub struct RankCount {
    counts: crate::deck::RankCount,
}

impl RankCount {
    /// The number of cards of rank `r`.
    pub closed spec fn count(self, r: Rank) -> nat {
        self.counts.count(r)
    }

    /// The highest rank not in `ranks_to_exclude` with at least `target_count` cards.
    pub fn find_highest_with_n(&self, ranks_to_exclude: &Vec<Rank>, target_count: u32) -> (res: Option<Rank>)
        ensures
            res == highest_with_count(|r: Rank| self.count(r), ranks_to_exclude@, target_count as nat),
    {
        let res = self.counts.find_highest_with_n(ranks_to_exclude, target_count);
        proof {
            assert(self.counts.counts() =~= |r: Rank| self.count(r));
        }
        res
    }
}

/// Walks the ways of choosing a number of cards from a deck.
pub struct DeckIterator {
    deck: Deck,
    iterator: CombinationIterator,
}

impl DeckIterator {
    #[verifier::type_invariant]
    closed spec fn wf(self) -> bool {
        forall|i: int, j: int|
            0 <= i < combinations_remaining(self.iterator).len() && 0 <= j < combinations_remaining(
                self.iterator,
            )[i].len() ==> #[trigger] combinations_remaining(self.iterator)[i][j]
                < self.deck@.len()
    }

    /// The choices still to come, each as the set of chosen cards.
    pub closed spec fn remaining(self) -> Seq<Set<(Rank, Suit)>> {
        combinations_remaining(self.iterator).map_values(|c: Seq<usize>| ascending_choice(self.deck@, c))
    }

    fn new(deck: Deck, size: usize) -> (it: Self)
        ensures
            it.remaining() == lex_combinations(deck@.len(), size as nat).map_values(
                |c: Seq<usize>| ascending_choice(deck@, c),
            ),
    {
        let num_cards = deck.num_cards();
        let iterator = combination_iter_new(num_cards as usize, size);
        proof {
            lemma_combinations_from(num_cards as nat, size as nat, 0);
        }
        Self { deck: deck, iterator }
    }

    /// The next choice of cards as a deck, or `None` when every choice has come.
    pub fn next(&mut self) -> (res: Option<Deck>)
        ensures
            old(self).remaining().len() == 0 ==> res is None && final(self).remaining() == old(
                self,
            ).remaining(),
            old(self).remaining().len() > 0 ==> (res matches Some(d) && d@ == old(
                self,
            ).remaining()[0] && final(self).remaining() == old(self).remaining().drop_first()),
    {
        proof {
            use_type_invariant(&*self);
        }
        let ghost before = self.remaining();
        let ghost combos = combinations_remaining(self.iterator);
        let ghost deck = self.deck;
        match combination_iter_next(&mut self.iterator) {
            Some(vals) => {
                proof {
                    assert(before.drop_first() =~= self.remaining());
                }
                let mut cards: Vec<Card> = Vec::new();
                let mut j: usize = 0;
                while j < vals.len()
                    invariant
                        0 <= j <= vals.len(),
                        vals@ == combos[0],
                        combos.len() > 0,
                        deck == self.deck,
                        forall|l: int| 0 <= l < vals.len() ==> #[trigger] vals@[l] < deck@.len(),
                        cards.len() == j,
                        forall|l: int|
                            0 <= l < j ==> (#[trigger] cards@[l])@ == set_ascending(deck@)[vals@[l] as int],
                    decreases vals.len() - j,
                {
                    proof {
                        assert(vals@[j as int] == combos[0][j as int]);
                    }
                    let card = self.deck.get_nth_card_unchecked(vals[j]);
                    cards.push(card);
                    j = j + 1;
                }
                let mut deck_out = Deck::empty();
                deck_out.insert_cards(cards.as_slice());
                proof {
                    assert(card_pairs(cards@) =~= vals@.map_values(
                        |i: usize| set_ascending(deck@)[i as int],
                    ));
                    assert(deck_out@ =~= ascending_choice(deck@, combos[0]));
                }
                Some(deck_out)
            },
            None => None,
        }
    }
}

} // verus!
