use vstd::prelude::*;
use crate::deck::deck::{set_ascending, Deck};
use crate::deck::{card_name, card_of_text, card_text_ok, Rank, Suit};
use crate::deck::bits::{all_cards_set, card_order_ascending, lemma_all_cards_finite};
use crate::text::{trim_chars, utf8_len};

verus! {

/// A playing card of the first deck type: its rank, its suit, and the one-card deck
/// that holds it.
#[derive(Clone, Copy, Eq, PartialEq, Structural, Debug)]
pub struct Card {
    val: Deck,
    suit: Suit,
    rank: Rank,
}

impl View for Card {
    type V = (Rank, Suit);

    closed spec fn view(&self) -> (Rank, Suit) {
        (self.rank, self.suit)
    }
}

impl Card {
    /// The card's deck holds that card alone.
    #[verifier::type_invariant]
    pub closed spec fn wf(self) -> bool {
        &&& self.val@ == set![(self.rank, self.suit)]
        &&& self.val.wf()
    }

    /// Two cards are equal exactly when they have the same rank and suit: a card's rank
    /// and suit determine it.
    pub proof fn lemma_eq_iff_same_view(a: Card, b: Card)
        requires
            a.wf(),
            b.wf(),
        ensures
            (a == b) <==> (a@ == b@),
    {
        if a@ == b@ {
            Deck::lemma_eq_iff_same_cards(a.val, b.val);
        }
    }

    /// Creates the card of the given rank and suit.
    pub fn new(rank: Rank, suit: Suit) -> (card: Card)
        ensures
            card@ == (rank, suit),
    {
        Card { val: Deck::get_card(&rank, &suit), rank, suit }
    }

    /// Creates a card from a one-card deck that holds it.
    pub(crate) fn from_deck(val: Deck, rank: Rank, suit: Suit) -> (card: Self)
        requires
            val@ == set![(rank, suit)],
            val.wf(),
        ensures
            card@ == (rank, suit),
    {
        Self { val, rank, suit }
    }

    /// The deck that holds this card alone.
    pub(crate) fn get_deck(&self) -> (deck: Deck)
        ensures
            deck@ == set![self@],
    {
        proof {
            use_type_invariant(self);
        }
        self.val
    }

    /// The same card as a card of the second deck type.
    pub(crate) fn to_current(&self) -> (card: crate::deck::Card)
        ensures
            card@ == self@,
    {
        crate::deck::Card::new(self.rank, self.suit)
    }

    /// Reads a card from text such as `Ah`: exactly a rank character then a suit
    /// character.
    pub fn try_from_str(val: &str) -> (res: Result<Self, String>)
        ensures
            res is Ok <==> card_text_ok(val@),
            res matches Ok(c) ==> c@ == card_of_text(val@),
            res matches Err(e) ==> e@ == (if (utf8_len(trim_chars(val@)) as usize) < 2 {
                "Invalid Value"@
            } else {
                "Invalid value"@
            }),
    {
        match crate::deck::Card::parse(val) {
            Ok(card) => Ok(Self::new(card.rank(), card.suit())),
            Err(e) => Err(e),
        }
    }

    /// Every card, suit by suit (clubs, diamonds, hearts, spades), each from Two up.
    pub fn values() -> (it: CardIterator)
        ensures
            it.remaining() == card_order_ascending(),
    {
        CardIterator::new()
    }

    /// The two-character name of the card, such as `As`.
    pub fn to_string(&self) -> (res: String)
        ensures
            res@ == card_name(self@),
    {
        self.to_current().to_string()
    }

    /// The rank of the card.
    pub fn rank(&self) -> (r: Rank)
        ensures
            r == self@.0,
    {
        self.rank
    }

    /// The suit of the card.
    pub fn suit(&self) -> (s: Suit)
        ensures
            s == self@.1,
    {
        self.suit
    }
}

/// Walks the 52 cards suit by suit, each from Two up.
pub struct CardIterator {
    last_index: usize,
}

impl CardIterator {
    #[verifier::type_invariant]
    closed spec fn wf(self) -> bool {
        self.last_index <= 52
    }

    /// The cards still to come.
    pub closed spec fn remaining(self) -> Seq<(Rank, Suit)> {
        card_order_ascending().skip(self.last_index as int)
    }

    /// Starts before the first card.
    pub fn new() -> (it: Self)
        ensures
            it.remaining() == card_order_ascending(),
    {
        proof {
            assert(card_order_ascending().skip(0) =~= card_order_ascending());
        }
        Self { last_index: 0 }
    }

    /// The next card, or `None` after the last.
    pub fn next(&mut self) -> (res: Option<Card>)
        ensures
            old(self).remaining().len() == 0 ==> res is None && final(self).remaining() == old(
                self,
            ).remaining(),
            old(self).remaining().len() > 0 ==> (res matches Some(c) && c@ == old(
                self,
            ).remaining()[0] && final(self).remaining() == old(self).remaining().drop_first()),
    {
        proof {
            use_type_invariant(&*self);
        }
        if self.last_index >= 52 {
            return None;
        }
        let deck = Deck::all_cards();
        proof {
            lemma_all_cards_finite();
            crate::deck::bits::lemma_card_order_ascending();
            let o = card_order_ascending();
            assert(o.filter(|c: (Rank, Suit)| all_cards_set().contains(c)) == o) by {
                crate::deck::bits::lemma_filter_all(o, |c: (Rank, Suit)| all_cards_set().contains(c));
            }
            assert(set_ascending(deck@) == o);
        }
        let card = Some(deck.get_nth_card_unchecked(self.last_index));
        let ghost before = self.remaining();
        self.last_index = self.last_index + 1;
        proof {
            assert(before.drop_first() =~= self.remaining());
        }
        card
    }
}

} // verus!
