pub mod bits;
pub mod card;
pub mod deck;
pub mod hand_ranker;
pub mod combinations;
pub mod rank;
pub mod rank_bits;
pub mod suit;

use vstd::prelude::*;
use crate::deck::bits::{
    all_cards_set, card_bits, card_order, count_ones, lemma_count_masked, lemma_mask_no_low,
    ALL_CARDS_NO_LOW_ACES_BITFIELD, cards_of_bits, deck_bits_wf, lemma_all_cards_bits,
    lemma_card_bits, lemma_card_bits_has, lemma_cards_ops, lemma_has_card_bits, lemma_mask_values,
    lemma_toggle_card_bits, lemma_cards_finite, lemma_all_cards_finite, lemma_holds_card_bits, lemma_order_step, lemma_order_end, bit, is_card_pos, card_at, holds, lemma_push_to_set,
    lemma_ordered_cards, lemma_subset_bits, lemma_card_order, lemma_filter_no_dup, lemma_filter_to_set, lemma_wf_empty, lemma_wf_ops, ordered_cards,
    ALL_CARDS_BITFIELD,
};
pub use crate::deck::rank::Rank;
pub use crate::deck::suit::Suit;
use crate::deck::rank::rank_at;
use crate::deck::suit::suit_at;
use crate::deck::rank_bits::{
    best_straight, combined_ranks, first_pattern_from, pattern_at, highest_with_count,
    highest_with_count_from, lemma_count_rank_masked, lemma_rank_bit_has, lemma_rank_bits_or, lemma_rank_masks,
    lemma_rank_bits_popcount, lemma_rank_bits_popcount_low, lemma_rank_bits_wf_bit,
    lemma_ranks_descending, lemma_straight_pattern, lemma_suit_rank_bits, lemma_top_ranks,
    rank_bits_wf, rank_count, ranks_descending, of_rank, ranks_of_bits, suit_ranks, top_ranks, in_ranks, all_ranks_set,
};
use crate::deck::bits::{lemma_bit_ops, lemma_wf_ext, bits_has, lemma_mask_rank_filter, lemma_rank_from_index, lemma_rank_index,
    SINGLE_RANK_FILTER, SINGLE_SUIT_BITFIELD, SINGLE_SUIT_HIGH_ACE_BITFIELD, SINGLE_SUIT_LOW_ACE_BITFIELD,
};
use crate::ranking::standard_hand_ranker::RankOrder;
use crate::deck::combinations::{
    combination_iter_new, combination_iter_next, combinations_remaining, lemma_combinations_from,
    lex_combinations,
};
use numerica::combinatorics::CombinationIterator;
use crate::deck::rank::{rank_char, rank_of_char};
use crate::deck::suit::{suit_char, suit_of_char};
use crate::text::{
    is_white_space, lemma_split_chars_join, lemma_split_chars_nonempty, split_chars, split_on_space, trim, trim_chars,
    trim_end_chars, trim_start_chars, utf8_len,
};

verus! {

/// The cards of a sequence of cards.
pub open spec fn card_views(cards: Seq<Card>) -> Seq<(Rank, Suit)> {
    cards.map_values(|c: Card| c@)
}

/// The cards of a one-card list make the set of that card.
pub proof fn lemma_one_card_views(c: Card)
    ensures
        card_views(seq![c]).to_set() == set![c@],
{
    assert(card_views(seq![c]) =~= Seq::<(Rank, Suit)>::empty().push(c@));
    lemma_push_to_set(Seq::<(Rank, Suit)>::empty(), c@);
    assert(Seq::<(Rank, Suit)>::empty().to_set() =~= Set::<(Rank, Suit)>::empty());
    assert(Set::<(Rank, Suit)>::empty().insert(c@) =~= set![c@]);
}

/// The cards of a set in a card order: Aces first, each rank in the suit order clubs,
/// diamonds, hearts, spades (`rank_first`), or suit by suit from the Ace down.
pub open spec fn set_in_order(s: Set<(Rank, Suit)>, rank_first: bool) -> Seq<(Rank, Suit)> {
    card_order(rank_first).filter(|c: (Rank, Suit)| s.contains(c))
}

/// The cards at the positions `c` of a set of cards in the order Aces first.
pub open spec fn combo_of(s: Set<(Rank, Suit)>, c: Seq<usize>) -> Set<(Rank, Suit)> {
    c.map_values(|i: usize| set_in_order(s, true)[i as int]).to_set()
}

/// A card order lists each card of a set once.
pub proof fn lemma_set_in_order(s: Set<(Rank, Suit)>, rank_first: bool)
    ensures
        set_in_order(s, rank_first).no_duplicates(),
        set_in_order(s, rank_first).to_set() == s,
        set_in_order(s, rank_first).len() == s.len(),
        s.finite(),
{
    let p = |c: (Rank, Suit)| s.contains(c);
    lemma_card_order(rank_first);
    lemma_filter_no_dup(card_order(rank_first), p);
    lemma_filter_to_set(card_order(rank_first), p);
    assert(card_order(rank_first).to_set() =~= all_cards_set());
    assert(all_cards_set().filter(p) =~= s);
    set_in_order(s, rank_first).unique_seq_to_set();
}

/// Distinct positions, in increasing order, of a set of cards pick as many of its
/// cards.
pub proof fn lemma_combo_of(s: Set<(Rank, Suit)>, c: Seq<usize>)
    requires
        forall|j: int| 0 <= j < c.len() ==> #[trigger] c[j] < s.len(),
        forall|j: int, l: int| 0 <= j < l < c.len() ==> c[j] < c[l],
    ensures
        combo_of(s, c).subset_of(s),
        combo_of(s, c).len() == c.len(),
        combo_of(s, c).finite(),
{
    lemma_set_in_order(s, true);
    let o = set_in_order(s, true);
    let m = c.map_values(|i: usize| o[i as int]);
    assert forall|j: int, l: int| 0 <= j < m.len() && 0 <= l < m.len() && j != l implies m[j] != m[l] by {
        if j < l {
            assert(c[j] < c[l]);
        } else {
            assert(c[l] < c[j]);
        }
    }
    assert(m.no_duplicates());
    m.unique_seq_to_set();
    assert forall|x: (Rank, Suit)| combo_of(s, c).contains(x) implies s.contains(x) by {
        let j = choose|j: int| 0 <= j < m.len() && m[j] == x;
        assert(o.contains(o[c[j] as int]));
    }
}

/// The set after one card is taken out if present, or put in if absent.
pub open spec fn toggle_card(s: Set<(Rank, Suit)>, c: (Rank, Suit)) -> Set<(Rank, Suit)> {
    if s.contains(c) {
        s.remove(c)
    } else {
        s.insert(c)
    }
}

/// The set after each card of `cs` in turn is taken out if present, or put in if absent.
pub open spec fn toggle_cards(s: Set<(Rank, Suit)>, cs: Seq<(Rank, Suit)>) -> Set<(Rank, Suit)>
    decreases cs.len(),
{
    if cs.len() == 0 {
        s
    } else {
        toggle_card(toggle_cards(s, cs.drop_last()), cs.last())
    }
}

/// A number drawn uniformly from `0..upper`, by `rand::random_range`.
#[verifier::external_body]
pub(crate) fn random_below(upper: u32) -> (r: u32)
    requires
        upper > 0,
    ensures
        r < upper,
{
    rand::random_range(0..upper)
}

/// Whether a text names a card: it is exactly two characters, a rank and then a suit
/// (after trimming it has at least two bytes).
pub open spec fn card_text_ok(s: Seq<char>) -> bool {
    &&& utf8_len(trim_chars(s)) as usize >= 2
    &&& s.len() == 2
    &&& rank_of_char(s[0]) is Some
    &&& suit_of_char(s[1]) is Some
}

/// The card that a text names.
pub open spec fn card_of_text(s: Seq<char>) -> (Rank, Suit) {
    (rank_of_char(s[0]).unwrap(), suit_of_char(s[1]).unwrap())
}

/// The two-character name of a card, such as `As` for the Ace of spades.
pub open spec fn card_name(c: (Rank, Suit)) -> Seq<char> {
    seq![rank_char(c.0), suit_char(c.1)]
}

/// Reading a card's name gives back the card: `Card::parse` undoes `Card::to_string`.
pub proof fn lemma_card_name_parses(c: (Rank, Suit))
    ensures
        card_text_ok(card_name(c)),
        card_of_text(card_name(c)) == c,
        split_chars(card_name(c), ' ') == seq![card_name(c)],
{
    let n = card_name(c);
    let a = rank_char(c.0);
    let b = suit_char(c.1);
    assert((a as u32) < 0x80 && !is_white_space(a) && rank_of_char(a) == Some(c.0)) by {
        match c.0 {
            Rank::Two => {},
            Rank::Three => {},
            Rank::Four => {},
            Rank::Five => {},
            Rank::Six => {},
            Rank::Seven => {},
            Rank::Eight => {},
            Rank::Nine => {},
            Rank::Ten => {},
            Rank::Jack => {},
            Rank::Queen => {},
            Rank::King => {},
            Rank::Ace => {},
        }
    }
    assert((b as u32) < 0x80 && !is_white_space(b) && suit_of_char(b) == Some(c.1)) by {
        match c.1 {
            Suit::Clubs => {},
            Suit::Diamonds => {},
            Suit::Hearts => {},
            Suit::Spades => {},
        }
    }
    assert(trim_start_chars(n) == n);
    assert(n.drop_last() =~= seq![a]);
    assert(trim_end_chars(n) == n);
    assert(trim_chars(n) == n);
    assert(n.drop_first() =~= seq![b]);
    assert(seq![b].drop_first() =~= Seq::<char>::empty());
    assert(vstd::utf8::encode_utf8(Seq::<char>::empty()).len() == 0);
    assert(vstd::utf8::encode_utf8(seq![b]).len() == 1);
    assert(vstd::utf8::encode_utf8(n).len() == 2);
    assert(split_chars(Seq::<char>::empty(), ' ') == seq![Seq::<char>::empty()]);
    assert(split_chars(seq![b], ' ') =~= seq![seq![b]]);
    assert(a != ' ' && b != ' ');
    assert(seq![a] + seq![b] =~= n);
    assert(split_chars(n, ' ') == split_chars(seq![b], ' ').update(0, seq![a] + seq![b]));
    assert(split_chars(n, ' ') =~= seq![n]);
}

/// The character in upper case, for the ASCII letters `a` to `z`; any other character
/// as it is.
pub open spec fn ascii_upper(c: char) -> char {
    if 97 <= (c as u32) <= 122 {
        ((c as u32) - 32) as char
    } else {
        c
    }
}

/// The character in lower case, for the ASCII letters `A` to `Z`; any other character
/// as it is.
pub open spec fn ascii_lower(c: char) -> char {
    if 65 <= (c as u32) <= 90 {
        ((c as u32) + 32) as char
    } else {
        c
    }
}

/// Two ASCII characters that are no white space, naming a rank and then a suit, name
/// that card.
proof fn lemma_two_char_text(a: char, b: char)
    requires
        (a as u32) < 0x80,
        (b as u32) < 0x80,
        !is_white_space(a),
        !is_white_space(b),
        rank_of_char(a) is Some,
        suit_of_char(b) is Some,
    ensures
        card_text_ok(seq![a, b]),
        card_of_text(seq![a, b]) == (rank_of_char(a).unwrap(), suit_of_char(b).unwrap()),
{
    let n = seq![a, b];
    assert(trim_start_chars(n) == n);
    assert(n.drop_last() =~= seq![a]);
    assert(trim_end_chars(n) == n);
    assert(trim_chars(n) == n);
    assert(n.drop_first() =~= seq![b]);
    assert(seq![b].drop_first() =~= Seq::<char>::empty());
    assert(vstd::utf8::encode_utf8(Seq::<char>::empty()).len() == 0);
    assert(vstd::utf8::encode_utf8(seq![b]).len() == 1);
    assert(vstd::utf8::encode_utf8(n).len() == 2);
}

/// Reading a card ignores ASCII case: a card's name written all in upper case, or all
/// in lower case, reads as that card.
pub proof fn lemma_card_name_any_case(c: (Rank, Suit))
    ensures
        card_text_ok(seq![ascii_upper(rank_char(c.0)), ascii_upper(suit_char(c.1))]),
        card_of_text(seq![ascii_upper(rank_char(c.0)), ascii_upper(suit_char(c.1))]) == c,
        card_text_ok(seq![ascii_lower(rank_char(c.0)), ascii_lower(suit_char(c.1))]),
        card_of_text(seq![ascii_lower(rank_char(c.0)), ascii_lower(suit_char(c.1))]) == c,
{
    let ru = ascii_upper(rank_char(c.0));
    let rl = ascii_lower(rank_char(c.0));
    let su = ascii_upper(suit_char(c.1));
    let sl = ascii_lower(suit_char(c.1));
    assert((ru as u32) < 0x80 && !is_white_space(ru) && rank_of_char(ru) == Some(c.0) && (rl as u32)
        < 0x80 && !is_white_space(rl) && rank_of_char(rl) == Some(c.0)) by {
        match c.0 {
            Rank::Two => {},
            Rank::Three => {},
            Rank::Four => {},
            Rank::Five => {},
            Rank::Six => {},
            Rank::Seven => {},
            Rank::Eight => {},
            Rank::Nine => {},
            Rank::Ten => {},
            Rank::Jack => {},
            Rank::Queen => {},
            Rank::King => {},
            Rank::Ace => {},
        }
    }
    assert((su as u32) < 0x80 && !is_white_space(su) && suit_of_char(su) == Some(c.1) && (sl as u32)
        < 0x80 && !is_white_space(sl) && suit_of_char(sl) == Some(c.1)) by {
        match c.1 {
            Suit::Clubs => {},
            Suit::Diamonds => {},
            Suit::Hearts => {},
            Suit::Spades => {},
        }
    }
    lemma_two_char_text(ru, su);
    lemma_two_char_text(rl, sl);
}

/// The names of one or more cards, split at the spaces, are the cards' names.
pub proof fn lemma_card_names_split(cs: Seq<(Rank, Suit)>)
    requires
        cs.len() >= 1,
    ensures
        split_chars(card_names(cs), ' ') == cs.map_values(|c: (Rank, Suit)| card_name(c)),
    decreases cs.len(),
{
    lemma_card_name_parses(cs.last());
    if cs.len() == 1 {
        assert(cs.map_values(|c: (Rank, Suit)| card_name(c)) =~= seq![card_name(cs[0])]);
    } else {
        lemma_card_names_split(cs.drop_last());
        lemma_split_chars_join(card_names(cs.drop_last()), card_name(cs.last()), ' ');
        assert(cs.map_values(|c: (Rank, Suit)| card_name(c)) =~= cs.drop_last().map_values(
            |c: (Rank, Suit)| card_name(c),
        ) + seq![card_name(cs.last())]);
    }
}

/// The names of the cards, separated by single spaces.
pub open spec fn card_names(cs: Seq<(Rank, Suit)>) -> Seq<char>
    decreases cs.len(),
{
    if cs.len() == 0 {
        Seq::empty()
    } else if cs.len() == 1 {
        card_name(cs[0])
    } else {
        card_names(cs.drop_last()) + seq![' '] + card_name(cs.last())
    }
}

/// A playing card: its rank, its suit, and the one-card deck that holds it.
#[derive(Clone, Copy, Debug, PartialEq, Eq, Structural)]
pub struct Card {
    val: Deck,
    suit: Suit,
    rank: Rank,
}

impl View for Card {
    type V = (Rank, Suit);

    closed spec fn view(&self) -> (Rank, Suit) {
        (self.rank, self.suit)
    }
}

impl Card {
    /// The card's deck holds that card alone.
    #[verifier::type_invariant]
    pub closed spec fn wf(self) -> bool {
        self.val.cards == card_bits(self.rank, self.suit)
    }

    /// Creates the card of the given rank and suit.
    pub fn new(rank: Rank, suit: Suit) -> (card: Card)
        ensures
            card@ == (rank, suit),
    {
        Card { val: Deck::get_card(&rank, &suit), rank, suit }
    }

    /// Two cards are equal exactly when they have the same rank and suit: a card's rank
    /// and suit determine it.
    pub proof fn lemma_eq_iff_same_view(a: Card, b: Card)
        requires
            a.wf(),
            b.wf(),
        ensures
            (a == b) <==> (a@ == b@),
    {
        if a@ == b@ {
            assert(a.val.cards == b.val.cards);
            assert(a.val == b.val);
        }
    }

    /// Creates a card from a one-card deck that holds it.
    fn from_deck_unchecked(val: Deck, rank: Rank, suit: Suit) -> (card: Self)
        requires
            val.cards == card_bits(rank, suit),
        ensures
            card@ == (rank, suit),
    {
        Self { val, rank, suit }
    }

    /// The deck that holds this card alone.
    pub fn get_deck(&self) -> (deck: Deck)
        ensures
            deck@ == set![self@],
            deck.bits() == card_bits(self@.0, self@.1),
    {
        proof {
            use_type_invariant(self);
            self.val.lemma_single(self.rank, self.suit);
        }
        self.val
    }


    /// Reads a card from text such as `Ah`: exactly a rank character then a suit
    /// character.
    pub fn parse(val: &str) -> (res: Result<Self, String>)
        ensures
            res is Ok <==> card_text_ok(val@),
            res matches Ok(c) ==> c@ == card_of_text(val@),
            res matches Err(e) ==> e@ == (if (utf8_len(trim_chars(val@)) as usize) < 2 {
                "Invalid Value"@
            } else {
                "Invalid value"@
            }),
    {
        let trimmed = trim(val);
        if trimmed.len() < 2 {
            return Err("Invalid Value".to_owned());
        }
        let mut chars = val.chars();
        let rank: char = match chars.next() {
            Some(c) => c,
            None => {
                return Err("Invalid value".to_owned());
            },
        };
        let suit: char = match chars.next() {
            Some(c) => c,
            None => {
                return Err("Invalid value".to_owned());
            },
        };
        if chars.next().is_some() {
            return Err("Invalid value".to_owned());
        }
        let rank = match Rank::try_from_char(&rank) {
            Ok(r) => r,
            Err(e) => {
                return Err(e);
            },
        };
        let suit = match Suit::try_from_char(&suit) {
            Ok(s) => s,
            Err(e) => {
                return Err(e);
            },
        };
        Ok(Self::new(rank, suit))
    }

    /// Every card, Aces first, each rank in the suit order clubs, diamonds, hearts,
    /// spades.
    pub fn values() -> (it: CardIterator)
        ensures
            it.remaining() == card_order(true),
    {
        CardIterator::new()
    }

    /// The two-character name of the card, such as `As`.
    pub fn to_string(&self) -> (res: String)
        ensures
            res@ == card_name(self@),
    {
        let mut res = self.rank().to_string();
        let suit = self.suit().to_string();
        res.append(suit.as_str());
        proof {
            assert(res@ =~= card_name(self@));
        }
        res
    }

    /// The rank of the card.
    pub fn rank(&self) -> (r: Rank)
        ensures
            r == self@.0,
    {
        self.rank
    }

    /// The suit of the card.
    pub fn suit(&self) -> (s: Suit)
        ensures
            s == self@.1,
    {
        self.suit
    }
}

/// Any subset of the 52 playing cards, each card at most once.
#[derive(Debug, Clone, Copy, PartialEq, Eq, Structural)]
pub struct Deck {
    cards: u64,
}

impl View for Deck {
    type V = Set<(Rank, Suit)>;

    closed spec fn view(&self) -> Set<(Rank, Suit)> {
        cards_of_bits(self.cards)
    }
}

impl Deck {
    /// Only card bits are set, and each low Ace bit agrees with its Ace.
    #[verifier::type_invariant]
    pub closed spec fn wf(self) -> bool {
        deck_bits_wf(self.cards)
    }

    /// The word that records the deck's cards.
    pub closed spec fn bits(self) -> u64 {
        self.cards
    }

    /// The cards of the deck, Aces first, each rank in the suit order clubs, diamonds,
    /// hearts, spades (`rank_first`), or suit by suit from the Ace down.
    pub closed spec fn ordered(self, rank_first: bool) -> Seq<(Rank, Suit)> {
        ordered_cards(self.cards, rank_first)
    }

    proof fn lemma_single(self, r: Rank, s: Suit)
        requires
            self.cards == card_bits(r, s),
        ensures
            self@ == set![(r, s)],
    {
        assert forall|c: (Rank, Suit)| self@.contains(c) <==> c == (r, s) by {
            lemma_card_bits_has(r, s, c);
        }
        assert(self@ =~= set![(r, s)]);
    }

    /// Two decks are equal exactly when they hold the same cards: a deck's cards
    /// determine it.
    pub proof fn lemma_eq_iff_same_cards(a: Deck, b: Deck)
        requires
            a.wf(),
            b.wf(),
        ensures
            (a == b) <==> (a@ == b@),
    {
        if a@ == b@ {
            assert forall|c: (Rank, Suit)| bits_has(a.cards, c.0, c.1) == bits_has(b.cards, c.0, c.1) by {
                assert(a@.contains(c) == b@.contains(c));
            }
            lemma_wf_ext(a.cards, b.cards);
        }
    }

    /// Reading a deck's text gives back the deck: `Deck::parse` undoes `Deck::to_string`
    /// for every deck that holds a card (the text of the empty deck is empty, and
    /// `parse` refuses it).
    pub proof fn lemma_text_parses(d: Deck)
        requires
            d@.len() > 0,
        ensures
            ({
                let pieces = split_chars(card_names(d.ordered(true)), ' ');
                &&& forall|i: int| 0 <= i < pieces.len() ==> card_text_ok(#[trigger] pieces[i])
                &&& pieces.map_values(|t: Seq<char>| card_of_text(t)).to_set() == d@
            }),
    {
        let cs = d.ordered(true);
        d.lemma_ordered(true);
        lemma_card_names_split(cs);
        let pieces = split_chars(card_names(cs), ' ');
        assert forall|i: int| 0 <= i < pieces.len() implies card_text_ok(#[trigger] pieces[i]) by {
            lemma_card_name_parses(cs[i]);
        }
        assert(pieces.map_values(|t: Seq<char>| card_of_text(t)) =~= cs) by {
            assert forall|i: int| 0 <= i < cs.len() implies pieces.map_values(
                |t: Seq<char>| card_of_text(t),
            )[i] == cs[i] by {
                lemma_card_name_parses(cs[i]);
            }
        }
    }

    /// A card order lists each card of the deck once.
    pub proof fn lemma_ordered(self, rank_first: bool)
        ensures
            self.ordered(rank_first).no_duplicates(),
            self.ordered(rank_first).to_set() == self@,
            self.ordered(rank_first).len() == self@.len(),
    {
        lemma_ordered_cards(self.cards, rank_first);
    }

    /// A card order of the deck is the order of all cards kept to the deck's cards.
    pub proof fn lemma_ordered_set(self, rank_first: bool)
        ensures
            self.ordered(rank_first) == set_in_order(self@, rank_first),
    {
        assert(holds(self.cards) =~= |c: (Rank, Suit)| self@.contains(c));
    }

    /// Creates a deck with no cards.
    pub fn empty() -> (deck: Self)
        ensures
            deck@ == Set::<(Rank, Suit)>::empty(),
    {
        proof {
            crate::deck::bits::lemma_zero_words();
            lemma_wf_empty(0u64);
        }
        Self { cards: 0 }
    }

    /// Creates a deck that holds all 52 cards.
    pub fn all_cards() -> (deck: Self)
        ensures
            deck@ == all_cards_set(),
    {
        proof {
            lemma_mask_values();
            lemma_all_cards_bits();
        }
        Self { cards: ALL_CARDS_BITFIELD }
    }



    /// Every way of choosing `num_cards` cards of the deck, one deck each: the index lists
    /// of `lex_combinations` into `ordered(true)`, in that order; none when `num_cards`
    /// is zero.
    pub fn enumerate_combinations(self, num_cards: usize) -> (it: DeckIterator)
        ensures
            it.remaining() == lex_combinations(self@.len(), num_cards as nat).map_values(
                |c: Seq<usize>| combo_cards(self, c),
            ),
    {
        DeckIterator::new(self, num_cards)
    }

    /// Reads a deck from card names separated by single spaces, such as `As Kd`.
    pub fn parse(val: &str) -> (res: Result<Self, String>)
        ensures
            res is Ok <==> forall|i: int|
                0 <= i < split_chars(val@, ' ').len() ==> card_text_ok(
                    #[trigger] split_chars(val@, ' ')[i],
                ),
            res matches Ok(d) ==> d@ == split_chars(val@, ' ').map_values(
                |t: Seq<char>| card_of_text(t),
            ).to_set(),
            res matches Err(e) ==> e@ == "Invalid value for card"@,
    {
        let pieces = split_on_space(val);
        let ghost texts = split_chars(val@, ' ');
        let mut owned_cards: Vec<Card> = Vec::new();
        let mut i: usize = 0;
        while i < pieces.len()
            invariant
                0 <= i <= pieces.len(),
                pieces@.map_values(|p: &str| p@) == texts,
                texts == split_chars(val@, ' '),
                owned_cards.len() == i,
                forall|j: int| 0 <= j < i ==> card_text_ok(#[trigger] texts[j]),
                forall|j: int| 0 <= j < i ==> (#[trigger] owned_cards@[j])@ == card_of_text(texts[j]),
            decreases pieces.len() - i,
        {
            proof {
                assert(pieces@.map_values(|p: &str| p@)[i as int] == pieces@[i as int]@);
            }
            match Card::parse(pieces[i]) {
                Ok(card) => {
                    owned_cards.push(card);
                },
                Err(_) => {
                    proof {
                        assert(!card_text_ok(split_chars(val@, ' ')[i as int]));
                    }
                    return Err("Invalid value for card".to_owned());
                },
            }
            i = i + 1;
        }
        let mut empty = Self::empty();
        empty.insert_cards(owned_cards.as_slice());
        proof {
            assert(card_views(owned_cards@) =~= texts.map_values(|t: Seq<char>| card_of_text(t)));
        }
        Ok(empty)
    }

    /// The names of the deck's cards in the order `ordered(true)`, separated by single
    /// spaces.
    pub fn to_string(&self) -> (res: String)
        ensures
            res@ == card_names(self.ordered(true)),
    {
        let mut iterator = DeckCardIterator::new(*self, true);
        proof {
            assert(card_order(true).skip(0) =~= card_order(true));
        }
        let ghost all = self.ordered(true);
        proof {
            self.lemma_ordered(true);
            lemma_cards_finite(self@);
        }
        let mut res = String::new();
        let mut n: usize = 0;
        loop
            invariant
                n <= all.len() <= 52,
                all == self.ordered(true),
                iterator.remaining() == all.skip(n as int),
                res@ == card_names(all.take(n as int)),
            decreases all.len() - n,
        {
            match iterator.next() {
                Some(card) => {
                    let name = card.to_string();
                    if n > 0 {
                        res.append(" ");
                    }
                    res.append(name.as_str());
                    proof {
                        reveal_strlit(" ");
                        assert(all.take(n + 1).drop_last() =~= all.take(n as int));
                        assert(all.skip(n as int).drop_first() =~= all.skip(n + 1));
                        if n == 0 {
                            assert(res@ =~= card_names(all.take(n + 1)));
                        } else {
                            assert(res@ =~= card_names(all.take(n + 1)));
                        }
                    }
                    n = n + 1;
                },
                None => {
                    proof {
                        assert(all.take(n as int) =~= all);
                    }
                    return res;
                },
            }
        }
    }

    /// Creates the deck that holds the one card of the given rank and suit.
    pub fn get_card(rank: &Rank, suit: &Suit) -> (deck: Self)
        ensures
            deck@ == set![(*rank, *suit)],
            deck.bits() == card_bits(*rank, *suit),
    {
        proof {
            lemma_card_bits(*rank, *suit);
        }
        let deck = Self { cards: Self::get_bits_for_card(rank, suit) };
        proof {
            deck.lemma_single(*rank, *suit);
        }
        deck
    }

    /// Whether the deck holds the card.
    pub fn has_card(&self, card: &Card) -> (res: bool)
        ensures
            res == self@.contains(card@),
    {
        proof {
            use_type_invariant(self);
            lemma_has_card_bits(self.cards, card@.0, card@.1);
        }
        card.get_deck().cards & self.cards > 0
    }

    /// Whether the deck holds every card of `deck`.
    pub fn has_cards(&self, deck: &Deck) -> (res: bool)
        ensures
            res == deck@.subset_of(self@),
    {
        proof {
            use_type_invariant(self);
            use_type_invariant(deck);
            lemma_subset_bits(deck.cards, self.cards);
        }
        deck.cards & self.cards == deck.cards
    }


    /// Puts each of the cards into the deck.
    pub fn insert_cards(&mut self, cards: &[Card])
        ensures
            final(self)@ == old(self)@.union(card_views(cards@).to_set()),
    {
        let ghost old_set = self@;
        let mut i: usize = 0;
        while i < cards.len()
            invariant
                0 <= i <= cards.len(),
                self@ == old_set.union(card_views(cards@.take(i as int)).to_set()),
            decreases cards.len() - i,
        {
            let single = cards[i].get_deck();
            let bits = single.cards;
            proof {
                use_type_invariant(&*self);
                use_type_invariant(&single);
                lemma_wf_ops(self.cards, bits);
                lemma_cards_ops(self.cards, bits);
                assert(card_views(cards@.take(i + 1)) =~= card_views(cards@.take(i as int)).push(
                    cards@[i as int]@,
                ));
                lemma_push_to_set(card_views(cards@.take(i as int)), cards@[i as int]@);
            }
            self.cards = self.cards | bits;
            proof {
                assert(self@ =~= old_set.union(card_views(cards@.take(i + 1)).to_set()));
            }
            i = i + 1;
        }
        proof {
            assert(cards@.take(cards@.len() as int) =~= cards@);
        }
    }

    /// Takes each of the cards out of the deck; a card that the deck does not hold
    /// changes nothing.
    pub fn remove_cards(&mut self, cards: &[Card])
        ensures
            final(self)@ == old(self)@.difference(card_views(cards@).to_set()),
    {
        let ghost old_set = self@;
        let mut i: usize = 0;
        while i < cards.len()
            invariant
                0 <= i <= cards.len(),
                self@ == old_set.difference(card_views(cards@.take(i as int)).to_set()),
            decreases cards.len() - i,
        {
            let single = cards[i].get_deck();
            let bits = single.cards;
            proof {
                use_type_invariant(&*self);
                use_type_invariant(&single);
                lemma_wf_ops(self.cards, bits);
                lemma_cards_ops(self.cards, bits);
                assert(card_views(cards@.take(i + 1)) =~= card_views(cards@.take(i as int)).push(
                    cards@[i as int]@,
                ));
                lemma_push_to_set(card_views(cards@.take(i as int)), cards@[i as int]@);
            }
            self.cards = self.cards & !bits;
            proof {
                assert(self@ =~= old_set.difference(card_views(cards@.take(i + 1)).to_set()));
            }
            i = i + 1;
        }
        proof {
            assert(cards@.take(cards@.len() as int) =~= cards@);
        }
    }

    /// Takes the card out of the deck when it holds it, and puts it in when it does not.
    pub(crate) fn flip_card(&mut self, card: &Card)
        ensures
            final(self)@ == toggle_card(old(self)@, card@),
    {
        let bits = card.get_deck().cards;
        proof {
            use_type_invariant(&*self);
            lemma_toggle_card_bits(self.cards, card@.0, card@.1);
        }
        self.cards = self.cards ^ bits;
    }

    /// Whether the deck holds no card.
    pub fn is_empty(&self) -> (res: bool)
        ensures
            res == self@.is_empty(),
    {
        proof {
            use_type_invariant(self);
            lemma_wf_empty(self.cards);
        }
        self.cards == 0
    }

    /// The number of cards in the deck.
    pub fn num_cards(&self) -> (n: u32)
        ensures
            n == self@.len(),
            n <= 52,
    {
        let all_ranks = Self::get_without_low_aces(self.cards);
        proof {
            let p = |c: (Rank, Suit)| true;
            lemma_mask_values();
            assert forall|k: int| 0 <= k < 64 implies (bit(ALL_CARDS_NO_LOW_ACES_BITFIELD, k) <==> (
            is_card_pos(k) && p(card_at(k)))) by {
                lemma_mask_no_low(k);
            }
            lemma_count_masked(self.cards, ALL_CARDS_NO_LOW_ACES_BITFIELD, p);
            assert(self@.filter(p) =~= self@);
            lemma_cards_finite(self@);
        }
        count_ones(all_ranks)
    }

    fn get_without_low_aces(cards: u64) -> (res: u64)
        ensures
            res == cards & ALL_CARDS_NO_LOW_ACES_BITFIELD,
    {
        cards & ALL_CARDS_NO_LOW_ACES_BITFIELD
    }

    /// The cards of the deck in the order `ordered(rank_first)`, one at a time.
    pub fn iter(&self, rank_first: bool) -> (it: DeckCardIterator)
        ensures
            it.remaining() == self.ordered(rank_first),
    {
        let it = DeckCardIterator::new(*self, rank_first);
        proof {
            assert(card_order(rank_first).skip(0) =~= card_order(rank_first));
        }
        it
    }

    fn get_nth_card_unchecked(&self, index: usize) -> (card: Card)
        requires
            index < self@.len(),
        ensures
            card@ == self.ordered(true)[index as int],
    {
        proof {
            self.lemma_ordered(true);
        }
        let mut iterator = self.iter(true);
        let mut i: usize = 0;
        loop
            invariant
                i <= index,
                index < self.ordered(true).len(),
                iterator.remaining() == self.ordered(true).skip(i as int),
            decreases index - i,
        {
            let card = iterator.next();
            if i == index {
                return card.unwrap();
            }
            proof {
                assert(self.ordered(true).skip(i as int).drop_first() =~= self.ordered(true).skip(
                    i + 1,
                ));
            }
            i = i + 1;
        }
    }

    fn remove_nth_card_unchecked(&mut self, index: usize) -> (card: Card)
        requires
            index < old(self)@.len(),
        ensures
            card@ == old(self).ordered(true)[index as int],
            final(self)@ == old(self)@.remove(card@),
    {
        let card = self.get_nth_card_unchecked(index);
        proof {
            self.lemma_ordered(true);
            assert(self.ordered(true).contains(self.ordered(true)[index as int]));
            assert(self@.contains(card@));
        }
        let single = [card];
        self.remove_cards(&single);
        proof {
            assert(single@ =~= seq![card]);
            lemma_one_card_views(card);
            assert(self@ =~= old(self)@.remove(card@));
        }
        card
    }

    /// Takes out the card at `index` of `ordered(true)`; fails when the deck holds no more
    /// than `index` cards.
    pub fn try_remove_nth_card(&mut self, index: usize) -> (res: Result<Card, String>)
        ensures
            index >= old(self)@.len() <==> res is Err,
            res matches Err(e) ==> e@ == "Too many cards"@ && *final(self) == *old(self),
            res matches Ok(card) ==> card@ == old(self).ordered(true)[index as int]
                && final(self)@ == old(self)@.remove(card@),
    {
        let num_cards = self.num_cards();
        if index >= num_cards as usize {
            return Err("Too many cards".to_owned());
        }
        Ok(self.remove_nth_card_unchecked(index))
    }

    /// The card at `index` of `ordered(true)`, or `None` when the index is out of bounds.
    pub fn try_get_nth_card(&self, index: usize) -> (res: Option<Card>)
        ensures
            res is Some <==> index < self@.len(),
            res matches Some(card) ==> card@ == self.ordered(true)[index as int],
    {
        let num_cards = self.num_cards();
        if index >= num_cards as usize {
            return None;
        } else {
            return Some(self.get_nth_card_unchecked(index));
        }
    }

    /// Takes out `number_to_remove` cards chosen at random; fails, leaving the deck as it
    /// was, when the deck holds fewer cards.
    pub fn try_remove_random_cards(&mut self, number_to_remove: u32) -> (res: Result<Vec<Card>, String>)
        ensures
            number_to_remove > old(self)@.len() <==> res is Err,
            res matches Err(e) ==> e@ == "Too many cards to remove"@ && *final(self) == *old(self),
            res matches Ok(v) ==> {
                &&& v.len() == number_to_remove
                &&& card_views(v@).no_duplicates()
                &&& card_views(v@).to_set().subset_of(old(self)@)
                &&& final(self)@ == old(self)@.difference(card_views(v@).to_set())
            },
    {
        let mut num_cards = self.num_cards();
        let mut cards: Vec<Card> = Vec::new();
        if number_to_remove > num_cards {
            return Err("Too many cards to remove".to_owned());
        }
        let ghost old_set = self@;
        let mut k: u32 = 0;
        while k < number_to_remove
            invariant
                k <= number_to_remove <= old_set.len(),
                cards.len() == k,
                num_cards == old_set.len() - k,
                self@.len() == num_cards,
                card_views(cards@).no_duplicates(),
                card_views(cards@).to_set().subset_of(old_set),
                self@ == old_set.difference(card_views(cards@).to_set()),
            decreases number_to_remove - k,
        {
            let index = random_below(num_cards);
            let ghost before = self@;
            let ghost before_deck = *self;
            let card = match self.try_remove_nth_card(index as usize) {
                Ok(card) => card,
                Err(e) => {
                    return Err(e);
                },
            };
            proof {
                before_deck.lemma_ordered(true);
                lemma_cards_finite(before);
                assert(before_deck.ordered(true).contains(before_deck.ordered(true)[index as int]));
                assert(before.contains(card@));
                let cs = card_views(cards@);
                assert(card_views(cards@.push(card)) =~= cs.push(card@));
                assert(!cs.contains(card@)) by {
                    if cs.contains(card@) {
                        assert(cs.to_set().contains(card@));
                    }
                };
                lemma_push_to_set(cs, card@);
                assert(self@ =~= old_set.difference(cs.push(card@).to_set()));
            }
            cards.push(card);
            num_cards = num_cards - 1;
            k = k + 1;
        }
        Ok(cards)
    }


    /// For each suit in turn (clubs, diamonds, hearts, spades), the ranks that the deck
    /// holds in that suit.
    pub fn get_single_suit_ranks(&self) -> (it: SingleSuitRankIterator)
        ensures
            it.remaining() == suit_rank_sets(self@, 0),
    {
        SingleSuitRankIterator { deck: *self, suit_index: 0 }
    }

    fn get_single_suit_card_ranks(&self, i: usize) -> (res: u64)
        requires
            i < 4,
        ensures
            rank_bits_wf(res),
            ranks_of_bits(res) == suit_ranks(self@, Suit::from_index(i as int)),
    {
        proof {
            use_type_invariant(self);
            lemma_mask_values();
            lemma_suit_rank_bits(self.cards, i as u64);
            let y = (self.cards >> ((16 * i) as u64)) & 0x3fffu64;
            assert forall|r: Rank| ranks_of_bits(y).contains(r) == suit_ranks(
                self@,
                Suit::from_index(i as int),
            ).contains(r) by {
                lemma_rank_index(r);
                crate::deck::bits::lemma_suit_from_index(i as int);
                assert(bit(y, r.index() + 1) == bit(self.cards, 16 * i + r.index() + 1));
            }
            assert(ranks_of_bits(y) =~= suit_ranks(self@, Suit::from_index(i as int)));
        }
        self.cards >> ((16 * i) as u64) & SINGLE_SUIT_BITFIELD
    }

    /// The ranks that the deck holds, in any suit.
    pub fn get_combined_ranks(&self) -> (res: RankSet)
        ensures
            res@ == combined_ranks(self@),
    {
        RankSet { ranks: self.get_combined_ranks_bits() }
    }

    fn get_combined_ranks_bits(&self) -> (res: u64)
        ensures
            rank_bits_wf(res),
            ranks_of_bits(res) == combined_ranks(self@),
    {
        let mut ranks_combined: u64 = 0;
        let mut i: usize = 0;
        proof {
            crate::deck::bits::lemma_zero_words();
            assert forall|r: Rank| !ranks_of_bits(0u64).contains(r) by {
                crate::deck::bits::lemma_zero_bits(0u64, r.index() + 1);
            }
        }
        while i < 4
            invariant
                0 <= i <= 4,
                rank_bits_wf(ranks_combined),
                forall|r: Rank|
                    ranks_of_bits(ranks_combined).contains(r) <==> exists|s: Suit|
                        s.index() < i && #[trigger] self@.contains((r, s)),
            decreases 4 - i,
        {
            let single = self.get_single_suit_card_ranks(i);
            proof {
                lemma_rank_bits_or(ranks_combined, single);
                crate::deck::bits::lemma_suit_from_index(i as int);
                assert forall|r: Rank|
                    ranks_of_bits(ranks_combined | single).contains(r) <==> exists|s: Suit|
                        s.index() < i + 1 && #[trigger] self@.contains((r, s)) by {
                    let si = Suit::from_index(i as int);
                    if ranks_of_bits(single).contains(r) {
                        assert(self@.contains((r, si)));
                    }
                    if exists|s: Suit| s.index() < i + 1 && #[trigger] self@.contains((r, s)) {
                        let s = choose|s: Suit| s.index() < i + 1 && #[trigger] self@.contains((r, s));
                        if s.index() == i {
                            crate::deck::bits::lemma_suit_index(s);
                            assert(s == si);
                        }
                    }
                }
            }
            ranks_combined = ranks_combined | single;
            i = i + 1;
        }
        proof {
            assert forall|r: Rank| ranks_of_bits(ranks_combined).contains(r) == combined_ranks(
                self@,
            ).contains(r) by {
                if combined_ranks(self@).contains(r) {
                    let s = choose|s: Suit| self@.contains((r, s));
                    crate::deck::bits::lemma_suit_index(s);
                }
            }
            assert(ranks_of_bits(ranks_combined) =~= combined_ranks(self@));
        }
        ranks_combined
    }

    /// How many cards of each rank the deck holds.
    pub fn get_rank_count(&self) -> (res: RankCount)
        ensures
            forall|r: Rank| res.count(r) == rank_count(self@, r),
    {
        RankCount { rank_counts: self.get_rank_counts() }
    }

    fn get_rank_counts(&self) -> (counts: Vec<u32>)
        ensures
            counts.len() == 13,
            forall|i: int| 0 <= i < 13 ==> counts@[i] == rank_count(self@, Rank::from_index(12 - i)),
    {
        let mut counts: Vec<u32> = Vec::new();
        let mut i: usize = 0;
        while i < 13
            invariant
                0 <= i <= 13,
                counts.len() == i,
                forall|j: int| 0 <= j < i ==> counts@[j] == rank_count(self@, Rank::from_index(12 - j)),
            decreases 13 - i,
        {
            let filtered = self.cards & (SINGLE_RANK_FILTER >> (i as u64));
            let n = count_ones(filtered);
            proof {
                lemma_mask_values();
                let r = Rank::from_index(12 - i);
                lemma_rank_from_index(12 - i);
                let p = of_rank(r);
                assert forall|k: int| 0 <= k < 64 implies (bit(SINGLE_RANK_FILTER >> (i as u64), k) <==> (
                is_card_pos(k) && p(card_at(k)))) by {
                    lemma_mask_rank_filter(i as u64, k);
                    if is_card_pos(k) {
                        lemma_rank_from_index(k % 16 - 1);
                        lemma_rank_index(card_at(k).0);
                    }
                }
                lemma_count_masked(self.cards, SINGLE_RANK_FILTER >> (i as u64), p);
                lemma_cards_finite(self@);
                assert(n == rank_count(self@, r));
            }
            counts.push(n);
            i = i + 1;
        }
        counts
    }

    fn get_bits_for_card(rank: &Rank, suit: &Suit) -> (bits: u64)
        ensures
            bits == card_bits(*rank, *suit),
    {
        let rank_bits: u64 = match *rank {
            Rank::Ace => 1 << 13 | 1,
            Rank::Two => 1 << 1,
            Rank::Three => 1 << 2,
            Rank::Four => 1 << 3,
            Rank::Five => 1 << 4,
            Rank::Six => 1 << 5,
            Rank::Seven => 1 << 6,
            Rank::Eight => 1 << 7,
            Rank::Nine => 1 << 8,
            Rank::Ten => 1 << 9,
            Rank::Jack => 1 << 10,
            Rank::Queen => 1 << 11,
            Rank::King => 1 << 12,
        };
        let suit_shift: u64 = match *suit {
            Suit::Clubs => 0,
            Suit::Diamonds => 16,
            Suit::Hearts => 32,
            Suit::Spades => 48,
        };
        let bits = rank_bits << suit_shift;
        bits
    }
}


/// The ranks of each suit of a deck, with the suit, from suit index `i` on.
pub open spec fn suit_rank_sets(cards: Set<(Rank, Suit)>, i: int) -> Seq<(Set<Rank>, Suit)> {
    Seq::new(
        (4 - i) as nat,
        |j: int| (suit_ranks(cards, Suit::from_index(i + j)), Suit::from_index(i + j)),
    )
}

/// Walks the four suits of a deck, giving the ranks that the deck holds in each.
pub struct SingleSuitRankIterator {
    deck: Deck,
    suit_index: usize,
}

impl SingleSuitRankIterator {
    #[verifier::type_invariant]
    closed spec fn wf(self) -> bool {
        self.suit_index <= 4
    }

    /// The suits still to come, each with its ranks.
    pub closed spec fn remaining(self) -> Seq<(Set<Rank>, Suit)> {
        suit_rank_sets(self.deck@, self.suit_index as int)
    }

    /// The next suit with its ranks, or `None` after the spades.
    pub fn next(&mut self) -> (res: Option<(RankSet, Suit)>)
        ensures
            old(self).remaining().len() == 0 ==> res is None && final(self).remaining() == old(
                self,
            ).remaining(),
            old(self).remaining().len() > 0 ==> (res matches Some(p) && (p.0@, p.1) == old(
                self,
            ).remaining()[0] && final(self).remaining() == old(self).remaining().drop_first()),
    {
        proof {
            use_type_invariant(&*self);
        }
        if self.suit_index == 4 {
            None
        } else {
            let ranks = self.deck.get_single_suit_card_ranks(self.suit_index);
            let suit = suit_at(self.suit_index);
            let ghost before = self.remaining();
            self.suit_index = self.suit_index + 1;
            proof {
                assert(before.drop_first() =~= self.remaining());
            }
            Some((RankSet { ranks }, suit))
        }
    }
}

/// A set of ranks. An Ace counts both as the highest rank and, below the Two, as the
/// lowest.
pub struct RankSet {
    ranks: u64,
}

impl View for RankSet {
    type V = Set<Rank>;

    closed spec fn view(&self) -> Set<Rank> {
        ranks_of_bits(self.ranks)
    }
}

/// The 13 ranks from the highest down under a rank order: under `AceIsLow`, the King
/// down to the Two and then the Ace.
pub open spec fn ranks_descending_in(order: RankOrder) -> Seq<Rank> {
    if order == RankOrder::AceIsHigh {
        ranks_descending()
    } else {
        Seq::new(13, |i: int| if i < 12 { Rank::from_index(11 - i) } else { Rank::Ace })
    }
}

/// The ranks of a set from the highest down under a rank order.
pub open spec fn top_ranks_in(rs: Set<Rank>, order: RankOrder) -> Seq<Rank> {
    ranks_descending_in(order).filter(in_ranks(rs))
}

/// Each rank of a set stands once in its ranks from the highest down, under either order.
pub proof fn lemma_top_ranks_in(rs: Set<Rank>, order: RankOrder)
    ensures
        top_ranks_in(rs, order).len() == rs.len(),
        top_ranks_in(rs, order).to_set() == rs,
{
    lemma_top_ranks(rs);
    if order == RankOrder::AceIsLow {
        let o = ranks_descending_in(order);
        assert forall|i: int, j: int| 0 <= i < 13 && 0 <= j < 13 && i != j implies o[i] != o[j] by {
            if i < 12 {
                lemma_rank_from_index(11 - i);
            }
            if j < 12 {
                lemma_rank_from_index(11 - j);
            }
        }
        assert forall|r: Rank| o.contains(r) by {
            lemma_rank_index(r);
            if r == Rank::Ace {
                assert(o[12] == r);
            } else {
                assert(o[11 - r.index()] == r);
            }
        }
        o.unique_seq_to_set();
        assert(o.to_set() =~= all_ranks_set());
        lemma_filter_no_dup(o, in_ranks(rs));
        lemma_filter_to_set(o, in_ranks(rs));
        assert(o.to_set().filter(in_ranks(rs)) =~= rs);
        top_ranks_in(rs, order).unique_seq_to_set();
    }
}

impl RankSet {
    #[verifier::type_invariant]
    closed spec fn wf(self) -> bool {
        rank_bits_wf(self.ranks)
    }

    /// The word that records the ranks.
    pub closed spec fn bits(self) -> u64 {
        self.ranks
    }

    /// The set of the ranks that a valid rank word records.
    pub(crate) fn from_bits(ranks: u64) -> (s: Self)
        requires
            rank_bits_wf(ranks),
        ensures
            s.bits() == ranks,
            s@ == ranks_of_bits(ranks),
    {
        RankSet { ranks }
    }

    /// The word that records the set.
    pub(crate) fn to_bits(&self) -> (ranks: u64)
        ensures
            ranks == self.bits(),
            rank_bits_wf(ranks),
            self@ == ranks_of_bits(ranks),
    {
        proof {
            use_type_invariant(self);
        }
        self.ranks
    }

    /// The number of distinct ranks in the set.
    pub fn num_unique_ranks(&self) -> (n: u32)
        ensures
            n == self@.len(),
    {
        proof {
            use_type_invariant(self);
            lemma_mask_values();
            lemma_rank_bits_popcount(self.ranks);
        }
        count_ones(self.ranks & SINGLE_SUIT_HIGH_ACE_BITFIELD)
    }

    /// The five highest ranks under the rank order, from the highest down, when the set
    /// holds at least five.
    pub fn get_highest_five(&self, rank_order: &RankOrder) -> (res: Option<[Rank; 5]>)
        ensures
            res is Some <==> self@.len() >= 5,
            res matches Some(a) ==> a@ == top_ranks_in(self@, *rank_order).take(5),
    {
        proof {
            use_type_invariant(self);
            lemma_mask_values();
            lemma_rank_bits_popcount(self.ranks);
            lemma_rank_bits_popcount_low(self.ranks);
        }
        let all_ranks = self.ranks & match rank_order {
            RankOrder::AceIsHigh => SINGLE_SUIT_HIGH_ACE_BITFIELD,
            RankOrder::AceIsLow => SINGLE_SUIT_LOW_ACE_BITFIELD,
        };
        let count = count_ones(all_ranks);
        if count < 5 {
            None
        } else {
            let ghost src = self@;
            let ghost desc = ranks_descending_in(*rank_order);
            proof {
                lemma_top_ranks_in(src, *rank_order);
                lemma_rank_bits_wf_bit(self.ranks, 0);
            }
            let mut return_val: Vec<Rank> = Vec::new();
            let mut i: usize = 1;
            proof {
                assert(desc.take(13) =~= desc);
                assert(desc.take(0) =~= Seq::<Rank>::empty());
                reveal(Seq::filter);
            }
            while i < 14
                invariant_except_break
                    1 <= i <= 14,
                    return_val@ == desc.take(i - 1).filter(in_ranks(src)),
                    return_val.len() < 5,
                invariant
                    src == self@,
                    desc == ranks_descending_in(*rank_order),
                    desc.take(13) == desc,
                    src.len() >= 5,
                    top_ranks_in(src, *rank_order).len() == src.len(),
                    rank_bits_wf(self.ranks),
                    bit(self.ranks, 0) == bit(self.ranks, 13),
                    all_ranks == self.ranks & (if *rank_order == RankOrder::AceIsHigh {
                        0x3ffeu64
                    } else {
                        0x1fffu64
                    }),
                ensures
                    return_val@ == top_ranks_in(src, *rank_order).take(5),
                decreases 14 - i,
            {
                let shift: u64 = match rank_order {
                    RankOrder::AceIsHigh => (14 - i) as u64,
                    RankOrder::AceIsLow => (13 - i) as u64,
                };
                let target: u64 = 1 << shift;
                let present = target & all_ranks == target;
                let rank = match rank_order {
                    RankOrder::AceIsHigh => rank_at(13 - i),
                    RankOrder::AceIsLow => if i == 13 {
                        Rank::Ace
                    } else {
                        rank_at(12 - i)
                    },
                };
                proof {
                    let kk = shift;
                    assert(((1u64 << kk) & all_ranks == (1u64 << kk)) == ((all_ranks >> kk) & 1u64
                        == 1u64)) by (bit_vector)
                        requires
                            kk < 64,
                    ;
                    lemma_bit_ops(self.ranks, if *rank_order == RankOrder::AceIsHigh {
                        0x3ffeu64
                    } else {
                        0x1fffu64
                    }, kk as int);
                    lemma_rank_masks(kk);
                    if kk >= 1 {
                        lemma_rank_from_index(kk - 1);
                    }
                    assert(desc[i - 1] == rank);
                    assert(present == src.contains(rank));
                    assert(desc.take(i as int) =~= desc.take(i - 1).push(rank));
                    reveal(Seq::filter);
                    assert(desc.take(i as int).drop_last() =~= desc.take(i - 1));
                }
                if present {
                    return_val.push(rank);
                    if return_val.len() == 5 {
                        proof {
                            let t = desc.take(i as int);
                            assert(desc =~= t + desc.skip(i as int));
                            Seq::filter_distributes_over_add(t, desc.skip(i as int), in_ranks(src));
                            assert(top_ranks_in(src, *rank_order) == t.filter(in_ranks(src)) + desc.skip(
                                i as int,
                            ).filter(in_ranks(src)));
                            assert(top_ranks_in(src, *rank_order).take(5) =~= t.filter(in_ranks(src)));
                        }
                        break;
                    }
                }
                i = i + 1;
            }
            proof {
                if return_val.len() < 5 {
                    assert(desc.take(13) =~= desc);
                    assert(false);
                }
            }
            Some([return_val[0], return_val[1], return_val[2], return_val[3], return_val[4]])
        }
    }

    /// The first step `i`, below `15 - field_length`, at which the bits of
    /// `required_on_bits` shifted left by `14 - field_length - i` are all among the rank
    /// bits, as the rank with index `17 - field_length - i`.
    pub fn matches_pattern(&self, required_on_bits: u64, field_length: usize) -> (res: Option<Rank>)
        requires
            field_length <= 15,
            field_length < 5 ==> (first_pattern_from(
                self.bits(),
                required_on_bits,
                field_length as int,
                0,
            ) matches Some(i) ==> field_length + i >= 5),
        ensures
            res == match first_pattern_from(self.bits(), required_on_bits, field_length as int, 0) {
                Some(i) => Some(Rank::from_index(17 - field_length - i)),
                None => None,
            },
            required_on_bits == 0x1f && field_length == 5 ==> res == best_straight(self@),
    {
        proof {
            use_type_invariant(self);
            lemma_straight_pattern(self.ranks, 0);
        }
        let ghost fl = field_length as int;
        let mut i: usize = 0;
        while i < 15 - field_length
            invariant
                0 <= i <= 15 - field_length,
                field_length <= 15,
                fl == field_length,
                first_pattern_from(self.ranks, required_on_bits, fl, 0) == first_pattern_from(
                    self.ranks,
                    required_on_bits,
                    fl,
                    i as int,
                ),
                fl < 5 ==> (first_pattern_from(self.ranks, required_on_bits, fl, 0) matches Some(j)
                    ==> fl + j >= 5),
            decreases 15 - field_length - i,
        {
            let shift = (14 - field_length - i) as u64;
            let must_match = required_on_bits << shift;
            proof {
                assert(shift == (14 - fl - i) as u64);
                assert((must_match & self.ranks == must_match) == pattern_at(
                    self.ranks,
                    required_on_bits,
                    shift,
                ));
            }
            if must_match & self.ranks == must_match {
                proof {
                    assert(first_pattern_from(self.ranks, required_on_bits, fl, i as int) == Some(
                        i as int,
                    ));
                    lemma_rank_from_index(17 - fl - i);
                    use_type_invariant(self);
                    lemma_straight_pattern(self.ranks, 0);
                }
                return Some(rank_at(15 - field_length - i + 2));
            }
            i = i + 1;
        }
        proof {
            use_type_invariant(self);
            lemma_straight_pattern(self.ranks, 0);
        }
        return None;
    }
}

/// How many cards of each rank a deck holds.
pub struct RankCount {
    rank_counts: Vec<u32>,
}

impl RankCount {
    #[verifier::type_invariant]
    closed spec fn wf(self) -> bool {
        self.rank_counts.len() == 13
    }

    /// The number of cards of a rank.
    pub closed spec fn count(self, r: Rank) -> nat {
        self.rank_counts@[12 - r.index()] as nat
    }

    /// The count of each rank.
    pub open spec fn counts(self) -> spec_fn(Rank) -> nat {
        |r: Rank| self.count(r)
    }

    /// The highest rank not in `ranks_to_exclude` with at least `target_count` cards.
    pub fn find_highest_with_n(&self, ranks_to_exclude: &Vec<Rank>, target_count: u32) -> (res: Option<Rank>)
        ensures
            res == highest_with_count(self.counts(), ranks_to_exclude@, target_count as nat),
    {
        proof {
            use_type_invariant(self);
        }
        let mut index: usize = 0;
        while index < 13
            invariant
                0 <= index <= 13,
                self.rank_counts.len() == 13,
                highest_with_count(self.counts(), ranks_to_exclude@, target_count as nat)
                    == highest_with_count_from(
                    self.counts(),
                    ranks_to_exclude@,
                    target_count as nat,
                    index as int,
                ),
            decreases 13 - index,
        {
            let rank = rank_at(12 - index);
            let val = self.rank_counts[index];
            proof {
                lemma_rank_from_index(12 - index);
                assert(self.count(rank) == val);
            }
            if contains_rank(ranks_to_exclude, rank) {
                index = index + 1;
                continue;
            } else {
                if val >= target_count {
                    return Some(rank);
                }
            }
            index = index + 1;
        }
        return None;
    }
}

/// Whether the ranks hold `rank`.
fn contains_rank(ranks: &Vec<Rank>, rank: Rank) -> (res: bool)
    ensures
        res == ranks@.contains(rank),
{
    let mut i: usize = 0;
    while i < ranks.len()
        invariant
            0 <= i <= ranks.len(),
            forall|j: int| 0 <= j < i ==> ranks@[j] != rank,
        decreases ranks.len() - i,
    {
        if ranks[i] == rank {
            return true;
        }
        i = i + 1;
    }
    false
}

/// Walks all 52 cards in the order `card_order(true)`.
pub struct CardIterator {
    last_index: usize,
}

impl CardIterator {
    #[verifier::type_invariant]
    closed spec fn wf(self) -> bool {
        self.last_index <= 52
    }

    /// The cards still to come.
    pub closed spec fn remaining(self) -> Seq<(Rank, Suit)> {
        card_order(true).skip(self.last_index as int)
    }

    /// Starts before the first card.
    pub fn new() -> (it: Self)
        ensures
            it.remaining() == card_order(true),
    {
        proof {
            assert(card_order(true).skip(0) =~= card_order(true));
        }
        Self { last_index: 0 }
    }

    /// The next card, or `None` after the last.
    pub fn next(&mut self) -> (res: Option<Card>)
        ensures
            old(self).remaining().len() == 0 ==> res is None && final(self).remaining() == old(
                self,
            ).remaining(),
            old(self).remaining().len() > 0 ==> (res matches Some(c) && c@ == old(
                self,
            ).remaining()[0] && final(self).remaining() == old(self).remaining().drop_first()),
    {
        proof {
            use_type_invariant(&*self);
        }
        if self.last_index >= 52 {
            return None;
        }
        let deck = Deck::all_cards();
        proof {
            deck.lemma_ordered(true);
            lemma_all_cards_finite();
            crate::deck::bits::lemma_card_order(true);
            let o = card_order(true);
            assert forall|i: int| 0 <= i < o.len() implies holds(deck.bits())(#[trigger] o[i]) by {
                assert(deck@.contains(o[i]));
            }
            crate::deck::bits::lemma_filter_all(o, holds(deck.bits()));
        }
        let card = Some(deck.get_nth_card_unchecked(self.last_index));
        let ghost before = self.remaining();
        self.last_index = self.last_index + 1;
        proof {
            assert(before.drop_first() =~= self.remaining());
        }
        card
    }
}

/// The cards of a deck at the given indices of `ordered(true)`.
pub open spec fn combo_cards(deck: Deck, c: Seq<usize>) -> Set<(Rank, Suit)> {
    c.map_values(|i: usize| deck.ordered(true)[i as int]).to_set()
}

/// Walks the ways of choosing a number of cards from a deck.
pub struct DeckIterator {
    deck: Deck,
    iterator: CombinationIterator,
}

impl DeckIterator {
    #[verifier::type_invariant]
    closed spec fn wf(self) -> bool {
        forall|i: int, j: int|
            0 <= i < combinations_remaining(self.iterator).len() && 0 <= j < combinations_remaining(
                self.iterator,
            )[i].len() ==> #[trigger] combinations_remaining(self.iterator)[i][j]
                < self.deck@.len()
    }

    /// The choices still to come, each as the set of chosen cards.
    pub closed spec fn remaining(self) -> Seq<Set<(Rank, Suit)>> {
        combinations_remaining(self.iterator).map_values(|c: Seq<usize>| combo_cards(self.deck, c))
    }

    fn new(deck: Deck, size: usize) -> (it: Self)
        ensures
            it.remaining() == lex_combinations(deck@.len(), size as nat).map_values(
                |c: Seq<usize>| combo_cards(deck, c),
            ),
    {
        let num_cards = deck.num_cards();
        let iterator = combination_iter_new(num_cards as usize, size);
        proof {
            lemma_combinations_from(num_cards as nat, size as nat, 0);
        }
        Self { deck: deck, iterator }
    }

    /// The next choice of cards as a deck, or `None` when every choice has come.
    pub fn next(&mut self) -> (res: Option<Deck>)
        ensures
            old(self).remaining().len() == 0 ==> res is None && final(self).remaining() == old(
                self,
            ).remaining(),
            old(self).remaining().len() > 0 ==> (res matches Some(d) && d@ == old(
                self,
            ).remaining()[0] && final(self).remaining() == old(self).remaining().drop_first()),
    {
        proof {
            use_type_invariant(&*self);
        }
        let ghost before = self.remaining();
        let ghost combos = combinations_remaining(self.iterator);
        let ghost deck = self.deck;
        match combination_iter_next(&mut self.iterator) {
            Some(vals) => {
                proof {
                    assert(before.drop_first() =~= self.remaining());
                }
                let mut cards: Vec<Card> = Vec::new();
                let mut j: usize = 0;
                while j < vals.len()
                    invariant
                        0 <= j <= vals.len(),
                        vals@ == combos[0],
                        combos.len() > 0,
                        deck == self.deck,
                        forall|l: int| 0 <= l < vals.len() ==> #[trigger] vals@[l] < deck@.len(),
                        cards.len() == j,
                        forall|l: int|
                            0 <= l < j ==> (#[trigger] cards@[l])@ == deck.ordered(true)[vals@[l] as int],
                    decreases vals.len() - j,
                {
                    proof {
                        assert(vals@[j as int] == combos[0][j as int]);
                    }
                    let card = self.deck.get_nth_card_unchecked(vals[j]);
                    cards.push(card);
                    j = j + 1;
                }
                let mut deck_out = Deck::empty();
                deck_out.insert_cards(cards.as_slice());
                proof {
                    assert(card_views(cards@) =~= vals@.map_values(
                        |i: usize| deck.ordered(true)[i as int],
                    ));
                    assert(deck_out@ =~= combo_cards(deck, combos[0]));
                }
                Some(deck_out)
            },
            None => None,
        }
    }
}

/// Walks the cards of a deck in one of the two card orders.
pub struct DeckCardIterator {
    suit_index: usize,
    rank_index: usize,
    rank_first: bool,
    deck: Deck,
}

impl DeckCardIterator {
    #[verifier::type_invariant]
    closed spec fn wf(self) -> bool {
        if self.rank_first {
            self.suit_index < 4 && self.rank_index <= 13 && (self.rank_index == 13
                ==> self.suit_index == 0)
        } else {
            self.rank_index < 13 && self.suit_index <= 4 && (self.suit_index == 4
                ==> self.rank_index == 0)
        }
    }

    closed spec fn position(self) -> int {
        if self.rank_first {
            self.rank_index * 4 + self.suit_index
        } else {
            self.suit_index * 13 + self.rank_index
        }
    }

    /// The cards still to come, in order.
    pub closed spec fn remaining(self) -> Seq<(Rank, Suit)> {
        card_order(self.rank_first).skip(self.position()).filter(holds(self.deck.cards))
    }

    fn new(deck: Deck, rank_first: bool) -> (it: Self)
        ensures
            it.remaining() == card_order(rank_first).skip(0).filter(holds(deck.bits())),
    {
        Self { suit_index: 0, rank_index: 0, rank_first, deck }
    }

    /// The next card, or `None` when every card has come.
    pub fn next(&mut self) -> (res: Option<Card>)
        ensures
            old(self).remaining().len() == 0 ==> res is None && final(self).remaining() == old(
                self,
            ).remaining(),
            old(self).remaining().len() > 0 ==> (res matches Some(c) && c@ == old(
                self,
            ).remaining()[0] && final(self).remaining() == old(self).remaining().drop_first()),
    {
        let ghost start = self.remaining();
        loop
            invariant
                self.remaining() == start,
                start == old(self).remaining(),
            decreases 52 - self.position(),
        {
            proof {
                use_type_invariant(&*self);
                use_type_invariant(&self.deck);
            }
            if self.suit_index >= 4 || self.rank_index >= 13 {
                proof {
                    lemma_order_end(self.deck.cards, self.rank_first);
                    assert(self.position() == 52);
                }
                return None;
            }
            let ghost pos = self.position();
            let rank = rank_at(12 - self.rank_index);
            let suit = suit_at(self.suit_index);
            let bit_to_check = Deck::get_bits_for_card(&rank, &suit);
            let present = self.deck.cards & bit_to_check == bit_to_check;
            proof {
                lemma_holds_card_bits(self.deck.cards, rank, suit);
                lemma_card_bits(rank, suit);
                assert(card_order(self.rank_first)[pos] == (rank, suit));
                lemma_order_step(self.deck.cards, self.rank_first, pos);
            }
            let card = if present {
                Some(Card::from_deck_unchecked(Deck { cards: bit_to_check }, rank, suit))
            } else {
                None
            };
            if self.rank_first {
                self.suit_index = (self.suit_index + 1) % 4;
                if self.suit_index == 0 {
                    self.rank_index = self.rank_index + 1;
                }
            } else {
                self.rank_index = (self.rank_index + 1) % 13;
                if self.rank_index == 0 {
                    self.suit_index = self.suit_index + 1;
                }
            }
            proof {
                assert(self.position() == pos + 1);
            }
            if card.is_some() {
                proof {
                    assert(start.drop_first() =~= self.remaining());
                }
                return card;
            }
        }
    }
}

impl core::ops::BitOr for Deck {
    type Output = Deck;

    fn bitor(self, rhs: Self) -> (res: Self::Output)
        ensures
            res@ == self@.union(rhs@),
    {
        proof {
            use_type_invariant(&self);
            use_type_invariant(&rhs);
            lemma_wf_ops(self.cards, rhs.cards);
            lemma_cards_ops(self.cards, rhs.cards);
        }
        Self { cards: self.cards | rhs.cards }
    }
}

impl core::ops::Sub for Deck {
    type Output = Deck;

    fn sub(self, rhs: Self) -> (res: Self::Output)
        ensures
            res@ == self@.difference(rhs@),
    {
        proof {
            use_type_invariant(&self);
            use_type_invariant(&rhs);
            lemma_wf_ops(self.cards, rhs.cards);
            lemma_cards_ops(self.cards, rhs.cards);
        }
        let cards = self.cards & !(rhs.cards);
        Deck { cards }
    }
}

impl vstd::std_specs::ops::SubSpecImpl for Deck {
    open spec fn obeys_sub_spec() -> bool {
        true
    }

    open spec fn sub_req(self, rhs: Deck) -> bool {
        true
    }

    closed spec fn sub_spec(self, rhs: Deck) -> Deck {
        Deck { cards: self.cards & !rhs.cards }
    }
}

impl core::ops::SubAssign for Deck {
    fn sub_assign(&mut self, rhs: Self)
        ensures
            final(self)@ == old(self)@.difference(rhs@),
    {
        *self = *self - rhs;
    }
}

impl vstd::std_specs::ops::BitOrSpecImpl for Deck {
    open spec fn obeys_bitor_spec() -> bool {
        true
    }

    open spec fn bitor_req(self, rhs: Deck) -> bool {
        true
    }

    closed spec fn bitor_spec(self, rhs: Deck) -> Deck {
        Deck { cards: self.cards | rhs.cards }
    }
}

} // verus!
