use vstd::prelude::*;
use vstd::set_lib::*;
use crate::deck::rank::Rank;
use crate::deck::suit::Suit;

verus! {

// A set of cards is held in a `u64`: suit `s` owns the sixteen bits from `16 * s`.
// Within a suit, rank `r` (Two = 0 .. Ace = 12) sits at bit `r + 1`; an Ace is also
// recorded at bit 0 of its suit, so that it can end a straight as the lowest card.

/// Bits 0 to 13 of one suit: every rank, with the Ace both low and high.
pub const SINGLE_SUIT_BITFIELD: u64 = 0b11111111111111;

/// Bits of one suit without the low Ace.
pub const SINGLE_SUIT_HIGH_ACE_BITFIELD: u64 = 0b11111111111110;

/// Bits of one suit without the high Ace: the low Ace, then Two up to King.
pub const SINGLE_SUIT_LOW_ACE_BITFIELD: u64 = 0b01111111111111;

/// Every bit that a card may set, in all four suits.
pub const ALL_CARDS_BITFIELD: u64 = SINGLE_SUIT_BITFIELD | SINGLE_SUIT_BITFIELD << 16
    | SINGLE_SUIT_BITFIELD << 32 | SINGLE_SUIT_BITFIELD << 48;

/// Every card bit of the four suits, without the low Aces: one bit per card.
pub const ALL_CARDS_NO_LOW_ACES_BITFIELD: u64 = SINGLE_SUIT_HIGH_ACE_BITFIELD
    | SINGLE_SUIT_HIGH_ACE_BITFIELD << 16 | SINGLE_SUIT_HIGH_ACE_BITFIELD << 32
    | SINGLE_SUIT_HIGH_ACE_BITFIELD << 48;

/// The high Ace bit of a single suit.
pub const SINGLE_RANK_BITFIELD: u64 = 0b00010000000000000;

/// The high Ace bit of each of the four suits.
pub const SINGLE_RANK_FILTER: u64 = SINGLE_RANK_BITFIELD | SINGLE_RANK_BITFIELD << 16
    | SINGLE_RANK_BITFIELD << 32 | SINGLE_RANK_BITFIELD << 48;

/// The low Ace bit of each of the four suits.
pub open spec fn low_aces() -> u64 {
    0x0001_0001_0001_0001u64
}

/// Whether bit `k` of `x` is set.
pub open spec fn bit(x: u64, k: int) -> bool {
    0 <= k < 64 && (x >> (k as u64)) & 1u64 == 1u64
}

/// The bit that records a card (its high bit, for an Ace).
pub open spec fn card_pos(r: Rank, s: Suit) -> int {
    16 * s.index() + r.index() + 1
}

/// Whether bit `k` is the position of some card.
pub open spec fn is_card_pos(k: int) -> bool {
    0 <= k < 64 && 1 <= k % 16 <= 13
}

/// The card recorded at a card position.
pub open spec fn card_at(k: int) -> (Rank, Suit) {
    (Rank::from_index(k % 16 - 1), Suit::from_index(k / 16))
}

/// Whether the bits hold the card of rank `r` and suit `s`.
pub open spec fn bits_has(x: u64, r: Rank, s: Suit) -> bool {
    bit(x, card_pos(r, s))
}

/// The set of cards that the bits hold.
pub open spec fn cards_of_bits(x: u64) -> Set<(Rank, Suit)> {
    Set::new(|c: (Rank, Suit)| bits_has(x, c.0, c.1))
}

/// The bits are a valid set of cards: only card bits are set, and each suit's low Ace
/// bit agrees with its high Ace bit.
pub open spec fn deck_bits_wf(x: u64) -> bool {
    &&& x & !0x3fff_3fff_3fff_3fffu64 == 0
    &&& x & low_aces() == (x >> 13u64) & low_aces()
}

/// The bits of a rank within a suit.
pub open spec fn rank_bits(r: Rank) -> u64 {
    if r == Rank::Ace {
        (1u64 << 13u64) | 1u64
    } else {
        1u64 << ((r.index() + 1) as u64)
    }
}

/// How far a suit's bits are shifted.
pub open spec fn suit_shift(s: Suit) -> u64 {
    (16 * s.index()) as u64
}

/// The bits of a single card.
pub open spec fn card_bits(r: Rank, s: Suit) -> u64 {
    rank_bits(r) << suit_shift(s)
}

/// Number of set bits among the lowest `n` bits.
pub open spec fn bits_below(x: u64, n: nat) -> nat
    decreases n,
{
    if n == 0 {
        0
    } else {
        bits_below(x, (n - 1) as nat) + if bit(x, n - 1) {
            1nat
        } else {
            0nat
        }
    }
}

/// Number of set bits of `x`.
pub open spec fn popcount(x: u64) -> nat {
    bits_below(x, 64)
}

/// The positions of the set bits of `x`.
pub open spec fn bit_set(x: u64) -> Set<int> {
    Set::new(|k: int| bit(x, k))
}

/// Number of set bits, counted bit by bit.
pub fn count_ones(x: u64) -> (r: u32)
    ensures
        r == popcount(x),
{
    let mut r: u32 = 0;
    let mut i: u64 = 0;
    while i < 64
        invariant
            i <= 64,
            r == bits_below(x, i as nat),
            r <= i,
        decreases 64 - i,
    {
        if (x >> i) & 1 == 1 {
            r = r + 1;
        }
        i = i + 1;
    }
    r
}

pub proof fn lemma_bit_ops(x: u64, y: u64, k: int)
    ensures
        bit(x | y, k) == (bit(x, k) || bit(y, k)),
        bit(x & y, k) == (bit(x, k) && bit(y, k)),
        bit(x ^ y, k) == (bit(x, k) != bit(y, k)),
        bit(x & !y, k) == (bit(x, k) && !bit(y, k)),
{
    if 0 <= k < 64 {
        let kk = k as u64;
        assert(((x | y) >> kk) & 1u64 == 1u64 <==> ((x >> kk) & 1u64 == 1u64 || (y >> kk) & 1u64
            == 1u64)) by (bit_vector)
            requires
                kk < 64,
        ;
        assert(((x & y) >> kk) & 1u64 == 1u64 <==> ((x >> kk) & 1u64 == 1u64 && (y >> kk) & 1u64
            == 1u64)) by (bit_vector)
            requires
                kk < 64,
        ;
        assert(((x ^ y) >> kk) & 1u64 == 1u64 <==> ((x >> kk) & 1u64 == 1u64) != ((y >> kk) & 1u64
            == 1u64)) by (bit_vector)
            requires
                kk < 64,
        ;
        assert(((x & !y) >> kk) & 1u64 == 1u64 <==> ((x >> kk) & 1u64 == 1u64 && (y >> kk) & 1u64
            != 1u64)) by (bit_vector)
            requires
                kk < 64,
        ;
    }
}

/// A word with no set bit is zero.
pub proof fn lemma_no_bits_zero(w: u64)
    requires
        forall|k: int| 0 <= k < 64 ==> !bit(w, k),
    ensures
        w == 0,
{
    assert(!bit(w, 0));
    assert(!bit(w, 1));
    assert(!bit(w, 2));
    assert(!bit(w, 3));
    assert(!bit(w, 4));
    assert(!bit(w, 5));
    assert(!bit(w, 6));
    assert(!bit(w, 7));
    assert(!bit(w, 8));
    assert(!bit(w, 9));
    assert(!bit(w, 10));
    assert(!bit(w, 11));
    assert(!bit(w, 12));
    assert(!bit(w, 13));
    assert(!bit(w, 14));
    assert(!bit(w, 15));
    assert(!bit(w, 16));
    assert(!bit(w, 17));
    assert(!bit(w, 18));
    assert(!bit(w, 19));
    assert(!bit(w, 20));
    assert(!bit(w, 21));
    assert(!bit(w, 22));
    assert(!bit(w, 23));
    assert(!bit(w, 24));
    assert(!bit(w, 25));
    assert(!bit(w, 26));
    assert(!bit(w, 27));
    assert(!bit(w, 28));
    assert(!bit(w, 29));
    assert(!bit(w, 30));
    assert(!bit(w, 31));
    assert(!bit(w, 32));
    assert(!bit(w, 33));
    assert(!bit(w, 34));
    assert(!bit(w, 35));
    assert(!bit(w, 36));
    assert(!bit(w, 37));
    assert(!bit(w, 38));
    assert(!bit(w, 39));
    assert(!bit(w, 40));
    assert(!bit(w, 41));
    assert(!bit(w, 42));
    assert(!bit(w, 43));
    assert(!bit(w, 44));
    assert(!bit(w, 45));
    assert(!bit(w, 46));
    assert(!bit(w, 47));
    assert(!bit(w, 48));
    assert(!bit(w, 49));
    assert(!bit(w, 50));
    assert(!bit(w, 51));
    assert(!bit(w, 52));
    assert(!bit(w, 53));
    assert(!bit(w, 54));
    assert(!bit(w, 55));
    assert(!bit(w, 56));
    assert(!bit(w, 57));
    assert(!bit(w, 58));
    assert(!bit(w, 59));
    assert(!bit(w, 60));
    assert(!bit(w, 61));
    assert(!bit(w, 62));
    assert(!bit(w, 63));
    assert(w == 0) by (bit_vector)
        requires
            (w >> 0u64) & 1u64 != 1u64,
        (w >> 1u64) & 1u64 != 1u64,
        (w >> 2u64) & 1u64 != 1u64,
        (w >> 3u64) & 1u64 != 1u64,
        (w >> 4u64) & 1u64 != 1u64,
        (w >> 5u64) & 1u64 != 1u64,
        (w >> 6u64) & 1u64 != 1u64,
        (w >> 7u64) & 1u64 != 1u64,
        (w >> 8u64) & 1u64 != 1u64,
        (w >> 9u64) & 1u64 != 1u64,
        (w >> 10u64) & 1u64 != 1u64,
        (w >> 11u64) & 1u64 != 1u64,
        (w >> 12u64) & 1u64 != 1u64,
        (w >> 13u64) & 1u64 != 1u64,
        (w >> 14u64) & 1u64 != 1u64,
        (w >> 15u64) & 1u64 != 1u64,
        (w >> 16u64) & 1u64 != 1u64,
        (w >> 17u64) & 1u64 != 1u64,
        (w >> 18u64) & 1u64 != 1u64,
        (w >> 19u64) & 1u64 != 1u64,
        (w >> 20u64) & 1u64 != 1u64,
        (w >> 21u64) & 1u64 != 1u64,
        (w >> 22u64) & 1u64 != 1u64,
        (w >> 23u64) & 1u64 != 1u64,
        (w >> 24u64) & 1u64 != 1u64,
        (w >> 25u64) & 1u64 != 1u64,
        (w >> 26u64) & 1u64 != 1u64,
        (w >> 27u64) & 1u64 != 1u64,
        (w >> 28u64) & 1u64 != 1u64,
        (w >> 29u64) & 1u64 != 1u64,
        (w >> 30u64) & 1u64 != 1u64,
        (w >> 31u64) & 1u64 != 1u64,
        (w >> 32u64) & 1u64 != 1u64,
        (w >> 33u64) & 1u64 != 1u64,
        (w >> 34u64) & 1u64 != 1u64,
        (w >> 35u64) & 1u64 != 1u64,
        (w >> 36u64) & 1u64 != 1u64,
        (w >> 37u64) & 1u64 != 1u64,
        (w >> 38u64) & 1u64 != 1u64,
        (w >> 39u64) & 1u64 != 1u64,
        (w >> 40u64) & 1u64 != 1u64,
        (w >> 41u64) & 1u64 != 1u64,
        (w >> 42u64) & 1u64 != 1u64,
        (w >> 43u64) & 1u64 != 1u64,
        (w >> 44u64) & 1u64 != 1u64,
        (w >> 45u64) & 1u64 != 1u64,
        (w >> 46u64) & 1u64 != 1u64,
        (w >> 47u64) & 1u64 != 1u64,
        (w >> 48u64) & 1u64 != 1u64,
        (w >> 49u64) & 1u64 != 1u64,
        (w >> 50u64) & 1u64 != 1u64,
        (w >> 51u64) & 1u64 != 1u64,
        (w >> 52u64) & 1u64 != 1u64,
        (w >> 53u64) & 1u64 != 1u64,
        (w >> 54u64) & 1u64 != 1u64,
        (w >> 55u64) & 1u64 != 1u64,
        (w >> 56u64) & 1u64 != 1u64,
        (w >> 57u64) & 1u64 != 1u64,
        (w >> 58u64) & 1u64 != 1u64,
        (w >> 59u64) & 1u64 != 1u64,
        (w >> 60u64) & 1u64 != 1u64,
        (w >> 61u64) & 1u64 != 1u64,
        (w >> 62u64) & 1u64 != 1u64,
        (w >> 63u64) & 1u64 != 1u64,
    ;
}

/// Two words with the same bits are equal.
pub proof fn lemma_bits_ext(a: u64, b: u64)
    requires
        forall|k: int| 0 <= k < 64 ==> bit(a, k) == bit(b, k),
    ensures
        a == b,
{
    assert forall|k: int| 0 <= k < 64 implies !bit(a ^ b, k) by {
        lemma_bit_ops(a, b, k);
    }
    lemma_no_bits_zero(a ^ b);
    assert(a == b) by (bit_vector)
        requires
            a ^ b == 0,
    ;
}


/// Which positions the valid bits may use, and how the low Ace bits follow the high ones.
pub proof fn lemma_wf_bit(x: u64, k: int)
    requires
        deck_bits_wf(x),
        0 <= k < 64,
    ensures
        k % 16 == 0 ==> bit(x, k) == bit(x, k + 13),
        k % 16 > 13 ==> !bit(x, k),
{
    let kk = k as u64;
    assert(kk & 15u64 == kk % 16u64) by (bit_vector);
    assert((kk & 15u64) == 0 ==> (((x >> kk) & 1u64 == 1u64) == ((x >> (kk + 13u64)) & 1u64
        == 1u64))) by (bit_vector)
        requires
            kk < 64,
            x & low_aces() == (x >> 13u64) & low_aces(),
    ;
    assert((kk & 15u64) > 13 ==> (x >> kk) & 1u64 != 1u64) by (bit_vector)
        requires
            kk < 64,
            x & !0x3fff_3fff_3fff_3fffu64 == 0,
    ;
}

/// Validity is kept by union, intersection, difference and symmetric difference.
pub proof fn lemma_wf_ops(x: u64, y: u64)
    requires
        deck_bits_wf(x),
        deck_bits_wf(y),
    ensures
        deck_bits_wf(x | y),
        deck_bits_wf(x & y),
        deck_bits_wf(x & !y),
        deck_bits_wf(x ^ y),
{
    assert(deck_bits_wf(x | y) && deck_bits_wf(x & y) && deck_bits_wf(x & !y) && deck_bits_wf(
        x ^ y,
    )) by (bit_vector)
        requires
            deck_bits_wf(x),
            deck_bits_wf(y),
    ;
}

/// A card position lies in its suit's block, and names that card back.
pub proof fn lemma_card_pos(r: Rank, s: Suit)
    ensures
        is_card_pos(card_pos(r, s)),
        card_pos(r, s) % 16 == r.index() + 1,
        card_pos(r, s) / 16 == s.index(),
        card_at(card_pos(r, s)) == (r, s),
{
}

/// Distinct cards have distinct positions.
pub proof fn lemma_card_pos_injective(c: (Rank, Suit), d: (Rank, Suit))
    ensures
        card_pos(c.0, c.1) == card_pos(d.0, d.1) ==> c == d,
{
    lemma_card_pos(c.0, c.1);
    lemma_card_pos(d.0, d.1);
}

/// The position of the card found at a card position is that position.
pub proof fn lemma_card_at(k: int)
    requires
        is_card_pos(k),
    ensures
        card_pos(card_at(k).0, card_at(k).1) == k,
{
}

/// The bits of a single card: its position, and bit 0 of its suit for an Ace.
pub proof fn lemma_card_bits(r: Rank, s: Suit)
    ensures
        deck_bits_wf(card_bits(r, s)),
        forall|k: int|
            bit(card_bits(r, s), k) <==> (k == card_pos(r, s) || (r == Rank::Ace && k == 16
                * s.index())),
{
    let sh = suit_shift(s);
    assert(sh == 0 || sh == 16 || sh == 32 || sh == 48);
    assert(sh & 15u64 == 0 && sh <= 48) by (bit_vector)
        requires
            sh == 0 || sh == 16 || sh == 32 || sh == 48,
    ;
    if r == Rank::Ace {
        assert(deck_bits_wf(((1u64 << 13u64) | 1u64) << sh)) by (bit_vector)
            requires
                sh & 15u64 == 0,
                sh <= 48,
        ;
        assert forall|k: int|
            bit(card_bits(r, s), k) <==> (k == card_pos(r, s) || (r == Rank::Ace && k == 16
                * s.index())) by {
            if 0 <= k < 64 {
                let kk = k as u64;
                assert(((((1u64 << 13u64) | 1u64) << sh) >> kk) & 1u64 == 1u64 <==> (kk == sh
                    + 13 || kk == sh)) by (bit_vector)
                    requires
                        sh <= 48,
                        kk < 64,
                ;
            }
        }
    } else {
        let a = (r.index() + 1) as u64;
        assert(1 <= a <= 12);
        assert(deck_bits_wf((1u64 << a) << sh)) by (bit_vector)
            requires
                sh & 15u64 == 0,
                sh <= 48,
                1 <= a <= 12,
        ;
        assert forall|k: int|
            bit(card_bits(r, s), k) <==> (k == card_pos(r, s) || (r == Rank::Ace && k == 16
                * s.index())) by {
            if 0 <= k < 64 {
                let kk = k as u64;
                assert((((1u64 << a) << sh) >> kk) & 1u64 == 1u64 <==> kk == sh + a) by (bit_vector)
                    requires
                        sh <= 48,
                        a <= 12,
                        kk < 64,
                ;
            }
        }
    }
}

/// The single card's bits hold exactly that card.
pub proof fn lemma_card_bits_has(r: Rank, s: Suit, c: (Rank, Suit))
    ensures
        bits_has(card_bits(r, s), c.0, c.1) <==> c == (r, s),
{
    lemma_card_bits(r, s);
    lemma_card_pos_injective(c, (r, s));
    lemma_card_pos(c.0, c.1);
}

/// Two valid words that hold the same cards are equal.
pub proof fn lemma_wf_ext(x: u64, y: u64)
    requires
        deck_bits_wf(x),
        deck_bits_wf(y),
        forall|c: (Rank, Suit)| bits_has(x, c.0, c.1) == bits_has(y, c.0, c.1),
    ensures
        x == y,
{
    assert forall|k: int| 0 <= k < 64 implies bit(x, k) == bit(y, k) by {
        lemma_wf_bit(x, k);
        lemma_wf_bit(y, k);
        if is_card_pos(k) {
            lemma_card_at(k);
            let c = card_at(k);
            assert(bits_has(x, c.0, c.1) == bits_has(y, c.0, c.1));
        } else if k % 16 == 0 {
            lemma_wf_bit(x, k);
            lemma_wf_bit(y, k);
            assert(is_card_pos(k + 13));
            lemma_card_at(k + 13);
            let c = card_at(k + 13);
            assert(bits_has(x, c.0, c.1) == bits_has(y, c.0, c.1));
        }
    }
    lemma_bits_ext(x, y);
}

/// The set bits among the lowest `n`.
pub open spec fn bits_below_set(x: u64, n: nat) -> Set<int> {
    Set::new(|k: int| 0 <= k < n && bit(x, k))
}

pub proof fn lemma_bits_below_set(x: u64, n: nat)
    ensures
        bits_below_set(x, n).finite(),
        bits_below_set(x, n).len() == bits_below(x, n),
    decreases n,
{
    if n == 0 {
        assert(bits_below_set(x, n) =~= Set::empty());
    } else {
        let m = (n - 1) as nat;
        lemma_bits_below_set(x, m);
        if bit(x, m as int) {
            assert(bits_below_set(x, n) =~= bits_below_set(x, m).insert(m as int));
        } else {
            assert(bits_below_set(x, n) =~= bits_below_set(x, m));
        }
    }
}

/// The number of set bits is the size of the set of their positions.
pub proof fn lemma_popcount_set(x: u64)
    ensures
        bit_set(x).finite(),
        bit_set(x).len() == popcount(x),
{
    lemma_bits_below_set(x, 64);
    assert(bit_set(x) =~= bits_below_set(x, 64));
}

/// The 52 cards, Aces first, each rank in the suit order clubs, diamonds, hearts, spades
/// (`rank_first`), or suit by suit with the ranks from Ace down.
pub open spec fn card_order(rank_first: bool) -> Seq<(Rank, Suit)> {
    Seq::new(
        52,
        |i: int|
            if rank_first {
                (Rank::from_index(12 - i / 4), Suit::from_index(i % 4))
            } else {
                (Rank::from_index(12 - i % 13), Suit::from_index(i / 13))
            },
    )
}

/// The 52 cards suit by suit (clubs, diamonds, hearts, spades), each from Two up to Ace.
pub open spec fn card_order_ascending() -> Seq<(Rank, Suit)> {
    Seq::new(52, |i: int| (Rank::from_index(i % 13), Suit::from_index(i / 13)))
}

/// Where a card stands in `card_order(rank_first)`.
pub open spec fn card_order_index(c: (Rank, Suit), rank_first: bool) -> int {
    if rank_first {
        4 * (12 - c.0.index()) + c.1.index()
    } else {
        13 * c.1.index() + (12 - c.0.index())
    }
}

/// Where a card stands in `card_order_ascending()`.
pub open spec fn card_order_ascending_index(c: (Rank, Suit)) -> int {
    13 * c.1.index() + c.0.index()
}

pub proof fn lemma_rank_index(r: Rank)
    ensures
        0 <= r.index() <= 12,
        Rank::from_index(r.index()) == r,
{
}

pub proof fn lemma_suit_index(s: Suit)
    ensures
        0 <= s.index() <= 3,
        Suit::from_index(s.index()) == s,
{
}

pub proof fn lemma_rank_from_index(i: int)
    requires
        0 <= i <= 12,
    ensures
        Rank::from_index(i).index() == i,
{
}

pub proof fn lemma_suit_from_index(i: int)
    requires
        0 <= i <= 3,
    ensures
        Suit::from_index(i).index() == i,
{
}

/// The card orders: with `rank_first`, Aces first and the ranks going down, each rank in
/// the suit order clubs, diamonds, hearts, spades; otherwise suit by suit in that order,
/// each from the Ace down.
pub proof fn lemma_card_order_sorted(i: int, j: int)
    requires
        0 <= i < j < 52,
    ensures
        card_order(true)[i].0.index() > card_order(true)[j].0.index() || (card_order(true)[i].0
            == card_order(true)[j].0 && card_order(true)[i].1.index() < card_order(true)[j].1.index()),
        card_order(false)[i].1.index() < card_order(false)[j].1.index() || (card_order(false)[i].1
            == card_order(false)[j].1 && card_order(false)[i].0.index() > card_order(false)[j].0.index()),
{
    lemma_rank_from_index(12 - i / 4);
    lemma_rank_from_index(12 - j / 4);
    lemma_rank_from_index(12 - i % 13);
    lemma_rank_from_index(12 - j % 13);
    lemma_suit_from_index(i % 4);
    lemma_suit_from_index(j % 4);
    lemma_suit_from_index(i / 13);
    lemma_suit_from_index(j / 13);
}

/// Each card order lists every card once.
pub proof fn lemma_card_order(rank_first: bool)
    ensures
        card_order(rank_first).no_duplicates(),
        forall|c: (Rank, Suit)|
            0 <= #[trigger] card_order_index(c, rank_first) < 52 && card_order(rank_first)[card_order_index(c, rank_first)] == c,
        forall|c: (Rank, Suit)| card_order(rank_first).contains(c),
{
    let o = card_order(rank_first);
    assert forall|c: (Rank, Suit)|
        0 <= #[trigger] card_order_index(c, rank_first) < 52 && o[card_order_index(c, rank_first)] == c by {
        lemma_rank_index(c.0);
        lemma_suit_index(c.1);
    }
    assert forall|c: (Rank, Suit)| o.contains(c) by {
        assert(o[card_order_index(c, rank_first)] == c);
    }
    assert forall|i: int, j: int| 0 <= i < 52 && 0 <= j < 52 && i != j implies o[i] != o[j] by {
        if rank_first {
            lemma_rank_from_index(12 - i / 4);
            lemma_rank_from_index(12 - j / 4);
            lemma_suit_from_index(i % 4);
            lemma_suit_from_index(j % 4);
        } else {
            lemma_rank_from_index(12 - i % 13);
            lemma_rank_from_index(12 - j % 13);
            lemma_suit_from_index(i / 13);
            lemma_suit_from_index(j / 13);
        }
    }
}

/// The ascending order lists every card once.
pub proof fn lemma_card_order_ascending()
    ensures
        card_order_ascending().no_duplicates(),
        forall|c: (Rank, Suit)|
            0 <= #[trigger] card_order_ascending_index(c) < 52 && card_order_ascending()[card_order_ascending_index(c)] == c,
        forall|c: (Rank, Suit)| card_order_ascending().contains(c),
{
    let o = card_order_ascending();
    assert forall|c: (Rank, Suit)|
        0 <= #[trigger] card_order_ascending_index(c) < 52 && o[card_order_ascending_index(c)] == c by {
        lemma_rank_index(c.0);
        lemma_suit_index(c.1);
    }
    assert forall|c: (Rank, Suit)| o.contains(c) by {
        assert(o[card_order_ascending_index(c)] == c);
    }
    assert forall|i: int, j: int| 0 <= i < 52 && 0 <= j < 52 && i != j implies o[i] != o[j] by {
        lemma_rank_from_index(i % 13);
        lemma_rank_from_index(j % 13);
        lemma_suit_from_index(i / 13);
        lemma_suit_from_index(j / 13);
    }
}

/// All 52 cards.
pub open spec fn all_cards_set() -> Set<(Rank, Suit)> {
    Set::new(|c: (Rank, Suit)| true)
}

pub proof fn lemma_all_cards_finite()
    ensures
        all_cards_set().finite(),
        all_cards_set().len() == 52,
{
    lemma_card_order(true);
    let o = card_order(true);
    assert(o.to_set() =~= all_cards_set());
    o.unique_seq_to_set();
}

/// Every set of cards is finite.
pub proof fn lemma_cards_finite(a: Set<(Rank, Suit)>)
    ensures
        a.finite(),
        a.len() <= 52,
{
    lemma_all_cards_finite();
    lemma_len_subset(a, all_cards_set());
}

/// Filtering keeps a sequence free of duplicates.
pub proof fn lemma_filter_no_dup<A>(s: Seq<A>, p: spec_fn(A) -> bool)
    requires
        s.no_duplicates(),
    ensures
        s.filter(p).no_duplicates(),
    decreases s.len(),
{
    reveal(Seq::filter);
    if s.len() > 0 {
        let rest = s.drop_last();
        assert(rest.no_duplicates());
        lemma_filter_no_dup(rest, p);
        if p(s.last()) {
            let f = rest.filter(p);
            if f.contains(s.last()) {
                rest.lemma_filter_contains_rev(p, s.last());
                let j = choose|j: int| 0 <= j < rest.len() && rest[j] == s.last();
                assert(s[j] == s[s.len() - 1]);
            }
            let g = f.push(s.last());
            assert forall|i: int, j: int| 0 <= i < g.len() && 0 <= j < g.len() && i != j implies g[i]
                != g[j] by {
                if i == g.len() - 1 {
                    assert(f.contains(g[j]) || j == g.len() - 1);
                } else if j == g.len() - 1 {
                    assert(f.contains(g[i]));
                }
            }
        }
    }
}

/// The filtered sequence holds exactly the filtered elements.
pub proof fn lemma_filter_to_set<A>(s: Seq<A>, p: spec_fn(A) -> bool)
    ensures
        s.filter(p).to_set() =~= s.to_set().filter(p),
{
    broadcast use vstd::seq_lib::group_filter_ensures;

    assert forall|a: A| s.filter(p).contains(a) <==> s.contains(a) && p(a) by {
        if s.filter(p).contains(a) {
            s.lemma_filter_contains_rev(p, a);
            let i = choose|i: int| 0 <= i < s.filter(p).len() && s.filter(p)[i] == a;
            assert(p(s.filter(p)[i]));
        }
        if s.contains(a) && p(a) {
            let i = choose|i: int| 0 <= i < s.len() && s[i] == a;
            assert(s.filter(p).contains(s[i]));
        }
    }
}

/// Whether a card is among those of a word.
pub open spec fn holds(x: u64) -> spec_fn((Rank, Suit)) -> bool {
    |c: (Rank, Suit)| bits_has(x, c.0, c.1)
}

/// The cards of a word, in a card order.
pub open spec fn ordered_cards(x: u64, rank_first: bool) -> Seq<(Rank, Suit)> {
    card_order(rank_first).filter(holds(x))
}

/// The cards of a word, suit by suit from Two up.
pub open spec fn ascending_cards(x: u64) -> Seq<(Rank, Suit)> {
    card_order_ascending().filter(holds(x))
}

/// Pushing an element onto a sequence adds it to the sequence's set.
pub proof fn lemma_push_to_set<A>(s: Seq<A>, x: A)
    ensures
        s.push(x).to_set() == s.to_set().insert(x),
{
    assert forall|a: A| s.push(x).contains(a) <==> (s.contains(a) || a == x) by {
        if s.push(x).contains(a) {
            let i = choose|i: int| 0 <= i < s.push(x).len() && s.push(x)[i] == a;
            if i < s.len() {
                assert(s[i] == a);
            }
        }
        if s.contains(a) {
            let i = choose|i: int| 0 <= i < s.len() && s[i] == a;
            assert(s.push(x)[i] == a);
        }
        if a == x {
            assert(s.push(x)[s.len() as int] == x);
        }
    }
    assert forall|a: A| s.push(x).to_set().contains(a) == s.to_set().insert(x).contains(a) by {
        assert(s.push(x).to_set().contains(a) == s.push(x).contains(a));
        assert(s.to_set().contains(a) == s.contains(a));
    }
    assert(s.push(x).to_set() =~= s.to_set().insert(x));
}

/// A card order of a word lists each of its cards once.
pub proof fn lemma_ordered_cards(x: u64, rank_first: bool)
    ensures
        ordered_cards(x, rank_first).no_duplicates(),
        ordered_cards(x, rank_first).to_set() == cards_of_bits(x),
        ordered_cards(x, rank_first).len() == cards_of_bits(x).len(),
        ascending_cards(x).no_duplicates(),
        ascending_cards(x).to_set() == cards_of_bits(x),
        ascending_cards(x).len() == cards_of_bits(x).len(),
{
    let p = holds(x);
    lemma_card_order(rank_first);
    lemma_filter_no_dup(card_order(rank_first), p);
    lemma_filter_to_set(card_order(rank_first), p);
    assert(card_order(rank_first).to_set().filter(p) =~= cards_of_bits(x));
    ordered_cards(x, rank_first).unique_seq_to_set();
    lemma_card_order_ascending();
    lemma_filter_no_dup(card_order_ascending(), p);
    lemma_filter_to_set(card_order_ascending(), p);
    assert(card_order_ascending().to_set().filter(p) =~= cards_of_bits(x));
    ascending_cards(x).unique_seq_to_set();
}

/// Counting the cards of a valid word that a mask selects: when the mask's bits are
/// exactly the positions of the cards that satisfy `p`, the number of bits of
/// `x & m` is the number of cards of `x` that satisfy `p`.
pub proof fn lemma_count_masked(x: u64, m: u64, p: spec_fn((Rank, Suit)) -> bool)
    requires
        forall|k: int| 0 <= k < 64 ==> (bit(m, k) <==> (is_card_pos(k) && p(card_at(k)))),
    ensures
        cards_of_bits(x).filter(p).finite(),
        cards_of_bits(x).filter(p).len() == popcount(x & m),
{
    let a = cards_of_bits(x).filter(p);
    let b = bit_set(x & m);
    let f = |c: (Rank, Suit)| card_pos(c.0, c.1);
    lemma_cards_finite(a);
    assert forall|k: int| a.map(f).contains(k) <==> b.contains(k) by {
        if b.contains(k) {
            lemma_bit_ops(x, m, k);
            lemma_card_at(k);
            let c = card_at(k);
            assert(a.contains(c));
            assert(f(c) == k);
        }
        if a.map(f).contains(k) {
            let c = choose|c: (Rank, Suit)| a.contains(c) && f(c) == k;
            lemma_card_pos(c.0, c.1);
            lemma_bit_ops(x, m, k);
        }
    }
    assert(a.map(f) =~= b);
    assert forall|c: (Rank, Suit), d: (Rank, Suit)|
        a.contains(c) && a.contains(d) && #[trigger] f(c) == #[trigger] f(d) implies c == d by {
        lemma_card_pos_injective(c, d);
    }
    lemma_map_size(a, b, f);
    lemma_popcount_set(x & m);
}

/// The values of the named masks.
pub proof fn lemma_mask_values()
    ensures
        SINGLE_SUIT_BITFIELD == 0x3fffu64,
        SINGLE_SUIT_HIGH_ACE_BITFIELD == 0x3ffeu64,
        SINGLE_SUIT_LOW_ACE_BITFIELD == 0x1fffu64,
        ALL_CARDS_BITFIELD == 0x3fff_3fff_3fff_3fffu64,
        ALL_CARDS_NO_LOW_ACES_BITFIELD == 0x3ffe_3ffe_3ffe_3ffeu64,
        SINGLE_RANK_FILTER == 0x2000_2000_2000_2000u64,
{
    assert(0b11111111111111u64 | 0b11111111111111u64 << 16u64 | 0b11111111111111u64 << 32u64
        | 0b11111111111111u64 << 48u64 == 0x3fff_3fff_3fff_3fffu64) by (bit_vector);
    assert(0b11111111111110u64 | 0b11111111111110u64 << 16u64 | 0b11111111111110u64 << 32u64
        | 0b11111111111110u64 << 48u64 == 0x3ffe_3ffe_3ffe_3ffeu64) by (bit_vector);
    assert(0b00010000000000000u64 | 0b00010000000000000u64 << 16u64 | 0b00010000000000000u64
        << 32u64 | 0b00010000000000000u64 << 48u64 == 0x2000_2000_2000_2000u64) by (bit_vector);
}

/// The card positions are the bits of the mask without low Aces.
pub proof fn lemma_mask_no_low(k: int)
    ensures
        bit(0x3ffe_3ffe_3ffe_3ffeu64, k) <==> is_card_pos(k),
        bit(0x3fff_3fff_3fff_3fffu64, k) <==> (0 <= k < 64 && k % 16 <= 13),
{
    if 0 <= k < 64 {
        let kk = k as u64;
        assert(kk & 15u64 == kk % 16u64) by (bit_vector);
        assert(((0x3ffe_3ffe_3ffe_3ffeu64 >> kk) & 1u64 == 1u64) <==> (1 <= (kk & 15u64) && (kk
            & 15u64) <= 13)) by (bit_vector)
            requires
                kk < 64,
        ;
        assert(((0x3fff_3fff_3fff_3fffu64 >> kk) & 1u64 == 1u64) <==> (kk & 15u64) <= 13)
            by (bit_vector)
            requires
                kk < 64,
        ;
    }
}

/// The bits of the rank filter shifted right by `i` are the positions of one rank.
pub proof fn lemma_mask_rank_filter(i: u64, k: int)
    requires
        i <= 12,
    ensures
        bit(0x2000_2000_2000_2000u64 >> i, k) <==> (is_card_pos(k) && card_at(k).0.index() == 12
            - i),
{
    if 0 <= k < 64 {
        let kk = k as u64;
        assert(kk & 15u64 == kk % 16u64) by (bit_vector);
        assert((((0x2000_2000_2000_2000u64 >> i) >> kk) & 1u64 == 1u64) <==> (kk & 15u64) == 13
            - i) by (bit_vector)
            requires
                kk < 64,
                i <= 12,
        ;
        if is_card_pos(k) {
            lemma_rank_from_index(k % 16 - 1);
        }
    }
}

/// The empty word is a valid deck word and a valid rank word.
pub proof fn lemma_zero_words()
    by (bit_vector)
    ensures
        deck_bits_wf(0u64),
        0u64 & !0x3fffu64 == 0 && 0u64 & 1u64 == (0u64 >> 13u64) & 1u64,
{
}

/// Zero holds no bit, and a word with a set bit is not zero.
pub proof fn lemma_zero_bits(w: u64, k: int)
    ensures
        !bit(0u64, k),
        bit(w, k) ==> w != 0,
{
    if 0 <= k < 64 {
        let kk = k as u64;
        assert((0u64 >> kk) & 1u64 != 1u64 && ((w >> kk) & 1u64 == 1u64 ==> w != 0)) by (bit_vector);
    }
}

/// A valid word is zero exactly when it holds no card.
pub proof fn lemma_wf_empty(x: u64)
    requires
        deck_bits_wf(x),
    ensures
        x == 0 <==> cards_of_bits(x).is_empty(),
{
    if x == 0 {
        assert forall|c: (Rank, Suit)| !cards_of_bits(x).contains(c) by {
            lemma_zero_bits(x, card_pos(c.0, c.1));
        }
        assert(cards_of_bits(x) =~= Set::empty());
    } else {
        if cards_of_bits(x).is_empty() {
            assert forall|k: int| 0 <= k < 64 implies !bit(x, k) by {
                lemma_wf_bit(x, k);
                if is_card_pos(k) {
                    lemma_card_at(k);
                    assert(!cards_of_bits(x).contains(card_at(k)));
                } else if k % 16 == 0 {
                    lemma_card_at(k + 13);
                    assert(!cards_of_bits(x).contains(card_at(k + 13)));
                }
            }
            lemma_no_bits_zero(x);
        }
    }
}

/// The word with every card bit holds all 52 cards.
pub proof fn lemma_all_cards_bits()
    ensures
        deck_bits_wf(0x3fff_3fff_3fff_3fffu64),
        cards_of_bits(0x3fff_3fff_3fff_3fffu64) == all_cards_set(),
{
    assert(deck_bits_wf(0x3fff_3fff_3fff_3fffu64)) by (bit_vector);
    assert forall|c: (Rank, Suit)| cards_of_bits(0x3fff_3fff_3fff_3fffu64).contains(c) by {
        lemma_card_pos(c.0, c.1);
        lemma_mask_no_low(card_pos(c.0, c.1));
    }
    assert(cards_of_bits(0x3fff_3fff_3fff_3fffu64) =~= all_cards_set());
}

/// Set operations on words.
pub proof fn lemma_cards_ops(x: u64, y: u64)
    ensures
        cards_of_bits(x | y) == cards_of_bits(x).union(cards_of_bits(y)),
        cards_of_bits(x & y) == cards_of_bits(x).intersect(cards_of_bits(y)),
        cards_of_bits(x & !y) == cards_of_bits(x).difference(cards_of_bits(y)),
{
    assert forall|c: (Rank, Suit)|
        cards_of_bits(x | y).contains(c) == cards_of_bits(x).union(cards_of_bits(y)).contains(c)
            && cards_of_bits(x & y).contains(c) == cards_of_bits(x).intersect(
            cards_of_bits(y),
        ).contains(c) && cards_of_bits(x & !y).contains(c) == cards_of_bits(x).difference(
            cards_of_bits(y),
        ).contains(c) by {
        lemma_bit_ops(x, y, card_pos(c.0, c.1));
    }
    assert(cards_of_bits(x | y) =~= cards_of_bits(x).union(cards_of_bits(y)));
    assert(cards_of_bits(x & y) =~= cards_of_bits(x).intersect(cards_of_bits(y)));
    assert(cards_of_bits(x & !y) =~= cards_of_bits(x).difference(cards_of_bits(y)));
}

/// A card's bits meet a valid word exactly when the word holds that card.
pub proof fn lemma_has_card_bits(x: u64, r: Rank, s: Suit)
    requires
        deck_bits_wf(x),
    ensures
        (card_bits(r, s) & x != 0) == bits_has(x, r, s),
        (x & card_bits(r, s) != 0) == bits_has(x, r, s),
{
    let cb = card_bits(r, s);
    lemma_card_bits(r, s);
    assert(cb & x == x & cb) by (bit_vector);
    let p = card_pos(r, s);
    lemma_card_pos(r, s);
    if bits_has(x, r, s) {
        lemma_bit_ops(cb, x, p);
        lemma_zero_bits(cb & x, p);
    } else {
        assert forall|k: int| 0 <= k < 64 implies !bit(cb & x, k) by {
            lemma_bit_ops(cb, x, k);
            if r == Rank::Ace && k == 16 * s.index() {
                lemma_wf_bit(x, k);
            }
        }
        lemma_no_bits_zero(cb & x);
    }
}

/// Toggling a card's bits toggles that card.
pub proof fn lemma_toggle_card_bits(x: u64, r: Rank, s: Suit)
    requires
        deck_bits_wf(x),
    ensures
        deck_bits_wf(x ^ card_bits(r, s)),
        cards_of_bits(x ^ card_bits(r, s)) == (if cards_of_bits(x).contains((r, s)) {
            cards_of_bits(x).remove((r, s))
        } else {
            cards_of_bits(x).insert((r, s))
        }),
{
    lemma_card_bits(r, s);
    lemma_wf_ops(x, card_bits(r, s));
    let y = x ^ card_bits(r, s);
    assert forall|c: (Rank, Suit)| cards_of_bits(y).contains(c) == (if cards_of_bits(x).contains(
        (r, s),
    ) {
        cards_of_bits(x).remove((r, s))
    } else {
        cards_of_bits(x).insert((r, s))
    }).contains(c) by {
        lemma_bit_ops(x, card_bits(r, s), card_pos(c.0, c.1));
        lemma_card_bits_has(r, s, c);
    }
    assert(cards_of_bits(y) =~= (if cards_of_bits(x).contains((r, s)) {
        cards_of_bits(x).remove((r, s))
    } else {
        cards_of_bits(x).insert((r, s))
    }));
}

/// A valid word holds the cards of another exactly when masking by it keeps the other.
pub proof fn lemma_subset_bits(d: u64, x: u64)
    requires
        deck_bits_wf(d),
        deck_bits_wf(x),
    ensures
        (d & x == d) == cards_of_bits(d).subset_of(cards_of_bits(x)),
{
    if d & x == d {
        assert forall|c: (Rank, Suit)| cards_of_bits(d).contains(c) implies cards_of_bits(
            x,
        ).contains(c) by {
            lemma_bit_ops(d, x, card_pos(c.0, c.1));
        }
    }
    if cards_of_bits(d).subset_of(cards_of_bits(x)) {
        assert forall|k: int| 0 <= k < 64 implies bit(d & x, k) == bit(d, k) by {
            lemma_bit_ops(d, x, k);
            lemma_wf_bit(d, k);
            lemma_wf_bit(x, k);
            if bit(d, k) {
                if is_card_pos(k) {
                    lemma_card_at(k);
                    assert(cards_of_bits(d).contains(card_at(k)));
                } else {
                    assert(k % 16 == 0);
                    lemma_card_at(k + 13);
                    assert(cards_of_bits(d).contains(card_at(k + 13)));
                }
            }
        }
        lemma_bits_ext(d & x, d);
    }
}

/// A valid word holds a card exactly when masking by the card's bits keeps them all.
pub proof fn lemma_holds_card_bits(x: u64, r: Rank, s: Suit)
    requires
        deck_bits_wf(x),
    ensures
        (x & card_bits(r, s) == card_bits(r, s)) == bits_has(x, r, s),
{
    let cb = card_bits(r, s);
    assert(x & cb == cb & x) by (bit_vector);
    lemma_card_bits(r, s);
    lemma_subset_bits(cb, x);
    assert forall|c: (Rank, Suit)| cards_of_bits(cb).contains(c) <==> c == (r, s) by {
        lemma_card_bits_has(r, s, c);
    }
    if bits_has(x, r, s) {
        assert(cards_of_bits(cb).subset_of(cards_of_bits(x)));
    } else {
        assert(cards_of_bits(cb).contains((r, s)));
    }
}

/// Walking a card order one card further.
pub proof fn lemma_order_step(x: u64, rank_first: bool, pos: int)
    requires
        0 <= pos < 52,
    ensures
        card_order(rank_first).skip(pos).filter(holds(x)) == (if holds(x)(
            card_order(rank_first)[pos],
        ) {
            seq![card_order(rank_first)[pos]]
        } else {
            Seq::<(Rank, Suit)>::empty()
        }) + card_order(rank_first).skip(pos + 1).filter(holds(x)),
{
    let o = card_order(rank_first);
    assert(o.skip(pos) =~= seq![o[pos]] + o.skip(pos + 1));
    o.skip(pos + 1).lemma_filter_prepend(o[pos], holds(x));
}

/// Nothing is left past the end of a card order.
pub proof fn lemma_order_end(x: u64, rank_first: bool)
    ensures
        card_order(rank_first).skip(52).filter(holds(x)).len() == 0,
{
    let e = card_order(rank_first).skip(52);
    assert(e =~= Seq::<(Rank, Suit)>::empty());
    reveal(Seq::filter);
}

/// Filtering by a predicate that holds of every element keeps everything.
pub proof fn lemma_filter_all<A>(s: Seq<A>, p: spec_fn(A) -> bool)
    requires
        forall|i: int| 0 <= i < s.len() ==> p(#[trigger] s[i]),
    ensures
        s.filter(p) == s,
    decreases s.len(),
{
    reveal(Seq::filter);
    if s.len() > 0 {
        assert forall|i: int| 0 <= i < s.drop_last().len() implies p(#[trigger] s.drop_last()[i]) by {
            assert(s.drop_last()[i] == s[i]);
        }
        lemma_filter_all(s.drop_last(), p);
        assert(p(s[s.len() - 1]));
        assert(s.drop_last().push(s.last()) =~= s);
    }
}

} // verus!
