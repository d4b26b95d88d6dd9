use vstd::prelude::*;
use crate::deck::{Rank, Suit};
use crate::deck::deck::{Deck, RankCount};
use crate::deck::rank_bits::{best_straight, combined_ranks, lemma_top_ranks, rank_count, suit_ranks, top_ranks};
use crate::deck::suit_rank_sets;
use crate::ranking::hand_rank::{
    best_straight_flush, better_straight, deck_counts, first_flush, flush_hand, flush_upto,
    four_of_a_kind_hand, full_house_hand, high_card_hand, highest_with, one_pair_hand,
    straight_flush_upto, straight_hand, three_of_a_kind_hand, two_pair_hand,
};
use crate::ranks::hand_rank::{from_standard, rank_fields, rank_kind, HandRank};
use crate::ranking::five_cards::{lemma_flush_found, lemma_two_pairs_without_kicker};
use crate::ranking::hand_rank::{hand_rank, rank_defined};

verus! {

/// The hand that the cards make, under the first ranking: the kinds of hand are tried
/// from the straight flush down, without a score to reach. Once a second pair is found,
/// a hand with no kicker for two pair is not tried as one pair. `None` means that the
/// cards make no hand, which ranking refuses.
pub open spec fn first_ranking(d: Set<(Rank, Suit)>) -> Option<HandRank> {
    if best_straight_flush(d) is Some {
        Some(HandRank::StraightFlush { sf: best_straight_flush(d).unwrap() })
    } else if four_of_a_kind_hand(d) is Some {
        Some(from_standard(four_of_a_kind_hand(d).unwrap()))
    } else if full_house_hand(d) is Some {
        Some(from_standard(full_house_hand(d).unwrap()))
    } else if flush_hand(d) is Some {
        Some(from_standard(flush_hand(d).unwrap()))
    } else if straight_hand(d) is Some {
        Some(from_standard(straight_hand(d).unwrap()))
    } else if three_of_a_kind_hand(d) is Some {
        Some(from_standard(three_of_a_kind_hand(d).unwrap()))
    } else if two_pair_hand(d) is Some {
        Some(from_standard(two_pair_hand(d).unwrap()))
    } else if highest_with(d, seq![], 2) matches Some(p) && highest_with(d, seq![p], 2) is None
        && one_pair_hand(d) is Some {
        Some(from_standard(one_pair_hand(d).unwrap()))
    } else if high_card_hand(d) is Some {
        Some(from_standard(high_card_hand(d).unwrap()))
    } else {
        None
    }
}

/// Cards that hold five of one suit make a hand, of at least the flush's kind: a straight
/// flush, four of a kind, a full house, or a flush of the five highest ranks of a suit
/// that holds five cards, never a straight or less.
pub proof fn lemma_five_suited_first_ranking(d: Set<(Rank, Suit)>, s: Suit)
    requires
        suit_ranks(d, s).len() >= 5,
    ensures
        first_ranking(d) is Some,
        rank_kind(first_ranking(d).unwrap()) >= 5,
        rank_kind(first_ranking(d).unwrap()) == 5 ==> exists|t: Suit|
            #[trigger] suit_ranks(d, t).len() >= 5 && rank_fields(first_ranking(d).unwrap())
                == top_ranks(suit_ranks(d, t)).take(5),
{
    lemma_flush_found(d, s);
    let f = first_flush(d).unwrap();
    let t = choose|t: Suit|
        #[trigger] suit_ranks(d, t).len() >= 5 && first_flush(d).unwrap() == top_ranks(
            suit_ranks(d, t),
        ).take(5);
    lemma_top_ranks(suit_ranks(d, t));
    assert(f.len() == 5);
    if rank_kind(first_ranking(d).unwrap()) == 5 {
        assert(rank_fields(first_ranking(d).unwrap()) =~= f);
    }
}

/// Cards that hold a straight, and make a hand, make one of at least the straight's kind.
pub proof fn lemma_straight_first_ranking(d: Set<(Rank, Suit)>)
    requires
        best_straight(combined_ranks(d)) is Some,
        first_ranking(d) is Some,
    ensures
        rank_kind(first_ranking(d).unwrap()) >= 4,
{
}

/// The two rankings agree: the cards make a hand under this ranking exactly when they can
/// be ranked by `StandardHandRanker`, and it is the same hand.
pub proof fn lemma_rankers_agree(d: Set<(Rank, Suit)>)
    requires
        d.finite(),
    ensures
        first_ranking(d) is Some <==> rank_defined(d, 0),
        first_ranking(d) is Some ==> first_ranking(d).unwrap() == from_standard(hand_rank(d)),
{
    if highest_with(d, seq![], 2) is Some && highest_with(
        d,
        seq![highest_with(d, seq![], 2).unwrap()],
        2,
    ) is Some && two_pair_hand(d) is None {
        lemma_two_pairs_without_kicker(d);
    }
}

/// Ranks poker hands of the first deck type.
pub struct StandardHandRanker {}

impl StandardHandRanker {
    /// The rank of the hand that the deck's cards make; the cards must make one.
    pub fn get_rank(deck: &Deck) -> (res: HandRank)
        requires
            first_ranking(deck@) is Some,
        ensures
            res == first_ranking(deck@).unwrap(),
    {
        let ghost d = deck@;
        if let Some(sf) = Self::get_best_straight_flush(deck) {
            return HandRank::StraightFlush { sf };
        }
        let rank_count = deck.get_rank_count();
        proof {
            assert((|r: Rank| rank_count.count(r)) =~= deck_counts(d));
        }
        let best_quads = Self::highest_any(&rank_count, 4, Ghost(d));
        if let Some(quad) = best_quads {
            if let Some(kicker) = Self::highest_but_one(&rank_count, quad, 1, Ghost(d)) {
                return HandRank::FourOfAKind { q: quad, c: kicker };
            }
        }
        let best_trips = Self::highest_any(&rank_count, 3, Ghost(d));
        if let Some(trip) = best_trips {
            if let Some(pair) = Self::highest_but_one(&rank_count, trip, 2, Ghost(d)) {
                return HandRank::FullHouse { t: trip, p: pair };
            }
        }
        if let Some(flush_ranks) = Self::get_flush(deck) {
            return HandRank::Flush {
                c1: flush_ranks[0],
                c2: flush_ranks[1],
                c3: flush_ranks[2],
                c4: flush_ranks[3],
                c5: flush_ranks[4],
            };
        }
        if let Some(s) = Self::get_straight(deck) {
            return HandRank::Straight { s };
        }
        if let Some(trip) = best_trips {
            if let Some(c1) = Self::highest_but_one(&rank_count, trip, 1, Ghost(d)) {
                if let Some(c2) = Self::highest_but_two(&rank_count, trip, c1, 1, Ghost(d)) {
                    return HandRank::ThreeOfAKind { t: trip, c1, c2 };
                }
            }
        }
        if let Some(best_pair) = Self::highest_any(&rank_count, 2, Ghost(d)) {
            if let Some(second_best_pair) = Self::highest_but_one(&rank_count, best_pair, 2, Ghost(d)) {
                if let Some(c) = Self::highest_but_two(&rank_count, best_pair, second_best_pair, 1, Ghost(d)) {
                    return HandRank::TwoPair { p1: best_pair, p2: second_best_pair, c1: c };
                }
            } else if let Some(c1) = Self::highest_but_one(&rank_count, best_pair, 1, Ghost(d)) {
                if let Some(c2) = Self::highest_but_two(&rank_count, best_pair, c1, 1, Ghost(d)) {
                    if let Some(c3) = Self::highest_but_three(&rank_count, best_pair, c1, c2, 1, Ghost(d)) {
                        return HandRank::OnePair { p: best_pair, c1, c2, c3 };
                    }
                }
            }
        }
        let combined = deck.get_combined_rank_bitfield();
        proof {
            lemma_top_ranks(combined@);
        }
        if let Some(highest_cards) = combined.get_highest_five() {
            return HandRank::HighCard {
                c1: highest_cards[0],
                c2: highest_cards[1],
                c3: highest_cards[2],
                c4: highest_cards[3],
                c5: highest_cards[4],
            };
        }
        proof {
            assert(false);
        }
        HandRank::HighCard { c1: Rank::Two, c2: Rank::Two, c3: Rank::Two, c4: Rank::Two, c5: Rank::Two }
    }

    /// The highest rank outside `excl` held at least `n` times.
    fn highest(rank_count: &RankCount, excl: &[Rank], n: u32, Ghost(d): Ghost<Set<(Rank, Suit)>>) -> (res: Option<Rank>)
        requires
            (|r: Rank| rank_count.count(r)) == deck_counts(d),
        ensures
            res == highest_with(d, excl@, n as nat),
    {
        let v = vstd::slice::slice_to_vec(excl);
        rank_count.find_highest_with_n(&v, n)
    }

    /// The highest rank held at least `n` times.
    fn highest_any(rank_count: &RankCount, n: u32, Ghost(d): Ghost<Set<(Rank, Suit)>>) -> (res: Option<Rank>)
        requires
            (|r: Rank| rank_count.count(r)) == deck_counts(d),
        ensures
            res == highest_with(d, seq![], n as nat),
    {
        let e: [Rank; 0] = [];
        proof {
            assert(e@ =~= Seq::<Rank>::empty());
        }
        Self::highest(rank_count, &e, n, Ghost(d))
    }

    /// The highest rank other than `a` held at least `n` times.
    fn highest_but_one(rank_count: &RankCount, a: Rank, n: u32, Ghost(d): Ghost<Set<(Rank, Suit)>>) -> (res: Option<Rank>)
        requires
            (|r: Rank| rank_count.count(r)) == deck_counts(d),
        ensures
            res == highest_with(d, seq![a], n as nat),
    {
        let e = [a];
        proof {
            assert(e@ =~= seq![a]);
        }
        Self::highest(rank_count, &e, n, Ghost(d))
    }

    /// The highest rank other than `a` and `b` held at least `n` times.
    fn highest_but_two(rank_count: &RankCount, a: Rank, b: Rank, n: u32, Ghost(d): Ghost<Set<(Rank, Suit)>>) -> (res: Option<Rank>)
        requires
            (|r: Rank| rank_count.count(r)) == deck_counts(d),
        ensures
            res == highest_with(d, seq![a, b], n as nat),
    {
        let e = [a, b];
        proof {
            assert(e@ =~= seq![a, b]);
        }
        Self::highest(rank_count, &e, n, Ghost(d))
    }

    /// The highest rank other than `a`, `b` and `c` held at least `n` times.
    fn highest_but_three(rank_count: &RankCount, a: Rank, b: Rank, c: Rank, n: u32, Ghost(d): Ghost<Set<(Rank, Suit)>>) -> (res: Option<Rank>)
        requires
            (|r: Rank| rank_count.count(r)) == deck_counts(d),
        ensures
            res == highest_with(d, seq![a, b, c], n as nat),
    {
        let e = [a, b, c];
        proof {
            assert(e@ =~= seq![a, b, c]);
        }
        Self::highest(rank_count, &e, n, Ghost(d))
    }

    fn get_straight(deck: &Deck) -> (res: Option<Rank>)
        ensures
            res == best_straight(combined_ranks(deck@)),
    {
        deck.get_combined_rank_bitfield().get_straight()
    }

    fn get_flush(deck: &Deck) -> (res: Option<[Rank; 5]>)
        ensures
            res is Some == first_flush(deck@) is Some,
            res matches Some(a) ==> a@ == first_flush(deck@).unwrap(),
    {
        let mut best: Option<[Rank; 5]> = None;
        let mut suits = deck.get_single_suit_ranks();
        let ghost d = deck@;
        let ghost all = suit_rank_sets(d, 0).map_values(|p: (Set<Rank>, Suit)| p.0);
        let mut k: usize = 0;
        proof {
            assert(all.skip(0) =~= all);
        }
        loop
            invariant
                k <= 4,
                all == suit_rank_sets(d, 0).map_values(|p: (Set<Rank>, Suit)| p.0),
                all.len() == 4,
                suits.remaining() == all.skip(k as int),
                best is Some == flush_upto(d, k as int) is Some,
                best matches Some(a) ==> a@ == flush_upto(d, k as int).unwrap(),
                d == deck@,
            decreases 4 - k,
        {
            match suits.next() {
                Some(bits) => {
                    proof {
                        assert(all.skip(k as int)[0] == all[k as int]);
                        assert(bits@ == suit_ranks(d, Suit::from_index(k as int)));
                        lemma_top_ranks(bits@);
                        assert(all.skip(k as int).drop_first() =~= all.skip(k + 1));
                    }
                    if bits.count_ones() >= 5 {
                        match (best, bits.get_highest_five()) {
                            (Some(existing), Some(newest)) => {
                                let mut i: usize = 0;
                                while i < 5
                                    invariant
                                        best == Some(existing),
                                    decreases 5 - i,
                                {
                                    if newest[i].get_score() > existing[i].get_score() {
                                        best = Some(existing);
                                    }
                                    if newest[i].get_score() < existing[i].get_score() {
                                        i = i + 1;
                                        continue;
                                    }
                                    i = i + 1;
                                }
                            },
                            (None, Some(existing)) => best = Some(existing),
                            (_, None) => {},
                        }
                    }
                    k = k + 1;
                },
                None => {
                    proof {
                        assert(k == 4);
                    }
                    return best;
                },
            }
        }
    }

    fn get_best_straight_flush(deck: &Deck) -> (res: Option<Rank>)
        ensures
            res == best_straight_flush(deck@),
    {
        let mut found: Option<Rank> = None;
        let mut suits = deck.get_single_suit_ranks();
        let ghost d = deck@;
        let ghost all = suit_rank_sets(d, 0).map_values(|p: (Set<Rank>, Suit)| p.0);
        let mut k: usize = 0;
        proof {
            assert(all.skip(0) =~= all);
        }
        loop
            invariant
                k <= 4,
                all == suit_rank_sets(d, 0).map_values(|p: (Set<Rank>, Suit)| p.0),
                all.len() == 4,
                suits.remaining() == all.skip(k as int),
                found == straight_flush_upto(d, k as int),
                d == deck@,
            decreases 4 - k,
        {
            match suits.next() {
                Some(single_suit_rank) => {
                    proof {
                        assert(all.skip(k as int)[0] == all[k as int]);
                        assert(single_suit_rank@ == suit_ranks(d, Suit::from_index(k as int)));
                        assert(all.skip(k as int).drop_first() =~= all.skip(k + 1));
                    }
                    let straight = single_suit_rank.get_straight();
                    match (straight, found) {
                        (Some(straight), Some(found_val)) => {
                            if straight.get_score() > found_val.get_score() {
                                found = Some(straight);
                            }
                        },
                        (Some(straight), None) => found = Some(straight),
                        (None, _) => {},
                    }
                    proof {
                        assert(found == better_straight(straight_flush_upto(d, k as int), straight));
                    }
                    k = k + 1;
                },
                None => {
                    proof {
                        assert(k == 4);
                    }
                    return found;
                },
            }
        }
    }
}

} // verus!
