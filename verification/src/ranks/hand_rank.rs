use vstd::prelude::*;
use core::cmp::Ordering;
use crate::deck::Rank;
use crate::deck::bits::lemma_rank_index;
use crate::ranking::hand_rank::{
    hand_ranks, hand_score, kind_index, lemma_hand_order, lemma_hand_score_band,
    lemma_hand_score_injective, ranks_lex_less, kind_base, kind_end,
    rank_digits, lemma_rank_digits_bound, pow13, lemma_pow13_mono, FLUSH_BASE, FOUR_OF_KIND_BASE,
    FULL_HOUSE_BASE, ONE_PAIR_BASE, STRAIGHT_BASE, STRAIGHT_FLUSH_BASE, TRIP_BASE, TWO_PAIR_BASE,
    StandardHandRanks,
};

verus! {

/// The rank of a five-card poker hand, with the ranks that break ties, from the most
/// important down.
#[derive(PartialEq, Eq, Structural, Debug, Clone, Copy, Ord)]
pub enum HandRank {
    HighCard { c1: Rank, c2: Rank, c3: Rank, c4: Rank, c5: Rank },
    OnePair { p: Rank, c1: Rank, c2: Rank, c3: Rank },
    TwoPair { p1: Rank, p2: Rank, c1: Rank },
    ThreeOfAKind { t: Rank, c1: Rank, c2: Rank },
    Straight { s: Rank },
    Flush { c1: Rank, c2: Rank, c3: Rank, c4: Rank, c5: Rank },
    FullHouse { t: Rank, p: Rank },
    FourOfAKind { q: Rank, c: Rank },
    StraightFlush { sf: Rank },
}

/// The score that orders hands: a base for each kind of hand, plus its tie-breaking
/// ranks read as a number in base 13; a straight, or a straight flush, adds the score of
/// its top card, from 1 for a Two up to 13 for an Ace.
pub open spec fn rank_score(h: HandRank) -> int {
    match h {
        HandRank::HighCard { c1, c2, c3, c4, c5 } => rank_digits(seq![c1, c2, c3, c4, c5]),
        HandRank::OnePair { p, c1, c2, c3 } => rank_digits(seq![p, c1, c2, c3]) + ONE_PAIR_BASE,
        HandRank::TwoPair { p1, p2, c1 } => rank_digits(seq![p1, p2, c1]) + TWO_PAIR_BASE,
        HandRank::ThreeOfAKind { t, c1, c2 } => rank_digits(seq![t, c1, c2]) + TRIP_BASE,
        HandRank::Straight { s } => s.index() + 1 + STRAIGHT_BASE,
        HandRank::Flush { c1, c2, c3, c4, c5 } => rank_digits(seq![c1, c2, c3, c4, c5]) + FLUSH_BASE,
        HandRank::FullHouse { t, p } => rank_digits(seq![t, p]) + FULL_HOUSE_BASE,
        HandRank::FourOfAKind { q, c } => rank_digits(seq![q, c]) + FOUR_OF_KIND_BASE,
        HandRank::StraightFlush { sf } => sf.index() + 1 + STRAIGHT_FLUSH_BASE,
    }
}

/// The hand of the second ranking type as a hand of this type.
pub open spec fn from_standard(h: StandardHandRanks) -> HandRank {
    match h {
        StandardHandRanks::HighCard { c1, c2, c3, c4, c5 } => HandRank::HighCard { c1, c2, c3, c4, c5 },
        StandardHandRanks::OnePair { p, c1, c2, c3 } => HandRank::OnePair { p, c1, c2, c3 },
        StandardHandRanks::TwoPair { p1, p2, c1 } => HandRank::TwoPair { p1, p2, c1 },
        StandardHandRanks::ThreeOfAKind { t, c1, c2 } => HandRank::ThreeOfAKind { t, c1, c2 },
        StandardHandRanks::Straight { s } => HandRank::Straight { s },
        StandardHandRanks::Flush { c1, c2, c3, c4, c5 } => HandRank::Flush { c1, c2, c3, c4, c5 },
        StandardHandRanks::FullHouse { t, p } => HandRank::FullHouse { t, p },
        StandardHandRanks::FourOfAKind { q, c } => HandRank::FourOfAKind { q, c },
        StandardHandRanks::StraightFlush { sf } => HandRank::StraightFlush { sf },
    }
}

impl HandRank {
    /// The score that orders hands.
    pub fn get_score(&self) -> (res: u32)
        ensures
            res == rank_score(*self),
    {
        match self {
            HandRank::HighCard { c1, c2, c3, c4, c5 } => {
                Self::get_score_from_ranks(&[*c1, *c2, *c3, *c4, *c5])
            },
            HandRank::OnePair { p, c1, c2, c3 } => {
                Self::get_score_from_ranks(&[*p, *c1, *c2, *c3]) + ONE_PAIR_BASE
            },
            HandRank::TwoPair { p1, p2, c1 } => {
                Self::get_score_from_ranks(&[*p1, *p2, *c1]) + TWO_PAIR_BASE
            },
            HandRank::ThreeOfAKind { t, c1, c2 } => {
                Self::get_score_from_ranks(&[*t, *c1, *c2]) + TRIP_BASE
            },
            HandRank::Straight { s } => s.get_score() + STRAIGHT_BASE,
            HandRank::Flush { c1, c2, c3, c4, c5 } => {
                Self::get_score_from_ranks(&[*c1, *c2, *c3, *c4, *c5]) + FLUSH_BASE
            },
            HandRank::FullHouse { t, p } => Self::get_score_from_ranks(&[*t, *p]) + FULL_HOUSE_BASE,
            HandRank::FourOfAKind { q, c } => {
                Self::get_score_from_ranks(&[*q, *c]) + FOUR_OF_KIND_BASE
            },
            HandRank::StraightFlush { sf } => sf.get_score() + STRAIGHT_FLUSH_BASE,
        }
    }

    fn get_score_from_ranks(values: &[Rank]) -> (res: u32)
        requires
            values@.len() <= 5,
        ensures
            res == rank_digits(values@),
            res < 371293,
    {
        let mut val: u32 = 0;
        let mut i: usize = 0;
        proof {
            assert(values@.take(0) =~= Seq::<Rank>::empty());
            assert(pow13(0) == 1);
            assert(pow13(1) == 13);
            assert(pow13(2) == 169);
            assert(pow13(3) == 2197);
            assert(pow13(4) == 28561);
            assert(pow13(5) == 371293);
        }
        while i < values.len()
            invariant
                0 <= i <= values.len() <= 5,
                val == rank_digits(values@.take(i as int)),
                val < pow13(i as nat),
                pow13(5) == 371293,
            decreases values.len() - i,
        {
            proof {
                lemma_rank_digits_bound(values@.take(i + 1));
                assert(values@.take(i + 1).drop_last() =~= values@.take(i as int));
                lemma_pow13_mono((i + 1) as nat, 5);
            }
            val = val * 13 + values[i].get_score() - 1;
            i = i + 1;
        }
        proof {
            assert(values@.take(values@.len() as int) =~= values@);
            lemma_pow13_mono(values@.len(), 5);
        }
        val
    }
}

/// How two scores compare.
pub open spec fn compare_scores(a: int, b: int) -> Ordering {
    if a < b {
        Ordering::Less
    } else if a == b {
        Ordering::Equal
    } else {
        Ordering::Greater
    }
}

impl PartialOrd for HandRank {
    fn partial_cmp(&self, other: &Self) -> (res: Option<Ordering>)
        ensures
            res == Some(compare_scores(rank_score(*self), rank_score(*other))),
    {
        let a = self.get_score();
        let b = other.get_score();
        if a < b {
            Some(Ordering::Less)
        } else if a == b {
            Some(Ordering::Equal)
        } else {
            Some(Ordering::Greater)
        }
    }
}

impl vstd::std_specs::cmp::PartialOrdSpecImpl for HandRank {
    open spec fn obeys_partial_cmp_spec() -> bool {
        true
    }

    open spec fn partial_cmp_spec(&self, other: &Self) -> Option<Ordering> {
        Some(compare_scores(rank_score(*self), rank_score(*other)))
    }
}

/// The kind of a hand, from the high card (0) up to the straight flush (8).
pub open spec fn rank_kind(h: HandRank) -> int {
    match h {
        HandRank::HighCard { .. } => 0,
        HandRank::OnePair { .. } => 1,
        HandRank::TwoPair { .. } => 2,
        HandRank::ThreeOfAKind { .. } => 3,
        HandRank::Straight { .. } => 4,
        HandRank::Flush { .. } => 5,
        HandRank::FullHouse { .. } => 6,
        HandRank::FourOfAKind { .. } => 7,
        HandRank::StraightFlush { .. } => 8,
    }
}

/// The ranks of a hand in the order of its fields, the most important first.
pub open spec fn rank_fields(h: HandRank) -> Seq<Rank> {
    match h {
        HandRank::HighCard { c1, c2, c3, c4, c5 } => seq![c1, c2, c3, c4, c5],
        HandRank::OnePair { p, c1, c2, c3 } => seq![p, c1, c2, c3],
        HandRank::TwoPair { p1, p2, c1 } => seq![p1, p2, c1],
        HandRank::ThreeOfAKind { t, c1, c2 } => seq![t, c1, c2],
        HandRank::Straight { s } => seq![s],
        HandRank::Flush { c1, c2, c3, c4, c5 } => seq![c1, c2, c3, c4, c5],
        HandRank::FullHouse { t, p } => seq![t, p],
        HandRank::FourOfAKind { q, c } => seq![q, c],
        HandRank::StraightFlush { sf } => seq![sf],
    }
}

/// The hand as a hand of the second ranking type.
pub open spec fn to_standard(h: HandRank) -> StandardHandRanks {
    match h {
        HandRank::HighCard { c1, c2, c3, c4, c5 } => StandardHandRanks::HighCard { c1, c2, c3, c4, c5 },
        HandRank::OnePair { p, c1, c2, c3 } => StandardHandRanks::OnePair { p, c1, c2, c3 },
        HandRank::TwoPair { p1, p2, c1 } => StandardHandRanks::TwoPair { p1, p2, c1 },
        HandRank::ThreeOfAKind { t, c1, c2 } => StandardHandRanks::ThreeOfAKind { t, c1, c2 },
        HandRank::Straight { s } => StandardHandRanks::Straight { s },
        HandRank::Flush { c1, c2, c3, c4, c5 } => StandardHandRanks::Flush { c1, c2, c3, c4, c5 },
        HandRank::FullHouse { t, p } => StandardHandRanks::FullHouse { t, p },
        HandRank::FourOfAKind { q, c } => StandardHandRanks::FourOfAKind { q, c },
        HandRank::StraightFlush { sf } => StandardHandRanks::StraightFlush { sf },
    }
}

/// The flush of five Twos, which no cards make: it scores as the Ace-high straight.
pub open spec fn flush_of_twos() -> HandRank {
    HandRank::Flush { c1: Rank::Two, c2: Rank::Two, c3: Rank::Two, c4: Rank::Two, c5: Rank::Two }
}

/// A hand scores as the same hand of the second ranking type, a straight and a straight
/// flush one more; its kind and ranks are those of that hand.
proof fn lemma_rank_score_standard(h: HandRank)
    ensures
        rank_score(h) == hand_score(to_standard(h)) + if h is Straight || h is StraightFlush {
            1int
        } else {
            0int
        },
        rank_kind(h) == kind_index(to_standard(h)),
        rank_fields(h) == hand_ranks(to_standard(h)),
        kind_base(to_standard(h)) <= hand_score(to_standard(h)) < kind_end(to_standard(h)),
        forall|g: HandRank| to_standard(g) == to_standard(h) ==> g == h,
{
    lemma_hand_score_band(to_standard(h));
}

/// Hands are ordered first by their kind and, within a kind, by their ranks compared one
/// by one in the order of the hand's fields (for two pair: the higher pair, the lower
/// pair, the kicker); hands score the same only when they are the same. This is the order
/// that `partial_cmp` follows. The one exception is the Ace-high straight against the
/// flush of five Twos, which score the same.
#[verifier::rlimit(50)]
pub proof fn lemma_rank_order(a: HandRank, b: HandRank)
    requires
        !(a == (HandRank::Straight { s: Rank::Ace }) && b == flush_of_twos()),
        !(b == (HandRank::Straight { s: Rank::Ace }) && a == flush_of_twos()),
    ensures
        (rank_score(a) < rank_score(b)) == (rank_kind(a) < rank_kind(b) || (rank_kind(a) == rank_kind(b)
            && ranks_lex_less(rank_fields(a), rank_fields(b)))),
        (rank_score(a) == rank_score(b)) == (a == b),
{
    let sa = to_standard(a);
    let sb = to_standard(b);
    lemma_rank_score_standard(a);
    lemma_rank_score_standard(b);
    if rank_kind(a) == rank_kind(b) {
        lemma_hand_order(sa, sb);
    } else {
        let twos = to_standard(flush_of_twos());
        assert(hand_score(twos) == FLUSH_BASE) by {
            reveal_with_fuel(rank_digits, 6);
        }
        if a is Straight && rank_score(a) == FLUSH_BASE {
            lemma_rank_index(a->s);
            assert(a->s == Rank::Ace);
        }
        if b is Straight && rank_score(b) == FLUSH_BASE {
            lemma_rank_index(b->s);
            assert(b->s == Rank::Ace);
        }
        if a is Flush && hand_score(sa) == FLUSH_BASE {
            lemma_hand_score_injective(sa, twos);
        }
        if b is Flush && hand_score(sb) == FLUSH_BASE {
            lemma_hand_score_injective(sb, twos);
        }
    }
}

} // verus!
