use vstd::prelude::*;
use core::cmp::Ordering;
use crate::deck::{Deck, Rank, RankCount, RankSet, Suit};
use crate::deck::rank::{rank_at, rank_char};
use crate::deck::bits::lemma_rank_index;
use crate::deck::suit::suit_at;
use crate::deck::rank_bits::{
    best_straight, combined_ranks, highest_with_count, lemma_top_ranks, rank_count, suit_ranks,
    top_ranks,
};
use crate::deck::suit_rank_sets;
use crate::ranking::standard_hand_ranker::RankOrder;

verus! {

/// A kind of ranked hand; the hands of a kind can be compared.
pub trait HandRanking {

}

/// The rank of a five-card poker hand, with the ranks that break ties, from the most
/// important down.
#[derive(PartialEq, Eq, Structural, Debug, Clone, Copy, Ord)]
pub enum StandardHandRanks {
    HighCard { c1: Rank, c2: Rank, c3: Rank, c4: Rank, c5: Rank },
    OnePair { p: Rank, c1: Rank, c2: Rank, c3: Rank },
    TwoPair { p1: Rank, p2: Rank, c1: Rank },
    ThreeOfAKind { t: Rank, c1: Rank, c2: Rank },
    Straight { s: Rank },
    Flush { c1: Rank, c2: Rank, c3: Rank, c4: Rank, c5: Rank },
    FullHouse { t: Rank, p: Rank },
    FourOfAKind { q: Rank, c: Rank },
    StraightFlush { sf: Rank },
}

impl HandRanking for StandardHandRanks {

}

pub const FIVE_OPTIONS: u32 = 13 * 13 * 13 * 13 * 13;

pub const FOUR_OPTIONS: u32 = 13 * 13 * 13 * 13;

pub const THREE_OPTIONS: u32 = 13 * 13 * 13;

pub const TWO_OPTIONS: u32 = 13 * 13;

pub const ONE_OPTION: u32 = 13;

pub const ONE_PAIR_BASE: u32 = FIVE_OPTIONS;

pub const TWO_PAIR_BASE: u32 = ONE_PAIR_BASE + FOUR_OPTIONS;

pub const TRIP_BASE: u32 = TWO_PAIR_BASE + THREE_OPTIONS;

pub const STRAIGHT_BASE: u32 = TRIP_BASE + THREE_OPTIONS;

pub const FLUSH_BASE: u32 = STRAIGHT_BASE + ONE_OPTION;

pub const FULL_HOUSE_BASE: u32 = FLUSH_BASE + FIVE_OPTIONS;

pub const FOUR_OF_KIND_BASE: u32 = FULL_HOUSE_BASE + TWO_OPTIONS;

pub const STRAIGHT_FLUSH_BASE: u32 = FOUR_OF_KIND_BASE + TWO_OPTIONS;

/// The ranks read as the digits of a number in base 13, the first the most significant,
/// each rank by its Ace-high score.
pub open spec fn rank_digits(rs: Seq<Rank>) -> int
    decreases rs.len(),
{
    if rs.len() == 0 {
        0
    } else {
        rank_digits(rs.drop_last()) * 13 + rs.last().index()
    }
}

/// 13 to the power `n`.
pub open spec fn pow13(n: nat) -> nat
    decreases n,
{
    if n == 0 {
        1
    } else {
        13 * pow13((n - 1) as nat)
    }
}

pub proof fn lemma_rank_digits_bound(rs: Seq<Rank>)
    ensures
        0 <= rank_digits(rs) < pow13(rs.len()),
    decreases rs.len(),
{
    if rs.len() > 0 {
        let d = rank_digits(rs.drop_last());
        let p = pow13(rs.drop_last().len());
        lemma_rank_digits_bound(rs.drop_last());
        assert(0 <= rs.last().index() <= 12);
        assert(0 <= d * 13 + rs.last().index() < 13 * p) by (nonlinear_arith)
            requires
                0 <= d < p,
                0 <= rs.last().index() <= 12,
        ;
    }
}

/// The score that orders hands: a base for each kind of hand, plus its tie-breaking
/// ranks read as a number in base 13.
pub open spec fn hand_score(h: StandardHandRanks) -> int {
    match h {
        StandardHandRanks::HighCard { c1, c2, c3, c4, c5 } => rank_digits(seq![c1, c2, c3, c4, c5]),
        StandardHandRanks::OnePair { p, c1, c2, c3 } => rank_digits(seq![p, c1, c2, c3])
            + ONE_PAIR_BASE,
        StandardHandRanks::TwoPair { p1, p2, c1 } => rank_digits(seq![p1, p2, c1]) + TWO_PAIR_BASE,
        StandardHandRanks::ThreeOfAKind { t, c1, c2 } => rank_digits(seq![t, c1, c2]) + TRIP_BASE,
        StandardHandRanks::Straight { s } => s.index() + STRAIGHT_BASE,
        StandardHandRanks::Flush { c1, c2, c3, c4, c5 } => rank_digits(seq![c1, c2, c3, c4, c5])
            + FLUSH_BASE,
        StandardHandRanks::FullHouse { t, p } => rank_digits(seq![t, p]) + FULL_HOUSE_BASE,
        StandardHandRanks::FourOfAKind { q, c } => rank_digits(seq![q, c]) + FOUR_OF_KIND_BASE,
        StandardHandRanks::StraightFlush { sf } => sf.index() + STRAIGHT_FLUSH_BASE,
    }
}

/// The score at which the hands of the kind of `h` begin.
pub open spec fn kind_base(h: StandardHandRanks) -> int {
    match h {
        StandardHandRanks::HighCard { .. } => 0,
        StandardHandRanks::OnePair { .. } => ONE_PAIR_BASE as int,
        StandardHandRanks::TwoPair { .. } => TWO_PAIR_BASE as int,
        StandardHandRanks::ThreeOfAKind { .. } => TRIP_BASE as int,
        StandardHandRanks::Straight { .. } => STRAIGHT_BASE as int,
        StandardHandRanks::Flush { .. } => FLUSH_BASE as int,
        StandardHandRanks::FullHouse { .. } => FULL_HOUSE_BASE as int,
        StandardHandRanks::FourOfAKind { .. } => FOUR_OF_KIND_BASE as int,
        StandardHandRanks::StraightFlush { .. } => STRAIGHT_FLUSH_BASE as int,
    }
}

/// The score at which the hands of the next higher kind begin.
pub open spec fn kind_end(h: StandardHandRanks) -> int {
    match h {
        StandardHandRanks::HighCard { .. } => ONE_PAIR_BASE as int,
        StandardHandRanks::OnePair { .. } => TWO_PAIR_BASE as int,
        StandardHandRanks::TwoPair { .. } => TRIP_BASE as int,
        StandardHandRanks::ThreeOfAKind { .. } => STRAIGHT_BASE as int,
        StandardHandRanks::Straight { .. } => FLUSH_BASE as int,
        StandardHandRanks::Flush { .. } => FULL_HOUSE_BASE as int,
        StandardHandRanks::FullHouse { .. } => FOUR_OF_KIND_BASE as int,
        StandardHandRanks::FourOfAKind { .. } => STRAIGHT_FLUSH_BASE as int,
        StandardHandRanks::StraightFlush { .. } => STRAIGHT_FLUSH_BASE + 13,
    }
}

/// Every hand scores within the band of its kind, and the bands follow one another
/// from the high card up to the straight flush: a hand of a higher kind always beats
/// a hand of a lower kind.
pub proof fn lemma_hand_score_band(h: StandardHandRanks)
    ensures
        kind_base(h) <= hand_score(h) < kind_end(h),
{
    assert(pow13(0) == 1);
    assert(pow13(1) == 13);
    assert(pow13(2) == 169);
    assert(pow13(3) == 2197);
    assert(pow13(4) == 28561);
    assert(pow13(5) == 371293);
    match h {
        StandardHandRanks::HighCard { c1, c2, c3, c4, c5 } => lemma_rank_digits_bound(seq![c1, c2, c3, c4, c5]),
        StandardHandRanks::OnePair { p, c1, c2, c3 } => lemma_rank_digits_bound(seq![p, c1, c2, c3]),
        StandardHandRanks::TwoPair { p1, p2, c1 } => lemma_rank_digits_bound(seq![p1, p2, c1]),
        StandardHandRanks::ThreeOfAKind { t, c1, c2 } => lemma_rank_digits_bound(seq![t, c1, c2]),
        StandardHandRanks::Straight { s } => lemma_rank_index(s),
        StandardHandRanks::Flush { c1, c2, c3, c4, c5 } => lemma_rank_digits_bound(seq![c1, c2, c3, c4, c5]),
        StandardHandRanks::FullHouse { t, p } => lemma_rank_digits_bound(seq![t, p]),
        StandardHandRanks::FourOfAKind { q, c } => lemma_rank_digits_bound(seq![q, c]),
        StandardHandRanks::StraightFlush { sf } => lemma_rank_index(sf),
    }
}

/// Two sequences of ranks of one length read as the same number only when they are the
/// same.
pub proof fn lemma_rank_digits_injective(a: Seq<Rank>, b: Seq<Rank>)
    requires
        a.len() == b.len(),
        rank_digits(a) == rank_digits(b),
    ensures
        a == b,
    decreases a.len(),
{
    if a.len() > 0 {
        lemma_rank_index(a.last());
        lemma_rank_index(b.last());
        let x = rank_digits(a.drop_last());
        let y = rank_digits(b.drop_last());
        assert(x * 13 + a.last().index() == y * 13 + b.last().index());
        assert(x == y && a.last().index() == b.last().index()) by (nonlinear_arith)
            requires
                x * 13 + a.last().index() == y * 13 + b.last().index(),
                0 <= a.last().index() < 13,
                0 <= b.last().index() < 13,
        ;
        lemma_rank_digits_injective(a.drop_last(), b.drop_last());
        assert(a =~= a.drop_last().push(a.last()));
        assert(b =~= b.drop_last().push(b.last()));
    } else {
        assert(a =~= b);
    }
}

/// Whether the ranks `a` come before the ranks `b` of the same length, compared one by
/// one from the first, Two lowest and Ace highest.
pub open spec fn ranks_lex_less(a: Seq<Rank>, b: Seq<Rank>) -> bool
    decreases a.len(),
{
    if a.len() == 0 {
        false
    } else {
        ranks_lex_less(a.drop_last(), b.drop_last()) || (a.drop_last() == b.drop_last()
            && a.last().index() < b.last().index())
    }
}

/// The kind of a hand, from the high card (0) up to the straight flush (8).
pub open spec fn kind_index(h: StandardHandRanks) -> int {
    match h {
        StandardHandRanks::HighCard { .. } => 0,
        StandardHandRanks::OnePair { .. } => 1,
        StandardHandRanks::TwoPair { .. } => 2,
        StandardHandRanks::ThreeOfAKind { .. } => 3,
        StandardHandRanks::Straight { .. } => 4,
        StandardHandRanks::Flush { .. } => 5,
        StandardHandRanks::FullHouse { .. } => 6,
        StandardHandRanks::FourOfAKind { .. } => 7,
        StandardHandRanks::StraightFlush { .. } => 8,
    }
}

/// The ranks of a hand in the order of its fields, the most important first.
pub open spec fn hand_ranks(h: StandardHandRanks) -> Seq<Rank> {
    match h {
        StandardHandRanks::HighCard { c1, c2, c3, c4, c5 } => seq![c1, c2, c3, c4, c5],
        StandardHandRanks::OnePair { p, c1, c2, c3 } => seq![p, c1, c2, c3],
        StandardHandRanks::TwoPair { p1, p2, c1 } => seq![p1, p2, c1],
        StandardHandRanks::ThreeOfAKind { t, c1, c2 } => seq![t, c1, c2],
        StandardHandRanks::Straight { s } => seq![s],
        StandardHandRanks::Flush { c1, c2, c3, c4, c5 } => seq![c1, c2, c3, c4, c5],
        StandardHandRanks::FullHouse { t, p } => seq![t, p],
        StandardHandRanks::FourOfAKind { q, c } => seq![q, c],
        StandardHandRanks::StraightFlush { sf } => seq![sf],
    }
}

/// Ranks of one length read as numbers compare as the ranks do one by one.
pub proof fn lemma_rank_digits_lex(a: Seq<Rank>, b: Seq<Rank>)
    requires
        a.len() == b.len(),
    ensures
        (rank_digits(a) < rank_digits(b)) == ranks_lex_less(a, b),
    decreases a.len(),
{
    if a.len() > 0 {
        lemma_rank_digits_lex(a.drop_last(), b.drop_last());
        lemma_rank_index(a.last());
        lemma_rank_index(b.last());
        let x = rank_digits(a.drop_last());
        let y = rank_digits(b.drop_last());
        let da = a.last().index();
        let db = b.last().index();
        assert((x * 13 + da < y * 13 + db) == (x < y || (x == y && da < db))) by (nonlinear_arith)
            requires
                0 <= da < 13,
                0 <= db < 13,
        ;
        if x == y {
            lemma_rank_digits_injective(a.drop_last(), b.drop_last());
        }
    }
}

/// Hands are ordered first by their kind and, within a kind, by their ranks compared one
/// by one in the order of the hand's fields: this is the order of their scores, which
/// `partial_cmp` follows.
pub proof fn lemma_hand_order(a: StandardHandRanks, b: StandardHandRanks)
    ensures
        (hand_score(a) < hand_score(b)) == (kind_index(a) < kind_index(b) || (kind_index(a)
            == kind_index(b) && ranks_lex_less(hand_ranks(a), hand_ranks(b)))),
        (hand_score(a) == hand_score(b)) == (a == b),
{
    lemma_hand_score_band(a);
    lemma_hand_score_band(b);
    if hand_score(a) == hand_score(b) {
        lemma_hand_score_injective(a, b);
    }
    if kind_index(a) == kind_index(b) {
        lemma_rank_digits_lex(hand_ranks(a), hand_ranks(b));
        match a {
            StandardHandRanks::Straight { s } => {
                lemma_rank_index(s);
                reveal_with_fuel(rank_digits, 2);
                reveal_with_fuel(ranks_lex_less, 2);
            },
            StandardHandRanks::StraightFlush { sf } => {
                lemma_rank_index(sf);
                reveal_with_fuel(rank_digits, 2);
                reveal_with_fuel(ranks_lex_less, 2);
            },
            _ => {},
        }
    }
}

/// No two different hands have the same score, so the order by score is a total order
/// on hands.
pub proof fn lemma_hand_score_injective(a: StandardHandRanks, b: StandardHandRanks)
    requires
        hand_score(a) == hand_score(b),
    ensures
        a == b,
{
    lemma_hand_score_band(a);
    lemma_hand_score_band(b);
    match (a, b) {
        (StandardHandRanks::HighCard { c1, c2, c3, c4, c5 }, StandardHandRanks::HighCard { c1: d1, c2: d2, c3: d3, c4: d4, c5: d5 }) => {
            lemma_rank_digits_injective(seq![c1, c2, c3, c4, c5], seq![d1, d2, d3, d4, d5]);
            assert(seq![c1, c2, c3, c4, c5][0] == c1 && seq![c1, c2, c3, c4, c5][4] == c5);
            assert(seq![d1, d2, d3, d4, d5][0] == d1 && seq![d1, d2, d3, d4, d5][4] == d5);
        },
        (StandardHandRanks::OnePair { p, c1, c2, c3 }, StandardHandRanks::OnePair { p: q, c1: d1, c2: d2, c3: d3 }) => {
            lemma_rank_digits_injective(seq![p, c1, c2, c3], seq![q, d1, d2, d3]);
            assert(seq![p, c1, c2, c3][0] == p && seq![q, d1, d2, d3][0] == q);
        },
        (StandardHandRanks::TwoPair { p1, p2, c1 }, StandardHandRanks::TwoPair { p1: q1, p2: q2, c1: d1 }) => {
            lemma_rank_digits_injective(seq![p1, p2, c1], seq![q1, q2, d1]);
            assert(seq![p1, p2, c1][0] == p1 && seq![q1, q2, d1][0] == q1);
        },
        (StandardHandRanks::ThreeOfAKind { t, c1, c2 }, StandardHandRanks::ThreeOfAKind { t: u, c1: d1, c2: d2 }) => {
            lemma_rank_digits_injective(seq![t, c1, c2], seq![u, d1, d2]);
            assert(seq![t, c1, c2][0] == t && seq![u, d1, d2][0] == u);
        },
        (StandardHandRanks::Straight { s }, StandardHandRanks::Straight { s: u }) => {
            lemma_rank_index(s);
            lemma_rank_index(u);
        },
        (StandardHandRanks::Flush { c1, c2, c3, c4, c5 }, StandardHandRanks::Flush { c1: d1, c2: d2, c3: d3, c4: d4, c5: d5 }) => {
            lemma_rank_digits_injective(seq![c1, c2, c3, c4, c5], seq![d1, d2, d3, d4, d5]);
            assert(seq![c1, c2, c3, c4, c5][0] == c1 && seq![c1, c2, c3, c4, c5][4] == c5);
            assert(seq![d1, d2, d3, d4, d5][0] == d1 && seq![d1, d2, d3, d4, d5][4] == d5);
        },
        (StandardHandRanks::FullHouse { t, p }, StandardHandRanks::FullHouse { t: u, p: q }) => {
            lemma_rank_digits_injective(seq![t, p], seq![u, q]);
            assert(seq![t, p][0] == t && seq![u, q][0] == u);
        },
        (StandardHandRanks::FourOfAKind { q, c }, StandardHandRanks::FourOfAKind { q: r, c: d }) => {
            lemma_rank_digits_injective(seq![q, c], seq![r, d]);
            assert(seq![q, c][0] == q && seq![r, d][0] == r);
        },
        (StandardHandRanks::StraightFlush { sf }, StandardHandRanks::StraightFlush { sf: u }) => {
            lemma_rank_index(sf);
            lemma_rank_index(u);
        },
        _ => {},
    }
}

/// The names of ranks, one character each, separated by single spaces.
pub open spec fn spaced_ranks(rs: Seq<Rank>) -> Seq<char>
    decreases rs.len(),
{
    if rs.len() == 0 {
        Seq::empty()
    } else if rs.len() == 1 {
        seq![rank_char(rs[0])]
    } else {
        spaced_ranks(rs.drop_last()) + seq![' ', rank_char(rs.last())]
    }
}

/// How a ranked hand is written out, such as `Two Pair K over 9, 4`.
pub open spec fn hand_name(h: StandardHandRanks) -> Seq<char> {
    match h {
        StandardHandRanks::HighCard { c1, c2, c3, c4, c5 } => "High Card "@ + spaced_ranks(
            seq![c1, c2, c3, c4, c5],
        ),
        StandardHandRanks::OnePair { p, c1, c2, c3 } => "Pair of "@ + seq![rank_char(p)] + ", "@
            + spaced_ranks(seq![c1, c2, c3]),
        StandardHandRanks::TwoPair { p1, p2, c1 } => "Two Pair "@ + seq![rank_char(p1)] + " over "@
            + seq![rank_char(p2)] + ", "@ + seq![rank_char(c1)],
        StandardHandRanks::ThreeOfAKind { t, c1, c2 } => "Three of a Kind "@ + seq![rank_char(t)]
            + ", "@ + spaced_ranks(seq![c1, c2]),
        StandardHandRanks::Straight { s } => "Straight "@ + seq![rank_char(s)] + " high"@,
        StandardHandRanks::Flush { c1, c2, c3, c4, c5 } => "Flush "@ + spaced_ranks(
            seq![c1, c2, c3, c4, c5],
        ),
        StandardHandRanks::FullHouse { t, p } => "Full House "@ + seq![rank_char(t)] + " full of "@
            + seq![rank_char(p)],
        StandardHandRanks::FourOfAKind { q, c } => "Four of a Kind "@ + seq![rank_char(q)] + ", "@
            + seq![rank_char(c)],
        StandardHandRanks::StraightFlush { sf } => "Straight Flush "@ + seq![rank_char(sf)]
            + " high"@,
    }
}

/// Appends the names of the ranks, separated by single spaces.
fn append_spaced(out: &mut String, rs: &[Rank])
    ensures
        final(out)@ == old(out)@ + spaced_ranks(rs@),
{
    let ghost start = out@;
    let mut i: usize = 0;
    while i < rs.len()
        invariant
            i <= rs.len(),
            out@ == start + spaced_ranks(rs@.take(i as int)),
        decreases rs.len() - i,
    {
        assert(rs@.take(i as int + 1).drop_last() =~= rs@.take(i as int));
        if i > 0 {
            out.append(" ");
            proof {
                reveal_strlit(" ");
            }
        }
        let name = rs[i].to_string();
        out.append(name.as_str());
        i = i + 1;
        proof {
            assert(out@ =~= start + spaced_ranks(rs@.take(i as int)));
        }
    }
    assert(rs@.take(i as int) =~= rs@);
}

/// Appends the name of one rank.
fn append_rank(out: &mut String, r: Rank)
    ensures
        final(out)@ == old(out)@ + seq![rank_char(r)],
{
    let name = r.to_string();
    out.append(name.as_str());
}

impl StandardHandRanks {
    /// How the hand is written out, such as `Straight A high`.
    pub fn to_string(&self) -> (res: String)
        ensures
            res@ == hand_name(*self),
    {
        let mut out = String::new();
        match self {
            StandardHandRanks::HighCard { c1, c2, c3, c4, c5 } => {
                out.append("High Card ");
                append_spaced(&mut out, &[*c1, *c2, *c3, *c4, *c5]);
            },
            StandardHandRanks::OnePair { p, c1, c2, c3 } => {
                out.append("Pair of ");
                append_rank(&mut out, *p);
                out.append(", ");
                append_spaced(&mut out, &[*c1, *c2, *c3]);
            },
            StandardHandRanks::TwoPair { p1, p2, c1 } => {
                out.append("Two Pair ");
                append_rank(&mut out, *p1);
                out.append(" over ");
                append_rank(&mut out, *p2);
                out.append(", ");
                append_rank(&mut out, *c1);
            },
            StandardHandRanks::ThreeOfAKind { t, c1, c2 } => {
                out.append("Three of a Kind ");
                append_rank(&mut out, *t);
                out.append(", ");
                append_spaced(&mut out, &[*c1, *c2]);
            },
            StandardHandRanks::Straight { s } => {
                out.append("Straight ");
                append_rank(&mut out, *s);
                out.append(" high");
            },
            StandardHandRanks::Flush { c1, c2, c3, c4, c5 } => {
                out.append("Flush ");
                append_spaced(&mut out, &[*c1, *c2, *c3, *c4, *c5]);
            },
            StandardHandRanks::FullHouse { t, p } => {
                out.append("Full House ");
                append_rank(&mut out, *t);
                out.append(" full of ");
                append_rank(&mut out, *p);
            },
            StandardHandRanks::FourOfAKind { q, c } => {
                out.append("Four of a Kind ");
                append_rank(&mut out, *q);
                out.append(", ");
                append_rank(&mut out, *c);
            },
            StandardHandRanks::StraightFlush { sf } => {
                out.append("Straight Flush ");
                append_rank(&mut out, *sf);
                out.append(" high");
            },
        }
        proof {
            assert(out@ =~= hand_name(*self));
        }
        out
    }

    /// The score that orders hands.
    pub fn get_score(&self) -> (res: u32)
        ensures
            res == hand_score(*self),
    {
        match self {
            StandardHandRanks::HighCard { c1, c2, c3, c4, c5 } => {
                Self::get_score_from_ranks(&[*c1, *c2, *c3, *c4, *c5])
            },
            StandardHandRanks::OnePair { p, c1, c2, c3 } => {
                Self::get_score_from_ranks(&[*p, *c1, *c2, *c3]) + ONE_PAIR_BASE
            },
            StandardHandRanks::TwoPair { p1, p2, c1 } => {
                Self::get_score_from_ranks(&[*p1, *p2, *c1]) + TWO_PAIR_BASE
            },
            StandardHandRanks::ThreeOfAKind { t, c1, c2 } => {
                Self::get_score_from_ranks(&[*t, *c1, *c2]) + TRIP_BASE
            },
            StandardHandRanks::Straight { s } => RankOrder::AceIsHigh.get_score(s) + STRAIGHT_BASE,
            StandardHandRanks::Flush { c1, c2, c3, c4, c5 } => {
                Self::get_score_from_ranks(&[*c1, *c2, *c3, *c4, *c5]) + FLUSH_BASE
            },
            StandardHandRanks::FullHouse { t, p } => Self::get_score_from_ranks(&[*t, *p])
                + FULL_HOUSE_BASE,
            StandardHandRanks::FourOfAKind { q, c } => {
                Self::get_score_from_ranks(&[*q, *c]) + FOUR_OF_KIND_BASE
            },
            StandardHandRanks::StraightFlush { sf } => RankOrder::AceIsHigh.get_score(sf)
                + STRAIGHT_FLUSH_BASE,
        }
    }

    fn get_score_from_ranks(values: &[Rank]) -> (res: u32)
        requires
            values@.len() <= 5,
        ensures
            res == rank_digits(values@),
            res < pow13(values@.len()),
            res < 371293,
    {
        let mut val: u32 = 0;
        let mut i: usize = 0;
        proof {
            assert(values@.take(0) =~= Seq::<Rank>::empty());
            assert(pow13(0) == 1);
            assert(pow13(1) == 13);
            assert(pow13(2) == 169);
            assert(pow13(3) == 2197);
            assert(pow13(4) == 28561);
            assert(pow13(5) == 371293);
        }
        while i < values.len()
            invariant
                0 <= i <= values.len() <= 5,
                val == rank_digits(values@.take(i as int)),
                val < pow13(i as nat),
                pow13(5) == 371293,
            decreases values.len() - i,
        {
            proof {
                lemma_rank_digits_bound(values@.take(i + 1));
                assert(values@.take(i + 1).drop_last() =~= values@.take(i as int));
                lemma_pow13_mono((i + 1) as nat, 5);
            }
            val = val * 13 + RankOrder::AceIsHigh.get_score(&values[i]);
            i = i + 1;
        }
        proof {
            assert(values@.take(values@.len() as int) =~= values@);
            lemma_pow13_mono(values@.len(), 5);
        }
        val
    }
}

pub proof fn lemma_pow13_mono(a: nat, b: nat)
    requires
        a <= b,
    ensures
        pow13(a) <= pow13(b),
    decreases b,
{
    if a < b {
        lemma_pow13_mono(a, (b - 1) as nat);
        assert(pow13(b) == 13 * pow13((b - 1) as nat));
    }
}

impl PartialOrd for StandardHandRanks {
    fn partial_cmp(&self, other: &Self) -> (res: Option<Ordering>)
        ensures
            res == Some(score_order(hand_score(*self), hand_score(*other))),
    {
        let a = self.get_score();
        let b = other.get_score();
        if a < b {
            Some(Ordering::Less)
        } else if a == b {
            Some(Ordering::Equal)
        } else {
            Some(Ordering::Greater)
        }
    }
}

/// How two scores compare.
pub open spec fn score_order(a: int, b: int) -> Ordering {
    if a < b {
        Ordering::Less
    } else if a == b {
        Ordering::Equal
    } else {
        Ordering::Greater
    }
}

impl vstd::std_specs::cmp::PartialOrdSpecImpl for StandardHandRanks {
    open spec fn obeys_partial_cmp_spec() -> bool {
        true
    }

    open spec fn partial_cmp_spec(&self, other: &Self) -> Option<Ordering> {
        Some(score_order(hand_score(*self), hand_score(*other)))
    }
}

/// How many cards of each rank a set of cards holds.
pub open spec fn deck_counts(d: Set<(Rank, Suit)>) -> spec_fn(Rank) -> nat {
    |r: Rank| rank_count(d, r)
}

/// The highest rank outside `excl` of which the cards hold at least `n`.
pub open spec fn highest_with(d: Set<(Rank, Suit)>, excl: Seq<Rank>, n: nat) -> Option<Rank> {
    highest_with_count(deck_counts(d), excl, n)
}

/// The straight kept after looking at one more suit: a new straight replaces the one
/// found so far only when it is higher.
pub open spec fn better_straight(found: Option<Rank>, new: Option<Rank>) -> Option<Rank> {
    match new {
        Some(s) => match found {
            Some(f) => if s.index() > f.index() {
                Some(s)
            } else {
                Some(f)
            },
            None => Some(s),
        },
        None => found,
    }
}

/// The highest straight flush among the first `k` suits (clubs, diamonds, hearts, spades).
pub open spec fn straight_flush_upto(d: Set<(Rank, Suit)>, k: int) -> Option<Rank>
    decreases k,
{
    if k <= 0 {
        None
    } else {
        better_straight(
            straight_flush_upto(d, k - 1),
            best_straight(suit_ranks(d, Suit::from_index(k - 1))),
        )
    }
}

/// The top card of the highest straight flush.
pub open spec fn best_straight_flush(d: Set<(Rank, Suit)>) -> Option<Rank> {
    straight_flush_upto(d, 4)
}

/// The five highest ranks of the first of the first `k` suits that holds at least five
/// cards.
pub open spec fn flush_upto(d: Set<(Rank, Suit)>, k: int) -> Option<Seq<Rank>>
    decreases k,
{
    if k <= 0 {
        None
    } else {
        match flush_upto(d, k - 1) {
            Some(f) => Some(f),
            None => if suit_ranks(d, Suit::from_index(k - 1)).len() >= 5 {
                Some(top_ranks(suit_ranks(d, Suit::from_index(k - 1))).take(5))
            } else {
                None
            },
        }
    }
}

/// The five highest ranks of the first suit, in the order clubs, diamonds, hearts,
/// spades, that holds at least five cards.
pub open spec fn first_flush(d: Set<(Rank, Suit)>) -> Option<Seq<Rank>> {
    flush_upto(d, 4)
}

/// Four of a kind: the highest rank held four times, with the highest other rank.
pub open spec fn four_of_a_kind_hand(d: Set<(Rank, Suit)>) -> Option<StandardHandRanks> {
    match highest_with(d, seq![], 4) {
        Some(q) => match highest_with(d, seq![q], 1) {
            Some(c) => Some(StandardHandRanks::FourOfAKind { q, c }),
            None => None,
        },
        None => None,
    }
}

/// A full house: the highest rank held three times, with the highest other rank held
/// twice.
pub open spec fn full_house_hand(d: Set<(Rank, Suit)>) -> Option<StandardHandRanks> {
    match highest_with(d, seq![], 3) {
        Some(t) => match highest_with(d, seq![t], 2) {
            Some(p) => Some(StandardHandRanks::FullHouse { t, p }),
            None => None,
        },
        None => None,
    }
}

/// A flush: the five highest ranks of the first suit with five cards.
pub open spec fn flush_hand(d: Set<(Rank, Suit)>) -> Option<StandardHandRanks> {
    match first_flush(d) {
        Some(f) => Some(StandardHandRanks::Flush { c1: f[0], c2: f[1], c3: f[2], c4: f[3], c5: f[4] }),
        None => None,
    }
}

/// A straight: the top card of the highest straight in any suits.
pub open spec fn straight_hand(d: Set<(Rank, Suit)>) -> Option<StandardHandRanks> {
    match best_straight(combined_ranks(d)) {
        Some(s) => Some(StandardHandRanks::Straight { s }),
        None => None,
    }
}

/// Three of a kind: the highest rank held three times, with the two highest other ranks.
pub open spec fn three_of_a_kind_hand(d: Set<(Rank, Suit)>) -> Option<StandardHandRanks> {
    match highest_with(d, seq![], 3) {
        Some(t) => match highest_with(d, seq![t], 1) {
            Some(c1) => match highest_with(d, seq![t, c1], 1) {
                Some(c2) => Some(StandardHandRanks::ThreeOfAKind { t, c1, c2 }),
                None => None,
            },
            None => None,
        },
        None => None,
    }
}

/// Two pair: the two highest ranks held twice, with the highest other rank.
pub open spec fn two_pair_hand(d: Set<(Rank, Suit)>) -> Option<StandardHandRanks> {
    match highest_with(d, seq![], 2) {
        Some(p1) => match highest_with(d, seq![p1], 2) {
            Some(p2) => match highest_with(d, seq![p1, p2], 1) {
                Some(c1) => Some(StandardHandRanks::TwoPair { p1, p2, c1 }),
                None => None,
            },
            None => None,
        },
        None => None,
    }
}

/// One pair: the highest rank held twice, with the three highest other ranks.
pub open spec fn one_pair_hand(d: Set<(Rank, Suit)>) -> Option<StandardHandRanks> {
    match highest_with(d, seq![], 2) {
        Some(p) => match highest_with(d, seq![p], 1) {
            Some(c1) => match highest_with(d, seq![p, c1], 1) {
                Some(c2) => match highest_with(d, seq![p, c1, c2], 1) {
                    Some(c3) => Some(StandardHandRanks::OnePair { p, c1, c2, c3 }),
                    None => None,
                },
                None => None,
            },
            None => None,
        },
        None => None,
    }
}

/// High card: the five highest ranks.
pub open spec fn high_card_hand(d: Set<(Rank, Suit)>) -> Option<StandardHandRanks> {
    if combined_ranks(d).len() >= 5 {
        let f = top_ranks(combined_ranks(d)).take(5);
        Some(StandardHandRanks::HighCard { c1: f[0], c2: f[1], c3: f[2], c4: f[3], c5: f[4] })
    } else {
        None
    }
}

/// Ranking the cards against a score to reach, `t`: the kinds of hand are tried from the
/// straight flush down, and the first that the cards make is the result; before each
/// kind below the straight flush, a `t` at least that kind's base gives `Some(None)`,
/// no hand. `None` means that the cards make no hand at all, which ranking refuses.
pub open spec fn rank_cascade(d: Set<(Rank, Suit)>, t: int) -> Option<Option<StandardHandRanks>> {
    if best_straight_flush(d) is Some {
        Some(Some(StandardHandRanks::StraightFlush { sf: best_straight_flush(d).unwrap() }))
    } else if t >= STRAIGHT_FLUSH_BASE {
        Some(None)
    } else if four_of_a_kind_hand(d) is Some {
        Some(four_of_a_kind_hand(d))
    } else if t >= FOUR_OF_KIND_BASE {
        Some(None)
    } else if full_house_hand(d) is Some {
        Some(full_house_hand(d))
    } else if t >= FULL_HOUSE_BASE {
        Some(None)
    } else if flush_hand(d) is Some {
        Some(flush_hand(d))
    } else if t >= FLUSH_BASE {
        Some(None)
    } else if straight_hand(d) is Some {
        Some(straight_hand(d))
    } else if t >= STRAIGHT_BASE {
        Some(None)
    } else if three_of_a_kind_hand(d) is Some {
        Some(three_of_a_kind_hand(d))
    } else if t >= TRIP_BASE {
        Some(None)
    } else if two_pair_hand(d) is Some {
        Some(two_pair_hand(d))
    } else if highest_with(d, seq![], 2) is Some && t >= TWO_PAIR_BASE {
        Some(None)
    } else if one_pair_hand(d) is Some {
        Some(one_pair_hand(d))
    } else if t >= ONE_PAIR_BASE {
        Some(None)
    } else if high_card_hand(d) is Some {
        Some(high_card_hand(d))
    } else {
        None
    }
}

/// Whether ranking the cards against the score `t` comes to a result.
pub open spec fn rank_defined(d: Set<(Rank, Suit)>, t: int) -> bool {
    rank_cascade(d, t) is Some
}

/// The result of ranking the cards against the score `t`: the hand, or `None`.
pub open spec fn rank_at_least(d: Set<(Rank, Suit)>, t: int) -> Option<StandardHandRanks> {
    match rank_cascade(d, t) {
        Some(r) => r,
        None => None,
    }
}

/// The score that a hand must reach: that of the given hand, or 0.
pub open spec fn score_to_beat(h: Option<StandardHandRanks>) -> int {
    match h {
        Some(x) => hand_score(x),
        None => 0,
    }
}

/// The rank of the hand that the cards make.
pub open spec fn hand_rank(d: Set<(Rank, Suit)>) -> StandardHandRanks {
    rank_at_least(d, 0).unwrap()
}

/// Ranking against a score to reach never hides the hand that the cards make: the result
/// is that hand or `None`, it is that hand whenever the hand reaches the score, and
/// so `None` comes only for a hand that scores below it. A deck that can be ranked at
/// all can be ranked against any score.
pub proof fn lemma_rank_at_least_agrees(d: Set<(Rank, Suit)>, t: int)
    requires
        rank_defined(d, 0),
    ensures
        rank_defined(d, t),
        rank_at_least(d, t) is Some ==> rank_at_least(d, t) == Some(hand_rank(d)),
        hand_score(hand_rank(d)) >= t ==> rank_at_least(d, t) == Some(hand_rank(d)),
        rank_at_least(d, t) is None ==> hand_score(hand_rank(d)) < t,
{
    lemma_hand_score_band(hand_rank(d));
}

/// Ranking against a score that some hand can reach gives the cards' hand exactly when
/// the score lies below the band of the next higher kind, and `None` otherwise.
pub proof fn lemma_rank_at_least_band(d: Set<(Rank, Suit)>, t: int)
    requires
        rank_defined(d, 0),
        t < STRAIGHT_FLUSH_BASE + 13,
    ensures
        rank_at_least(d, t) == if t >= kind_end(hand_rank(d)) {
            None
        } else {
            Some(hand_rank(d))
        },
{
    let h = hand_rank(d);
    if best_straight_flush(d) is Some {
    } else if four_of_a_kind_hand(d) is Some {
        assert(h == four_of_a_kind_hand(d).unwrap());
    } else if full_house_hand(d) is Some {
        assert(h == full_house_hand(d).unwrap());
    } else if flush_hand(d) is Some {
        assert(h == flush_hand(d).unwrap());
    } else if straight_hand(d) is Some {
        assert(h == straight_hand(d).unwrap());
    } else if three_of_a_kind_hand(d) is Some {
        assert(h == three_of_a_kind_hand(d).unwrap());
    } else if two_pair_hand(d) is Some {
        assert(h == two_pair_hand(d).unwrap());
    } else if one_pair_hand(d) is Some {
        assert(h == one_pair_hand(d).unwrap());
    } else {
        assert(h == high_card_hand(d).unwrap());
    }
}

/// Ranking against a hand gives `None` exactly when that hand is of a higher kind than
/// the hand that the cards make, and otherwise the cards' hand.
pub proof fn lemma_rank_at_least_by_kind(d: Set<(Rank, Suit)>, b: Option<StandardHandRanks>)
    requires
        rank_defined(d, 0),
    ensures
        rank_at_least(d, score_to_beat(b)) == match b {
            Some(x) => if kind_base(x) > kind_base(hand_rank(d)) {
                None
            } else {
                Some(hand_rank(d))
            },
            None => Some(hand_rank(d)),
        },
{
    if let Some(x) = b {
        lemma_hand_score_band(x);
    }
    lemma_rank_at_least_band(d, score_to_beat(b));
    lemma_hand_score_band(hand_rank(d));
}

/// Ranks poker hands.
pub struct StandardHandRanker {}

impl StandardHandRanker {
    /// The rank of the hand that the deck's cards make.
    pub fn get_rank(deck: &Deck) -> (res: StandardHandRanks)
        requires
            rank_defined(deck@, 0),
        ensures
            res == hand_rank(deck@),
    {
        Self::get_rank_at_least(deck, None).unwrap()
    }

    /// The rank of the hand that the deck's cards make, or `None` once it is clear that
    /// the hand is of a lower kind than `must_be_at_least`; see `rank_cascade`.
    pub fn get_rank_at_least(deck: &Deck, must_be_at_least: Option<StandardHandRanks>) -> (res:
        Option<StandardHandRanks>)
        requires
            rank_defined(deck@, score_to_beat(must_be_at_least)),
        ensures
            res == rank_at_least(deck@, score_to_beat(must_be_at_least)),
            rank_defined(deck@, 0) ==> res == match must_be_at_least {
                Some(x) => if kind_base(x) > kind_base(hand_rank(deck@)) {
                    None
                } else {
                    Some(hand_rank(deck@))
                },
                None => Some(hand_rank(deck@)),
            },
    {
        proof {
            if rank_defined(deck@, 0) {
                lemma_rank_at_least_by_kind(deck@, must_be_at_least);
            }
        }
        let rank_to_beat: u32 = match must_be_at_least {
            Some(x) => x.get_score(),
            None => 0,
        };
        let ghost d = deck@;
        let ghost t = rank_to_beat as int;
        if let Some(sf) = Self::get_best_straight_flush(deck) {
            return Some(StandardHandRanks::StraightFlush { sf });
        }
        if rank_to_beat >= STRAIGHT_FLUSH_BASE {
            return None;
        }
        let rank_count = deck.get_rank_count();
        proof {
            assert(rank_count.counts() =~= deck_counts(d));
        }
        if let Some(h) = Self::four_of_a_kind(&rank_count, Ghost(d)) {
            return Some(h);
        }
        if rank_to_beat >= FOUR_OF_KIND_BASE {
            return None;
        }
        let best_trips = Self::highest_any(&rank_count, 3, Ghost(d));
        if let Some(h) = Self::full_house(&rank_count, best_trips, Ghost(d)) {
            return Some(h);
        }
        if rank_to_beat >= FULL_HOUSE_BASE {
            return None;
        }
        if let Some(flush_ranks) = Self::get_flush(deck) {
            return Some(
                StandardHandRanks::Flush {
                    c1: flush_ranks[0],
                    c2: flush_ranks[1],
                    c3: flush_ranks[2],
                    c4: flush_ranks[3],
                    c5: flush_ranks[4],
                },
            );
        }
        if rank_to_beat >= FLUSH_BASE {
            return None;
        }
        if let Some(s) = Self::get_straight(deck) {
            return Some(StandardHandRanks::Straight { s });
        }
        if rank_to_beat >= STRAIGHT_BASE {
            return None;
        }
        if let Some(h) = Self::three_of_a_kind(&rank_count, best_trips, Ghost(d)) {
            return Some(h);
        }
        if rank_to_beat >= TRIP_BASE {
            return None;
        }
        if let Some(best_pair) = Self::highest_any(&rank_count, 2, Ghost(d)) {
            if let Some(h) = Self::two_pair(&rank_count, best_pair, Ghost(d)) {
                return Some(h);
            }
            if rank_to_beat >= TWO_PAIR_BASE {
                return None;
            }
            if let Some(h) = Self::one_pair(&rank_count, best_pair, Ghost(d)) {
                return Some(h);
            }
        }
        if rank_to_beat >= ONE_PAIR_BASE {
            return None;
        }
        let combined = deck.get_combined_ranks();
        proof {
            lemma_top_ranks(combined@);
        }
        if let Some(highest_cards) = combined.get_highest_five(&RankOrder::AceIsHigh) {
            return Some(
                StandardHandRanks::HighCard {
                    c1: highest_cards[0],
                    c2: highest_cards[1],
                    c3: highest_cards[2],
                    c4: highest_cards[3],
                    c5: highest_cards[4],
                },
            );
        }
        proof {
            assert(false);
        }
        None
    }

    /// The highest rank outside `excl` held at least `n` times.
    fn highest(rank_count: &RankCount, excl: &[Rank], n: u32, Ghost(d): Ghost<Set<(Rank, Suit)>>) -> (res: Option<Rank>)
        requires
            rank_count.counts() == deck_counts(d),
        ensures
            res == highest_with(d, excl@, n as nat),
    {
        let v = vstd::slice::slice_to_vec(excl);
        rank_count.find_highest_with_n(&v, n)
    }

    /// The highest rank held at least `n` times.
    fn highest_any(rank_count: &RankCount, n: u32, Ghost(d): Ghost<Set<(Rank, Suit)>>) -> (res: Option<Rank>)
        requires
            rank_count.counts() == deck_counts(d),
        ensures
            res == highest_with(d, seq![], n as nat),
    {
        let e: [Rank; 0] = [];
        proof {
            assert(e@ =~= Seq::<Rank>::empty());
        }
        Self::highest(rank_count, &e, n, Ghost(d))
    }

    /// The highest rank other than `a` held at least `n` times.
    fn highest_but_one(rank_count: &RankCount, a: Rank, n: u32, Ghost(d): Ghost<Set<(Rank, Suit)>>) -> (res: Option<Rank>)
        requires
            rank_count.counts() == deck_counts(d),
        ensures
            res == highest_with(d, seq![a], n as nat),
    {
        let e = [a];
        proof {
            assert(e@ =~= seq![a]);
        }
        Self::highest(rank_count, &e, n, Ghost(d))
    }

    /// The highest rank other than `a` and `b` held at least `n` times.
    fn highest_but_two(rank_count: &RankCount, a: Rank, b: Rank, n: u32, Ghost(d): Ghost<Set<(Rank, Suit)>>) -> (res: Option<Rank>)
        requires
            rank_count.counts() == deck_counts(d),
        ensures
            res == highest_with(d, seq![a, b], n as nat),
    {
        let e = [a, b];
        proof {
            assert(e@ =~= seq![a, b]);
        }
        Self::highest(rank_count, &e, n, Ghost(d))
    }

    /// The highest rank other than `a`, `b` and `c` held at least `n` times.
    fn highest_but_three(rank_count: &RankCount, a: Rank, b: Rank, c: Rank, n: u32, Ghost(d): Ghost<Set<(Rank, Suit)>>) -> (res: Option<Rank>)
        requires
            rank_count.counts() == deck_counts(d),
        ensures
            res == highest_with(d, seq![a, b, c], n as nat),
    {
        let e = [a, b, c];
        proof {
            assert(e@ =~= seq![a, b, c]);
        }
        Self::highest(rank_count, &e, n, Ghost(d))
    }

    fn four_of_a_kind(rank_count: &RankCount, Ghost(d): Ghost<Set<(Rank, Suit)>>) -> (res: Option<StandardHandRanks>)
        requires
            rank_count.counts() == deck_counts(d),
        ensures
            res == four_of_a_kind_hand(d),
    {
        if let Some(quad) = Self::highest_any(rank_count, 4, Ghost(d)) {
            if let Some(kicker) = Self::highest_but_one(rank_count, quad, 1, Ghost(d)) {
                return Some(StandardHandRanks::FourOfAKind { q: quad, c: kicker });
            }
        }
        None
    }

    fn full_house(rank_count: &RankCount, best_trips: Option<Rank>, Ghost(d): Ghost<Set<(Rank, Suit)>>) -> (res: Option<StandardHandRanks>)
        requires
            rank_count.counts() == deck_counts(d),
            best_trips == highest_with(d, seq![], 3),
        ensures
            res == full_house_hand(d),
    {
        if let Some(trip) = best_trips {
            if let Some(pair) = Self::highest_but_one(rank_count, trip, 2, Ghost(d)) {
                return Some(StandardHandRanks::FullHouse { t: trip, p: pair });
            }
        }
        None
    }

    fn three_of_a_kind(rank_count: &RankCount, best_trips: Option<Rank>, Ghost(d): Ghost<Set<(Rank, Suit)>>) -> (res: Option<StandardHandRanks>)
        requires
            rank_count.counts() == deck_counts(d),
            best_trips == highest_with(d, seq![], 3),
        ensures
            res == three_of_a_kind_hand(d),
    {
        if let Some(trip) = best_trips {
            if let Some(c1) = Self::highest_but_one(rank_count, trip, 1, Ghost(d)) {
                if let Some(c2) = Self::highest_but_two(rank_count, trip, c1, 1, Ghost(d)) {
                    return Some(StandardHandRanks::ThreeOfAKind { t: trip, c1, c2 });
                }
            }
        }
        None
    }

    fn two_pair(rank_count: &RankCount, best_pair: Rank, Ghost(d): Ghost<Set<(Rank, Suit)>>) -> (res: Option<StandardHandRanks>)
        requires
            rank_count.counts() == deck_counts(d),
            highest_with(d, seq![], 2) == Some(best_pair),
        ensures
            res == two_pair_hand(d),
    {
        if let Some(second_best_pair) = Self::highest_but_one(rank_count, best_pair, 2, Ghost(d)) {
            if let Some(c) = Self::highest_but_two(rank_count, best_pair, second_best_pair, 1, Ghost(d)) {
                return Some(StandardHandRanks::TwoPair { p1: best_pair, p2: second_best_pair, c1: c });
            }
        }
        None
    }

    fn one_pair(rank_count: &RankCount, best_pair: Rank, Ghost(d): Ghost<Set<(Rank, Suit)>>) -> (res: Option<StandardHandRanks>)
        requires
            rank_count.counts() == deck_counts(d),
            highest_with(d, seq![], 2) == Some(best_pair),
        ensures
            res == one_pair_hand(d),
    {
        if let Some(c1) = Self::highest_but_one(rank_count, best_pair, 1, Ghost(d)) {
            if let Some(c2) = Self::highest_but_two(rank_count, best_pair, c1, 1, Ghost(d)) {
                if let Some(c3) = Self::highest_but_three(rank_count, best_pair, c1, c2, 1, Ghost(d)) {
                    return Some(StandardHandRanks::OnePair { p: best_pair, c1, c2, c3 });
                }
            }
        }
        None
    }


    fn get_straight(deck: &Deck) -> (res: Option<Rank>)
        ensures
            res == best_straight(combined_ranks(deck@)),
    {
        let combined_ranks = deck.get_combined_ranks();
        Self::get_straight_from_rank_bitfield(&combined_ranks)
    }

    fn get_straight_from_rank_bitfield(rank_bitfield: &RankSet) -> (res: Option<Rank>)
        ensures
            res == best_straight(rank_bitfield@),
    {
        rank_bitfield.matches_pattern(0b11111, 5)
    }

    fn get_flush(deck: &Deck) -> (res: Option<[Rank; 5]>)
        ensures
            res is Some == first_flush(deck@) is Some,
            res matches Some(a) ==> a@ == first_flush(deck@).unwrap(),
    {
        let mut best: Option<[Rank; 5]> = None;
        let mut suits = deck.get_single_suit_ranks();
        let ghost d = deck@;
        let mut k: usize = 0;
        loop
            invariant
                k <= 4,
                suits.remaining() == suit_rank_sets(d, k as int),
                best is Some == flush_upto(d, k as int) is Some,
                best matches Some(a) ==> a@ == flush_upto(d, k as int).unwrap(),
                d == deck@,
            decreases 4 - k,
        {
            match suits.next() {
                Some((bits, _)) => {
                    proof {
                        assert(bits@ == suit_ranks(d, Suit::from_index(k as int)));
                        lemma_top_ranks(bits@);
                        assert(suit_rank_sets(d, k as int).drop_first() =~= suit_rank_sets(d, k + 1));
                    }
                    if bits.num_unique_ranks() >= 5 {
                        best = Self::keep_first_flush(best, bits.get_highest_five(&RankOrder::AceIsHigh));
                    }
                    k = k + 1;
                },
                None => {
                    proof {
                        assert(k == 4);
                    }
                    return best;
                },
            }
        }
    }


    fn keep_first_flush(best: Option<[Rank; 5]>, newest: Option<[Rank; 5]>) -> (res: Option<[Rank; 5]>)
        ensures
            res == match best {
                Some(b) => Some(b),
                None => newest,
            },
    {
        match (best, newest) {
            (Some(existing), Some(newest)) => {
                let mut best = best;
                let mut i: usize = 0;
                while i < 5
                    invariant
                        best == Some(existing),
                    decreases 5 - i,
                {
                    match RankOrder::AceIsHigh.cmp(newest[i], existing[i]) {
                        Ordering::Less => {
                            i = i + 1;
                            continue;
                        },
                        Ordering::Equal => {},
                        Ordering::Greater => best = Some(existing),
                    }
                    i = i + 1;
                }
                best
            },
            (None, Some(existing)) => Some(existing),
            (_, None) => best,
        }
    }

    fn keep_higher_straight(found: Option<Rank>, new: Option<Rank>) -> (res: Option<Rank>)
        ensures
            res == better_straight(found, new),
    {
        match (new, found) {
            (Some(straight), Some(found_val)) => {
                match RankOrder::AceIsHigh.cmp(straight, found_val) {
                    Ordering::Greater => Some(straight),
                    _ => found,
                }
            },
            (Some(straight), None) => Some(straight),
            (None, _) => found,
        }
    }

    fn get_best_straight_flush(deck: &Deck) -> (res: Option<Rank>)
        ensures
            res == best_straight_flush(deck@),
    {
        let mut found: Option<Rank> = None;
        let mut suits = deck.get_single_suit_ranks();
        let ghost d = deck@;
        let mut k: usize = 0;
        loop
            invariant
                k <= 4,
                suits.remaining() == suit_rank_sets(d, k as int),
                found == straight_flush_upto(d, k as int),
                d == deck@,
            decreases 4 - k,
        {
            match suits.next() {
                Some((single_suit_rank, _)) => {
                    proof {
                        assert(single_suit_rank@ == suit_ranks(d, Suit::from_index(k as int)));
                        assert(suit_rank_sets(d, k as int).drop_first() =~= suit_rank_sets(d, k + 1));
                    }
                    found = Self::keep_higher_straight(
                        found,
                        Self::get_straight_from_rank_bitfield(&single_suit_rank),
                    );
                    k = k + 1;
                },
                None => {
                    proof {
                        assert(k == 4);
                    }
                    return found;
                },
            }
        }
    }
}

} // verus!
