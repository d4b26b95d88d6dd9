use vstd::prelude::*;
use crate::deck::card::Card;
use crate::deck::rank::{lemma_rank_word, lemma_word_or, rank_word, rank_words, ranks_from_four, RankBitfield};
use crate::deck::{Rank, Suit};
use crate::deck::bits::{lemma_cards_finite, lemma_rank_from_index, lemma_rank_index, lemma_suit_from_index, lemma_suit_index, rank_bits};
use crate::deck::rank_bits::{
    best_straight, combined_ranks, lemma_rank_bits_or, lemma_top_ranks, rank_bits_wf, ranks_of_bits,
    suit_ranks, top_ranks,
};
use crate::deck::suit::suit_at;
use crate::ranking::hand_rank::{best_straight_flush, better_straight, straight_flush_upto};

verus! {

/// The score that orders flushes: the ranks read as digits in base 13, each rank by
/// its score from 1 (Two) to 13 (Ace).
pub open spec fn flush_score(rs: Seq<Rank>) -> int
    decreases rs.len(),
{
    if rs.len() == 0 {
        0
    } else {
        flush_score(rs.drop_last()) * 13 + rs.last().index() + 1
    }
}

/// The best flush among the first `k` suits (clubs, diamonds, hearts, spades), with its
/// score: each suit with five ranks gives its five highest, which replace the flush so
/// far when they score higher.
pub open spec fn best_flush_upto(d: Set<(Rank, Suit)>, k: int) -> (Option<Seq<Rank>>, int)
    decreases k,
{
    if k <= 0 {
        (None, 0)
    } else {
        let prev = best_flush_upto(d, k - 1);
        let rs = suit_ranks(d, Suit::from_index(k - 1));
        if rs.len() >= 5 && flush_score(top_ranks(rs).take(5)) > prev.1 {
            (Some(top_ranks(rs).take(5)), flush_score(top_ranks(rs).take(5)))
        } else {
            prev
        }
    }
}

/// Collects cards and tells the straights and flushes they make.
pub struct HandRanker {
    ranks: RankBitfield,
    suit_ranks: Vec<RankBitfield>,
    cards: Ghost<Set<(Rank, Suit)>>,
}

impl View for HandRanker {
    type V = Set<(Rank, Suit)>;

    closed spec fn view(&self) -> Set<(Rank, Suit)> {
        self.cards@
    }
}

impl HandRanker {
    /// The words record the ranks of the cards in all suits and in each suit.
    #[verifier::type_invariant]
    closed spec fn wf(self) -> bool {
        &&& self.suit_ranks.len() == 4
        &&& rank_bits_wf(self.ranks.ranks as u64)
        &&& self.ranks@ == combined_ranks(self.cards@)
        &&& forall|i: int|
            0 <= i < 4 ==> rank_bits_wf(#[trigger] self.suit_ranks@[i].ranks as u64)
                && self.suit_ranks@[i]@ == suit_ranks(self.cards@, Suit::from_index(i))
    }

    /// A ranker with no cards.
    pub fn new() -> (res: Self)
        ensures
            res@ == Set::<(Rank, Suit)>::empty(),
    {
        let mut words: Vec<RankBitfield> = Vec::new();
        let mut i: usize = 0;
        while i < 4
            invariant
                0 <= i <= 4,
                words.len() == i,
                forall|j: int| 0 <= j < i ==> (#[trigger] words@[j]).ranks == 0,
            decreases 4 - i,
        {
            words.push(RankBitfield::new());
            i = i + 1;
        }
        let ranks = RankBitfield::new();
        proof {
            crate::deck::bits::lemma_zero_words();
            assert forall|q: Rank| !ranks_of_bits(0u64).contains(q) by {
                crate::deck::bits::lemma_zero_bits(0u64, q.index() + 1);
            }
            assert(ranks_of_bits(0u64) =~= Set::<Rank>::empty());
            assert(combined_ranks(Set::<(Rank, Suit)>::empty()) =~= Set::<Rank>::empty());
            assert forall|i: int| 0 <= i < 4 implies suit_ranks(Set::<(Rank, Suit)>::empty(), Suit::from_index(i)) =~= Set::<Rank>::empty() by {
            }
        }
        Self { ranks, suit_ranks: words, cards: Ghost(Set::empty()) }
    }

    /// Adds a card.
    pub fn insert(&mut self, card: Card)
        ensures
            final(self)@ == old(self)@.insert(card@),
    {
        proof {
            use_type_invariant(&*self);
        }
        let rank = card.rank();
        let suit = card.suit();
        let ghost before = self.cards@;
        let one = [rank];
        proof {
            assert(one@ =~= seq![rank]);
            assert(seq![rank].drop_last() =~= Seq::<Rank>::empty());
            assert(rank_words(Seq::<Rank>::empty()) == 0);
            lemma_word_or(rank_word(rank), 0, 0);
            lemma_rank_word(rank);
        }
        let mut ranks = RankBitfield { ranks: self.ranks.ranks };
        ranks.add_ranks(&one);
        let index = suit_index(suit);
        let mut words: Vec<RankBitfield> = Vec::new();
        let mut k: usize = 0;
        while k < 4
            invariant
                0 <= k <= 4,
                index < 4,
                self.suit_ranks.len() == 4,
                words.len() == k,
                forall|j: int| 0 <= j < k && j != index ==> (#[trigger] words@[j]).ranks == self.suit_ranks@[j].ranks,
                k > index ==> words@[index as int].ranks == self.suit_ranks@[index as int].ranks | rank_word(rank),
                rank_bits_wf(self.suit_ranks@[index as int].ranks as u64),
                rank_words(one@) == rank_word(rank),
            decreases 4 - k,
        {
            let mut word = RankBitfield { ranks: self.suit_ranks[k].ranks };
            if k == index {
                word.add_ranks(&one);
            }
            words.push(word);
            k = k + 1;
        }
        let ghost after = before.insert(card@);
        proof {
            let w = rank_word(rank) as u64;
            lemma_word_or(self.ranks.ranks, rank_word(rank), 0);
            lemma_rank_bits_or(self.ranks.ranks as u64, w);
            assert(card@ == (rank, suit));
            assert forall|r: Rank| combined_ranks(after).contains(r) <==> combined_ranks(before).union(
                set![rank],
            ).contains(r) by {
                if r == rank {
                    assert(after.contains((rank, suit)));
                }
                if combined_ranks(before).contains(r) {
                    let su = choose|su: Suit| before.contains((r, su));
                    assert(after.contains((r, su)));
                }
                if combined_ranks(after).contains(r) && r != rank {
                    let su = choose|su: Suit| after.contains((r, su));
                    assert(before.contains((r, su)));
                }
            }
            assert(combined_ranks(after) =~= combined_ranks(before).union(set![rank]));
            assert forall|i: int| 0 <= i < 4 implies rank_bits_wf(#[trigger] words@[i].ranks as u64)
                && words@[i]@ == suit_ranks(after, Suit::from_index(i)) by {
                lemma_suit_from_index(i);
                if i == index {
                    lemma_word_or(self.suit_ranks@[i].ranks, rank_word(rank), 0);
                    lemma_rank_bits_or(self.suit_ranks@[i].ranks as u64, w);
                    assert(suit_ranks(after, Suit::from_index(i)) =~= suit_ranks(before, Suit::from_index(i)).union(set![rank]));
                } else {
                    assert(suit_ranks(after, Suit::from_index(i)) =~= suit_ranks(before, Suit::from_index(i)));
                }
            }
        }
        *self = Self { ranks, suit_ranks: words, cards: Ghost(after) };
    }

    /// The top card of the highest straight of the cards.
    pub fn get_straight(&self) -> (res: Option<Rank>)
        ensures
            res == best_straight(combined_ranks(self@)),
    {
        proof {
            use_type_invariant(self);
        }
        self.ranks.get_straight()
    }

    /// The top card of the highest straight flush of the cards.
    pub fn get_straight_flush(&self) -> (res: Option<Rank>)
        ensures
            res == best_straight_flush(self@),
    {
        proof {
            use_type_invariant(self);
        }
        let mut found: Option<Rank> = None;
        let mut k: usize = 0;
        while k < 4
            invariant
                0 <= k <= 4,
                self.wf(),
                found == straight_flush_upto(self@, k as int),
            decreases 4 - k,
        {
            let straight = self.suit_ranks[k].get_straight();
            proof {
                assert(rank_bits_wf(self.suit_ranks@[k as int].ranks as u64));
            }
            match (straight, found) {
                (Some(straight), Some(found_val)) => {
                    if straight.get_score() > found_val.get_score() {
                        found = Some(straight);
                    }
                },
                (Some(straight), None) => found = Some(straight),
                (None, _) => {},
            }
            proof {
                assert(found == better_straight(straight_flush_upto(self@, k as int), straight));
            }
            k = k + 1;
        }
        found
    }

    /// The five highest ranks of the best flush: of each suit with five ranks, its five
    /// highest, the highest-scoring kept (the first of equal ones). Every suit with five
    /// ranks must have five from Four up.
    pub fn get_flush_ranks(&self) -> (res: Option<[Rank; 5]>)
        requires
            forall|s: Suit|
                #[trigger] suit_ranks(self@, s).len() >= 5 ==> ranks_from_four(suit_ranks(self@, s)).len()
                    >= 5,
        ensures
            res is Some <==> best_flush_upto(self@, 4).0 is Some,
            res matches Some(a) ==> a@ == best_flush_upto(self@, 4).0.unwrap(),
    {
        proof {
            use_type_invariant(self);
        }
        let mut potential_ranks: Option<[Rank; 5]> = None;
        let mut rank_score: u32 = 0;
        let mut k: usize = 0;
        while k < 4
            invariant
                0 <= k <= 4,
                self.wf(),
                forall|s: Suit|
                    #[trigger] suit_ranks(self@, s).len() >= 5 ==> ranks_from_four(
                        suit_ranks(self@, s),
                    ).len() >= 5,
                potential_ranks is Some == best_flush_upto(self@, k as int).0 is Some,
                potential_ranks matches Some(a) ==> a@ == best_flush_upto(self@, k as int).0.unwrap(),
                rank_score == best_flush_upto(self@, k as int).1,
                rank_score <= 4826809,
            decreases 4 - k,
        {
            let bits = &self.suit_ranks[k];
            proof {
                assert(rank_bits_wf(bits.ranks as u64));
                let v: u32 = bits.ranks;
                assert(v & 0x4000 == 0) by (bit_vector)
                    requires
                        rank_bits_wf(v as u64),
                ;
                lemma_suit_from_index(k as int);
                assert(bits@ == suit_ranks(self@, Suit::from_index(k as int)));
            }
            if let Some(ranks) = bits.get_highest_five() {
                let mut score: u32 = 0;
                let mut j: usize = 0;
                proof {
                    assert(power13(0) == 1);
                    assert(power13(1) == 13);
                    assert(ranks@.take(0) =~= Seq::<Rank>::empty());
                }
                while j < 5
                    invariant
                        0 <= j <= 5,
                        score == flush_score(ranks@.take(j as int)),
                        score + 13 <= power13((j + 1) as nat),
                    decreases 5 - j,
                {
                    proof {
                        assert(ranks@.take(j + 1).drop_last() =~= ranks@.take(j as int));
                        lemma_rank_index(ranks@[j as int]);
                        let p = power13((j + 1) as nat);
                        assert(power13((j + 2) as nat) == 13 * p);
                        assert(score * 13 + ranks[j as int].index() + 1 + 13 <= 13 * p)
                            by (nonlinear_arith)
                            requires
                                score + 13 <= p,
                                0 <= ranks[j as int].index() <= 12,
                        ;
                        lemma_power13_bound(j as nat);
                    }
                    score = score * 13 + ranks[j].get_score();
                    j = j + 1;
                }
                proof {
                    assert(ranks@.take(5) =~= ranks@);
                    lemma_power13_bound(4);
                }
                if score > rank_score {
                    potential_ranks = Some(ranks);
                    rank_score = score;
                }
            }
            k = k + 1;
        }
        potential_ranks
    }
}

/// A flush score of one or more ranks is positive.
proof fn lemma_flush_score_pos(rs: Seq<Rank>)
    ensures
        flush_score(rs) >= 0,
        rs.len() > 0 ==> flush_score(rs) > 0,
    decreases rs.len(),
{
    if rs.len() > 0 {
        lemma_flush_score_pos(rs.drop_last());
        lemma_rank_index(rs.last());
    }
}

/// The best flush among the first `k` suits: one is found exactly when one of them
/// holds five cards; it is the five highest ranks of such a suit, and its score is at
/// least that of every such suit's five highest.
proof fn lemma_best_flush_upto(d: Set<(Rank, Suit)>, k: int)
    requires
        0 <= k <= 4,
    ensures
        best_flush_upto(d, k).0 is Some <==> exists|j: int|
            0 <= j < k && #[trigger] suit_ranks(d, Suit::from_index(j)).len() >= 5,
        best_flush_upto(d, k).0 is None ==> best_flush_upto(d, k).1 == 0,
        best_flush_upto(d, k).0 matches Some(f) ==> best_flush_upto(d, k).1 == flush_score(f)
            && exists|j: int|
            0 <= j < k && #[trigger] suit_ranks(d, Suit::from_index(j)).len() >= 5 && f == top_ranks(
                suit_ranks(d, Suit::from_index(j)),
            ).take(5),
        forall|j: int|
            0 <= j < k && #[trigger] suit_ranks(d, Suit::from_index(j)).len() >= 5 ==> flush_score(
                top_ranks(suit_ranks(d, Suit::from_index(j))).take(5),
            ) <= best_flush_upto(d, k).1,
    decreases k,
{
    if k > 0 {
        lemma_best_flush_upto(d, k - 1);
        let rs = suit_ranks(d, Suit::from_index(k - 1));
        lemma_top_ranks(rs);
        lemma_flush_score_pos(top_ranks(rs).take(5));
        lemma_flush_score_pos(top_ranks(rs));
    }
}

/// Five cards of one suit, whichever suit, are always found as a flush: the flush kept is
/// the five highest ranks of a suit that holds five cards, and it scores at least as
/// high as the five highest ranks of every such suit.
pub proof fn lemma_best_flush(d: Set<(Rank, Suit)>, s: Suit)
    requires
        suit_ranks(d, s).len() >= 5,
    ensures
        best_flush_upto(d, 4).0 is Some,
        exists|t: Suit|
            #[trigger] suit_ranks(d, t).len() >= 5 && best_flush_upto(d, 4).0.unwrap() == top_ranks(
                suit_ranks(d, t),
            ).take(5),
        forall|t: Suit|
            #[trigger] suit_ranks(d, t).len() >= 5 ==> flush_score(top_ranks(suit_ranks(d, t)).take(5))
                <= flush_score(best_flush_upto(d, 4).0.unwrap()),
{
    lemma_suit_index(s);
    assert(suit_ranks(d, Suit::from_index(s.index())).len() >= 5);
    lemma_best_flush_upto(d, 4);
    let j = choose|j: int|
        0 <= j < 4 && #[trigger] suit_ranks(d, Suit::from_index(j)).len() >= 5
            && best_flush_upto(d, 4).0.unwrap() == top_ranks(suit_ranks(d, Suit::from_index(j))).take(5);
    assert(suit_ranks(d, Suit::from_index(j)).len() >= 5);
    assert forall|t: Suit| #[trigger] suit_ranks(d, t).len() >= 5 implies flush_score(
        top_ranks(suit_ranks(d, t)).take(5),
    ) <= flush_score(best_flush_upto(d, 4).0.unwrap()) by {
        lemma_suit_index(t);
        assert(suit_ranks(d, Suit::from_index(t.index())).len() >= 5);
    }
}

/// 13 to the power `n`.
pub open spec fn power13(n: nat) -> nat
    decreases n,
{
    if n == 0 {
        1
    } else {
        13 * power13((n - 1) as nat)
    }
}

proof fn lemma_power13_bound(n: nat)
    requires
        n <= 4,
    ensures
        13 * power13(n + 1) <= 4826809,
        power13(6) == 4826809,
{
    assert(power13(0) == 1);
    assert(power13(1) == 13);
    assert(power13(2) == 169);
    assert(power13(3) == 2197);
    assert(power13(4) == 28561);
    assert(power13(5) == 371293);
    assert(power13(6) == 4826809);
}

/// The position of a suit: clubs 0, diamonds 1, hearts 2, spades 3.
fn suit_index(suit: Suit) -> (i: usize)
    ensures
        i == suit.index(),
        i < 4,
{
    match suit {
        Suit::Clubs => 0,
        Suit::Diamonds => 1,
        Suit::Hearts => 2,
        Suit::Spades => 3,
    }
}

} // verus!
