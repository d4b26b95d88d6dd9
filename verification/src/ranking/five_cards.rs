use vstd::prelude::*;
use vstd::relations::injective_on;
use vstd::set_lib::{lemma_len_subset, lemma_len_union, lemma_map_size};
use crate::deck::{Rank, Suit};
use crate::deck::bits::{lemma_rank_from_index, lemma_rank_index, lemma_suit_index};
use crate::deck::rank_bits::{
    best_straight, combined_ranks, has_rank_or_low_ace, highest_with_count_from, straight_ending_at,
    straight_from, lemma_top_ranks, of_rank, rank_count, suit_ranks,
    top_ranks,
};
use crate::ranking::hand_rank::{
    deck_counts, first_flush, flush_upto, four_of_a_kind_hand, full_house_hand, hand_rank,
    hand_ranks, hand_score, high_card_hand, highest_with, kind_index, lemma_hand_score_band,
    one_pair_hand, rank_cascade, rank_defined, three_of_a_kind_hand, two_pair_hand,
    FLUSH_BASE, STRAIGHT_BASE, straight_hand, flush_hand, best_straight_flush, straight_flush_upto,
};

verus! {

broadcast use vstd::set::group_set_axioms, vstd::set_lib::group_set_lib_default;

proof fn lemma_highest_from(d: Set<(Rank, Suit)>, excl: Seq<Rank>, n: nat, i: int)
    requires
        0 <= i <= 13,
    ensures
        highest_with_count_from(deck_counts(d), excl, n, i) matches Some(r) ==> !excl.contains(r)
            && rank_count(d, r) >= n,
        highest_with_count_from(deck_counts(d), excl, n, i) is None ==> forall|r: Rank|
            #[trigger] r.index() <= 12 - i && !excl.contains(r) ==> rank_count(d, r) < n,
    decreases 13 - i,
{
    if i < 13 {
        lemma_highest_from(d, excl, n, i + 1);
        lemma_rank_from_index(12 - i);
        if highest_with_count_from(deck_counts(d), excl, n, i) is None {
            assert forall|r: Rank| #[trigger]
                r.index() <= 12 - i && !excl.contains(r) implies rank_count(d, r) < n by {
                lemma_rank_index(r);
                if r.index() == 12 - i {
                    assert(Rank::from_index(12 - i) == r);
                }
            }
        }
    } else {
        assert forall|r: Rank| #[trigger]
            r.index() <= 12 - i && !excl.contains(r) implies rank_count(d, r) < n by {
            lemma_rank_index(r);
        }
    }
}

/// The highest rank outside `excl` held at least `n` times is outside `excl` and held
/// that often; when there is none, every rank outside `excl` is held fewer times.
pub proof fn lemma_highest_with(d: Set<(Rank, Suit)>, excl: Seq<Rank>, n: nat)
    ensures
        highest_with(d, excl, n) matches Some(r) ==> !excl.contains(r) && rank_count(d, r) >= n,
        highest_with(d, excl, n) is None ==> forall|r: Rank|
            !excl.contains(r) ==> #[trigger] rank_count(d, r) < n,
{
    lemma_highest_from(d, excl, n, 0);
    if highest_with(d, excl, n) is None {
        assert forall|r: Rank| !excl.contains(r) implies #[trigger] rank_count(d, r) < n by {
            lemma_rank_index(r);
        }
    }
}

/// No set of cards holds more than four cards of one rank.
pub proof fn lemma_rank_count_at_most_four(d: Set<(Rank, Suit)>, r: Rank)
    ensures
        rank_count(d, r) <= 4,
        d.filter(of_rank(r)).finite(),
{
    let four = set![(r, Suit::Clubs), (r, Suit::Diamonds), (r, Suit::Hearts), (r, Suit::Spades)];
    assert forall|c: (Rank, Suit)| d.filter(of_rank(r)).contains(c) implies four.contains(c) by {
        match c.1 {
            Suit::Clubs => {},
            Suit::Diamonds => {},
            Suit::Hearts => {},
            Suit::Spades => {},
        }
    }
    lemma_len_subset(d.filter(of_rank(r)), four);
}

/// A card of a set counts towards the number of cards of its rank.
proof fn lemma_card_counted(d: Set<(Rank, Suit)>, c: (Rank, Suit))
    requires
        d.contains(c),
    ensures
        rank_count(d, c.0) >= 1,
{
    lemma_rank_count_at_most_four(d, c.0);
    assert(d.filter(of_rank(c.0)).contains(c));
}

/// Cards of at most three ranks are at most as many as the cards of those ranks.
proof fn lemma_len_by_ranks(d: Set<(Rank, Suit)>, a: Rank, b: Rank, c: Rank)
    requires
        d.finite(),
        forall|x: Rank| x != a && x != b && x != c ==> #[trigger] rank_count(d, x) == 0,
    ensures
        d.len() <= rank_count(d, a) + (if b != a { rank_count(d, b) } else { 0 }) + (if c != a && c
            != b {
            rank_count(d, c)
        } else {
            0
        }),
{
    lemma_rank_count_at_most_four(d, a);
    lemma_rank_count_at_most_four(d, b);
    lemma_rank_count_at_most_four(d, c);
    let da = d.filter(of_rank(a));
    let db = d.filter(of_rank(b));
    let dc = d.filter(of_rank(c));
    assert forall|x: (Rank, Suit)| d.contains(x) implies x.0 == a || x.0 == b || x.0 == c by {
        lemma_card_counted(d, x);
    }
    assert(d =~= da.union(db).union(dc));
    lemma_len_union(da, db);
    lemma_len_union(da.union(db), dc);
    if b == a {
        assert(da.union(db) =~= da);
    }
    if c == a {
        assert(da.union(db).union(dc) =~= da.union(db));
    } else if c == b {
        assert(da.union(db).union(dc) =~= da.union(db));
    }
}

/// The rank of a card.
spec fn card_rank(c: (Rank, Suit)) -> Rank {
    c.0
}

/// Cards of which no two share a rank are no more than the ranks they hold.
proof fn lemma_len_without_pairs(d: Set<(Rank, Suit)>)
    requires
        d.finite(),
        forall|x: Rank| #[trigger] rank_count(d, x) <= 1,
    ensures
        d.len() <= combined_ranks(d).len(),
{
    let f = |c: (Rank, Suit)| card_rank(c);
    assert(d.map(f) =~= combined_ranks(d)) by {
        assert forall|r: Rank| combined_ranks(d).contains(r) implies d.map(f).contains(r) by {
            let s = choose|s: Suit| d.contains((r, s));
            assert(f((r, s)) == r);
        }
        assert forall|r: Rank| d.map(f).contains(r) implies combined_ranks(d).contains(r) by {
            let c = choose|c: (Rank, Suit)| d.contains(c) && f(c) == r;
            assert(c == (c.0, c.1));
            assert(d.contains((r, c.1)));
        }
    }
    assert(injective_on(f, d)) by {
        assert forall|x: (Rank, Suit), y: (Rank, Suit)|
            d.contains(x) && d.contains(y) && #[trigger] f(x) == #[trigger] f(y) implies x == y by {
            assert(card_rank(x) == card_rank(y));
            if x != y {
                let two = set![x, y];
                assert(two.subset_of(d.filter(of_rank(x.0))));
                lemma_rank_count_at_most_four(d, x.0);
                lemma_len_subset(two, d.filter(of_rank(x.0)));
                assert(rank_count(d, x.0) <= 1);
            }
        }
    }
    lemma_map_size(d, combined_ranks(d), f);
}

/// Any five or more cards make a hand: ranking them against no score always comes to a
/// result.
pub proof fn lemma_five_cards_make_a_hand(d: Set<(Rank, Suit)>)
    requires
        d.finite(),
        d.len() >= 5,
    ensures
        rank_defined(d, 0),
{
    if !rank_defined(d, 0) {
        assert(rank_cascade(d, 0) is None);
        assert(high_card_hand(d) is None);
        assert(combined_ranks(d).len() < 5);
        lemma_highest_with(d, seq![], 4);
        lemma_highest_with(d, seq![], 3);
        lemma_highest_with(d, seq![], 2);
        if let Some(q) = highest_with(d, seq![], 4) {
            assert(four_of_a_kind_hand(d) is None);
            lemma_highest_with(d, seq![q], 1);
            assert forall|x: Rank| x != q && x != q && x != q implies #[trigger] rank_count(d, x) == 0 by {
                assert(!seq![q].contains(x)) by {
                    assert(seq![q][0] == q);
                }
            }
            lemma_len_by_ranks(d, q, q, q);
            lemma_rank_count_at_most_four(d, q);
        } else if let Some(t) = highest_with(d, seq![], 3) {
            assert(full_house_hand(d) is None);
            assert(three_of_a_kind_hand(d) is None);
            lemma_highest_with(d, seq![t], 2);
            lemma_highest_with(d, seq![t], 1);
            assert(rank_count(d, t) <= 3) by {
                assert(!Seq::<Rank>::empty().contains(t));
            }
            if let Some(c1) = highest_with(d, seq![t], 1) {
                lemma_highest_with(d, seq![t, c1], 1);
                assert(seq![t][0] == t);
                assert(c1 != t);
                assert(!seq![t].contains(c1) && rank_count(d, c1) < 2);
                assert forall|x: Rank| x != t && x != c1 && x != c1 implies #[trigger] rank_count(
                    d,
                    x,
                ) == 0 by {
                    assert(seq![t, c1][0] == t && seq![t, c1][1] == c1);
                    assert(!seq![t, c1].contains(x));
                }
                lemma_len_by_ranks(d, t, c1, c1);
            } else {
                assert forall|x: Rank| x != t && x != t && x != t implies #[trigger] rank_count(
                    d,
                    x,
                ) == 0 by {
                    assert(seq![t][0] == t);
                    assert(!seq![t].contains(x));
                }
                lemma_len_by_ranks(d, t, t, t);
            }
        } else if let Some(p1) = highest_with(d, seq![], 2) {
            assert(two_pair_hand(d) is None);
            assert(one_pair_hand(d) is None);
            assert(seq![p1][0] == p1);
            assert forall|x: Rank| #[trigger] rank_count(d, x) <= 2 by {
                assert(!Seq::<Rank>::empty().contains(x));
            }
            lemma_highest_with(d, seq![p1], 2);
            lemma_highest_with(d, seq![p1], 1);
            if let Some(p2) = highest_with(d, seq![p1], 2) {
                lemma_highest_with(d, seq![p1, p2], 1);
                assert(seq![p1, p2][0] == p1 && seq![p1, p2][1] == p2);
                assert forall|x: Rank| x != p1 && x != p2 && x != p2 implies #[trigger] rank_count(
                    d,
                    x,
                ) == 0 by {
                    assert(!seq![p1, p2].contains(x));
                }
                lemma_len_by_ranks(d, p1, p2, p2);
            } else if let Some(c1) = highest_with(d, seq![p1], 1) {
                lemma_highest_with(d, seq![p1, c1], 1);
                assert(seq![p1, c1][0] == p1 && seq![p1, c1][1] == c1);
                assert(rank_count(d, c1) <= 1) by {
                    assert(!seq![p1].contains(c1));
                }
                if let Some(c2) = highest_with(d, seq![p1, c1], 1) {
                    lemma_highest_with(d, seq![p1, c1, c2], 1);
                    assert(seq![p1, c1, c2][0] == p1 && seq![p1, c1, c2][1] == c1 && seq![
                        p1,
                        c1,
                        c2,
                    ][2] == c2);
                    assert(rank_count(d, c2) <= 1) by {
                        assert(!seq![p1].contains(c2));
                    }
                    assert(highest_with(d, seq![p1, c1, c2], 1) is None);
                    assert forall|x: Rank| x != p1 && x != c1 && x != c2 implies #[trigger] rank_count(
                        d,
                        x,
                    ) == 0 by {
                        assert(!seq![p1, c1, c2].contains(x));
                    }
                    lemma_len_by_ranks(d, p1, c1, c2);
                } else {
                    assert forall|x: Rank| x != p1 && x != c1 && x != c1 implies #[trigger] rank_count(
                        d,
                        x,
                    ) == 0 by {
                        assert(!seq![p1, c1].contains(x));
                    }
                    lemma_len_by_ranks(d, p1, c1, c1);
                }
            } else {
                assert forall|x: Rank| x != p1 && x != p1 && x != p1 implies #[trigger] rank_count(
                    d,
                    x,
                ) == 0 by {
                    assert(!seq![p1].contains(x));
                }
                lemma_len_by_ranks(d, p1, p1, p1);
            }
        } else {
            assert forall|x: Rank| #[trigger] rank_count(d, x) <= 1 by {
                assert(!Seq::<Rank>::empty().contains(x));
            }
            lemma_len_without_pairs(d);
        }
    }
}

/// The flush search over the first `k` suits finds one exactly when one of them holds
/// five cards, and what it finds is the five highest ranks of such a suit.
proof fn lemma_flush_upto_found(d: Set<(Rank, Suit)>, k: int)
    requires
        0 <= k <= 4,
    ensures
        flush_upto(d, k) is Some <==> exists|j: int|
            0 <= j < k && #[trigger] suit_ranks(d, Suit::from_index(j)).len() >= 5,
        flush_upto(d, k) matches Some(f) ==> exists|j: int|
            0 <= j < k && #[trigger] suit_ranks(d, Suit::from_index(j)).len() >= 5 && f == top_ranks(
                suit_ranks(d, Suit::from_index(j)),
            ).take(5),
    decreases k,
{
    if k > 0 {
        lemma_flush_upto_found(d, k - 1);
        if flush_upto(d, k - 1) is None && suit_ranks(d, Suit::from_index(k - 1)).len() >= 5 {
            assert(flush_upto(d, k) == Some(
                top_ranks(suit_ranks(d, Suit::from_index(k - 1))).take(5),
            ));
        }
    }
}

/// Five cards of one suit, whichever suit, are always found as a flush: the flush found
/// is the five highest ranks of a suit that holds five cards.
pub proof fn lemma_flush_found(d: Set<(Rank, Suit)>, s: Suit)
    requires
        suit_ranks(d, s).len() >= 5,
    ensures
        first_flush(d) is Some,
        exists|t: Suit|
            #[trigger] suit_ranks(d, t).len() >= 5 && first_flush(d).unwrap() == top_ranks(
                suit_ranks(d, t),
            ).take(5),
{
    lemma_suit_index(s);
    assert(suit_ranks(d, Suit::from_index(s.index())).len() >= 5);
    lemma_flush_upto_found(d, 4);
    let j = choose|j: int|
        0 <= j < 4 && #[trigger] suit_ranks(d, Suit::from_index(j)).len() >= 5 && first_flush(
            d,
        ).unwrap() == top_ranks(suit_ranks(d, Suit::from_index(j))).take(5);
    assert(suit_ranks(d, Suit::from_index(j)).len() >= 5);
}

/// There are at least as many cards as ranks held in one suit.
proof fn lemma_suit_ranks_len(d: Set<(Rank, Suit)>, s: Suit)
    requires
        d.finite(),
    ensures
        suit_ranks(d, s).len() <= d.len(),
{
    let sr = suit_ranks(d, s);
    lemma_top_ranks(sr);
    let f = |r: Rank| (r, s);
    let m = sr.map(f);
    assert(injective_on(f, sr));
    lemma_map_size(sr, m, f);
    assert(m.subset_of(d));
    lemma_len_subset(m, d);
}

/// Cards that hold five of one suit rank at least as a flush: their hand is a straight
/// flush, four of a kind, a full house, or a flush of the five highest ranks of a suit
/// that holds five cards.
pub proof fn lemma_five_suited_rank_at_least_flush(d: Set<(Rank, Suit)>, s: Suit)
    requires
        d.finite(),
        suit_ranks(d, s).len() >= 5,
    ensures
        rank_defined(d, 0),
        hand_score(hand_rank(d)) >= FLUSH_BASE,
        kind_index(hand_rank(d)) == 5 ==> exists|t: Suit|
            #[trigger] suit_ranks(d, t).len() >= 5 && hand_ranks(hand_rank(d)) == top_ranks(
                suit_ranks(d, t),
            ).take(5),
{
    lemma_suit_ranks_len(d, s);
    lemma_five_cards_make_a_hand(d);
    lemma_flush_found(d, s);
    lemma_hand_score_band(hand_rank(d));
    let f = first_flush(d).unwrap();
    let t = choose|t: Suit|
        #[trigger] suit_ranks(d, t).len() >= 5 && first_flush(d).unwrap() == top_ranks(
            suit_ranks(d, t),
        ).take(5);
    lemma_top_ranks(suit_ranks(d, t));
    assert(f.len() == 5);
    if kind_index(hand_rank(d)) == 5 {
        assert(hand_ranks(hand_rank(d)) =~= f);
    }
}

/// Cards that hold a straight, and can be ranked, rank at least as a straight.
pub proof fn lemma_straight_rank_at_least_straight(d: Set<(Rank, Suit)>)
    requires
        best_straight(combined_ranks(d)) is Some,
        rank_defined(d, 0),
    ensures
        hand_score(hand_rank(d)) >= STRAIGHT_BASE,
{
    lemma_hand_score_band(hand_rank(d));
}

/// A rank held at least once is among the ranks held.
proof fn lemma_counted_in_combined(d: Set<(Rank, Suit)>, r: Rank)
    requires
        d.finite(),
        rank_count(d, r) >= 1,
    ensures
        combined_ranks(d).contains(r),
{
    let f = d.filter(of_rank(r));
    vstd::set::axiom_set_choose_len(f);
    let c = f.choose();
    assert(d.contains((r, c.1)));
}

/// When no rank outside `excl` is held, the ranks held are among `excl`.
proof fn lemma_ranks_within(d: Set<(Rank, Suit)>, excl: Seq<Rank>)
    requires
        d.finite(),
        highest_with(d, excl, 1) is None,
    ensures
        combined_ranks(d).len() <= excl.len(),
{
    lemma_highest_with(d, excl, 1);
    lemma_top_ranks(combined_ranks(d));
    assert forall|r: Rank| combined_ranks(d).contains(r) implies excl.to_set().contains(r) by {
        let s = choose|s: Suit| d.contains((r, s));
        lemma_card_counted(d, (r, s));
    }
    lemma_len_subset(combined_ranks(d), excl.to_set());
    excl.lemma_cardinality_of_set();
}

/// Distinct ranks that are all held make that many ranks held.
proof fn lemma_distinct_held(d: Set<(Rank, Suit)>, xs: Seq<Rank>)
    requires
        d.finite(),
        xs.no_duplicates(),
        forall|i: int| 0 <= i < xs.len() ==> rank_count(d, #[trigger] xs[i]) >= 1,
    ensures
        combined_ranks(d).len() >= xs.len(),
{
    lemma_top_ranks(combined_ranks(d));
    assert forall|r: Rank| xs.to_set().contains(r) implies combined_ranks(d).contains(r) by {
        let i = choose|i: int| 0 <= i < xs.len() && xs[i] == r;
        lemma_counted_in_combined(d, xs[i]);
    }
    xs.unique_seq_to_set();
    lemma_len_subset(xs.to_set(), combined_ranks(d));
}

/// A straight holds at least two different ranks.
proof fn lemma_straight_two_ranks(rs: Set<Rank>, top: int)
    requires
        top <= 12,
        straight_from(rs, top) is Some,
    ensures
        exists|a: Rank, b: Rank| a != b && rs.contains(a) && rs.contains(b),
    decreases top,
{
    if top >= 3 {
        if straight_ending_at(rs, top) {
            let a = Rank::from_index(top);
            let b = Rank::from_index(top - 1);
            lemma_rank_from_index(top);
            lemma_rank_from_index(top - 1);
            assert(rs.contains(a) && rs.contains(b) && a != b);
        } else {
            lemma_straight_two_ranks(rs, top - 1);
        }
    }
}

/// Every hand below four of a kind uses at least two different ranks of the cards.
proof fn lemma_lower_hand_two_ranks(d: Set<(Rank, Suit)>)
    requires
        d.finite(),
        rank_defined(d, 0),
        kind_index(hand_rank(d)) < 7,
    ensures
        combined_ranks(d).len() >= 2,
{
    let h = hand_rank(d);
    lemma_top_ranks(combined_ranks(d));
    if kind_index(h) == 6 {
        let t = highest_with(d, seq![], 3).unwrap();
        let p = highest_with(d, seq![t], 2).unwrap();
        lemma_highest_with(d, seq![], 3);
        lemma_highest_with(d, seq![t], 2);
        assert(seq![t][0] == t);
        lemma_distinct_held(d, seq![t, p]);
    } else if kind_index(h) == 5 {
        let f = first_flush(d).unwrap();
        lemma_flush_upto_found(d, 4);
        let j = choose|j: int|
            0 <= j < 4 && #[trigger] suit_ranks(d, Suit::from_index(j)).len() >= 5 && f == top_ranks(
                suit_ranks(d, Suit::from_index(j)),
            ).take(5);
        let sr = suit_ranks(d, Suit::from_index(j));
        lemma_top_ranks(sr);
        assert(sr.subset_of(combined_ranks(d)));
        lemma_len_subset(sr, combined_ranks(d));
    } else if kind_index(h) == 4 {
        lemma_straight_two_ranks(combined_ranks(d), 12);
        let (a, b) = choose|a: Rank, b: Rank| a != b && combined_ranks(d).contains(a) && combined_ranks(
            d,
        ).contains(b);
        assert(set![a, b].subset_of(combined_ranks(d)));
        lemma_len_subset(set![a, b], combined_ranks(d));
    } else if kind_index(h) == 3 {
        let t = highest_with(d, seq![], 3).unwrap();
        lemma_highest_with(d, seq![], 3);
        let c1 = highest_with(d, seq![t], 1).unwrap();
        lemma_highest_with(d, seq![t], 1);
        assert(seq![t][0] == t);
        lemma_distinct_held(d, seq![t, c1]);
    } else if kind_index(h) == 2 {
        let p1 = highest_with(d, seq![], 2).unwrap();
        lemma_highest_with(d, seq![], 2);
        let p2 = highest_with(d, seq![p1], 2).unwrap();
        lemma_highest_with(d, seq![p1], 2);
        assert(seq![p1][0] == p1);
        lemma_distinct_held(d, seq![p1, p2]);
    } else if kind_index(h) == 1 {
        let p = highest_with(d, seq![], 2).unwrap();
        lemma_highest_with(d, seq![], 2);
        let c1 = highest_with(d, seq![p], 1).unwrap();
        lemma_highest_with(d, seq![p], 1);
        assert(seq![p][0] == p);
        lemma_distinct_held(d, seq![p, c1]);
    } else {
        assert(combined_ranks(d).len() >= 5);
    }
}

/// The hands below three of a kind use at least three different ranks, one pair four,
/// and high card five.
proof fn lemma_low_hand_ranks(d: Set<(Rank, Suit)>)
    requires
        d.finite(),
        rank_defined(d, 0),
    ensures
        kind_index(hand_rank(d)) <= 2 ==> combined_ranks(d).len() >= 3,
        kind_index(hand_rank(d)) <= 1 ==> combined_ranks(d).len() >= 4,
        kind_index(hand_rank(d)) == 0 ==> combined_ranks(d).len() >= 5,
{
    let h = hand_rank(d);
    if kind_index(h) == 2 {
        let p1 = highest_with(d, seq![], 2).unwrap();
        lemma_highest_with(d, seq![], 2);
        let p2 = highest_with(d, seq![p1], 2).unwrap();
        lemma_highest_with(d, seq![p1], 2);
        let c1 = highest_with(d, seq![p1, p2], 1).unwrap();
        lemma_highest_with(d, seq![p1, p2], 1);
        assert(seq![p1][0] == p1);
        assert(seq![p1, p2][0] == p1 && seq![p1, p2][1] == p2);
        lemma_distinct_held(d, seq![p1, p2, c1]);
    } else if kind_index(h) == 1 {
        let p = highest_with(d, seq![], 2).unwrap();
        lemma_highest_with(d, seq![], 2);
        let c1 = highest_with(d, seq![p], 1).unwrap();
        lemma_highest_with(d, seq![p], 1);
        let c2 = highest_with(d, seq![p, c1], 1).unwrap();
        lemma_highest_with(d, seq![p, c1], 1);
        let c3 = highest_with(d, seq![p, c1, c2], 1).unwrap();
        lemma_highest_with(d, seq![p, c1, c2], 1);
        assert(seq![p][0] == p);
        assert(seq![p, c1][0] == p && seq![p, c1][1] == c1);
        assert(seq![p, c1, c2][0] == p && seq![p, c1, c2][1] == c1 && seq![p, c1, c2][2] == c2);
        lemma_distinct_held(d, seq![p, c1, c2, c3]);
    }
}

/// Cards that hold four of one rank, and can be ranked, rank as four of a kind or a
/// straight flush.
pub proof fn lemma_quads_rank_at_least_quads(d: Set<(Rank, Suit)>, r: Rank)
    requires
        d.finite(),
        rank_defined(d, 0),
        rank_count(d, r) >= 4,
    ensures
        kind_index(hand_rank(d)) >= 7,
{
    if kind_index(hand_rank(d)) < 7 {
        lemma_lower_hand_two_ranks(d);
        lemma_highest_with(d, seq![], 4);
        let q = highest_with(d, seq![], 4).unwrap();
        lemma_ranks_within(d, seq![q]);
    }
}

/// Cards that hold three of one rank and two of another, and can be ranked, rank at
/// least as a full house.
pub proof fn lemma_full_house_rank_at_least_full_house(d: Set<(Rank, Suit)>, r1: Rank, r2: Rank)
    requires
        d.finite(),
        rank_defined(d, 0),
        r1 != r2,
        rank_count(d, r1) >= 3,
        rank_count(d, r2) >= 2,
    ensures
        kind_index(hand_rank(d)) >= 6,
{
    if kind_index(hand_rank(d)) < 6 {
        lemma_highest_with(d, seq![], 3);
        let t = highest_with(d, seq![], 3).unwrap();
        lemma_highest_with(d, seq![t], 2);
        if t == r1 {
            assert(!seq![t].contains(r2)) by {
                assert(seq![t][0] == t);
            }
        } else {
            assert(!seq![t].contains(r1)) by {
                assert(seq![t][0] == t);
            }
        }
    }
}

/// Cards that hold three of one rank, and can be ranked, rank at least as three of a
/// kind.
pub proof fn lemma_trips_rank_at_least_trips(d: Set<(Rank, Suit)>, r: Rank)
    requires
        d.finite(),
        rank_defined(d, 0),
        rank_count(d, r) >= 3,
    ensures
        kind_index(hand_rank(d)) >= 3,
{
    if kind_index(hand_rank(d)) < 3 {
        lemma_low_hand_ranks(d);
        lemma_highest_with(d, seq![], 3);
        let t = highest_with(d, seq![], 3).unwrap();
        if let Some(c1) = highest_with(d, seq![t], 1) {
            lemma_ranks_within(d, seq![t, c1]);
        } else {
            lemma_ranks_within(d, seq![t]);
        }
    }
}

/// Cards that hold two each of two ranks, and can be ranked, rank at least as two pair.
pub proof fn lemma_two_pairs_rank_at_least_two_pair(d: Set<(Rank, Suit)>, r1: Rank, r2: Rank)
    requires
        d.finite(),
        rank_defined(d, 0),
        r1 != r2,
        rank_count(d, r1) >= 2,
        rank_count(d, r2) >= 2,
    ensures
        kind_index(hand_rank(d)) >= 2,
{
    if kind_index(hand_rank(d)) < 2 {
        lemma_low_hand_ranks(d);
        lemma_highest_with(d, seq![], 2);
        let p1 = highest_with(d, seq![], 2).unwrap();
        lemma_highest_with(d, seq![p1], 2);
        if p1 == r1 {
            assert(!seq![p1].contains(r2)) by {
                assert(seq![p1][0] == p1);
            }
        } else {
            assert(!seq![p1].contains(r1)) by {
                assert(seq![p1][0] == p1);
            }
        }
        let p2 = highest_with(d, seq![p1], 2).unwrap();
        lemma_ranks_within(d, seq![p1, p2]);
    }
}

/// Cards that hold two of one rank, and can be ranked, rank at least as one pair.
pub proof fn lemma_pair_rank_at_least_pair(d: Set<(Rank, Suit)>, r: Rank)
    requires
        d.finite(),
        rank_defined(d, 0),
        rank_count(d, r) >= 2,
    ensures
        kind_index(hand_rank(d)) >= 1,
{
    if kind_index(hand_rank(d)) < 1 {
        lemma_low_hand_ranks(d);
        lemma_highest_with(d, seq![], 2);
        let p = highest_with(d, seq![], 2).unwrap();
        if let Some(c1) = highest_with(d, seq![p], 1) {
            if let Some(c2) = highest_with(d, seq![p, c1], 1) {
                lemma_ranks_within(d, seq![p, c1, c2]);
            } else {
                lemma_ranks_within(d, seq![p, c1]);
            }
        } else {
            lemma_ranks_within(d, seq![p]);
        }
    }
}

/// Cards with a second pair but no kicker for two pair, and nothing higher, make no hand
/// in either ranking: not one pair, and not high card.
pub proof fn lemma_two_pairs_without_kicker(d: Set<(Rank, Suit)>)
    requires
        d.finite(),
        highest_with(d, seq![], 2) is Some,
        highest_with(d, seq![highest_with(d, seq![], 2).unwrap()], 2) is Some,
        two_pair_hand(d) is None,
    ensures
        one_pair_hand(d) is None,
        high_card_hand(d) is None,
{
    let p1 = highest_with(d, seq![], 2).unwrap();
    let p2 = highest_with(d, seq![p1], 2).unwrap();
    lemma_highest_with(d, seq![], 2);
    lemma_highest_with(d, seq![p1], 2);
    lemma_highest_with(d, seq![p1, p2], 1);
    assert(seq![p1][0] == p1);
    lemma_ranks_within(d, seq![p1, p2]);
    if let Some(c1) = highest_with(d, seq![p1], 1) {
        lemma_highest_with(d, seq![p1], 1);
        assert(seq![p1, p2][0] == p1 && seq![p1, p2][1] == p2);
        if c1 != p2 {
            assert(!seq![p1, p2].contains(c1));
        }
        lemma_highest_with(d, seq![p1, c1], 1);
        assert(seq![p1, c1][0] == p1 && seq![p1, c1][1] == c1);
        assert forall|x: Rank| !seq![p1, c1].contains(x) implies #[trigger] rank_count(d, x) < 1 by {
            assert(!seq![p1, p2].contains(x));
        }
    }
}

proof fn lemma_highest_from_max(d: Set<(Rank, Suit)>, excl: Seq<Rank>, n: nat, i: int)
    requires
        0 <= i <= 13,
    ensures
        highest_with_count_from(deck_counts(d), excl, n, i) matches Some(x) ==> forall|r: Rank|
            #[trigger] r.index() <= 12 - i && !excl.contains(r) && rank_count(d, r) >= n ==> r.index()
                <= x.index(),
    decreases 13 - i,
{
    if i < 13 {
        lemma_highest_from_max(d, excl, n, i + 1);
        lemma_rank_from_index(12 - i);
        assert forall|r: Rank| #[trigger] r.index() == 12 - i implies r == Rank::from_index(12 - i) by {
            lemma_rank_index(r);
        }
    }
}

/// The rank found is the highest of those outside `excl` held at least `n` times.
pub proof fn lemma_highest_with_is_highest(d: Set<(Rank, Suit)>, excl: Seq<Rank>, n: nat)
    ensures
        highest_with(d, excl, n) matches Some(x) ==> forall|r: Rank|
            !excl.contains(r) && #[trigger] rank_count(d, r) >= n ==> r.index() <= x.index(),
{
    lemma_highest_from_max(d, excl, n, 0);
    if let Some(x) = highest_with(d, excl, n) {
        assert forall|r: Rank| !excl.contains(r) && #[trigger] rank_count(d, r) >= n implies r.index()
            <= x.index() by {
            lemma_rank_index(r);
        }
    }
}

proof fn lemma_straight_flush_upto(d: Set<(Rank, Suit)>, k: int)
    requires
        0 <= k <= 4,
    ensures
        forall|j: int|
            0 <= j < k && (#[trigger] best_straight(suit_ranks(d, Suit::from_index(j)))) is Some
                ==> (straight_flush_upto(d, k) matches Some(x) && best_straight(
                suit_ranks(d, Suit::from_index(j)),
            ).unwrap().index() <= x.index()),
    decreases k,
{
    if k > 0 {
        lemma_straight_flush_upto(d, k - 1);
    }
}

/// Five cards in a row of one suit, whichever suit, make a straight flush, topped at least
/// by that suit's highest straight.
pub proof fn lemma_straight_flush_found(d: Set<(Rank, Suit)>, s: Suit)
    requires
        best_straight(suit_ranks(d, s)) is Some,
    ensures
        rank_defined(d, 0),
        kind_index(hand_rank(d)) == 8,
        hand_rank(d)->sf.index() >= best_straight(suit_ranks(d, s)).unwrap().index(),
{
    lemma_suit_index(s);
    assert(best_straight(suit_ranks(d, Suit::from_index(s.index()))) is Some);
    lemma_straight_flush_upto(d, 4);
}

} // verus!
