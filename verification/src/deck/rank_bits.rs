use vstd::prelude::*;
use vstd::set_lib::lemma_map_size;
use crate::deck::rank::Rank;
use crate::deck::suit::Suit;
use crate::deck::bits::{
    bit, bit_set, bits_has, deck_bits_wf, lemma_bit_ops, lemma_filter_no_dup, lemma_filter_to_set,
    lemma_popcount_set, lemma_rank_from_index, lemma_rank_index, lemma_wf_bit, popcount,
};

verus! {

// A set of ranks is held in bits 0 to 13 of a `u64`: rank `r` (Two = 0 .. Ace = 12) at
// bit `r + 1`, and an Ace also at bit 0.

/// The bits are a valid set of ranks: only bits 0 to 13 are set, and bit 0 (the low
/// Ace) agrees with bit 13 (the Ace).
pub open spec fn rank_bits_wf(y: u64) -> bool {
    &&& y & !0x3fffu64 == 0
    &&& y & 1u64 == (y >> 13u64) & 1u64
}

/// The set of ranks that the bits hold.
pub open spec fn ranks_of_bits(y: u64) -> Set<Rank> {
    Set::new(|r: Rank| bit(y, r.index() + 1))
}

/// The 13 ranks from Ace down to Two.
pub open spec fn ranks_descending() -> Seq<Rank> {
    Seq::new(13, |i: int| Rank::from_index(12 - i))
}

/// Whether a rank is in a set.
pub open spec fn in_ranks(rs: Set<Rank>) -> spec_fn(Rank) -> bool {
    |r: Rank| rs.contains(r)
}

/// The ranks of a set from the highest down.
pub open spec fn top_ranks(rs: Set<Rank>) -> Seq<Rank> {
    ranks_descending().filter(in_ranks(rs))
}

/// The ranks of a set from the highest down are in strictly falling order.
pub proof fn lemma_top_ranks_descending(rs: Set<Rank>)
    ensures
        forall|i: int, j: int|
            0 <= i < j < top_ranks(rs).len() ==> (#[trigger] top_ranks(rs)[i]).index() > (
            #[trigger] top_ranks(rs)[j]).index(),
{
    let o = ranks_descending();
    let p = in_ranks(rs);
    assert forall|a: int, b: int| 0 <= a < b < 13 implies (#[trigger] o[a]).index() > (#[trigger] o[b]).index() by {
        lemma_rank_from_index(12 - a);
        lemma_rank_from_index(12 - b);
    }
    lemma_filter_sorted(o, p);
}

/// Keeping some elements of a sequence of ranks in strictly falling order keeps the order.
proof fn lemma_filter_sorted(o: Seq<Rank>, p: spec_fn(Rank) -> bool)
    requires
        forall|a: int, b: int| 0 <= a < b < o.len() ==> (#[trigger] o[a]).index() > (#[trigger] o[b]).index(),
    ensures
        forall|i: int, j: int|
            0 <= i < j < o.filter(p).len() ==> (#[trigger] o.filter(p)[i]).index() > (
            #[trigger] o.filter(p)[j]).index(),
    decreases o.len(),
{
    reveal(Seq::filter);
    if o.len() > 0 {
        let q = o.drop_last();
        assert forall|a: int, b: int| 0 <= a < b < q.len() implies (#[trigger] q[a]).index() > (#[trigger] q[b]).index() by {
            assert(q[a] == o[a] && q[b] == o[b]);
        }
        lemma_filter_sorted(q, p);
        let f = q.filter(p);
        if p(o.last()) {
            assert(o.filter(p) == f.push(o.last()));
            assert forall|i: int| 0 <= i < f.len() implies (#[trigger] f[i]).index() > o.last().index() by {
                assert(f.contains(f[i]));
                q.lemma_filter_contains_rev(p, f[i]);
                let a = choose|a: int| 0 <= a < q.len() && q[a] == f[i];
                assert(o[a] == q[a]);
                assert(o[o.len() - 1] == o.last());
                assert(o[a].index() > o[o.len() - 1].index());
            }
        }
    }
}

/// All 13 ranks.
pub open spec fn all_ranks_set() -> Set<Rank> {
    Set::new(|r: Rank| true)
}

/// The ranks that a set of cards holds in one suit.
pub open spec fn suit_ranks(cards: Set<(Rank, Suit)>, s: Suit) -> Set<Rank> {
    Set::new(|r: Rank| cards.contains((r, s)))
}

/// The ranks that a set of cards holds in any suit.
pub open spec fn combined_ranks(cards: Set<(Rank, Suit)>) -> Set<Rank> {
    Set::new(|r: Rank| exists|s: Suit| cards.contains((r, s)))
}

/// Whether a card has rank `r`.
pub open spec fn of_rank(r: Rank) -> spec_fn((Rank, Suit)) -> bool {
    |c: (Rank, Suit)| c.0 == r
}

/// The number of cards of a rank in a set of cards.
pub open spec fn rank_count(cards: Set<(Rank, Suit)>, r: Rank) -> nat {
    cards.filter(of_rank(r)).len()
}

/// The descending order lists every rank once.
pub proof fn lemma_ranks_descending()
    ensures
        ranks_descending().no_duplicates(),
        forall|r: Rank|
            0 <= 12 - #[trigger] r.index() < 13 && ranks_descending()[12 - r.index()] == r,
        forall|r: Rank| ranks_descending().contains(r),
{
    let o = ranks_descending();
    assert forall|r: Rank| 0 <= 12 - #[trigger] r.index() < 13 && o[12 - r.index()] == r by {
        lemma_rank_index(r);
    }
    assert forall|r: Rank| o.contains(r) by {
        assert(o[12 - r.index()] == r);
    }
    assert forall|i: int, j: int| 0 <= i < 13 && 0 <= j < 13 && i != j implies o[i] != o[j] by {
        lemma_rank_from_index(12 - i);
        lemma_rank_from_index(12 - j);
    }
}

/// Every set of ranks is finite, and the ranks from the highest down list it once.
pub proof fn lemma_top_ranks(rs: Set<Rank>)
    ensures
        rs.finite(),
        rs.len() <= 13,
        top_ranks(rs).no_duplicates(),
        top_ranks(rs).to_set() == rs,
        top_ranks(rs).len() == rs.len(),
{
    lemma_ranks_descending();
    let o = ranks_descending();
    o.unique_seq_to_set();
    assert(o.to_set() =~= all_ranks_set());
    vstd::set_lib::lemma_len_subset(rs, all_ranks_set());
    lemma_filter_no_dup(o, in_ranks(rs));
    lemma_filter_to_set(o, in_ranks(rs));
    assert(o.to_set().filter(in_ranks(rs)) =~= rs);
    top_ranks(rs).unique_seq_to_set();
}

/// The ranks of one suit of a valid word of cards.
pub proof fn lemma_suit_rank_bits(x: u64, i: u64)
    requires
        deck_bits_wf(x),
        i < 4,
    ensures
        rank_bits_wf((x >> ((16 * i) as u64)) & 0x3fffu64),
        forall|j: int|
            0 <= j < 64 ==> #[trigger] bit((x >> ((16 * i) as u64)) & 0x3fffu64, j) == (j <= 13 && bit(
                x,
                16 * i + j,
            )),
{
    let sh = (16 * i) as u64;
    let y = (x >> sh) & 0x3fffu64;
    assert forall|j: int| 0 <= j < 64 implies bit(y, j) == (j <= 13 && bit(x, 16 * i + j)) by {
        let jj = j as u64;
        assert((((x >> sh) & 0x3fffu64) >> jj) & 1u64 == 1u64 <==> (jj <= 13 && (x >> (sh + jj))
            & 1u64 == 1u64)) by (bit_vector)
            requires
                sh <= 48,
                jj < 64,
        ;
    }
    lemma_wf_bit(x, 16 * i);
    assert(y & !0x3fffu64 == 0) by (bit_vector)
        requires
            y == (x >> sh) & 0x3fffu64,
    ;
    assert(bit(y, 0) == bit(y, 13));
    assert(y & 1u64 == (y >> 13u64) & 1u64) by (bit_vector)
        requires
            ((y >> 0u64) & 1u64 == 1u64) == ((y >> 13u64) & 1u64 == 1u64),
    ;
}

/// Union of valid rank words.
pub proof fn lemma_rank_bits_or(a: u64, b: u64)
    requires
        rank_bits_wf(a),
        rank_bits_wf(b),
    ensures
        rank_bits_wf(a | b),
        ranks_of_bits(a | b) == ranks_of_bits(a).union(ranks_of_bits(b)),
{
    assert(rank_bits_wf(a | b)) by (bit_vector)
        requires
            rank_bits_wf(a),
            rank_bits_wf(b),
    ;
    assert forall|r: Rank| ranks_of_bits(a | b).contains(r) == ranks_of_bits(a).union(
        ranks_of_bits(b),
    ).contains(r) by {
        lemma_bit_ops(a, b, r.index() + 1);
    }
    assert(ranks_of_bits(a | b) =~= ranks_of_bits(a).union(ranks_of_bits(b)));
}

/// Which positions the rank masks hold.
pub proof fn lemma_rank_masks(kk: u64)
    by (bit_vector)
    requires
        kk < 64,
    ensures
        ((0x3ffeu64 >> kk) & 1u64 == 1u64) <==> (1 <= kk && kk <= 13),
        ((0x1ffeu64 >> kk) & 1u64 == 1u64) <==> (1 <= kk && kk <= 12),
        ((0x1fffu64 >> kk) & 1u64 == 1u64) <==> kk <= 12,
{
}

/// Which positions a valid rank word may use.
pub proof fn lemma_rank_bits_wf_bit(y: u64, k: int)
    requires
        rank_bits_wf(y),
    ensures
        bit(y, 0) == bit(y, 13),
        k < 0 || k > 13 ==> !bit(y, k),
{
    assert(((y >> 0u64) & 1u64 == 1u64) == ((y >> 13u64) & 1u64 == 1u64)) by (bit_vector)
        requires
            rank_bits_wf(y),
    ;
    if 13 < k < 64 {
        let kk = k as u64;
        assert((y >> kk) & 1u64 != 1u64) by (bit_vector)
            requires
                rank_bits_wf(y),
                13 < kk < 64,
        ;
    }
}

/// Counting the ranks of a rank word that a mask selects: when the mask's bits are
/// exactly the positions 1 to 13 of the ranks that satisfy `p`, the number of bits of
/// `y & m` is the number of ranks of `y` that satisfy `p`.
pub proof fn lemma_count_rank_masked(y: u64, m: u64, p: spec_fn(Rank) -> bool)
    requires
        forall|k: int|
            0 <= k < 64 ==> (bit(m, k) <==> (1 <= k <= 13 && p(Rank::from_index(k - 1)))),
    ensures
        ranks_of_bits(y).filter(p).finite(),
        ranks_of_bits(y).filter(p).len() == popcount(y & m),
{
    let a = ranks_of_bits(y).filter(p);
    let b = bit_set(y & m);
    let f = |r: Rank| r.index() + 1;
    lemma_top_ranks(a);
    assert forall|k: int| a.map(f).contains(k) <==> b.contains(k) by {
        if b.contains(k) {
            lemma_bit_ops(y, m, k);
            let r = Rank::from_index(k - 1);
            lemma_rank_from_index(k - 1);
            assert(a.contains(r));
            assert(f(r) == k);
        }
        if a.map(f).contains(k) {
            let r = choose|r: Rank| a.contains(r) && f(r) == k;
            lemma_rank_index(r);
            lemma_bit_ops(y, m, k);
        }
    }
    assert(a.map(f) =~= b);
    assert forall|r: Rank, q: Rank|
        a.contains(r) && a.contains(q) && #[trigger] f(r) == #[trigger] f(q) implies r == q by {
        lemma_rank_index(r);
        lemma_rank_index(q);
    }
    lemma_map_size(a, b, f);
    lemma_popcount_set(y & m);
}

/// The number of set bits of a valid rank word: each rank once, and the Ace twice.
pub proof fn lemma_rank_bits_popcount(y: u64)
    requires
        rank_bits_wf(y),
    ensures
        popcount(y) == ranks_of_bits(y).len() + if ranks_of_bits(y).contains(Rank::Ace) {
            1nat
        } else {
            0nat
        },
        popcount(y & 0x3ffeu64) == ranks_of_bits(y).len(),
{
    let p = |r: Rank| true;
    assert forall|k: int| 0 <= k < 64 implies (bit(0x3ffeu64, k) <==> (1 <= k <= 13 && p(
        Rank::from_index(k - 1),
    ))) by {
        let kk = k as u64;
        lemma_rank_masks(kk);
    }
    lemma_count_rank_masked(y, 0x3ffeu64, p);
    assert(ranks_of_bits(y).filter(p) =~= ranks_of_bits(y));
    lemma_popcount_set(y);
    lemma_popcount_set(y & 0x3ffeu64);
    lemma_rank_bits_wf_bit(y, 0);
    let low = if bit(y, 0) {
        set![0int]
    } else {
        Set::<int>::empty()
    };
    assert forall|k: int| bit_set(y).contains(k) == bit_set(y & 0x3ffeu64).union(low).contains(k) by {
        lemma_bit_ops(y, 0x3ffeu64, k);
        lemma_rank_bits_wf_bit(y, k);
        if 0 <= k < 64 {
            let kk = k as u64;
            lemma_rank_masks(kk);
        }
    }
    assert(bit_set(y) =~= bit_set(y & 0x3ffeu64).union(low));
    assert(bit_set(y & 0x3ffeu64).disjoint(low)) by {
        lemma_bit_ops(y, 0x3ffeu64, 0);
        lemma_rank_masks(0);
    }
    vstd::set_lib::lemma_set_disjoint_lens(bit_set(y & 0x3ffeu64), low);
    assert(ranks_of_bits(y).contains(Rank::Ace) == bit(y, 13));
}

/// Whether the ranks hold the rank at index `i`, reading index -1 as a low Ace.
pub open spec fn has_rank_or_low_ace(rs: Set<Rank>, i: int) -> bool {
    if i == -1 {
        rs.contains(Rank::Ace)
    } else {
        rs.contains(Rank::from_index(i))
    }
}

/// Whether the ranks hold five in a row ending at index `top`, an Ace also counting
/// below the Two.
pub open spec fn straight_ending_at(rs: Set<Rank>, top: int) -> bool {
    &&& has_rank_or_low_ace(rs, top)
    &&& has_rank_or_low_ace(rs, top - 1)
    &&& has_rank_or_low_ace(rs, top - 2)
    &&& has_rank_or_low_ace(rs, top - 3)
    &&& has_rank_or_low_ace(rs, top - 4)
}

/// The highest straight of the ranks whose top card has index at most `top`.
pub open spec fn straight_from(rs: Set<Rank>, top: int) -> Option<Rank>
    decreases top,
{
    if top < 3 {
        None
    } else if straight_ending_at(rs, top) {
        Some(Rank::from_index(top))
    } else {
        straight_from(rs, top - 1)
    }
}

/// The top card of the highest straight that the ranks hold, the Ace playing high or low.
pub open spec fn best_straight(rs: Set<Rank>) -> Option<Rank> {
    straight_from(rs, 12)
}

/// The search from `top` down finds a straight at least as high as any straight ending
/// at or below `top`, and only straights that the ranks hold.
proof fn lemma_straight_from_at_least(rs: Set<Rank>, top: int, t: int)
    requires
        3 <= t <= top <= 12,
        straight_ending_at(rs, t),
    ensures
        straight_from(rs, top) matches Some(x) && t <= x.index() <= top,
    decreases top,
{
    if !straight_ending_at(rs, top) {
        lemma_straight_from_at_least(rs, top - 1, t);
    } else {
        lemma_rank_from_index(top);
    }
}

/// Five ranks in a row make a straight, the Ace also counting below the Two: when the
/// ranks hold the five ranks with indices `low` to `low + 4` (index -1 being the Ace), the
/// highest straight found tops at least the fifth of them.
pub proof fn lemma_five_in_a_row(rs: Set<Rank>, low: int)
    requires
        -1 <= low <= 8,
        forall|k: int|
            low <= k <= low + 4 ==> rs.contains(
                if k == -1 {
                    Rank::Ace
                } else {
                    #[trigger] Rank::from_index(k)
                },
            ),
    ensures
        best_straight(rs) matches Some(x) && x.index() >= low + 4,
{
    assert forall|k: int| low <= k <= low + 4 implies has_rank_or_low_ace(rs, k) by {
        if k != -1 {
            assert(rs.contains(Rank::from_index(k)));
        } else {
            assert(rs.contains(Rank::Ace));
        }
    }
    assert(has_rank_or_low_ace(rs, low + 4) && has_rank_or_low_ace(rs, low + 3) && has_rank_or_low_ace(rs, low + 2)
        && has_rank_or_low_ace(rs, low + 1) && has_rank_or_low_ace(rs, low));
    lemma_straight_from_at_least(rs, 12, low + 4);
}

proof fn lemma_straight_from_held(rs: Set<Rank>, top: int)
    requires
        top <= 12,
    ensures
        straight_from(rs, top) matches Some(x) ==> 3 <= x.index() <= 12 && straight_ending_at(rs, x.index()),
    decreases top,
{
    if top >= 3 {
        if straight_ending_at(rs, top) {
            lemma_rank_from_index(top);
        } else {
            lemma_straight_from_held(rs, top - 1);
        }
    }
}

/// A straight found is held: its top card and the four ranks below it (the Ace below the
/// Two) are all among the ranks.
pub proof fn lemma_straight_held(rs: Set<Rank>)
    ensures
        best_straight(rs) matches Some(x) ==> 3 <= x.index() && forall|k: int|
            x.index() - 4 <= k <= x.index() ==> rs.contains(
                if k == -1 {
                    Rank::Ace
                } else {
                    #[trigger] Rank::from_index(k)
                },
            ),
{
    lemma_straight_from_held(rs, 12);
    if let Some(x) = best_straight(rs) {
        assert forall|k: int| x.index() - 4 <= k <= x.index() implies rs.contains(
            if k == -1 {
                Rank::Ace
            } else {
                #[trigger] Rank::from_index(k)
            },
        ) by {
            assert(has_rank_or_low_ace(rs, k));
        }
    }
}

/// Whether every bit of `pat`, shifted left by `shift`, is set in `y`.
pub open spec fn pattern_at(y: u64, pat: u64, shift: u64) -> bool {
    (pat << shift) & y == pat << shift
}

/// The first step `i`, from `i` on and below `15 - fl`, at which the pattern shifted left
/// by `14 - fl - i` is contained in `y`.
pub open spec fn first_pattern_from(y: u64, pat: u64, fl: int, i: int) -> Option<int>
    decreases 15 - fl - i,
{
    if i < 0 || i >= 15 - fl {
        None
    } else if pattern_at(y, pat, (14 - fl - i) as u64) {
        Some(i)
    } else {
        first_pattern_from(y, pat, fl, i + 1)
    }
}

/// The first rank, from the highest down, outside `excl` whose count is at least `n`,
/// looking from the rank with index `12 - i` down.
pub open spec fn highest_with_count_from(
    count: spec_fn(Rank) -> nat,
    excl: Seq<Rank>,
    n: nat,
    i: int,
) -> Option<Rank>
    decreases 13 - i,
{
    if i < 0 || i >= 13 {
        None
    } else if !excl.contains(Rank::from_index(12 - i)) && count(Rank::from_index(12 - i)) >= n {
        Some(Rank::from_index(12 - i))
    } else {
        highest_with_count_from(count, excl, n, i + 1)
    }
}

/// The highest rank outside `excl` whose count is at least `n`.
pub open spec fn highest_with_count(count: spec_fn(Rank) -> nat, excl: Seq<Rank>, n: nat) -> Option<
    Rank,
> {
    highest_with_count_from(count, excl, n, 0)
}

/// A five-bit pattern is contained in a word exactly when its five bits are set.
pub proof fn lemma_five_pattern(y: u64, sh: u64)
    requires
        sh <= 59,
    ensures
        pattern_at(y, 0x1fu64, sh) == (bit(y, sh as int) && bit(y, sh + 1) && bit(y, sh + 2) && bit(
            y,
            sh + 3,
        ) && bit(y, sh + 4)),
{
    assert(((0x1fu64 << sh) & y == 0x1fu64 << sh) == ((y >> sh) & 1u64 == 1u64 && (y >> (sh
        + 1u64)) & 1u64 == 1u64 && (y >> (sh + 2u64)) & 1u64 == 1u64 && (y >> (sh + 3u64)) & 1u64
        == 1u64 && (y >> (sh + 4u64)) & 1u64 == 1u64)) by (bit_vector)
        requires
            sh <= 59,
    ;
}

/// In a valid rank word, bit `i + 1` records the rank of index `i`, bit 0 the low Ace.
pub proof fn lemma_rank_bit_has(y: u64, i: int)
    requires
        rank_bits_wf(y),
        -1 <= i <= 12,
    ensures
        bit(y, i + 1) == has_rank_or_low_ace(ranks_of_bits(y), i),
{
    lemma_rank_bits_wf_bit(y, 0);
    if i >= 0 {
        lemma_rank_from_index(i);
    }
}

/// The five-card straight pattern finds the highest straight.
pub proof fn lemma_straight_pattern(y: u64, i: int)
    requires
        rank_bits_wf(y),
        0 <= i <= 10,
    ensures
        first_pattern_from(y, 0x1fu64, 5, i) matches Some(j) ==> 0 <= j <= 9,
        straight_from(ranks_of_bits(y), 12 - i) == match first_pattern_from(y, 0x1fu64, 5, i) {
            Some(j) => Some(Rank::from_index(12 - j)),
            None => None,
        },
    decreases 10 - i,
{
    if i < 10 {
        let rs = ranks_of_bits(y);
        let top = 12 - i;
        lemma_five_pattern(y, (9 - i) as u64);
        lemma_rank_bit_has(y, top);
        lemma_rank_bit_has(y, top - 1);
        lemma_rank_bit_has(y, top - 2);
        lemma_rank_bit_has(y, top - 3);
        lemma_rank_bit_has(y, top - 4);
        assert(pattern_at(y, 0x1fu64, (14 - 5 - i) as u64) == straight_ending_at(rs, top));
        lemma_straight_pattern(y, i + 1);
    }
}

/// Counting the ranks of a valid rank word in the low-Ace mask: the low Ace bit stands
/// for the Ace, so each rank is counted once.
pub proof fn lemma_rank_bits_popcount_low(y: u64)
    requires
        rank_bits_wf(y),
    ensures
        popcount(y & 0x1fffu64) == ranks_of_bits(y).len(),
{
    let p = |r: Rank| r != Rank::Ace;
    assert forall|k: int| 0 <= k < 64 implies (bit(0x1ffeu64, k) <==> (1 <= k <= 13 && p(
        Rank::from_index(k - 1),
    ))) by {
        let kk = k as u64;
        lemma_rank_masks(kk);
        if 1 <= k <= 13 {
            lemma_rank_from_index(k - 1);
        }
    }
    lemma_count_rank_masked(y, 0x1ffeu64, p);
    assert(ranks_of_bits(y).filter(p) =~= ranks_of_bits(y).remove(Rank::Ace));
    lemma_top_ranks(ranks_of_bits(y));
    lemma_popcount_set(y & 0x1fffu64);
    lemma_popcount_set(y & 0x1ffeu64);
    lemma_rank_bits_wf_bit(y, 0);
    let low = if bit(y, 0) {
        set![0int]
    } else {
        Set::<int>::empty()
    };
    assert forall|k: int| bit_set(y & 0x1fffu64).contains(k) == bit_set(y & 0x1ffeu64).union(
        low,
    ).contains(k) by {
        lemma_bit_ops(y, 0x1fffu64, k);
        lemma_bit_ops(y, 0x1ffeu64, k);
        if 0 <= k < 64 {
            let kk = k as u64;
            lemma_rank_masks(kk);
        }
    }
    assert(bit_set(y & 0x1fffu64) =~= bit_set(y & 0x1ffeu64).union(low));
    assert(bit_set(y & 0x1ffeu64).disjoint(low)) by {
        lemma_bit_ops(y, 0x1ffeu64, 0);
        lemma_rank_masks(0);
    }
    vstd::set_lib::lemma_set_disjoint_lens(bit_set(y & 0x1ffeu64), low);
    assert(ranks_of_bits(y).contains(Rank::Ace) == bit(y, 13));
}

} // verus!
