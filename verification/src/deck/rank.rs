use vstd::prelude::*;
use crate::deck::bits::{bit, count_ones, lemma_bit_ops, lemma_rank_from_index, lemma_rank_index, popcount};
use crate::deck::rank_bits::{
    best_straight, first_pattern_from, in_ranks, lemma_count_rank_masked, lemma_rank_masks, lemma_ranks_descending,
    lemma_straight_pattern, lemma_top_ranks, pattern_at, rank_bits_wf, ranks_descending,
    ranks_of_bits, top_ranks,
};

verus! {

/// The rank of a playing card, from Two up to Ace.
#[derive(Clone, Copy, Debug, PartialEq, Eq, Structural, Hash, PartialOrd, Ord)]
pub enum Rank {
    Two,
    Three,
    Four,
    Five,
    Six,
    Seven,
    Eight,
    Nine,
    Ten,
    Jack,
    Queen,
    King,
    Ace,
}

/// The character that names a rank in card notation.
pub open spec fn rank_char(r: Rank) -> char {
    match r {
        Rank::Two => '2',
        Rank::Three => '3',
        Rank::Four => '4',
        Rank::Five => '5',
        Rank::Six => '6',
        Rank::Seven => '7',
        Rank::Eight => '8',
        Rank::Nine => '9',
        Rank::Ten => 'T',
        Rank::Jack => 'J',
        Rank::Queen => 'Q',
        Rank::King => 'K',
        Rank::Ace => 'A',
    }
}

/// The rank that an upper-case character names: `2`-`9`, `T`, `J`, `Q`, `K`, `A`.
pub open spec fn rank_of_upper_char(c: char) -> Option<Rank> {
    if c == '2' {
        Some(Rank::Two)
    } else if c == '3' {
        Some(Rank::Three)
    } else if c == '4' {
        Some(Rank::Four)
    } else if c == '5' {
        Some(Rank::Five)
    } else if c == '6' {
        Some(Rank::Six)
    } else if c == '7' {
        Some(Rank::Seven)
    } else if c == '8' {
        Some(Rank::Eight)
    } else if c == '9' {
        Some(Rank::Nine)
    } else if c == 'T' {
        Some(Rank::Ten)
    } else if c == 'J' {
        Some(Rank::Jack)
    } else if c == 'Q' {
        Some(Rank::Queen)
    } else if c == 'K' {
        Some(Rank::King)
    } else if c == 'A' {
        Some(Rank::Ace)
    } else {
        None
    }
}

/// The rank that a character names, ignoring ASCII case.
pub open spec fn rank_of_char(c: char) -> Option<Rank> {
    if c == 't' {
        Some(Rank::Ten)
    } else if c == 'j' {
        Some(Rank::Jack)
    } else if c == 'q' {
        Some(Rank::Queen)
    } else if c == 'k' {
        Some(Rank::King)
    } else if c == 'a' {
        Some(Rank::Ace)
    } else {
        rank_of_upper_char(c)
    }
}

impl Rank {
    /// Position of the rank from Two (0) up to Ace (12).
    pub open spec fn index(self) -> int {
        match self {
            Rank::Two => 0,
            Rank::Three => 1,
            Rank::Four => 2,
            Rank::Five => 3,
            Rank::Six => 4,
            Rank::Seven => 5,
            Rank::Eight => 6,
            Rank::Nine => 7,
            Rank::Ten => 8,
            Rank::Jack => 9,
            Rank::Queen => 10,
            Rank::King => 11,
            Rank::Ace => 12,
        }
    }

    /// The rank at a position from Two (0) up to Ace (12).
    pub open spec fn from_index(i: int) -> Rank {
        if i <= 0 {
            Rank::Two
        } else if i == 1 {
            Rank::Three
        } else if i == 2 {
            Rank::Four
        } else if i == 3 {
            Rank::Five
        } else if i == 4 {
            Rank::Six
        } else if i == 5 {
            Rank::Seven
        } else if i == 6 {
            Rank::Eight
        } else if i == 7 {
            Rank::Nine
        } else if i == 8 {
            Rank::Ten
        } else if i == 9 {
            Rank::Jack
        } else if i == 10 {
            Rank::Queen
        } else if i == 11 {
            Rank::King
        } else {
            Rank::Ace
        }
    }

    /// Reads a rank from its character, `2`-`9`, `T`, `J`, `Q`, `K` or `A`, in either case.
    pub fn try_from_char(val: &char) -> (res: Result<Rank, String>)
        ensures
            res is Ok <==> rank_of_char(*val) is Some,
            res matches Ok(r) ==> rank_of_char(*val) == Some(r),
            res matches Err(e) ==> e@ == "Invalid value"@,
    {
        match *val {
            'a' | 'A' => Ok(Rank::Ace),
            '2' => Ok(Rank::Two),
            '3' => Ok(Rank::Three),
            '4' => Ok(Rank::Four),
            '5' => Ok(Rank::Five),
            '6' => Ok(Rank::Six),
            '7' => Ok(Rank::Seven),
            '8' => Ok(Rank::Eight),
            '9' => Ok(Rank::Nine),
            't' | 'T' => Ok(Rank::Ten),
            'j' | 'J' => Ok(Rank::Jack),
            'q' | 'Q' => Ok(Rank::Queen),
            'k' | 'K' => Ok(Rank::King),
            _ => Err("Invalid value".to_owned()),
        }
    }

    /// Reads a rank from its upper-case character; lower-case letters are refused.
    pub fn try_from_str(val: &char) -> (res: Result<Rank, String>)
        ensures
            res is Ok <==> rank_of_upper_char(*val) is Some,
            res matches Ok(r) ==> rank_of_upper_char(*val) == Some(r),
            res matches Err(e) ==> e@ == "Invalid value"@,
    {
        match *val {
            'A' => Ok(Rank::Ace),
            '2' => Ok(Rank::Two),
            '3' => Ok(Rank::Three),
            '4' => Ok(Rank::Four),
            '5' => Ok(Rank::Five),
            '6' => Ok(Rank::Six),
            '7' => Ok(Rank::Seven),
            '8' => Ok(Rank::Eight),
            '9' => Ok(Rank::Nine),
            'T' => Ok(Rank::Ten),
            'J' => Ok(Rank::Jack),
            'Q' => Ok(Rank::Queen),
            'K' => Ok(Rank::King),
            _ => Err("Invalid value".to_owned()),
        }
    }

    /// The rank at position `val` from Two (0) up to Ace (12).
    pub fn try_from_usize(val: usize) -> (res: Result<Rank, String>)
        ensures
            res is Ok <==> val < 13,
            res matches Ok(r) ==> r.index() == val,
            res matches Err(e) ==> e@ == "Invalid value"@,
    {
        match val {
            0 => Ok(Rank::Two),
            1 => Ok(Rank::Three),
            2 => Ok(Rank::Four),
            3 => Ok(Rank::Five),
            4 => Ok(Rank::Six),
            5 => Ok(Rank::Seven),
            6 => Ok(Rank::Eight),
            7 => Ok(Rank::Nine),
            8 => Ok(Rank::Ten),
            9 => Ok(Rank::Jack),
            10 => Ok(Rank::Queen),
            11 => Ok(Rank::King),
            12 => Ok(Rank::Ace),
            _ => Err("Invalid value".to_owned()),
        }
    }

    /// The score of the rank: 1 for Two up to 13 for Ace.
    pub fn get_score(&self) -> (res: u32)
        ensures
            res == self.index() + 1,
    {
        match self {
            Rank::Two => 1,
            Rank::Three => 2,
            Rank::Four => 3,
            Rank::Five => 4,
            Rank::Six => 5,
            Rank::Seven => 6,
            Rank::Eight => 7,
            Rank::Nine => 8,
            Rank::Ten => 9,
            Rank::Jack => 10,
            Rank::Queen => 11,
            Rank::King => 12,
            Rank::Ace => 13,
        }
    }

    /// The one-character name of the rank.
    pub fn to_string(&self) -> (res: String)
        ensures
            res@ == seq![rank_char(*self)],
    {
        let s: &str = match self {
            Rank::Ace => "A",
            Rank::Two => "2",
            Rank::Three => "3",
            Rank::Four => "4",
            Rank::Five => "5",
            Rank::Six => "6",
            Rank::Seven => "7",
            Rank::Eight => "8",
            Rank::Nine => "9",
            Rank::Ten => "T",
            Rank::Jack => "J",
            Rank::Queen => "Q",
            Rank::King => "K",
        };
        proof {
            reveal_strlit("A");
            reveal_strlit("2");
            reveal_strlit("3");
            reveal_strlit("4");
            reveal_strlit("5");
            reveal_strlit("6");
            reveal_strlit("7");
            reveal_strlit("8");
            reveal_strlit("9");
            reveal_strlit("T");
            reveal_strlit("J");
            reveal_strlit("Q");
            reveal_strlit("K");
        }
        String::from_str(s)
    }
}

/// The bits that record a rank in a rank word: bit `i + 1` for the rank of index `i`,
/// and bit 0 as well for an Ace.
pub open spec fn rank_word(r: Rank) -> u32 {
    if r == Rank::Ace {
        (1u32 << 13u32) | 1u32
    } else {
        1u32 << ((r.index() + 1) as u32)
    }
}

/// The bits of one rank make a valid rank word that holds that rank alone.
proof fn lemma_rank_word_bits(m: u32, k: u64)
    by (bit_vector)
    requires
        1 <= m <= 12,
        1 <= k <= 13,
    ensures
        rank_bits_wf((1u32 << m) as u64),
        ((((1u32 << m) as u64) >> k) & 1u64 == 1u64) <==> k == m as u64,
        rank_bits_wf(((1u32 << 13u32) | 1u32) as u64),
        ((((((1u32 << 13u32) | 1u32) as u64) >> k) & 1u64 == 1u64) <==> k == 13u64),
{
}

/// The rank word of one rank is valid and holds that rank alone.
pub proof fn lemma_rank_word(r: Rank)
    ensures
        rank_bits_wf(rank_word(r) as u64),
        ranks_of_bits(rank_word(r) as u64) == set![r],
{
    lemma_rank_index(r);
    let m: u32 = if r == Rank::Ace { 1 } else { (r.index() + 1) as u32 };
    lemma_rank_word_bits(m, 1);
    assert forall|q: Rank| #[trigger] ranks_of_bits(rank_word(r) as u64).contains(q) <==> q == r by {
        lemma_rank_index(q);
        lemma_rank_word_bits(m, (q.index() + 1) as u64);
        if q.index() == r.index() {
            assert(Rank::from_index(q.index()) == Rank::from_index(r.index()));
        }
    }
    assert(ranks_of_bits(rank_word(r) as u64) =~= set![r]);
}

/// Or-ing rank words: zero changes nothing, the order of or-ing does not matter, and
/// widening commutes with or-ing.
pub proof fn lemma_word_or(a: u32, b: u32, c: u32)
    by (bit_vector)
    ensures
        0u32 | a == a,
        a | 0u32 == a,
        (a | b) | c == a | (b | c),
        (a | b) as u64 == (a as u64) | (b as u64),
{
}

/// The bits that record a sequence of ranks.
pub open spec fn rank_words(rs: Seq<Rank>) -> u32
    decreases rs.len(),
{
    if rs.len() == 0 {
        0
    } else {
        rank_words(rs.drop_last()) | rank_word(rs.last())
    }
}

/// The ranks of a rank word from Four up: the ranks that `get_highest_five` looks at.
pub open spec fn ranks_from_four(rs: Set<Rank>) -> Set<Rank> {
    rs.filter(|r: Rank| r.index() >= 2)
}

/// A set of ranks recorded in a word: bit `i + 1` for the rank of index `i`, and bit 0
/// as well for an Ace.
#[derive(Eq, PartialEq, Structural, Debug)]
pub struct RankBitfield {
    pub ranks: u32,
}

impl View for RankBitfield {
    type V = Set<Rank>;

    open spec fn view(&self) -> Set<Rank> {
        ranks_of_bits(self.ranks as u64)
    }
}

impl RankBitfield {
    /// No ranks.
    pub fn new() -> (res: Self)
        ensures
            res.ranks == 0,
    {
        Self { ranks: 0 }
    }

    /// The one rank.
    pub fn from_rank(rank: &Rank) -> (res: Self)
        ensures
            res.ranks == rank_word(*rank),
    {
        let mut return_val = RankBitfield::new();
        let one = [rank.clone()];
        proof {
            assert(one@ =~= seq![*rank]);
            assert(seq![*rank].drop_last() =~= Seq::<Rank>::empty());
            assert(rank_words(Seq::<Rank>::empty()) == 0);
            lemma_word_or(rank_word(*rank), 0, 0);
        }
        return_val.add_ranks(&one);
        return_val
    }

    /// Adds the ranks.
    pub fn add_ranks(&mut self, ranks: &[Rank])
        ensures
            final(self).ranks == old(self).ranks | rank_words(ranks@),
    {
        let ghost start = self.ranks;
        let mut i: usize = 0;
        proof {
            assert(ranks@.take(0) =~= Seq::<Rank>::empty());
            lemma_word_or(start, 0, 0);
        }
        while i < ranks.len()
            invariant
                0 <= i <= ranks.len(),
                self.ranks == start | rank_words(ranks@.take(i as int)),
            decreases ranks.len() - i,
        {
            let word: u32 = match ranks[i] {
                Rank::Ace => 1 << 13 | 1,
                Rank::Two => 1 << 1,
                Rank::Three => 1 << 2,
                Rank::Four => 1 << 3,
                Rank::Five => 1 << 4,
                Rank::Six => 1 << 5,
                Rank::Seven => 1 << 6,
                Rank::Eight => 1 << 7,
                Rank::Nine => 1 << 8,
                Rank::Ten => 1 << 9,
                Rank::Jack => 1 << 10,
                Rank::Queen => 1 << 11,
                Rank::King => 1 << 12,
            };
            proof {
                let before = rank_words(ranks@.take(i as int));
                assert(ranks@.take(i + 1).drop_last() =~= ranks@.take(i as int));
                assert(word == rank_word(ranks@[i as int]));
                lemma_word_or(start, before, word);
            }
            self.ranks = self.ranks | word;
            i = i + 1;
        }
        proof {
            assert(ranks@.take(ranks@.len() as int) =~= ranks@);
        }
    }

    /// The top card of the highest five ranks in a row among bits 0 to 13, reading bit 0
    /// as an Ace below the Two; for a word made by `add_ranks`, the highest straight.
    pub fn get_straight(&self) -> (res: Option<Rank>)
        ensures
            res == match first_pattern_from(self.ranks as u64, 0x1f, 5, 0) {
                Some(i) => Some(Rank::from_index(12 - i)),
                None => None,
            },
            rank_bits_wf(self.ranks as u64) ==> res == best_straight(self@),
    {
        proof {
            if rank_bits_wf(self.ranks as u64) {
                lemma_straight_pattern(self.ranks as u64, 0);
            }
            lemma_first_pattern_range(self.ranks as u64, 0x1f, 5, 0);
        }
        let result = self.matches_pattern(0b11111, 5);
        match result {
            Some(x) => {
                let r = Rank::try_from_usize(x + 2).unwrap();
                proof {
                    lemma_rank_index(r);
                }
                Some(r)
            },
            None => None,
        }
    }

    /// The five highest ranks, from the highest down, when the word records at least
    /// five ranks; only the ranks from Four up are looked at, and bit 14 must be clear.
    pub fn get_highest_five(&self) -> (res: Option<[Rank; 5]>)
        requires
            self@.len() >= 5 ==> self.ranks & 0x4000 == 0 && ranks_from_four(self@).len() >= 5,
        ensures
            res is Some <==> self@.len() >= 5,
            res matches Some(a) ==> a@ == top_ranks(self@).take(5),
    {
        let y = self.ranks as u64;
        let w = self.ranks;
        proof {
            assert forall|k: int| 0 <= k < 64 implies (bit(0x3ffeu64, k) <==> (1 <= k <= 13 && (|r: Rank| true)(
                Rank::from_index(k - 1),
            ))) by {
                lemma_rank_masks(k as u64);
            }
            lemma_count_rank_masked(y, 0x3ffeu64, |r: Rank| true);
            assert(self@.filter(|r: Rank| true) =~= self@);
            assert(((w & 0x3ffeu32) as u64) == y & 0x3ffeu64) by (bit_vector)
                requires
                    y == w as u64,
            ;
        }
        let ranks_to_check = self.ranks & 0b11111111111110;
        let count = count_ones(ranks_to_check as u64);
        if count < 5 {
            None
        } else {
            let ghost src = self@;
            let ghost desc = ranks_descending();
            proof {
                lemma_top_ranks(src);
                lemma_ranks_descending();
                lemma_top_five_from_four(src);
            }
            let mut return_val: Vec<Rank> = Vec::new();
            let mut i: usize = 1;
            proof {
                assert(desc.take(0) =~= Seq::<Rank>::empty());
                reveal(Seq::filter);
            }
            while i < 13
                invariant_except_break
                    1 <= i <= 13,
                    return_val@ == desc.take(if i == 1 { 0 } else { i - 2 }).filter(in_ranks(src)),
                    return_val.len() < 5,
                invariant
                    src == self@,
                    y == self.ranks as u64,
                    w == self.ranks,
                    desc == ranks_descending(),
                    src.len() >= 5,
                    self.ranks & 0x4000 == 0,
                    desc.take(11).filter(in_ranks(src)).len() >= 5,
                    top_ranks(src) == desc.take(11).filter(in_ranks(src)) + desc.skip(11).filter(
                        in_ranks(src),
                    ),
                ensures
                    return_val@ == top_ranks(src).take(5),
                decreases 13 - i,
            {
                let target: u32 = 1 << (15 - i);
                let present = target & w == target;
                proof {
                    let kk = (15 - i) as u32;
                    assert(((1u32 << kk) & w == (1u32 << kk)) == ((y >> (kk as u64)) & 1u64
                        == 1u64)) by (bit_vector)
                        requires
                            kk < 32,
                            y == w as u64,
                    ;
                    if i == 1 {
                        assert(((y >> 14u64) & 1u64 == 1u64) == false) by (bit_vector)
                            requires
                                y == w as u64,
                                w & 0x4000 == 0,
                        ;
                    } else {
                        let r = Rank::from_index(14 - i);
                        lemma_rank_from_index(14 - i);
                        assert(desc[i - 2] == r);
                        assert(present == src.contains(r));
                        assert(desc.take(i - 1) =~= desc.take(i - 2).push(r));
                        reveal(Seq::filter);
                        assert(desc.take(i - 1).drop_last() =~= desc.take(i - 2));
                    }
                }
                if present {
                    return_val.push(Rank::try_from_usize(15 - i - 1).unwrap());
                    if return_val.len() == 5 {
                        proof {
                            let t = desc.take(i - 1);
                            assert(desc =~= t + desc.skip(i - 1));
                            Seq::filter_distributes_over_add(t, desc.skip(i - 1), in_ranks(src));
                            assert(top_ranks(src) == t.filter(in_ranks(src)) + desc.skip(i - 1).filter(
                                in_ranks(src),
                            ));
                            assert(top_ranks(src).take(5) =~= t.filter(in_ranks(src)));
                        }
                        break;
                    }
                }
                i = i + 1;
            }
            proof {
                if return_val.len() < 5 {
                    assert(false);
                }
            }
            Some([return_val[0], return_val[1], return_val[2], return_val[3], return_val[4]])
        }
    }

    /// The first step `i` (see `first_pattern_from`) at which `required_on_bits`,
    /// shifted left by `14 - field_length - i`, is contained in the word, given as
    /// `15 - field_length - i`.
    fn matches_pattern(&self, required_on_bits: u32, field_length: usize) -> (res: Option<usize>)
        requires
            field_length <= 14,
            required_on_bits == 0x1f,
        ensures
            res == match first_pattern_from(self.ranks as u64, required_on_bits as u64, field_length as int, 0) {
                Some(i) => Some((15 - field_length - i) as usize),
                None => None,
            },
            res matches Some(x) ==> x <= 15 - field_length,
    {
        let ghost fl = field_length as int;
        let ghost y = self.ranks as u64;
        let w = self.ranks;
        let mut i: usize = 0;
        while i < 15 - field_length
            invariant
                0 <= i <= 15 - field_length,
                field_length <= 14,
                fl == field_length,
                y == self.ranks as u64,
                w == self.ranks,
                required_on_bits == 0x1f,
                first_pattern_from(y, required_on_bits as u64, fl, 0) == first_pattern_from(
                    y,
                    required_on_bits as u64,
                    fl,
                    i as int,
                ),
            decreases 15 - field_length - i,
        {
            let shift = (14 - field_length - i) as u32;
            let must_match = required_on_bits << shift;
            proof {
                assert(((0x1fu32 << shift) & w == (0x1fu32 << shift)) == pattern_at(
                    y,
                    0x1fu64,
                    shift as u64,
                )) by (bit_vector)
                    requires
                        shift <= 14,
                        y == w as u64,
                ;
            }
            if must_match & w == must_match {
                return Some(15 - field_length - i);
            }
            i = i + 1;
        }
        return None;
    }
}

/// The step that `first_pattern_from` finds lies between its start and the end.
pub proof fn lemma_first_pattern_range(y: u64, pat: u64, fl: int, i: int)
    ensures
        first_pattern_from(y, pat, fl, i) matches Some(j) ==> i <= j < 15 - fl,
    decreases 15 - fl - i,
{
    if 0 <= i < 15 - fl {
        lemma_first_pattern_range(y, pat, fl, i + 1);
    }
}

/// The five highest ranks lie among the ranks from Four up when those are at least five.
proof fn lemma_top_five_from_four(src: Set<Rank>)
    requires
        ranks_from_four(src).len() >= 5,
    ensures
        ranks_descending().take(11).filter(in_ranks(src)).len() >= 5,
        top_ranks(src) == ranks_descending().take(11).filter(in_ranks(src)) + ranks_descending().skip(
            11,
        ).filter(in_ranks(src)),
{
    let desc = ranks_descending();
    let s4 = ranks_from_four(src);
    lemma_ranks_descending();
    lemma_top_ranks(s4);
    assert(desc =~= desc.take(11) + desc.skip(11));
    Seq::filter_distributes_over_add(desc.take(11), desc.skip(11), in_ranks(src));
    Seq::filter_distributes_over_add(desc.take(11), desc.skip(11), in_ranks(s4));
    assert(desc.skip(11).filter(in_ranks(s4)) =~= Seq::<Rank>::empty()) by {
        let low = desc.skip(11);
        lemma_rank_from_index(0);
        lemma_rank_from_index(1);
        assert(low[0] == Rank::Three);
        assert(low[1] == Rank::Two);
        broadcast use vstd::seq_lib::group_filter_ensures;

        if low.filter(in_ranks(s4)).len() > 0 {
            let x = low.filter(in_ranks(s4))[0];
            assert(low.filter(in_ranks(s4)).contains(x));
            low.lemma_filter_contains_rev(in_ranks(s4), x);
            let k = choose|k: int| 0 <= k < low.len() && low[k] == x;
            assert(s4.contains(x));
        }
    }
    assert forall|k: int| 0 <= k < 11 implies (#[trigger] desc.take(11)[k]).index() >= 2 by {
        lemma_rank_from_index(12 - k);
    }
    assert(desc.take(11).filter(in_ranks(s4)) =~= desc.take(11).filter(in_ranks(src))) by {
        lemma_filter_same(desc.take(11), in_ranks(s4), in_ranks(src));
    }
}

/// Filtering by two predicates that agree on a sequence gives the same result.
proof fn lemma_filter_same(s: Seq<Rank>, p: spec_fn(Rank) -> bool, q: spec_fn(Rank) -> bool)
    requires
        forall|k: int| 0 <= k < s.len() ==> (p(#[trigger] s[k]) <==> q(s[k])),
    ensures
        s.filter(p) == s.filter(q),
    decreases s.len(),
{
    reveal(Seq::filter);
    if s.len() > 0 {
        assert forall|k: int| 0 <= k < s.drop_last().len() implies (p(#[trigger] s.drop_last()[k]) <==> q(
            s.drop_last()[k],
        )) by {
            assert(s.drop_last()[k] == s[k]);
        }
        lemma_filter_same(s.drop_last(), p, q);
        assert(p(s[s.len() - 1]) <==> q(s[s.len() - 1]));
    }
}

/// The rank at position `i` from Two (0) up to Ace (12).
pub fn rank_at(i: usize) -> (r: Rank)
    requires
        i < 13,
    ensures
        r == Rank::from_index(i as int),
        r.index() == i,
{
    match i {
        0 => Rank::Two,
        1 => Rank::Three,
        2 => Rank::Four,
        3 => Rank::Five,
        4 => Rank::Six,
        5 => Rank::Seven,
        6 => Rank::Eight,
        7 => Rank::Nine,
        8 => Rank::Ten,
        9 => Rank::Jack,
        10 => Rank::Queen,
        11 => Rank::King,
        _ => Rank::Ace,
    }
}

} // verus!
