use vstd::prelude::*;
use crate::deck::rank::Rank;
use core::cmp::Ordering;

verus! {

/// Whether the Ace counts as the highest rank or as the lowest.
#[derive(Clone, Copy, Debug, PartialEq, Eq, Structural)]
pub enum RankOrder {
    AceIsHigh,
    AceIsLow,
}

impl RankOrder {
    /// The score of a rank under this order: from 0 for the lowest rank up to 12 for
    /// the highest.
    pub open spec fn score(self, rank: Rank) -> int {
        match self {
            RankOrder::AceIsHigh => rank.index(),
            RankOrder::AceIsLow => if rank == Rank::Ace {
                0
            } else {
                rank.index() + 1
            },
        }
    }

    /// The score of a rank under this order: from 0 for the lowest rank up to 12 for
    /// the highest.
    pub fn get_score(&self, rank: &Rank) -> (res: u32)
        ensures
            res == self.score(*rank),
    {
        let return_val: u32 = match rank {
            Rank::Two => 1,
            Rank::Three => 2,
            Rank::Four => 3,
            Rank::Five => 4,
            Rank::Six => 5,
            Rank::Seven => 6,
            Rank::Eight => 7,
            Rank::Nine => 8,
            Rank::Ten => 9,
            Rank::Jack => 10,
            Rank::Queen => 11,
            Rank::King => 12,
            Rank::Ace => match self {
                RankOrder::AceIsHigh => 13,
                RankOrder::AceIsLow => 0,
            },
        };
        match self {
            RankOrder::AceIsHigh => return_val - 1,
            RankOrder::AceIsLow => return_val,
        }
    }

    /// Compares two ranks by their scores under this order.
    pub fn cmp(&self, a: Rank, b: Rank) -> (res: Ordering)
        ensures
            (res == Ordering::Less) == (self.score(a) < self.score(b)),
            (res == Ordering::Equal) == (self.score(a) == self.score(b)),
            (res == Ordering::Greater) == (self.score(a) > self.score(b)),
    {
        let sa = self.get_score(&a);
        let sb = self.get_score(&b);
        if sa < sb {
            Ordering::Less
        } else if sa == sb {
            Ordering::Equal
        } else {
            Ordering::Greater
        }
    }
}

} // verus!
