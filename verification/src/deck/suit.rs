use vstd::prelude::*;

verus! {

/// The suit of a playing card.
#[derive(Clone, Copy, Debug, PartialEq, Eq, Structural, Hash)]
pub enum Suit {
    Clubs,
    Diamonds,
    Hearts,
    Spades,
}

/// The character that names a suit in card notation.
pub open spec fn suit_char(s: Suit) -> char {
    match s {
        Suit::Clubs => 'c',
        Suit::Diamonds => 'd',
        Suit::Hearts => 'h',
        Suit::Spades => 's',
    }
}

/// The suit that a character names, ignoring ASCII case.
pub open spec fn suit_of_char(c: char) -> Option<Suit> {
    if c == 'c' || c == 'C' {
        Some(Suit::Clubs)
    } else if c == 'd' || c == 'D' {
        Some(Suit::Diamonds)
    } else if c == 'h' || c == 'H' {
        Some(Suit::Hearts)
    } else if c == 's' || c == 'S' {
        Some(Suit::Spades)
    } else {
        None
    }
}

impl Suit {
    /// Position of the suit in the order clubs, diamonds, hearts, spades.
    pub open spec fn index(self) -> int {
        match self {
            Suit::Clubs => 0,
            Suit::Diamonds => 1,
            Suit::Hearts => 2,
            Suit::Spades => 3,
        }
    }

    /// The suit at a position of the order clubs, diamonds, hearts, spades.
    pub open spec fn from_index(i: int) -> Suit {
        if i <= 0 {
            Suit::Clubs
        } else if i == 1 {
            Suit::Diamonds
        } else if i == 2 {
            Suit::Hearts
        } else {
            Suit::Spades
        }
    }

    /// Reads a suit from its character: `c`, `d`, `h` or `s`, in either case.
    pub fn try_from_char(val: &char) -> (res: Result<Suit, String>)
        ensures
            res is Ok <==> suit_of_char(*val) is Some,
            res matches Ok(s) ==> suit_of_char(*val) == Some(s),
            res matches Err(e) ==> e@ == "Invalid value"@,
    {
        match *val {
            'c' | 'C' => Ok(Suit::Clubs),
            'd' | 'D' => Ok(Suit::Diamonds),
            'h' | 'H' => Ok(Suit::Hearts),
            's' | 'S' => Ok(Suit::Spades),
            _ => Err("Invalid value".to_owned()),
        }
    }

    /// The one-character name of the suit.
    pub fn to_string(&self) -> (res: String)
        ensures
            res@ == seq![suit_char(*self)],
    {
        match self {
            Suit::Hearts => {
                proof {
                    reveal_strlit("h");
                }
                String::from_str("h")
            },
            Suit::Diamonds => {
                proof {
                    reveal_strlit("d");
                }
                String::from_str("d")
            },
            Suit::Clubs => {
                proof {
                    reveal_strlit("c");
                }
                String::from_str("c")
            },
            Suit::Spades => {
                proof {
                    reveal_strlit("s");
                }
                String::from_str("s")
            },
        }
    }
}

/// The suit at position `i` of the order clubs, diamonds, hearts, spades.
pub fn suit_at(i: usize) -> (s: Suit)
    requires
        i < 4,
    ensures
        s == Suit::from_index(i as int),
        s.index() == i,
{
    match i {
        0 => Suit::Clubs,
        1 => Suit::Diamonds,
        2 => Suit::Hearts,
        _ => Suit::Spades,
    }
}

} // verus!
