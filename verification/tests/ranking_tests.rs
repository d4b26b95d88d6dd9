use poker::deck::{Card, Deck, Rank};
use poker::ranking::hand_rank::{StandardHandRanker, StandardHandRanks};
use poker::ranks::hand_rank::HandRank;

fn deck_from_cards(val: &str) -> Deck {
    let cards: Vec<Card> = val.split(" ").map(|x| Card::parse(x).unwrap()).collect();
    let mut deck = Deck::empty();
    deck.insert_cards(&cards);
    deck
}

fn first_deck_from_cards(val: &str) -> poker::deck::deck::Deck {
    let cards: Vec<poker::deck::card::Card> = val
        .split(" ")
        .map(|x| poker::deck::card::Card::try_from_str(x).unwrap())
        .collect();
    let mut deck = poker::deck::deck::Deck::empty();
    deck.insert_cards(&cards);
    deck
}

fn assert_rank(hand: &str, rank: StandardHandRanks) {
    let deck = deck_from_cards(hand);
    assert_eq!(StandardHandRanker::get_rank(&deck), rank);
}

fn assert_first_rank(hand: &str, rank: HandRank) {
    let deck = first_deck_from_cards(hand);
    assert_eq!(poker::ranks::standard_hand_ranker::StandardHandRanker::get_rank(&deck), rank);
}

#[test]
fn hand_rank_test_rank() {
    let high_card_lowest = StandardHandRanks::HighCard {
        c1: Rank::Seven,
        c2: Rank::Five,
        c3: Rank::Four,
        c4: Rank::Three,
        c5: Rank::Two,
    };
    let high_card_highest = StandardHandRanks::HighCard {
        c1: Rank::Ace,
        c2: Rank::King,
        c3: Rank::Queen,
        c4: Rank::Jack,
        c5: Rank::Nine,
    };
    let one_pair_lowest = StandardHandRanks::OnePair { p: Rank::Two, c1: Rank::Five, c2: Rank::Four, c3: Rank::Three };
    let one_pair_highest = StandardHandRanks::OnePair { p: Rank::Ace, c1: Rank::King, c2: Rank::Queen, c3: Rank::Jack };
    let two_pair_lowest = StandardHandRanks::TwoPair { p1: Rank::Three, p2: Rank::Two, c1: Rank::Four };
    let two_pair_highest = StandardHandRanks::TwoPair { p1: Rank::Ace, p2: Rank::King, c1: Rank::Queen };
    let trip_lowest = StandardHandRanks::ThreeOfAKind { t: Rank::Two, c1: Rank::Four, c2: Rank::Three };
    let trip_highest = StandardHandRanks::ThreeOfAKind { t: Rank::Ace, c1: Rank::King, c2: Rank::Queen };
    let straight_lowest = StandardHandRanks::Straight { s: Rank::Five };
    let straight_highest = StandardHandRanks::Straight { s: Rank::Ace };
    let flush_lowest = StandardHandRanks::Flush {
        c1: Rank::Seven,
        c2: Rank::Six,
        c3: Rank::Five,
        c4: Rank::Four,
        c5: Rank::Three,
    };
    let flush_highest = StandardHandRanks::Flush {
        c1: Rank::Ace,
        c2: Rank::King,
        c3: Rank::Queen,
        c4: Rank::Jack,
        c5: Rank::Nine,
    };
    let full_house_lowest = StandardHandRanks::FullHouse { t: Rank::Two, p: Rank::Three };
    let full_house_highest = StandardHandRanks::FullHouse { t: Rank::Ace, p: Rank::King };
    let quads_lowest = StandardHandRanks::FourOfAKind { q: Rank::Two, c: Rank::Three };
    let quads_highest = StandardHandRanks::FourOfAKind { q: Rank::Ace, c: Rank::King };
    let sf_lowest = StandardHandRanks::StraightFlush { sf: Rank::Five };
    let sf_highest = StandardHandRanks::StraightFlush { sf: Rank::Ace };

    let mut all_hands = vec![
        one_pair_highest,
        one_pair_lowest,
        two_pair_highest,
        two_pair_lowest,
        high_card_highest,
        high_card_lowest,
        trip_lowest,
        trip_highest,
        straight_highest,
        straight_lowest,
        flush_highest,
        flush_lowest,
        full_house_highest,
        full_house_lowest,
        quads_highest,
        quads_lowest,
        sf_lowest,
        sf_highest,
    ];

    all_hands.sort();

    assert_eq!(
        all_hands,
        [
            high_card_lowest,
            high_card_highest,
            one_pair_lowest,
            one_pair_highest,
            two_pair_lowest,
            two_pair_highest,
            trip_lowest,
            trip_highest,
            straight_lowest,
            straight_highest,
            flush_lowest,
            flush_highest,
            full_house_lowest,
            full_house_highest,
            quads_lowest,
            quads_highest,
            sf_lowest,
            sf_highest
        ]
    );

    let high_card_lowest = HandRank::HighCard {
        c1: Rank::Seven,
        c2: Rank::Five,
        c3: Rank::Four,
        c4: Rank::Three,
        c5: Rank::Two,
    };
    let high_card_highest = HandRank::HighCard {
        c1: Rank::Ace,
        c2: Rank::King,
        c3: Rank::Queen,
        c4: Rank::Jack,
        c5: Rank::Nine,
    };
    let one_pair_lowest = HandRank::OnePair { p: Rank::Two, c1: Rank::Five, c2: Rank::Four, c3: Rank::Three };
    let one_pair_highest = HandRank::OnePair { p: Rank::Ace, c1: Rank::King, c2: Rank::Queen, c3: Rank::Jack };
    let two_pair_lowest = HandRank::TwoPair { p1: Rank::Three, p2: Rank::Two, c1: Rank::Four };
    let two_pair_highest = HandRank::TwoPair { p1: Rank::Ace, p2: Rank::King, c1: Rank::Queen };
    let trip_lowest = HandRank::ThreeOfAKind { t: Rank::Two, c1: Rank::Four, c2: Rank::Three };
    let trip_highest = HandRank::ThreeOfAKind { t: Rank::Ace, c1: Rank::King, c2: Rank::Queen };
    let straight_lowest = HandRank::Straight { s: Rank::Five };
    let straight_highest = HandRank::Straight { s: Rank::Ace };
    let flush_lowest = HandRank::Flush {
        c1: Rank::Seven,
        c2: Rank::Six,
        c3: Rank::Five,
        c4: Rank::Four,
        c5: Rank::Three,
    };
    let flush_highest = HandRank::Flush {
        c1: Rank::Ace,
        c2: Rank::King,
        c3: Rank::Queen,
        c4: Rank::Jack,
        c5: Rank::Nine,
    };
    let full_house_lowest = HandRank::FullHouse { t: Rank::Two, p: Rank::Three };
    let full_house_highest = HandRank::FullHouse { t: Rank::Ace, p: Rank::King };
    let quads_lowest = HandRank::FourOfAKind { q: Rank::Two, c: Rank::Three };
    let quads_highest = HandRank::FourOfAKind { q: Rank::Ace, c: Rank::King };
    let sf_lowest = HandRank::StraightFlush { sf: Rank::Five };
    let sf_highest = HandRank::StraightFlush { sf: Rank::Ace };

    let mut all_hands = vec![
        one_pair_highest.clone(),
        one_pair_lowest.clone(),
        two_pair_highest.clone(),
        two_pair_lowest.clone(),
        high_card_highest.clone(),
        high_card_lowest.clone(),
        trip_lowest.clone(),
        trip_highest.clone(),
        straight_highest.clone(),
        straight_lowest.clone(),
        flush_highest.clone(),
        flush_lowest.clone(),
        full_house_highest.clone(),
        full_house_lowest.clone(),
        quads_highest.clone(),
        quads_lowest.clone(),
        sf_lowest.clone(),
        sf_highest.clone(),
    ];

    all_hands.sort();

    assert_eq!(
        all_hands,
        [
            high_card_lowest,
            high_card_highest,
            one_pair_lowest,
            one_pair_highest,
            two_pair_lowest,
            two_pair_highest,
            trip_lowest,
            trip_highest,
            straight_lowest,
            straight_highest,
            flush_lowest,
            flush_highest,
            full_house_lowest,
            full_house_highest,
            quads_lowest,
            quads_highest,
            sf_lowest,
            sf_highest
        ]
    );
}

#[test]
fn standard_hand_ranker_test_ranker() {
    assert_rank("3c 4c 5c 3d 4d", StandardHandRanks::TwoPair { p1: Rank::Four, p2: Rank::Three, c1: Rank::Five });
    assert_rank(
        "As 2s 3h 4c 6d",
        StandardHandRanks::HighCard { c1: Rank::Ace, c2: Rank::Six, c3: Rank::Four, c4: Rank::Three, c5: Rank::Two },
    );
    assert_rank(
        "As 2s 3s 4s 6s",
        StandardHandRanks::Flush { c1: Rank::Ace, c2: Rank::Six, c3: Rank::Four, c4: Rank::Three, c5: Rank::Two },
    );
    assert_rank("As 2s 3h 4c 5d", StandardHandRanks::Straight { s: Rank::Five });
    assert_rank("As 2s 3h 4c 5d 6d", StandardHandRanks::Straight { s: Rank::Six });
    assert_rank("6s 2s 3s 4s 5s", StandardHandRanks::StraightFlush { sf: Rank::Six });
    assert_rank("6d 6c 6h 6s 5s", StandardHandRanks::FourOfAKind { q: Rank::Six, c: Rank::Five });
    assert_rank("6d 6c 6h 5h 5s", StandardHandRanks::FullHouse { t: Rank::Six, p: Rank::Five });
    assert_rank("6d 6c 6h 4h 5s", StandardHandRanks::ThreeOfAKind { t: Rank::Six, c1: Rank::Five, c2: Rank::Four });
    assert_rank(
        "6s 2s 2h 4s 5s",
        StandardHandRanks::OnePair { p: Rank::Two, c1: Rank::Six, c2: Rank::Five, c3: Rank::Four },
    );

    assert_first_rank("3c 4c 5c 3d 4d", HandRank::TwoPair { p1: Rank::Four, p2: Rank::Three, c1: Rank::Five });
    assert_first_rank(
        "As 2s 3h 4c 6d",
        HandRank::HighCard { c1: Rank::Ace, c2: Rank::Six, c3: Rank::Four, c4: Rank::Three, c5: Rank::Two },
    );
    assert_first_rank(
        "As 2s 3s 4s 6s",
        HandRank::Flush { c1: Rank::Ace, c2: Rank::Six, c3: Rank::Four, c4: Rank::Three, c5: Rank::Two },
    );
    assert_first_rank("As 2s 3h 4c 5d", HandRank::Straight { s: Rank::Five });
    assert_first_rank("As 2s 3h 4c 5d 6d", HandRank::Straight { s: Rank::Six });
    assert_first_rank("6s 2s 3s 4s 5s", HandRank::StraightFlush { sf: Rank::Six });
    assert_first_rank("6d 6c 6h 6s 5s", HandRank::FourOfAKind { q: Rank::Six, c: Rank::Five });
    assert_first_rank("6d 6c 6h 5h 5s", HandRank::FullHouse { t: Rank::Six, p: Rank::Five });
    assert_first_rank("6d 6c 6h 4h 5s", HandRank::ThreeOfAKind { t: Rank::Six, c1: Rank::Five, c2: Rank::Four });
    assert_first_rank(
        "6s 2s 2h 4s 5s",
        HandRank::OnePair { p: Rank::Two, c1: Rank::Six, c2: Rank::Five, c3: Rank::Four },
    );
}
