use rust_decimal::Decimal;
use poker::deck::{Card, Deck, Rank, Suit};
use poker::deck::rank::RankBitfield;
use poker::games::flop_game::FlopGame;
use poker::games::holdem::{HoldemGameEvaluation, HoldemGameState};
use poker::games::{GameEquityEvaluation, GameEvaluation, GameWinner};
use poker::ranking::hand_rank::{StandardHandRanker, StandardHandRanks};
use poker::ranking::standard_hand_ranker::RankOrder;

#[test]
fn card_parse_reports_errors() {
    assert_eq!(Card::parse("A"), Err("Invalid Value".to_owned()));
    assert_eq!(Card::parse(""), Err("Invalid Value".to_owned()));
    assert_eq!(Card::parse("Xs"), Err("Invalid value".to_owned()));
    assert_eq!(Card::parse("Ax"), Err("Invalid value".to_owned()));
    assert_eq!(Card::parse("tD"), Ok(Card::new(Rank::Ten, Suit::Diamonds)));
}

#[test]
fn deck_parse_reports_errors() {
    assert_eq!(Deck::parse("As Zz"), Err("Invalid value for card".to_owned()));
    assert_eq!(Deck::parse("As  Kd"), Err("Invalid value for card".to_owned()));
    let deck = Deck::parse("As Kd As").unwrap();
    assert_eq!(deck.num_cards(), 2);
}

#[test]
fn deck_nth_card_in_order_aces_first() {
    let deck = Deck::parse("2c Kd As").unwrap();
    assert_eq!(deck.try_get_nth_card(0), Some(Card::new(Rank::Ace, Suit::Spades)));
    assert_eq!(deck.try_get_nth_card(1), Some(Card::new(Rank::King, Suit::Diamonds)));
    assert_eq!(deck.try_get_nth_card(2), Some(Card::new(Rank::Two, Suit::Clubs)));
    assert_eq!(deck.try_get_nth_card(3), None);
    assert_eq!(deck.try_get_nth_card(4), None);

    let mut deck = deck;
    assert_eq!(deck.try_remove_nth_card(3), Err("Too many cards".to_owned()));
    assert_eq!(deck.num_cards(), 3);
    assert_eq!(deck.try_remove_nth_card(1), Ok(Card::new(Rank::King, Suit::Diamonds)));
    assert_eq!(deck, Deck::parse("2c As").unwrap());
}

#[test]
fn deck_random_removal_takes_distinct_cards() {
    let mut deck = Deck::all_cards();
    let taken = deck.try_remove_random_cards(7).unwrap();
    assert_eq!(taken.len(), 7);
    assert_eq!(deck.num_cards(), 45);
    for (i, card) in taken.iter().enumerate() {
        assert!(!deck.has_card(card));
        for other in taken.iter().skip(i + 1) {
            assert_ne!(card, other);
        }
    }

    let mut small = Deck::parse("As Kd").unwrap();
    assert_eq!(small.try_remove_random_cards(3), Err("Too many cards to remove".to_owned()));
    assert_eq!(small.num_cards(), 2);
    let all = small.try_remove_random_cards(2).unwrap();
    assert_eq!(all.len(), 2);
    assert!(small.is_empty());
}

#[test]
fn deck_combinations_cover_each_choice_once() {
    let deck = Deck::parse("As Kd Qh Jc").unwrap();
    let mut it = deck.enumerate_combinations(2);
    let mut seen: Vec<Deck> = Vec::new();
    while let Some(choice) = it.next() {
        assert_eq!(choice.num_cards(), 2);
        assert!(deck.has_cards(&choice));
        assert!(!seen.contains(&choice));
        seen.push(choice);
    }
    assert_eq!(seen.len(), 6);
    assert_eq!(seen[0], Deck::parse("As Kd").unwrap());

    let mut none = deck.enumerate_combinations(0);
    assert!(none.next().is_none());
}

#[test]
fn deck_insert_then_remove_restores() {
    let mut deck = Deck::parse("As Kd").unwrap();
    let extra = [Card::parse("Qh").unwrap(), Card::parse("2c").unwrap()];
    deck.insert_cards(&extra);
    assert_eq!(deck.num_cards(), 4);
    deck.remove_cards(&extra);
    assert_eq!(deck, Deck::parse("As Kd").unwrap());
}

#[test]
fn hand_rank_names() {
    let two_pair = StandardHandRanks::TwoPair { p1: Rank::King, p2: Rank::Nine, c1: Rank::Four };
    assert_eq!(two_pair.to_string(), "Two Pair K over 9, 4");
    let high = StandardHandRanks::HighCard {
        c1: Rank::Ace,
        c2: Rank::King,
        c3: Rank::Queen,
        c4: Rank::Jack,
        c5: Rank::Nine,
    };
    assert_eq!(high.to_string(), "High Card A K Q J 9");
    assert_eq!(StandardHandRanks::Straight { s: Rank::Five }.to_string(), "Straight 5 high");
    let pair = StandardHandRanks::OnePair { p: Rank::Ten, c1: Rank::Ace, c2: Rank::Seven, c3: Rank::Two };
    assert_eq!(pair.to_string(), "Pair of T, A 7 2");
    assert_eq!(
        StandardHandRanks::FullHouse { t: Rank::Jack, p: Rank::Three }.to_string(),
        "Full House J full of 3"
    );
}

#[test]
fn hand_ranks_order_by_kind_then_ranks() {
    let flush = StandardHandRanks::Flush {
        c1: Rank::Ace,
        c2: Rank::King,
        c3: Rank::Queen,
        c4: Rank::Jack,
        c5: Rank::Nine,
    };
    let full_house = StandardHandRanks::FullHouse { t: Rank::Two, p: Rank::Three };
    assert!(flush < full_house);
    let low_straight = StandardHandRanks::Straight { s: Rank::Five };
    let high_straight = StandardHandRanks::Straight { s: Rank::Six };
    assert!(low_straight < high_straight);
    assert!(low_straight == StandardHandRanks::Straight { s: Rank::Five });
}

#[test]
fn rank_at_least_agrees_with_rank() {
    let deck = Deck::parse("As Ad Kc Qd 2h").unwrap();
    let pair = StandardHandRanks::OnePair { p: Rank::Ace, c1: Rank::King, c2: Rank::Queen, c3: Rank::Two };
    assert_eq!(StandardHandRanker::get_rank(&deck), pair);
    let two_pair = StandardHandRanks::TwoPair { p1: Rank::Three, p2: Rank::Two, c1: Rank::Four };
    assert_eq!(StandardHandRanker::get_rank_at_least(&deck, Some(two_pair)), None);
    let low_pair = StandardHandRanks::OnePair { p: Rank::Two, c1: Rank::Five, c2: Rank::Four, c3: Rank::Three };
    assert_eq!(StandardHandRanker::get_rank_at_least(&deck, Some(low_pair)), Some(pair));
    assert_eq!(StandardHandRanker::get_rank_at_least(&deck, Some(pair)), Some(pair));
}

#[test]
fn any_five_cards_make_a_hand() {
    for _ in 0..20 {
        let mut deck = Deck::all_cards();
        let taken = deck.try_remove_random_cards(5).unwrap();
        let mut hand = Deck::empty();
        hand.insert_cards(&taken);
        let rank = StandardHandRanker::get_rank(&hand);
        assert_eq!(StandardHandRanker::get_rank_at_least(&hand, None), Some(rank));
    }
}

#[test]
fn rank_order_scores() {
    assert_eq!(RankOrder::AceIsHigh.get_score(&Rank::Ace), 12);
    assert_eq!(RankOrder::AceIsLow.get_score(&Rank::Ace), 0);
    assert_eq!(RankOrder::AceIsHigh.get_score(&Rank::Two), 0);
    assert_eq!(RankOrder::AceIsLow.get_score(&Rank::Two), 1);
    assert_eq!(RankOrder::AceIsLow.cmp(Rank::Ace, Rank::Two), std::cmp::Ordering::Less);
    assert_eq!(RankOrder::AceIsHigh.cmp(Rank::Ace, Rank::Two), std::cmp::Ordering::Greater);
}

#[test]
fn holdem_refuses_bad_deals() {
    let mut game = HoldemGameState::new();
    assert_eq!(
        game.add_player(Deck::parse("As").unwrap()),
        Err("Incorrect number of cards".to_owned())
    );
    game.add_player(Deck::parse("As Ac").unwrap()).unwrap();
    assert_eq!(
        game.add_player(Deck::parse("As Kd").unwrap()),
        Err("Cards not in deck".to_owned())
    );
    assert_eq!(game.get_player_hole_cards().len(), 1);
    assert_eq!(
        game.set_flop(Deck::parse("Kc Qd").unwrap()),
        Err("Incorrect number of cards".to_owned())
    );
    assert_eq!(
        game.set_flop(Deck::parse("Ac Qd Jd").unwrap()),
        Err("Cards not in deck".to_owned())
    );
    game.set_flop(Deck::parse("Kc Qd Jd").unwrap()).unwrap();
    assert_eq!(game.set_turn(Card::parse("Qd").unwrap()), Err("Card is not in deck".to_owned()));
    assert_eq!(game.set_river(Card::parse("As").unwrap()), Err("Card is not in deck".to_owned()));
    assert_eq!(game.get_community_cards(), Deck::parse("Kc Qd Jd").unwrap());
}

#[test]
fn holdem_final_states_run_out_the_board() {
    let mut game = HoldemGameState::new();
    game.add_player(Deck::parse("As Ac").unwrap()).unwrap();
    game.add_player(Deck::parse("Ks Kd").unwrap()).unwrap();
    game.set_flop(Deck::parse("Kc Qd Js").unwrap()).unwrap();
    let mut states = game.get_final_states();
    let mut count = 0;
    while let Some(state) = states.next() {
        assert_eq!(state.get_community_cards().num_cards(), 5);
        assert_eq!(state.get_player_hole_cards().len(), 2);
        count += 1;
    }
    assert_eq!(count, 45 * 44);

    game.set_turn(Card::parse("Tc").unwrap()).unwrap();
    let mut states = game.get_final_states();
    let mut count = 0;
    while let Some(state) = states.next() {
        assert_eq!(state.get_community_cards().num_cards(), 5);
        count += 1;
    }
    assert_eq!(count, 44);
}

#[test]
fn holdem_split_pot_shares_evenly() {
    let mut game = HoldemGameState::new();
    game.add_player(Deck::parse("2c 3d").unwrap()).unwrap();
    game.add_player(Deck::parse("2d 3c").unwrap()).unwrap();
    game.add_player(Deck::parse("4c 5d").unwrap()).unwrap();
    game.set_flop(Deck::parse("Ts Js Qd").unwrap()).unwrap();
    game.set_turn(Card::parse("Kh").unwrap()).unwrap();
    game.set_river(Card::parse("Ac").unwrap()).unwrap();
    let evaluation = HoldemGameEvaluation {};
    let winners = evaluation.evaluate_winners(&game);
    assert_eq!(winners.len(), 3);
    let share = Decimal::new(10, 1) / Decimal::from(3);
    for (i, winner) in winners.iter().enumerate() {
        assert_eq!(*winner, GameWinner::new(i, share, StandardHandRanks::Straight { s: Rank::Ace }));
    }
    let equities = evaluation.evaluate_equity(&game);
    assert_eq!(equities.len(), 3);
    for equity in equities.iter() {
        assert_eq!(*equity, share);
    }
}

#[test]
fn word_rank_bitfield_straights() {
    let mut wheel = RankBitfield::new();
    wheel.add_ranks(&[Rank::Ace, Rank::Two, Rank::Three, Rank::Four, Rank::Five]);
    assert_eq!(wheel.get_straight(), Some(Rank::Five));
    let mut broadway = RankBitfield::new();
    broadway.add_ranks(&[Rank::Ten, Rank::Jack, Rank::Queen, Rank::King, Rank::Ace]);
    assert_eq!(broadway.get_straight(), Some(Rank::Ace));
    let mut gap = RankBitfield::new();
    gap.add_ranks(&[Rank::Two, Rank::Three, Rank::Four, Rank::Five, Rank::Seven]);
    assert_eq!(gap.get_straight(), None);
}

#[test]
fn deck_remove_absent_card_changes_nothing() {
    let mut deck = Deck::parse("As Kd").unwrap();
    deck.remove_cards(&[Card::parse("2c").unwrap()]);
    assert_eq!(deck, Deck::parse("As Kd").unwrap());
    deck.remove_cards(&[Card::parse("As").unwrap(), Card::parse("As").unwrap()]);
    assert_eq!(deck, Deck::parse("Kd").unwrap());
}

#[test]
fn rank_set_highest_five_under_each_order() {
    let ranks = Deck::parse("Ac 2d 3h 4s 5c Kd").unwrap().get_combined_ranks();
    assert_eq!(ranks.num_unique_ranks(), 6);
    assert_eq!(
        ranks.get_highest_five(&RankOrder::AceIsHigh),
        Some([Rank::Ace, Rank::King, Rank::Five, Rank::Four, Rank::Three])
    );
    assert_eq!(
        ranks.get_highest_five(&RankOrder::AceIsLow),
        Some([Rank::King, Rank::Five, Rank::Four, Rank::Three, Rank::Two])
    );
    let wheel = Deck::parse("Ac 2d 3h 4s 5c").unwrap().get_combined_ranks();
    assert_eq!(
        wheel.get_highest_five(&RankOrder::AceIsLow),
        Some([Rank::Five, Rank::Four, Rank::Three, Rank::Two, Rank::Ace])
    );
    let low = Deck::parse("2c 3d 4h 5s 6c").unwrap().get_combined_ranks();
    assert_eq!(
        low.get_highest_five(&RankOrder::AceIsLow),
        Some([Rank::Six, Rank::Five, Rank::Four, Rank::Three, Rank::Two])
    );
    let four = Deck::parse("Ac Kd Qh Js").unwrap().get_combined_ranks();
    assert_eq!(four.num_unique_ranks(), 4);
    assert_eq!(four.get_highest_five(&RankOrder::AceIsHigh), None);
    assert_eq!(four.get_highest_five(&RankOrder::AceIsLow), None);
}

#[test]
fn deck_rank_bitfield_counts_bits() {
    let bits = poker::deck::deck::Deck::all_cards().get_combined_rank_bitfield();
    assert_eq!(bits.count_ones(), 14);
    assert_eq!(bits.get_straight(), Some(Rank::Ace));
}

#[test]
fn deck_text_reads_back() {
    for text in ["As", "2c Kd As", "Th 9h 8h 7h 6h"] {
        let deck = Deck::parse(text).unwrap();
        assert_eq!(Deck::parse(&deck.to_string()), Ok(deck));
    }
    let full = Deck::all_cards();
    assert_eq!(Deck::parse(&full.to_string()), Ok(full));
    assert_eq!(Deck::empty().to_string(), "");
    assert_eq!(Deck::parse(&Deck::empty().to_string()), Err("Invalid value for card".to_owned()));
    assert_eq!(Deck::parse("2c Kd As").unwrap().to_string(), "As Kd 2c");
}

#[test]
fn card_names_read_back() {
    let mut it = Card::values();
    let mut count = 0;
    while let Some(card) = it.next() {
        assert_eq!(Card::parse(&card.to_string()), Ok(card));
        count += 1;
    }
    assert_eq!(count, 52);
}

#[test]
fn rank_at_least_goes_by_kind() {
    let deck = Deck::parse("2s 2d Kc Qd 9h").unwrap();
    let pair = StandardHandRanks::OnePair { p: Rank::Two, c1: Rank::King, c2: Rank::Queen, c3: Rank::Nine };
    let aces = StandardHandRanks::OnePair { p: Rank::Ace, c1: Rank::King, c2: Rank::Queen, c3: Rank::Jack };
    assert_eq!(StandardHandRanker::get_rank_at_least(&deck, Some(aces)), Some(pair));
    let straight = StandardHandRanks::Straight { s: Rank::Five };
    assert_eq!(StandardHandRanker::get_rank_at_least(&deck, Some(straight)), None);
}

#[test]
fn cards_equal_by_rank_and_suit() {
    assert_eq!(Card::new(Rank::Ace, Suit::Spades), Card::new(Rank::Ace, Suit::Spades));
    assert_ne!(Card::new(Rank::Ace, Suit::Spades), Card::new(Rank::Ace, Suit::Hearts));
    assert_ne!(Card::new(Rank::Ace, Suit::Spades), Card::new(Rank::King, Suit::Spades));
    assert_eq!(Card::parse("As"), Ok(Card::new(Rank::Ace, Suit::Spades)));
}

#[test]
fn card_parse_wants_exactly_two_characters() {
    assert_eq!(Card::parse("Asx"), Err("Invalid value".to_owned()));
    assert_eq!(Card::parse("1s"), Err("Invalid value".to_owned()));
    assert_eq!(Card::parse("ah"), Ok(Card::new(Rank::Ace, Suit::Hearts)));
    assert_eq!(Deck::parse("As Ksx"), Err("Invalid value for card".to_owned()));
    assert!(poker::deck::card::Card::try_from_str("Asx").is_err());
    assert!(poker::deck::card::Card::try_from_str("As").is_ok());
}
