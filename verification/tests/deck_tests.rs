use poker::deck::{Card, Deck, Rank, Suit};

fn deck_from_cards(val: &str) -> Deck {
    let cards: Vec<Card> = val.split(" ").map(|x| Card::parse(x).unwrap()).collect();
    let mut deck = Deck::empty();
    deck.insert_cards(&cards);
    deck
}

#[test]
fn mod_test_has_card() {
    let mut empty = Deck::empty();
    let mut full = Deck::all_cards();

    let mut values = Card::values();
    while let Some(card) = values.next() {
        assert!(!empty.has_card(&card));
        assert!(full.has_card(&card))
    }

    let two_clubs = Card::new(Rank::Two, Suit::Clubs);
    let three_clubs = Card::new(Rank::Three, Suit::Clubs);

    empty.insert_cards(&[two_clubs.clone()]);
    full.remove_cards(&[three_clubs.clone()]);
    assert!(empty.has_card(&two_clubs));
    assert!(!empty.has_card(&three_clubs));
    assert!(!full.has_card(&three_clubs));
    assert!(full.has_card(&two_clubs));

    let card = empty.try_remove_nth_card(0).unwrap();
    assert_eq!(card, two_clubs);
    assert!(!empty.has_card(&two_clubs));

    println!("{}", full.to_string());
    let card = full.try_remove_nth_card(3).unwrap();
    assert_eq!(card, Card::parse("As").unwrap());
    assert_eq!(full.num_cards(), 50);
    let card = full.try_remove_nth_card(10).unwrap();
    assert_eq!(card, Card::parse("Qs").unwrap());
    assert_eq!(full.num_cards(), 49);
}

#[test]
fn mod_test_deck_display() {
    let deck = Deck::all_cards();
    println!("{}", deck.to_string());
}

#[test]
fn mod_test_iterator() {
    let deck = deck_from_cards("As Ks Qs");

    let mut subdeck_1 = deck_from_cards("As Ks");
    let mut subdeck_2 = deck_from_cards("As Qs");
    let mut subdeck_3 = deck_from_cards("Ks Qs");

    let mut combinations = deck.enumerate_combinations(2);
    while let Some(subdeck) = combinations.next() {
        assert_eq!(subdeck.num_cards(), 2);
        if subdeck_1 == subdeck {
            subdeck_1.try_remove_nth_card(0).unwrap();
            subdeck_1.try_remove_nth_card(0).unwrap();
        } else if subdeck_2 == subdeck {
            subdeck_2.try_remove_nth_card(0).unwrap();
            subdeck_2.try_remove_nth_card(0).unwrap();
        } else if subdeck_3 == subdeck {
            subdeck_3.try_remove_nth_card(0).unwrap();
            subdeck_3.try_remove_nth_card(0).unwrap();
        } else {
            assert!(false)
        }
    }
}

#[test]
fn mod_create_card_works() {
    let card = Card::new(Rank::Ace, Suit::Spades);
    assert_eq!(Rank::Ace, card.rank());
    assert_eq!(Suit::Spades, card.suit());
}

#[test]
fn mod_test_display_for_card() {
    let card = Card::new(Rank::Ace, Suit::Spades);
    assert_eq!(card.to_string(), "As");
}

#[test]
fn mod_test_from_str() -> Result<(), String> {
    for i in 0..52 {
        let card = Deck::all_cards().try_get_nth_card(i).unwrap();
        let display: String = card.to_string();
        let other_card = Card::parse(&display)?;
        assert_eq!(other_card, card);
    }

    assert_eq!(Card::parse("As")?, Card::new(Rank::Ace, Suit::Spades));

    Ok(())
}
