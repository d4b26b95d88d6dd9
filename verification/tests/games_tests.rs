use rust_decimal::Decimal;
use poker::deck::{Card, Deck, Rank};
use poker::games::flop_game::FlopGame;
use poker::games::holdem::{HoldemGameEvaluation, HoldemGameState};
use poker::games::omaha::{OmahaGameEvaluation, OmahaGameState};
use poker::games::{GameEquityEvaluation, GameEvaluation, GameWinner};
use poker::ranking::hand_rank::StandardHandRanks;

#[test]
fn test_holdem_hand() {
    let mut holdem_hand = HoldemGameState::new();
    holdem_hand.add_player(Deck::parse("As Ac").unwrap()).unwrap();
    holdem_hand.add_player(Deck::parse("ks kd").unwrap()).unwrap();

    let hand_evaluation = HoldemGameEvaluation {};

    holdem_hand.set_flop(Deck::parse("kc qd js").unwrap()).unwrap();

    let winners = hand_evaluation.evaluate_winners(&holdem_hand);

    assert_eq!(winners.len(), 1);
    assert_eq!(
        winners[0],
        GameWinner::new(
            1,
            Decimal::from(1),
            StandardHandRanks::ThreeOfAKind { t: Rank::King, c1: Rank::Queen, c2: Rank::Jack }
        )
    );

    let equities = hand_evaluation.evaluate_equity(&holdem_hand);

    assert_eq!(equities.len(), 2);
    assert_eq!(equities[0], Decimal::from(418) / Decimal::from(1980));
    assert_eq!(equities[1], Decimal::from(1562) / Decimal::from(1980));

    holdem_hand.set_turn(Card::parse("Tc").unwrap()).unwrap();

    let winners = hand_evaluation.evaluate_winners(&holdem_hand);

    assert_eq!(winners.len(), 1);
    assert_eq!(
        winners[0],
        GameWinner::new(0, Decimal::from(1), StandardHandRanks::Straight { s: Rank::Ace })
    );

    let equities = hand_evaluation.evaluate_equity(&holdem_hand);

    assert_eq!(equities.len(), 2);
    assert_eq!(equities[0], Decimal::from(33) / Decimal::from(44));
    assert_eq!(equities[1], Decimal::from(11) / Decimal::from(44));

    holdem_hand.set_river(Card::parse("Ad").unwrap()).unwrap();

    let winners = hand_evaluation.evaluate_winners(&holdem_hand);

    assert_eq!(winners.len(), 2);
    assert_eq!(
        winners[0],
        GameWinner::new(0, Decimal::new(5, 1), StandardHandRanks::Straight { s: Rank::Ace })
    );
    assert_eq!(
        winners[1],
        GameWinner::new(1, Decimal::new(5, 1), StandardHandRanks::Straight { s: Rank::Ace })
    );

    let equities = hand_evaluation.evaluate_equity(&holdem_hand);

    assert_eq!(equities.len(), 2);
    assert_eq!(equities[0], Decimal::from(1) / Decimal::from(2));
    assert_eq!(equities[1], Decimal::from(1) / Decimal::from(2));
}

#[test]
fn test_omaha_hand() {
    let mut state = OmahaGameState::new(4);
    assert_eq!(state.get_community_cards(), Deck::empty());

    state.add_player(Deck::parse("As Ac Jc Ts").unwrap()).unwrap();
    state.add_player(Deck::parse("9h 8h 7d 6d").unwrap()).unwrap();

    state.set_flop(Deck::parse("Jh Th Qd").unwrap()).unwrap();

    let evaluator = OmahaGameEvaluation {};

    let winners = evaluator.evaluate_winners(&state);

    assert_eq!(winners.len(), 1);
    assert_eq!(
        winners[0],
        GameWinner::new(1, Decimal::from(1), StandardHandRanks::Straight { s: Rank::Queen })
    );

    state.set_turn(Card::parse("Jd").unwrap()).unwrap();

    let winners = evaluator.evaluate_winners(&state);
    assert_eq!(winners.len(), 1);
    assert_eq!(
        winners[0],
        GameWinner::new(0, Decimal::from(1), StandardHandRanks::FullHouse { t: Rank::Jack, p: Rank::Ten })
    );

    let equity = evaluator.evaluate_equity(&state);
    assert_eq!(equity.len(), 2);
    assert_eq!(equity[0], Decimal::from(38) / Decimal::from(40));
    assert_eq!(equity[1], Decimal::from(2) / Decimal::from(40));

    state.set_river(Card::parse("Qh").unwrap()).unwrap();

    let winners = evaluator.evaluate_winners(&state);
    assert_eq!(winners.len(), 1);
    assert_eq!(
        winners[0],
        GameWinner::new(1, Decimal::from(1), StandardHandRanks::StraightFlush { sf: Rank::Queen })
    );
}
