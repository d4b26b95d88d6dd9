use poker::deck::card::Card;
use poker::deck::hand_ranker::HandRanker;
use poker::deck::Rank;

fn hand_ranker_from_cards(val: &str) -> HandRanker {
    let cards: Vec<Card> = val.split(" ").map(|x| Card::try_from_str(x).unwrap()).collect();
    let mut hand_ranker = HandRanker::new();
    for card in cards {
        hand_ranker.insert(card);
    }
    hand_ranker
}

fn assert_straight_and_straight_flush(hand: &str, straight: Option<Rank>, straight_flush: Option<Rank>) {
    let hand = hand_ranker_from_cards(hand);
    assert_eq!(hand.get_straight(), straight);
    assert_eq!(hand.get_straight_flush(), straight_flush);
}

#[test]
fn test_straight_and_straight_flush() {
    assert_straight_and_straight_flush("As 2s 3s 4s", None, None);
    assert_straight_and_straight_flush("As 2s 3s 4s 5s", Some(Rank::Five), Some(Rank::Five));
    assert_straight_and_straight_flush("6s 2s 3s 4s 5s", Some(Rank::Six), Some(Rank::Six));
    assert_straight_and_straight_flush("As 6h 2s 3s 4s 5s", Some(Rank::Six), Some(Rank::Five));
    assert_straight_and_straight_flush("As 6h 2s 3s 4s 5s", Some(Rank::Six), Some(Rank::Five));
    assert_straight_and_straight_flush("6s 7s 3s 4s 5s", Some(Rank::Seven), Some(Rank::Seven));
    assert_straight_and_straight_flush("6s 7s 8h 4s 5s", Some(Rank::Eight), None);
    assert_straight_and_straight_flush("Js Qs Kh As Ts", Some(Rank::Ace), None);
    assert_straight_and_straight_flush("9s Js Qs Ks Ah Ts", Some(Rank::Ace), Some(Rank::King));
}

#[test]
fn test_get_flush() {
    let hand = hand_ranker_from_cards("As Ks Qs Ts 9s 7h 4s");
    let flush_ranks = hand.get_flush_ranks();
    assert_eq!(flush_ranks, Some([Rank::Ace, Rank::King, Rank::Queen, Rank::Ten, Rank::Nine]));
}
