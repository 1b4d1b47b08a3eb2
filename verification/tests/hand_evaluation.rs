use cardkit::card::Card;
use cardkit::card::Suite;
use cardkit::category::PokerHandType;
use cardkit::hand::PokerHand;

#[test]
#[should_panic(expected = "Too many Cards!!!")]
fn test_too_many_cards() {
    let mut hand = PokerHand::new();
    for x in 2..8 {
        let card = Card::new(x, Suite::Heart).unwrap();
        hand.add_card(card).expect("Too many Cards!!!");

        println!("{:?}", hand);
    }
}

#[test]
fn test_set_hand_type() {
    let cases = vec![
        (
            PokerHand {
                cards: vec![
                    Card::new(2, Suite::Spade).unwrap(),
                    Card::new(3, Suite::Spade).unwrap(),
                    Card::new(2, Suite::Heart).unwrap(),
                    Card::new(2, Suite::Diamond).unwrap(),
                    Card::new(2, Suite::Club).unwrap(),
                ],
                poker_hand_type: None,
            },
            Some(PokerHandType::FourOfAKind),
        ),
        (
            PokerHand {
                cards: vec![
                    Card::new(2, Suite::Spade).unwrap(),
                    Card::new(3, Suite::Spade).unwrap(),
                    Card::new(2, Suite::Heart).unwrap(),
                    Card::new(2, Suite::Diamond).unwrap(),
                    Card::new(14, Suite::Spade).unwrap(),
                ],
                poker_hand_type: None,
            },
            Some(PokerHandType::ThreeOfAKind),
        ),
        (
            PokerHand {
                cards: vec![
                    Card::new(5, Suite::Spade).unwrap(),
                    Card::new(6, Suite::Spade).unwrap(),
                    Card::new(6, Suite::Heart).unwrap(),
                    Card::new(5, Suite::Heart).unwrap(),
                    Card::new(5, Suite::Club).unwrap(),
                ],
                poker_hand_type: None,
            },
            Some(PokerHandType::FullHouse),
        ),
        (
            PokerHand {
                cards: vec![
                    Card::new(2, Suite::Spade).unwrap(),
                    Card::new(3, Suite::Spade).unwrap(),
                    Card::new(4, Suite::Spade).unwrap(),
                    Card::new(2, Suite::Heart).unwrap(),
                    Card::new(3, Suite::Heart).unwrap(),
                ],
                poker_hand_type: None,
            },
            Some(PokerHandType::TwoPair),
        ),
        (
            PokerHand {
                cards: vec![
                    Card::new(2, Suite::Spade).unwrap(),
                    Card::new(3, Suite::Spade).unwrap(),
                    Card::new(4, Suite::Spade).unwrap(),
                    Card::new(2, Suite::Heart).unwrap(),
                    Card::new(5, Suite::Heart).unwrap(),
                ],
                poker_hand_type: None,
            },
            Some(PokerHandType::Pair),
        ),
        (
            PokerHand {
                cards: vec![
                    Card::new(2, Suite::Spade).unwrap(),
                    Card::new(3, Suite::Spade).unwrap(),
                    Card::new(4, Suite::Spade).unwrap(),
                    Card::new(6, Suite::Spade).unwrap(),
                    Card::new(14, Suite::Spade).unwrap(),
                ],
                poker_hand_type: None,
            },
            Some(PokerHandType::Flush),
        ),
        (
            PokerHand {
                cards: vec![
                    Card::new(2, Suite::Spade).unwrap(),
                    Card::new(3, Suite::Spade).unwrap(),
                    Card::new(4, Suite::Spade).unwrap(),
                    Card::new(5, Suite::Spade).unwrap(),
                    Card::new(6, Suite::Spade).unwrap(),
                ],
                poker_hand_type: None,
            },
            Some(PokerHandType::StraightFlush),
        ),
        (
            PokerHand {
                cards: vec![
                    Card::new(14, Suite::Spade).unwrap(),
                    Card::new(13, Suite::Spade).unwrap(),
                    Card::new(12, Suite::Spade).unwrap(),
                    Card::new(11, Suite::Spade).unwrap(),
                    Card::new(10, Suite::Spade).unwrap(),
                ],
                poker_hand_type: None,
            },
            Some(PokerHandType::RoyalFlush),
        ),
        (
            PokerHand {
                cards: vec![
                    Card::new(2, Suite::Spade).unwrap(),
                    Card::new(3, Suite::Spade).unwrap(),
                    Card::new(4, Suite::Spade).unwrap(),
                    Card::new(5, Suite::Heart).unwrap(),
                    Card::new(6, Suite::Heart).unwrap(),
                ],
                poker_hand_type: None,
            },
            Some(PokerHandType::Straight),
        ),
        (
            PokerHand {
                cards: vec![
                    Card::new(2, Suite::Spade).unwrap(),
                    Card::new(3, Suite::Spade).unwrap(),
                    Card::new(4, Suite::Spade).unwrap(),
                    Card::new(5, Suite::Heart).unwrap(),
                    Card::new(14, Suite::Heart).unwrap(),
                ],
                poker_hand_type: None,
            },
            Some(PokerHandType::Straight),
        ),
        (
            PokerHand {
                cards: vec![
                    Card::new(2, Suite::Spade).unwrap(),
                    Card::new(3, Suite::Spade).unwrap(),
                    Card::new(14, Suite::Spade).unwrap(),
                    Card::new(5, Suite::Heart).unwrap(),
                    Card::new(6, Suite::Heart).unwrap(),
                ],
                poker_hand_type: Some(PokerHandType::FullHouse),
            },
            Some(PokerHandType::HighCard),
        ),
    ];

    for (mut hand, expected) in cases {
        let _ = hand.set_hand_type();
        assert_eq!(hand.poker_hand_type, expected);
    }
}

#[test]
fn test_have_straight() {
    let cases = vec![
        (
            PokerHand {
                cards: vec![
                    Card::new(2, Suite::Spade).unwrap(),
                    Card::new(3, Suite::Spade).unwrap(),
                    Card::new(4, Suite::Spade).unwrap(),
                    Card::new(5, Suite::Spade).unwrap(),
                    Card::new(6, Suite::Spade).unwrap(),
                ],
                poker_hand_type: None,
            },
            true,
        ),
        (
            PokerHand {
                cards: vec![
                    Card::new(2, Suite::Spade).unwrap(),
                    Card::new(3, Suite::Spade).unwrap(),
                    Card::new(4, Suite::Spade).unwrap(),
                    Card::new(5, Suite::Spade).unwrap(),
                    Card::new(14, Suite::Spade).unwrap(),
                ],
                poker_hand_type: None,
            },
            true,
        ),
        (
            PokerHand {
                cards: vec![
                    Card::new(5, Suite::Spade).unwrap(),
                    Card::new(6, Suite::Spade).unwrap(),
                    Card::new(7, Suite::Spade).unwrap(),
                    Card::new(8, Suite::Spade).unwrap(),
                    Card::new(9, Suite::Spade).unwrap(),
                ],
                poker_hand_type: None,
            },
            true,
        ),
        (
            PokerHand {
                cards: vec![
                    Card::new(2, Suite::Spade).unwrap(),
                    Card::new(3, Suite::Spade).unwrap(),
                    Card::new(4, Suite::Spade).unwrap(),
                    Card::new(5, Suite::Spade).unwrap(),
                    Card::new(7, Suite::Spade).unwrap(),
                ],
                poker_hand_type: None,
            },
            false,
        ),
    ];

    for (hand, expected) in cases {
        assert_eq!(hand.have_straight(), expected);
    }
}

#[test]
fn test_card_rank_histogram() {
    let mut hand = PokerHand::new();

    for x in [6, 8, 4, 4, 8] {
        let card = Card::new(x, Suite::Heart).unwrap();
        hand.add_card(card).unwrap();
    }

    let result = hand.card_rank_histogram();

    assert_eq!(result, vec![(8, 2), (4, 2), (6, 1)])
}

#[test]
fn test_have_flush_true() {
    let mut hand = PokerHand::new();

    for x in [6, 8, 4, 4, 8] {
        let card = Card::new(x, Suite::Heart).unwrap();
        hand.add_card(card).unwrap();
    }

    assert!(hand.have_flush());
}

#[test]
fn test_have_flush_false() {
    let mut hand = PokerHand::new();

    for x in [6, 8, 4, 4] {
        let card = Card::new(x, Suite::Heart).unwrap();
        hand.add_card(card).unwrap();
    }
    hand.add_card(Card::new(2, Suite::Spade).unwrap()).unwrap();

    assert_eq!(hand.have_flush(), false);
}
