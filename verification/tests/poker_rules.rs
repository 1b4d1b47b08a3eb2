use cardkit::arrange::sort_descending;
use cardkit::arrange::split_by_rank;
use cardkit::card::Card;
use cardkit::card::Suite;
use cardkit::category::PokerHandType;
use cardkit::error::HandError;
use cardkit::hand::PokerHand;
use cardkit::histogram::tally_ranks;
use cardkit::ranks::sorted_ranks;
use std::cmp::Ordering;

const SUITS: [Suite; 4] = [Suite::Heart, Suite::Club, Suite::Spade, Suite::Diamond];

fn card(rank: u8, suit: Suite) -> Card {
    Card::new(rank, suit).unwrap()
}

fn hand_of(cards: &[(u8, Suite)]) -> PokerHand {
    let mut hand = PokerHand::new();
    for (rank, suit) in cards {
        hand.add_card(card(*rank, *suit)).unwrap();
    }
    hand
}

fn faces(cards: &[Card]) -> Vec<(u8, Suite)> {
    cards.iter().map(|c| (c.rank(), c.suit())).collect()
}

fn ordered(cards: &[(u8, Suite)]) -> (Option<PokerHandType>, Vec<(u8, Suite)>) {
    let mut hand = hand_of(cards);
    assert_eq!(hand.sort_hand(), Ok(()));
    (hand.poker_hand_type, faces(&hand.cards))
}

#[test]
fn every_rank_and_suit_makes_a_card() {
    for rank in 2..=14u8 {
        for suit in SUITS {
            let c = Card::new(rank, suit).unwrap();
            assert_eq!(c.rank(), rank);
            assert_eq!(c.suit(), suit);
        }
    }
}

#[test]
fn ranks_out_of_range_make_no_card() {
    for rank in [0u8, 1, 15, 16, 100, 255] {
        for suit in SUITS {
            assert_eq!(Card::new(rank, suit).err(), Some(HandError::InvalidRank));
        }
    }
}

#[test]
fn higher_rank_is_the_lesser_card() {
    for a in 2..=14u8 {
        for b in 2..=14u8 {
            let x = card(a, Suite::Heart);
            let y = card(b, Suite::Spade);
            let expected = if a > b {
                Ordering::Less
            } else if a < b {
                Ordering::Greater
            } else {
                Ordering::Equal
            };
            assert_eq!(x.partial_cmp(&y), Some(expected));
            assert_eq!(x < y, a > b);
            assert_eq!(x > y, a < b);
            assert_eq!(x == y, a == b);
        }
    }
}

#[test]
fn ace_sorts_before_deuce() {
    assert!(card(14, Suite::Club) < card(2, Suite::Club));
    assert!(!(card(2, Suite::Club) < card(14, Suite::Club)));
}

#[test]
fn equality_ignores_the_suit() {
    assert!(card(9, Suite::Club) == card(9, Suite::Diamond));
    assert!(card(9, Suite::Club) != card(10, Suite::Club));
}

#[test]
fn rank_labels() {
    let expected = ["2", "3", "4", "5", "6", "7", "8", "9", "10", "J", "Q", "K", "A"];
    for rank in 2..=14u8 {
        assert_eq!(card(rank, Suite::Heart).rank_label(), expected[(rank - 2) as usize]);
    }
}

#[test]
fn new_hand_is_empty_and_unclassified() {
    let hand = PokerHand::new();
    assert_eq!(hand.cards.len(), 0);
    assert_eq!(hand.poker_hand_type, None);
}

#[test]
fn add_card_appends_in_order() {
    let mut hand = PokerHand::new();
    assert_eq!(hand.add_card(card(7, Suite::Club)), Ok(()));
    assert_eq!(hand.add_card(card(3, Suite::Heart)), Ok(()));
    assert_eq!(faces(&hand.cards), vec![(7, Suite::Club), (3, Suite::Heart)]);
    assert_eq!(hand.poker_hand_type, None);
}

#[test]
fn add_card_to_a_full_hand_fails_and_leaves_it() {
    let mut hand = hand_of(&[
        (2, Suite::Heart),
        (9, Suite::Club),
        (4, Suite::Heart),
        (14, Suite::Spade),
        (6, Suite::Diamond),
    ]);
    hand.set_hand_type().unwrap();
    let before = faces(&hand.cards);
    for rank in 2..=14u8 {
        assert_eq!(hand.add_card(card(rank, Suite::Club)), Err(HandError::MaxHandExceeded));
        assert_eq!(faces(&hand.cards), before);
        assert_eq!(hand.poker_hand_type, Some(PokerHandType::HighCard));
    }
}

#[test]
fn histogram_counts_and_orders() {
    let hand = hand_of(&[
        (6, Suite::Heart),
        (8, Suite::Club),
        (4, Suite::Heart),
        (4, Suite::Spade),
        (8, Suite::Diamond),
    ]);
    assert_eq!(hand.card_rank_histogram(), vec![(8, 2), (4, 2), (6, 1)]);
    assert_eq!(tally_ranks(&hand.cards), vec![(8, 2), (4, 2), (6, 1)]);
}

#[test]
fn histogram_edges() {
    assert_eq!(PokerHand::new().card_rank_histogram(), Vec::<(u8, usize)>::new());
    let one = hand_of(&[(11, Suite::Heart)]);
    assert_eq!(one.card_rank_histogram(), vec![(11, 1)]);
    let distinct = hand_of(&[
        (3, Suite::Heart),
        (14, Suite::Heart),
        (2, Suite::Heart),
        (10, Suite::Heart),
        (7, Suite::Heart),
    ]);
    assert_eq!(distinct.card_rank_histogram(), vec![(14, 1), (10, 1), (7, 1), (3, 1), (2, 1)]);
    let same = hand_of(&[
        (7, Suite::Heart),
        (7, Suite::Club),
        (7, Suite::Spade),
        (7, Suite::Diamond),
        (7, Suite::Heart),
    ]);
    assert_eq!(same.card_rank_histogram(), vec![(7, 5)]);
    let house = hand_of(&[
        (14, Suite::Heart),
        (2, Suite::Club),
        (14, Suite::Spade),
        (2, Suite::Diamond),
        (2, Suite::Heart),
    ]);
    assert_eq!(house.card_rank_histogram(), vec![(2, 3), (14, 2)]);
}

#[test]
fn flush_needs_every_suit_to_agree() {
    for suit in SUITS {
        let ranks = [6u8, 8, 4, 4, 8];
        let all: Vec<(u8, Suite)> = ranks.iter().map(|r| (*r, suit)).collect();
        assert!(hand_of(&all).have_flush());
        for odd in 0..5 {
            for other in SUITS {
                if other != suit {
                    let mut mixed = all.clone();
                    mixed[odd].1 = other;
                    assert!(!hand_of(&mixed).have_flush());
                }
            }
        }
    }
}

#[test]
fn straight_scenarios() {
    let s = Suite::Club;
    assert!(hand_of(&[(2, s), (3, s), (4, s), (5, s), (6, s)]).have_straight());
    assert!(hand_of(&[(2, s), (3, s), (4, s), (5, s), (14, s)]).have_straight());
    assert!(!hand_of(&[(2, s), (3, s), (4, s), (5, s), (7, s)]).have_straight());
    assert!(hand_of(&[(12, s), (10, s), (14, s), (11, s), (13, s)]).have_straight());
    assert!(hand_of(&[(14, s), (5, s), (3, s), (2, s), (4, s)]).have_straight());
    assert!(!hand_of(&[(14, s), (13, s), (2, s), (3, s), (4, s)]).have_straight());
    assert!(!hand_of(&[(2, s), (2, s), (3, s), (4, s), (5, s)]).have_straight());
    assert!(!hand_of(&[(9, s), (9, s), (9, s), (9, s), (9, s)]).have_straight());
    assert!(hand_of(&[(9, s)]).have_straight());
    assert!(hand_of(&[(9, s), (8, s)]).have_straight());
    assert!(!hand_of(&[(9, s), (7, s)]).have_straight());
}

#[test]
fn sorted_ranks_are_ascending() {
    let hand = hand_of(&[
        (9, Suite::Heart),
        (2, Suite::Club),
        (14, Suite::Heart),
        (9, Suite::Spade),
        (3, Suite::Diamond),
    ]);
    assert_eq!(sorted_ranks(&hand.cards), vec![2, 3, 9, 9, 14]);
    assert_eq!(sorted_ranks(&Vec::new()), Vec::<u8>::new());
}

#[test]
fn classify_scenarios() {
    let cases: Vec<(Vec<(u8, Suite)>, PokerHandType)> = vec![
        (
            vec![
                (2, Suite::Heart),
                (2, Suite::Club),
                (2, Suite::Spade),
                (2, Suite::Diamond),
                (3, Suite::Heart),
            ],
            PokerHandType::FourOfAKind,
        ),
        (
            vec![
                (5, Suite::Heart),
                (5, Suite::Club),
                (5, Suite::Spade),
                (6, Suite::Diamond),
                (6, Suite::Heart),
            ],
            PokerHandType::FullHouse,
        ),
        (
            vec![
                (2, Suite::Heart),
                (2, Suite::Club),
                (3, Suite::Spade),
                (3, Suite::Diamond),
                (4, Suite::Heart),
            ],
            PokerHandType::TwoPair,
        ),
        (
            vec![
                (2, Suite::Club),
                (3, Suite::Club),
                (4, Suite::Club),
                (6, Suite::Club),
                (14, Suite::Club),
            ],
            PokerHandType::Flush,
        ),
        (
            vec![
                (10, Suite::Diamond),
                (11, Suite::Diamond),
                (12, Suite::Diamond),
                (13, Suite::Diamond),
                (14, Suite::Diamond),
            ],
            PokerHandType::RoyalFlush,
        ),
        (
            vec![
                (2, Suite::Heart),
                (3, Suite::Heart),
                (4, Suite::Heart),
                (5, Suite::Heart),
                (6, Suite::Heart),
            ],
            PokerHandType::StraightFlush,
        ),
        (
            vec![
                (9, Suite::Heart),
                (10, Suite::Heart),
                (11, Suite::Heart),
                (12, Suite::Heart),
                (13, Suite::Heart),
            ],
            PokerHandType::StraightFlush,
        ),
        (
            vec![
                (2, Suite::Heart),
                (3, Suite::Club),
                (4, Suite::Heart),
                (5, Suite::Spade),
                (14, Suite::Heart),
            ],
            PokerHandType::Straight,
        ),
        (
            vec![
                (10, Suite::Heart),
                (11, Suite::Club),
                (12, Suite::Heart),
                (13, Suite::Spade),
                (14, Suite::Heart),
            ],
            PokerHandType::Straight,
        ),
        (
            vec![
                (9, Suite::Heart),
                (9, Suite::Club),
                (12, Suite::Heart),
                (13, Suite::Spade),
                (14, Suite::Heart),
            ],
            PokerHandType::Pair,
        ),
        (
            vec![
                (9, Suite::Heart),
                (9, Suite::Club),
                (9, Suite::Spade),
                (13, Suite::Spade),
                (14, Suite::Heart),
            ],
            PokerHandType::ThreeOfAKind,
        ),
        (
            vec![
                (2, Suite::Heart),
                (9, Suite::Club),
                (4, Suite::Spade),
                (13, Suite::Spade),
                (14, Suite::Heart),
            ],
            PokerHandType::HighCard,
        ),
    ];
    for (cards, expected) in cases {
        let mut hand = hand_of(&cards);
        assert_eq!(hand.set_hand_type(), Ok(()));
        assert_eq!(hand.poker_hand_type, Some(expected));
        assert_eq!(faces(&hand.cards), cards);
    }
}

#[test]
fn five_cards_of_one_rank_fall_through_to_the_last_rule() {
    let mut mixed = hand_of(&[
        (7, Suite::Heart),
        (7, Suite::Club),
        (7, Suite::Spade),
        (7, Suite::Diamond),
        (7, Suite::Heart),
    ]);
    assert_eq!(mixed.set_hand_type(), Ok(()));
    assert_eq!(mixed.poker_hand_type, Some(PokerHandType::HighCard));
    let mut suited = hand_of(&[
        (7, Suite::Heart),
        (7, Suite::Heart),
        (7, Suite::Heart),
        (7, Suite::Heart),
        (7, Suite::Heart),
    ]);
    assert_eq!(suited.set_hand_type(), Ok(()));
    assert_eq!(suited.poker_hand_type, Some(PokerHandType::Flush));
}

#[test]
fn classifying_twice_finds_the_same() {
    let mut hand = hand_of(&[
        (5, Suite::Heart),
        (5, Suite::Club),
        (5, Suite::Spade),
        (6, Suite::Diamond),
        (6, Suite::Heart),
    ]);
    assert_eq!(hand.set_hand_type(), Ok(()));
    let first = hand.poker_hand_type;
    let cards = faces(&hand.cards);
    assert_eq!(hand.set_hand_type(), Ok(()));
    assert_eq!(hand.poker_hand_type, first);
    assert_eq!(faces(&hand.cards), cards);
}

#[test]
fn wrong_card_count_is_reported_and_changes_nothing() {
    for n in [0usize, 1, 2, 3, 4] {
        let cards: Vec<(u8, Suite)> = (0..n).map(|i| (2 + i as u8, Suite::Spade)).collect();
        let mut hand = hand_of(&cards);
        assert_eq!(hand.set_hand_type(), Err(HandError::WrongCardCount));
        assert_eq!(hand.poker_hand_type, None);
        assert_eq!(faces(&hand.cards), cards);
        assert_eq!(hand.sort_hand(), Err(HandError::WrongCardCount));
        assert_eq!(hand.poker_hand_type, None);
        assert_eq!(faces(&hand.cards), cards);
    }
    let mut noted = PokerHand {
        cards: vec![card(2, Suite::Heart)],
        poker_hand_type: Some(PokerHandType::Pair),
    };
    assert_eq!(noted.set_hand_type(), Err(HandError::WrongCardCount));
    assert_eq!(noted.poker_hand_type, Some(PokerHandType::Pair));
    assert_eq!(noted.sort_hand(), Err(HandError::WrongCardCount));
    assert_eq!(noted.poker_hand_type, Some(PokerHandType::Pair));
}

#[test]
fn wheel_is_laid_out_with_the_ace_last() {
    let (category, cards) = ordered(&[
        (2, Suite::Heart),
        (3, Suite::Club),
        (4, Suite::Heart),
        (5, Suite::Spade),
        (14, Suite::Heart),
    ]);
    assert_eq!(category, Some(PokerHandType::Straight));
    assert_eq!(
        cards,
        vec![
            (5, Suite::Spade),
            (4, Suite::Heart),
            (3, Suite::Club),
            (2, Suite::Heart),
            (14, Suite::Heart),
        ]
    );
    let (category, cards) = ordered(&[
        (14, Suite::Club),
        (3, Suite::Club),
        (5, Suite::Club),
        (2, Suite::Club),
        (4, Suite::Club),
    ]);
    assert_eq!(category, Some(PokerHandType::StraightFlush));
    assert_eq!(
        cards,
        vec![
            (5, Suite::Club),
            (4, Suite::Club),
            (3, Suite::Club),
            (2, Suite::Club),
            (14, Suite::Club),
        ]
    );
}

#[test]
fn straights_and_plain_hands_are_laid_out_from_the_top() {
    let (category, cards) = ordered(&[
        (3, Suite::Spade),
        (6, Suite::Heart),
        (2, Suite::Spade),
        (5, Suite::Heart),
        (4, Suite::Spade),
    ]);
    assert_eq!(category, Some(PokerHandType::Straight));
    assert_eq!(
        cards,
        vec![
            (6, Suite::Heart),
            (5, Suite::Heart),
            (4, Suite::Spade),
            (3, Suite::Spade),
            (2, Suite::Spade),
        ]
    );
    let (category, cards) = ordered(&[
        (11, Suite::Spade),
        (14, Suite::Spade),
        (10, Suite::Spade),
        (13, Suite::Spade),
        (12, Suite::Spade),
    ]);
    assert_eq!(category, Some(PokerHandType::RoyalFlush));
    assert_eq!(
        cards,
        vec![
            (14, Suite::Spade),
            (13, Suite::Spade),
            (12, Suite::Spade),
            (11, Suite::Spade),
            (10, Suite::Spade),
        ]
    );
    let (category, cards) = ordered(&[
        (2, Suite::Spade),
        (3, Suite::Spade),
        (4, Suite::Spade),
        (6, Suite::Spade),
        (14, Suite::Spade),
    ]);
    assert_eq!(category, Some(PokerHandType::Flush));
    assert_eq!(
        cards,
        vec![
            (14, Suite::Spade),
            (6, Suite::Spade),
            (4, Suite::Spade),
            (3, Suite::Spade),
            (2, Suite::Spade),
        ]
    );
    let (category, cards) = ordered(&[
        (2, Suite::Spade),
        (3, Suite::Spade),
        (14, Suite::Spade),
        (5, Suite::Heart),
        (6, Suite::Heart),
    ]);
    assert_eq!(category, Some(PokerHandType::HighCard));
    assert_eq!(
        cards,
        vec![
            (14, Suite::Spade),
            (6, Suite::Heart),
            (5, Suite::Heart),
            (3, Suite::Spade),
            (2, Suite::Spade),
        ]
    );
}

#[test]
fn ace_high_hand_with_a_five_keeps_the_ace_first_unless_a_straight() {
    let (category, cards) = ordered(&[
        (5, Suite::Spade),
        (14, Suite::Spade),
        (2, Suite::Spade),
        (3, Suite::Spade),
        (9, Suite::Heart),
    ]);
    assert_eq!(category, Some(PokerHandType::HighCard));
    assert_eq!(cards[0], (14, Suite::Spade));
    let (category, cards) = ordered(&[
        (5, Suite::Spade),
        (14, Suite::Spade),
        (2, Suite::Spade),
        (3, Suite::Spade),
        (4, Suite::Spade),
    ]);
    assert_eq!(category, Some(PokerHandType::StraightFlush));
    assert_eq!(cards[4], (14, Suite::Spade));
    let (category, cards) = ordered(&[
        (5, Suite::Spade),
        (14, Suite::Spade),
        (2, Suite::Spade),
        (3, Suite::Spade),
        (8, Suite::Spade),
    ]);
    assert_eq!(category, Some(PokerHandType::Flush));
    assert_eq!(
        cards,
        vec![
            (14, Suite::Spade),
            (8, Suite::Spade),
            (5, Suite::Spade),
            (3, Suite::Spade),
            (2, Suite::Spade),
        ]
    );
}

#[test]
fn groups_come_first_in_the_order_they_stood() {
    let (category, cards) = ordered(&[
        (2, Suite::Spade),
        (5, Suite::Heart),
        (2, Suite::Heart),
        (3, Suite::Club),
        (4, Suite::Diamond),
    ]);
    assert_eq!(category, Some(PokerHandType::Pair));
    assert_eq!(
        cards,
        vec![
            (2, Suite::Spade),
            (2, Suite::Heart),
            (5, Suite::Heart),
            (4, Suite::Diamond),
            (3, Suite::Club),
        ]
    );
    let (category, cards) = ordered(&[
        (2, Suite::Spade),
        (3, Suite::Spade),
        (2, Suite::Heart),
        (2, Suite::Diamond),
        (14, Suite::Spade),
    ]);
    assert_eq!(category, Some(PokerHandType::ThreeOfAKind));
    assert_eq!(
        cards,
        vec![
            (2, Suite::Spade),
            (2, Suite::Heart),
            (2, Suite::Diamond),
            (14, Suite::Spade),
            (3, Suite::Spade),
        ]
    );
    let (category, cards) = ordered(&[
        (2, Suite::Spade),
        (3, Suite::Spade),
        (2, Suite::Heart),
        (2, Suite::Diamond),
        (2, Suite::Club),
    ]);
    assert_eq!(category, Some(PokerHandType::FourOfAKind));
    assert_eq!(
        cards,
        vec![
            (2, Suite::Spade),
            (2, Suite::Heart),
            (2, Suite::Diamond),
            (2, Suite::Club),
            (3, Suite::Spade),
        ]
    );
}

#[test]
fn two_groups_come_larger_or_higher_first() {
    let (category, cards) = ordered(&[
        (5, Suite::Spade),
        (6, Suite::Spade),
        (6, Suite::Heart),
        (5, Suite::Heart),
        (5, Suite::Club),
    ]);
    assert_eq!(category, Some(PokerHandType::FullHouse));
    assert_eq!(
        cards,
        vec![
            (5, Suite::Spade),
            (5, Suite::Heart),
            (5, Suite::Club),
            (6, Suite::Spade),
            (6, Suite::Heart),
        ]
    );
    let (category, cards) = ordered(&[
        (2, Suite::Spade),
        (3, Suite::Spade),
        (4, Suite::Spade),
        (2, Suite::Heart),
        (3, Suite::Heart),
    ]);
    assert_eq!(category, Some(PokerHandType::TwoPair));
    assert_eq!(
        cards,
        vec![
            (3, Suite::Spade),
            (3, Suite::Heart),
            (2, Suite::Spade),
            (2, Suite::Heart),
            (4, Suite::Spade),
        ]
    );
    let (category, cards) = ordered(&[
        (14, Suite::Spade),
        (3, Suite::Spade),
        (9, Suite::Spade),
        (9, Suite::Heart),
        (3, Suite::Heart),
    ]);
    assert_eq!(category, Some(PokerHandType::TwoPair));
    assert_eq!(
        cards,
        vec![
            (9, Suite::Spade),
            (9, Suite::Heart),
            (3, Suite::Spade),
            (3, Suite::Heart),
            (14, Suite::Spade),
        ]
    );
}

#[test]
fn equal_ranks_keep_their_order_when_sorted() {
    let (category, cards) = ordered(&[
        (7, Suite::Heart),
        (7, Suite::Club),
        (7, Suite::Spade),
        (7, Suite::Diamond),
        (7, Suite::Heart),
    ]);
    assert_eq!(category, Some(PokerHandType::HighCard));
    assert_eq!(
        cards,
        vec![
            (7, Suite::Heart),
            (7, Suite::Club),
            (7, Suite::Spade),
            (7, Suite::Diamond),
            (7, Suite::Heart),
        ]
    );
    let mut cards = vec![
        card(4, Suite::Club),
        card(9, Suite::Heart),
        card(4, Suite::Diamond),
        card(9, Suite::Spade),
        card(14, Suite::Club),
        card(4, Suite::Heart),
    ];
    sort_descending(&mut cards);
    assert_eq!(
        faces(&cards),
        vec![
            (14, Suite::Club),
            (9, Suite::Heart),
            (9, Suite::Spade),
            (4, Suite::Club),
            (4, Suite::Diamond),
            (4, Suite::Heart),
        ]
    );
    let mut none: Vec<Card> = Vec::new();
    sort_descending(&mut none);
    assert!(none.is_empty());
}

#[test]
fn split_by_rank_keeps_both_parts_in_order() {
    let cards = vec![
        card(4, Suite::Club),
        card(9, Suite::Heart),
        card(4, Suite::Diamond),
        card(2, Suite::Spade),
    ];
    let (chosen, others) = split_by_rank(&cards, 4);
    assert_eq!(faces(&chosen), vec![(4, Suite::Club), (4, Suite::Diamond)]);
    assert_eq!(faces(&others), vec![(9, Suite::Heart), (2, Suite::Spade)]);
    let (chosen, others) = split_by_rank(&cards, 5);
    assert!(chosen.is_empty());
    assert_eq!(faces(&others), faces(&cards));
}

#[test]
fn ordering_a_hand_again_changes_nothing() {
    let hands: Vec<Vec<(u8, Suite)>> = vec![
        vec![
            (2, Suite::Heart),
            (3, Suite::Club),
            (4, Suite::Heart),
            (5, Suite::Spade),
            (14, Suite::Heart),
        ],
        vec![
            (2, Suite::Spade),
            (3, Suite::Spade),
            (4, Suite::Spade),
            (2, Suite::Heart),
            (3, Suite::Heart),
        ],
        vec![
            (5, Suite::Spade),
            (6, Suite::Spade),
            (6, Suite::Heart),
            (5, Suite::Heart),
            (5, Suite::Club),
        ],
        vec![
            (2, Suite::Spade),
            (5, Suite::Heart),
            (2, Suite::Heart),
            (3, Suite::Club),
            (4, Suite::Diamond),
        ],
    ];
    for cards in hands {
        let mut hand = hand_of(&cards);
        assert_eq!(hand.sort_hand(), Ok(()));
        let category = hand.poker_hand_type;
        let once = faces(&hand.cards);
        assert_eq!(hand.sort_hand(), Ok(()));
        assert_eq!(hand.poker_hand_type, category);
        assert_eq!(faces(&hand.cards), once);
        let mut kept = once.clone();
        kept.sort_by_key(|f| (f.0, format!("{:?}", f.1)));
        let mut given = cards.clone();
        given.sort_by_key(|f| (f.0, format!("{:?}", f.1)));
        assert_eq!(kept, given);
    }
}

#[test]
fn categories_run_from_strongest_to_weakest() {
    let all = [
        PokerHandType::RoyalFlush,
        PokerHandType::StraightFlush,
        PokerHandType::FourOfAKind,
        PokerHandType::FullHouse,
        PokerHandType::Flush,
        PokerHandType::Straight,
        PokerHandType::ThreeOfAKind,
        PokerHandType::TwoPair,
        PokerHandType::Pair,
        PokerHandType::HighCard,
    ];
    for (i, a) in all.iter().enumerate() {
        assert_eq!(a.strength_index() as usize, i);
        for b in all.iter() {
            assert_eq!(a.cmp(b), a.strength_index().cmp(&b.strength_index()));
        }
    }
}
