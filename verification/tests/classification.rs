use poker_hands::deck::Card;
use poker_hands::deck::Suit;
use poker_hands::poker_orderings::create_hand_vector;
use poker_hands::poker_orderings::identify_hand_class;
use poker_hands::poker_orderings::EvalError;
use poker_hands::poker_orderings::HandClass;
use poker_hands::texas_holdem::Community;

fn card(rank: i8, suit: Suit) -> Card {
    Card::new(rank, suit).unwrap()
}

#[test]
fn test_card_hash() {
    let ace_hearts = card(14, Suit::Hearts);
    let two_hearts = card(2, Suit::Hearts);
    let two_diamonds = card(2, Suit::Diamonds);
    let three_hearts = card(3, Suit::Hearts);
    let four_hearts = card(4, Suit::Hearts);
    let five_hearts = card(5, Suit::Hearts);
    let six_clubs = card(6, Suit::Clubs);
    let four_clubs = card(4, Suit::Clubs);
    let four_diamonds = card(4, Suit::Diamonds);
    let four_spades = card(4, Suit::Spades);
    let ace_spades = card(14, Suit::Spades);
    let test_community_one = Community {
        flop: (ace_hearts, ace_spades, two_hearts),
        turn: three_hearts,
        river: four_hearts,
    };
    let test_hand_one = (five_hearts, four_spades);
    let test_hand_oneone = create_hand_vector(&test_hand_one, &test_community_one);
    let test_handclass_oneone = identify_hand_class(test_hand_oneone);
    assert_eq!(test_handclass_oneone, Ok(HandClass::StraightFlush));

    let test_hand_two = (four_clubs, four_diamonds);
    let test_hand_twoone = create_hand_vector(&test_hand_two, &test_community_one);
    let test_handclass_twoone = identify_hand_class(test_hand_twoone);
    assert_eq!(test_handclass_twoone, Ok(HandClass::FullHouse));

    let test_hand_three = (two_diamonds, six_clubs);
    let test_hand_threeone = create_hand_vector(&test_hand_three, &test_community_one);
    let test_handclass_threeone = identify_hand_class(test_hand_threeone);
    assert_eq!(test_handclass_threeone, Ok(HandClass::TwoPair));
}

#[test]
fn test_royal_flush() {
    // {10s, Js, Qs, Ks, As, 2h, 2d}: the spades subset is the run ten to Ace.
    let cards = vec![
        card(10, Suit::Spades),
        card(11, Suit::Spades),
        card(12, Suit::Spades),
        card(13, Suit::Spades),
        card(14, Suit::Spades),
        card(2, Suit::Hearts),
        card(2, Suit::Diamonds),
    ];
    assert_eq!(identify_hand_class(cards), Ok(HandClass::RoyalFlush));
}

#[test]
fn test_full_house_second_max() {
    // {2h, 2d, 2c, 5s, 5d, 9c, Kh}: trips of twos plus a pair of fives.
    let cards = vec![
        card(2, Suit::Hearts),
        card(2, Suit::Diamonds),
        card(2, Suit::Clubs),
        card(5, Suit::Spades),
        card(5, Suit::Diamonds),
        card(9, Suit::Clubs),
        card(13, Suit::Hearts),
    ];
    assert_eq!(identify_hand_class(cards), Ok(HandClass::FullHouse));
}

#[test]
fn test_wheel_straight_mixed_suits() {
    // Ranks {A, 2, 3, 4, 5} across four suits, no suit reaching five.
    let cards = vec![
        card(14, Suit::Hearts),
        card(2, Suit::Spades),
        card(3, Suit::Diamonds),
        card(4, Suit::Clubs),
        card(5, Suit::Hearts),
    ];
    assert_eq!(identify_hand_class(cards), Ok(HandClass::Straight));
}

#[test]
fn test_two_trips_is_full_house() {
    // Two distinct ranks of count three plus a singleton, seven cards.
    let cards = vec![
        card(14, Suit::Hearts),
        card(14, Suit::Spades),
        card(14, Suit::Diamonds),
        card(13, Suit::Hearts),
        card(13, Suit::Spades),
        card(13, Suit::Clubs),
        card(12, Suit::Hearts),
    ];
    assert_eq!(identify_hand_class(cards), Ok(HandClass::FullHouse));
}

#[test]
fn test_uncombined_straight_and_flush_is_flush() {
    // A straight across mixed suits and a heart flush whose subset holds
    // no five-card run: the two must not combine into a straight flush.
    let cards = vec![
        card(2, Suit::Hearts),
        card(4, Suit::Hearts),
        card(6, Suit::Hearts),
        card(8, Suit::Hearts),
        card(10, Suit::Hearts),
        card(5, Suit::Spades),
        card(7, Suit::Diamonds),
    ];
    // Ranks {2, 4, 5, 6, 7, 8, 10} hold the run 4..8.
    assert_eq!(identify_hand_class(cards), Ok(HandClass::Flush));
}

#[test]
fn test_quads_beat_flush() {
    // Four aces beside a heart flush: explicit priority keeps quads above
    // the flush even when both are satisfiable at once.
    let cards = vec![
        card(14, Suit::Hearts),
        card(14, Suit::Spades),
        card(14, Suit::Diamonds),
        card(14, Suit::Clubs),
        card(2, Suit::Hearts),
        card(3, Suit::Hearts),
        card(4, Suit::Hearts),
        card(6, Suit::Hearts),
        card(8, Suit::Hearts),
    ];
    assert_eq!(identify_hand_class(cards), Ok(HandClass::FourOfAKind));
}

#[test]
fn test_straight_flush_not_royal() {
    // The wheel run all in hearts is a straight flush, not royal.
    let cards = vec![
        card(14, Suit::Hearts),
        card(2, Suit::Hearts),
        card(3, Suit::Hearts),
        card(4, Suit::Hearts),
        card(5, Suit::Hearts),
        card(13, Suit::Spades),
        card(9, Suit::Diamonds),
    ];
    assert_eq!(identify_hand_class(cards), Ok(HandClass::StraightFlush));
}

#[test]
fn test_high_straight_mixed_suits() {
    let cards = vec![
        card(10, Suit::Hearts),
        card(11, Suit::Spades),
        card(12, Suit::Diamonds),
        card(13, Suit::Clubs),
        card(14, Suit::Hearts),
    ];
    assert_eq!(identify_hand_class(cards), Ok(HandClass::Straight));
}

#[test]
fn test_group_classes() {
    let quads = vec![
        card(9, Suit::Hearts),
        card(9, Suit::Spades),
        card(9, Suit::Diamonds),
        card(9, Suit::Clubs),
        card(2, Suit::Hearts),
    ];
    assert_eq!(identify_hand_class(quads), Ok(HandClass::FourOfAKind));

    let trips = vec![
        card(9, Suit::Hearts),
        card(9, Suit::Spades),
        card(9, Suit::Diamonds),
        card(2, Suit::Clubs),
        card(5, Suit::Hearts),
    ];
    assert_eq!(identify_hand_class(trips), Ok(HandClass::ThreeOfAKind));

    let two_pair = vec![
        card(9, Suit::Hearts),
        card(9, Suit::Spades),
        card(5, Suit::Diamonds),
        card(5, Suit::Clubs),
        card(2, Suit::Hearts),
    ];
    assert_eq!(identify_hand_class(two_pair), Ok(HandClass::TwoPair));

    let pair = vec![
        card(9, Suit::Hearts),
        card(9, Suit::Spades),
        card(5, Suit::Diamonds),
        card(4, Suit::Clubs),
        card(2, Suit::Hearts),
    ];
    assert_eq!(identify_hand_class(pair), Ok(HandClass::Pair));

    let high_card = vec![
        card(9, Suit::Hearts),
        card(7, Suit::Spades),
        card(5, Suit::Diamonds),
        card(4, Suit::Clubs),
        card(2, Suit::Hearts),
    ];
    assert_eq!(identify_hand_class(high_card), Ok(HandClass::HighCard));
}

#[test]
fn test_classify_deterministic() {
    let build = || {
        vec![
            card(9, Suit::Hearts),
            card(9, Suit::Spades),
            card(5, Suit::Diamonds),
            card(5, Suit::Clubs),
            card(2, Suit::Hearts),
        ]
    };
    let first = identify_hand_class(build());
    let second = identify_hand_class(build());
    assert!(first.is_ok());
    assert_eq!(first, second);
}

#[test]
fn test_too_few_cards() {
    let cards = vec![
        card(9, Suit::Hearts),
        card(9, Suit::Spades),
        card(5, Suit::Diamonds),
        card(5, Suit::Clubs),
    ];
    assert_eq!(identify_hand_class(cards), Err(EvalError::TooFewCards));
}

#[test]
fn test_oversized_group_error() {
    // Five copies of the same card cannot come from one deck; the group
    // classifier must refuse them rather than guess a category.
    let cards = vec![
        card(14, Suit::Spades),
        card(14, Suit::Spades),
        card(14, Suit::Spades),
        card(14, Suit::Spades),
        card(14, Suit::Spades),
    ];
    assert_eq!(identify_hand_class(cards), Err(EvalError::OversizedGroup));
}

#[test]
fn test_multiple_flush_error() {
    // Two suits of five cards each: malformed for this engine's callers,
    // surfaced as an error rather than an arbitrary pick.
    let mut cards = Vec::new();
    for r in 2..7i8 {
        cards.push(card(r, Suit::Hearts));
        cards.push(card(r, Suit::Spades));
    }
    assert_eq!(identify_hand_class(cards), Err(EvalError::MultipleFlush));
}

#[test]
fn test_strength_order() {
    let order = [
        HandClass::HighCard,
        HandClass::Pair,
        HandClass::TwoPair,
        HandClass::ThreeOfAKind,
        HandClass::Straight,
        HandClass::Flush,
        HandClass::FullHouse,
        HandClass::FourOfAKind,
        HandClass::StraightFlush,
        HandClass::RoyalFlush,
    ];
    for (i, class) in order.iter().enumerate() {
        assert_eq!(class.strength() as usize, i);
    }
    for pair in order.windows(2) {
        assert!(pair[0].strength() < pair[1].strength());
        assert!(pair[0] < pair[1]);
    }
}
