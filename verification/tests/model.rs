use poker_hands::deck::BoundError;
use poker_hands::deck::Card;
use poker_hands::deck::CardCollector;
use poker_hands::deck::Deck;
use poker_hands::deck::Suit;
use poker_hands::poker_orderings::best_group_class;
use poker_hands::poker_orderings::create_hand_vector;
use poker_hands::poker_orderings::flush_suit;
use poker_hands::poker_orderings::hash_cards;
use poker_hands::poker_orderings::is_hand_flushable;
use poker_hands::poker_orderings::is_hand_straightable;
use poker_hands::poker_orderings::EvalError;
use poker_hands::poker_orderings::HandClass;
use poker_hands::texas_holdem::Community;

fn card(rank: i8, suit: Suit) -> Card {
    Card::new(rank, suit).unwrap()
}

const SUITS: [Suit; 4] = [Suit::Hearts, Suit::Diamonds, Suit::Clubs, Suit::Spades];

#[test]
fn test_card_roundtrip_valid_domain() {
    for rank in 2..15i8 {
        for suit in SUITS {
            let c = Card::new(rank, suit).unwrap();
            assert_eq!(c.rank(), rank);
            assert_eq!(c.suit(), suit);
        }
    }
}

#[test]
fn test_card_out_of_domain() {
    for rank in [-128, -1, 0, 1, 15, 100, 127i8] {
        let res = Card::new(rank, Suit::Hearts);
        assert_eq!(res, Err(BoundError(rank, 2, 14)));
        let e = res.unwrap_err();
        assert_eq!(e.0, rank);
        assert_eq!(e.1, 2);
        assert_eq!(e.2, 14);
    }
}

#[test]
fn test_deck_has_every_card_once() {
    let deck = Deck::new();
    assert_eq!(deck.shoe.len(), 52);
    for rank in 2..15i8 {
        for suit in SUITS {
            let n = deck.shoe.iter().filter(|c| c.rank() == rank && c.suit() == suit).count();
            assert_eq!(n, 1);
        }
    }
}

#[test]
fn test_shuffle_keeps_the_cards() {
    let deck = Deck::new().shuffle();
    assert_eq!(deck.shoe.len(), 52);
    for rank in 2..15i8 {
        for suit in SUITS {
            let n = deck.shoe.iter().filter(|c| c.rank() == rank && c.suit() == suit).count();
            assert_eq!(n, 1);
        }
    }
}

#[test]
fn test_collectors_flatten_in_order() {
    let hand = (card(5, Suit::Hearts), card(4, Suit::Spades));
    let hole = hand.collect_cards();
    assert_eq!(hole.len(), 2);
    assert_eq!((hole[0].rank(), hole[0].suit()), (5, Suit::Hearts));
    assert_eq!((hole[1].rank(), hole[1].suit()), (4, Suit::Spades));

    let community = Community {
        flop: (card(2, Suit::Clubs), card(3, Suit::Clubs), card(4, Suit::Clubs)),
        turn: card(5, Suit::Clubs),
        river: card(6, Suit::Clubs),
    };
    let shared = community.collect_cards();
    assert_eq!(shared.len(), 5);
    assert_eq!(shared[4].rank(), 6);

    let all = create_hand_vector(&hand, &community);
    assert_eq!(all.len(), 7);
    assert_eq!((all[0].rank(), all[0].suit()), (5, Suit::Hearts));
    assert_eq!((all[2].rank(), all[2].suit()), (2, Suit::Clubs));
}

#[test]
fn test_straight_detector() {
    let wheel = hash_cards(&vec![
        card(14, Suit::Hearts),
        card(2, Suit::Spades),
        card(3, Suit::Diamonds),
        card(4, Suit::Clubs),
        card(5, Suit::Hearts),
    ]);
    assert_eq!(is_hand_straightable(&wheel), Ok(true));

    let gap = hash_cards(&vec![
        card(2, Suit::Hearts),
        card(3, Suit::Spades),
        card(4, Suit::Diamonds),
        card(5, Suit::Clubs),
        card(7, Suit::Hearts),
    ]);
    assert_eq!(is_hand_straightable(&gap), Ok(false));

    let near_wheel_without_ace = hash_cards(&vec![
        card(2, Suit::Hearts),
        card(3, Suit::Spades),
        card(4, Suit::Diamonds),
        card(5, Suit::Clubs),
        card(13, Suit::Hearts),
    ]);
    assert_eq!(is_hand_straightable(&near_wheel_without_ace), Ok(false));
}

#[test]
fn test_flush_detector() {
    let hearts = vec![
        card(2, Suit::Hearts),
        card(5, Suit::Hearts),
        card(7, Suit::Hearts),
        card(9, Suit::Hearts),
        card(13, Suit::Hearts),
        card(3, Suit::Spades),
    ];
    let h = hash_cards(&hearts);
    assert_eq!(is_hand_flushable(&h), Ok(true));
    assert_eq!(flush_suit(&h), Ok(Some(Suit::Hearts)));

    let mixed = vec![
        card(2, Suit::Hearts),
        card(5, Suit::Spades),
        card(7, Suit::Diamonds),
        card(9, Suit::Clubs),
        card(13, Suit::Hearts),
    ];
    let m = hash_cards(&mixed);
    assert_eq!(is_hand_flushable(&m), Ok(false));
    assert_eq!(flush_suit(&m), Ok(None));

    let mut doubled = Vec::new();
    for r in 2..7i8 {
        doubled.push(card(r, Suit::Clubs));
        doubled.push(card(r, Suit::Diamonds));
    }
    let d = hash_cards(&doubled);
    assert_eq!(is_hand_flushable(&d), Ok(true));
    assert_eq!(flush_suit(&d), Err(EvalError::MultipleFlush));
}

#[test]
fn test_group_classifier() {
    let empty = hash_cards(&Vec::new());
    assert_eq!(best_group_class(&empty), Err(EvalError::EmptyGroup));

    let two_trips = hash_cards(&vec![
        card(14, Suit::Hearts),
        card(14, Suit::Spades),
        card(14, Suit::Diamonds),
        card(13, Suit::Hearts),
        card(13, Suit::Spades),
        card(13, Suit::Clubs),
        card(12, Suit::Hearts),
    ]);
    assert_eq!(best_group_class(&two_trips), Ok(HandClass::FullHouse));

    let lone_pair = hash_cards(&vec![
        card(14, Suit::Hearts),
        card(14, Suit::Spades),
        card(9, Suit::Diamonds),
        card(7, Suit::Hearts),
        card(3, Suit::Spades),
    ]);
    assert_eq!(best_group_class(&lone_pair), Ok(HandClass::Pair));
}
