//! The card model: suits, validated ranks, single cards, and the deck.

use rand::seq::SliceRandom;
use vstd::prelude::*;

verus! {

/// The lowest rank a card may carry.
pub const MIN_RANK: i8 = 2;

/// The highest rank a card may carry; it stands for the Ace.
pub const MAX_RANK: i8 = 14;

/// Raised when a value lies outside its known bounds: the offending
/// value, then the inclusive lower and upper bound.
#[derive(Debug, Clone, Copy, PartialEq, Eq, Structural)]
pub struct BoundError(pub i8, pub i8, pub i8);

/// One of the four card families. No ordering; used only for equality
/// and grouping.
#[derive(Debug, Clone, Copy, Hash, PartialEq, Eq, Structural)]
pub enum Suit {
    Hearts,
    Diamonds,
    Clubs,
    Spades,
}

/// A playing card. Immutable once constructed; the rank is validated at
/// construction and nowhere else needs to be.
#[derive(Debug, Clone, Copy, PartialEq, Eq, Structural)]
pub struct Card {
    rank: i8,
    suit: Suit,
}

impl Card {
    /// The rank, as a mathematical value.
    pub closed spec fn rank_spec(self) -> i8 {
        self.rank
    }

    /// The suit, as a mathematical value.
    pub closed spec fn suit_spec(self) -> Suit {
        self.suit
    }

    /// Every card's rank lies in the valid domain.
    #[verifier::type_invariant]
    pub open spec fn valid(self) -> bool {
        MIN_RANK <= self.rank_spec() <= MAX_RANK
    }

    /// Creates a new card with the rank and suit specified, and returns a
    /// `BoundError` if the rank is not a valid integer.
    pub fn new(rank: i8, suit: Suit) -> (res: Result<Self, BoundError>)
        ensures
            match res {
                Ok(c) => MIN_RANK <= rank <= MAX_RANK && c.rank_spec() == rank && c.suit_spec()
                    == suit,
                Err(e) => !(MIN_RANK <= rank <= MAX_RANK) && e == BoundError(
                    rank,
                    MIN_RANK,
                    MAX_RANK,
                ),
            },
    {
        if rank >= MIN_RANK && rank <= MAX_RANK {
            Ok(Self { rank, suit })
        } else {
            Err(BoundError(rank, MIN_RANK, MAX_RANK))
        }
    }

    /// Reads the rank back.
    pub fn rank(&self) -> (r: i8)
        ensures
            r == self.rank_spec(),
    {
        self.rank
    }

    /// Reads the suit back.
    pub fn suit(&self) -> (s: Suit)
        ensures
            s == self.suit_spec(),
    {
        self.suit
    }
}

/// A fixed position for each suit, used to index histograms and to
/// enumerate the suits in a loop.
pub open spec fn suit_index_spec(s: Suit) -> int {
    match s {
        Suit::Hearts => 0,
        Suit::Diamonds => 1,
        Suit::Clubs => 2,
        Suit::Spades => 3,
    }
}

/// No two suits share a position.
pub proof fn lemma_suit_index_injective(s1: Suit, s2: Suit)
    ensures
        suit_index_spec(s1) == suit_index_spec(s2) ==> s1 == s2,
{
    match s1 {
        Suit::Hearts => {},
        Suit::Diamonds => {},
        Suit::Clubs => {},
        Suit::Spades => {},
    }
}

/// The position a given suit sits at.
pub(crate) fn suit_index(s: Suit) -> (i: usize)
    ensures
        i as int == suit_index_spec(s),
{
    match s {
        Suit::Hearts => 0,
        Suit::Diamonds => 1,
        Suit::Clubs => 2,
        Suit::Spades => 3,
    }
}

/// The suit sitting at a given position.
pub(crate) fn suit_of_index(i: usize) -> (s: Suit)
    requires
        i < 4,
    ensures
        suit_index_spec(s) == i as int,
{
    if i == 0 {
        Suit::Hearts
    } else if i == 1 {
        Suit::Diamonds
    } else if i == 2 {
        Suit::Clubs
    } else {
        Suit::Spades
    }
}

/// How many cards of the sequence carry exactly this rank and suit.
pub open spec fn count_card(cards: Seq<Card>, rank: i8, suit: Suit) -> nat
    decreases cards.len(),
{
    if cards.len() == 0 {
        0
    } else {
        count_card(cards.drop_last(), rank, suit) + if cards.last().rank_spec() == rank
            && cards.last().suit_spec() == suit {
            1nat
        } else {
            0nat
        }
    }
}

/// Appending one card raises exactly its own (rank, suit) tally by one.
pub proof fn lemma_count_card_push(cards: Seq<Card>, c: Card, rank: i8, suit: Suit)
    ensures
        count_card(cards.push(c), rank, suit) == count_card(cards, rank, suit) + if c.rank_spec()
            == rank && c.suit_spec() == suit {
            1nat
        } else {
            0nat
        },
{
    assert(cards.push(c).drop_last() =~= cards);
}

/// A pile of cards taken out of play.
#[derive(Debug)]
pub struct Discard {
    pub pile: Vec<Card>,
}

/// A shoe of cards to deal from.
#[derive(Debug)]
pub struct Deck {
    pub shoe: Vec<Card>,
}

/// Relies on `rand::thread_rng`: returns a handle to the thread-local
/// generator, seeded by the system.
#[verifier::external_body]
fn fresh_rng() -> rand::rngs::ThreadRng {
    rand::thread_rng()
}

/// The thread-local generator of the `rand` crate, opaque to the verifier.
#[verifier::external_type_specification]
#[verifier::external_body]
pub struct ExThreadRng(rand::rngs::ThreadRng);

/// Relies on `rand::seq::SliceRandom::shuffle`: it reorders the slice in
/// place by Fisher-Yates swaps, so the elements are a permutation of the
/// ones it started with.
#[verifier::external_body]
fn shuffle_slice(cards: &mut Vec<Card>, rng: &mut rand::rngs::ThreadRng)
    ensures
        final(cards)@.to_multiset() == old(cards)@.to_multiset(),
        final(cards)@.len() == old(cards)@.len(),
{
    cards.as_mut_slice().shuffle(rng)
}

impl Deck {
    /// Creates a standard 52-card deck: one card for every rank and suit
    /// pairing, and nothing else.
    pub fn new() -> (d: Self)
        ensures
            d.shoe@.len() == 52,
            forall|rank: i8, suit: Suit|
                MIN_RANK <= rank <= MAX_RANK ==> #[trigger] count_card(d.shoe@, rank, suit) == 1,
    {
        let mut shoe: Vec<Card> = Vec::new();
        let mut rank: i8 = MIN_RANK;
        while rank <= MAX_RANK
            invariant
                MIN_RANK <= rank <= MAX_RANK + 1,
                shoe@.len() == (rank - MIN_RANK) * 4,
                forall|rr: i8, ss: Suit|
                    MIN_RANK <= rr <= MAX_RANK ==> #[trigger] count_card(shoe@, rr, ss) == (
                    if rr < rank {
                        1nat
                    } else {
                        0nat
                    }),
            decreases MAX_RANK + 1 - rank,
        {
            let mut i: usize = 0;
            while i < 4
                invariant
                    MIN_RANK <= rank <= MAX_RANK,
                    i <= 4,
                    shoe@.len() == (rank - MIN_RANK) * 4 + i,
                    forall|rr: i8, ss: Suit|
                        MIN_RANK <= rr <= MAX_RANK ==> #[trigger] count_card(shoe@, rr, ss) == (
                        if rr < rank || (rr == rank && suit_index_spec(ss) < i) {
                            1nat
                        } else {
                            0nat
                        }),
                decreases 4 - i,
            {
                let suit = suit_of_index(i);
                let c = Card { rank, suit };
                let ghost prev = shoe@;
                shoe.push(c);
                proof {
                    assert forall|rr: i8, ss: Suit| MIN_RANK <= rr <= MAX_RANK implies #[trigger] count_card(
                        shoe@,
                        rr,
                        ss,
                    ) == (if rr < rank || (rr == rank && suit_index_spec(ss) < i + 1) {
                        1nat
                    } else {
                        0nat
                    }) by {
                        lemma_count_card_push(prev, c, rr, ss);
                        lemma_suit_index_injective(ss, suit);
                    }
                }
                i = i + 1;
            }
            rank = rank + 1;
        }
        Self { shoe }
    }

    /// Reorders the shoe at random; the cards themselves are kept, only
    /// their order changes.
    pub fn shuffle(self) -> (d: Self)
        ensures
            d.shoe@.to_multiset() == self.shoe@.to_multiset(),
            d.shoe@.len() == self.shoe@.len(),
    {
        let mut this = self;
        let mut rng = fresh_rng();
        shuffle_slice(&mut this.shoe, &mut rng);
        this
    }
}

/// Anything that can flatten itself into one evaluable list of cards.
pub trait CardCollector {
    /// The cards the value flattens to, in order.
    spec fn spec_cards(&self) -> Seq<Card>;

    /// Flattens the value into one card list.
    fn collect_cards(&self) -> (v: Vec<Card>)
        ensures
            v@ == self.spec_cards(),
    ;
}

} // verus!
