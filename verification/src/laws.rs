//! Properties of the classification engine, stated and proved over the
//! same spec functions the executable contracts use.

use crate::deck::Card;
use crate::deck::Suit;
use crate::deck::MAX_RANK;
use crate::deck::MIN_RANK;
use crate::poker_orderings::count_in_suit;
use crate::poker_orderings::count_rank;
use crate::poker_orderings::count_suit;
use crate::poker_orderings::has_count;
use crate::poker_orderings::has_group_pair;
use crate::poker_orderings::is_flush_suit;
use crate::poker_orderings::lemma_royal_implies_straight;
use crate::poker_orderings::rank_present;
use crate::poker_orderings::spec_any_flush;
use crate::poker_orderings::spec_classify;
use crate::poker_orderings::spec_flush_suit_of;
use crate::poker_orderings::spec_identify;
use crate::poker_orderings::spec_multiple_flush;
use crate::poker_orderings::spec_royal_in_suit;
use crate::poker_orderings::spec_straight_in_suit;
use crate::poker_orderings::spec_straightable;
use crate::poker_orderings::straight_at;
use crate::poker_orderings::EvalError;
use crate::poker_orderings::HandClass;
use vstd::prelude::*;

verus! {

/// Every card of the sequence carries a rank in the valid domain; true of
/// any sequence built from constructed cards.
pub open spec fn valid_cards(cards: Seq<Card>) -> bool {
    forall|i: int| 0 <= i < cards.len() ==> (#[trigger] cards[i]).valid()
}

/// No two positions hold the same card: a set drawn from one deck.
pub open spec fn distinct_cards(cards: Seq<Card>) -> bool {
    forall|i: int, j: int|
        0 <= i < j < cards.len() ==> !((#[trigger] cards[i]).rank_spec() == (
        #[trigger] cards[j]).rank_spec() && cards[i].suit_spec() == cards[j].suit_spec())
}

/// Two distinct suits cannot together count more cards than the set holds.
proof fn lemma_suit_pair_le(cards: Seq<Card>, s1: Suit, s2: Suit)
    requires
        s1 != s2,
    ensures
        count_suit(cards, s1) + count_suit(cards, s2) <= cards.len(),
    decreases cards.len(),
{
    if cards.len() > 0 {
        lemma_suit_pair_le(cards.drop_last(), s1, s2);
    }
}

/// A rank's tally splits into the four suit-restricted tallies.
proof fn lemma_count_rank_split(cards: Seq<Card>, rank: int)
    ensures
        count_rank(cards, rank) == count_in_suit(cards, Suit::Hearts, rank) + count_in_suit(
            cards,
            Suit::Diamonds,
            rank,
        ) + count_in_suit(cards, Suit::Clubs, rank) + count_in_suit(cards, Suit::Spades, rank),
    decreases cards.len(),
{
    if cards.len() > 0 {
        lemma_count_rank_split(cards.drop_last(), rank);
        match cards.last().suit_spec() {
            Suit::Hearts => {},
            Suit::Diamonds => {},
            Suit::Clubs => {},
            Suit::Spades => {},
        }
    }
}

/// A positive suit-restricted tally names a position holding that card.
proof fn lemma_count_in_suit_member(cards: Seq<Card>, suit: Suit, rank: int)
    requires
        count_in_suit(cards, suit, rank) > 0,
    ensures
        exists|i: int|
            0 <= i < cards.len() && (#[trigger] cards[i]).suit_spec() == suit
                && cards[i].rank_spec() as int == rank,
    decreases cards.len(),
{
    if cards.last().suit_spec() == suit && cards.last().rank_spec() as int == rank {
        assert(cards[cards.len() - 1] == cards.last());
    } else {
        lemma_count_in_suit_member(cards.drop_last(), suit, rank);
        let i = choose|i: int|
            0 <= i < cards.drop_last().len() && (#[trigger] cards.drop_last()[i]).suit_spec()
                == suit && cards.drop_last()[i].rank_spec() as int == rank;
        assert(cards.drop_last()[i] == cards[i]);
    }
}

/// In a set of pairwise distinct cards, no (suit, rank) pair occurs twice.
proof fn lemma_distinct_count_in_suit(cards: Seq<Card>, suit: Suit, rank: int)
    requires
        distinct_cards(cards),
    ensures
        count_in_suit(cards, suit, rank) <= 1,
    decreases cards.len(),
{
    if cards.len() > 0 {
        let rest = cards.drop_last();
        assert(distinct_cards(rest)) by {
            assert forall|i: int, j: int| 0 <= i < j < rest.len() implies !((
            #[trigger] rest[i]).rank_spec() == (#[trigger] rest[j]).rank_spec()
                && rest[i].suit_spec() == rest[j].suit_spec()) by {
                assert(rest[i] == cards[i] && rest[j] == cards[j]);
            }
        }
        lemma_distinct_count_in_suit(rest, suit, rank);
        if cards.last().suit_spec() == suit && cards.last().rank_spec() as int == rank {
            if count_in_suit(rest, suit, rank) > 0 {
                lemma_count_in_suit_member(rest, suit, rank);
                let i = choose|i: int|
                    0 <= i < rest.len() && (#[trigger] rest[i]).suit_spec() == suit
                        && rest[i].rank_spec() as int == rank;
                assert(rest[i] == cards[i]);
                assert(cards[cards.len() - 1] == cards.last());
                assert(false);
            }
        }
    }
}

/// In a set of pairwise distinct cards, no rank occurs more than four
/// times: once per suit at most.
proof fn lemma_distinct_rank_bound(cards: Seq<Card>, rank: int)
    requires
        distinct_cards(cards),
    ensures
        count_rank(cards, rank) <= 4,
{
    lemma_count_rank_split(cards, rank);
    lemma_distinct_count_in_suit(cards, Suit::Hearts, rank);
    lemma_distinct_count_in_suit(cards, Suit::Diamonds, rank);
    lemma_distinct_count_in_suit(cards, Suit::Clubs, rank);
    lemma_distinct_count_in_suit(cards, Suit::Spades, rank);
}

/// Four distinct ranks cannot together count more cards than the set holds.
proof fn lemma_sum4(cards: Seq<Card>, a: int, b: int, c: int, d: int)
    requires
        a != b && a != c && a != d && b != c && b != d && c != d,
    ensures
        count_rank(cards, a) + count_rank(cards, b) + count_rank(cards, c) + count_rank(cards, d)
            <= cards.len(),
    decreases cards.len(),
{
    if cards.len() > 0 {
        lemma_sum4(cards.drop_last(), a, b, c, d);
    }
}

/// Five distinct ranks cannot together count more cards than the set holds.
proof fn lemma_sum5(cards: Seq<Card>, a: int, b: int, c: int, d: int, e: int)
    requires
        a != b && a != c && a != d && a != e && b != c && b != d && b != e && c != d && c != e && d
            != e,
    ensures
        count_rank(cards, a) + count_rank(cards, b) + count_rank(cards, c) + count_rank(cards, d)
            + count_rank(cards, e) <= cards.len(),
    decreases cards.len(),
{
    if cards.len() > 0 {
        lemma_sum5(cards.drop_last(), a, b, c, d, e);
    }
}

/// Totality and determinism: a hand of five to seven pairwise distinct,
/// well-formed cards is always classified — no error case applies — and
/// the result is the single class [`spec_classify`] assigns, so two calls
/// on equal inputs return equal outputs.
pub proof fn lemma_classify_total(cards: Seq<Card>)
    requires
        5 <= cards.len() <= 7,
        valid_cards(cards),
        distinct_cards(cards),
    ensures
        spec_identify(cards) == Ok::<HandClass, EvalError>(spec_classify(cards)),
{
    assert(!spec_multiple_flush(cards)) by {
        if spec_multiple_flush(cards) {
            let (s1, s2) = choose|s1: Suit, s2: Suit|
                s1 != s2 && is_flush_suit(cards, s1) && is_flush_suit(cards, s2);
            lemma_suit_pair_le(cards, s1, s2);
            assert(false);
        }
    }
    assert(has_count(cards, 1)) by {
        let c = cards.last();
        assert(cards[cards.len() - 1] == c);
        assert(c.valid());
        assert(count_rank(cards, c.rank_spec() as int) >= 1);
    }
    assert(!has_count(cards, 5)) by {
        if has_count(cards, 5) {
            let r = choose|r: int|
                MIN_RANK <= r <= MAX_RANK && #[trigger] count_rank(cards, r) >= 5;
            lemma_distinct_rank_bound(cards, r);
            assert(false);
        }
    }
}

/// Priority correctness: when a straight and a flush hold of separate
/// cards — the flush suit contains no five-card run — the hand is never
/// read as a straight or royal flush; the quads / full house / flush
/// fallback applies, so the class is at least a flush.
pub proof fn lemma_uncombined_priority(cards: Seq<Card>)
    requires
        spec_any_flush(cards),
        spec_straightable(cards),
        !spec_straight_in_suit(cards, spec_flush_suit_of(cards)),
    ensures
        spec_classify(cards) != HandClass::StraightFlush,
        spec_classify(cards) != HandClass::RoyalFlush,
        spec_classify(cards).spec_strength() >= HandClass::Flush.spec_strength(),
{
    if spec_royal_in_suit(cards, spec_flush_suit_of(cards)) {
        lemma_royal_implies_straight(cards, spec_flush_suit_of(cards));
        assert(false);
    }
}

/// The wheel straight: a set of at most seven cards whose present ranks
/// are exactly {2, 3, 4, 5, Ace} and in which no suit reaches five cards
/// classifies as a straight, the Ace playing low.
pub proof fn lemma_wheel_straight(cards: Seq<Card>)
    requires
        cards.len() <= 7,
        forall|r: int|
            MIN_RANK <= r <= MAX_RANK ==> (#[trigger] count_rank(cards, r) > 0 <==> (r == 2 || r
                == 3 || r == 4 || r == 5 || r == 14)),
        forall|s: Suit| #[trigger] count_suit(cards, s) < 5,
    ensures
        spec_classify(cards) == HandClass::Straight,
        spec_identify(cards) == Ok::<HandClass, EvalError>(HandClass::Straight),
{
    lemma_sum5(cards, 2, 3, 4, 5, 14);
    assert(count_rank(cards, 2) >= 1);
    assert(count_rank(cards, 3) >= 1);
    assert(count_rank(cards, 4) >= 1);
    assert(count_rank(cards, 5) >= 1);
    assert(count_rank(cards, 14) >= 1);
    assert(cards.len() >= 5);
    assert(!spec_any_flush(cards)) by {
        if spec_any_flush(cards) {
            let s = choose|s: Suit| is_flush_suit(cards, s);
            assert(count_suit(cards, s) < 5);
            assert(false);
        }
    }
    assert(!spec_multiple_flush(cards)) by {
        if spec_multiple_flush(cards) {
            let (s1, s2) = choose|s1: Suit, s2: Suit|
                s1 != s2 && is_flush_suit(cards, s1) && is_flush_suit(cards, s2);
            assert(count_suit(cards, s1) < 5);
            assert(false);
        }
    }
    assert(straight_at(cards, 1)) by {
        assert forall|rr: int| 1 <= rr < 6 implies #[trigger] rank_present(cards, rr) by {}
    }
    assert(spec_straightable(cards));
    assert forall|r: int| MIN_RANK <= r <= MAX_RANK implies #[trigger] count_rank(cards, r)
        <= 3 by {
        if count_rank(cards, r) > 3 {
            assert(r == 2 || r == 3 || r == 4 || r == 5 || r == 14);
            assert(false);
        }
    }
    assert(!has_count(cards, 4)) by {
        if has_count(cards, 4) {
            let r = choose|r: int|
                MIN_RANK <= r <= MAX_RANK && #[trigger] count_rank(cards, r) >= 4;
            assert(false);
        }
    }
    assert(!has_count(cards, 5)) by {
        if has_count(cards, 5) {
            let r = choose|r: int|
                MIN_RANK <= r <= MAX_RANK && #[trigger] count_rank(cards, r) >= 5;
            assert(false);
        }
    }
    assert(!has_group_pair(cards, 3, 2)) by {
        if has_group_pair(cards, 3, 2) {
            let (r1, r2) = choose|r1: int, r2: int|
                MIN_RANK <= r1 <= MAX_RANK && MIN_RANK <= r2 <= MAX_RANK && r1 != r2
                    && #[trigger] count_rank(cards, r1) >= 3 && #[trigger] count_rank(cards, r2)
                    >= 2;
            assert(r1 == 2 || r1 == 3 || r1 == 4 || r1 == 5 || r1 == 14);
            assert(r2 == 2 || r2 == 3 || r2 == 4 || r2 == 5 || r2 == 14);
            assert(false);
        }
    }
    assert(has_count(cards, 1));
}

/// A tie in group counts: seven cards holding two distinct ranks of count
/// three and one singleton classify as a full house — three cards of the
/// second rank's trip serve as the pair.
pub proof fn lemma_two_trips_full_house(cards: Seq<Card>, r1: int, r2: int, r3: int)
    requires
        cards.len() == 7,
        MIN_RANK <= r1 <= MAX_RANK,
        MIN_RANK <= r2 <= MAX_RANK,
        MIN_RANK <= r3 <= MAX_RANK,
        r1 != r2 && r1 != r3 && r2 != r3,
        count_rank(cards, r1) == 3,
        count_rank(cards, r2) == 3,
        count_rank(cards, r3) == 1,
    ensures
        spec_classify(cards) == HandClass::FullHouse,
        spec_identify(cards) == Ok::<HandClass, EvalError>(HandClass::FullHouse),
{
    assert forall|r0: int|
        MIN_RANK <= r0 <= MAX_RANK && r0 != r1 && r0 != r2 && r0 != r3 implies #[trigger] count_rank(
        cards,
        r0,
    ) == 0 by {
        lemma_sum4(cards, r0, r1, r2, r3);
    }
    assert(has_group_pair(cards, 3, 2)) by {
        assert(count_rank(cards, r1) >= 3 && count_rank(cards, r2) >= 2);
    }
    assert(has_count(cards, 1)) by {
        assert(count_rank(cards, r1) >= 1);
    }
    assert(!has_count(cards, 4)) by {
        if has_count(cards, 4) {
            let r = choose|r: int|
                MIN_RANK <= r <= MAX_RANK && #[trigger] count_rank(cards, r) >= 4;
            assert(r == r1 || r == r2 || r == r3);
            assert(false);
        }
    }
    assert(!has_count(cards, 5)) by {
        if has_count(cards, 5) {
            let r = choose|r: int|
                MIN_RANK <= r <= MAX_RANK && #[trigger] count_rank(cards, r) >= 5;
            assert(r == r1 || r == r2 || r == r3);
            assert(false);
        }
    }
    assert(!spec_straightable(cards)) by {
        if spec_straightable(cards) {
            let lo = choose|lo: int| 1 <= lo <= 10 && straight_at(cards, lo);
            assert(rank_present(cards, lo));
            assert(rank_present(cards, lo + 1));
            assert(rank_present(cards, lo + 2));
            assert(rank_present(cards, lo + 3));
            assert(rank_present(cards, lo + 4));
            assert(false);
        }
    }
    assert(!spec_multiple_flush(cards)) by {
        if spec_multiple_flush(cards) {
            let (s1, s2) = choose|s1: Suit, s2: Suit|
                s1 != s2 && is_flush_suit(cards, s1) && is_flush_suit(cards, s2);
            lemma_suit_pair_le(cards, s1, s2);
            assert(false);
        }
    }
}

} // verus!
