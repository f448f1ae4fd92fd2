//! The classification engine: rank and suit histograms, the straight,
//! flush and group detectors, the straight-flush resolver, and the
//! orchestrator that assigns one of the ten hand categories by explicit
//! priority.

use crate::deck::lemma_suit_index_injective;
use crate::deck::suit_index;
use crate::deck::suit_index_spec;
use crate::deck::Card;
use crate::deck::CardCollector;
use crate::deck::Suit;
use crate::deck::MAX_RANK;
use crate::deck::MIN_RANK;
use crate::texas_holdem::Community;
use crate::texas_holdem::PlayerHand;
use vstd::prelude::*;

verus! {

/// The ten standard hand categories, weakest first. The declaration order
/// is the priority order the orchestrator resolves by, made explicit by
/// [`HandClass::strength`].
#[derive(Debug, Clone, Copy, PartialEq, Eq, PartialOrd, Ord, Hash, Structural)]
pub enum HandClass {
    HighCard,
    Pair,
    TwoPair,
    ThreeOfAKind,
    Straight,
    Flush,
    FullHouse,
    FourOfAKind,
    StraightFlush,
    RoyalFlush,
}

impl HandClass {
    /// The category's place in the strength order, weakest = 0.
    pub open spec fn spec_strength(self) -> int {
        match self {
            HandClass::HighCard => 0,
            HandClass::Pair => 1,
            HandClass::TwoPair => 2,
            HandClass::ThreeOfAKind => 3,
            HandClass::Straight => 4,
            HandClass::Flush => 5,
            HandClass::FullHouse => 6,
            HandClass::FourOfAKind => 7,
            HandClass::StraightFlush => 8,
            HandClass::RoyalFlush => 9,
        }
    }

    /// The category's place in the strength order, weakest = 0; two
    /// classification results compare by this number.
    pub fn strength(&self) -> (n: u8)
        ensures
            n as int == self.spec_strength(),
    {
        match self {
            HandClass::HighCard => 0,
            HandClass::Pair => 1,
            HandClass::TwoPair => 2,
            HandClass::ThreeOfAKind => 3,
            HandClass::Straight => 4,
            HandClass::Flush => 5,
            HandClass::FullHouse => 6,
            HandClass::FourOfAKind => 7,
            HandClass::StraightFlush => 8,
            HandClass::RoyalFlush => 9,
        }
    }
}

/// Why a classification failed; a failed classification is always
/// distinguishable from a weak but valid hand.
#[derive(Debug, Clone, Copy, PartialEq, Eq, Structural)]
pub enum EvalError {
    /// Fewer than five cards were handed in.
    TooFewCards,
    /// Two or more suits each reach five cards; impossible for a card set
    /// of at most nine cards, so the input was malformed.
    MultipleFlush,
    /// The rank histogram is empty; the input had no cards at all.
    EmptyGroup,
    /// Some rank occurs more than four times; impossible for cards drawn
    /// from one deck, so the input was malformed.
    OversizedGroup,
}

/// How many cards of the sequence carry exactly this rank.
pub open spec fn count_rank(cards: Seq<Card>, rank: int) -> nat
    decreases cards.len(),
{
    if cards.len() == 0 {
        0
    } else {
        count_rank(cards.drop_last(), rank) + if cards.last().rank_spec() as int == rank {
            1nat
        } else {
            0nat
        }
    }
}

/// How many cards of the sequence carry exactly this suit.
pub open spec fn count_suit(cards: Seq<Card>, suit: Suit) -> nat
    decreases cards.len(),
{
    if cards.len() == 0 {
        0
    } else {
        count_suit(cards.drop_last(), suit) + if cards.last().suit_spec() == suit {
            1nat
        } else {
            0nat
        }
    }
}

/// How many cards of the sequence carry exactly this suit and rank.
pub open spec fn count_in_suit(cards: Seq<Card>, suit: Suit, rank: int) -> nat
    decreases cards.len(),
{
    if cards.len() == 0 {
        0
    } else {
        count_in_suit(cards.drop_last(), suit, rank) + if cards.last().suit_spec() == suit
            && cards.last().rank_spec() as int == rank {
            1nat
        } else {
            0nat
        }
    }
}

/// The per-evaluation summary of one card set: a rank histogram and a suit
/// histogram, built once and never mutated. The histograms always agree
/// with the (ghost) card set they were built from.
pub struct CardHash {
    rank_counts: Vec<usize>,
    suit_counts: Vec<usize>,
    cards: Ghost<Seq<Card>>,
}

impl CardHash {
    /// The card set this summary was built from.
    pub closed spec fn cards_spec(self) -> Seq<Card> {
        self.cards@
    }

    #[verifier::type_invariant]
    spec fn wf(self) -> bool {
        &&& self.rank_counts@.len() == 15
        &&& self.suit_counts@.len() == 4
        &&& forall|r: int|
            MIN_RANK <= r <= MAX_RANK ==> self.rank_counts@[r] as nat == #[trigger] count_rank(
                self.cards@,
                r,
            )
        &&& forall|s: Suit|
            self.suit_counts@[suit_index_spec(s)] as nat == #[trigger] count_suit(self.cards@, s)
    }
}

/// A vector of `n` zeroed counters.
fn zero_counts(n: usize) -> (v: Vec<usize>)
    ensures
        v@.len() == n as int,
        forall|i: int| 0 <= i < n ==> v@[i] == 0,
{
    let mut v: Vec<usize> = Vec::new();
    while v.len() < n
        invariant
            v@.len() <= n,
            forall|i: int| 0 <= i < v@.len() ==> v@[i] == 0,
        decreases n - v@.len(),
    {
        v.push(0);
    }
    v
}

/// Builds the two histograms of a card set in a single pass: for each
/// card, its rank's counter and its suit's counter go up by one.
pub fn hash_cards(cards: &Vec<Card>) -> (h: CardHash)
    ensures
        h.cards_spec() == cards@,
{
    let mut rank_counts: Vec<usize> = zero_counts(15);
    let mut suit_counts: Vec<usize> = zero_counts(4);
    let mut idx: usize = 0;
    proof {
        assert(cards@.take(0) =~= Seq::<Card>::empty());
    }
    while idx < cards.len()
        invariant
            idx <= cards@.len(),
            rank_counts@.len() == 15,
            suit_counts@.len() == 4,
            forall|r: int| 0 <= r < 15 ==> rank_counts@[r] <= idx,
            forall|j: int| 0 <= j < 4 ==> suit_counts@[j] <= idx,
            forall|r: int|
                MIN_RANK <= r <= MAX_RANK ==> rank_counts@[r] as nat == #[trigger] count_rank(
                    cards@.take(idx as int),
                    r,
                ),
            forall|s: Suit|
                suit_counts@[suit_index_spec(s)] as nat == #[trigger] count_suit(
                    cards@.take(idx as int),
                    s,
                ),
        decreases cards@.len() - idx,
    {
        let c = cards[idx];
        proof {
            use_type_invariant(&c);
        }
        let rank_idx = c.rank() as usize;
        rank_counts[rank_idx] = rank_counts[rank_idx] + 1;
        let s_idx = suit_index(c.suit());
        suit_counts[s_idx] = suit_counts[s_idx] + 1;
        proof {
            let prev = cards@.take(idx as int);
            let next = cards@.take(idx as int + 1);
            assert(next.drop_last() =~= prev);
            assert(next.last() == c);
            assert forall|r: int| MIN_RANK <= r <= MAX_RANK implies rank_counts@[r] as nat
                == #[trigger] count_rank(next, r) by {
                assert(count_rank(next, r) == count_rank(prev, r) + if c.rank_spec() as int == r {
                    1nat
                } else {
                    0nat
                });
            }
            assert forall|s: Suit| suit_counts@[suit_index_spec(s)] as nat == #[trigger] count_suit(
                next,
                s,
            ) by {
                lemma_suit_index_injective(s, c.suit_spec());
                assert(count_suit(next, s) == count_suit(prev, s) + if c.suit_spec() == s {
                    1nat
                } else {
                    0nat
                });
            }
        }
        idx = idx + 1;
    }
    proof {
        assert(cards@.take(cards@.len() as int) =~= cards@);
    }
    CardHash { rank_counts, suit_counts, cards: Ghost(cards@) }
}

/// Whether some card of the set carries this rank. Rank 1 is the Ace
/// played low: it is an alias for rank 14, used only while looking for
/// straights, never a stored value.
pub open spec fn rank_present(cards: Seq<Card>, rank: int) -> bool {
    if rank == 1 {
        count_rank(cards, 14) > 0
    } else {
        count_rank(cards, rank) > 0
    }
}

/// Five consecutive ranks are present, starting at `lo`.
pub open spec fn straight_at(cards: Seq<Card>, lo: int) -> bool {
    forall|rr: int| lo <= rr < lo + 5 ==> #[trigger] rank_present(cards, rr)
}

/// Five consecutive ranks are present somewhere, the wheel (Ace played
/// low, `lo == 1`) included.
pub open spec fn spec_straightable(cards: Seq<Card>) -> bool {
    exists|lo: int| 1 <= lo <= 10 && straight_at(cards, lo)
}

/// Whether some card of the set carries this rank within this suit, with
/// the same Ace-low alias as [`rank_present`].
pub open spec fn rank_present_in_suit(cards: Seq<Card>, suit: Suit, rank: int) -> bool {
    if rank == 1 {
        count_in_suit(cards, suit, 14) > 0
    } else {
        count_in_suit(cards, suit, rank) > 0
    }
}

/// Five consecutive ranks are present within this suit, starting at `lo`.
pub open spec fn straight_in_suit_at(cards: Seq<Card>, suit: Suit, lo: int) -> bool {
    forall|rr: int| lo <= rr < lo + 5 ==> #[trigger] rank_present_in_suit(cards, suit, rr)
}

/// Five consecutive ranks are present somewhere within this suit.
pub open spec fn spec_straight_in_suit(cards: Seq<Card>, suit: Suit) -> bool {
    exists|lo: int| 1 <= lo <= 10 && straight_in_suit_at(cards, suit, lo)
}

/// The run ten to Ace is present within this suit: a royal flush.
pub open spec fn spec_royal_in_suit(cards: Seq<Card>, suit: Suit) -> bool {
    forall|r: int| 10 <= r <= 14 ==> count_in_suit(cards, suit, r) > 0
}

/// Presence over a bare rank histogram, with the same Ace-low alias.
pub open spec fn counts_present(rc: Seq<usize>, rank: int) -> bool
    recommends
        rc.len() == 15,
{
    if rank == 1 {
        rc[14] > 0
    } else {
        rc[rank] > 0
    }
}

/// Five consecutive histogram entries are positive, starting at `lo`.
pub open spec fn counts_straight_at(rc: Seq<usize>, lo: int) -> bool {
    forall|rr: int| lo <= rr < lo + 5 ==> #[trigger] counts_present(rc, rr)
}

/// Five consecutive histogram entries are positive somewhere.
pub open spec fn counts_straightable(rc: Seq<usize>) -> bool {
    exists|lo: int| 1 <= lo <= 10 && counts_straight_at(rc, lo)
}

/// The scan of the straight detector, shared with the straight-flush
/// resolver: walk the ranks upward keeping the length of the current run
/// of present ranks; a run of five is a straight, and the wheel is checked
/// separately because the Ace sorts at the top, not below the two.
fn straight_scan(counts: &Vec<usize>) -> (res: bool)
    requires
        counts@.len() == 15,
    ensures
        res == counts_straightable(counts@),
{
    let mut run: usize = 0;
    let mut r: usize = 2;
    while r <= 14
        invariant
            counts@.len() == 15,
            2 <= r <= 15,
            run <= 4,
            run <= r - 2,
            forall|rr: int| r - run <= rr < r ==> counts@[rr] > 0,
            run == r - 2 || counts@[r - 1 - run] == 0,
            forall|lo: int| 2 <= lo && lo + 4 < r ==> !counts_straight_at(counts@, lo),
        decreases 15 - r,
    {
        let ghost old_run: usize = run;
        if counts[r] > 0 {
            run = run + 1;
            if run >= 5 {
                proof {
                    let lo = r as int - 4;
                    assert(counts_straight_at(counts@, lo)) by {
                        assert forall|rr: int| lo <= rr < lo + 5 implies counts_present(
                            counts@,
                            rr,
                        ) by {
                            if rr < r as int {
                                assert(counts@[rr] > 0);
                            }
                        }
                    }
                    assert(counts_straightable(counts@));
                }
                return true;
            }
        } else {
            run = 0;
        }
        proof {
            let lo = r as int - 4;
            if lo >= 2 && counts_straight_at(counts@, lo) {
                assert(counts_present(counts@, lo + 4));
                assert(old_run <= 3);
                assert(counts_present(counts@, lo + (3 - old_run)));
                assert(false);
            }
        }
        r = r + 1;
    }
    let wheel = counts[2] > 0 && counts[3] > 0 && counts[4] > 0 && counts[5] > 0 && counts[14] > 0;
    proof {
        if wheel {
            assert(counts_straight_at(counts@, 1)) by {
                assert forall|rr: int| 1 <= rr < 6 implies counts_present(counts@, rr) by {}
            }
            assert(counts_straightable(counts@));
        } else {
            if counts_straightable(counts@) {
                let lo = choose|lo: int| 1 <= lo <= 10 && counts_straight_at(counts@, lo);
                if lo == 1 {
                    assert(counts_present(counts@, 1));
                    assert(counts_present(counts@, 2));
                    assert(counts_present(counts@, 3));
                    assert(counts_present(counts@, 4));
                    assert(counts_present(counts@, 5));
                    assert(false);
                } else {
                    assert(!counts_straight_at(counts@, lo));
                    assert(false);
                }
            }
        }
    }
    wheel
}

/// A histogram that agrees with the rank tallies of a card set finds the
/// same straights in both readings.
proof fn lemma_rank_scan_bridge(rc: Seq<usize>, cards: Seq<Card>)
    requires
        rc.len() == 15,
        forall|r: int| MIN_RANK <= r <= MAX_RANK ==> rc[r] as nat == #[trigger] count_rank(cards, r),
    ensures
        counts_straightable(rc) == spec_straightable(cards),
{
    assert forall|lo: int| 1 <= lo <= 10 implies (counts_straight_at(rc, lo) <==> straight_at(
        cards,
        lo,
    )) by {
        assert forall|rr: int| lo <= rr < lo + 5 implies (counts_present(rc, rr) <==> rank_present(
            cards,
            rr,
        )) by {}
        if counts_straight_at(rc, lo) {
            assert forall|rr: int| lo <= rr < lo + 5 implies rank_present(cards, rr) by {
                assert(counts_present(rc, rr));
            }
        }
        if straight_at(cards, lo) {
            assert forall|rr: int| lo <= rr < lo + 5 implies counts_present(rc, rr) by {
                assert(rank_present(cards, rr));
            }
        }
    }
    if counts_straightable(rc) {
        let lo = choose|lo: int| 1 <= lo <= 10 && counts_straight_at(rc, lo);
        assert(straight_at(cards, lo));
        assert(spec_straightable(cards));
    }
    if spec_straightable(cards) {
        let lo = choose|lo: int| 1 <= lo <= 10 && straight_at(cards, lo);
        assert(counts_straight_at(rc, lo));
        assert(counts_straightable(rc));
    }
}

/// A histogram that agrees with the rank tallies of one suit's cards
/// finds the same straights as the suit-restricted reading.
proof fn lemma_suit_scan_bridge(rc: Seq<usize>, cards: Seq<Card>, suit: Suit)
    requires
        rc.len() == 15,
        forall|r: int|
            MIN_RANK <= r <= MAX_RANK ==> rc[r] as nat == #[trigger] count_in_suit(cards, suit, r),
    ensures
        counts_straightable(rc) == spec_straight_in_suit(cards, suit),
{
    assert forall|lo: int| 1 <= lo <= 10 implies (counts_straight_at(rc, lo)
        <==> straight_in_suit_at(cards, suit, lo)) by {
        assert forall|rr: int| lo <= rr < lo + 5 implies (counts_present(rc, rr)
            <==> rank_present_in_suit(cards, suit, rr)) by {}
        if counts_straight_at(rc, lo) {
            assert forall|rr: int| lo <= rr < lo + 5 implies rank_present_in_suit(
                cards,
                suit,
                rr,
            ) by {
                assert(counts_present(rc, rr));
            }
        }
        if straight_in_suit_at(cards, suit, lo) {
            assert forall|rr: int| lo <= rr < lo + 5 implies counts_present(rc, rr) by {
                assert(rank_present_in_suit(cards, suit, rr));
            }
        }
    }
    if counts_straightable(rc) {
        let lo = choose|lo: int| 1 <= lo <= 10 && counts_straight_at(rc, lo);
        assert(straight_in_suit_at(cards, suit, lo));
        assert(spec_straight_in_suit(cards, suit));
    }
    if spec_straight_in_suit(cards, suit) {
        let lo = choose|lo: int| 1 <= lo <= 10 && straight_in_suit_at(cards, suit, lo);
        assert(counts_straight_at(rc, lo));
        assert(counts_straightable(rc));
    }
}

/// Determines whether five consecutive ranks are present among the rank
/// histogram's keys, the low-Ace wheel included.
pub fn is_hand_straightable(h: &CardHash) -> (res: Result<bool, EvalError>)
    ensures
        res == Ok::<bool, EvalError>(spec_straightable(h.cards_spec())),
{
    proof {
        use_type_invariant(&*h);
    }
    let found = straight_scan(&h.rank_counts);
    proof {
        lemma_rank_scan_bridge(h.rank_counts@, h.cards_spec());
    }
    Ok(found)
}

/// A suit reaches five or more cards of the set: a flush in that suit.
pub open spec fn is_flush_suit(cards: Seq<Card>, suit: Suit) -> bool {
    count_suit(cards, suit) >= 5
}

/// Some suit reaches five cards.
pub open spec fn spec_any_flush(cards: Seq<Card>) -> bool {
    exists|s: Suit| is_flush_suit(cards, s)
}

/// Two distinct suits each reach five cards; impossible for a set of at
/// most nine cards, so it signals a malformed input.
pub open spec fn spec_multiple_flush(cards: Seq<Card>) -> bool {
    exists|s1: Suit, s2: Suit| s1 != s2 && is_flush_suit(cards, s1) && is_flush_suit(cards, s2)
}

/// The suit of the flush, meaningful when exactly one suit reaches five.
pub open spec fn spec_flush_suit_of(cards: Seq<Card>) -> Suit {
    choose|s: Suit| is_flush_suit(cards, s)
}

/// Every suit is one of the four.
proof fn lemma_suit_cases(s: Suit)
    ensures
        s == Suit::Hearts || s == Suit::Diamonds || s == Suit::Clubs || s == Suit::Spades,
{
    match s {
        Suit::Hearts => {},
        Suit::Diamonds => {},
        Suit::Clubs => {},
        Suit::Spades => {},
    }
}

/// Determines whether any suit reaches a count of five or more.
pub fn is_hand_flushable(h: &CardHash) -> (res: Result<bool, EvalError>)
    ensures
        res == Ok::<bool, EvalError>(spec_any_flush(h.cards_spec())),
{
    proof {
        use_type_invariant(&*h);
    }
    let ghost cs = h.cards_spec();
    let hearts = h.suit_counts[0] >= 5;
    let diamonds = h.suit_counts[1] >= 5;
    let clubs = h.suit_counts[2] >= 5;
    let spades = h.suit_counts[3] >= 5;
    let found = hearts || diamonds || clubs || spades;
    proof {
        assert(h.suit_counts@[suit_index_spec(Suit::Hearts)] as nat == count_suit(
            cs,
            Suit::Hearts,
        ));
        assert(h.suit_counts@[suit_index_spec(Suit::Diamonds)] as nat == count_suit(
            cs,
            Suit::Diamonds,
        ));
        assert(h.suit_counts@[suit_index_spec(Suit::Clubs)] as nat == count_suit(cs, Suit::Clubs));
        assert(h.suit_counts@[suit_index_spec(Suit::Spades)] as nat == count_suit(
            cs,
            Suit::Spades,
        ));
        if hearts {
            assert(is_flush_suit(cs, Suit::Hearts));
        } else if diamonds {
            assert(is_flush_suit(cs, Suit::Diamonds));
        } else if clubs {
            assert(is_flush_suit(cs, Suit::Clubs));
        } else if spades {
            assert(is_flush_suit(cs, Suit::Spades));
        } else {
            assert forall|s: Suit| !is_flush_suit(cs, s) by {
                lemma_suit_cases(s);
            }
        }
    }
    Ok(found)
}

/// Scans the suit histogram for the one suit whose count reaches five:
/// `Ok(None)` when no suit does, the suit when exactly one does, and the
/// invariant-violation error when several do.
pub fn flush_suit(h: &CardHash) -> (res: Result<Option<Suit>, EvalError>)
    ensures
        res == (if spec_multiple_flush(h.cards_spec()) {
            Err::<Option<Suit>, EvalError>(EvalError::MultipleFlush)
        } else if spec_any_flush(h.cards_spec()) {
            Ok::<Option<Suit>, EvalError>(Some(spec_flush_suit_of(h.cards_spec())))
        } else {
            Ok::<Option<Suit>, EvalError>(None)
        }),
{
    proof {
        use_type_invariant(&*h);
    }
    let ghost cs = h.cards_spec();
    let mut found: Option<Suit> = None;
    let mut i: usize = 0;
    while i < 4
        invariant
            i <= 4,
            cs == h.cards_spec(),
            h.suit_counts@.len() == 4,
            forall|s: Suit|
                h.suit_counts@[suit_index_spec(s)] as nat == #[trigger] count_suit(cs, s),
            match found {
                Some(s0) => is_flush_suit(cs, s0) && suit_index_spec(s0) < i && forall|s2: Suit|
                    suit_index_spec(s2) < i && s2 != s0 ==> !is_flush_suit(cs, s2),
                None => forall|s2: Suit| suit_index_spec(s2) < i ==> !is_flush_suit(cs, s2),
            },
        decreases 4 - i,
    {
        if h.suit_counts[i] >= 5 {
            let s = crate::deck::suit_of_index(i);
            match found {
                Some(s0) => {
                    proof {
                        assert(is_flush_suit(cs, s));
                        assert(s0 != s);
                        assert(spec_multiple_flush(cs));
                    }
                    return Err(EvalError::MultipleFlush);
                },
                None => {
                    found = Some(s);
                },
            }
        } else {
            proof {
                assert forall|s2: Suit| suit_index_spec(s2) == i implies !is_flush_suit(
                    cs,
                    s2,
                ) by {}
            }
        }
        i = i + 1;
    }
    proof {
        assert forall|s2: Suit| 0 <= #[trigger] suit_index_spec(s2) < 4 by {
            lemma_suit_cases(s2);
        }
    }
    match found {
        Some(s) => {
            proof {
                assert(!spec_multiple_flush(cs)) by {
                    if spec_multiple_flush(cs) {
                        let (s1, s2) = choose|s1: Suit, s2: Suit|
                            s1 != s2 && is_flush_suit(cs, s1) && is_flush_suit(cs, s2);
                        assert(s1 != s || s2 != s);
                        assert(false);
                    }
                }
                assert(spec_any_flush(cs));
                assert(is_flush_suit(cs, spec_flush_suit_of(cs)));
                assert(spec_flush_suit_of(cs) == s);
            }
            Ok(Some(s))
        },
        None => {
            proof {
                assert(!spec_any_flush(cs)) by {
                    if spec_any_flush(cs) {
                        let s1 = choose|s1: Suit| is_flush_suit(cs, s1);
                        assert(false);
                    }
                }
            }
            Ok(None)
        },
    }
}

/// Some rank occurs at least `bound` times.
pub open spec fn has_count(cards: Seq<Card>, bound: int) -> bool {
    exists|r: int| MIN_RANK <= r <= MAX_RANK && #[trigger] count_rank(cards, r) >= bound
}

/// Two distinct ranks occur at least `bound1` and `bound2` times. Ties are
/// not discarded: two ranks of count three satisfy `has_group_pair(_, 3, 2)`,
/// which is what reads a pair of trips as a full house.
pub open spec fn has_group_pair(cards: Seq<Card>, bound1: int, bound2: int) -> bool {
    exists|r1: int, r2: int|
        MIN_RANK <= r1 <= MAX_RANK && MIN_RANK <= r2 <= MAX_RANK && r1 != r2 && #[trigger] count_rank(
            cards,
            r1,
        ) >= bound1 && #[trigger] count_rank(cards, r2) >= bound2
}

/// The best pair/trips/quads shape of the rank histogram; meaningful when
/// the set is not empty and no rank occurs more than four times.
pub open spec fn spec_group_class(cards: Seq<Card>) -> HandClass {
    if has_count(cards, 4) {
        HandClass::FourOfAKind
    } else if has_group_pair(cards, 3, 2) {
        HandClass::FullHouse
    } else if has_count(cards, 3) {
        HandClass::ThreeOfAKind
    } else if has_group_pair(cards, 2, 2) {
        HandClass::TwoPair
    } else if has_count(cards, 2) {
        HandClass::Pair
    } else {
        HandClass::HighCard
    }
}

/// What the group classifier returns: the group shape, or the
/// invariant-violation error an empty or oversized histogram signals.
pub open spec fn spec_group_result(cards: Seq<Card>) -> Result<HandClass, EvalError> {
    if !has_count(cards, 1) {
        Err(EvalError::EmptyGroup)
    } else if has_count(cards, 5) {
        Err(EvalError::OversizedGroup)
    } else {
        Ok(spec_group_class(cards))
    }
}

/// With `m` the largest rank count, some rank reaches `b` exactly when
/// `m` does.
proof fn lemma_top_count(cs: Seq<Card>, m: nat, b: int)
    requires
        1 <= b,
        forall|rr: int| MIN_RANK <= rr <= MAX_RANK ==> #[trigger] count_rank(cs, rr) <= m,
        m == 0 || exists|rr: int|
            MIN_RANK <= rr <= MAX_RANK && #[trigger] count_rank(cs, rr) == m,
    ensures
        has_count(cs, b) <==> m >= b,
{
    if m >= b {
        let rr = choose|rr: int| MIN_RANK <= rr <= MAX_RANK && #[trigger] count_rank(cs, rr) == m;
        assert(count_rank(cs, rr) >= b);
    }
    if has_count(cs, b) {
        let rr = choose|rr: int| MIN_RANK <= rr <= MAX_RANK && #[trigger] count_rank(cs, rr) >= b;
        assert(count_rank(cs, rr) <= m);
    }
}

/// With `m` and `n` the two largest rank counts (over distinct ranks), a
/// pair of distinct ranks reaches `(a, b)` exactly when `(m, n)` does.
proof fn lemma_top_two_pair(cs: Seq<Card>, m: nat, n: nat, a: int, b: int)
    requires
        n <= m,
        1 <= b <= a,
        forall|rr: int| MIN_RANK <= rr <= MAX_RANK ==> #[trigger] count_rank(cs, rr) <= m,
        forall|r1: int, r2: int|
            MIN_RANK <= r1 <= MAX_RANK && MIN_RANK <= r2 <= MAX_RANK && r1 != r2 ==> (
            #[trigger] count_rank(cs, r1) <= n || #[trigger] count_rank(cs, r2) <= n),
        n == 0 || exists|r1: int, r2: int|
            MIN_RANK <= r1 <= MAX_RANK && MIN_RANK <= r2 <= MAX_RANK && r1 != r2
                && #[trigger] count_rank(cs, r1) == m && #[trigger] count_rank(cs, r2) == n,
    ensures
        has_group_pair(cs, a, b) <==> (m >= a && n >= b),
{
    if m >= a && n >= b {
        let (r1, r2) = choose|r1: int, r2: int|
            MIN_RANK <= r1 <= MAX_RANK && MIN_RANK <= r2 <= MAX_RANK && r1 != r2
                && #[trigger] count_rank(cs, r1) == m && #[trigger] count_rank(cs, r2) == n;
        assert(count_rank(cs, r1) >= a && count_rank(cs, r2) >= b);
        assert(has_group_pair(cs, a, b));
    }
    if has_group_pair(cs, a, b) {
        let (r1, r2) = choose|r1: int, r2: int|
            MIN_RANK <= r1 <= MAX_RANK && MIN_RANK <= r2 <= MAX_RANK && r1 != r2
                && #[trigger] count_rank(cs, r1) >= a && #[trigger] count_rank(cs, r2) >= b;
        assert(count_rank(cs, r1) <= m);
        assert(count_rank(cs, r1) <= n || count_rank(cs, r2) <= n);
    }
}

/// Derives the best group shape from the rank histogram: one pass keeps
/// the largest count and the largest count over the remaining ranks, where
/// a tie at the top feeds the runner-up as well.
pub fn best_group_class(h: &CardHash) -> (res: Result<HandClass, EvalError>)
    ensures
        res == spec_group_result(h.cards_spec()),
{
    proof {
        use_type_invariant(&*h);
    }
    let ghost cs = h.cards_spec();
    let mut max_count: usize = 0;
    let mut next_max_count: usize = 0;
    let mut r: usize = 2;
    while r <= 14
        invariant
            2 <= r <= 15,
            cs == h.cards_spec(),
            h.rank_counts@.len() == 15,
            forall|rr: int|
                MIN_RANK <= rr <= MAX_RANK ==> h.rank_counts@[rr] as nat == #[trigger] count_rank(
                    cs,
                    rr,
                ),
            next_max_count <= max_count,
            forall|rr: int| MIN_RANK <= rr < r ==> #[trigger] count_rank(cs, rr) <= max_count as nat,
            max_count == 0 || exists|rr: int|
                MIN_RANK <= rr < r && #[trigger] count_rank(cs, rr) == max_count as nat,
            forall|r1: int, r2: int|
                MIN_RANK <= r1 < r && MIN_RANK <= r2 < r && r1 != r2 ==> (#[trigger] count_rank(
                    cs,
                    r1,
                ) <= next_max_count as nat || #[trigger] count_rank(cs, r2)
                    <= next_max_count as nat),
            next_max_count == 0 || exists|r1: int, r2: int|
                MIN_RANK <= r1 < r && MIN_RANK <= r2 < r && r1 != r2 && #[trigger] count_rank(
                    cs,
                    r1,
                ) == max_count as nat && #[trigger] count_rank(cs, r2) == next_max_count as nat,
        decreases 15 - r,
    {
        let ghost old_max: usize = max_count;
        let ghost old_next: usize = next_max_count;
        let count = h.rank_counts[r];
        proof {
            assert(count as nat == count_rank(cs, r as int));
        }
        if count >= max_count {
            next_max_count = max_count;
            max_count = count;
        } else if count >= next_max_count {
            next_max_count = count;
        }
        proof {
            if max_count > 0 && count < old_max {
                let rr = choose|rr: int|
                    MIN_RANK <= rr < r && #[trigger] count_rank(cs, rr) == old_max as nat;
                assert(count_rank(cs, rr) == max_count as nat);
            }
            if next_max_count > 0 {
                if count >= old_max {
                    let rr = choose|rr: int|
                        MIN_RANK <= rr < r && #[trigger] count_rank(cs, rr) == old_max as nat;
                    assert(rr != r as int);
                    assert(count_rank(cs, r as int) == max_count as nat && count_rank(cs, rr)
                        == next_max_count as nat);
                } else if count >= old_next {
                    let rr = choose|rr: int|
                        MIN_RANK <= rr < r && #[trigger] count_rank(cs, rr) == old_max as nat;
                    assert(rr != r as int);
                    assert(count_rank(cs, rr) == max_count as nat && count_rank(cs, r as int)
                        == next_max_count as nat);
                } else {
                    let (r1, r2) = choose|r1: int, r2: int|
                        MIN_RANK <= r1 < r && MIN_RANK <= r2 < r && r1 != r2
                            && #[trigger] count_rank(cs, r1) == old_max as nat
                            && #[trigger] count_rank(cs, r2) == old_next as nat;
                    assert(count_rank(cs, r1) == max_count as nat && count_rank(cs, r2)
                        == next_max_count as nat);
                }
            }
        }
        r = r + 1;
    }
    proof {
        lemma_top_count(cs, max_count as nat, 1);
        lemma_top_count(cs, max_count as nat, 2);
        lemma_top_count(cs, max_count as nat, 3);
        lemma_top_count(cs, max_count as nat, 4);
        lemma_top_count(cs, max_count as nat, 5);
        lemma_top_two_pair(cs, max_count as nat, next_max_count as nat, 3, 2);
        lemma_top_two_pair(cs, max_count as nat, next_max_count as nat, 2, 2);
    }
    if max_count == 0 {
        Err(EvalError::EmptyGroup)
    } else if max_count >= 5 {
        Err(EvalError::OversizedGroup)
    } else if max_count == 4 {
        Ok(HandClass::FourOfAKind)
    } else if max_count == 3 {
        if next_max_count >= 2 {
            Ok(HandClass::FullHouse)
        } else {
            Ok(HandClass::ThreeOfAKind)
        }
    } else if max_count == 2 {
        if next_max_count == 2 {
            Ok(HandClass::TwoPair)
        } else {
            Ok(HandClass::Pair)
        }
    } else {
        Ok(HandClass::HighCard)
    }
}

/// The royal run within a suit is in particular a straight within it.
pub proof fn lemma_royal_implies_straight(cards: Seq<Card>, suit: Suit)
    requires
        spec_royal_in_suit(cards, suit),
    ensures
        spec_straight_in_suit(cards, suit),
{
    assert(straight_in_suit_at(cards, suit, 10)) by {
        assert forall|rr: int| 10 <= rr < 15 implies #[trigger] rank_present_in_suit(
            cards,
            suit,
            rr,
        ) by {
            assert(count_in_suit(cards, suit, rr) > 0);
        }
    }
    assert(spec_straight_in_suit(cards, suit));
}

/// The straight-flush resolver: restricted straight detection over only
/// the flush suit's cards — a straight across mixed suits does not imply a
/// straight within one suit. A qualifying run is a straight flush,
/// upgraded to a royal flush exactly when the run ten to Ace is present.
pub fn straight_or_royal_flush(cards: &Vec<Card>, suit: Suit) -> (res: Option<HandClass>)
    ensures
        res == (if spec_royal_in_suit(cards@, suit) {
            Some(HandClass::RoyalFlush)
        } else if spec_straight_in_suit(cards@, suit) {
            Some(HandClass::StraightFlush)
        } else {
            None::<HandClass>
        }),
{
    let mut counts: Vec<usize> = zero_counts(15);
    let mut idx: usize = 0;
    proof {
        assert(cards@.take(0) =~= Seq::<Card>::empty());
    }
    while idx < cards.len()
        invariant
            idx <= cards@.len(),
            counts@.len() == 15,
            forall|rr: int| 0 <= rr < 15 ==> counts@[rr] <= idx,
            forall|rr: int|
                MIN_RANK <= rr <= MAX_RANK ==> counts@[rr] as nat == #[trigger] count_in_suit(
                    cards@.take(idx as int),
                    suit,
                    rr,
                ),
        decreases cards@.len() - idx,
    {
        let c = cards[idx];
        proof {
            use_type_invariant(&c);
        }
        if c.suit() == suit {
            let rank_idx = c.rank() as usize;
            counts[rank_idx] = counts[rank_idx] + 1;
        }
        proof {
            let prev = cards@.take(idx as int);
            let next = cards@.take(idx as int + 1);
            assert(next.drop_last() =~= prev);
            assert(next.last() == c);
            assert forall|rr: int| MIN_RANK <= rr <= MAX_RANK implies counts@[rr] as nat
                == #[trigger] count_in_suit(next, suit, rr) by {
                assert(count_in_suit(next, suit, rr) == count_in_suit(prev, suit, rr) + (
                if c.suit_spec() == suit && c.rank_spec() as int == rr {
                    1nat
                } else {
                    0nat
                }));
            }
        }
        idx = idx + 1;
    }
    proof {
        assert(cards@.take(cards@.len() as int) =~= cards@);
    }
    let is_straight = straight_scan(&counts);
    proof {
        lemma_suit_scan_bridge(counts@, cards@, suit);
    }
    if is_straight {
        let royal = counts[10] > 0 && counts[11] > 0 && counts[12] > 0 && counts[13] > 0
            && counts[14] > 0;
        proof {
            if royal {
                assert forall|rr: int| 10 <= rr <= 14 implies count_in_suit(cards@, suit, rr)
                    > 0 by {
                    assert(counts@[rr] > 0);
                }
            } else {
                if spec_royal_in_suit(cards@, suit) {
                    assert(count_in_suit(cards@, suit, 10) > 0);
                    assert(count_in_suit(cards@, suit, 11) > 0);
                    assert(count_in_suit(cards@, suit, 12) > 0);
                    assert(count_in_suit(cards@, suit, 13) > 0);
                    assert(count_in_suit(cards@, suit, 14) > 0);
                    assert(false);
                }
            }
        }
        if royal {
            Some(HandClass::RoyalFlush)
        } else {
            Some(HandClass::StraightFlush)
        }
    } else {
        proof {
            if spec_royal_in_suit(cards@, suit) {
                lemma_royal_implies_straight(cards@, suit);
                assert(false);
            }
        }
        None
    }
}

/// The classification of a card set, by explicit priority: a royal or
/// straight flush first, then quads, full house, flush, straight, and the
/// group shape last. Meaningful when at most one suit reaches five and no
/// rank occurs more than four times.
pub open spec fn spec_classify(cards: Seq<Card>) -> HandClass {
    if spec_any_flush(cards) && spec_straightable(cards) && spec_royal_in_suit(
        cards,
        spec_flush_suit_of(cards),
    ) {
        HandClass::RoyalFlush
    } else if spec_any_flush(cards) && spec_straightable(cards) && spec_straight_in_suit(
        cards,
        spec_flush_suit_of(cards),
    ) {
        HandClass::StraightFlush
    } else if spec_group_class(cards) == HandClass::FourOfAKind {
        HandClass::FourOfAKind
    } else if spec_group_class(cards) == HandClass::FullHouse {
        HandClass::FullHouse
    } else if spec_any_flush(cards) {
        HandClass::Flush
    } else if spec_straightable(cards) {
        HandClass::Straight
    } else {
        spec_group_class(cards)
    }
}

/// What classification returns on every input: the precondition error on
/// fewer than five cards, the invariant-violation errors on a malformed
/// set, and otherwise exactly the class [`spec_classify`] assigns.
pub open spec fn spec_identify(cards: Seq<Card>) -> Result<HandClass, EvalError> {
    if cards.len() < 5 {
        Err(EvalError::TooFewCards)
    } else if spec_multiple_flush(cards) {
        Err(EvalError::MultipleFlush)
    } else if !has_count(cards, 1) {
        Err(EvalError::EmptyGroup)
    } else if has_count(cards, 5) {
        Err(EvalError::OversizedGroup)
    } else {
        Ok(spec_classify(cards))
    }
}

/// Classifies a card set into one of the ten hand categories, or reports
/// why it cannot be classified. Every category test is computed up front
/// and the single highest-priority one decides.
pub fn identify_hand_class(cards: Vec<Card>) -> (res: Result<HandClass, EvalError>)
    ensures
        res == spec_identify(cards@),
{
    if cards.len() < 5 {
        return Err(EvalError::TooFewCards);
    }
    let card_hash = hash_cards(&cards);
    let can_straight = match is_hand_straightable(&card_hash) {
        Ok(value) => value,
        Err(e) => {
            proof {
                assert(false);
            }
            return Err(e);
        },
    };
    let can_flush = match is_hand_flushable(&card_hash) {
        Ok(value) => value,
        Err(e) => {
            proof {
                assert(false);
            }
            return Err(e);
        },
    };
    let fsuit = match flush_suit(&card_hash) {
        Ok(value) => value,
        Err(e) => {
            return Err(e);
        },
    };
    let groupclass = match best_group_class(&card_hash) {
        Ok(value) => value,
        Err(e) => {
            return Err(e);
        },
    };
    if can_straight && can_flush {
        match fsuit {
            Some(suit) => {
                match straight_or_royal_flush(&cards, suit) {
                    Some(hand) => {
                        return Ok(hand);
                    },
                    None => {},
                }
            },
            None => {
                proof {
                    assert(false);
                }
            },
        }
    }
    if groupclass == HandClass::FourOfAKind {
        Ok(HandClass::FourOfAKind)
    } else if groupclass == HandClass::FullHouse {
        Ok(HandClass::FullHouse)
    } else if can_flush {
        Ok(HandClass::Flush)
    } else if can_straight {
        Ok(HandClass::Straight)
    } else {
        Ok(groupclass)
    }
}

/// Flattens a player's hole cards and the community cards into one
/// evaluable card list, the hole cards first.
pub fn create_hand_vector(player_hand: &PlayerHand, community: &Community) -> (v: Vec<Card>)
    ensures
        v@ == player_hand.spec_cards() + community.spec_cards(),
{
    let mut collector: Vec<Card> = player_hand.collect_cards();
    let mut community_cards: Vec<Card> = community.collect_cards();
    collector.append(&mut community_cards);
    collector
}

} // verus!
