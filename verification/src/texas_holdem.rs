//! The collaborators that assemble an evaluable card set: a player's two
//! hole cards and the five shared community cards.

use crate::deck::Card;
use crate::deck::CardCollector;
use vstd::prelude::*;

verus! {

/// A player's private pair of hole cards.
pub type PlayerHand = (Card, Card);

impl CardCollector for PlayerHand {
    open spec fn spec_cards(&self) -> Seq<Card> {
        seq![self.0, self.1]
    }

    fn collect_cards(&self) -> (v: Vec<Card>)
        ensures
            v@ == self.spec_cards(),
    {
        let mut collected_cards = Vec::new();
        collected_cards.push(self.0);
        collected_cards.push(self.1);
        proof {
            assert(collected_cards@ =~= self.spec_cards());
        }
        collected_cards
    }
}

/// The five cards shared by all players: the three-card flop, the turn and
/// the river.
#[derive(Debug)]
pub struct Community {
    pub flop: (Card, Card, Card),
    pub turn: Card,
    pub river: Card,
}

impl CardCollector for Community {
    open spec fn spec_cards(&self) -> Seq<Card> {
        seq![self.flop.0, self.flop.1, self.flop.2, self.turn, self.river]
    }

    fn collect_cards(&self) -> (v: Vec<Card>)
        ensures
            v@ == self.spec_cards(),
    {
        let mut collected_cards = Vec::new();
        collected_cards.push(self.flop.0);
        collected_cards.push(self.flop.1);
        collected_cards.push(self.flop.2);
        collected_cards.push(self.turn);
        collected_cards.push(self.river);
        proof {
            assert(collected_cards@ =~= self.spec_cards());
        }
        collected_cards
    }
}

} // verus!
