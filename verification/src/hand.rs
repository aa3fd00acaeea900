//! A participant of the round and the blackjack scoring rule, with the
//! soft/hard ace resolution.

use vstd::prelude::*;

use crate::cards::Card;
use crate::cards::Rank;
use crate::cards::rank_low_points;

verus! {

/// The hard total of a hand: every card counts its low point value, an ace
/// counting 1.
pub open spec fn low_total(s: Seq<Card>) -> int
    decreases s.len(),
{
    if s.len() == 0 {
        0
    } else {
        low_total(s.drop_last()) + rank_low_points(s.last().rank)
    }
}

/// How many aces a hand holds.
pub open spec fn ace_count(s: Seq<Card>) -> int
    decreases s.len(),
{
    if s.len() == 0 {
        0
    } else {
        ace_count(s.drop_last()) + if s.last().rank == Rank::Ace {
            1int
        } else {
            0int
        }
    }
}

/// The blackjack score of a hand: the hard total, with exactly one ace
/// promoted from 1 to 11 when that does not push the score past 21.
/// Promoting a second ace is never beneficial: two promotions alone already
/// reach 22. An empty hand scores 0.
pub open spec fn hand_score(s: Seq<Card>) -> int {
    if ace_count(s) > 0 && low_total(s) + 10 <= 21 {
        low_total(s) + 10
    } else {
        low_total(s)
    }
}

/// Bounds on the hard total: at least one point per card (so at least the
/// hand's size) and at most ten per card; the ace count never exceeds the
/// hand's size.
pub proof fn lemma_low_total_bounds(s: Seq<Card>)
    ensures
        s.len() <= low_total(s) <= 10 * s.len(),
        0 <= ace_count(s) <= s.len(),
    decreases s.len(),
{
    if s.len() > 0 {
        lemma_low_total_bounds(s.drop_last());
    }
}

/// A hand never scores below its hard total, and a hand without an ace
/// scores exactly its hard total.
pub proof fn lemma_score_at_least_low_total(s: Seq<Card>)
    ensures
        low_total(s) <= hand_score(s),
        ace_count(s) == 0 ==> hand_score(s) == low_total(s),
{
}

/// A participant of the round: a name and the cards taken so far. Cards
/// only accumulate; none is ever given back.
#[derive(Debug)]
pub struct Player {
    pub name: String,
    pub cards: Vec<Card>,
}

impl Player {
    /// A fresh participant with the given name and no cards.
    pub fn new(name: &str) -> (p: Player)
        ensures
            p.name@ == name@,
            p.cards@ == Seq::<Card>::empty(),
    {
        Player { name: name.to_owned(), cards: Vec::new() }
    }

    /// Appends one drawn card to the hand.
    pub fn take_card(&mut self, card: Card)
        ensures
            final(self).cards@ == old(self).cards@.push(card),
            final(self).name == old(self).name,
    {
        self.cards.push(card);
    }

    /// The blackjack score of the hand held so far.
    ///
    /// The size bound keeps every intermediate sum within `u16`; a deck of
    /// any playable size stays far below it.
    pub fn hand_value(&self) -> (v: u16)
        requires
            self.cards@.len() <= 6552,
        ensures
            v == hand_score(self.cards@),
    {
        let mut sum_without_aces: u16 = 0;
        let mut num_of_aces: u16 = 0;
        let n = self.cards.len();
        let mut j: usize = 0;
        while j < n
            invariant
                j <= n,
                n == self.cards@.len() <= 6552,
                num_of_aces == ace_count(self.cards@.take(j as int)),
                sum_without_aces + num_of_aces == low_total(self.cards@.take(j as int)),
            decreases n - j,
        {
            let ghost prefix = self.cards@.take(j as int);
            proof {
                let s = self.cards@;
                assert(s.take(j + 1).drop_last() =~= prefix);
                assert(s.take(j + 1).last() == s[j as int]);
                assert(ace_count(s.take(j + 1)) == ace_count(prefix) + if s[j as int].rank
                    == Rank::Ace {
                    1int
                } else {
                    0int
                });
                assert(low_total(s.take(j + 1)) == low_total(prefix) + rank_low_points(
                    s[j as int].rank,
                ));
                lemma_low_total_bounds(s.take(j + 1));
                lemma_low_total_bounds(prefix);
            }
            match self.cards[j].rank {
                Rank::Ace => num_of_aces += 1,
                Rank::Two => sum_without_aces += 2,
                Rank::Three => sum_without_aces += 3,
                Rank::Four => sum_without_aces += 4,
                Rank::Five => sum_without_aces += 5,
                Rank::Six => sum_without_aces += 6,
                Rank::Seven => sum_without_aces += 7,
                Rank::Eight => sum_without_aces += 8,
                Rank::Nine => sum_without_aces += 9,
                Rank::Ten => sum_without_aces += 10,
                Rank::Jack => sum_without_aces += 10,
                Rank::Queen => sum_without_aces += 10,
                Rank::King => sum_without_aces += 10,
            }
            j += 1;
        }
        proof {
            assert(self.cards@.take(n as int) =~= self.cards@);
            lemma_low_total_bounds(self.cards@);
        }
        if num_of_aces == 0 {
            return sum_without_aces;
        }
        let sum_with_small_aces = sum_without_aces + num_of_aces;
        if sum_with_small_aces > 21 || 21 - sum_with_small_aces < 10 {
            return sum_with_small_aces;
        }
        sum_with_small_aces + 10
    }
}

} // verus!
