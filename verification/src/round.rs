//! The round orchestrator: dealer and player alternately draw from the
//! deck, each standing once their score reaches 17, until both stand.

use vstd::prelude::*;

use vstd::seq_lib::group_to_multiset_ensures;

use crate::cards::Card;
use crate::deck::Game;
use crate::hand::Player;
use crate::hand::hand_score;
use crate::hand::lemma_low_total_bounds;
use crate::hand::lemma_score_at_least_low_total;

verus! {

/// Why a round could not be finished.
#[derive(Clone, Copy, PartialEq, Eq, Structural, Debug)]
pub enum RoundError {
    /// The deck ran out while a participant still had to draw.
    OutOfCards,
}

/// One participant's turn. A standing participant does nothing. Otherwise
/// the participant stands as soon as the hand scores 17 or more, measured
/// before drawing; below 17 the top card of the deck moves to the hand,
/// and an empty deck is fatal.
pub open spec fn turn_spec(deck: Seq<Card>, hand: Seq<Card>, stand: bool) -> Option<
    (Seq<Card>, Seq<Card>, bool),
> {
    if stand {
        Some((deck, hand, true))
    } else if hand_score(hand) >= 17 {
        Some((deck, hand, true))
    } else if deck.len() > 0 {
        Some((deck.drop_last(), hand.push(deck.last()), false))
    } else {
        None
    }
}

/// The whole round from a given state: dealer's turn, then player's turn,
/// repeated until both stand. Yields the final deck and the two hands, or
/// nothing if the deck runs out first.
pub open spec fn round_spec(
    deck: Seq<Card>,
    dealer: Seq<Card>,
    player: Seq<Card>,
    dealer_stand: bool,
    player_stand: bool,
) -> Option<(Seq<Card>, Seq<Card>, Seq<Card>)>
    decreases deck.len() + (if dealer_stand {
        0int
    } else {
        1int
    }) + (if player_stand {
        0int
    } else {
        1int
    }),
{
    if dealer_stand && player_stand {
        Some((deck, dealer, player))
    } else {
        match turn_spec(deck, dealer, dealer_stand) {
            Option::None => Option::None,
            Option::Some((deck1, dealer1, ds1)) => match turn_spec(deck1, player, player_stand) {
                Option::None => Option::None,
                Option::Some((deck2, player1, ps1)) => round_spec(
                    deck2,
                    dealer1,
                    player1,
                    ds1,
                    ps1,
                ),
            },
        }
    }
}

/// A round that finishes leaves each participant who still had to act with
/// a score of 17 or more, and a participant who already stood with the
/// hand unchanged.
pub proof fn lemma_round_ends_standing(
    deck: Seq<Card>,
    dealer: Seq<Card>,
    player: Seq<Card>,
    dealer_stand: bool,
    player_stand: bool,
)
    requires
        round_spec(deck, dealer, player, dealer_stand, player_stand) is Some,
    ensures
        !dealer_stand ==> hand_score(
            round_spec(deck, dealer, player, dealer_stand, player_stand)->Some_0.1,
        ) >= 17,
        !player_stand ==> hand_score(
            round_spec(deck, dealer, player, dealer_stand, player_stand)->Some_0.2,
        ) >= 17,
        dealer_stand ==> round_spec(deck, dealer, player, dealer_stand, player_stand)->Some_0.1
            == dealer,
        player_stand ==> round_spec(deck, dealer, player, dealer_stand, player_stand)->Some_0.2
            == player,
    decreases deck.len() + (if dealer_stand {
        0int
    } else {
        1int
    }) + (if player_stand {
        0int
    } else {
        1int
    }),
{
    if dealer_stand && player_stand {
    } else {
        let (deck1, dealer1, ds1) = turn_spec(deck, dealer, dealer_stand)->Some_0;
        let (deck2, player1, ps1) = turn_spec(deck1, player, player_stand)->Some_0;
        lemma_round_ends_standing(deck2, dealer1, player1, ds1, ps1);
    }
}

/// No card appears or disappears during a round: together, the final deck
/// and the two final hands hold exactly the cards that the starting deck
/// and the two starting hands held.
pub proof fn lemma_round_conserves_cards(
    deck: Seq<Card>,
    dealer: Seq<Card>,
    player: Seq<Card>,
    dealer_stand: bool,
    player_stand: bool,
)
    requires
        round_spec(deck, dealer, player, dealer_stand, player_stand) is Some,
    ensures
        ({
            let (deck2, dealer2, player2) = round_spec(
                deck,
                dealer,
                player,
                dealer_stand,
                player_stand,
            )->Some_0;
            deck2.to_multiset().add(dealer2.to_multiset()).add(player2.to_multiset())
                == deck.to_multiset().add(dealer.to_multiset()).add(player.to_multiset())
        }),
    decreases deck.len() + (if dealer_stand {
        0int
    } else {
        1int
    }) + (if player_stand {
        0int
    } else {
        1int
    }),
{
    broadcast use group_to_multiset_ensures;
    broadcast use vstd::multiset::group_multiset_axioms;

    if dealer_stand && player_stand {
    } else {
        let (deck1, dealer1, ds1) = turn_spec(deck, dealer, dealer_stand)->Some_0;
        let (deck2, player1, ps1) = turn_spec(deck1, player, player_stand)->Some_0;
        lemma_turn_conserves_cards(deck, dealer, dealer_stand);
        lemma_turn_conserves_cards(deck1, player, player_stand);
        lemma_round_conserves_cards(deck2, dealer1, player1, ds1, ps1);
        let lhs = deck2.to_multiset().add(dealer1.to_multiset()).add(player1.to_multiset());
        let rhs = deck.to_multiset().add(dealer.to_multiset()).add(player.to_multiset());
        assert forall|x: Card| lhs.count(x) == rhs.count(x) by {
            assert(deck.to_multiset().add(dealer.to_multiset()).count(x) == deck1.to_multiset()
                .add(dealer1.to_multiset()).count(x));
            assert(deck1.to_multiset().add(player.to_multiset()).count(x) == deck2.to_multiset()
                .add(player1.to_multiset()).count(x));
        }
        assert(lhs =~= rhs);
    }
}

/// One turn moves at most one card, from the top of the deck to the hand.
proof fn lemma_turn_conserves_cards(deck: Seq<Card>, hand: Seq<Card>, stand: bool)
    requires
        turn_spec(deck, hand, stand) is Some,
    ensures
        ({
            let (deck1, hand1, stand1) = turn_spec(deck, hand, stand)->Some_0;
            deck1.to_multiset().add(hand1.to_multiset()) == deck.to_multiset().add(
                hand.to_multiset(),
            )
        }),
{
    broadcast use group_to_multiset_ensures;
    broadcast use vstd::multiset::group_multiset_axioms;

    let (deck1, hand1, stand1) = turn_spec(deck, hand, stand)->Some_0;
    if !stand && hand_score(hand) < 17 && deck.len() > 0 {
        assert(deck.drop_last().push(deck.last()) =~= deck);
        assert(deck1.to_multiset().add(hand1.to_multiset()) =~= deck.to_multiset().add(
            hand.to_multiset(),
        ));
    }
}

/// Plays one full round on a fresh pair of hands: dealer first, then
/// player, each turn by turn as `round_spec` says, until both stand.
/// On success the deck and both hands end exactly in the state that
/// `round_spec` assigns to the starting deck; the error comes exactly when
/// `round_spec` assigns no final state because the deck runs out.
pub fn play_round(game: &mut Game, dealer: &mut Player, player: &mut Player) -> (r: Result<
    (),
    RoundError,
>)
    requires
        old(dealer).cards@.len() == 0,
        old(player).cards@.len() == 0,
    ensures
        final(dealer).name == old(dealer).name,
        final(player).name == old(player).name,
        r is Ok <==> round_spec(old(game)@, old(dealer).cards@, old(player).cards@, false, false)
            is Some,
        r is Ok ==> round_spec(old(game)@, old(dealer).cards@, old(player).cards@, false, false)
            == Some((final(game)@, final(dealer).cards@, final(player).cards@)),
{
    let mut dealer_stand = false;
    let mut player_stand = false;
    loop
        invariant
            dealer.cards@.len() <= 17,
            player.cards@.len() <= 17,
            dealer.name == old(dealer).name,
            player.name == old(player).name,
            !(dealer_stand && player_stand),
            round_spec(game@, dealer.cards@, player.cards@, dealer_stand, player_stand)
                == round_spec(old(game)@, old(dealer).cards@, old(player).cards@, false, false),
        decreases game@.len() + (if dealer_stand {
            0int
        } else {
            1int
        }) + (if player_stand {
            0int
        } else {
            1int
        }),
    {
        let ghost deck0 = game@;
        let ghost dealer0 = dealer.cards@;
        let ghost player0 = player.cards@;
        let ghost ds0 = dealer_stand;
        let ghost ps0 = player_stand;

        if !dealer_stand {
            if dealer.hand_value() >= 17 {
                dealer_stand = true;
            } else {
                proof {
                    lemma_score_at_least_low_total(dealer.cards@);
                    lemma_low_total_bounds(dealer.cards@);
                }
                match game.issue_card() {
                    Option::Some(card) => dealer.take_card(card),
                    Option::None => {
                        proof {
                            assert(turn_spec(deck0, dealer0, ds0) is None);
                        }
                        return Result::Err(RoundError::OutOfCards);
                    },
                }
            }
        }
        let ghost deck1 = game@;
        proof {
            assert(turn_spec(deck0, dealer0, ds0) == Some(
                (deck1, dealer.cards@, dealer_stand),
            ));
        }

        if !player_stand {
            if player.hand_value() >= 17 {
                player_stand = true;
            } else {
                proof {
                    lemma_score_at_least_low_total(player.cards@);
                    lemma_low_total_bounds(player.cards@);
                }
                match game.issue_card() {
                    Option::Some(card) => player.take_card(card),
                    Option::None => {
                        proof {
                            assert(turn_spec(deck1, player0, ps0) is None);
                        }
                        return Result::Err(RoundError::OutOfCards);
                    },
                }
            }
        }
        proof {
            assert(turn_spec(deck1, player0, ps0) == Some(
                (game@, player.cards@, player_stand),
            ));
        }

        if dealer_stand && player_stand {
            proof {
                assert(round_spec(
                    game@,
                    dealer.cards@,
                    player.cards@,
                    dealer_stand,
                    player_stand,
                ) == Some((game@, dealer.cards@, player.cards@)));
            }
            return Result::Ok(());
        }
    }
}

} // verus!
