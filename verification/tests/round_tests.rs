use blackjack_round::cards::Card;
use blackjack_round::cards::Rank;
use blackjack_round::cards::Suit;
use blackjack_round::cards::card_from_index;
use blackjack_round::deck::Game;
use blackjack_round::hand::Player;
use blackjack_round::round::RoundError;
use blackjack_round::round::play_round;

fn count_card(cards: &[Card], wanted: Card) -> usize {
    let mut n = 0;
    for c in cards.iter() {
        if *c == wanted {
            n += 1;
        }
    }
    n
}

fn all_distinct_cards() -> Vec<Card> {
    let mut all = Vec::new();
    let mut i = 0;
    while i < 52 {
        all.push(card_from_index(i));
        i += 1;
    }
    all
}

fn hand_of(ranks: &[Rank]) -> Player {
    let mut p = Player::new("probe");
    for r in ranks.iter() {
        p.take_card(Card { suit: Suit::Hearts, rank: *r });
    }
    p
}

#[test]
fn building_two_decks_gives_each_card_twice() {
    let mut cards: Vec<Card> = Vec::new();
    Game::add_decks(&mut cards, 2);
    assert_eq!(cards.len(), 104);
    for c in all_distinct_cards() {
        assert_eq!(count_card(&cards, c), 2);
    }
}

#[test]
fn building_zero_decks_gives_no_cards() {
    let mut cards: Vec<Card> = Vec::new();
    Game::add_decks(&mut cards, 0);
    assert_eq!(cards.len(), 0);
}

#[test]
fn fresh_deck_is_rank_major_suit_minor() {
    let mut cards: Vec<Card> = Vec::new();
    Game::add_decks(&mut cards, 1);
    assert_eq!(cards[0], Card { suit: Suit::Clubs, rank: Rank::Ace });
    assert_eq!(cards[1], Card { suit: Suit::Diamonds, rank: Rank::Ace });
    assert_eq!(cards[2], Card { suit: Suit::Hearts, rank: Rank::Ace });
    assert_eq!(cards[3], Card { suit: Suit::Spades, rank: Rank::Ace });
    assert_eq!(cards[4], Card { suit: Suit::Clubs, rank: Rank::Two });
    assert_eq!(cards[51], Card { suit: Suit::Spades, rank: Rank::King });
}

#[test]
fn zero_shuffles_is_the_identity() {
    let mut cards: Vec<Card> = Vec::new();
    Game::add_decks(&mut cards, 1);
    let before = cards.clone();
    Game::shuffle_cards(&mut cards, 0);
    assert_eq!(cards, before);
}

#[test]
fn shuffling_preserves_the_multiset_of_cards() {
    let mut cards: Vec<Card> = Vec::new();
    Game::add_decks(&mut cards, 1);
    Game::shuffle_cards(&mut cards, 5);
    assert_eq!(cards.len(), 52);
    for c in all_distinct_cards() {
        assert_eq!(count_card(&cards, c), 1);
    }
}

#[test]
fn cutting_rotates_the_deck() {
    let mut cards: Vec<Card> = Vec::new();
    Game::add_decks(&mut cards, 1);
    let before = cards.clone();
    Game::cut_cards(&mut cards, 10);
    let mut expected: Vec<Card> = Vec::new();
    expected.extend_from_slice(&before[10..]);
    expected.extend_from_slice(&before[..10]);
    assert_eq!(cards, expected);
    for c in all_distinct_cards() {
        assert_eq!(count_card(&cards, c), 1);
    }
}

#[test]
fn cutting_at_zero_or_full_length_is_the_identity() {
    let mut cards: Vec<Card> = Vec::new();
    Game::add_decks(&mut cards, 1);
    let before = cards.clone();
    Game::cut_cards(&mut cards, 0);
    assert_eq!(cards, before);
    Game::cut_cards(&mut cards, 52);
    assert_eq!(cards, before);
}

#[test]
fn drawing_exhausts_the_deck_after_exactly_its_size() {
    let mut game = Game::new(1, 0, 0);
    for _ in 0..52 {
        assert!(game.issue_card().is_some());
    }
    assert_eq!(game.remaining(), 0);
    assert!(game.issue_card().is_none());
    assert!(game.issue_card().is_none());
}

#[test]
fn cards_are_drawn_from_the_end_of_the_cut_deck() {
    let mut game = Game::new(1, 0, 5);
    // The cut moves cards[5..] first, cards[..5] last, so the top of the
    // deck is the card just below the cut: the ace of clubs comes fifth
    // from the top.
    let top = game.issue_card().unwrap();
    assert_eq!(top, Card { suit: Suit::Clubs, rank: Rank::Two });
    let mut last = top;
    for _ in 0..4 {
        last = game.issue_card().unwrap();
    }
    assert_eq!(last, Card { suit: Suit::Clubs, rank: Rank::Ace });
}

#[test]
fn a_shuffled_game_still_holds_every_card_once() {
    let mut game = Game::new(1, 5, 13);
    let mut drawn: Vec<Card> = Vec::new();
    while let Some(c) = game.issue_card() {
        drawn.push(c);
    }
    assert_eq!(drawn.len(), 52);
    for c in all_distinct_cards() {
        assert_eq!(count_card(&drawn, c), 1);
    }
}

#[test]
fn empty_hand_scores_zero() {
    assert_eq!(hand_of(&[]).hand_value(), 0);
}

#[test]
fn lone_ace_scores_eleven() {
    assert_eq!(hand_of(&[Rank::Ace]).hand_value(), 11);
}

#[test]
fn two_aces_score_twelve() {
    assert_eq!(hand_of(&[Rank::Ace, Rank::Ace]).hand_value(), 12);
}

#[test]
fn ace_and_ten_are_blackjack() {
    assert_eq!(hand_of(&[Rank::Ace, Rank::Ten]).hand_value(), 21);
}

#[test]
fn two_aces_and_a_nine_score_twenty_one() {
    assert_eq!(hand_of(&[Rank::Ace, Rank::Ace, Rank::Nine]).hand_value(), 21);
}

#[test]
fn busted_hand_keeps_its_hard_total() {
    assert_eq!(hand_of(&[Rank::Ten, Rank::Ten, Rank::Five]).hand_value(), 25);
}

#[test]
fn face_cards_all_count_ten() {
    assert_eq!(hand_of(&[Rank::Jack, Rank::Queen]).hand_value(), 20);
    assert_eq!(hand_of(&[Rank::King, Rank::Seven]).hand_value(), 17);
}

#[test]
fn player_keeps_name_and_accumulates_cards() {
    let mut p = Player::new("Glenn");
    assert_eq!(p.name, "Glenn");
    assert_eq!(p.cards.len(), 0);
    let c = Card { suit: Suit::Spades, rank: Rank::Four };
    p.take_card(c);
    assert_eq!(p.cards.len(), 1);
    assert_eq!(p.cards[0], c);
}

#[test]
fn unshuffled_uncut_round_deals_the_four_kings() {
    let mut game = Game::new(1, 0, 0);
    let mut dealer = Player::new("Dealer");
    let mut player = Player::new("Glenn");
    let outcome = play_round(&mut game, &mut dealer, &mut player);
    assert!(outcome.is_ok());
    assert_eq!(
        dealer.cards,
        vec![
            Card { suit: Suit::Spades, rank: Rank::King },
            Card { suit: Suit::Diamonds, rank: Rank::King },
        ]
    );
    assert_eq!(
        player.cards,
        vec![
            Card { suit: Suit::Hearts, rank: Rank::King },
            Card { suit: Suit::Clubs, rank: Rank::King },
        ]
    );
    assert_eq!(dealer.hand_value(), 20);
    assert_eq!(player.hand_value(), 20);
    assert_eq!(game.remaining(), 48);
}

#[test]
fn an_empty_game_runs_out_of_cards() {
    let mut game = Game::new(0, 0, 0);
    let mut dealer = Player::new("Dealer");
    let mut player = Player::new("Glenn");
    let outcome = play_round(&mut game, &mut dealer, &mut player);
    assert_eq!(outcome, Err(RoundError::OutOfCards));
}

#[test]
fn a_full_random_round_finishes_with_both_at_seventeen_or_more() {
    let mut game = Game::new(3, 5, 22);
    let mut dealer = Player::new("Dealer");
    let mut player = Player::new("Glenn");
    let outcome = play_round(&mut game, &mut dealer, &mut player);
    assert!(outcome.is_ok());
    assert!(dealer.hand_value() >= 17);
    assert!(player.hand_value() >= 17);
    assert_eq!(
        game.remaining() + dealer.cards.len() + player.cards.len(),
        3 * 52
    );
}
