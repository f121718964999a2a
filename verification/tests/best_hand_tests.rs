use poker_hands::cards::Card;
use poker_hands::cards::Rank;
use poker_hands::cards::Suit;
use poker_hands::best_hand::find_best_hand;
use poker_hands::best_hand::get_five_card_combinations;
use poker_hands::hand_evaluator::HandError;
use poker_hands::hand_evaluator::HandRank;
use poker_hands::hand_evaluator::evaluate_hand;

fn card(suit: Suit, rank: Rank) -> Card {
    Card { suit, rank }
}

fn hand(cards: &[(Suit, Rank)]) -> Vec<Card> {
    cards.iter().map(|&(s, r)| card(s, r)).collect()
}

#[test]
fn test_best_hand_finds_royal_flush() {
    let pool = hand(&[
        (Suit::Hearts, Rank::Ace),
        (Suit::Hearts, Rank::King),
        (Suit::Hearts, Rank::Queen),
        (Suit::Hearts, Rank::Jack),
        (Suit::Hearts, Rank::Ten),
        (Suit::Clubs, Rank::Two),
        (Suit::Diamonds, Rank::Three),
    ]);
    assert_eq!(find_best_hand(&pool), Ok(HandRank::RoyalFlush));
}

#[test]
fn test_best_hand_selects_two_pair() {
    let pool = hand(&[
        (Suit::Hearts, Rank::Ace),
        (Suit::Clubs, Rank::Ace),
        (Suit::Diamonds, Rank::King),
        (Suit::Spades, Rank::King),
        (Suit::Clubs, Rank::Two),
        (Suit::Diamonds, Rank::Seven),
        (Suit::Spades, Rank::Nine),
    ]);
    assert_eq!(
        find_best_hand(&pool),
        Ok(HandRank::TwoPair(Rank::Ace, Rank::King))
    );
}

#[test]
fn test_best_hand_prefers_embedded_full_house() {
    let pool = hand(&[
        (Suit::Hearts, Rank::Ace),
        (Suit::Clubs, Rank::Ace),
        (Suit::Diamonds, Rank::King),
        (Suit::Spades, Rank::King),
        (Suit::Clubs, Rank::King),
        (Suit::Diamonds, Rank::Seven),
        (Suit::Spades, Rank::Nine),
    ]);
    assert_eq!(
        find_best_hand(&pool),
        Ok(HandRank::FullHouse(Rank::King, Rank::Ace))
    );
}

#[test]
fn test_best_hand_of_exactly_five_cards() {
    let pool = hand(&[
        (Suit::Hearts, Rank::Two),
        (Suit::Clubs, Rank::Five),
        (Suit::Diamonds, Rank::Nine),
        (Suit::Spades, Rank::Jack),
        (Suit::Hearts, Rank::King),
    ]);
    assert_eq!(find_best_hand(&pool), evaluate_hand(&pool));
}

#[test]
fn test_insufficient_cards() {
    let pool = hand(&[
        (Suit::Hearts, Rank::Two),
        (Suit::Clubs, Rank::Five),
        (Suit::Diamonds, Rank::Nine),
        (Suit::Spades, Rank::Jack),
    ]);
    assert_eq!(find_best_hand(&pool), Err(HandError::InsufficientCards));
    assert_eq!(
        find_best_hand(&Vec::new()),
        Err(HandError::InsufficientCards)
    );
}

#[test]
fn test_combinations_of_seven_cards() {
    let pool = hand(&[
        (Suit::Hearts, Rank::Ace),
        (Suit::Hearts, Rank::King),
        (Suit::Hearts, Rank::Queen),
        (Suit::Hearts, Rank::Jack),
        (Suit::Hearts, Rank::Ten),
        (Suit::Clubs, Rank::Two),
        (Suit::Diamonds, Rank::Three),
    ]);
    let combos = get_five_card_combinations(&pool);
    // C(7, 5) = 21 distinct index combinations, each a 5-card hand.
    assert_eq!(combos.len(), 21);
    for combo in &combos {
        assert_eq!(combo.len(), 5);
    }
    // The first combination, in lexicographic index order, is the royal flush.
    assert_eq!(evaluate_hand(&combos[0]), Ok(HandRank::RoyalFlush));
}

#[test]
fn test_combinations_of_five_cards() {
    let pool = hand(&[
        (Suit::Hearts, Rank::Two),
        (Suit::Clubs, Rank::Five),
        (Suit::Diamonds, Rank::Nine),
        (Suit::Spades, Rank::Jack),
        (Suit::Hearts, Rank::King),
    ]);
    let combos = get_five_card_combinations(&pool);
    assert_eq!(combos.len(), 1);
    assert_eq!(combos[0], pool);
}
