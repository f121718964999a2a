use poker_hands::cards::Card;
use poker_hands::cards::Rank;
use poker_hands::cards::Suit;
use poker_hands::cards::rank_from_u8;
use poker_hands::cards::rank_to_u8;
use poker_hands::hand_evaluator::HandError;
use poker_hands::hand_evaluator::HandRank;
use poker_hands::hand_evaluator::evaluate_hand;

fn card(suit: Suit, rank: Rank) -> Card {
    Card { suit, rank }
}

fn hand(cards: &[(Suit, Rank)]) -> Vec<Card> {
    cards.iter().map(|&(s, r)| card(s, r)).collect()
}

#[test]
fn test_high_card() {
    let h = hand(&[
        (Suit::Hearts, Rank::Two),
        (Suit::Clubs, Rank::Five),
        (Suit::Diamonds, Rank::Nine),
        (Suit::Spades, Rank::Jack),
        (Suit::Hearts, Rank::King),
    ]);
    assert_eq!(evaluate_hand(&h), Ok(HandRank::HighCard(Rank::King)));
}

#[test]
fn test_one_pair() {
    let h = hand(&[
        (Suit::Hearts, Rank::Seven),
        (Suit::Clubs, Rank::Seven),
        (Suit::Diamonds, Rank::Two),
        (Suit::Spades, Rank::Nine),
        (Suit::Hearts, Rank::Ace),
    ]);
    assert_eq!(evaluate_hand(&h), Ok(HandRank::OnePair(Rank::Seven)));
}

#[test]
fn test_two_pair_ordered_tie_breaks() {
    let h = hand(&[
        (Suit::Hearts, Rank::Three),
        (Suit::Clubs, Rank::Jack),
        (Suit::Diamonds, Rank::Three),
        (Suit::Spades, Rank::Jack),
        (Suit::Hearts, Rank::King),
    ]);
    assert_eq!(
        evaluate_hand(&h),
        Ok(HandRank::TwoPair(Rank::Jack, Rank::Three))
    );
}

#[test]
fn test_three_of_a_kind() {
    let h = hand(&[
        (Suit::Hearts, Rank::Six),
        (Suit::Clubs, Rank::Six),
        (Suit::Diamonds, Rank::Six),
        (Suit::Spades, Rank::Nine),
        (Suit::Hearts, Rank::Ace),
    ]);
    assert_eq!(evaluate_hand(&h), Ok(HandRank::ThreeOfAKind(Rank::Six)));
}

#[test]
fn test_straight() {
    let h = hand(&[
        (Suit::Hearts, Rank::Five),
        (Suit::Clubs, Rank::Six),
        (Suit::Diamonds, Rank::Seven),
        (Suit::Spades, Rank::Eight),
        (Suit::Hearts, Rank::Nine),
    ]);
    assert_eq!(evaluate_hand(&h), Ok(HandRank::Straight(Rank::Nine)));
}

#[test]
fn test_wheel_without_flush_is_five_high_straight() {
    let h = hand(&[
        (Suit::Hearts, Rank::Ace),
        (Suit::Clubs, Rank::Two),
        (Suit::Diamonds, Rank::Three),
        (Suit::Spades, Rank::Four),
        (Suit::Hearts, Rank::Five),
    ]);
    assert_eq!(evaluate_hand(&h), Ok(HandRank::Straight(Rank::Five)));
}

#[test]
fn test_flush() {
    let h = hand(&[
        (Suit::Spades, Rank::Two),
        (Suit::Spades, Rank::Five),
        (Suit::Spades, Rank::Nine),
        (Suit::Spades, Rank::Jack),
        (Suit::Spades, Rank::King),
    ]);
    assert_eq!(evaluate_hand(&h), Ok(HandRank::Flush(Rank::King)));
}

#[test]
fn test_full_house() {
    let h = hand(&[
        (Suit::Hearts, Rank::Queen),
        (Suit::Clubs, Rank::Queen),
        (Suit::Diamonds, Rank::Queen),
        (Suit::Spades, Rank::Two),
        (Suit::Hearts, Rank::Two),
    ]);
    assert_eq!(
        evaluate_hand(&h),
        Ok(HandRank::FullHouse(Rank::Queen, Rank::Two))
    );
}

#[test]
fn test_four_of_a_kind() {
    let h = hand(&[
        (Suit::Hearts, Rank::Nine),
        (Suit::Clubs, Rank::Nine),
        (Suit::Diamonds, Rank::Nine),
        (Suit::Spades, Rank::Nine),
        (Suit::Hearts, Rank::Ace),
    ]);
    assert_eq!(evaluate_hand(&h), Ok(HandRank::FourOfAKind(Rank::Nine)));
}

#[test]
fn test_straight_flush() {
    let h = hand(&[
        (Suit::Diamonds, Rank::Five),
        (Suit::Diamonds, Rank::Six),
        (Suit::Diamonds, Rank::Seven),
        (Suit::Diamonds, Rank::Eight),
        (Suit::Diamonds, Rank::Nine),
    ]);
    assert_eq!(evaluate_hand(&h), Ok(HandRank::StraightFlush(Rank::Nine)));
}

#[test]
fn test_wheel_is_five_high_straight_flush() {
    let h = hand(&[
        (Suit::Hearts, Rank::Ace),
        (Suit::Hearts, Rank::Two),
        (Suit::Hearts, Rank::Three),
        (Suit::Hearts, Rank::Four),
        (Suit::Hearts, Rank::Five),
    ]);
    assert_eq!(evaluate_hand(&h), Ok(HandRank::StraightFlush(Rank::Five)));
}

#[test]
fn test_royal_flush() {
    for s in [Suit::Hearts, Suit::Diamonds, Suit::Clubs, Suit::Spades] {
        let h = hand(&[
            (s, Rank::Ten),
            (s, Rank::Jack),
            (s, Rank::Queen),
            (s, Rank::King),
            (s, Rank::Ace),
        ]);
        assert_eq!(evaluate_hand(&h), Ok(HandRank::RoyalFlush));
    }
}

#[test]
fn test_category_ordering() {
    let representatives = [
        HandRank::HighCard(Rank::Ace),
        HandRank::OnePair(Rank::Two),
        HandRank::TwoPair(Rank::Three, Rank::Two),
        HandRank::ThreeOfAKind(Rank::Two),
        HandRank::Straight(Rank::Six),
        HandRank::Flush(Rank::Seven),
        HandRank::FullHouse(Rank::Two, Rank::Three),
        HandRank::FourOfAKind(Rank::Two),
        HandRank::StraightFlush(Rank::Six),
        HandRank::RoyalFlush,
    ];
    for i in 0..representatives.len() {
        for j in 0..representatives.len() {
            let (a, b) = (representatives[i], representatives[j]);
            if i < j {
                assert!(a.leq(&b));
                assert!(!b.leq(&a));
            }
            // The verified order and the derived comparison operators agree.
            assert_eq!(a.leq(&b), a <= b);
        }
    }
}

#[test]
fn test_tie_break_ordering_within_category() {
    let weaker = HandRank::TwoPair(Rank::Jack, Rank::Three);
    let stronger = HandRank::TwoPair(Rank::Jack, Rank::Four);
    assert!(weaker.leq(&stronger));
    assert!(!stronger.leq(&weaker));
    assert!(weaker < stronger);
}

#[test]
fn test_permutation_invariance() {
    let base = [
        (Suit::Hearts, Rank::Three),
        (Suit::Clubs, Rank::Jack),
        (Suit::Diamonds, Rank::Three),
        (Suit::Spades, Rank::Jack),
        (Suit::Hearts, Rank::King),
    ];
    let expected = evaluate_hand(&hand(&base));
    let orders: [[usize; 5]; 5] = [
        [4, 3, 2, 1, 0],
        [1, 0, 3, 2, 4],
        [2, 4, 0, 1, 3],
        [3, 1, 4, 0, 2],
        [0, 2, 1, 4, 3],
    ];
    for order in orders {
        let permuted: Vec<Card> = order.iter().map(|&i| card(base[i].0, base[i].1)).collect();
        assert_eq!(evaluate_hand(&permuted), expected);
    }
}

#[test]
fn test_ties_compare_equal() {
    let first = hand(&[
        (Suit::Hearts, Rank::Ten),
        (Suit::Clubs, Rank::Ten),
        (Suit::Diamonds, Rank::Four),
        (Suit::Spades, Rank::Six),
        (Suit::Hearts, Rank::Nine),
    ]);
    let second = hand(&[
        (Suit::Spades, Rank::Ten),
        (Suit::Diamonds, Rank::Ten),
        (Suit::Clubs, Rank::Four),
        (Suit::Hearts, Rank::Six),
        (Suit::Diamonds, Rank::Nine),
    ]);
    let a = evaluate_hand(&first).unwrap();
    let b = evaluate_hand(&second).unwrap();
    assert_eq!(a, b);
    assert!(a.leq(&b) && b.leq(&a));
}

#[test]
fn test_invalid_hand_size() {
    let four = hand(&[
        (Suit::Hearts, Rank::Two),
        (Suit::Clubs, Rank::Five),
        (Suit::Diamonds, Rank::Nine),
        (Suit::Spades, Rank::Jack),
    ]);
    assert_eq!(evaluate_hand(&four), Err(HandError::InvalidHandSize));
    let mut six = hand(&[
        (Suit::Hearts, Rank::Two),
        (Suit::Clubs, Rank::Five),
        (Suit::Diamonds, Rank::Nine),
        (Suit::Spades, Rank::Jack),
        (Suit::Hearts, Rank::King),
    ]);
    six.push(card(Suit::Clubs, Rank::King));
    assert_eq!(evaluate_hand(&six), Err(HandError::InvalidHandSize));
    assert_eq!(evaluate_hand(&Vec::new()), Err(HandError::InvalidHandSize));
}

#[test]
fn test_rank_value_round_trip() {
    let ranks = [
        Rank::Two,
        Rank::Three,
        Rank::Four,
        Rank::Five,
        Rank::Six,
        Rank::Seven,
        Rank::Eight,
        Rank::Nine,
        Rank::Ten,
        Rank::Jack,
        Rank::Queen,
        Rank::King,
        Rank::Ace,
    ];
    for (i, &r) in ranks.iter().enumerate() {
        let v = rank_to_u8(r);
        assert_eq!(v as usize, i + 2);
        assert_eq!(rank_from_u8(v), r);
    }
}
