//! Playing cards: suits, ranks, and the card value itself.
//!
//! A rank is ordinally comparable through its numeric value, Two (2) up to
//! Ace (14); a suit is purely nominal and is only ever tested for equality.

use vstd::prelude::*;

verus! {

/// One of the four nominal card categories. Suits are never ordered; they
/// matter only for flush detection.
#[derive(Debug, Clone, Copy, PartialEq, Eq, Structural)]
pub enum Suit {
    Hearts,
    Diamonds,
    Clubs,
    Spades,
}

/// A card face value, Two (lowest) through Ace (highest).
#[derive(Debug, Clone, Copy, PartialEq, Eq, PartialOrd, Ord, Structural)]
pub enum Rank {
    Two,
    Three,
    Four,
    Five,
    Six,
    Seven,
    Eight,
    Nine,
    Ten,
    Jack,
    Queen,
    King,
    Ace,
}

/// An immutable playing card: a (suit, rank) pair with no further identity.
#[derive(Debug, Clone, Copy, PartialEq, Eq, Structural)]
pub struct Card {
    pub suit: Suit,
    pub rank: Rank,
}

/// The numeric value of a rank: Two maps to 2, ..., Ten to 10, Jack to 11,
/// Queen to 12, King to 13, Ace to 14.
pub open spec fn rank_value(r: Rank) -> int {
    match r {
        Rank::Two => 2,
        Rank::Three => 3,
        Rank::Four => 4,
        Rank::Five => 5,
        Rank::Six => 6,
        Rank::Seven => 7,
        Rank::Eight => 8,
        Rank::Nine => 9,
        Rank::Ten => 10,
        Rank::Jack => 11,
        Rank::Queen => 12,
        Rank::King => 13,
        Rank::Ace => 14,
    }
}

/// The rank whose numeric value is `v`, for `v` between 2 and 14.
pub open spec fn rank_of_value(v: int) -> Rank {
    if v == 2 {
        Rank::Two
    } else if v == 3 {
        Rank::Three
    } else if v == 4 {
        Rank::Four
    } else if v == 5 {
        Rank::Five
    } else if v == 6 {
        Rank::Six
    } else if v == 7 {
        Rank::Seven
    } else if v == 8 {
        Rank::Eight
    } else if v == 9 {
        Rank::Nine
    } else if v == 10 {
        Rank::Ten
    } else if v == 11 {
        Rank::Jack
    } else if v == 12 {
        Rank::Queen
    } else {
        if v == 13 {
            Rank::King
        } else {
            Rank::Ace
        }
    }
}

/// Every rank value lies between 2 and 14.
pub proof fn lemma_rank_value_range(r: Rank)
    ensures
        2 <= rank_value(r) <= 14,
{
}

/// `rank_of_value` inverts `rank_value`.
pub proof fn lemma_rank_value_inverse(r: Rank)
    ensures
        rank_of_value(rank_value(r)) == r,
{
}

/// `rank_value` inverts `rank_of_value` on the numeric range of ranks.
pub proof fn lemma_rank_of_value_inverse(v: int)
    requires
        2 <= v <= 14,
    ensures
        rank_value(rank_of_value(v)) == v,
{
}

/// Distinct ranks have distinct numeric values.
pub proof fn lemma_rank_value_injective(r1: Rank, r2: Rank)
    requires
        rank_value(r1) == rank_value(r2),
    ensures
        r1 == r2,
{
}

/// The numeric value of a rank, as an executable conversion.
pub fn rank_to_u8(r: Rank) -> (v: u8)
    ensures
        v as int == rank_value(r),
{
    match r {
        Rank::Two => 2,
        Rank::Three => 3,
        Rank::Four => 4,
        Rank::Five => 5,
        Rank::Six => 6,
        Rank::Seven => 7,
        Rank::Eight => 8,
        Rank::Nine => 9,
        Rank::Ten => 10,
        Rank::Jack => 11,
        Rank::Queen => 12,
        Rank::King => 13,
        Rank::Ace => 14,
    }
}

/// The rank with the given numeric value, as an executable conversion.
pub fn rank_from_u8(v: u8) -> (r: Rank)
    requires
        2 <= v <= 14,
    ensures
        r == rank_of_value(v as int),
{
    if v == 2 {
        Rank::Two
    } else if v == 3 {
        Rank::Three
    } else if v == 4 {
        Rank::Four
    } else if v == 5 {
        Rank::Five
    } else if v == 6 {
        Rank::Six
    } else if v == 7 {
        Rank::Seven
    } else if v == 8 {
        Rank::Eight
    } else if v == 9 {
        Rank::Nine
    } else if v == 10 {
        Rank::Ten
    } else if v == 11 {
        Rank::Jack
    } else if v == 12 {
        Rank::Queen
    } else {
        if v == 13 {
            Rank::King
        } else {
            Rank::Ace
        }
    }
}

} // verus!
