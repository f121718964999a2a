//! The hand evaluator: classifies a 5-card hand into its poker ranking.
//!
//! The specification model treats a hand as the multiset of its cards, so
//! every contract is independent of the order in which the cards are given.
//! `value_count` counts the cards of one rank value; the classification
//! predicates (flush, straight, pairs and so on) and the classifier
//! `spec_evaluate` are written over those counts.

use vstd::multiset::Multiset;
use vstd::prelude::*;

use crate::cards::Card;
use crate::cards::Rank;
use crate::cards::Suit;
use crate::cards::rank_of_value;
use crate::cards::rank_to_u8;
use crate::cards::rank_from_u8;
use crate::cards::rank_value;
use crate::cards::lemma_rank_value_range;
use crate::cards::lemma_rank_value_inverse;
use crate::cards::lemma_rank_of_value_inverse;
use crate::cards::lemma_rank_value_injective;

verus! {

/// A poker hand classification, weakest to strongest. Each variant except
/// `RoyalFlush` carries the rank(s) used to break ties inside the category:
/// `TwoPair` carries (higher pair, lower pair) and `FullHouse` carries
/// (triple rank, pair rank).
#[derive(Debug, Clone, Copy, PartialEq, Eq, PartialOrd, Ord, Structural)]
pub enum HandRank {
    HighCard(Rank),
    OnePair(Rank),
    TwoPair(Rank, Rank),
    ThreeOfAKind(Rank),
    Straight(Rank),
    Flush(Rank),
    FullHouse(Rank, Rank),
    FourOfAKind(Rank),
    StraightFlush(Rank),
    RoyalFlush,
}

/// A precondition violation reported to the caller instead of a ranking.
#[derive(Debug, Clone, Copy, PartialEq, Eq, Structural)]
pub enum HandError {
    /// `evaluate_hand` was called with a hand of other than 5 cards.
    InvalidHandSize,
    /// `find_best_hand` was called with fewer than 5 cards.
    InsufficientCards,
}

/// How many cards of rank `r` the hand holds: the sum of the multiplicities
/// of the four cards carrying that rank.
pub open spec fn rank_count(m: Multiset<Card>, r: Rank) -> nat {
    m.count((Card { suit: Suit::Hearts, rank: r })) + m.count(
        (Card { suit: Suit::Diamonds, rank: r }),
    ) + m.count((Card { suit: Suit::Clubs, rank: r })) + m.count(
        (Card { suit: Suit::Spades, rank: r }),
    )
}

/// How many cards of rank value `v` the hand holds; 0 outside the rank range.
pub open spec fn value_count(m: Multiset<Card>, v: int) -> nat {
    if 2 <= v <= 14 {
        rank_count(m, rank_of_value(v))
    } else {
        0
    }
}

/// All cards of the hand share one suit.
pub open spec fn is_flush(m: Multiset<Card>) -> bool {
    forall|c1: Card, c2: Card| m.contains(c1) && m.contains(c2) ==> c1.suit == c2.suit
}

/// The hand holds exactly one card of each value `lo`, ..., `lo + 4`.
pub open spec fn straight_from(m: Multiset<Card>, lo: int) -> bool {
    forall|v: int| lo <= v < lo + 5 ==> value_count(m, v) == 1
}

/// The wheel: Ace, Two, Three, Four, Five, the one straight where the Ace
/// acts as low.
pub open spec fn is_wheel(m: Multiset<Card>) -> bool {
    &&& value_count(m, 2) == 1
    &&& value_count(m, 3) == 1
    &&& value_count(m, 4) == 1
    &&& value_count(m, 5) == 1
    &&& value_count(m, 14) == 1
}

/// The five ranks form a run of consecutive values, the wheel included.
pub open spec fn is_straight(m: Multiset<Card>) -> bool {
    is_wheel(m) || (exists|lo: int| 2 <= lo <= 10 && straight_from(m, lo))
}

/// Some rank appears exactly `n` times.
pub open spec fn has_count(m: Multiset<Card>, n: nat) -> bool {
    exists|v: int| 2 <= v <= 14 && value_count(m, v) == n
}

/// Two distinct ranks each appear exactly twice.
pub open spec fn has_two_pairs(m: Multiset<Card>) -> bool {
    exists|v1: int, v2: int|
        2 <= v1 && v1 < v2 <= 14 && value_count(m, v1) == 2 && value_count(m, v2) == 2
}

/// The largest value at most `hi` whose rank appears exactly `n` times,
/// or 0 when there is none.
pub open spec fn max_value_with_count(m: Multiset<Card>, n: nat, hi: int) -> int
    decreases hi,
{
    if hi < 2 {
        0
    } else if value_count(m, hi) == n {
        hi
    } else {
        max_value_with_count(m, n, hi - 1)
    }
}

/// The smallest value at least `lo` whose rank appears exactly `n` times,
/// or 15 when there is none.
pub open spec fn min_value_with_count(m: Multiset<Card>, n: nat, lo: int) -> int
    decreases 15 - lo,
{
    if lo > 14 {
        15
    } else if value_count(m, lo) == n {
        lo
    } else {
        min_value_with_count(m, n, lo + 1)
    }
}

/// The largest value at most `hi` whose rank is present at all, or 0 when
/// the hand is empty.
pub open spec fn highest_value(m: Multiset<Card>, hi: int) -> int
    decreases hi,
{
    if hi < 2 {
        0
    } else if value_count(m, hi) >= 1 {
        hi
    } else {
        highest_value(m, hi - 1)
    }
}

/// The high card of a straight: Five for the wheel, the top of the run
/// otherwise.
pub open spec fn straight_high(m: Multiset<Card>) -> int {
    if is_wheel(m) {
        5
    } else {
        highest_value(m, 14)
    }
}

/// The classification of a 5-card hand, in the strict priority order of the
/// ranking rules: the first matching category wins.
pub open spec fn spec_evaluate(m: Multiset<Card>) -> HandRank
    recommends
        m.len() == 5,
{
    if is_flush(m) && is_straight(m) {
        if straight_from(m, 10) {
            HandRank::RoyalFlush
        } else {
            HandRank::StraightFlush(rank_of_value(straight_high(m)))
        }
    } else if has_count(m, 4) {
        HandRank::FourOfAKind(rank_of_value(max_value_with_count(m, 4, 14)))
    } else if has_count(m, 3) && has_count(m, 2) {
        HandRank::FullHouse(
            rank_of_value(max_value_with_count(m, 3, 14)),
            rank_of_value(max_value_with_count(m, 2, 14)),
        )
    } else if is_flush(m) {
        HandRank::Flush(rank_of_value(highest_value(m, 14)))
    } else if is_straight(m) {
        HandRank::Straight(rank_of_value(straight_high(m)))
    } else if has_count(m, 3) {
        HandRank::ThreeOfAKind(rank_of_value(max_value_with_count(m, 3, 14)))
    } else if has_two_pairs(m) {
        HandRank::TwoPair(
            rank_of_value(max_value_with_count(m, 2, 14)),
            rank_of_value(min_value_with_count(m, 2, 2)),
        )
    } else if has_count(m, 2) {
        HandRank::OnePair(rank_of_value(max_value_with_count(m, 2, 14)))
    } else {
        HandRank::HighCard(rank_of_value(highest_value(m, 14)))
    }
}

/// The position of a ranking's category in the category order, weakest (0)
/// to strongest (9).
pub open spec fn category_index(h: HandRank) -> int {
    match h {
        HandRank::HighCard(_) => 0,
        HandRank::OnePair(_) => 1,
        HandRank::TwoPair(_, _) => 2,
        HandRank::ThreeOfAKind(_) => 3,
        HandRank::Straight(_) => 4,
        HandRank::Flush(_) => 5,
        HandRank::FullHouse(_, _) => 6,
        HandRank::FourOfAKind(_) => 7,
        HandRank::StraightFlush(_) => 8,
        HandRank::RoyalFlush => 9,
    }
}

/// The first tie-break value of a ranking, 0 where the category carries none.
pub open spec fn tie_break_1(h: HandRank) -> int {
    match h {
        HandRank::HighCard(r) => rank_value(r),
        HandRank::OnePair(r) => rank_value(r),
        HandRank::TwoPair(hi, _) => rank_value(hi),
        HandRank::ThreeOfAKind(r) => rank_value(r),
        HandRank::Straight(r) => rank_value(r),
        HandRank::Flush(r) => rank_value(r),
        HandRank::FullHouse(t, _) => rank_value(t),
        HandRank::FourOfAKind(r) => rank_value(r),
        HandRank::StraightFlush(r) => rank_value(r),
        HandRank::RoyalFlush => 0,
    }
}

/// The second tie-break value of a ranking, 0 where the category carries at
/// most one.
pub open spec fn tie_break_2(h: HandRank) -> int {
    match h {
        HandRank::TwoPair(_, lo) => rank_value(lo),
        HandRank::FullHouse(_, p) => rank_value(p),
        _ => 0,
    }
}

/// The hand-rank order: first by category, then by the carried tie-break
/// ranks, highest first.
pub open spec fn hand_rank_le(a: HandRank, b: HandRank) -> bool {
    ||| category_index(a) < category_index(b)
    ||| (category_index(a) == category_index(b) && tie_break_1(a) < tie_break_1(b))
    ||| (category_index(a) == category_index(b) && tie_break_1(a) == tie_break_1(b)
        && tie_break_2(a) <= tie_break_2(b))
}

impl HandRank {
    /// Whether this ranking is at most `other` in the hand-rank order.
    pub fn leq(&self, other: &HandRank) -> (r: bool)
        ensures
            r == hand_rank_le(*self, *other),
    {
        let (ca, a1, a2) = self.order_key();
        let (cb, b1, b2) = other.order_key();
        ca < cb || (ca == cb && a1 < b1) || (ca == cb && a1 == b1 && a2 <= b2)
    }

    /// The (category, first tie-break, second tie-break) triple the order
    /// compares by.
    fn order_key(&self) -> (k: (u8, u8, u8))
        ensures
            k.0 as int == category_index(*self),
            k.1 as int == tie_break_1(*self),
            k.2 as int == tie_break_2(*self),
    {
        match self {
            HandRank::HighCard(r) => (0, rank_to_u8(*r), 0),
            HandRank::OnePair(r) => (1, rank_to_u8(*r), 0),
            HandRank::TwoPair(hi, lo) => (2, rank_to_u8(*hi), rank_to_u8(*lo)),
            HandRank::ThreeOfAKind(r) => (3, rank_to_u8(*r), 0),
            HandRank::Straight(r) => (4, rank_to_u8(*r), 0),
            HandRank::Flush(r) => (5, rank_to_u8(*r), 0),
            HandRank::FullHouse(t, p) => (6, rank_to_u8(*t), rank_to_u8(*p)),
            HandRank::FourOfAKind(r) => (7, rank_to_u8(*r), 0),
            HandRank::StraightFlush(r) => (8, rank_to_u8(*r), 0),
            HandRank::RoyalFlush => (9, 0, 0),
        }
    }
}

/// How many cards of rank value `v` a sequence of cards holds.
pub open spec fn seq_value_count(s: Seq<Card>, v: int) -> nat
    decreases s.len(),
{
    if s.len() == 0 {
        0
    } else {
        seq_value_count(s.drop_last(), v) + (if rank_value(s.last().rank) == v {
            1nat
        } else {
            0nat
        })
    }
}

/// Counting by rank value in a sequence agrees with counting in the
/// multiset of its elements.
pub proof fn lemma_seq_value_count(s: Seq<Card>, v: int)
    ensures
        seq_value_count(s, v) == value_count(s.to_multiset(), v),
    decreases s.len(),
{
    broadcast use vstd::seq_lib::group_to_multiset_ensures;
    broadcast use vstd::multiset::group_multiset_axioms;

    if s.len() == 0 {
        assert(s.to_multiset().len() == 0);
    } else {
        let s0 = s.drop_last();
        let c = s.last();
        assert(s =~= s0.push(c));
        lemma_seq_value_count(s0, v);
        assert(s0.push(c).to_multiset() =~= s0.to_multiset().insert(c));
        lemma_rank_value_range(c.rank);
        if 2 <= v <= 14 {
            lemma_rank_of_value_inverse(v);
            if rank_value(c.rank) == v {
                lemma_rank_value_inverse(c.rank);
            }
        }
    }
}

/// "All cards share a suit" said of a sequence and said of its multiset are
/// the same statement.
pub proof fn lemma_flush_to_multiset(s: Seq<Card>)
    ensures
        (forall|i: int| 0 <= i < s.len() ==> (#[trigger] s[i]).suit == s[0].suit) <==> is_flush(
            s.to_multiset(),
        ),
{
    broadcast use vstd::seq_lib::group_to_multiset_ensures;

    let m = s.to_multiset();
    if forall|i: int| 0 <= i < s.len() ==> (#[trigger] s[i]).suit == s[0].suit {
        assert forall|c1: Card, c2: Card| m.contains(c1) && m.contains(c2) implies c1.suit
            == c2.suit by {
            assert(s.contains(c1));
            assert(s.contains(c2));
            let i1 = choose|i: int| 0 <= i < s.len() && s[i] == c1;
            let i2 = choose|i: int| 0 <= i < s.len() && s[i] == c2;
            assert(s[i1].suit == s[0].suit);
            assert(s[i2].suit == s[0].suit);
        }
    }
    if is_flush(m) {
        assert forall|i: int| 0 <= i < s.len() implies (#[trigger] s[i]).suit == s[0].suit by {
            assert(s.contains(s[i]));
            assert(s.contains(s[0]));
            assert(m.contains(s[i]));
            assert(m.contains(s[0]));
        }
    }
}

/// A non-empty hand holds a card of some rank value.
pub proof fn lemma_present_value(m: Multiset<Card>)
    requires
        m.len() > 0,
    ensures
        exists|v: int| 2 <= v <= 14 && value_count(m, v) >= 1,
{
    broadcast use vstd::multiset::group_multiset_axioms;

    let c = m.choose();
    assert(m.count(c) > 0);
    let v = rank_value(c.rank);
    lemma_rank_value_range(c.rank);
    lemma_rank_value_inverse(c.rank);
    assert(value_count(m, v) >= 1);
}

/// The sequence of counts linked to a hand: entry `v` is the number of cards
/// of rank value `v` the hand holds.
pub open spec fn counts_match(c: Seq<usize>, m: Multiset<Card>) -> bool {
    &&& c.len() == 15
    &&& forall|v: int| 0 <= v < 15 ==> c[v] as nat == value_count(m, v)
}

/// The frequency table of a hand: a vector indexed by rank value whose
/// entry `v` counts the cards of that value.
pub fn get_rank_counts(cards: &Vec<Card>) -> (counts: Vec<usize>)
    ensures
        counts_match(counts@, cards@.to_multiset()),
{
    let mut counts: Vec<usize> = Vec::new();
    let mut j: usize = 0;
    while j < 15
        invariant
            counts@.len() == j,
            j <= 15,
            forall|v: int| 0 <= v < j ==> counts@[v] == 0,
        decreases 15 - j,
    {
        counts.push(0);
        j += 1;
    }
    let mut i: usize = 0;
    while i < cards.len()
        invariant
            counts@.len() == 15,
            i <= cards@.len(),
            forall|v: int| 0 <= v < 15 ==> counts@[v] as nat == seq_value_count(
                cards@.take(i as int),
                v,
            ),
            forall|v: int| 0 <= v < 15 ==> counts@[v] <= i,
        decreases cards@.len() - i,
    {
        let vv = rank_to_u8(cards[i].rank) as usize;
        proof {
            lemma_rank_value_range(cards@[i as int].rank);
        }
        let c0 = counts[vv];
        counts[vv] = c0 + 1;
        proof {
            assert(cards@.take(i + 1).drop_last() =~= cards@.take(i as int));
            assert(cards@.take(i + 1).last() == cards@[i as int]);
        }
        i += 1;
    }
    proof {
        assert(cards@.take(cards@.len() as int) =~= cards@);
        assert forall|v: int| 0 <= v < 15 implies counts@[v] as nat == value_count(
            cards@.to_multiset(),
            v,
        ) by {
            lemma_seq_value_count(cards@, v);
        }
    }
    counts
}

/// Whether all cards of the hand share one suit.
fn all_same_suit(cards: &Vec<Card>) -> (r: bool)
    requires
        cards@.len() > 0,
    ensures
        r == is_flush(cards@.to_multiset()),
{
    let first = cards[0].suit;
    let mut all: bool = true;
    let mut i: usize = 0;
    while i < cards.len()
        invariant
            0 < cards@.len(),
            i <= cards@.len(),
            first == cards@[0].suit,
            all == forall|j: int| 0 <= j < i ==> (#[trigger] cards@[j]).suit == cards@[0].suit,
        decreases cards@.len() - i,
    {
        if !(cards[i].suit == first) {
            all = false;
        }
        i += 1;
    }
    proof {
        lemma_flush_to_multiset(cards@);
    }
    all
}

/// Whether some rank appears exactly `n` times, read off the frequency table.
fn has_count_of(counts: &Vec<usize>, n: usize, m: Ghost<Multiset<Card>>) -> (r: bool)
    requires
        counts_match(counts@, m@),
    ensures
        r == has_count(m@, n as nat),
{
    let mut v: usize = 2;
    let mut found: bool = false;
    while v <= 14
        invariant
            2 <= v <= 15,
            counts_match(counts@, m@),
            found == exists|w: int| 2 <= w < v && #[trigger] value_count(m@, w) == n as nat,
        decreases 15 - v,
    {
        if counts[v] == n {
            found = true;
            proof {
                assert(value_count(m@, v as int) == n as nat);
            }
        }
        v += 1;
    }
    found
}

/// Whether the hand holds four cards of one rank.
fn has_four_of_a_kind(counts: &Vec<usize>, m: Ghost<Multiset<Card>>) -> (r: bool)
    requires
        counts_match(counts@, m@),
    ensures
        r == has_count(m@, 4),
{
    has_count_of(counts, 4, m)
}

/// Whether the hand holds three cards of one rank and two of another.
fn has_full_house(counts: &Vec<usize>, m: Ghost<Multiset<Card>>) -> (r: bool)
    requires
        counts_match(counts@, m@),
    ensures
        r == (has_count(m@, 3) && has_count(m@, 2)),
{
    has_three_of_a_kind(counts, m) && has_one_pair(counts, m)
}

/// Whether the hand holds three cards of one rank.
fn has_three_of_a_kind(counts: &Vec<usize>, m: Ghost<Multiset<Card>>) -> (r: bool)
    requires
        counts_match(counts@, m@),
    ensures
        r == has_count(m@, 3),
{
    has_count_of(counts, 3, m)
}

/// Whether the hand holds two pairs of distinct ranks.
fn has_two_pair(counts: &Vec<usize>, m: Ghost<Multiset<Card>>) -> (r: bool)
    requires
        counts_match(counts@, m@),
    ensures
        r == has_two_pairs(m@),
{
    let mut v: usize = 2;
    let mut one: bool = false;
    let mut two: bool = false;
    while v <= 14
        invariant
            2 <= v <= 15,
            counts_match(counts@, m@),
            one == exists|w: int| 2 <= w < v && #[trigger] value_count(m@, w) == 2,
            two == exists|w1: int, w2: int|
                2 <= w1 && w1 < w2 < v && #[trigger] value_count(m@, w1) == 2
                    && #[trigger] value_count(m@, w2) == 2,
        decreases 15 - v,
    {
        if counts[v] == 2 {
            proof {
                assert(value_count(m@, v as int) == 2);
                if one {
                    let w = choose|w: int| 2 <= w < v && #[trigger] value_count(m@, w) == 2;
                    assert(2 <= w && w < v as int && value_count(m@, w) == 2 && value_count(
                        m@,
                        v as int,
                    ) == 2);
                }
            }
            if one {
                two = true;
            } else {
                one = true;
            }
        }
        v += 1;
    }
    two
}

/// Whether the hand holds a pair: some rank appearing exactly twice.
fn has_one_pair(counts: &Vec<usize>, m: Ghost<Multiset<Card>>) -> (r: bool)
    requires
        counts_match(counts@, m@),
    ensures
        r == has_count(m@, 2),
{
    has_count_of(counts, 2, m)
}

/// The highest rank that appears exactly `n` times.
fn get_n_of_a_kind_rank(counts: &Vec<usize>, n: usize, m: Ghost<Multiset<Card>>) -> (r: Rank)
    requires
        counts_match(counts@, m@),
        has_count(m@, n as nat),
    ensures
        r == rank_of_value(max_value_with_count(m@, n as nat, 14)),
{
    let mut v: usize = 14;
    while counts[v] != n
        invariant
            2 <= v <= 14,
            counts_match(counts@, m@),
            has_count(m@, n as nat),
            max_value_with_count(m@, n as nat, 14) == max_value_with_count(m@, n as nat, v as int),
            forall|w: int| v < w <= 14 ==> #[trigger] value_count(m@, w) != n as nat,
        decreases v,
    {
        proof {
            assert(value_count(m@, v as int) != n as nat);
            if v == 2 {
                assert(false);
            }
        }
        v -= 1;
    }
    proof {
        assert(value_count(m@, v as int) == n as nat);
    }
    rank_from_u8(v as u8)
}

/// The higher of the hand's two pair ranks.
fn get_high_pair_rank(counts: &Vec<usize>, m: Ghost<Multiset<Card>>) -> (r: Rank)
    requires
        counts_match(counts@, m@),
        has_count(m@, 2),
    ensures
        r == rank_of_value(max_value_with_count(m@, 2, 14)),
{
    get_n_of_a_kind_rank(counts, 2, m)
}

/// The lower of the hand's two pair ranks.
fn get_low_pair_rank(counts: &Vec<usize>, m: Ghost<Multiset<Card>>) -> (r: Rank)
    requires
        counts_match(counts@, m@),
        has_count(m@, 2),
    ensures
        r == rank_of_value(min_value_with_count(m@, 2, 2)),
{
    let mut v: usize = 2;
    while counts[v] != 2
        invariant
            2 <= v <= 14,
            counts_match(counts@, m@),
            has_count(m@, 2),
            min_value_with_count(m@, 2, 2) == min_value_with_count(m@, 2, v as int),
            forall|w: int| 2 <= w < v ==> #[trigger] value_count(m@, w) != 2,
        decreases 15 - v,
    {
        proof {
            assert(value_count(m@, v as int) != 2);
            if v == 14 {
                assert(false);
            }
        }
        v += 1;
    }
    proof {
        assert(value_count(m@, v as int) == 2);
    }
    rank_from_u8(v as u8)
}

/// The highest rank present in the hand.
fn get_highest_rank(counts: &Vec<usize>, m: Ghost<Multiset<Card>>) -> (r: Rank)
    requires
        counts_match(counts@, m@),
        m@.len() > 0,
    ensures
        r == rank_of_value(highest_value(m@, 14)),
{
    proof {
        lemma_present_value(m@);
    }
    let mut v: usize = 14;
    while counts[v] == 0
        invariant
            2 <= v <= 14,
            counts_match(counts@, m@),
            exists|w: int| 2 <= w <= 14 && #[trigger] value_count(m@, w) >= 1,
            highest_value(m@, 14) == highest_value(m@, v as int),
            forall|w: int| v < w <= 14 ==> #[trigger] value_count(m@, w) == 0,
        decreases v,
    {
        proof {
            assert(value_count(m@, v as int) == 0);
            if v == 2 {
                assert(false);
            }
        }
        v -= 1;
    }
    proof {
        assert(value_count(m@, v as int) >= 1);
    }
    rank_from_u8(v as u8)
}

/// Whether the five ranks form a straight: a run of five consecutive values,
/// or the wheel.
fn is_consecutive(counts: &Vec<usize>, m: Ghost<Multiset<Card>>) -> (r: bool)
    requires
        counts_match(counts@, m@),
    ensures
        r == is_straight(m@),
{
    if counts[2] == 1 && counts[3] == 1 && counts[4] == 1 && counts[5] == 1 && counts[14] == 1 {
        proof {
            assert(is_wheel(m@));
        }
        return true;
    }
    let mut lo: usize = 2;
    while lo <= 10
        invariant
            2 <= lo <= 11,
            counts_match(counts@, m@),
            !is_wheel(m@),
            forall|l: int| 2 <= l < lo ==> !straight_from(m@, l),
        decreases 11 - lo,
    {
        if counts[lo] == 1 && counts[lo + 1] == 1 && counts[lo + 2] == 1 && counts[lo + 3] == 1
            && counts[lo + 4] == 1 {
            proof {
                assert forall|v: int| lo <= v < lo + 5 implies value_count(m@, v) == 1 by {
                    assert(v == lo || v == lo + 1 || v == lo + 2 || v == lo + 3 || v == lo + 4);
                }
                assert(straight_from(m@, lo as int));
            }
            return true;
        }
        proof {
            if straight_from(m@, lo as int) {
                assert(value_count(m@, lo as int) == 1);
                assert(value_count(m@, lo + 1) == 1);
                assert(value_count(m@, lo + 2) == 1);
                assert(value_count(m@, lo + 3) == 1);
                assert(value_count(m@, lo + 4) == 1);
                assert(false);
            }
        }
        lo += 1;
    }
    proof {
        assert forall|l: int| 2 <= l <= 10 implies !straight_from(m@, l) by {}
    }
    false
}

/// The high card of the hand's straight: Five for the wheel, the top of the
/// run otherwise.
fn get_straight_high(counts: &Vec<usize>, m: Ghost<Multiset<Card>>) -> (r: Rank)
    requires
        counts_match(counts@, m@),
        m@.len() > 0,
    ensures
        r == rank_of_value(straight_high(m@)),
{
    if counts[2] == 1 && counts[3] == 1 && counts[4] == 1 && counts[5] == 1 && counts[14] == 1 {
        proof {
            assert(is_wheel(m@));
        }
        Rank::Five
    } else {
        proof {
            assert(!is_wheel(m@));
        }
        get_highest_rank(counts, m)
    }
}

/// Classifies a hand of exactly 5 cards into its poker ranking; any other
/// hand size is rejected with `InvalidHandSize`. The result depends only on
/// the multiset of the cards, never on their order.
pub fn evaluate_hand(cards: &Vec<Card>) -> (r: Result<HandRank, HandError>)
    ensures
        cards@.len() == 5 ==> r == Ok::<HandRank, HandError>(spec_evaluate(cards@.to_multiset())),
        cards@.len() != 5 ==> r == Err::<HandRank, HandError>(HandError::InvalidHandSize),
{
    if cards.len() != 5 {
        return Err(HandError::InvalidHandSize);
    }
    let ghost m = cards@.to_multiset();
    proof {
        broadcast use vstd::seq_lib::group_to_multiset_ensures;

        assert(m.len() == 5);
    }
    let counts = get_rank_counts(cards);
    let flush = all_same_suit(cards);
    let straight = is_consecutive(&counts, Ghost(m));
    if flush && straight {
        if counts[10] == 1 && counts[11] == 1 && counts[12] == 1 && counts[13] == 1 && counts[14]
            == 1 {
            proof {
                assert forall|v: int| 10 <= v < 15 implies value_count(m, v) == 1 by {
                    assert(v == 10 || v == 11 || v == 12 || v == 13 || v == 14);
                }
                assert(straight_from(m, 10));
            }
            Ok(HandRank::RoyalFlush)
        } else {
            proof {
                if straight_from(m, 10) {
                    assert(value_count(m, 10) == 1);
                    assert(value_count(m, 11) == 1);
                    assert(value_count(m, 12) == 1);
                    assert(value_count(m, 13) == 1);
                    assert(value_count(m, 14) == 1);
                    assert(false);
                }
            }
            Ok(HandRank::StraightFlush(get_straight_high(&counts, Ghost(m))))
        }
    } else if has_four_of_a_kind(&counts, Ghost(m)) {
        Ok(HandRank::FourOfAKind(get_n_of_a_kind_rank(&counts, 4, Ghost(m))))
    } else if has_full_house(&counts, Ghost(m)) {
        let trip = get_n_of_a_kind_rank(&counts, 3, Ghost(m));
        let pair = get_n_of_a_kind_rank(&counts, 2, Ghost(m));
        Ok(HandRank::FullHouse(trip, pair))
    } else if flush {
        Ok(HandRank::Flush(get_highest_rank(&counts, Ghost(m))))
    } else if straight {
        Ok(HandRank::Straight(get_straight_high(&counts, Ghost(m))))
    } else if has_three_of_a_kind(&counts, Ghost(m)) {
        Ok(HandRank::ThreeOfAKind(get_n_of_a_kind_rank(&counts, 3, Ghost(m))))
    } else if has_two_pair(&counts, Ghost(m)) {
        proof {
            let (w1, w2) = choose|w1: int, w2: int|
                2 <= w1 && w1 < w2 <= 14 && value_count(m, w1) == 2 && value_count(m, w2) == 2;
            assert(2 <= w1 <= 14 && value_count(m, w1) == 2);
        }
        let high = get_high_pair_rank(&counts, Ghost(m));
        let low = get_low_pair_rank(&counts, Ghost(m));
        Ok(HandRank::TwoPair(high, low))
    } else if has_one_pair(&counts, Ghost(m)) {
        Ok(HandRank::OnePair(get_n_of_a_kind_rank(&counts, 2, Ghost(m))))
    } else {
        Ok(HandRank::HighCard(get_highest_rank(&counts, Ghost(m))))
    }
}

/// `evaluate_hand` is invariant under any reordering of its 5 cards: two
/// card sequences holding the same cards, with the same multiplicities,
/// have the same length and the same classification.
pub proof fn lemma_evaluate_permutation_invariant(s1: Seq<Card>, s2: Seq<Card>)
    requires
        s1.to_multiset() == s2.to_multiset(),
    ensures
        s1.len() == s2.len(),
        spec_evaluate(s1.to_multiset()) == spec_evaluate(s2.to_multiset()),
{
    broadcast use vstd::seq_lib::group_to_multiset_ensures;

    assert(s1.len() == s1.to_multiset().len());
    assert(s2.len() == s2.to_multiset().len());
}

/// The multiset of a 5-card hand given card by card.
pub open spec fn five_cards(c1: Card, c2: Card, c3: Card, c4: Card, c5: Card) -> Multiset<Card> {
    Multiset::empty().insert(c1).insert(c2).insert(c3).insert(c4).insert(c5)
}

/// The wheel — Ace, Two, Three, Four, Five of one suit — classifies as a
/// straight flush whose tie-break rank is Five, not Ace.
pub proof fn lemma_wheel_is_five_high(s: Suit)
    ensures
        spec_evaluate(
            five_cards(
                (Card { suit: s, rank: Rank::Ace }),
                (Card { suit: s, rank: Rank::Two }),
                (Card { suit: s, rank: Rank::Three }),
                (Card { suit: s, rank: Rank::Four }),
                (Card { suit: s, rank: Rank::Five }),
            ),
        ) == HandRank::StraightFlush(Rank::Five),
{
    broadcast use vstd::multiset::group_multiset_axioms;

    let ca = Card { suit: s, rank: Rank::Ace };
    let c2 = Card { suit: s, rank: Rank::Two };
    let c3 = Card { suit: s, rank: Rank::Three };
    let c4 = Card { suit: s, rank: Rank::Four };
    let c5 = Card { suit: s, rank: Rank::Five };
    let m = five_cards(ca, c2, c3, c4, c5);
    assert(value_count(m, 2) == 1);
    assert(value_count(m, 3) == 1);
    assert(value_count(m, 4) == 1);
    assert(value_count(m, 5) == 1);
    assert(value_count(m, 14) == 1);
    assert(is_wheel(m));
    assert(value_count(m, 10) == 0);
    assert(!straight_from(m, 10));
    assert forall|x: Card, y: Card| m.contains(x) && m.contains(y) implies x.suit == y.suit by {
        assert(x == ca || x == c2 || x == c3 || x == c4 || x == c5);
        assert(y == ca || y == c2 || y == c3 || y == c4 || y == c5);
    }
    assert(is_flush(m));
}

/// Ten, Jack, Queen, King, Ace of one suit classify as a royal flush.
pub proof fn lemma_royal_flush(s: Suit)
    ensures
        spec_evaluate(
            five_cards(
                (Card { suit: s, rank: Rank::Ten }),
                (Card { suit: s, rank: Rank::Jack }),
                (Card { suit: s, rank: Rank::Queen }),
                (Card { suit: s, rank: Rank::King }),
                (Card { suit: s, rank: Rank::Ace }),
            ),
        ) == HandRank::RoyalFlush,
{
    broadcast use vstd::multiset::group_multiset_axioms;

    let ct = Card { suit: s, rank: Rank::Ten };
    let cj = Card { suit: s, rank: Rank::Jack };
    let cq = Card { suit: s, rank: Rank::Queen };
    let ck = Card { suit: s, rank: Rank::King };
    let ca = Card { suit: s, rank: Rank::Ace };
    let m = five_cards(ct, cj, cq, ck, ca);
    assert forall|v: int| 10 <= v < 15 implies value_count(m, v) == 1 by {
        assert(v == 10 || v == 11 || v == 12 || v == 13 || v == 14);
        assert(value_count(m, 10) == 1);
        assert(value_count(m, 11) == 1);
        assert(value_count(m, 12) == 1);
        assert(value_count(m, 13) == 1);
        assert(value_count(m, 14) == 1);
    }
    assert(straight_from(m, 10));
    assert(2 <= 10 <= 10 && straight_from(m, 10));
    assert(is_straight(m));
    assert forall|x: Card, y: Card| m.contains(x) && m.contains(y) implies x.suit == y.suit by {
        assert(x == ct || x == cj || x == cq || x == ck || x == ca);
        assert(y == ct || y == cj || y == cq || y == ck || y == ca);
    }
    assert(is_flush(m));
}

/// A ranking of a strictly stronger category beats any ranking of a weaker
/// one, whatever the tie-break ranks: the category order is
/// RoyalFlush > StraightFlush > FourOfAKind > FullHouse > Flush > Straight
/// > ThreeOfAKind > TwoPair > OnePair > HighCard.
pub proof fn lemma_category_order(a: HandRank, b: HandRank)
    requires
        category_index(a) < category_index(b),
    ensures
        hand_rank_le(a, b),
        !hand_rank_le(b, a),
{
}

/// The hand-rank order is total: any two rankings are comparable.
pub proof fn lemma_hand_rank_le_total(a: HandRank, b: HandRank)
    ensures
        hand_rank_le(a, b) || hand_rank_le(b, a),
{
}

/// The hand-rank order is transitive.
pub proof fn lemma_hand_rank_le_transitive(a: HandRank, b: HandRank, c: HandRank)
    requires
        hand_rank_le(a, b),
        hand_rank_le(b, c),
    ensures
        hand_rank_le(a, c),
{
}

/// Two rankings of the same category with identical tie-break ranks are the
/// same ranking, so they compare equal; this is what lets a caller detect a
/// split pot.
pub proof fn lemma_identical_tie_breaks_equal(a: HandRank, b: HandRank)
    requires
        category_index(a) == category_index(b),
        tie_break_1(a) == tie_break_1(b),
        tie_break_2(a) == tie_break_2(b),
    ensures
        a == b,
{
    match (a, b) {
        (HandRank::HighCard(r1), HandRank::HighCard(r2)) => {
            lemma_rank_value_injective(r1, r2);
        },
        (HandRank::OnePair(r1), HandRank::OnePair(r2)) => {
            lemma_rank_value_injective(r1, r2);
        },
        (HandRank::TwoPair(h1, l1), HandRank::TwoPair(h2, l2)) => {
            lemma_rank_value_injective(h1, h2);
            lemma_rank_value_injective(l1, l2);
        },
        (HandRank::ThreeOfAKind(r1), HandRank::ThreeOfAKind(r2)) => {
            lemma_rank_value_injective(r1, r2);
        },
        (HandRank::Straight(r1), HandRank::Straight(r2)) => {
            lemma_rank_value_injective(r1, r2);
        },
        (HandRank::Flush(r1), HandRank::Flush(r2)) => {
            lemma_rank_value_injective(r1, r2);
        },
        (HandRank::FullHouse(t1, p1), HandRank::FullHouse(t2, p2)) => {
            lemma_rank_value_injective(t1, t2);
            lemma_rank_value_injective(p1, p2);
        },
        (HandRank::FourOfAKind(r1), HandRank::FourOfAKind(r2)) => {
            lemma_rank_value_injective(r1, r2);
        },
        (HandRank::StraightFlush(r1), HandRank::StraightFlush(r2)) => {
            lemma_rank_value_injective(r1, r2);
        },
        _ => {},
    }
}

/// The hand-rank order is antisymmetric: rankings that compare at most each
/// other are equal.
pub proof fn lemma_hand_rank_le_antisymmetric(a: HandRank, b: HandRank)
    requires
        hand_rank_le(a, b),
        hand_rank_le(b, a),
    ensures
        a == b,
{
    lemma_identical_tie_breaks_equal(a, b);
}

} // verus!
