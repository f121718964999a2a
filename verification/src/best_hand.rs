//! The combination generator: enumerates every 5-card sub-hand of a larger
//! pool of cards and picks the best-ranked one.
//!
//! A sub-hand is identified by an ascending 5-element index combination, so
//! duplicate card values in the pool count as distinct slots. The search
//! returns the maximum evaluator result over all such combinations.

use vstd::prelude::*;

use crate::cards::Card;
use crate::hand_evaluator::HandError;
use crate::hand_evaluator::HandRank;
use crate::hand_evaluator::hand_rank_le;
use crate::hand_evaluator::lemma_hand_rank_le_total;
use crate::hand_evaluator::lemma_hand_rank_le_transitive;
use crate::hand_evaluator::evaluate_hand;
use crate::hand_evaluator::spec_evaluate;

verus! {

/// Whether `(i1, ..., i5)` is an ascending 5-element index combination
/// of `0 .. n`.
pub open spec fn is_combo(n: int, i1: int, i2: int, i3: int, i4: int, i5: int) -> bool {
    0 <= i1 && i1 < i2 && i2 < i3 && i3 < i4 && i4 < i5 && i5 < n
}

/// The 5-card sub-hand of `s` picked out by an index combination.
pub open spec fn combo_seq(s: Seq<Card>, i1: int, i2: int, i3: int, i4: int, i5: int) -> Seq<
    Card,
> {
    seq![s[i1], s[i2], s[i3], s[i4], s[i5]]
}

/// Whether the list `r` holds the sub-hand of `s` at `(i1, ..., i5)`.
pub open spec fn has_combo(
    r: Seq<Vec<Card>>,
    s: Seq<Card>,
    i1: int,
    i2: int,
    i3: int,
    i4: int,
    i5: int,
) -> bool {
    exists|k: int| 0 <= k < r.len() && r[k]@ == combo_seq(s, i1, i2, i3, i4, i5)
}

/// Strict lexicographic order on index 5-tuples.
pub open spec fn lex_before(
    j1: int,
    j2: int,
    j3: int,
    j4: int,
    j5: int,
    i1: int,
    i2: int,
    i3: int,
    i4: int,
    i5: int,
) -> bool {
    ||| j1 < i1
    ||| (j1 == i1 && j2 < i2)
    ||| (j1 == i1 && j2 == i2 && j3 < i3)
    ||| (j1 == i1 && j2 == i2 && j3 == i3 && j4 < i4)
    ||| (j1 == i1 && j2 == i2 && j3 == i3 && j4 == i4 && j5 < i5)
}

/// The list `r` holds every index combination of `s` lexicographically
/// before `(i1, ..., i5)`.
pub open spec fn covered_before(
    r: Seq<Vec<Card>>,
    s: Seq<Card>,
    i1: int,
    i2: int,
    i3: int,
    i4: int,
    i5: int,
) -> bool {
    forall|j1: int, j2: int, j3: int, j4: int, j5: int|
        is_combo(s.len() as int, j1, j2, j3, j4, j5) && lex_before(
            j1,
            j2,
            j3,
            j4,
            j5,
            i1,
            i2,
            i3,
            i4,
            i5,
        ) ==> #[trigger] has_combo(r, s, j1, j2, j3, j4, j5)
}

/// Every element of the list `r` is a 5-card sub-hand of `s`.
pub open spec fn all_combos(r: Seq<Vec<Card>>, s: Seq<Card>) -> bool {
    forall|k: int|
        0 <= k < r.len() ==> exists|i1: int, i2: int, i3: int, i4: int, i5: int|
            is_combo(s.len() as int, i1, i2, i3, i4, i5) && (#[trigger] r[k])@ == combo_seq(
                s,
                i1,
                i2,
                i3,
                i4,
                i5,
            )
}

/// Enumerates every 5-card sub-hand of the pool, one per ascending index
/// combination, in lexicographic index order.
#[verifier::loop_isolation(false)]
#[verifier::rlimit(100)]
pub fn get_five_card_combinations(cards: &Vec<Card>) -> (r: Vec<Vec<Card>>)
    requires
        cards@.len() >= 5,
    ensures
        all_combos(r@, cards@),
        forall|i1: int, i2: int, i3: int, i4: int, i5: int|
            is_combo(cards@.len() as int, i1, i2, i3, i4, i5) ==> #[trigger] has_combo(
                r@,
                cards@,
                i1,
                i2,
                i3,
                i4,
                i5,
            ),
{
    let n: usize = cards.len();
    let mut combos: Vec<Vec<Card>> = Vec::new();
    for i1 in 0..(n - 4)
        invariant
            all_combos(combos@, cards@),
            covered_before(
                combos@,
                cards@,
                i1 as int,
                i1 + 1,
                i1 + 2,
                i1 + 3,
                i1 + 4,
            ),
    {
        for i2 in (i1 + 1)..(n - 3)
            invariant
                all_combos(combos@, cards@),
                covered_before(combos@, cards@, i1 as int, i2 as int, i2 + 1, i2 + 2, i2 + 3),
        {
            for i3 in (i2 + 1)..(n - 2)
                invariant
                    all_combos(combos@, cards@),
                    covered_before(combos@, cards@, i1 as int, i2 as int, i3 as int, i3 + 1, i3 + 2),
            {
                for i4 in (i3 + 1)..(n - 1)
                    invariant
                        all_combos(combos@, cards@),
                        covered_before(
                            combos@,
                            cards@,
                            i1 as int,
                            i2 as int,
                            i3 as int,
                            i4 as int,
                            i4 + 1,
                        ),
                {
                    for i5 in (i4 + 1)..n
                        invariant
                            all_combos(combos@, cards@),
                            covered_before(
                                combos@,
                                cards@,
                                i1 as int,
                                i2 as int,
                                i3 as int,
                                i4 as int,
                                i5 as int,
                            ),
                    {
                        let mut hand: Vec<Card> = Vec::new();
                        hand.push(cards[i1]);
                        hand.push(cards[i2]);
                        hand.push(cards[i3]);
                        hand.push(cards[i4]);
                        hand.push(cards[i5]);
                        proof {
                            assert(hand@ =~= combo_seq(
                                cards@,
                                i1 as int,
                                i2 as int,
                                i3 as int,
                                i4 as int,
                                i5 as int,
                            ));
                        }
                        let ghost old_combos = combos@;
                        combos.push(hand);
                        proof {
                            assert(combos@[old_combos.len() as int]@ == combo_seq(
                                cards@,
                                i1 as int,
                                i2 as int,
                                i3 as int,
                                i4 as int,
                                i5 as int,
                            ));
                            assert forall|k: int| 0 <= k < old_combos.len() implies combos@[k]
                                == old_combos[k] by {}
                            assert forall|j1: int, j2: int, j3: int, j4: int, j5: int|
                                is_combo(cards@.len() as int, j1, j2, j3, j4, j5) && lex_before(
                                    j1,
                                    j2,
                                    j3,
                                    j4,
                                    j5,
                                    i1 as int,
                                    i2 as int,
                                    i3 as int,
                                    i4 as int,
                                    i5 + 1,
                                ) implies #[trigger] has_combo(
                                combos@,
                                cards@,
                                j1,
                                j2,
                                j3,
                                j4,
                                j5,
                            ) by {
                                if lex_before(
                                    j1,
                                    j2,
                                    j3,
                                    j4,
                                    j5,
                                    i1 as int,
                                    i2 as int,
                                    i3 as int,
                                    i4 as int,
                                    i5 as int,
                                ) {
                                    assert(has_combo(old_combos, cards@, j1, j2, j3, j4, j5));
                                    let k = choose|k: int|
                                        0 <= k < old_combos.len() && old_combos[k]@ == combo_seq(
                                            cards@,
                                            j1,
                                            j2,
                                            j3,
                                            j4,
                                            j5,
                                        );
                                    assert(combos@[k]@ == combo_seq(cards@, j1, j2, j3, j4, j5));
                                } else {
                                    assert(combos@[old_combos.len() as int]@ == combo_seq(
                                        cards@,
                                        j1,
                                        j2,
                                        j3,
                                        j4,
                                        j5,
                                    ));
                                }
                            }
                        }
                    }
                }
            }
        }
    }
    combos
}

/// Whether `h` is the best ranking obtainable from some 5-card sub-hand of
/// `s`: one combination evaluates to it, and no combination beats it.
pub open spec fn is_best_rank(s: Seq<Card>, h: HandRank) -> bool {
    &&& exists|i1: int, i2: int, i3: int, i4: int, i5: int|
        #![trigger combo_seq(s, i1, i2, i3, i4, i5)]
        is_combo(s.len() as int, i1, i2, i3, i4, i5) && h == spec_evaluate(
            combo_seq(s, i1, i2, i3, i4, i5).to_multiset(),
        )
    &&& forall|i1: int, i2: int, i3: int, i4: int, i5: int|
        #![trigger combo_seq(s, i1, i2, i3, i4, i5)]
        is_combo(s.len() as int, i1, i2, i3, i4, i5) ==> hand_rank_le(
            spec_evaluate(combo_seq(s, i1, i2, i3, i4, i5).to_multiset()),
            h,
        )
}

/// The best ranking obtainable by combining 5 of the given cards: the
/// maximum evaluator result over all ascending 5-element index combinations.
/// Fewer than 5 cards are rejected with `InsufficientCards`.
pub fn find_best_hand(cards: &Vec<Card>) -> (r: Result<HandRank, HandError>)
    ensures
        cards@.len() < 5 ==> r == Err::<HandRank, HandError>(HandError::InsufficientCards),
        cards@.len() >= 5 ==> r is Ok && is_best_rank(cards@, r->Ok_0),
{
    if cards.len() < 5 {
        return Err(HandError::InsufficientCards);
    }
    let combos = get_five_card_combinations(cards);
    proof {
        assert(is_combo(cards@.len() as int, 0, 1, 2, 3, 4));
        assert(has_combo(combos@, cards@, 0, 1, 2, 3, 4));
    }
    let ghost s = cards@;
    let mut best: Option<HandRank> = None;
    let mut k: usize = 0;
    while k < combos.len()
        invariant
            combos@.len() > 0,
            k <= combos@.len(),
            all_combos(combos@, s),
            s == cards@,
            k > 0 ==> best is Some,
            best matches Some(b) ==> exists|i1: int, i2: int, i3: int, i4: int, i5: int|
                #![trigger combo_seq(s, i1, i2, i3, i4, i5)]
                is_combo(s.len() as int, i1, i2, i3, i4, i5) && b == spec_evaluate(
                    combo_seq(s, i1, i2, i3, i4, i5).to_multiset(),
                ),
            best matches Some(b) ==> forall|kk: int|
                0 <= kk < k ==> hand_rank_le(
                    spec_evaluate((#[trigger] combos@[kk])@.to_multiset()),
                    b,
                ),
        decreases combos@.len() - k,
    {
        proof {
            let (i1, i2, i3, i4, i5) = choose|i1: int, i2: int, i3: int, i4: int, i5: int|
                is_combo(s.len() as int, i1, i2, i3, i4, i5) && combos@[k as int]@ == combo_seq(
                    s,
                    i1,
                    i2,
                    i3,
                    i4,
                    i5,
                );
            assert(combos@[k as int]@.len() == 5);
        }
        let rank = match evaluate_hand(&combos[k]) {
            Ok(rank) => rank,
            Err(e) => {
                proof {
                    assert(false);
                }
                return Err(e);
            },
        };
        proof {
            let (i1, i2, i3, i4, i5) = choose|i1: int, i2: int, i3: int, i4: int, i5: int|
                is_combo(s.len() as int, i1, i2, i3, i4, i5) && combos@[k as int]@ == combo_seq(
                    s,
                    i1,
                    i2,
                    i3,
                    i4,
                    i5,
                );
            assert(is_combo(s.len() as int, i1, i2, i3, i4, i5) && rank == spec_evaluate(
                combo_seq(s, i1, i2, i3, i4, i5).to_multiset(),
            ));
        }
        match best {
            None => {
                best = Some(rank);
            },
            Some(b) => {
                if b.leq(&rank) {
                    proof {
                        assert forall|kk: int|
                            0 <= kk < k implies hand_rank_le(
                            spec_evaluate((#[trigger] combos@[kk])@.to_multiset()),
                            rank,
                        ) by {
                            lemma_hand_rank_le_transitive(
                                spec_evaluate(combos@[kk]@.to_multiset()),
                                b,
                                rank,
                            );
                        }
                    }
                    best = Some(rank);
                } else {
                    proof {
                        lemma_hand_rank_le_total(b, rank);
                    }
                }
            },
        }
        k += 1;
    }
    let b = match best {
        Some(b) => b,
        None => {
            proof {
                assert(false);
            }
            return Err(HandError::InsufficientCards);
        },
    };
    proof {
        assert forall|i1: int, i2: int, i3: int, i4: int, i5: int|
            #![trigger combo_seq(s, i1, i2, i3, i4, i5)]
            is_combo(s.len() as int, i1, i2, i3, i4, i5) implies hand_rank_le(
            spec_evaluate(combo_seq(s, i1, i2, i3, i4, i5).to_multiset()),
            b,
        ) by {
            assert(has_combo(combos@, s, i1, i2, i3, i4, i5));
            let kk = choose|kk: int|
                0 <= kk < combos@.len() && combos@[kk]@ == combo_seq(s, i1, i2, i3, i4, i5);
            assert(hand_rank_le(spec_evaluate(combos@[kk]@.to_multiset()), b));
        }
    }
    Ok(b)
}

} // verus!
