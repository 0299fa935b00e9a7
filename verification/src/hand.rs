//! Hands and their scores.

use vstd::prelude::*;
use vstd::seq_lib::*;
use crate::card::{Card, Rank};

verus! {

/// Sum of the base point values of the cards, every ace counted as 1.
pub open spec fn hard_total(cards: Seq<Card>) -> nat
    decreases cards.len(),
{
    if cards.len() == 0 {
        0
    } else {
        hard_total(cards.drop_last()) + cards.last().rank.points()
    }
}

/// Number of aces among the cards.
pub open spec fn ace_count(cards: Seq<Card>) -> nat
    decreases cards.len(),
{
    if cards.len() == 0 {
        0
    } else {
        ace_count(cards.drop_last()) + if cards.last().rank == Rank::Ace {
            1nat
        } else {
            0nat
        }
    }
}

/// The score of a hand: one ace is raised from 1 to 11 when the hand holds
/// an ace and the raise keeps the total at 21 or below; otherwise the hard
/// total stands. Raising a second ace would always pass 21.
pub open spec fn score_of(cards: Seq<Card>) -> nat {
    if ace_count(cards) > 0 && hard_total(cards) + 10 <= 21 {
        hard_total(cards) + 10
    } else {
        hard_total(cards)
    }
}

/// A blackjack is a hand of exactly two cards that scores 21.
pub open spec fn is_blackjack_hand(cards: Seq<Card>) -> bool {
    cards.len() == 2 && score_of(cards) == 21
}

/// A hand is busted when its score has passed 21.
pub open spec fn is_busted_hand(cards: Seq<Card>) -> bool {
    score_of(cards) > 21
}

/// A choice, for each card of a hand, of whether it counts 11: only an ace
/// may.
pub open spec fn valid_assignment(cards: Seq<Card>, high: Seq<bool>) -> bool {
    &&& high.len() == cards.len()
    &&& forall|i: int| 0 <= i < cards.len() && high[i] ==> cards[i].rank == Rank::Ace
}

/// Total of the hand when the cards that `high` marks count 11 and the
/// others their base value.
pub open spec fn total_under(cards: Seq<Card>, high: Seq<bool>) -> nat
    decreases cards.len(),
{
    if cards.len() == 0 {
        0
    } else {
        total_under(cards.drop_last(), high.drop_last()) + if high.last() {
            11nat
        } else {
            cards.last().rank.points()
        }
    }
}

/// Number of cards that `high` marks.
pub open spec fn raised_count(high: Seq<bool>) -> nat
    decreases high.len(),
{
    if high.len() == 0 {
        0
    } else {
        raised_count(high.drop_last()) + if high.last() {
            1nat
        } else {
            0nat
        }
    }
}

/// The cards a party holds, in the order in which they were dealt.
#[derive(Debug, Clone)]
pub struct Hand {
    pub cards: Vec<Card>,
}

impl View for Hand {
    type V = Seq<Card>;

    open spec fn view(&self) -> Seq<Card> {
        self.cards@
    }
}

impl Hand {
    /// An empty hand.
    pub fn new() -> (hand: Hand)
        ensures
            hand@ == Seq::<Card>::empty(),
    {
        Hand { cards: Vec::new() }
    }

    /// Puts `card` behind the cards already held.
    pub fn add_card(&mut self, card: Card)
        ensures
            final(self)@ == old(self)@.push(card),
    {
        self.cards.push(card);
    }

    /// The score of the hand, with an ace raised to 11 where that does not
    /// bust. The result is wide enough for the total of any hand that a
    /// machine can hold.
    pub fn calculate_score(&self) -> (score: u128)
        ensures
            score == score_of(self@),
    {
        let mut score: u128 = 0;
        let mut aces: usize = 0;
        let n = self.cards.len();
        let mut i: usize = 0;
        while i < n
            invariant
                n == self.cards@.len(),
                i <= n,
                aces == ace_count(self.cards@.take(i as int)),
                aces <= i,
                score == hard_total(self.cards@.take(i as int)),
                score <= 10 * i,
            decreases n - i,
        {
            let rank = self.cards[i].rank;
            proof {
                assert(self.cards@.take(i + 1).drop_last() =~= self.cards@.take(i as int));
            }
            match rank {
                Rank::Ace => {
                    aces += 1;
                    score += 1;
                },
                _ => {
                    score += rank.value() as u128;
                },
            }
            i += 1;
        }
        proof {
            assert(self.cards@.take(n as int) =~= self.cards@);
        }
        let ghost hard = hard_total(self.cards@);
        proof {
            lemma_hard_total_bounds(self.cards@);
        }
        let mut k: usize = 0;
        while k < aces
            invariant
                k <= aces,
                aces == ace_count(self.cards@),
                aces <= hard,
                hard == hard_total(self.cards@),
                score == if k > 0 && hard + 10 <= 21 {
                    hard + 10
                } else {
                    hard
                },
            decreases aces - k,
        {
            if score <= 11 {
                score += 10;
            }
            k += 1;
        }
        score
    }

    /// Whether the hand is a blackjack: exactly two cards that score 21.
    pub fn is_blackjack(&self) -> (b: bool)
        ensures
            b == is_blackjack_hand(self@),
            b == (self@.len() == 2 && score_of(self@) == 21),
    {
        self.cards.len() == 2 && self.calculate_score() == 21
    }

    /// Whether the score has passed 21.
    pub fn is_busted(&self) -> (b: bool)
        ensures
            b == is_busted_hand(self@),
            b == (score_of(self@) > 21),
    {
        self.calculate_score() > 21
    }
}

/// Under any assignment the total is the hard total plus 10 for each raised
/// card, and no more cards are raised than the hand has aces.
pub proof fn lemma_total_under(cards: Seq<Card>, high: Seq<bool>)
    requires
        valid_assignment(cards, high),
    ensures
        total_under(cards, high) == hard_total(cards) + 10 * raised_count(high),
        raised_count(high) <= ace_count(cards),
    decreases cards.len(),
{
    if cards.len() > 0 {
        lemma_total_under(cards.drop_last(), high.drop_last());
    }
}

/// The score is the best that any assignment of the aces reaches: no
/// assignment that stays at 21 or below totals more than the score, and the
/// score itself stays at 21 or below whenever some assignment does. When
/// every assignment passes 21, the score is the least total there is, the
/// hard total.
pub proof fn lemma_score_is_best(cards: Seq<Card>, high: Seq<bool>)
    requires
        valid_assignment(cards, high),
    ensures
        total_under(cards, high) <= 21 ==> total_under(cards, high) <= score_of(cards) <= 21,
        hard_total(cards) <= total_under(cards, high),
        score_of(cards) > 21 ==> score_of(cards) == hard_total(cards) && total_under(cards, high)
            > 21,
{
    lemma_total_under(cards, high);
    lemma_hard_total_bounds(cards);
}

/// Every card adds between 1 and 10 points to the hard total, and every ace
/// is one of the cards.
pub proof fn lemma_hard_total_bounds(cards: Seq<Card>)
    ensures
        ace_count(cards) <= cards.len() <= hard_total(cards) <= 10 * cards.len(),
    decreases cards.len(),
{
    if cards.len() > 0 {
        lemma_hard_total_bounds(cards.drop_last());
    }
}

/// The assignment that raises nothing.
pub open spec fn none_raised(len: nat) -> Seq<bool> {
    Seq::new(len, |i: int| false)
}

/// The assignment that raises the card at position `at` and nothing else.
pub open spec fn one_raised(len: nat, at: int) -> Seq<bool> {
    Seq::new(len, |i: int| i == at)
}

/// Some assignment of the aces totals exactly the score.
pub proof fn lemma_score_is_attained(cards: Seq<Card>)
    ensures
        exists|high: Seq<bool>|
            valid_assignment(cards, high) && total_under(cards, high) == score_of(cards),
{
    if score_of(cards) == hard_total(cards) {
        let high = none_raised(cards.len());
        lemma_none_raised(cards.len());
        lemma_total_under(cards, high);
    } else {
        let at = lemma_find_ace(cards);
        let high = one_raised(cards.len(), at);
        lemma_one_raised(cards.len(), at);
        lemma_total_under(cards, high);
    }
}

proof fn lemma_none_raised(len: nat)
    ensures
        raised_count(none_raised(len)) == 0,
    decreases len,
{
    if len > 0 {
        lemma_none_raised((len - 1) as nat);
        assert(none_raised(len).drop_last() =~= none_raised((len - 1) as nat));
    }
}

proof fn lemma_one_raised(len: nat, at: int)
    ensures
        raised_count(one_raised(len, at)) == if 0 <= at < len {
            1nat
        } else {
            0nat
        },
    decreases len,
{
    if len > 0 {
        lemma_one_raised((len - 1) as nat, at);
        assert(one_raised(len, at).drop_last() =~= one_raised((len - 1) as nat, at));
    }
}

proof fn lemma_find_ace(cards: Seq<Card>) -> (at: int)
    requires
        ace_count(cards) > 0,
    ensures
        0 <= at < cards.len(),
        cards[at].rank == Rank::Ace,
    decreases cards.len(),
{
    if cards.last().rank == Rank::Ace {
        cards.len() - 1
    } else {
        lemma_find_ace(cards.drop_last())
    }
}

/// Taking a card out of a hand takes its points out of the hard total, and
/// one ace out of the count when the card is an ace.
proof fn lemma_without_card(cards: Seq<Card>, at: int)
    requires
        0 <= at < cards.len(),
    ensures
        hard_total(cards) == hard_total(cards.remove(at)) + cards[at].rank.points(),
        ace_count(cards) == ace_count(cards.remove(at)) + if cards[at].rank == Rank::Ace {
            1nat
        } else {
            0nat
        },
    decreases cards.len(),
{
    if at < cards.len() - 1 {
        lemma_without_card(cards.drop_last(), at);
        assert(cards.remove(at).drop_last() =~= cards.drop_last().remove(at));
    }
}

/// The score belongs to the cards, not to the order in which they were
/// dealt: two hands of the same cards have the same hard total, the same
/// number of aces and the same score, and both are blackjacks or neither is.
pub proof fn lemma_score_ignores_order(one: Seq<Card>, other: Seq<Card>)
    requires
        one.to_multiset() == other.to_multiset(),
    ensures
        one.len() == other.len(),
        hard_total(one) == hard_total(other),
        ace_count(one) == ace_count(other),
        score_of(one) == score_of(other),
        is_blackjack_hand(one) == is_blackjack_hand(other),
        is_busted_hand(one) == is_busted_hand(other),
    decreases one.len(),
{
    to_multiset_len(one);
    to_multiset_len(other);
    if one.len() > 0 {
        let card = one.last();
        to_multiset_contains(one, card);
        to_multiset_contains(other, card);
        assert(one.contains(card));
        let at = choose|at: int| 0 <= at < other.len() && other[at] == card;
        to_multiset_remove(one, one.len() - 1);
        to_multiset_remove(other, at);
        lemma_score_ignores_order(one.drop_last(), other.remove(at));
        lemma_without_card(other, at);
    }
}

} // verus!
