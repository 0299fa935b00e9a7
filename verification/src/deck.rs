//! The deck: fifty-two distinct cards, shuffled and dealt from the end.

use rand::rngs::{OsRng, SmallRng};
use rand::seq::SliceRandom;
use rand::SeedableRng;
use vstd::prelude::*;
use vstd::seq_lib::*;
use crate::card::{lemma_rank_ordinal, lemma_suit_ordinal, Card, Rank, Suit};

verus! {

/// The generator that drives a shuffle. Nothing is known of its state.
#[verifier::external_type_specification]
#[verifier::external_body]
pub struct ExSmallRng(SmallRng);

/// `SmallRng::from_rng` of the crate `rand`, on `OsRng`: a generator seeded
/// from the operating system, or `None` where the operating system's source
/// reports an error. Nothing is claimed of the generator that comes back,
/// nor of when there is one.
#[verifier::external_body]
fn entropy_rng() -> Option<SmallRng> {
    SmallRng::from_rng(OsRng).ok()
}

/// `SliceRandom::shuffle` of the crate `rand`, on the cards of a deck. The
/// function only swaps elements of the slice, so the cards afterwards are
/// the cards before, each as often as before; in which order is not said.
#[verifier::external_body]
fn shuffle_cards(cards: &mut Vec<Card>, rng: &mut SmallRng)
    ensures
        final(cards)@.to_multiset() == old(cards)@.to_multiset(),
{
    cards.shuffle(rng);
}

/// The full deck in its fixed order: suit by suit, and within a suit rank
/// by rank.
pub open spec fn fresh_deck() -> Seq<Card> {
    Seq::new(52, |i: int| Card { suit: Suit::at(i / 13), rank: Rank::at(i % 13) })
}

/// The card that the next deal hands out: the last of the sequence, if any.
pub open spec fn top_card(cards: Seq<Card>) -> Option<Card> {
    if cards.len() > 0 {
        Some(cards.last())
    } else {
        None
    }
}

/// The cards that stay behind after one deal.
pub open spec fn without_top(cards: Seq<Card>) -> Seq<Card> {
    if cards.len() > 0 {
        cards.drop_last()
    } else {
        cards
    }
}

/// The cards that stay behind after `k` deals.
pub open spec fn after_deals(cards: Seq<Card>, k: nat) -> Seq<Card>
    decreases k,
{
    if k == 0 {
        cards
    } else {
        without_top(after_deals(cards, (k - 1) as nat))
    }
}

/// The cards still to be dealt; the next one to leave is the last.
#[derive(Debug, Clone)]
pub struct Deck {
    pub cards: Vec<Card>,
}

impl View for Deck {
    type V = Seq<Card>;

    open spec fn view(&self) -> Seq<Card> {
        self.cards@
    }
}

impl Deck {
    /// The full deck in its fixed order.
    pub fn new() -> (deck: Deck)
        ensures
            deck@ == fresh_deck(),
    {
        let suits = [Suit::Hearts, Suit::Diamonds, Suit::Clubs, Suit::Spades];
        let ranks = [
            Rank::Ace,
            Rank::Two,
            Rank::Three,
            Rank::Four,
            Rank::Five,
            Rank::Six,
            Rank::Seven,
            Rank::Eight,
            Rank::Nine,
            Rank::Ten,
            Rank::Jack,
            Rank::Queen,
            Rank::King,
        ];
        let mut cards: Vec<Card> = Vec::new();
        let mut s: usize = 0;
        while s < 4
            invariant
                s <= 4,
                suits@.len() == 4,
                ranks@.len() == 13,
                forall|j: int| 0 <= j < 4 ==> suits@[j] == Suit::at(j),
                forall|j: int| 0 <= j < 13 ==> ranks@[j] == Rank::at(j),
                cards@.len() == 13 * s,
                forall|j: int| 0 <= j < cards@.len() ==> cards@[j] == fresh_deck()[j],
            decreases 4 - s,
        {
            let mut r: usize = 0;
            while r < 13
                invariant
                    s < 4,
                    r <= 13,
                    suits@.len() == 4,
                    ranks@.len() == 13,
                    forall|j: int| 0 <= j < 4 ==> suits@[j] == Suit::at(j),
                    forall|j: int| 0 <= j < 13 ==> ranks@[j] == Rank::at(j),
                    cards@.len() == 13 * s + r,
                    forall|j: int| 0 <= j < cards@.len() ==> cards@[j] == fresh_deck()[j],
                decreases 13 - r,
            {
                cards.push(Card::new(suits[s], ranks[r]));
                r += 1;
            }
            s += 1;
        }
        Deck { cards }
    }

    /// Reorders the cards at random, with a generator freshly seeded from
    /// the operating system, and says whether it did. The deck holds the
    /// same cards afterwards. Where the operating system gives no entropy,
    /// the result is `false` and the deck is as it was.
    pub fn shuffle(&mut self) -> (shuffled: bool)
        ensures
            final(self)@.to_multiset() == old(self)@.to_multiset(),
            final(self)@.len() == old(self)@.len(),
            !shuffled ==> final(self)@ == old(self)@,
    {
        match entropy_rng() {
            Some(mut rng) => {
                shuffle_cards(&mut self.cards, &mut rng);
                proof {
                    to_multiset_len(self.cards@);
                    to_multiset_len(old(self).cards@);
                }
                true
            },
            None => false,
        }
    }

    /// Removes the top card and returns it; an empty deck gives `None` and
    /// stays empty.
    pub fn deal_card(&mut self) -> (card: Option<Card>)
        ensures
            card == top_card(old(self)@),
            final(self)@ == without_top(old(self)@),
    {
        self.cards.pop()
    }
}

/// The full deck holds 52 cards, no card twice, and every card there is.
pub proof fn lemma_fresh_deck_complete()
    ensures
        fresh_deck().len() == 52,
        fresh_deck().no_duplicates(),
        forall|c: Card| fresh_deck().contains(c),
{
    assert forall|i: int, j: int| 0 <= i < 52 && 0 <= j < 52 && i != j implies fresh_deck()[i]
        != fresh_deck()[j] by {
        if i / 13 == j / 13 {
            assert(i % 13 != j % 13);
        }
    }
    assert forall|c: Card| fresh_deck().contains(c) by {
        lemma_suit_ordinal(c.suit);
        lemma_rank_ordinal(c.rank);
        let i = 13 * c.suit.ordinal() + c.rank.ordinal();
        assert(fresh_deck()[i] == c);
    }
}

/// Reordering keeps what a deck holds: the number of cards, which cards
/// they are, and that none occurs twice.
pub proof fn lemma_same_cards(before: Seq<Card>, after: Seq<Card>)
    requires
        after.to_multiset() == before.to_multiset(),
    ensures
        after.len() == before.len(),
        forall|c: Card| after.contains(c) <==> before.contains(c),
        before.no_duplicates() ==> after.no_duplicates(),
{
    to_multiset_len(before);
    to_multiset_len(after);
    assert forall|c: Card| after.contains(c) <==> before.contains(c) by {
        to_multiset_contains(before, c);
        to_multiset_contains(after, c);
    }
    if before.no_duplicates() {
        before.lemma_multiset_has_no_duplicates();
        after.lemma_multiset_has_no_duplicates_conv();
    }
}

/// A shuffled full deck still holds the 52 cards, each once.
pub proof fn lemma_shuffled_deck(cards: Seq<Card>)
    requires
        cards.to_multiset() == fresh_deck().to_multiset(),
    ensures
        cards.len() == 52,
        cards.no_duplicates(),
        forall|c: Card| cards.contains(c),
{
    lemma_fresh_deck_complete();
    lemma_same_cards(fresh_deck(), cards);
}

/// After `k` deals the deck has lost its last `k` cards, or all of them.
pub proof fn lemma_after_deals(cards: Seq<Card>, k: nat)
    ensures
        k <= cards.len() ==> after_deals(cards, k) == cards.take(cards.len() - k),
        k > cards.len() ==> after_deals(cards, k) == Seq::<Card>::empty(),
    decreases k,
{
    if k > 0 {
        lemma_after_deals(cards, (k - 1) as nat);
    }
}

/// Dealing a deck of distinct cards to the end hands out every card of it
/// once, no two deals the same card, and the deal after the last finds the
/// deck empty.
pub proof fn lemma_deal_through(cards: Seq<Card>)
    requires
        cards.no_duplicates(),
    ensures
        forall|k: nat|
            k < cards.len() ==> #[trigger] top_card(after_deals(cards, k)) == Some(
                cards[cards.len() - 1 - k],
            ),
        forall|j: nat, k: nat|
            j < k < cards.len() ==> #[trigger] top_card(after_deals(cards, j)) != #[trigger] top_card(
                after_deals(cards, k),
            ),
        top_card(after_deals(cards, cards.len())) is None,
{
    assert forall|k: nat| k < cards.len() implies #[trigger] top_card(after_deals(cards, k))
        == Some(cards[cards.len() - 1 - k]) by {
        lemma_after_deals(cards, k);
    }
    lemma_after_deals(cards, cards.len());
}

/// Fifty-two deals from a shuffled full deck hand out 52 distinct cards, and
/// the fifty-third finds the deck empty.
pub proof fn lemma_deal_shuffled_deck(cards: Seq<Card>)
    requires
        cards.to_multiset() == fresh_deck().to_multiset(),
    ensures
        forall|k: nat| k < 52 ==> (#[trigger] top_card(after_deals(cards, k))) is Some,
        forall|j: nat, k: nat|
            j < k < 52 ==> #[trigger] top_card(after_deals(cards, j)) != #[trigger] top_card(
                after_deals(cards, k),
            ),
        top_card(after_deals(cards, 52)) is None,
{
    lemma_shuffled_deck(cards);
    lemma_deal_through(cards);
}

} // verus!
