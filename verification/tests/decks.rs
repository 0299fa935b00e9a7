use blackjack::card::{Card, Rank, Suit};
use blackjack::deck::Deck;

const SUITS: [Suit; 4] = [Suit::Hearts, Suit::Diamonds, Suit::Clubs, Suit::Spades];
const RANKS: [Rank; 13] = [
    Rank::Ace,
    Rank::Two,
    Rank::Three,
    Rank::Four,
    Rank::Five,
    Rank::Six,
    Rank::Seven,
    Rank::Eight,
    Rank::Nine,
    Rank::Ten,
    Rank::Jack,
    Rank::Queen,
    Rank::King,
];

fn position(card: &Card) -> usize {
    let suit = SUITS.iter().position(|s| *s == card.suit).unwrap();
    let rank = RANKS.iter().position(|r| *r == card.rank).unwrap();
    13 * suit + rank
}

fn all_distinct(cards: &[Card]) -> bool {
    let mut seen = [false; 52];
    for card in cards {
        if seen[position(card)] {
            return false;
        }
        seen[position(card)] = true;
    }
    true
}

#[test]
fn new_deck_has_52_distinct_cards() {
    let deck = Deck::new();
    assert_eq!(deck.cards.len(), 52);
    assert!(all_distinct(&deck.cards));
}

#[test]
fn new_deck_is_in_suit_major_rank_minor_order() {
    let deck = Deck::new();
    for (i, card) in deck.cards.iter().enumerate() {
        assert_eq!(*card, Card::new(SUITS[i / 13], RANKS[i % 13]));
    }
    assert_eq!(deck.cards[0], Card::new(Suit::Hearts, Rank::Ace));
    assert_eq!(deck.cards[12], Card::new(Suit::Hearts, Rank::King));
    assert_eq!(deck.cards[13], Card::new(Suit::Diamonds, Rank::Ace));
    assert_eq!(deck.cards[51], Card::new(Suit::Spades, Rank::King));
}

#[test]
fn shuffle_keeps_the_same_52_cards() {
    let mut deck = Deck::new();
    deck.shuffle();
    assert_eq!(deck.cards.len(), 52);
    assert!(all_distinct(&deck.cards));
    let mut positions: Vec<usize> = deck.cards.iter().map(position).collect();
    positions.sort();
    assert_eq!(positions, (0..52).collect::<Vec<usize>>());
}

#[test]
fn shuffle_keeps_a_short_deck_with_repeated_cards() {
    let ace = Card::new(Suit::Clubs, Rank::Ace);
    let two = Card::new(Suit::Clubs, Rank::Two);
    let mut deck = Deck { cards: vec![ace, ace, two, ace, two] };
    deck.shuffle();
    assert_eq!(deck.cards.len(), 5);
    assert_eq!(deck.cards.iter().filter(|c| **c == ace).count(), 3);
    assert_eq!(deck.cards.iter().filter(|c| **c == two).count(), 2);
}

#[test]
fn shuffle_of_an_empty_deck_leaves_it_empty() {
    let mut deck = Deck { cards: Vec::new() };
    deck.shuffle();
    assert!(deck.cards.is_empty());
}

#[test]
fn shuffle_changes_the_order() {
    let fresh = Deck::new();
    let mut moved = false;
    for _ in 0..4 {
        let mut deck = Deck::new();
        deck.shuffle();
        if deck.cards != fresh.cards {
            moved = true;
        }
    }
    assert!(moved);
}

#[test]
fn two_shuffles_differ() {
    let mut differ = false;
    for _ in 0..4 {
        let mut one = Deck::new();
        let mut other = Deck::new();
        one.shuffle();
        other.shuffle();
        if one.cards != other.cards {
            differ = true;
        }
    }
    assert!(differ);
}

#[test]
fn deal_card_takes_the_last_card() {
    let mut deck = Deck::new();
    assert_eq!(deck.deal_card(), Some(Card::new(Suit::Spades, Rank::King)));
    assert_eq!(deck.deal_card(), Some(Card::new(Suit::Spades, Rank::Queen)));
    assert_eq!(deck.cards.len(), 50);
    assert_eq!(deck.cards[49], Card::new(Suit::Spades, Rank::Jack));
    assert_eq!(deck.cards[0], Card::new(Suit::Hearts, Rank::Ace));
}

#[test]
fn deal_card_on_an_empty_deck_gives_none() {
    let mut deck = Deck { cards: Vec::new() };
    assert_eq!(deck.deal_card(), None);
    assert_eq!(deck.deal_card(), None);
    assert!(deck.cards.is_empty());
}

#[test]
fn fifty_two_deals_give_distinct_cards_then_none() {
    let mut deck = Deck::new();
    deck.shuffle();
    let mut dealt = Vec::new();
    for _ in 0..52 {
        let card = deck.deal_card();
        assert!(card.is_some());
        dealt.push(card.unwrap());
    }
    assert!(all_distinct(&dealt));
    assert_eq!(dealt.len(), 52);
    assert_eq!(deck.deal_card(), None);
}

#[test]
fn deals_come_in_reverse_order_of_the_deck() {
    let mut deck = Deck::new();
    deck.shuffle();
    let before = deck.cards.clone();
    for k in 0..52 {
        assert_eq!(deck.deal_card(), Some(before[51 - k]));
        assert_eq!(deck.cards[..], before[..51 - k]);
    }
}

#[test]
fn shuffle_says_that_it_shuffled() {
    let mut deck = Deck::new();
    assert!(deck.shuffle());
    let mut empty = Deck { cards: Vec::new() };
    assert!(empty.shuffle());
}
