//! A law of the whole table: cards move from the deck into hands, and none
//! appears twice or out of nothing.

use vstd::multiset::*;
use vstd::prelude::*;
use vstd::seq_lib::*;
use crate::card::Card;
use crate::deck::{fresh_deck, lemma_fresh_deck_complete};
use crate::hand::score_of;
use crate::player::PlayerView;
use crate::rules::{
    below_top, card_from_top, lemma_below_top, round_deck, GameState, GameView, PlayerAction,
    DEALER_STANDS_AT, MAX_PLAYERS,
};

verus! {

/// The cards that the players in the seats before `upto` hold.
pub open spec fn cards_held(players: Seq<PlayerView>, upto: nat) -> Multiset<Card>
    decreases upto,
{
    if upto == 0 {
        Multiset::empty()
    } else {
        cards_held(players, (upto - 1) as nat).add(players[upto - 1].hand.to_multiset())
    }
}

impl GameView {
    /// Every card on the table: those in the deck, in the dealer's hand and
    /// in the players' hands.
    pub open spec fn cards_on_table(self) -> Multiset<Card> {
        self.deck.to_multiset().add(self.dealer_hand.to_multiset()).add(
            cards_held(self.players, self.players.len()),
        )
    }

    /// No card lies on the table twice.
    pub open spec fn no_card_twice(self) -> bool {
        forall|card: Card| self.cards_on_table().count(card) <= 1
    }

    /// The table in the middle of a pass of dealing, when the seats before
    /// `upto` have had their card.
    pub open spec fn seats_dealt(self, upto: int) -> GameView {
        GameView {
            deck: below_top(self.deck, upto),
            players: Seq::new(
                self.players.len(),
                |i: int|
                    if i < upto {
                        PlayerView {
                            hand: self.players[i].hand + card_from_top(self.deck, i),
                            ..self.players[i]
                        }
                    } else {
                        self.players[i]
                    },
            ),
            ..self
        }
    }
}

proof fn lemma_no_cards(cards: Seq<Card>)
    requires
        cards.len() == 0,
    ensures
        cards.to_multiset() == Multiset::<Card>::empty(),
{
    to_multiset_len(cards);
    lemma_multiset_empty_len(cards.to_multiset());
}

proof fn lemma_held_same(a: Seq<PlayerView>, b: Seq<PlayerView>, upto: nat)
    requires
        upto <= a.len(),
        upto <= b.len(),
        forall|k: int| 0 <= k < upto ==> a[k].hand == b[k].hand,
    ensures
        cards_held(a, upto) == cards_held(b, upto),
    decreases upto,
{
    if upto > 0 {
        lemma_held_same(a, b, (upto - 1) as nat);
    }
}

proof fn lemma_held_grows(
    a: Seq<PlayerView>,
    b: Seq<PlayerView>,
    seat: int,
    extra: Seq<Card>,
    upto: nat,
)
    requires
        upto <= a.len(),
        a.len() == b.len(),
        0 <= seat < a.len(),
        forall|k: int| 0 <= k < upto && k != seat ==> a[k].hand == b[k].hand,
        b[seat].hand == a[seat].hand + extra,
    ensures
        cards_held(b, upto) == if seat < upto {
            cards_held(a, upto).add(extra.to_multiset())
        } else {
            cards_held(a, upto)
        },
    decreases upto,
{
    broadcast use group_multiset_axioms;

    if upto > 0 {
        lemma_held_grows(a, b, seat, extra, (upto - 1) as nat);
        if seat == upto - 1 {
            lemma_multiset_commutative(a[seat].hand, extra);
        }
    }
}

proof fn lemma_held_nothing(players: Seq<PlayerView>, upto: nat)
    requires
        upto <= players.len(),
        forall|k: int| 0 <= k < upto ==> players[k].hand.len() == 0,
    ensures
        cards_held(players, upto) == Multiset::<Card>::empty(),
    decreases upto,
{
    broadcast use group_multiset_axioms;

    if upto > 0 {
        lemma_held_nothing(players, (upto - 1) as nat);
        lemma_no_cards(players[upto - 1].hand);
    }
}

/// A deck is its top card and what lies below it.
proof fn lemma_top_card(deck: Seq<Card>)
    ensures
        deck.to_multiset() == below_top(deck, 1).to_multiset().add(
            card_from_top(deck, 0).to_multiset(),
        ),
{
    assert(deck =~= below_top(deck, 1) + card_from_top(deck, 0));
    lemma_multiset_commutative(below_top(deck, 1), card_from_top(deck, 0));
}

/// Dealing a card to a player moves it from the deck to the hand.
pub proof fn lemma_card_dealt_keeps_cards(table: GameView, seat: int)
    requires
        0 <= seat < table.players.len(),
    ensures
        table.card_dealt_to(seat).cards_on_table() == table.cards_on_table(),
{
    broadcast use group_multiset_axioms;

    lemma_top_card(table.deck);
    lemma_held_grows(
        table.players,
        table.card_dealt_to(seat).players,
        seat,
        card_from_top(table.deck, 0),
        table.players.len(),
    );
}

/// What changes no hand, nor the deck, keeps the cards on the table.
proof fn lemma_same_hands_keep_cards(a: GameView, b: GameView)
    requires
        a.deck == b.deck,
        a.dealer_hand == b.dealer_hand,
        a.players.len() == b.players.len(),
        forall|k: int| 0 <= k < a.players.len() ==> a.players[k].hand == b.players[k].hand,
    ensures
        a.cards_on_table() == b.cards_on_table(),
{
    lemma_held_same(a.players, b.players, a.players.len());
}

/// The dealer's draws move cards from the deck to the dealer's hand.
pub proof fn lemma_dealer_drawn_keeps_cards(table: GameView)
    ensures
        table.dealer_drawn().cards_on_table() == table.cards_on_table(),
        table.dealer_drawn().players == table.players,
    decreases table.deck.len(),
{
    broadcast use group_multiset_axioms;

    if score_of(table.dealer_hand) < DEALER_STANDS_AT && table.deck.len() > 0 {
        let next = GameView {
            deck: table.deck.drop_last(),
            dealer_hand: table.dealer_hand.push(table.deck.last()),
            ..table
        };
        lemma_dealer_drawn_keeps_cards(next);
        lemma_top_card(table.deck);
        assert(next.dealer_hand =~= table.dealer_hand + card_from_top(table.deck, 0));
        lemma_multiset_commutative(table.dealer_hand, card_from_top(table.deck, 0));
    }
}

/// Passing the turn on, the dealer's play and the payment included, keeps
/// the cards on the table.
pub proof fn lemma_advanced_keeps_cards(table: GameView)
    ensures
        table.advanced().cards_on_table() == table.cards_on_table(),
{
    let turned = table.turned_to_dealer();
    lemma_dealer_drawn_keeps_cards(turned);
    let ended = GameView { state: GameState::GameEnd, ..turned.dealer_drawn() };
    lemma_same_hands_keep_cards(ended, ended.settled());
}

/// An action moves cards from the deck into hands and does nothing else to
/// them: the cards on the table are the same before and after.
pub proof fn lemma_action_keeps_cards(table: GameView, seat: int, action: PlayerAction)
    requires
        0 <= seat < table.players.len(),
    ensures
        table.acted(seat, action) matches Ok(after) ==> after.cards_on_table()
            == table.cards_on_table(),
{
    match action {
        PlayerAction::Hit => {
            let dealt = table.card_dealt_to(seat);
            lemma_card_dealt_keeps_cards(table, seat);
            lemma_same_hands_keep_cards(dealt, dealt.retired(seat));
            lemma_advanced_keeps_cards(dealt.retired(seat));
        },
        PlayerAction::Stand => {
            lemma_same_hands_keep_cards(table, table.retired(seat));
            lemma_advanced_keeps_cards(table.retired(seat));
        },
        PlayerAction::DoubleDown => {
            if table.can_double_down(seat) {
                let staked = table.with_player(
                    seat,
                    PlayerView {
                        balance: (table.players[seat].balance - table.players[seat].bet) as nat,
                        bet: table.players[seat].bet * 2,
                        ..table.players[seat]
                    },
                );
                lemma_same_hands_keep_cards(table, staked);
                lemma_card_dealt_keeps_cards(staked, seat);
                let dealt = staked.card_dealt_to(seat);
                lemma_same_hands_keep_cards(dealt, dealt.retired(seat));
                lemma_advanced_keeps_cards(dealt.retired(seat));
            }
        },
        PlayerAction::Split => {},
    }
}

/// A command keeps the cards on the table: accepted or refused, no card
/// appears and none is lost.
pub proof fn lemma_command_keeps_cards(table: GameView, id: Seq<char>, word: Seq<char>)
    ensures
        table.commanded(id, word) matches Ok(after) ==> after.cards_on_table()
            == table.cards_on_table() && (table.no_card_twice() ==> after.no_card_twice()),
{
    let seat = table.seat_of(id, 0);
    if seat < table.players.len() {
        match PlayerAction::named(word) {
            Some(action) => lemma_action_keeps_cards(table, seat as int, action),
            None => {},
        }
    }
}

/// A player who joins brings no card.
pub proof fn lemma_join_keeps_cards(
    table: GameView,
    id: Seq<char>,
    name: Seq<char>,
    balance: nat,
)
    ensures
        table.joined(id, name, balance).cards_on_table() == table.cards_on_table(),
{
    broadcast use group_multiset_axioms;

    let joined = table.joined(id, name, balance);
    if table.players.len() < MAX_PLAYERS {
        lemma_held_same(table.players, joined.players, table.players.len());
        lemma_no_cards(joined.players[table.players.len() as int].hand);
    }
}

proof fn lemma_seats_dealt_keep_cards(table: GameView, upto: int)
    requires
        0 <= upto <= table.players.len(),
    ensures
        table.seats_dealt(upto).cards_on_table() == table.cards_on_table(),
    decreases upto,
{
    if upto == 0 {
        assert(table.seats_dealt(0).deck =~= table.deck);
        assert(table.seats_dealt(0).players =~= table.players);
    } else {
        let before = table.seats_dealt(upto - 1);
        lemma_seats_dealt_keep_cards(table, upto - 1);
        lemma_card_dealt_keeps_cards(before, upto - 1);
        lemma_below_top(table.deck, upto - 1, 1);
        lemma_below_top(table.deck, upto - 1, 0);
        assert(before.card_dealt_to(upto - 1).players =~= table.seats_dealt(upto).players);
    }
}

/// A pass of dealing moves cards from the deck into the hands.
pub proof fn lemma_pass_dealt_keeps_cards(table: GameView)
    ensures
        table.pass_dealt().cards_on_table() == table.cards_on_table(),
{
    broadcast use group_multiset_axioms;

    let n = table.players.len() as int;
    let seated = table.seats_dealt(n);
    lemma_seats_dealt_keep_cards(table, n);
    lemma_below_top(table.deck, n, 1);
    lemma_below_top(table.deck, n, 0);
    lemma_top_card(seated.deck);
    let dealt = table.pass_dealt();
    assert(dealt.players =~= seated.players);
    lemma_multiset_commutative(table.dealer_hand, card_from_top(table.deck, n));
}

/// A round starts with exactly the cards of its deck on the table: the
/// hands of the round before are gone, and the opening deal only moves
/// cards.
pub proof fn lemma_round_starts_from_its_deck(table: GameView, deck: Seq<Card>)
    ensures
        table.cleared().with_deck(deck).opened().cards_on_table() == deck.to_multiset(),
{
    broadcast use group_multiset_axioms;

    let ready = table.cleared().with_deck(deck);
    lemma_held_nothing(ready.players, ready.players.len());
    lemma_no_cards(ready.dealer_hand);
    lemma_pass_dealt_keeps_cards(ready);
    lemma_pass_dealt_keeps_cards(ready.pass_dealt());
    lemma_same_hands_keep_cards(ready.pass_dealt().pass_dealt(), ready.opened());
}

/// The deck is part of the table.
proof fn lemma_deck_is_on_table(table: GameView, card: Card)
    ensures
        table.deck.to_multiset().count(card) <= table.cards_on_table().count(card),
{
    broadcast use group_multiset_axioms;

}

/// No card lies twice on a new table, and no command puts one there twice:
/// not a player who joins, not the start of a round, whichever deck it
/// starts from, and not an action.
pub proof fn lemma_no_card_twice(
    table: GameView,
    id: Seq<char>,
    name: Seq<char>,
    balance: nat,
    deck: Seq<Card>,
    word: Seq<char>,
)
    ensures
        table.is_new() ==> table.no_card_twice(),
        table.no_card_twice() ==> table.joined(id, name, balance).no_card_twice(),
        table.no_card_twice() && round_deck(table.deck, deck) ==> table.cleared().with_deck(
            deck,
        ).opened().no_card_twice(),
        table.no_card_twice() ==> (table.commanded(id, word) matches Ok(after)
            ==> after.no_card_twice()),
{
    broadcast use group_multiset_axioms;

    lemma_fresh_deck_complete();
    fresh_deck().lemma_multiset_has_no_duplicates();
    if table.is_new() {
        lemma_no_cards(table.dealer_hand);
    }
    lemma_join_keeps_cards(table, id, name, balance);
    lemma_round_starts_from_its_deck(table, deck);
    if table.no_card_twice() && round_deck(table.deck, deck) {
        assert forall|card: Card|
            table.cleared().with_deck(deck).opened().cards_on_table().count(card) <= 1 by {
            lemma_deck_is_on_table(table, card);
        }
    }
    lemma_command_keeps_cards(table, id, word);
}

/// A table on which no card lies twice holds at most 52 cards.
pub proof fn lemma_at_most_52_cards(table: GameView)
    requires
        table.no_card_twice(),
    ensures
        table.cards_on_table().len() <= 52,
{
    broadcast use group_multiset_axioms;

    lemma_fresh_deck_complete();
    let full = fresh_deck().to_multiset();
    let here = table.cards_on_table();
    to_multiset_len(fresh_deck());
    assert forall|card: Card| full.count(card) >= 1 by {
        to_multiset_contains(fresh_deck(), card);
    }
    assert(full =~= here.add(full.sub(here)));
}

} // verus!
