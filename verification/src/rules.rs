//! The rules of the table, as pure functions on a mathematical picture of
//! it. The engine is proved to compute exactly these functions.

use vstd::prelude::*;
use crate::card::Card;
use crate::deck::fresh_deck;
use crate::hand::{is_blackjack_hand, score_of};
use crate::player::PlayerView;

verus! {

/// Seats at the table.
pub const MAX_PLAYERS: usize = 6;

/// A round starts from a rebuilt and reshuffled deck when fewer cards than
/// this are left.
pub const RESHUFFLE_BELOW: usize = 20;

/// The dealer draws below this score and stands from it on, soft or hard.
pub const DEALER_STANDS_AT: u128 = 17;

/// Where the table stands within a round.
#[derive(Debug, Clone, Copy, PartialEq, Eq, Structural)]
pub enum GameState {
    WaitingForPlayers,
    PlayerTurn,
    DealerTurn,
    GameEnd,
}

/// What a player may ask for. `Split` is part of the vocabulary but has no
/// rule: it is always refused.
#[derive(Debug, Clone, Copy, PartialEq, Eq, Structural)]
pub enum PlayerAction {
    Hit,
    Stand,
    DoubleDown,
    Split,
}

/// Why a command was refused. A refused command changes nothing.
#[derive(Debug, Clone, Copy, PartialEq, Eq, Structural)]
pub enum GameError {
    /// A round was started with nobody seated.
    NoPlayers,
    /// No seated player has the given id.
    PlayerNotFound,
    /// The player is seated, but another one is to act.
    NotPlayersTurn,
    /// Doubling down needs exactly two cards and a balance that covers the bet.
    CannotDoubleDown,
    /// The action is none of hit, stand and double down.
    InvalidAction,
}

impl PlayerAction {
    /// The action that a command word names, if any. No word names `Split`.
    pub open spec fn named(word: Seq<char>) -> Option<PlayerAction> {
        if word == "hit"@ {
            Some(PlayerAction::Hit)
        } else if word == "stand"@ {
            Some(PlayerAction::Stand)
        } else if word == "double_down"@ {
            Some(PlayerAction::DoubleDown)
        } else {
            None
        }
    }

    /// Reads a command word: `hit`, `stand` or `double_down`.
    pub fn from_name(word: &str) -> (action: Option<PlayerAction>)
        ensures
            action == PlayerAction::named(word@),
    {
        let word = word.to_owned();
        if word == "hit".to_owned() {
            Some(PlayerAction::Hit)
        } else if word == "stand".to_owned() {
            Some(PlayerAction::Stand)
        } else if word == "double_down".to_owned() {
            Some(PlayerAction::DoubleDown)
        } else {
            None
        }
    }
}

impl GameError {
    /// The text of the message that goes with the error.
    pub open spec fn message_text(self) -> Seq<char> {
        match self {
            GameError::NoPlayers => "No players in the game"@,
            GameError::PlayerNotFound => "Player not found"@,
            GameError::NotPlayersTurn => "Not this player's turn"@,
            GameError::CannotDoubleDown => "Cannot double down"@,
            GameError::InvalidAction => "Invalid action"@,
        }
    }

    /// A message for the player.
    pub fn message(&self) -> (text: String)
        ensures
            text@ == self.message_text(),
    {
        match self {
            GameError::NoPlayers => "No players in the game".to_owned(),
            GameError::PlayerNotFound => "Player not found".to_owned(),
            GameError::NotPlayersTurn => "Not this player's turn".to_owned(),
            GameError::CannotDoubleDown => "Cannot double down".to_owned(),
            GameError::InvalidAction => "Invalid action".to_owned(),
        }
    }
}

/// What a player is paid at the end of a round, stake included. The cases
/// are tried in this order: a busted player gets nothing; a blackjack
/// against a dealer without one pays the stake and half as much again on
/// top of it, rounded down; a dealer's blackjack against a player without
/// one pays nothing; two blackjacks return the stake; a busted dealer or a
/// higher score pays twice the stake; equal scores return the stake; a lower
/// score gets nothing.
pub open spec fn payout(hand: Seq<Card>, dealer_hand: Seq<Card>, bet: nat) -> nat {
    let player_score = score_of(hand);
    let dealer_score = score_of(dealer_hand);
    let player_blackjack = is_blackjack_hand(hand);
    let dealer_blackjack = is_blackjack_hand(dealer_hand);
    if player_score > 21 {
        0
    } else if player_blackjack && !dealer_blackjack {
        bet + bet * 3 / 2
    } else if !player_blackjack && dealer_blackjack {
        0
    } else if player_blackjack && dealer_blackjack {
        bet
    } else if dealer_score > 21 || player_score > dealer_score {
        bet * 2
    } else if player_score == dealer_score {
        bet
    } else {
        0
    }
}

/// The card `k` places below the top of the deck, as a sequence of one card;
/// empty when the deck is not that deep.
pub open spec fn card_from_top(deck: Seq<Card>, k: int) -> Seq<Card> {
    if 0 <= k < deck.len() {
        seq![deck[deck.len() - 1 - k]]
    } else {
        Seq::empty()
    }
}

/// The deck without its top `k` cards, or empty when it has no more than `k`.
pub open spec fn below_top(deck: Seq<Card>, k: int) -> Seq<Card> {
    if 0 <= k <= deck.len() {
        deck.take(deck.len() - k)
    } else {
        Seq::empty()
    }
}

/// Which deck a round may start from: the deck as it is while it holds at
/// least twenty cards, and otherwise the full deck in some order.
pub open spec fn round_deck(before: Seq<Card>, deck: Seq<Card>) -> bool {
    if before.len() < RESHUFFLE_BELOW {
        deck.to_multiset() == fresh_deck().to_multiset()
    } else {
        deck == before
    }
}

/// The table as the rules see it.
pub struct GameView {
    pub deck: Seq<Card>,
    pub dealer_hand: Seq<Card>,
    pub players: Seq<PlayerView>,
    pub current_player_index: nat,
    pub state: GameState,
}

impl GameView {
    /// Every bet and every balance fits in 32 bits.
    pub open spec fn in_range(self) -> bool {
        forall|i: int|
            0 <= i < self.players.len() ==> (#[trigger] self.players[i]).bet <= u32::MAX
                && self.players[i].balance <= u32::MAX
    }

    /// Every balance leaves room for four times the bet on top of it: as
    /// much as one command can ever add, when a doubled bet is paid as a
    /// blackjack.
    pub open spec fn has_headroom(self) -> bool {
        forall|i: int|
            0 <= i < self.players.len() ==> (#[trigger] self.players[i]).balance + 4
                * self.players[i].bet <= u32::MAX
    }

    /// A table with the full deck in some order and nobody seated.
    pub open spec fn is_new(self) -> bool {
        &&& self.deck.to_multiset() == fresh_deck().to_multiset()
        &&& self.dealer_hand == Seq::<Card>::empty()
        &&& self.players == Seq::<PlayerView>::empty()
        &&& self.current_player_index == 0
        &&& self.state == GameState::WaitingForPlayers
    }

    /// The id of the player who is to act; none when the current index
    /// points past the last seat.
    pub open spec fn current_player_id(self) -> Option<Seq<char>> {
        if self.current_player_index < self.players.len() {
            Some(self.players[self.current_player_index as int].id)
        } else {
            None
        }
    }

    /// The table with the player in seat `i` replaced.
    pub open spec fn with_player(self, i: int, player: PlayerView) -> GameView {
        GameView { players: self.players.update(i, player), ..self }
    }

    /// A new player takes the next seat, unless all six are taken.
    pub open spec fn joined(self, id: Seq<char>, name: Seq<char>, balance: nat) -> GameView {
        if self.players.len() < MAX_PLAYERS {
            GameView { players: self.players.push(PlayerView::fresh(id, name, balance)), ..self }
        } else {
            self
        }
    }

    /// All hands are laid down and every player may act again. Bets and
    /// balances stay.
    pub open spec fn cleared(self) -> GameView {
        GameView {
            dealer_hand: Seq::empty(),
            players: Seq::new(
                self.players.len(),
                |i: int| PlayerView { hand: Seq::empty(), is_active: true, ..self.players[i] },
            ),
            ..self
        }
    }

    /// The table with another deck in place.
    pub open spec fn with_deck(self, deck: Seq<Card>) -> GameView {
        GameView { deck, ..self }
    }

    /// One pass of dealing: a card from the top to each player in seat
    /// order, then one to the dealer. When the deck runs out, those who
    /// come later get nothing.
    pub open spec fn pass_dealt(self) -> GameView {
        let seats = self.players.len();
        GameView {
            deck: below_top(self.deck, (seats + 1) as int),
            dealer_hand: self.dealer_hand + card_from_top(self.deck, seats as int),
            players: Seq::new(
                seats,
                |i: int|
                    PlayerView {
                        hand: self.players[i].hand + card_from_top(self.deck, i),
                        ..self.players[i]
                    },
            ),
            ..self
        }
    }

    /// The opening deal: two passes, then the first seat is to act.
    pub open spec fn opened(self) -> GameView {
        GameView {
            current_player_index: 0,
            state: GameState::PlayerTurn,
            ..self.pass_dealt().pass_dealt()
        }
    }

    /// The top card goes to the player in seat `i`; nothing happens when the
    /// deck is empty.
    pub open spec fn card_dealt_to(self, i: int) -> GameView {
        GameView {
            deck: below_top(self.deck, 1),
            players: self.players.update(
                i,
                PlayerView {
                    hand: self.players[i].hand + card_from_top(self.deck, 0),
                    ..self.players[i]
                },
            ),
            ..self
        }
    }

    /// The table when the player in seat `seat` has made the move that ends
    /// the player's turn: `taken` cards have left the top of the deck, and
    /// the player holds `hand`, has `bet` at stake and `balance` in funds.
    pub open spec fn turn_ended(
        self,
        seat: int,
        taken: int,
        hand: Seq<Card>,
        bet: nat,
        balance: nat,
    ) -> GameView {
        GameView {
            deck: below_top(self.deck, taken),
            players: self.players.update(
                seat,
                PlayerView { hand, bet, balance, is_active: false, ..self.players[seat] },
            ),
            ..self
        }
    }

    /// The player in seat `i` may no longer act in this round.
    pub open spec fn retired(self, i: int) -> GameView {
        self.with_player(i, PlayerView { is_active: false, ..self.players[i] })
    }

    /// Every player is paid against the dealer's hand.
    pub open spec fn settled(self) -> GameView {
        GameView {
            players: Seq::new(
                self.players.len(),
                |i: int|
                    PlayerView {
                        balance: self.players[i].balance + payout(
                            self.players[i].hand,
                            self.dealer_hand,
                            self.players[i].bet,
                        ),
                        ..self.players[i]
                    },
            ),
            ..self
        }
    }

    /// The dealer draws from the top of the deck while the dealer's score is
    /// below 17 and the deck has a card left.
    pub open spec fn dealer_drawn(self) -> GameView
        decreases self.deck.len(),
    {
        if score_of(self.dealer_hand) < DEALER_STANDS_AT && self.deck.len() > 0 {
            GameView {
                deck: self.deck.drop_last(),
                dealer_hand: self.dealer_hand.push(self.deck.last()),
                ..self
            }.dealer_drawn()
        } else {
            self
        }
    }

    /// The dealer's turn to its end: the dealer draws, the round ends, and
    /// the players are paid.
    pub open spec fn dealer_played(self) -> GameView {
        GameView { state: GameState::GameEnd, ..self.dealer_drawn() }.settled()
    }

    /// The first seat from `from` on whose player may still act; the number
    /// of seats when there is none.
    pub open spec fn next_active(self, from: nat) -> nat
        decreases self.players.len() - from,
    {
        if from >= self.players.len() {
            self.players.len()
        } else if self.players[from as int].is_active {
            from
        } else {
            self.next_active(from + 1)
        }
    }

    /// The turn goes to the dealer: no player is to act any more, and the
    /// current index points past the last seat.
    pub open spec fn turned_to_dealer(self) -> GameView {
        GameView {
            current_player_index: self.players.len(),
            state: GameState::DealerTurn,
            ..self
        }
    }

    /// The turn passes on: to the next seat behind the current one whose
    /// player may still act, or, when there is none, to the dealer, who
    /// plays at once and ends the round. No player is to act after the end
    /// of a round, until the next one starts.
    pub open spec fn advanced(self) -> GameView {
        let next = self.next_active(self.current_player_index + 1);
        if next < self.players.len() {
            GameView { current_player_index: next, ..self }
        } else {
            self.turned_to_dealer().dealer_played()
        }
    }

    /// Hit: the player in seat `i` takes the top card; a hand that is busted
    /// then ends the player's turn.
    pub open spec fn hit(self, i: int) -> GameView {
        let dealt = self.card_dealt_to(i);
        if score_of(dealt.players[i].hand) > 21 {
            dealt.retired(i).advanced()
        } else {
            dealt
        }
    }

    /// Stand: the player's turn ends.
    pub open spec fn stood(self, i: int) -> GameView {
        self.retired(i).advanced()
    }

    /// Doubling down is open to a player with exactly two cards whose
    /// balance covers the bet.
    pub open spec fn can_double_down(self, i: int) -> bool {
        self.players[i].hand.len() == 2 && self.players[i].balance >= self.players[i].bet
    }

    /// Double down: the bet is taken from the balance once more and doubled,
    /// the player takes exactly one card, and the player's turn ends.
    pub open spec fn doubled_down(self, i: int) -> GameView {
        self.with_player(
            i,
            PlayerView {
                balance: (self.players[i].balance - self.players[i].bet) as nat,
                bet: self.players[i].bet * 2,
                ..self.players[i]
            },
        ).card_dealt_to(i).retired(i).advanced()
    }

    /// What an action of the player in seat `i` makes of the table, or why
    /// it is refused.
    pub open spec fn acted(self, i: int, action: PlayerAction) -> Result<GameView, GameError> {
        match action {
            PlayerAction::Hit => Ok(self.hit(i)),
            PlayerAction::Stand => Ok(self.stood(i)),
            PlayerAction::DoubleDown => if self.can_double_down(i) {
                Ok(self.doubled_down(i))
            } else {
                Err(GameError::CannotDoubleDown)
            },
            PlayerAction::Split => Err(GameError::InvalidAction),
        }
    }

    /// The first seat from `from` on whose player has the id `id`; the
    /// number of seats when there is none.
    pub open spec fn seat_of(self, id: Seq<char>, from: nat) -> nat
        decreases self.players.len() - from,
    {
        if from >= self.players.len() {
            self.players.len()
        } else if self.players[from as int].id == id {
            from
        } else {
            self.seat_of(id, from + 1)
        }
    }

    /// What a command makes of the table, or why it is refused. The player
    /// must be seated and must be the one to act, and the word must name an
    /// action; the checks are made in this order.
    pub open spec fn commanded(self, id: Seq<char>, word: Seq<char>) -> Result<
        GameView,
        GameError,
    > {
        let seat = self.seat_of(id, 0);
        if seat >= self.players.len() {
            Err(GameError::PlayerNotFound)
        } else if seat != self.current_player_index {
            Err(GameError::NotPlayersTurn)
        } else {
            match PlayerAction::named(word) {
                Some(action) => self.acted(seat as int, action),
                None => Err(GameError::InvalidAction),
            }
        }
    }
}

/// Counting from the top of a deck that has lost `k` cards is counting `k`
/// further down in the whole deck.
pub proof fn lemma_below_top(deck: Seq<Card>, k: int, j: int)
    requires
        0 <= k,
        0 <= j,
    ensures
        below_top(below_top(deck, k), j) == below_top(deck, k + j),
        card_from_top(below_top(deck, k), j) == card_from_top(deck, k + j),
{
}

/// The opening deal goes twice around the table: with `n` players, the
/// player in seat `i` gets the cards `i` and `n + 1 + i` below the top of
/// the deck, the dealer gets the cards `n` and `2n + 1` below the top, and
/// the deck loses its top `2n + 2` cards. A deck that is too short leaves
/// those who come later without a card.
pub proof fn lemma_opening_deal(table: GameView)
    ensures
        table.opened().players.len() == table.players.len(),
        forall|i: int|
            0 <= i < table.players.len() ==> #[trigger] table.opened().players[i] == (PlayerView {
                hand: table.players[i].hand + card_from_top(table.deck, i) + card_from_top(
                    table.deck,
                    table.players.len() + 1 + i,
                ),
                ..table.players[i]
            }),
        table.opened().dealer_hand == table.dealer_hand + card_from_top(
            table.deck,
            table.players.len() as int,
        ) + card_from_top(table.deck, (2 * table.players.len() + 1) as int),
        table.opened().deck == below_top(table.deck, (2 * table.players.len() + 2) as int),
        table.opened().current_player_index == 0,
        table.opened().state == GameState::PlayerTurn,
{
    let n = table.players.len() as int;
    lemma_below_top(table.deck, n + 1, n + 1);
    lemma_below_top(table.deck, n + 1, n);
}

/// The seat that `next_active` names is the first from `from` on whose
/// player may act: every seat before it is out of the round, and it lies
/// past the last seat only when there is none.
pub proof fn lemma_next_active(table: GameView, from: nat)
    requires
        from <= table.players.len(),
    ensures
        from <= table.next_active(from) <= table.players.len(),
        forall|k: int| from <= k < table.next_active(from) ==> !table.players[k].is_active,
        table.next_active(from) < table.players.len() ==> table.players[table.next_active(
            from,
        ) as int].is_active,
    decreases table.players.len() - from,
{
    if from < table.players.len() && !table.players[from as int].is_active {
        lemma_next_active(table, from + 1);
    }
}

/// The seat that `seat_of` names is the first from `from` on whose player
/// has the id: no seat before it has, and it lies past the last seat only
/// when there is none.
pub proof fn lemma_seat_of(table: GameView, id: Seq<char>, from: nat)
    requires
        from <= table.players.len(),
    ensures
        from <= table.seat_of(id, from) <= table.players.len(),
        forall|k: int| from <= k < table.seat_of(id, from) ==> table.players[k].id != id,
        table.seat_of(id, from) < table.players.len() ==> table.players[table.seat_of(
            id,
            from,
        ) as int].id == id,
    decreases table.players.len() - from,
{
    if from < table.players.len() && table.players[from as int].id != id {
        lemma_seat_of(table, id, from + 1);
    }
}

/// Which seats come next does not depend on the seats before them.
pub proof fn lemma_next_active_looks_ahead(table: GameView, other: GameView, from: nat)
    requires
        other.players.len() == table.players.len(),
        forall|k: int|
            from <= k < table.players.len() ==> other.players[k].is_active
                == table.players[k].is_active,
    ensures
        other.next_active(from) == table.next_active(from),
    decreases table.players.len() - from,
{
    if from < table.players.len() && !table.players[from as int].is_active {
        lemma_next_active_looks_ahead(table, other, from + 1);
    }
}

/// When the player who is to act stands, the turn goes to the next seat
/// behind whose player may still act, and nothing else changes but that the
/// player is out of the round. When there is no such seat, the round is
/// over before the command returns: the dealer has played, the table is
/// at `GameEnd`, and no player is to act.
pub proof fn lemma_stand_passes_the_turn(table: GameView)
    requires
        table.current_player_index < table.players.len(),
    ensures
        ({
            let seat = table.current_player_index;
            let next = table.next_active(seat + 1);
            let after = table.stood(seat as int);
            &&& seat < next <= table.players.len()
            &&& next < table.players.len() ==> after == GameView {
                current_player_index: next,
                ..table.retired(seat as int)
            }
            &&& next == table.players.len() ==> after.state == GameState::GameEnd
                && after.current_player_index == table.players.len()
                && after.current_player_id() is None
        }),
{
    let seat = table.current_player_index;
    let retired = table.retired(seat as int);
    lemma_next_active(table, seat + 1);
    lemma_next_active_looks_ahead(table, retired, seat + 1);
    lemma_dealer_drawn(retired.turned_to_dealer());
}

/// The dealer's draws touch nothing but the deck and the dealer's hand, and
/// no card is lost: the dealer's hand grows by what the deck gives up.
pub proof fn lemma_dealer_drawn(table: GameView)
    ensures
        table.dealer_drawn().players == table.players,
        table.dealer_drawn().current_player_index == table.current_player_index,
        table.dealer_drawn().state == table.state,
        table.dealer_drawn().deck.len() + table.dealer_drawn().dealer_hand.len()
            == table.deck.len() + table.dealer_hand.len(),
        score_of(table.dealer_drawn().dealer_hand) >= DEALER_STANDS_AT
            || table.dealer_drawn().deck.len() == 0,
    decreases table.deck.len(),
{
    if score_of(table.dealer_hand) < DEALER_STANDS_AT && table.deck.len() > 0 {
        lemma_dealer_drawn(
            GameView {
                deck: table.deck.drop_last(),
                dealer_hand: table.dealer_hand.push(table.deck.last()),
                ..table
            },
        );
    }
}

/// What the dealer draws depends on the deck and on the dealer's hand, and
/// on nothing else.
pub proof fn lemma_dealer_drawn_reads(table: GameView, other: GameView)
    requires
        other.deck == table.deck,
        other.dealer_hand == table.dealer_hand,
    ensures
        other.dealer_drawn().deck == table.dealer_drawn().deck,
        other.dealer_drawn().dealer_hand == table.dealer_drawn().dealer_hand,
    decreases table.deck.len(),
{
    if score_of(table.dealer_hand) < DEALER_STANDS_AT && table.deck.len() > 0 {
        lemma_dealer_drawn_reads(
            GameView {
                deck: table.deck.drop_last(),
                dealer_hand: table.dealer_hand.push(table.deck.last()),
                ..table
            },
            GameView {
                deck: other.deck.drop_last(),
                dealer_hand: other.dealer_hand.push(other.deck.last()),
                ..other
            },
        );
    }
}

/// The top `k` cards of a deck, in the order in which they leave it.
pub open spec fn top_cards(deck: Seq<Card>, k: int) -> Seq<Card> {
    Seq::new(k as nat, |j: int| deck[deck.len() - 1 - j])
}

/// The dealer's draws, counted: the dealer takes the top `k` cards of the
/// deck, in their order, where `k` is the first count at which the
/// dealer's score has reached 17 or the deck is used up.
pub proof fn lemma_dealer_draws(table: GameView) -> (k: int)
    ensures
        0 <= k <= table.deck.len(),
        table.dealer_drawn().deck == below_top(table.deck, k),
        table.dealer_drawn().dealer_hand == table.dealer_hand + top_cards(table.deck, k),
        forall|j: int|
            0 <= j < k ==> score_of(table.dealer_hand + #[trigger] top_cards(table.deck, j))
                < DEALER_STANDS_AT,
        k < table.deck.len() ==> score_of(table.dealer_drawn().dealer_hand) >= DEALER_STANDS_AT,
    decreases table.deck.len(),
{
    if score_of(table.dealer_hand) < DEALER_STANDS_AT && table.deck.len() > 0 {
        let next = GameView {
            deck: table.deck.drop_last(),
            dealer_hand: table.dealer_hand.push(table.deck.last()),
            ..table
        };
        let k = lemma_dealer_draws(next);
        assert forall|j: int| 0 <= j <= k implies next.dealer_hand + top_cards(next.deck, j)
            == table.dealer_hand + #[trigger] top_cards(table.deck, j + 1) by {}
        assert forall|j: int| 0 <= j < k + 1 implies score_of(
            table.dealer_hand + #[trigger] top_cards(table.deck, j),
        ) < DEALER_STANDS_AT by {
            if j == 0 {
                assert(table.dealer_hand + top_cards(table.deck, 0) =~= table.dealer_hand);
            } else {
                assert(top_cards(next.deck, j - 1).len() == j - 1);
                assert(next.dealer_hand + top_cards(next.deck, j - 1) == table.dealer_hand
                    + top_cards(table.deck, j));
            }
        }
        k + 1
    } else {
        0
    }
}

/// What a player is paid is never more than the stake and half as much
/// again on top of it.
pub proof fn lemma_payout_bound(hand: Seq<Card>, dealer_hand: Seq<Card>, bet: nat)
    ensures
        payout(hand, dealer_hand, bet) <= bet + bet * 3 / 2,
        2 * payout(hand, dealer_hand, bet) <= 5 * bet,
{
}

/// Passing the turn on leaves every seat with its player, cards and bet,
/// and takes nothing from a balance; a balance grows by at most the stake
/// and half as much again on top of it.
pub proof fn lemma_advanced_keeps_stakes(table: GameView)
    ensures
        table.advanced().players.len() == table.players.len(),
        forall|i: int|
            0 <= i < table.players.len() ==> {
                let before = table.players[i];
                let after = #[trigger] table.advanced().players[i];
                &&& after.id == before.id
                &&& after.name == before.name
                &&& after.hand == before.hand
                &&& after.bet == before.bet
                &&& after.is_active == before.is_active
                &&& before.balance <= after.balance
                &&& 2 * after.balance <= 2 * before.balance + 5 * before.bet
            },
{
    let turned = table.turned_to_dealer();
    lemma_dealer_drawn(turned);
    assert forall|i: int| 0 <= i < table.players.len() implies {
        let before = table.players[i];
        let after = #[trigger] table.advanced().players[i];
        &&& after.id == before.id
        &&& after.name == before.name
        &&& after.hand == before.hand
        &&& after.bet == before.bet
        &&& after.is_active == before.is_active
        &&& before.balance <= after.balance
        &&& 2 * after.balance <= 2 * before.balance + 5 * before.bet
    } by {
        lemma_payout_bound(
            table.players[i].hand,
            turned.dealer_drawn().dealer_hand,
            table.players[i].bet,
        );
    }
}

/// Once a round is over, nobody is to act: the current index points past
/// the last seat, no player is current, and every command is refused,
/// a seated player's as not being that player's turn, until the next round
/// starts.
pub proof fn lemma_round_end_leaves_nobody_to_act(
    table: GameView,
    id: Seq<char>,
    word: Seq<char>,
)
    requires
        table.next_active(table.current_player_index + 1) >= table.players.len(),
    ensures
        table.advanced().state == GameState::GameEnd,
        table.advanced().current_player_index == table.players.len(),
        table.advanced().current_player_id() is None,
        table.advanced().commanded(id, word) == if table.seat_of(id, 0) < table.players.len() {
            Err::<GameView, GameError>(GameError::NotPlayersTurn)
        } else {
            Err::<GameView, GameError>(GameError::PlayerNotFound)
        },
{
    lemma_dealer_drawn(table.turned_to_dealer());
    lemma_advanced_keeps_stakes(table);
    lemma_seat_of(table, id, 0);
    lemma_seat_of(table.advanced(), id, 0);
    lemma_seat_of_reads_ids(table, table.advanced(), id, 0);
}

/// Which seat answers to an id depends on the ids alone.
pub proof fn lemma_seat_of_reads_ids(table: GameView, other: GameView, id: Seq<char>, from: nat)
    requires
        other.players.len() == table.players.len(),
        forall|k: int| 0 <= k < table.players.len() ==> other.players[k].id == table.players[k].id,
    ensures
        other.seat_of(id, from) == table.seat_of(id, from),
    decreases table.players.len() - from,
{
    if from < table.players.len() && table.players[from as int].id != id {
        lemma_seat_of_reads_ids(table, other, id, from + 1);
    }
}

/// A command acts on one player. Everybody stays seated under the same id
/// and name; the players who did not act keep their cards, their bets and
/// their part in the round, and their balances can only grow, by what the
/// end of the round pays them. The table is left where it stood in the
/// round, or at `GameEnd`.
pub proof fn lemma_command_frame(table: GameView, id: Seq<char>, word: Seq<char>)
    ensures
        table.commanded(id, word) matches Ok(after) ==> {
            &&& after.players.len() == table.players.len()
            &&& after.state == table.state || after.state == GameState::GameEnd
            &&& after.current_player_index == table.current_player_index || (
            table.current_player_index < after.current_player_index < table.players.len()
                && after.players[after.current_player_index as int].is_active) || (after.state
                == GameState::GameEnd && after.current_player_id() is None)
            &&& forall|k: int|
                0 <= k < table.players.len() ==> (#[trigger] after.players[k]).id
                    == table.players[k].id && after.players[k].name == table.players[k].name
            &&& forall|k: int|
                0 <= k < table.players.len() && k != table.seat_of(id, 0) ==> {
                    &&& (#[trigger] after.players[k]).hand == table.players[k].hand
                    &&& after.players[k].bet == table.players[k].bet
                    &&& after.players[k].is_active == table.players[k].is_active
                    &&& after.players[k].balance >= table.players[k].balance
                }
        },
{
    let seat = table.seat_of(id, 0) as int;
    if seat < table.players.len() {
        let dealt = table.card_dealt_to(seat);
        lemma_advanced_keeps_stakes(dealt.retired(seat));
        lemma_dealer_drawn(dealt.retired(seat).turned_to_dealer());
        lemma_advanced_keeps_stakes(table.retired(seat));
        lemma_dealer_drawn(table.retired(seat).turned_to_dealer());
        let staked = table.with_player(
            seat,
            PlayerView {
                balance: (table.players[seat].balance - table.players[seat].bet) as nat,
                bet: table.players[seat].bet * 2,
                ..table.players[seat]
            },
        ).card_dealt_to(seat).retired(seat);
        lemma_advanced_keeps_stakes(staked);
        lemma_dealer_drawn(staked.turned_to_dealer());
        if seat == table.current_player_index {
            lemma_next_active(dealt.retired(seat), table.current_player_index + 1);
            lemma_next_active(table.retired(seat), table.current_player_index + 1);
            lemma_next_active(staked, table.current_player_index + 1);
        }
    }
}

/// Where every balance leaves room for four times the bet, no payment and
/// no command pushes a bet or a balance past 32 bits.
pub proof fn lemma_headroom_suffices(table: GameView)
    requires
        table.has_headroom(),
    ensures
        table.in_range(),
        table.settled().in_range(),
        table.dealer_played().in_range(),
        table.advanced().in_range(),
        forall|i: int, action: PlayerAction|
            0 <= i < table.players.len() ==> (#[trigger] table.acted(i, action) matches Ok(after)
                ==> after.in_range()),
        forall|id: Seq<char>, word: Seq<char>| #[trigger]
            table.commanded(id, word) matches Ok(after) ==> after.in_range(),
{
    lemma_headroom_covers_turn(table);
    lemma_dealer_drawn(table);
    assert forall|i: int, action: PlayerAction| 0 <= i < table.players.len() implies (
    #[trigger] table.acted(i, action) matches Ok(after) ==> after.in_range()) by {
        lemma_headroom_covers_action(table, i, action);
    }
}

/// Passing the turn on keeps bets and balances within 32 bits where every
/// balance leaves room for two and a half times the bet.
proof fn lemma_headroom_covers_turn(table: GameView)
    requires
        forall|i: int|
            0 <= i < table.players.len() ==> 2 * (#[trigger] table.players[i]).balance + 5
                * table.players[i].bet <= 2 * u32::MAX && table.players[i].bet <= u32::MAX,
    ensures
        table.advanced().in_range(),
{
    lemma_advanced_keeps_stakes(table);
    assert forall|i: int| 0 <= i < table.advanced().players.len() implies (
    #[trigger] table.advanced().players[i]).bet <= u32::MAX && table.advanced().players[i].balance
        <= u32::MAX by {}
}

proof fn lemma_headroom_covers_action(table: GameView, i: int, action: PlayerAction)
    requires
        table.has_headroom(),
        0 <= i < table.players.len(),
    ensures
        table.acted(i, action) matches Ok(after) ==> after.in_range(),
{
    match action {
        PlayerAction::Hit => {
            let dealt = table.card_dealt_to(i);
            lemma_headroom_covers_turn(dealt.retired(i));
        },
        PlayerAction::Stand => {
            lemma_headroom_covers_turn(table.retired(i));
        },
        PlayerAction::DoubleDown => {
            if table.can_double_down(i) {
                let staked = table.with_player(
                    i,
                    PlayerView {
                        balance: (table.players[i].balance - table.players[i].bet) as nat,
                        bet: table.players[i].bet * 2,
                        ..table.players[i]
                    },
                );
                lemma_headroom_covers_turn(staked.card_dealt_to(i).retired(i));
            }
        },
        PlayerAction::Split => {},
    }
}

} // verus!
