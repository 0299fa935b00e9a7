//! The engine: the table as data, and the commands that move it.

use vstd::prelude::*;
use crate::card::Card;
use crate::deck::{fresh_deck, Deck};
use crate::hand::{is_blackjack_hand, score_of, Hand};
use crate::player::{Player, PlayerView};
use crate::rules::{
    below_top, card_from_top, lemma_advanced_keeps_stakes, lemma_below_top, lemma_dealer_drawn,
    lemma_dealer_drawn_reads, lemma_headroom_suffices, lemma_next_active_looks_ahead, payout,
    round_deck, GameError, GameState, GameView, PlayerAction, DEALER_STANDS_AT, MAX_PLAYERS,
    RESHUFFLE_BELOW,
};

verus! {

/// Everything there is to know of a table: the deck, the dealer's hand,
/// the players in the order in which they joined, which of them is to act,
/// and where the round stands.
#[derive(Debug, Clone)]
pub struct BlackjackGame {
    pub deck: Deck,
    pub dealer_hand: Hand,
    pub players: Vec<Player>,
    pub current_player_index: usize,
    pub state: GameState,
}

impl View for BlackjackGame {
    type V = GameView;

    open spec fn view(&self) -> GameView {
        GameView {
            deck: self.deck@,
            dealer_hand: self.dealer_hand@,
            players: Seq::new(self.players@.len(), |i: int| self.players@[i]@),
            current_player_index: self.current_player_index as nat,
            state: self.state,
        }
    }
}

/// The rules engine of one table. The table is open to whoever owns the
/// engine: bets are placed by writing a player's `bet`.
#[derive(Debug, Clone)]
pub struct GameEngine {
    pub game: BlackjackGame,
}

impl View for GameEngine {
    type V = GameView;

    open spec fn view(&self) -> GameView {
        self.game@
    }
}

impl GameEngine {
    /// An engine with a shuffled full deck, nobody seated, waiting for
    /// players. Where the operating system gives no entropy, the deck is
    /// left in its fixed order; `try_new` tells.
    pub fn new() -> (engine: GameEngine)
        ensures
            engine@.is_new(),
    {
        let (engine, _) = GameEngine::try_new();
        engine
    }

    /// As `new`, together with the word of the shuffle: `false` where the
    /// operating system gave no entropy, and the deck is in its fixed order.
    pub fn try_new() -> (made: (GameEngine, bool))
        ensures
            made.0@.is_new(),
            !made.1 ==> made.0@.deck == fresh_deck(),
    {
        let mut deck = Deck::new();
        let shuffled = deck.shuffle();
        let engine = GameEngine {
            game: BlackjackGame {
                deck,
                dealer_hand: Hand::new(),
                players: Vec::new(),
                current_player_index: 0,
                state: GameState::WaitingForPlayers,
            },
        };
        proof {
            assert(engine@.players =~= Seq::<PlayerView>::empty());
        }
        (engine, shuffled)
    }

    /// Seats a new player behind those already seated, with no cards and no
    /// bet. A seventh player is turned away: the result is `false` and
    /// nothing changes.
    pub fn add_player(&mut self, id: &str, name: &str, balance: u32) -> (seated: bool)
        ensures
            seated == (old(self)@.players.len() < MAX_PLAYERS),
            final(self)@ == old(self)@.joined(id@, name@, balance as nat),
            !seated ==> *final(self) == *old(self),
    {
        if self.game.players.len() >= MAX_PLAYERS {
            return false;
        }
        let player = Player::new(id.to_owned(), name.to_owned(), balance);
        self.game.players.push(player);
        proof {
            assert(self@.players =~= old(self)@.joined(id@, name@, balance as nat).players);
        }
        true
    }

    /// Starts a round: all hands are laid down, every player may act
    /// again, the deck is rebuilt and reshuffled if fewer than twenty cards
    /// are left, and the opening hands are dealt. Bets and balances stay as
    /// they are. With nobody seated the round is refused and nothing
    /// changes. Where the operating system gives no entropy, a rebuilt deck
    /// is left in its fixed order; `try_start_new_round` tells.
    pub fn start_new_round(&mut self) -> (result: Result<(), GameError>)
        ensures
            old(self)@.players.len() == 0 ==> result == Err::<(), GameError>(GameError::NoPlayers)
                && *final(self) == *old(self),
            old(self)@.players.len() > 0 ==> result is Ok && exists|deck: Seq<Card>|
                round_deck(old(self)@.deck, deck) && final(self)@ == old(self)@.cleared().with_deck(
                    deck,
                ).opened(),
    {
        match self.try_start_new_round() {
            Ok(_) => Ok(()),
            Err(error) => Err(error),
        }
    }

    /// As `start_new_round`, together with the word of the shuffle: the
    /// result is `Ok(false)` where the deck was rebuilt and the operating
    /// system gave no entropy, so that the round starts from the full deck
    /// in its fixed order, and `Ok(true)` for every other round.
    pub fn try_start_new_round(&mut self) -> (result: Result<bool, GameError>)
        ensures
            old(self)@.players.len() == 0 ==> result == Err::<bool, GameError>(
                GameError::NoPlayers,
            ) && *final(self) == *old(self),
            old(self)@.players.len() > 0 ==> result is Ok && exists|deck: Seq<Card>|
                round_deck(old(self)@.deck, deck) && final(self)@ == old(self)@.cleared().with_deck(
                    deck,
                ).opened() && (result == Ok::<bool, GameError>(false) ==> old(self)@.deck.len()
                    < RESHUFFLE_BELOW && deck == fresh_deck()),
    {
        if self.game.players.is_empty() {
            return Err(GameError::NoPlayers);
        }
        self.clear_hands();
        let mut shuffled = true;
        if self.game.deck.cards.len() < RESHUFFLE_BELOW {
            self.game.deck = Deck::new();
            shuffled = self.game.deck.shuffle();
        }
        let ghost deck = self@.deck;
        self.deal_opening_hands();
        proof {
            assert(round_deck(old(self)@.deck, deck) && self@ == old(self)@.cleared().with_deck(
                deck,
            ).opened() && (!shuffled ==> old(self)@.deck.len() < RESHUFFLE_BELOW && deck
                == fresh_deck()));
        }
        Ok(shuffled)
    }

    /// Lays down every hand and lets every player act again.
    fn clear_hands(&mut self)
        ensures
            final(self)@ == old(self)@.cleared(),
    {
        self.game.dealer_hand = Hand::new();
        let n = self.game.players.len();
        let mut i: usize = 0;
        while i < n
            invariant
                i <= n,
                n == self.game.players@.len(),
                n == old(self).game.players@.len(),
                self.game.deck == old(self).game.deck,
                self.game.dealer_hand@ == Seq::<Card>::empty(),
                self.game.current_player_index == old(self).game.current_player_index,
                self.game.state == old(self).game.state,
                forall|k: int|
                    0 <= k < i ==> (#[trigger] self.game.players@[k])@ == old(
                        self,
                    )@.cleared().players[k],
                forall|k: int|
                    i <= k < n ==> #[trigger] self.game.players@[k] == old(self).game.players@[k],
            decreases n - i,
        {
            self.game.players[i].hand = Hand::new();
            self.game.players[i].is_active = true;
            i += 1;
        }
        proof {
            assert(self@.players =~= old(self)@.cleared().players);
        }
    }

    /// Deals the opening hands from the deck as it lies: two passes, each
    /// with a card to every player in seat order and then one to the
    /// dealer. After that the first seat is to act.
    pub fn deal_opening_hands(&mut self)
        ensures
            final(self)@ == old(self)@.opened(),
    {
        self.deal_pass();
        self.deal_pass();
        self.game.current_player_index = 0;
        self.game.state = GameState::PlayerTurn;
    }

    /// One pass of dealing: a card to every player in seat order, then one
    /// to the dealer, as far as the deck goes.
    fn deal_pass(&mut self)
        ensures
            final(self)@ == old(self)@.pass_dealt(),
    {
        let ghost start = self@;
        let n = self.game.players.len();
        let mut i: usize = 0;
        while i < n
            invariant
                i <= n,
                n == self@.players.len(),
                n == start.players.len(),
                start == old(self)@,
                self@.deck == below_top(start.deck, i as int),
                self@.dealer_hand == start.dealer_hand,
                self@.current_player_index == start.current_player_index,
                self@.state == start.state,
                forall|k: int|
                    0 <= k < i ==> #[trigger] self@.players[k] == start.pass_dealt().players[k],
                forall|k: int| i <= k < n ==> #[trigger] self@.players[k] == start.players[k],
            decreases n - i,
        {
            proof {
                lemma_below_top(start.deck, i as int, 1);
                lemma_below_top(start.deck, i as int, 0);
            }
            self.deal_to_player(i);
            i += 1;
        }
        proof {
            lemma_below_top(start.deck, n as int, 1);
            lemma_below_top(start.deck, n as int, 0);
        }
        match self.game.deck.deal_card() {
            Some(card) => {
                self.game.dealer_hand.add_card(card);
            },
            None => {},
        }
        proof {
            let dealt = start.pass_dealt();
            assert(self@.deck =~= dealt.deck);
            assert(self@.dealer_hand =~= dealt.dealer_hand);
            assert(self@.players =~= dealt.players);
        }
    }

    /// The table as it stands, for whoever shows it.
    pub fn get_game_state(&self) -> (game: &BlackjackGame)
        ensures
            *game == self.game,
    {
        &self.game
    }

    /// The id of the player who is to act; `None` when the current index
    /// points past the last seat, as it does after the end of a round.
    pub fn get_current_player_id(&self) -> (id: Option<String>)
        ensures
            match id {
                Some(text) => Some(text@) == self@.current_player_id(),
                None => self@.current_player_id() is None,
            },
    {
        if self.game.current_player_index < self.game.players.len() {
            Some(self.game.players[self.game.current_player_index].id.clone())
        } else {
            None
        }
    }

    /// Whether every balance leaves room for four times the bet on top of
    /// it. Where this holds, no command can push a bet or a balance past 32
    /// bits.
    pub fn has_headroom(&self) -> (roomy: bool)
        ensures
            roomy == self@.has_headroom(),
    {
        let n = self.game.players.len();
        let mut i: usize = 0;
        while i < n
            invariant
                i <= n,
                n == self.game.players@.len(),
                forall|k: int|
                    0 <= k < i ==> (#[trigger] self@.players[k]).balance + 4 * self@.players[k].bet
                        <= u32::MAX,
            decreases n - i,
        {
            let balance = self.game.players[i].balance as u64;
            let bet = self.game.players[i].bet as u64;
            if balance + 4 * bet > u32::MAX as u64 {
                proof {
                    assert(self@.players[i as int].balance + 4 * self@.players[i as int].bet
                        > u32::MAX);
                }
                return false;
            }
            i += 1;
        }
        true
    }

    /// Pays every player against the dealer's hand. Nothing else changes.
    /// The balances after the payment must fit in 32 bits, as they do on
    /// every table with headroom.
    pub fn calculate_winners(&mut self)
        requires
            old(self)@.has_headroom() || old(self)@.settled().in_range(),
        ensures
            final(self)@ == old(self)@.settled(),
    {
        proof {
            if old(self)@.has_headroom() {
                lemma_headroom_suffices(old(self)@);
            }
        }
        let dealer_score = self.game.dealer_hand.calculate_score();
        let dealer_blackjack = self.game.dealer_hand.is_blackjack();
        let n = self.game.players.len();
        let mut i: usize = 0;
        while i < n
            invariant
                i <= n,
                n == self.game.players@.len(),
                n == old(self).game.players@.len(),
                self.game.deck == old(self).game.deck,
                self.game.dealer_hand == old(self).game.dealer_hand,
                self.game.current_player_index == old(self).game.current_player_index,
                self.game.state == old(self).game.state,
                dealer_score == score_of(self.game.dealer_hand@),
                dealer_blackjack == is_blackjack_hand(self.game.dealer_hand@),
                old(self)@.settled().in_range(),
                forall|k: int|
                    0 <= k < i ==> (#[trigger] self.game.players@[k])@ == old(
                        self,
                    )@.settled().players[k],
                forall|k: int|
                    i <= k < n ==> #[trigger] self.game.players@[k] == old(self).game.players@[k],
            decreases n - i,
        {
            let winnings = winnings(
                &self.game.players[i].hand,
                self.game.players[i].bet as u64,
                dealer_score,
                dealer_blackjack,
                Ghost(self.game.dealer_hand@),
            );
            proof {
                let before = old(self)@.players[i as int];
                assert(before == old(self).game.players@[i as int]@);
                assert(old(self)@.settled().players[i as int].balance == before.balance
                    + winnings);
            }
            let balance = self.game.players[i].balance as u64;
            self.game.players[i].balance = (balance + winnings) as u32;
            i += 1;
        }
        proof {
            assert(self@.players =~= old(self)@.settled().players);
        }
    }

    /// The dealer's turn: the dealer draws while the dealer's score is below
    /// 17 and the deck has a card left, then the round ends and the players
    /// are paid. The balances after the payment must fit in 32 bits, as
    /// they do on every table with headroom.
    pub fn dealer_play(&mut self)
        requires
            old(self)@.has_headroom() || old(self)@.dealer_played().in_range(),
        ensures
            final(self)@ == old(self)@.dealer_played(),
    {
        proof {
            if old(self)@.has_headroom() {
                lemma_headroom_suffices(old(self)@);
            }
        }
        loop
            invariant
                self.game.players == old(self).game.players,
                self.game.current_player_index == old(self).game.current_player_index,
                self.game.state == old(self).game.state,
                self@.dealer_drawn() == old(self)@.dealer_drawn(),
            ensures
                self.game.players == old(self).game.players,
                self.game.current_player_index == old(self).game.current_player_index,
                self.game.state == old(self).game.state,
                self@ == old(self)@.dealer_drawn(),
            decreases self.game.deck@.len(),
        {
            if self.game.dealer_hand.calculate_score() >= DEALER_STANDS_AT {
                break ;
            }
            let ghost before = self@;
            match self.game.deck.deal_card() {
                Some(card) => {
                    self.game.dealer_hand.add_card(card);
                    proof {
                        assert(self@ =~~= GameView {
                            deck: before.deck.drop_last(),
                            dealer_hand: before.dealer_hand.push(before.deck.last()),
                            ..before
                        });
                    }
                },
                None => {
                    proof {
                        assert(self@ =~~= before);
                    }
                    break ;
                },
            }
        }
        self.game.state = GameState::GameEnd;
        self.calculate_winners();
    }

    /// Passes the turn on: to the next seat behind the current one whose
    /// player may still act, or, when there is none, to the dealer, who
    /// plays at once. From then on nobody is to act: the current index
    /// points past the last seat until the next round starts. The balances
    /// after a payment must fit in 32 bits, as they do on every table with
    /// headroom.
    pub fn next_player(&mut self)
        requires
            old(self)@.has_headroom() || old(self)@.advanced().in_range(),
        ensures
            final(self)@ == old(self)@.advanced(),
    {
        proof {
            if old(self)@.has_headroom() {
                lemma_headroom_suffices(old(self)@);
            }
        }
        let n = self.game.players.len();
        if self.game.current_player_index < n {
            let mut next = self.game.current_player_index + 1;
            while next < n
                invariant
                    *self == *old(self),
                    n == self.game.players@.len(),
                    self.game.current_player_index < next <= n,
                    self@.next_active(self@.current_player_index + 1) == self@.next_active(
                        next as nat,
                    ),
                decreases n - next,
            {
                if self.game.players[next].is_active {
                    self.game.current_player_index = next;
                    proof {
                        assert(self@ =~~= GameView {
                            current_player_index: next as nat,
                            ..old(self)@
                        });
                    }
                    return ;
                }
                next += 1;
            }
        }
        self.game.current_player_index = n;
        self.game.state = GameState::DealerTurn;
        self.dealer_play();
    }

    /// The first seat whose player has the id `player_id`, if there is one.
    fn find_seat(&self, player_id: &str) -> (seat: Option<usize>)
        ensures
            match seat {
                Some(i) => i < self@.players.len() && i == self@.seat_of(player_id@, 0),
                None => self@.seat_of(player_id@, 0) == self@.players.len(),
            },
    {
        let wanted = player_id.to_owned();
        let n = self.game.players.len();
        let mut i: usize = 0;
        while i < n
            invariant
                i <= n,
                n == self.game.players@.len(),
                wanted@ == player_id@,
                self@.seat_of(player_id@, 0) == self@.seat_of(player_id@, i as nat),
            decreases n - i,
        {
            if self.game.players[i].id == wanted {
                return Some(i);
            }
            i += 1;
        }
        None
    }

    /// Carries out `action` for the player in seat `seat`, whoever is to
    /// act. A refused action changes nothing. The bets and balances that an
    /// accepted action leaves must fit in 32 bits, as they do on every table
    /// with headroom.
    pub fn apply_action(&mut self, seat: usize, action: PlayerAction) -> (result: Result<
        (),
        GameError,
    >)
        requires
            seat < old(self)@.players.len(),
            old(self)@.has_headroom() || (old(self)@.acted(seat as int, action) matches Ok(after)
                ==> after.in_range()),
        ensures
            match old(self)@.acted(seat as int, action) {
                Ok(after) => result is Ok && final(self)@ == after,
                Err(error) => result == Err::<(), GameError>(error) && *final(self) == *old(self),
            },
    {
        proof {
            if old(self)@.has_headroom() {
                lemma_headroom_suffices(old(self)@);
            }
        }
        match action {
            PlayerAction::Hit => {
                self.deal_to_player(seat);
                if self.game.players[seat].hand.is_busted() {
                    self.retire(seat);
                    self.next_player();
                }
                Ok(())
            },
            PlayerAction::Stand => {
                self.retire(seat);
                self.next_player();
                Ok(())
            },
            PlayerAction::DoubleDown => {
                let bet = self.game.players[seat].bet;
                if self.game.players[seat].hand.cards.len() == 2 && self.game.players[seat].balance
                    >= bet {
                    let ghost staked = old(self)@.with_player(
                        seat as int,
                        PlayerView {
                            balance: (old(self)@.players[seat as int].balance - bet) as nat,
                            bet: bet as nat * 2,
                            ..old(self)@.players[seat as int]
                        },
                    );
                    proof {
                        lemma_advanced_keeps_stakes(
                            staked.card_dealt_to(seat as int).retired(seat as int),
                        );
                        assert(old(self)@.doubled_down(seat as int).players[seat as int].bet == bet
                            * 2);
                    }
                    self.game.players[seat].balance -= bet;
                    self.game.players[seat].bet = bet * 2;
                    proof {
                        assert forall|k: int| 0 <= k < staked.players.len() implies self@.players[k]
                            == staked.players[k] by {
                            assert(self@.players[k].hand =~= staked.players[k].hand);
                        }
                        assert(self@.players =~= staked.players);
                    }
                    self.deal_to_player(seat);
                    self.retire(seat);
                    self.next_player();
                    Ok(())
                } else {
                    Err(GameError::CannotDoubleDown)
                }
            },
            PlayerAction::Split => Err(GameError::InvalidAction),
        }
    }

    /// Carries out a command of the player with the id `player_id`. The
    /// player must be seated and must be the one to act, and `action` must
    /// be one of `hit`, `stand` and `double_down`. A refused command changes
    /// nothing. The bets and balances that an accepted command leaves must
    /// fit in 32 bits, as they do on every table with headroom.
    pub fn player_action(&mut self, player_id: &str, action: &str) -> (result: Result<
        (),
        GameError,
    >)
        requires
            old(self)@.has_headroom() || (old(self)@.commanded(player_id@, action@) matches Ok(
                after,
            ) ==> after.in_range()),
        ensures
            match old(self)@.commanded(player_id@, action@) {
                Ok(after) => result is Ok && final(self)@ == after,
                Err(error) => result == Err::<(), GameError>(error) && *final(self) == *old(self),
            },
    {
        proof {
            if old(self)@.has_headroom() {
                lemma_headroom_suffices(old(self)@);
            }
        }
        let seat = match self.find_seat(player_id) {
            Some(seat) => seat,
            None => {
                return Err(GameError::PlayerNotFound);
            },
        };
        if seat != self.game.current_player_index {
            return Err(GameError::NotPlayersTurn);
        }
        match PlayerAction::from_name(action) {
            Some(action) => self.apply_action(seat, action),
            None => Err(GameError::InvalidAction),
        }
    }

    /// Moves the top card of the deck to the hand of the player in seat
    /// `seat`; does nothing when the deck is empty.
    fn deal_to_player(&mut self, seat: usize)
        requires
            seat < old(self)@.players.len(),
        ensures
            final(self)@ == old(self)@.card_dealt_to(seat as int),
    {
        match self.game.deck.deal_card() {
            Some(card) => {
                self.game.players[seat].hand.add_card(card);
            },
            None => {},
        }
        proof {
            let dealt = old(self)@.card_dealt_to(seat as int);
            assert(self@.deck =~= dealt.deck);
            assert forall|k: int| 0 <= k < dealt.players.len() implies self@.players[k]
                == dealt.players[k] by {
                assert(self@.players[k].hand =~= dealt.players[k].hand);
            }
            assert(self@.players =~= dealt.players);
        }
    }

    /// Ends the turn of the player in seat `seat` for this round.
    fn retire(&mut self, seat: usize)
        requires
            seat < old(self)@.players.len(),
        ensures
            final(self)@ == old(self)@.retired(seat as int),
    {
        self.game.players[seat].is_active = false;
        proof {
            let retired = old(self)@.retired(seat as int);
            assert(self@.players =~= retired.players);
        }
    }

    /// Whether a command, if it is accepted, leaves every bet and every
    /// balance within 32 bits: what `player_action` asks of its caller,
    /// found out without touching the table.
    pub fn command_fits(&self, player_id: &str, action: &str) -> (fits: bool)
        ensures
            fits == (self@.commanded(player_id@, action@) matches Ok(after) ==> after.in_range()),
    {
        let seat = match self.find_seat(player_id) {
            Some(seat) => seat,
            None => {
                return true;
            },
        };
        if seat != self.game.current_player_index {
            return true;
        }
        match PlayerAction::from_name(action) {
            Some(action) => self.action_fits(seat, action),
            None => true,
        }
    }

    /// Whether an action of the player in seat `seat`, if it is accepted,
    /// leaves every bet and every balance within 32 bits: what
    /// `apply_action` asks of its caller, found out without touching the
    /// table.
    pub fn action_fits(&self, seat: usize, action: PlayerAction) -> (fits: bool)
        requires
            seat < self@.players.len(),
        ensures
            fits == (self@.acted(seat as int, action) matches Ok(after) ==> after.in_range()),
    {
        let bet = self.game.players[seat].bet;
        let balance = self.game.players[seat].balance;
        proof {
            assert(below_top(self@.deck, 0) =~= self@.deck);
        }
        match action {
            PlayerAction::Hit => {
                let hand = self.hand_with_top_card(seat);
                if hand.is_busted() {
                    proof {
                        let ended = self@.turn_ended(
                            seat as int,
                            1,
                            hand@,
                            bet as nat,
                            balance as nat,
                        );
                        let retired = self@.card_dealt_to(seat as int).retired(seat as int);
                        assert(retired.players =~= ended.players);
                        assert(retired == ended);
                    }
                    self.turn_end_fits(seat, 1, &hand, bet as u64, balance)
                } else {
                    true
                }
            },
            PlayerAction::Stand => {
                proof {
                    let ended = self@.turn_ended(
                        seat as int,
                        0,
                        self@.players[seat as int].hand,
                        bet as nat,
                        balance as nat,
                    );
                    assert(self@.retired(seat as int).players =~= ended.players);
                    assert(self@.retired(seat as int) == ended);
                }
                self.turn_end_fits(seat, 0, &self.game.players[seat].hand, bet as u64, balance)
            },
            PlayerAction::DoubleDown => {
                if self.game.players[seat].hand.cards.len() == 2 && balance >= bet {
                    let hand = self.hand_with_top_card(seat);
                    proof {
                        let ended = self@.turn_ended(
                            seat as int,
                            1,
                            hand@,
                            bet as nat * 2,
                            (balance - bet) as nat,
                        );
                        let retired = self@.with_player(
                            seat as int,
                            PlayerView {
                                balance: (balance - bet) as nat,
                                bet: bet as nat * 2,
                                ..self@.players[seat as int]
                            },
                        ).card_dealt_to(seat as int).retired(seat as int);
                        assert(retired.players =~= ended.players);
                        assert(retired == ended);
                    }
                    self.turn_end_fits(seat, 1, &hand, bet as u64 * 2, balance - bet)
                } else {
                    true
                }
            },
            PlayerAction::Split => true,
        }
    }

    /// Whether the turn can pass on within 32 bits once the player in seat
    /// `seat` has ended the turn with `hand`, `bet` and `balance`, and
    /// `taken` cards have left the deck.
    fn turn_end_fits(&self, seat: usize, taken: usize, hand: &Hand, bet: u64, balance: u32) -> (fits:
        bool)
        requires
            seat < self@.players.len(),
            taken <= 1,
            bet <= 2 * u32::MAX,
        ensures
            fits == self@.turn_ended(
                seat as int,
                taken as int,
                hand@,
                bet as nat,
                balance as nat,
            ).advanced().in_range(),
    {
        let ghost ended = self@.turn_ended(
            seat as int,
            taken as int,
            hand@,
            bet as nat,
            balance as nat,
        );
        let ghost turned = ended.turned_to_dealer();
        proof {
            lemma_next_active_looks_ahead(
                self@.retired(seat as int),
                ended,
                self@.current_player_index + 1,
            );
            lemma_dealer_drawn(turned);
        }
        if bet > u32::MAX as u64 {
            proof {
                assert(ended.advanced().players[seat as int].bet == bet);
            }
            return false;
        }
        if !self.round_would_end(seat) {
            proof {
                assert forall|k: int| 0 <= k < ended.players.len() implies (
                #[trigger] ended.advanced().players[k]).bet <= u32::MAX
                    && ended.advanced().players[k].balance <= u32::MAX by {
                    assert(ended.players[k] == if k == seat {
                        ended.players[seat as int]
                    } else {
                        self@.players[k]
                    });
                }
            }
            return true;
        }
        let dealer = self.dealer_would_hold(taken);
        proof {
            lemma_dealer_drawn_reads(
                turned,
                GameView { deck: below_top(self@.deck, taken as int), ..self@ },
            );
        }
        let dealer_score = dealer.calculate_score();
        let dealer_blackjack = dealer.is_blackjack();
        let ghost after = ended.advanced();
        let n = self.game.players.len();
        let mut k: usize = 0;
        while k < n
            invariant
                k <= n,
                n == self.game.players@.len(),
                seat < n,
                bet <= u32::MAX,
                after == ended.advanced(),
                after.players.len() == n,
                forall|j: int|
                    0 <= j < n ==> (#[trigger] after.players[j]).bet == ended.players[j].bet
                        && after.players[j].balance == ended.players[j].balance + payout(
                        ended.players[j].hand,
                        dealer@,
                        ended.players[j].bet,
                    ),
                ended == self@.turn_ended(
                    seat as int,
                    taken as int,
                    hand@,
                    bet as nat,
                    balance as nat,
                ),
                dealer_score == score_of(dealer@),
                dealer_blackjack == is_blackjack_hand(dealer@),
                forall|j: int|
                    0 <= j < k ==> (#[trigger] ended.players[j]).balance + payout(
                        ended.players[j].hand,
                        dealer@,
                        ended.players[j].bet,
                    ) <= u32::MAX,
            decreases n - k,
        {
            let (paid, funds) = if k == seat {
                (winnings(hand, bet, dealer_score, dealer_blackjack, Ghost(dealer@)), balance)
            } else {
                (
                    winnings(
                        &self.game.players[k].hand,
                        self.game.players[k].bet as u64,
                        dealer_score,
                        dealer_blackjack,
                        Ghost(dealer@),
                    ),
                    self.game.players[k].balance,
                )
            };
            proof {
                assert(ended.players[k as int].balance == funds);
                assert(paid == payout(
                    ended.players[k as int].hand,
                    dealer@,
                    ended.players[k as int].bet,
                ));
            }
            if funds as u64 + paid > u32::MAX as u64 {
                proof {
                    assert(after.players[k as int].balance == funds + paid);
                }
                return false;
            }
            k += 1;
        }
        true
    }

    /// Whether the round ends when the player in seat `seat` is out of it:
    /// whether no player behind the current seat may act then.
    fn round_would_end(&self, seat: usize) -> (ends: bool)
        requires
            seat < self@.players.len(),
        ensures
            ends == (self@.retired(seat as int).next_active(self@.current_player_index + 1)
                >= self@.players.len()),
    {
        let ghost retired = self@.retired(seat as int);
        let n = self.game.players.len();
        if self.game.current_player_index < n {
            let mut next = self.game.current_player_index + 1;
            while next < n
                invariant
                    n == self.game.players@.len(),
                    seat < n,
                    retired == self@.retired(seat as int),
                    self.game.current_player_index < next <= n,
                    retired.next_active(self@.current_player_index + 1) == retired.next_active(
                        next as nat,
                    ),
                decreases n - next,
            {
                if next != seat && self.game.players[next].is_active {
                    proof {
                        assert(retired.players[next as int] == self@.players[next as int]);
                    }
                    return false;
                }
                next += 1;
            }
        }
        true
    }

    /// The hand that the dealer would hold at the end of the dealer's turn
    /// if `taken` cards had left the deck before it.
    fn dealer_would_hold(&self, taken: usize) -> (dealer: Hand)
        requires
            taken <= 1,
        ensures
            dealer@ == (GameView {
                deck: below_top(self@.deck, taken as int),
                ..self@
            }).dealer_drawn().dealer_hand,
    {
        let ghost start = GameView { deck: below_top(self@.deck, taken as int), ..self@ };
        let mut dealer = copy_of(&self.game.dealer_hand);
        let mut left = self.game.deck.cards.len();
        if taken <= left {
            left -= taken;
        } else {
            left = 0;
        }
        proof {
            assert(self@.deck.take(left as int) =~= start.deck);
        }
        while left > 0 && dealer.calculate_score() < DEALER_STANDS_AT
            invariant
                left <= self@.deck.len(),
                (GameView {
                    deck: self@.deck.take(left as int),
                    dealer_hand: dealer@,
                    ..self@
                }).dealer_drawn() == start.dealer_drawn(),
            decreases left,
        {
            proof {
                assert(self@.deck.take(left as int).drop_last() =~= self@.deck.take(left - 1));
            }
            left -= 1;
            dealer.add_card(self.game.deck.cards[left]);
        }
        dealer
    }

    /// The hand of the player in seat `seat` with the top card of the deck
    /// behind it, if the deck has one.
    fn hand_with_top_card(&self, seat: usize) -> (hand: Hand)
        requires
            seat < self@.players.len(),
        ensures
            hand@ == self@.players[seat as int].hand + card_from_top(self@.deck, 0),
    {
        let mut hand = copy_of(&self.game.players[seat].hand);
        let left = self.game.deck.cards.len();
        if left > 0 {
            hand.add_card(self.game.deck.cards[left - 1]);
        }
        hand
    }
}

/// A hand of the same cards in the same order.
fn copy_of(hand: &Hand) -> (copy: Hand)
    ensures
        copy@ == hand@,
{
    let mut copy = Hand::new();
    let n = hand.cards.len();
    let mut i: usize = 0;
    while i < n
        invariant
            i <= n,
            n == hand@.len(),
            copy@ == hand@.take(i as int),
        decreases n - i,
    {
        copy.add_card(hand.cards[i]);
        i += 1;
    }
    copy
}

/// What a hand is paid with `bet` at stake, against a dealer whose score
/// and whose blackjack the caller has worked out once for all players.
fn winnings(
    hand: &Hand,
    bet: u64,
    dealer_score: u128,
    dealer_blackjack: bool,
    Ghost(dealer): Ghost<Seq<Card>>,
) -> (paid: u64)
    requires
        bet <= 2 * u32::MAX,
        dealer_score == score_of(dealer),
        dealer_blackjack == is_blackjack_hand(dealer),
    ensures
        paid == payout(hand@, dealer, bet as nat),
{
    let player_score = hand.calculate_score();
    let player_busted = player_score > 21;
    let player_blackjack = hand.is_blackjack();
    let dealer_busted = dealer_score > 21;
    if player_busted {
        0
    } else if player_blackjack && !dealer_blackjack {
        bet + bet * 3 / 2
    } else if !player_blackjack && dealer_blackjack {
        0
    } else if player_blackjack && dealer_blackjack {
        bet
    } else if dealer_busted || player_score > dealer_score {
        bet * 2
    } else if player_score == dealer_score {
        bet
    } else {
        0
    }
}

} // verus!
