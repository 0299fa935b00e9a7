//! A player at the table.

use vstd::prelude::*;
use crate::card::Card;
use crate::hand::Hand;

verus! {

/// What the rules see of a player: the identity, the cards held, the stake
/// and the funds as plain numbers, and whether the player may still act in
/// the round.
pub struct PlayerView {
    pub id: Seq<char>,
    pub name: Seq<char>,
    pub hand: Seq<Card>,
    pub bet: nat,
    pub balance: nat,
    pub is_active: bool,
}

/// A player: identity, hand, bet, balance, and whether the player may still
/// act in the current round.
#[derive(Debug, Clone)]
pub struct Player {
    pub id: String,
    pub name: String,
    pub hand: Hand,
    pub bet: u32,
    pub balance: u32,
    pub is_active: bool,
}

impl View for Player {
    type V = PlayerView;

    open spec fn view(&self) -> PlayerView {
        PlayerView {
            id: self.id@,
            name: self.name@,
            hand: self.hand@,
            bet: self.bet as nat,
            balance: self.balance as nat,
            is_active: self.is_active,
        }
    }
}

impl PlayerView {
    /// A player who has just joined: no cards, no bet, free to act.
    pub open spec fn fresh(id: Seq<char>, name: Seq<char>, balance: nat) -> PlayerView {
        PlayerView { id, name, hand: Seq::empty(), bet: 0, balance, is_active: true }
    }
}

impl Player {
    /// A player with an empty hand and no bet, free to act.
    pub fn new(id: String, name: String, balance: u32) -> (player: Player)
        ensures
            player@ == PlayerView::fresh(id@, name@, balance as nat),
            player.id == id,
            player.name == name,
    {
        Player { id, name, hand: Hand::new(), bet: 0, balance, is_active: true }
    }
}

} // verus!
