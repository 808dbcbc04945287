//! Players at a table.
use vstd::prelude::*;
use vstd::string::*;
use crate::card::cards_label;
use crate::hand::{Hand, visible_cards};
use crate::text::{decimal, decimal_text};

verus! {

#[derive(Debug, Clone)]
pub struct Player {
    pub id: u64,
    pub name: String,
    pub wallet: u64,
    pub hand: Hand,
    pub bet: u64,
    pub folded: bool,
}

/// What is sent about a player: to the player itself, or, with hidden cards, to everyone.
#[derive(Debug)]
pub struct BroadcastPlayer {
    pub id: u64,
    pub name: String,
    pub wallet: u64,
    pub hand: Hand,
    pub bet: u64,
    pub folded: bool,
}

/// How a player is shown.
pub open spec fn player_label(p: Player) -> Seq<char> {
    "Player "@ + decimal(p.id as nat) + " ("@ + p.name@ + "): 💰 $"@ + decimal(p.wallet as nat)
        + " | Current Bet: $"@ + decimal(p.bet as nat) + " | Cards: "@ + cards_label(p.hand.0@)
}

impl Player {
    /// A player who has not joined a hand yet: no cards, no bet, folded.
    pub fn new(id: u64, name: String, wallet: u64) -> (r: Self)
        ensures
            r.id == id,
            r.name == name,
            r.wallet == wallet,
            r.hand.0@ == Seq::<u8>::empty(),
            r.bet == 0,
            r.folded,
    {
        Self { id, name, wallet, hand: Hand(Vec::new()), bet: 0, folded: true }
    }

    /// Clears the cards and the bet and marks the player folded.
    pub fn reset(&mut self)
        ensures
            final(self).id == old(self).id,
            final(self).name == old(self).name,
            final(self).wallet == old(self).wallet,
            final(self).hand.0@ == Seq::<u8>::empty(),
            final(self).bet == 0,
            final(self).folded,
    {
        self.hand = Hand(Vec::new());
        self.bet = 0;
        self.folded = true;
    }

    /// Everything about the player, for the player itself.
    pub fn to_stream(&self) -> (r: BroadcastPlayer)
        ensures
            r.id == self.id,
            r.name@ == self.name@,
            r.wallet == self.wallet,
            r.hand.0@ == self.hand.0@,
            r.bet == self.bet,
            r.folded == self.folded,
    {
        BroadcastPlayer {
            id: self.id,
            name: self.name.clone(),
            wallet: self.wallet,
            hand: Hand(self.hand.0.clone()),
            bet: self.bet,
            folded: self.folded,
        }
    }

    /// The player as the others see it: cards that lie face down are shown as 0.
    pub fn to_broadcast(&self) -> (r: BroadcastPlayer)
        ensures
            r.id == self.id,
            r.name@ == self.name@,
            r.wallet == self.wallet,
            r.hand.0@ == visible_cards(self.hand.0@),
            r.bet == self.bet,
            r.folded == self.folded,
    {
        BroadcastPlayer {
            id: self.id,
            name: self.name.clone(),
            wallet: self.wallet,
            hand: self.hand.to_broadcast(),
            bet: self.bet,
            folded: self.folded,
        }
    }

    /// The player as text, as `player_label` says.
    pub fn to_string(&self) -> (r: String)
        ensures
            r@ == player_label(*self),
    {
        let mut s = String::from_str("Player ");
        s.append(decimal_text(self.id).as_str());
        s.append(" (");
        s.append(self.name.as_str());
        s.append("): 💰 $");
        s.append(decimal_text(self.wallet).as_str());
        s.append(" | Current Bet: $");
        s.append(decimal_text(self.bet).as_str());
        s.append(" | Cards: ");
        s.append(self.hand.to_string().as_str());
        s
    }
}

/// The wallet of a new player when none is given.
pub const STARTING_WALLET: u64 = 1000;

/// The record of a player who joins a table: the stored record under the new name, or,
/// when none is stored, a new player with the given wallet (or `STARTING_WALLET`), no
/// cards, no bet, and not folded.
pub fn joining_player(stored: Option<Player>, id: u64, name: String, wallet: Option<u64>) -> (r: Player)
    ensures
        match stored {
            Some(p) => {
                &&& r.id == p.id
                &&& r.name@ == name@
                &&& r.wallet == p.wallet
                &&& r.hand == p.hand
                &&& r.bet == p.bet
                &&& r.folded == p.folded
            },
            None => {
                &&& r.id == id
                &&& r.name@ == name@
                &&& r.wallet == match wallet {
                    Some(w) => w,
                    None => STARTING_WALLET,
                }
                &&& r.hand.0@ == Seq::<u8>::empty()
                &&& r.bet == 0
                &&& !r.folded
            },
        },
{
    match stored {
        Some(p) => Player { id: p.id, name, wallet: p.wallet, hand: p.hand, bet: p.bet, folded: p.folded },
        None => {
            let w = match wallet {
                Some(w) => w,
                None => STARTING_WALLET,
            };
            Player { id, name, wallet: w, hand: Hand(Vec::new()), bet: 0, folded: false }
        },
    }
}

} // verus!
