//! The betting table: who sits where, whose turn it is, the pot, and how a hand runs from
//! the blind to the showdown.
//!
//! Seats are kept in a vector whose order is the order around the table. A seat that is
//! `in_hand` is linked into the ring of players still playing the current hand; that ring
//! visits those seats in table order.
use vstd::prelude::*;
use vstd::string::*;
use std::collections::HashSet;
use crate::deck::standard_decks;
use crate::game::{Game, GameState, hands_of, same_but_hand, same_but_hands, walk_in_bounds, last_best, lemma_last_best_bounds};
use crate::card::cards_label;
use crate::hand::{Hand, RankModel, rank_of, rank_label, visible_cards};
use crate::player::{BroadcastPlayer, Player};
use crate::text::{decimal, decimal_text, parse_u64, str_eq, unsigned_value};
use vstd::arithmetic::div_mod::{lemma_small_mod, lemma_mod_add_multiples_vanish};

verus! {

broadcast use vstd::std_specs::hash::group_hash_axioms;

/// One line of the showdown: a player who had not folded, with the rank of the hand.
#[derive(Debug, Clone)]
pub struct ShowdownEntry {
    pub id: u64,
    pub name: String,
    pub hand: Vec<u8>,
    pub rank: String,
}

/// The end of a hand: who won, and what every player still in it held.
#[derive(Debug, Clone)]
pub struct Showdown {
    pub winner: u64,
    pub players: Vec<ShowdownEntry>,
}

/// What an action at the table led to, for the caller to tell the players and to save.
#[derive(Debug, Clone, Copy, PartialEq, Eq, Structural)]
pub struct TableEvents {
    /// A hand began.
    pub started: bool,
    /// The game moved to its next round.
    pub round_advanced: bool,
    /// The hand was played out to a showdown.
    pub ended: bool,
}

pub struct Table<G: Game> {
    /// The players in their order around the table.
    pub players: Vec<Player>,
    /// Whether each seat is linked into the ring of the current hand.
    pub in_hand: Vec<bool>,
    pub head: Option<u64>,
    pub bettor: Option<u64>,
    pub blind: Option<u64>,
    pub turn: Option<u64>,
    pub bet: u64,
    pub pot: u64,
    pub game: G,
    pub showdown: Option<Showdown>,
    pub next_game_players: HashSet<u64>,
}

// ---------------------------------------------------------------------------------------
// The model of the table
// ---------------------------------------------------------------------------------------

/// The seat of the player with this id, or -1.
pub open spec fn seat_of(players: Seq<Player>, id: u64) -> int
    decreases players.len(),
{
    if players.len() == 0 {
        -1
    } else if players.last().id == id {
        players.len() - 1
    } else {
        seat_of(players.drop_last(), id)
    }
}

/// No two seats hold the same player id.
pub open spec fn ids_unique(players: Seq<Player>) -> bool {
    forall|i: int, j: int|
        0 <= i < players.len() && 0 <= j < players.len() && i != j ==> #[trigger] players[i].id
            != #[trigger] players[j].id
}

/// The pointer is empty or names a seated player.
pub open spec fn names_a_seat(players: Seq<Player>, p: Option<u64>) -> bool {
    match p {
        Some(id) => seat_of(players, id) >= 0,
        None => true,
    }
}

/// All the money in wallets.
pub open spec fn total_wallets(players: Seq<Player>) -> int
    decreases players.len(),
{
    if players.len() == 0 {
        0
    } else {
        total_wallets(players.drop_last()) + players.last().wallet
    }
}

/// The money at the table fits in a `u64` wherever it may go: every wallet with its bet,
/// and all wallets together with the pot.
pub open spec fn money_fits(players: Seq<Player>, pot: u64) -> bool {
    &&& total_wallets(players) + pot <= u64::MAX
    &&& forall|i: int| 0 <= i < players.len() ==> #[trigger] players[i].wallet + players[i].bet <= u64::MAX
}

/// The next seat after `i` (going round) that is in the hand, searching `k` steps on.
pub open spec fn in_hand_after_from(in_hand: Seq<bool>, i: int, k: int) -> int
    decreases in_hand.len() - k,
{
    if k < 1 || k > in_hand.len() {
        -1
    } else if in_hand[(i + k) % (in_hand.len() as int)] {
        (i + k) % (in_hand.len() as int)
    } else if k == in_hand.len() {
        -1
    } else {
        in_hand_after_from(in_hand, i, k + 1)
    }
}

/// The next seat after `i` (going round) that is in the hand, searching `k` steps back.
pub open spec fn in_hand_before_from(in_hand: Seq<bool>, i: int, k: int) -> int
    decreases in_hand.len() - k,
{
    if k < 1 || k > in_hand.len() {
        -1
    } else if in_hand[(i + in_hand.len() - k) % (in_hand.len() as int)] {
        (i + in_hand.len() - k) % (in_hand.len() as int)
    } else if k == in_hand.len() {
        -1
    } else {
        in_hand_before_from(in_hand, i, k + 1)
    }
}

/// The seat after `i` in the ring of the hand (`i` itself when it is alone there), or -1
/// when `i` is not in the hand.
pub open spec fn next_in_hand(in_hand: Seq<bool>, i: int) -> int {
    if 0 <= i < in_hand.len() && in_hand[i] {
        in_hand_after_from(in_hand, i, 1)
    } else {
        -1
    }
}

/// The seat before `i` in the ring of the hand, or -1 when `i` is not in the hand.
pub open spec fn prev_in_hand(in_hand: Seq<bool>, i: int) -> int {
    if 0 <= i < in_hand.len() && in_hand[i] {
        in_hand_before_from(in_hand, i, 1)
    } else {
        -1
    }
}

/// The id at a seat, or none for -1.
pub open spec fn id_at(players: Seq<Player>, i: int) -> Option<u64> {
    if 0 <= i < players.len() {
        Some(players[i].id)
    } else {
        None
    }
}

/// Whether a seat is in the ring of the hand.
pub open spec fn in_ring(in_hand: Seq<bool>) -> spec_fn(usize) -> bool {
    |j: usize| in_hand[j as int]
}

/// A seat found by a search, or none for -1.
pub open spec fn seat_opt(s: int) -> Option<usize> {
    if s >= 0 {
        Some(s as usize)
    } else {
        None
    }
}

/// The seats in table order starting at `start`.
pub open spec fn seats_from(n: nat, start: int) -> Seq<usize> {
    Seq::new(n, |k: int| ((start + k) % (n as int)) as usize)
}

/// The seats visited when walking the whole table from `start`; a lone seat is visited
/// twice, as the walk checks for its return to the start only after the first step.
pub open spec fn full_walk(n: nat, start: int) -> Seq<usize> {
    if n == 1 {
        seq![start as usize, start as usize]
    } else {
        seats_from(n, start)
    }
}

/// The seats visited when walking the ring of the hand from `start`: `start` alone when it
/// is not in the hand, twice when it is alone in it.
pub open spec fn hand_walk(in_hand: Seq<bool>, start: int) -> Seq<usize> {
    if !in_hand[start] {
        seq![start as usize]
    } else {
        let ring = seats_from(in_hand.len(), start).filter(in_ring(in_hand));
        if ring.len() == 1 {
            seq![start as usize, start as usize]
        } else {
            ring
        }
    }
}

impl<G: Game> Table<G> {
    /// The table is well formed.
    pub open spec fn wf(&self) -> bool {
        &&& self.players@.len() == self.in_hand@.len()
        &&& ids_unique(self.players@)
        &&& names_a_seat(self.players@, self.head)
        &&& names_a_seat(self.players@, self.bettor)
        &&& names_a_seat(self.players@, self.blind)
        &&& names_a_seat(self.players@, self.turn)
        &&& money_fits(self.players@, self.pot)
        &&& self.showdown is Some ==> forall|i: int| 0 <= i < self.in_hand@.len() ==> !#[trigger] self.in_hand@[i]
        &&& forall|i: int| 0 <= i < self.in_hand@.len() && #[trigger] self.in_hand@[i] ==> !self.players@[i].folded
    }

    /// The seat of a player.
    pub open spec fn seat(&self, id: u64) -> int {
        seat_of(self.players@, id)
    }
}

/// `r` is the error `msg`.
pub open spec fn refused<T>(r: Result<T, String>, msg: Seq<char>) -> bool {
    match r {
        Err(e) => e@ == msg,
        Ok(_) => false,
    }
}

/// The player with a new wallet and bet.
pub open spec fn with_money(p: Player, wallet: u64, bet: u64) -> Player {
    Player { id: p.id, name: p.name, wallet: wallet, hand: p.hand, bet: bet, folded: p.folded }
}

/// The two tables differ at most in their seats and the pointers that name seats.
pub open spec fn same_game_and_money<G: Game>(a: &Table<G>, b: &Table<G>) -> bool {
    &&& a.bet == b.bet
    &&& a.pot == b.pot
    &&& a.game == b.game
    &&& a.showdown == b.showdown
    &&& a.next_game_players@ == b.next_game_players@
}

/// `after` is `before` once the player has raised by `amount`, with the answer `r`.
pub open spec fn raised<G: Game>(before: &Table<G>, after: &Table<G>, player_id: u64, amount: u64, r: Result<(), String>) -> bool {
    let i = before.seat(player_id);
    if i < 0 {
        refused(r, "Player not found"@) && *after == *before
    } else {
        let p = before.players@[i];
        &&& after.bettor == Some(player_id)
        &&& p.wallet < amount ==> refused(r, "Insufficient funds"@)
            && after.players@ == before.players@ && after.pot == before.pot
            && after.bet == before.bet
        &&& p.wallet >= amount ==> {
            &&& r is Ok
            &&& after.players@ == before.players@.update(i, with_money(p, (p.wallet - amount) as u64, (p.bet + amount) as u64))
            &&& after.pot == before.pot + amount
            &&& after.bet == p.bet + amount
        }
        &&& after.in_hand == before.in_hand
        &&& after.head == before.head
        &&& after.blind == before.blind
        &&& after.turn == before.turn
        &&& after.game == before.game
        &&& after.showdown == before.showdown
        &&& after.next_game_players == before.next_game_players
    }
}

/// `after` is `before` once the player has checked, with the answer `r`.
pub open spec fn checked<G: Game>(before: &Table<G>, after: &Table<G>, player_id: u64, r: Result<(), String>) -> bool {
    let i = before.seat(player_id);
    if i < 0 {
        refused(r, "Player not found"@) && *after == *before
    } else {
        let p = before.players@[i];
        let diff = before.bet - p.bet;
        if p.bet == before.bet {
            r is Ok && *after == *before
        } else if p.wallet < diff {
            refused(r, "Insufficient funds to check"@) && *after == *before
        } else {
            &&& r is Ok
            &&& after.players@ == before.players@.update(i, with_money(p, (p.wallet - diff) as u64, before.bet))
            &&& after.pot == before.pot + diff
            &&& after.bet == before.bet
            &&& after.in_hand == before.in_hand
            &&& after.head == before.head
            &&& after.bettor == before.bettor
            &&& after.blind == before.blind
            &&& after.turn == before.turn
            &&& after.game == before.game
            &&& after.showdown == before.showdown
            &&& after.next_game_players == before.next_game_players
        }
    }
}

/// `after` is `before` once the player has said they will play the next hand, with the
/// answer `r`.
pub open spec fn kept_on<G: Game>(before: &Table<G>, after: &Table<G>, player_id: u64, r: Result<String, String>) -> bool {
    &&& before.showdown is None ==> refused(r, "[ERROR] NO SHOWDOWN"@) && *after == *before
    &&& before.showdown is Some && before.seat(player_id) < 0 ==> refused(r, "Player not found"@)
        && *after == *before
    &&& before.showdown is Some && before.seat(player_id) >= 0 ==> r is Ok && r->Ok_0@ == "KEEP_PLAYING\n"@
        && after.next_game_players@ == before.next_game_players@.insert(player_id)
    &&& after.players == before.players
    &&& after.in_hand == before.in_hand
    &&& after.head == before.head
    &&& after.bettor == before.bettor
    &&& after.blind == before.blind
    &&& after.turn == before.turn
    &&& after.bet == before.bet
    &&& after.pot == before.pot
    &&& after.game == before.game
    &&& after.showdown == before.showdown
}

// ---------------------------------------------------------------------------------------
// Facts about the model
// ---------------------------------------------------------------------------------------

proof fn lemma_seat_of(players: Seq<Player>, id: u64)
    ensures
        -1 <= seat_of(players, id) < players.len(),
        seat_of(players, id) >= 0 ==> players[seat_of(players, id)].id == id,
        seat_of(players, id) < 0 ==> forall|i: int| 0 <= i < players.len() ==> #[trigger] players[i].id != id,
    decreases players.len(),
{
    if players.len() > 0 {
        lemma_seat_of(players.drop_last(), id);
        if seat_of(players, id) < 0 {
            assert forall|i: int| 0 <= i < players.len() implies #[trigger] players[i].id != id by {
                if i < players.len() - 1 {
                    assert(players.drop_last()[i] == players[i]);
                }
            }
        }
    }
}

/// With unique ids, the seat of the player at `i` is `i`.
proof fn lemma_seat_of_unique(players: Seq<Player>, i: int)
    requires
        ids_unique(players),
        0 <= i < players.len(),
    ensures
        seat_of(players, players[i].id) == i,
{
    lemma_seat_of(players, players[i].id);
    let s = seat_of(players, players[i].id);
    if s != i {
        assert(players[s].id == players[i].id);
    }
}

proof fn lemma_total_update(players: Seq<Player>, i: int, p: Player)
    requires
        0 <= i < players.len(),
    ensures
        total_wallets(players.update(i, p)) == total_wallets(players) - players[i].wallet + p.wallet,
    decreases players.len(),
{
    if i < players.len() - 1 {
        assert(players.update(i, p).drop_last() =~= players.drop_last().update(i, p));
        lemma_total_update(players.drop_last(), i, p);
    } else {
        assert(players.update(i, p).drop_last() =~= players.drop_last());
    }
}

proof fn lemma_total_remove(players: Seq<Player>, i: int)
    requires
        0 <= i < players.len(),
    ensures
        total_wallets(players.remove(i)) == total_wallets(players) - players[i].wallet,
    decreases players.len(),
{
    if i < players.len() - 1 {
        assert(players.remove(i).drop_last() =~= players.drop_last().remove(i));
        lemma_total_remove(players.drop_last(), i);
    } else {
        assert(players.remove(i) =~= players.drop_last());
    }
}

proof fn lemma_total_insert(players: Seq<Player>, i: int, p: Player)
    requires
        0 <= i <= players.len(),
    ensures
        total_wallets(players.insert(i, p)) == total_wallets(players) + p.wallet,
    decreases players.len(),
{
    if i < players.len() {
        assert(players.insert(i, p).drop_last() =~= players.drop_last().insert(i, p));
        lemma_total_insert(players.drop_last(), i, p);
    } else {
        assert(players.insert(i, p).drop_last() =~= players);
    }
}

proof fn lemma_wallet_at_most_total(players: Seq<Player>, i: int)
    requires
        0 <= i < players.len(),
    ensures
        players[i].wallet <= total_wallets(players),
        total_wallets(players) >= 0,
    decreases players.len(),
{
    lemma_total_nonneg(players.drop_last());
    if i < players.len() - 1 {
        lemma_wallet_at_most_total(players.drop_last(), i);
    }
}

proof fn lemma_total_nonneg(players: Seq<Player>)
    ensures
        total_wallets(players) >= 0,
    decreases players.len(),
{
    if players.len() > 0 {
        lemma_total_nonneg(players.drop_last());
    }
}


// ---------------------------------------------------------------------------------------
// Seating and betting
// ---------------------------------------------------------------------------------------

impl<G: Game> Table<G> {
    /// An empty table with a new game.
    pub fn new() -> (r: Self)
        ensures
            r.wf(),
            r.players@.len() == 0,
            r.head is None,
            r.bettor is None,
            r.blind is None,
            r.turn is None,
            r.bet == 0,
            r.pot == 0,
            r.showdown is None,
            r.next_game_players@ == Set::<u64>::empty(),
            r.game.round_of() == 0,
    {
        Table {
            players: Vec::new(),
            in_hand: Vec::new(),
            head: None,
            bettor: None,
            blind: None,
            turn: None,
            bet: 0,
            pot: 0,
            game: G::new(),
            showdown: None,
            next_game_players: HashSet::new(),
        }
    }

    pub fn get_num_players(&self) -> (r: usize)
        ensures
            r == self.players@.len(),
    {
        self.players.len()
    }

    /// A hand is being played: someone has the turn.
    pub fn is_running(&self) -> (r: bool)
        ensures
            r == self.turn is Some,
    {
        self.turn.is_some()
    }

    /// The seat of a player, if seated.
    pub fn find(&self, id: u64) -> (r: Option<usize>)
        ensures
            match r {
                Some(i) => i == self.seat(id) && i < self.players@.len(),
                None => self.seat(id) == -1,
            },
    {
        proof { lemma_seat_of(self.players@, id); }
        let n = self.players.len();
        let mut i = n;
        proof { assert(self.players@.take(n as int) =~= self.players@); }
        while i > 0
            invariant
                i <= n,
                n == self.players@.len(),
                seat_of(self.players@, id) == seat_of(self.players@.take(i as int), id),
            decreases i,
        {
            proof {
                assert(self.players@.take(i as int).drop_last() =~= self.players@.take(i - 1));
            }
            if self.players[i - 1].id == id {
                return Some(i - 1);
            }
            i = i - 1;
        }
        None
    }

    pub fn get_player(&self, id: u64) -> (r: Option<&Player>)
        ensures
            match r {
                Some(p) => self.seat(id) >= 0 && *p == self.players@[self.seat(id)],
                None => self.seat(id) == -1,
            },
    {
        match self.find(id) {
            Some(i) => Some(&self.players[i]),
            None => None,
        }
    }

    /// Seats a new player just before the head of the table (so last in the order of the
    /// current ring), or as head and blind at an empty table. The player takes no part in
    /// a hand that is already running.
    pub fn add_player(&mut self, player: Player) -> (r: Result<(), String>)
        requires
            old(self).wf(),
            old(self).seat(player.id) < 0 ==> total_wallets(old(self).players@) + player.wallet + old(self).pot <= u64::MAX
                && player.wallet + player.bet <= u64::MAX,
        ensures
            final(self).wf(),
            old(self).seat(player.id) >= 0 ==> refused(r, "Player with ID "@ + decimal(player.id as nat) + " already exists"@)
                && *final(self) == *old(self),
            old(self).seat(player.id) < 0 ==> {
                &&& r is Ok
                &&& match old(self).head {
                    Some(h) => {
                        &&& final(self).players@ == old(self).players@.insert(old(self).seat(h), player)
                        &&& final(self).in_hand@ == old(self).in_hand@.insert(old(self).seat(h), false)
                        &&& final(self).head == old(self).head
                        &&& final(self).blind == old(self).blind
                    },
                    None => {
                        &&& final(self).players@ == old(self).players@.push(player)
                        &&& final(self).in_hand@ == old(self).in_hand@.push(false)
                        &&& final(self).head == Some(player.id)
                        &&& final(self).blind == Some(player.id)
                    },
                }
                &&& final(self).bettor == old(self).bettor
                &&& final(self).turn == old(self).turn
                &&& same_game_and_money(old(self), final(self))
            },
    {
        let id = player.id;
        if self.find(id).is_some() {
            let mut msg = String::from_str("Player with ID ");
            msg.append(decimal_text(id).as_str());
            msg.append(" already exists");
            return Err(msg);
        }
        proof {
            lemma_seat_of(self.players@, id);
        }
        let ghost old_players = self.players@;
        match self.head {
            Some(h) => {
                let at = match self.find(h) {
                    Some(at) => at,
                    None => 0,
                };
                proof {
                    lemma_total_insert(old_players, at as int, player);
                }
                self.players.insert(at, player);
                self.in_hand.insert(at, false);
                proof {
                    let ps = self.players@;
                    assert forall|i: int, j: int|
                        0 <= i < ps.len() && 0 <= j < ps.len() && i != j implies #[trigger] ps[i].id != #[trigger] ps[j].id by {
                        if i != at && j != at {
                            let oi = if i < at { i } else { i - 1 };
                            let oj = if j < at { j } else { j - 1 };
                            assert(ps[i] == old_players[oi] && ps[j] == old_players[oj]);
                        } else if i == at {
                            let oj = if j < at { j } else { j - 1 };
                            assert(ps[j] == old_players[oj]);
                        } else {
                            let oi = if i < at { i } else { i - 1 };
                            assert(ps[i] == old_players[oi]);
                        }
                    }
                    lemma_names_kept_insert(old_players, at as int, player, self.head);
                    lemma_names_kept_insert(old_players, at as int, player, self.bettor);
                    lemma_names_kept_insert(old_players, at as int, player, self.blind);
                    lemma_names_kept_insert(old_players, at as int, player, self.turn);
                    assert forall|i: int| 0 <= i < ps.len() implies #[trigger] ps[i].wallet + ps[i].bet <= u64::MAX by {
                        if i != at {
                            let oi = if i < at { i } else { i - 1 };
                            assert(ps[i] == old_players[oi]);
                        }
                    }
                }
            },
            None => {
                proof {
                    lemma_total_insert(old_players, old_players.len() as int, player);
                    assert(old_players.insert(old_players.len() as int, player) =~= old_players.push(player));
                }
                self.players.push(player);
                self.in_hand.push(false);
                self.head = Some(id);
                self.blind = Some(id);
                proof {
                    let ps = self.players@;
                    assert forall|i: int, j: int|
                        0 <= i < ps.len() && 0 <= j < ps.len() && i != j implies #[trigger] ps[i].id != #[trigger] ps[j].id by {
                        if i < old_players.len() && j < old_players.len() {
                            assert(ps[i] == old_players[i] && ps[j] == old_players[j]);
                        } else if i < old_players.len() {
                            assert(ps[i] == old_players[i]);
                        } else {
                            assert(ps[j] == old_players[j]);
                        }
                    }
                    lemma_seat_of_unique(ps, old_players.len() as int);
                    assert(old_players.len() == ps.len() - 1);
                    lemma_names_kept_insert(old_players, old_players.len() as int, player, self.bettor);
                    lemma_names_kept_insert(old_players, old_players.len() as int, player, self.turn);
                    assert forall|i: int| 0 <= i < ps.len() implies #[trigger] ps[i].wallet + ps[i].bet <= u64::MAX by {
                        if i < old_players.len() {
                            assert(ps[i] == old_players[i]);
                        }
                    }
                }
            },
        }
        Ok(())
    }
}

impl<G: Game> Table<G> {
    /// Sets the money of the player at seat `i`; the table stays well formed as long as
    /// the money moved between the wallet and the pot is conserved.
    fn set_money(&mut self, i: usize, wallet: u64, bet: u64, pot: u64)
        requires
            old(self).wf(),
            i < old(self).players@.len(),
            total_wallets(old(self).players@) - old(self).players@[i as int].wallet + wallet + pot <= u64::MAX,
            wallet + bet <= u64::MAX,
        ensures
            final(self).wf(),
            total_wallets(final(self).players@) + final(self).pot == total_wallets(old(self).players@)
                - old(self).players@[i as int].wallet + wallet + pot,
            final(self).players@ == old(self).players@.update(i as int, with_money(old(self).players@[i as int], wallet, bet)),
            final(self).pot == pot,
            final(self).in_hand == old(self).in_hand,
            final(self).head == old(self).head,
            final(self).bettor == old(self).bettor,
            final(self).blind == old(self).blind,
            final(self).turn == old(self).turn,
            final(self).bet == old(self).bet,
            final(self).game == old(self).game,
            final(self).showdown == old(self).showdown,
            final(self).next_game_players == old(self).next_game_players,
    {
        let ghost old_players = self.players@;
        self.players[i].wallet = wallet;
        self.players[i].bet = bet;
        self.pot = pot;
        proof {
            let ps = self.players@;
            assert(ps =~= old_players.update(i as int, with_money(old_players[i as int], wallet, bet)));
            lemma_total_update(old_players, i as int, with_money(old_players[i as int], wallet, bet));
            assert forall|a: int, b: int|
                0 <= a < ps.len() && 0 <= b < ps.len() && a != b implies #[trigger] ps[a].id != #[trigger] ps[b].id by {
                assert(ps[a].id == old_players[a].id && ps[b].id == old_players[b].id);
            }
            lemma_names_kept_update(old_players, i as int, ps[i as int], self.head);
            lemma_names_kept_update(old_players, i as int, ps[i as int], self.bettor);
            lemma_names_kept_update(old_players, i as int, ps[i as int], self.blind);
            lemma_names_kept_update(old_players, i as int, ps[i as int], self.turn);
        }
    }

    /// The player puts `amount` more into the pot; the table bet becomes the player's bet.
    /// The player becomes the bettor even when the wallet is too small.
    pub fn raise(&mut self, player_id: u64, amount: u64) -> (r: Result<(), String>)
        requires
            old(self).wf(),
        ensures
            final(self).wf(),
            total_wallets(final(self).players@) + final(self).pot == total_wallets(old(self).players@) + old(self).pot,
            raised(old(self), final(self), player_id, amount, r),
    {
        let i = match self.find(player_id) {
            Some(i) => i,
            None => {
                proof { reveal_strlit("Player not found"); }
                return Err(String::from_str("Player not found"));
            },
        };
        self.bettor = Some(player_id);
        proof { lemma_seat_of(self.players@, player_id); }
        let wallet = self.players[i].wallet;
        let bet = self.players[i].bet;
        if wallet < amount {
            proof { reveal_strlit("Insufficient funds"); }
            return Err(String::from_str("Insufficient funds"));
        }
        proof {
            lemma_wallet_at_most_total(self.players@, i as int);
        }
        let new_pot = self.pot + amount;
        self.set_money(i, wallet - amount, bet + amount, new_pot);
        self.bet = bet + amount;
        Ok(())
    }

    /// The player matches the table bet, paying the difference into the pot.
    pub fn check(&mut self, player_id: u64) -> (r: Result<(), String>)
        requires
            old(self).wf(),
            old(self).seat(player_id) >= 0 ==> old(self).players@[old(self).seat(player_id)].bet <= old(self).bet,
        ensures
            final(self).wf(),
            total_wallets(final(self).players@) + final(self).pot == total_wallets(old(self).players@) + old(self).pot,
            checked(old(self), final(self), player_id, r),
    {
        let i = match self.find(player_id) {
            Some(i) => i,
            None => {
                proof { reveal_strlit("Player not found"); }
                return Err(String::from_str("Player not found"));
            },
        };
        proof { lemma_seat_of(self.players@, player_id); }
        let wallet = self.players[i].wallet;
        let bet = self.players[i].bet;
        if bet == self.bet {
            return Ok(());
        }
        let diff = self.bet - bet;
        if wallet < diff {
            proof { reveal_strlit("Insufficient funds to check"); }
            return Err(String::from_str("Insufficient funds to check"));
        }
        proof {
            lemma_wallet_at_most_total(self.players@, i as int);
        }
        let new_pot = self.pot + diff;
        let table_bet = self.bet;
        self.set_money(i, wallet - diff, table_bet, new_pot);
        Ok(())
    }

    /// After a showdown, a seated player says they will play the next hand.
    pub fn keep_playing(&mut self, player_id: u64) -> (r: Result<String, String>)
        requires
            old(self).wf(),
        ensures
            final(self).wf(),
            kept_on(old(self), final(self), player_id, r),
    {
        if self.showdown.is_none() {
            proof { reveal_strlit("[ERROR] NO SHOWDOWN"); }
            return Err(String::from_str("[ERROR] NO SHOWDOWN"));
        }
        if self.find(player_id).is_none() {
            proof { reveal_strlit("Player not found"); }
            return Err(String::from_str("Player not found"));
        }
        self.next_game_players.insert(player_id);
        proof { reveal_strlit("KEEP_PLAYING\n"); }
        Ok(String::from_str("KEEP_PLAYING\n"))
    }
}

/// A pointer that named a seat still names one after a seat's player is replaced by one
/// with the same id.
proof fn lemma_names_kept_update(players: Seq<Player>, i: int, p: Player, ptr: Option<u64>)
    requires
        0 <= i < players.len(),
        p.id == players[i].id,
        names_a_seat(players, ptr),
    ensures
        names_a_seat(players.update(i, p), ptr),
{
    if let Some(id) = ptr {
        lemma_seat_of(players, id);
        let s = seat_of(players, id);
        let ps = players.update(i, p);
        assert(ps[s].id == id);
        lemma_seat_of(ps, id);
    }
}

/// A pointer that named a seat still names one after a new seat is added.
proof fn lemma_names_kept_insert(players: Seq<Player>, at: int, p: Player, ptr: Option<u64>)
    requires
        0 <= at <= players.len(),
        names_a_seat(players, ptr),
    ensures
        names_a_seat(players.insert(at, p), ptr),
{
    if let Some(id) = ptr {
        lemma_seat_of(players, id);
        let s = seat_of(players, id);
        let ps = players.insert(at, p);
        let t = if s < at { s } else { s + 1 };
        assert(ps[t].id == id);
        lemma_seat_of(ps, id);
    }
}

// ---------------------------------------------------------------------------------------
// Walking round the table
// ---------------------------------------------------------------------------------------

/// Going `k` seats on from seat `i` round a table of `n` seats.
proof fn lemma_step_on(i: int, k: int, n: int)
    requires
        0 <= i < n,
        0 <= k <= n,
    ensures
        (i + k) % n == (if i + k < n { i + k } else { i + k - n }),
{
    if i + k < n {
        lemma_small_mod((i + k) as nat, n as nat);
    } else {
        lemma_small_mod((i + k - n) as nat, n as nat);
        lemma_mod_add_multiples_vanish(i + k - n, n);
    }
}

/// The seat `k` places on from seat `i` round a table of `n` seats.
fn seat_on(i: usize, k: usize, n: usize) -> (r: usize)
    requires
        i < n,
        k <= n,
    ensures
        r as int == (i + k) % (n as int),
        r < n,
{
    proof {
        lemma_step_on(i as int, k as int, n as int);
    }
    if k < n - i {
        i + k
    } else {
        k - (n - i)
    }
}

/// The seat after `i` in the ring of the hand.
fn next_active(in_hand: &Vec<bool>, i: usize) -> (r: Option<usize>)
    requires
        i < in_hand@.len(),
    ensures
        r == seat_opt(next_in_hand(in_hand@, i as int)),
{
    if !in_hand[i] {
        return None;
    }
    let n = in_hand.len();
    let mut k: usize = 1;
    while k < n
        invariant
            1 <= k <= n,
            n == in_hand@.len(),
            i < n,
            in_hand@[i as int],
            in_hand_after_from(in_hand@, i as int, 1) == in_hand_after_from(in_hand@, i as int, k as int),
        decreases n - k,
    {
        let j = seat_on(i, k, n);
        if in_hand[j] {
            return Some(j);
        }
        k = k + 1;
    }
    proof {
        lemma_step_on(i as int, n as int, n as int);
    }
    Some(i)
}

/// The seat before `i` in the ring of the hand.
fn prev_active(in_hand: &Vec<bool>, i: usize) -> (r: Option<usize>)
    requires
        i < in_hand@.len(),
    ensures
        r == seat_opt(prev_in_hand(in_hand@, i as int)),
{
    if !in_hand[i] {
        return None;
    }
    let n = in_hand.len();
    let mut k: usize = 1;
    while k < n
        invariant
            1 <= k <= n,
            n == in_hand@.len(),
            i < n,
            in_hand@[i as int],
            in_hand_before_from(in_hand@, i as int, 1) == in_hand_before_from(in_hand@, i as int, k as int),
        decreases n - k,
    {
        let j = seat_on(i, n - k, n);
        if in_hand[j] {
            return Some(j);
        }
        k = k + 1;
    }
    proof {
        lemma_step_on(i as int, 0, n as int);
    }
    Some(i)
}

/// The seats walked in the ring of the hand from seat `t`.
fn hand_walk_from(in_hand: &Vec<bool>, t: usize) -> (r: Vec<usize>)
    requires
        t < in_hand@.len(),
    ensures
        r@ == hand_walk(in_hand@, t as int),
        walk_in_bounds(r@, in_hand@.len()),
{
    let mut r: Vec<usize> = Vec::new();
    if !in_hand[t] {
        r.push(t);
        return r;
    }
    let n = in_hand.len();
    let ghost all = seats_from(n as nat, t as int);
    let mut k: usize = 0;
    proof {
        reveal_with_fuel(Seq::<usize>::filter, 1);
        assert(all.take(0) =~= Seq::<usize>::empty());
    }
    while k < n
        invariant
            k <= n,
            n == in_hand@.len(),
            t < n,
            all == seats_from(n as nat, t as int),
            r@ == all.take(k as int).filter(in_ring(in_hand@)),
            walk_in_bounds(r@, n as nat),
        decreases n - k,
    {
        let j = seat_on(t, k, n);
        proof {
            assert(all.take(k + 1) =~= all.take(k as int).push(j));
            all.take(k as int).lemma_filter_push(j, in_ring(in_hand@));
        }
        if in_hand[j] {
            r.push(j);
        }
        k = k + 1;
    }
    proof {
        assert(all.take(n as int) =~= all);
    }
    if r.len() == 1 {
        let mut twice: Vec<usize> = Vec::new();
        twice.push(t);
        twice.push(t);
        proof {
            assert(twice@ =~= seq![t, t]);
        }
        return twice;
    }
    r
}

/// The seats walked round the whole table from seat `t`.
fn full_walk_from(n: usize, t: usize) -> (r: Vec<usize>)
    requires
        t < n,
    ensures
        r@ == full_walk(n as nat, t as int),
        walk_in_bounds(r@, n as nat),
{
    let mut r: Vec<usize> = Vec::new();
    if n == 1 {
        r.push(t);
        r.push(t);
        proof {
            assert(r@ =~= seq![t, t]);
        }
        return r;
    }
    let mut k: usize = 0;
    while k < n
        invariant
            k <= n,
            t < n,
            n != 1,
            r@ =~= seats_from(n as nat, t as int).take(k as int),
            walk_in_bounds(r@, n as nat),
        decreases n - k,
    {
        let j = seat_on(t, k, n);
        r.push(j);
        k = k + 1;
        proof {
            assert(r@ =~= seats_from(n as nat, t as int).take(k as int));
        }
    }
    r
}

// ---------------------------------------------------------------------------------------
// The showdown
// ---------------------------------------------------------------------------------------

/// The players who have not folded, in table order.
pub open spec fn contenders(players: Seq<Player>) -> Seq<Player>
    decreases players.len(),
{
    if players.len() == 0 {
        Seq::empty()
    } else if players.last().folded {
        contenders(players.drop_last())
    } else {
        contenders(players.drop_last()).push(players.last())
    }
}

/// The ranks that the contenders' hands get at the showdown of this game.
pub open spec fn showdown_ranks<G: Game>(game: G, cs: Seq<Player>) -> Seq<RankModel> {
    Seq::new(cs.len(), |k: int| rank_of(game.showdown_cards(cs[k].hand.0@)))
}

/// The winner among the contenders: the last of those whose hands rank best.
pub open spec fn winner_of<G: Game>(game: G, cs: Seq<Player>) -> u64 {
    cs[last_best(showdown_ranks(game, cs))].id
}

/// The showdown names the winner and shows each contender, in order, with the rank of
/// the hand.
pub open spec fn shows<G: Game>(game: G, sd: Option<Showdown>, cs: Seq<Player>, winner: u64) -> bool {
    match sd {
        Some(sd) => {
            &&& sd.winner == winner
            &&& sd.players@.len() == cs.len()
            &&& forall|k: int|
                0 <= k < cs.len() ==> {
                    &&& (#[trigger] sd.players@[k]).id == cs[k].id
                    &&& sd.players@[k].name@ == cs[k].name@
                    &&& sd.players@[k].hand@ == cs[k].hand.0@
                    &&& sd.players@[k].rank@ == rank_label(rank_of(game.showdown_cards(cs[k].hand.0@)))
                }
        },
        None => false,
    }
}

/// After the showdown every player's cards and bet are cleared and every player is out
/// of the hand; the winner has the pot added to the wallet.
pub open spec fn paid_out(before: Seq<Player>, after: Seq<Player>, winner: u64, pot: u64) -> bool {
    &&& after.len() == before.len()
    &&& forall|k: int|
        0 <= k < before.len() ==> {
            &&& (#[trigger] after[k]).id == before[k].id
            &&& after[k].name == before[k].name
            &&& after[k].wallet == (if before[k].id == winner { before[k].wallet + pot } else { before[k].wallet as int })
            &&& after[k].hand.0@ == Seq::<u8>::empty()
            &&& after[k].bet == 0
            &&& after[k].folded
        }
}

/// The player in the seat after `i`, going round.
pub open spec fn id_after(players: Seq<Player>, i: int) -> Option<u64> {
    id_at(players, (i + 1) % (players.len() as int))
}

/// The two tables hold the same.
pub open spec fn same_view<G: Game>(a: &Table<G>, b: &Table<G>) -> bool {
    &&& a.players@ == b.players@
    &&& a.in_hand@ == b.in_hand@
    &&& a.head == b.head
    &&& a.bettor == b.bettor
    &&& a.blind == b.blind
    &&& a.turn == b.turn
    &&& a.bet == b.bet
    &&& a.pot == b.pot
    &&& a.game == b.game
    &&& a.showdown == b.showdown
    &&& a.next_game_players@ == b.next_game_players@
}

/// `after` is `before` with its hand played out: the player whose hand ranks best among
/// those who have not folded takes the pot, every player is out of the hand with no cards
/// and no bet, the winner heads the table and the blind moves one seat on. With every
/// player folded nothing changes.
pub open spec fn played_out<G: Game>(before: &Table<G>, after: &Table<G>) -> bool {
    let cs = contenders(before.players@);
    if cs.len() == 0 {
        same_view(before, after)
    } else {
        let w = winner_of(before.game, cs);
        &&& shows(before.game, after.showdown, cs, w)
        &&& after.next_game_players@ == Set::<u64>::empty()
        &&& paid_out(before.players@, after.players@, w, before.pot)
        &&& after.in_hand@ == Seq::new(before.in_hand@.len(), |k: int| false)
        &&& after.head == Some(w)
        &&& after.blind == (match before.blind {
            Some(b) => id_after(before.players@, before.seat(b)),
            None => None,
        })
        &&& after.turn is None
        &&& after.bettor is None
        &&& after.pot == 0
        &&& after.bet == before.bet
        &&& after.game == before.game
    }
}

/// Seats with the same wallets hold the same money.
proof fn lemma_total_same_wallets(a: Seq<Player>, b: Seq<Player>)
    requires
        a.len() == b.len(),
        forall|k: int| 0 <= k < a.len() ==> (#[trigger] a[k]).wallet == b[k].wallet,
    ensures
        total_wallets(a) == total_wallets(b),
    decreases a.len(),
{
    if a.len() > 0 {
        assert(a[a.len() - 1].wallet == b[b.len() - 1].wallet);
        assert forall|k: int| 0 <= k < a.len() - 1 implies (#[trigger] a.drop_last()[k]).wallet == b.drop_last()[k].wallet by {
            assert(a[k].wallet == b[k].wallet);
        }
        lemma_total_same_wallets(a.drop_last(), b.drop_last());
    }
}

/// One more seat looked at: the contenders grow by its player unless that player folded.
proof fn lemma_contenders_step(players: Seq<Player>, i: int)
    requires
        0 <= i < players.len(),
    ensures
        contenders(players.take(i + 1)) == (if players[i].folded {
            contenders(players.take(i))
        } else {
            contenders(players.take(i)).push(players[i])
        }),
{
    assert(players.take(i + 1).drop_last() =~= players.take(i));
}

/// Every contender sits at the table, and has not folded.
proof fn lemma_contender_seated(players: Seq<Player>, k: int)
    requires
        0 <= k < contenders(players).len(),
    ensures
        !contenders(players)[k].folded,
        exists|j: int| 0 <= j < players.len() && players[j] == contenders(players)[k],
    decreases players.len(),
{
    if players.len() > 0 {
        let rest = contenders(players.drop_last());
        if k < rest.len() {
            lemma_contender_seated(players.drop_last(), k);
            let j = choose|j: int| 0 <= j < players.drop_last().len() && players.drop_last()[j] == rest[k];
            assert(players[j] == contenders(players)[k]);
        } else {
            assert(players[players.len() - 1] == contenders(players)[k]);
        }
    }
}

impl<G: Game> Table<G> {
    /// Plays the hand out: the player whose hand ranks best among those who have not
    /// folded takes the pot. Every player is then out of the hand with no cards and no
    /// bet, the winner becomes the head of the table and the blind moves one seat on.
    /// Returns whether there was a showdown; with every player folded nothing changes.
    pub fn end_game(&mut self) -> (r: bool)
        requires
            old(self).wf(),
        ensures
            final(self).wf(),
            total_wallets(final(self).players@) + final(self).pot == total_wallets(old(self).players@) + old(self).pot,
            played_out(old(self), final(self)),
            r == (contenders(old(self).players@).len() > 0),
    {
        let n = self.players.len();
        let ghost players0 = self.players@;
        let ghost cs = contenders(players0);
        let mut seats: Vec<usize> = Vec::new();
        let mut i: usize = 0;
        proof {
            assert(players0.take(0) =~= Seq::<Player>::empty());
        }
        while i < n
            invariant
                i <= n,
                n == players0.len(),
                players0 == self.players@,
                seats@.len() == contenders(players0.take(i as int)).len(),
                forall|k: int| 0 <= k < seats@.len() ==> #[trigger] seats@[k] < n
                    && players0[seats@[k] as int] == contenders(players0.take(i as int))[k],
            decreases n - i,
        {
            proof {
                lemma_contenders_step(players0, i as int);
            }
            if !self.players[i].folded {
                seats.push(i);
            }
            i = i + 1;
        }
        proof {
            assert(players0.take(n as int) =~= players0);
        }
        if seats.len() == 0 {
            return false;
        }
        let mut hands: Vec<(&u64, &Hand)> = Vec::new();
        let mut j: usize = 0;
        while j < seats.len()
            invariant
                j <= seats@.len(),
                n == players0.len(),
                players0 == self.players@,
                seats@.len() == cs.len(),
                forall|k: int| 0 <= k < seats@.len() ==> #[trigger] seats@[k] < n
                    && players0[seats@[k] as int] == cs[k],
                hands@.len() == j,
                forall|k: int| 0 <= k < j ==> *(#[trigger] hands@[k]).0 == cs[k].id && *hands@[k].1 == cs[k].hand,
            decreases seats@.len() - j,
        {
            let s = seats[j];
            hands.push((&self.players[s].id, &self.players[s].hand));
            j = j + 1;
        }
        let winner = self.game.determine_winner(hands.as_slice());
        proof {
            assert(Seq::new(hands@.len(), |k: int| rank_of(self.game.showdown_cards(hands@[k].1.0@)))
                =~= showdown_ranks(self.game, cs));
        }
        let w = match winner {
            Some(w) => w,
            None => {
                return false;
            },
        };
        let ghost lb = last_best(showdown_ranks(self.game, cs));
        proof {
            lemma_last_best_bounds(showdown_ranks(self.game, cs));
            assert(w == cs[lb].id);
            assert(players0[seats@[lb] as int].id == w);
            lemma_seat_of(players0, w);
        }
        let ws = match self.find(w) {
            Some(ws) => ws,
            None => {
                return false;
            },
        };
        let next_blind = match self.blind {
            Some(b) => match self.find(b) {
                Some(bs) => Some(self.players[seat_on(bs, 1, n)].id),
                None => None,
            },
            None => None,
        };
        let mut entries: Vec<ShowdownEntry> = Vec::new();
        let mut j: usize = 0;
        while j < seats.len()
            invariant
                j <= seats@.len(),
                n == players0.len(),
                players0 == self.players@,
                seats@.len() == cs.len(),
                forall|k: int| 0 <= k < seats@.len() ==> #[trigger] seats@[k] < n
                    && players0[seats@[k] as int] == cs[k],
                entries@.len() == j,
                forall|k: int|
                    0 <= k < j ==> {
                        &&& (#[trigger] entries@[k]).id == cs[k].id
                        &&& entries@[k].name@ == cs[k].name@
                        &&& entries@[k].hand@ == cs[k].hand.0@
                        &&& entries@[k].rank@ == rank_label(rank_of(self.game.showdown_cards(cs[k].hand.0@)))
                    },
            decreases seats@.len() - j,
        {
            let s = seats[j];
            let p = &self.players[s];
            let rank = self.game.showdown_hand(&p.hand).evaluate();
            let hand = p.hand.0.clone();
            proof {
                assert(hand@ =~= cs[j as int].hand.0@);
            }
            entries.push(ShowdownEntry { id: p.id, name: p.name.clone(), hand: hand, rank: rank.to_string() });
            j = j + 1;
        }
        self.showdown = Some(Showdown { winner: w, players: entries });
        self.next_game_players.clear();
        let pot = self.pot;
        let wallet = self.players[ws].wallet;
        proof {
            lemma_wallet_at_most_total(players0, ws as int);
            lemma_total_update(players0, ws as int, with_money(players0[ws as int], (wallet + pot) as u64, players0[ws as int].bet));
        }
        self.players[ws].wallet = wallet + pot;
        let ghost paid = self.players@;
        let ghost sd = self.showdown;
        proof {
            assert(paid =~= players0.update(ws as int, with_money(players0[ws as int], (wallet + pot) as u64, players0[ws as int].bet)));
        }
        let mut i: usize = 0;
        while i < n
            invariant
                i <= n,
                n == self.players@.len(),
                n == self.in_hand@.len(),
                paid.len() == n,
                forall|k: int| 0 <= k < i ==> {
                    &&& (#[trigger] self.players@[k]).id == paid[k].id
                    &&& self.players@[k].name == paid[k].name
                    &&& self.players@[k].wallet == paid[k].wallet
                    &&& self.players@[k].hand.0@ == Seq::<u8>::empty()
                    &&& self.players@[k].bet == 0
                    &&& self.players@[k].folded
                },
                forall|k: int| i <= k < n ==> #[trigger] self.players@[k] == paid[k],
                forall|k: int| 0 <= k < i ==> !#[trigger] self.in_hand@[k],
                self.showdown == sd,
                self.game == old(self).game,
                self.next_game_players@ == Set::<u64>::empty(),
                self.blind == old(self).blind,
                self.bet == old(self).bet,
            decreases n - i,
        {
            self.players[i].reset();
            self.in_hand.set(i, false);
            i = i + 1;
        }
        self.head = Some(w);
        self.blind = next_blind;
        self.turn = None;
        self.bettor = None;
        self.pot = 0;
        proof {
            let ps = self.players@;
            assert forall|k: int| 0 <= k < n implies (#[trigger] ps[k]).id == players0[k].id by {
                assert(paid[k].id == players0[k].id);
            }
            lemma_same_ids(players0, ps);
            lemma_total_same_wallets(ps, paid);
            assert forall|k: int| 0 <= k < n implies (#[trigger] ps[k]).wallet == (if players0[k].id == w {
                players0[k].wallet + pot
            } else {
                players0[k].wallet as int
            }) by {
                if k != ws {
                    assert(players0[k].id != players0[ws as int].id);
                }
            }
            assert forall|i: int| 0 <= i < ps.len() implies #[trigger] ps[i].wallet + ps[i].bet <= u64::MAX by {
                lemma_wallet_at_most_total(ps, i);
            }
            assert(self.in_hand@ =~= Seq::new(old(self).in_hand@.len(), |k: int| false));
            lemma_seat_of(players0, w);
            if let Some(b) = old(self).blind {
                lemma_seat_of(players0, b);
                let t = (seat_of(players0, b) + 1) % (n as int);
                lemma_seat_of_unique(players0, t);
            }
            assert(w == winner_of(old(self).game, cs));
            assert(shows(old(self).game, self.showdown, cs, w));
            assert forall|k: int| 0 <= k < n implies (#[trigger] ps[k]).name == players0[k].name by {
                assert(paid[k].name == players0[k].name);
            }
            assert(paid_out(players0, ps, w, pot));
            assert(self.blind == (match old(self).blind {
                Some(b) => id_after(players0, seat_of(players0, b)),
                None => None,
            }));
        }
        true
    }
}

/// Two rows of seats with the same ids in the same places.
pub open spec fn same_ids(a: Seq<Player>, b: Seq<Player>) -> bool {
    &&& a.len() == b.len()
    &&& forall|k: int| 0 <= k < a.len() ==> (#[trigger] a[k]).id == b[k].id
}

proof fn lemma_seat_of_same_ids(a: Seq<Player>, b: Seq<Player>, id: u64)
    requires
        same_ids(a, b),
    ensures
        seat_of(a, id) == seat_of(b, id),
    decreases a.len(),
{
    if a.len() > 0 {
        assert(a[a.len() - 1].id == b[b.len() - 1].id);
        assert forall|k: int| 0 <= k < a.len() - 1 implies (#[trigger] a.drop_last()[k]).id == b.drop_last()[k].id by {
            assert(a[k].id == b[k].id);
        }
        lemma_seat_of_same_ids(a.drop_last(), b.drop_last(), id);
    }
}

/// Seats with the same ids in the same places are found alike.
proof fn lemma_same_ids(a: Seq<Player>, b: Seq<Player>)
    requires
        same_ids(a, b),
    ensures
        ids_unique(a) == ids_unique(b),
        forall|id: u64| seat_of(a, id) == #[trigger] seat_of(b, id),
        forall|p: Option<u64>| names_a_seat(a, p) == #[trigger] names_a_seat(b, p),
{
    assert forall|id: u64| seat_of(a, id) == #[trigger] seat_of(b, id) by {
        lemma_seat_of_same_ids(a, b, id);
    }
    assert forall|p: Option<u64>| names_a_seat(a, p) == #[trigger] names_a_seat(b, p) by {
        if let Some(id) = p {
            lemma_seat_of_same_ids(a, b, id);
        }
    }
    if ids_unique(a) {
        assert forall|i: int, j: int|
            0 <= i < b.len() && 0 <= j < b.len() && i != j implies #[trigger] b[i].id != #[trigger] b[j].id by {
            assert(a[i].id != a[j].id);
        }
    }
    if ids_unique(b) {
        assert forall|i: int, j: int|
            0 <= i < a.len() && 0 <= j < a.len() && i != j implies #[trigger] a[i].id != #[trigger] a[j].id by {
            assert(b[i].id != b[j].id);
        }
    }
}

// ---------------------------------------------------------------------------------------
// Rounds
// ---------------------------------------------------------------------------------------

/// The two tables agree on everything but the players and the game.
pub open spec fn same_but_players_and_game<G: Game>(a: &Table<G>, b: &Table<G>) -> bool {
    &&& a.in_hand == b.in_hand
    &&& a.head == b.head
    &&& a.bettor == b.bettor
    &&& a.blind == b.blind
    &&& a.turn == b.turn
    &&& a.bet == b.bet
    &&& a.pot == b.pot
    &&& a.showdown == b.showdown
    &&& a.next_game_players == b.next_game_players
}

impl<G: Game> Table<G> {
    /// The walks the game is handed for a round: round the ring of the hand and round the
    /// whole table, both from the seat whose turn it is; none when no one has the turn.
    pub open spec fn walks(&self) -> (Seq<usize>, Seq<usize>) {
        match self.turn {
            Some(t) => (hand_walk(self.in_hand@, self.seat(t)), full_walk(self.players@.len(), self.seat(t))),
            None => (Seq::empty(), Seq::empty()),
        }
    }

    /// `after` is `before` once the game has done what its round asks (the hand goes on
    /// when `goes_on`), and, when the game said the hand is over, the hand played out.
    pub open spec fn round_done(before: &Table<G>, after: &Table<G>, goes_on: bool) -> bool {
        let (active, full) = before.walks();
        if goes_on {
            &&& before.game.round_step(before.players@, active, full, after.game, after.players@, false)
            &&& same_but_hands(before.players@, after.players@)
            &&& same_but_players_and_game(before, after)
        } else {
            &&& before.game.round_step(before.players@, active, full, before.game, before.players@, true)
            &&& played_out(before, after)
        }
    }

    /// Lets the game do what its current round asks, walking from the player whose turn
    /// it is; when the game says the hand is over, plays the hand out. Returns whether the
    /// hand goes on.
    fn round_action(&mut self) -> (r: bool)
        requires
            old(self).wf(),
        ensures
            final(self).wf(),
            total_wallets(final(self).players@) + final(self).pot == total_wallets(old(self).players@) + old(self).pot,
            Self::round_done(old(self), final(self), r),
            old(self).game.round_of() == 0 ==> r,
            final(self).game.round_of() == old(self).game.round_of(),
            final(self).game.antes() == old(self).game.antes(),
    {
        let n = self.players.len();
        let (active, full) = match self.turn {
            Some(t) => {
                proof {
                    lemma_seat_of(self.players@, t);
                }
                let ts = match self.find(t) {
                    Some(ts) => ts,
                    None => 0,
                };
                (hand_walk_from(&self.in_hand, ts), full_walk_from(n, ts))
            },
            None => (Vec::new(), Vec::new()),
        };
        proof {
            if self.turn is None {
                assert(active@ =~= Seq::<usize>::empty());
                assert(full@ =~= Seq::<usize>::empty());
            }
        }
        let ghost before = *self;
        let over = self.game.handle_round_action(&mut self.players, active.as_slice(), full.as_slice());
        if over {
            proof {
                assert(*self == before);
            }
            self.end_game();
            return false;
        }
        proof {
            let ps = self.players@;
            assert forall|k: int| 0 <= k < n implies (#[trigger] ps[k]).id == before.players@[k].id by {
                assert(same_but_hand(before.players@[k], ps[k]));
            }
            lemma_same_ids(before.players@, ps);
            assert forall|k: int| 0 <= k < n implies (#[trigger] ps[k]).wallet == before.players@[k].wallet by {
                assert(same_but_hand(before.players@[k], ps[k]));
            }
            lemma_total_same_wallets(ps, before.players@);
            assert forall|i: int| 0 <= i < ps.len() implies #[trigger] ps[i].wallet + ps[i].bet <= u64::MAX by {
                assert(same_but_hand(before.players@[i], ps[i]));
            }
        }
        true
    }
}

// ---------------------------------------------------------------------------------------
// Folding and leaving
// ---------------------------------------------------------------------------------------

/// The player, folded.
pub open spec fn folded_player(p: Player) -> Player {
    Player { id: p.id, name: p.name, wallet: p.wallet, hand: p.hand, bet: p.bet, folded: true }
}

/// The pointer, moved to `to` if it named `id`.
pub open spec fn moved_off(p: Option<u64>, id: u64, to: Option<u64>) -> Option<u64> {
    if p == Some(id) {
        to
    } else {
        p
    }
}

/// `after` is `before` once the player at seat `i` has folded and left the ring of the
/// hand: the head, if it was that player, moves to the next seat in the ring; the bettor,
/// the blind and the turn move to the previous one.
pub open spec fn folded_out<G: Game>(before: &Table<G>, after: &Table<G>, i: int) -> bool {
    let id = before.players@[i].id;
    let nx = id_at(before.players@, next_in_hand(before.in_hand@, i));
    let pv = id_at(before.players@, prev_in_hand(before.in_hand@, i));
    &&& after.players@ == before.players@.update(i, folded_player(before.players@[i]))
    &&& after.in_hand@ == before.in_hand@.update(i, false)
    &&& after.head == moved_off(before.head, id, nx)
    &&& after.bettor == moved_off(before.bettor, id, pv)
    &&& after.blind == moved_off(before.blind, id, pv)
    &&& after.turn == moved_off(before.turn, id, pv)
    &&& after.bet == before.bet
    &&& after.pot == before.pot
    &&& after.game == before.game
    &&& after.showdown == before.showdown
    &&& after.next_game_players@ == before.next_game_players@
}

/// Folding at seat `i` leaves only one other seat in the ring, so the hand is played out.
pub open spec fn fold_ends_hand(in_hand: Seq<bool>, i: int) -> bool {
    &&& in_hand[i]
    &&& next_in_hand(in_hand, i) == prev_in_hand(in_hand, i)
}

/// `after` is `before` once the player at seat `i` has folded; when that left one other
/// player in the ring the hand was played out, and `ended` says whether it came to a
/// showdown.
pub open spec fn fold_result<G: Game>(before: &Table<G>, after: &Table<G>, i: int, ended: bool) -> bool {
    exists|mid: Table<G>|
        #[trigger] folded_out(before, &mid, i) && mid.wf() && if fold_ends_hand(before.in_hand@, i) {
            played_out(&mid, after) && ended == (contenders(mid.players@).len() > 0)
        } else {
            same_view(&mid, after) && !ended
        }
}

/// `after` is `before` once the game has handled the player's own move `parts`, with the
/// answer `r`.
pub open spec fn acted<G: Game>(before: &Table<G>, after: &Table<G>, player_id: u64, parts: Seq<&str>, r: Result<(), String>) -> bool {
    let i = before.seat(player_id);
    if i < 0 {
        refused(r, "Player not found"@) && *after == *before
    } else {
        &&& exists|res: Result<(), &'static str>|
            #[trigger] before.game.action_step(before.players@[i], parts, after.game, after.players@[i], res) && match res {
                Ok(_) => r is Ok,
                Err(e) => refused(r, e@),
            }
        &&& after.players@ == before.players@.update(i, after.players@[i])
        &&& same_but_hand(before.players@[i], after.players@[i])
        &&& same_but_players_and_game(before, after)
    }
}

/// `after` is `before` once the player has folded, with the answer `r`.
pub open spec fn folded<G: Game>(before: &Table<G>, after: &Table<G>, player_id: u64, r: Result<TableEvents, String>) -> bool {
    let i = before.seat(player_id);
    if i < 0 {
        refused(r, "Player not found"@) && *after == *before
    } else {
        match r {
            Ok(ev) => !ev.started && !ev.round_advanced && fold_result(before, after, i, ev.ended),
            Err(_) => false,
        }
    }
}

/// Whoever has the turn, other than this player, is not alone in the ring of the hand.
pub open spec fn turn_has_company<G: Game>(t: &Table<G>, player_id: u64) -> bool {
    t.turn is Some && t.turn != Some(player_id) ==> !alone_in_hand(t.in_hand@, t.seat(t.turn->0))
}

/// The seat is the only one in the ring of the hand.
pub open spec fn alone_in_hand(in_hand: Seq<bool>, i: int) -> bool {
    &&& 0 <= i < in_hand.len()
    &&& in_hand[i]
    &&& next_in_hand(in_hand, i) == i
}

/// Whether the pointer names this player.
fn names(p: Option<u64>, id: u64) -> (r: bool)
    ensures
        r == (p == Some(id)),
{
    match p {
        Some(x) => x == id,
        None => false,
    }
}

/// The player at a seat found by a search.
fn id_of(players: &Vec<Player>, s: Option<usize>) -> (r: Option<u64>)
    requires
        match s {
            Some(j) => j < players@.len(),
            None => true,
        },
    ensures
        r == match s {
            Some(j) => id_at(players@, j as int),
            None => None::<u64>,
        },
{
    match s {
        Some(j) => Some(players[j].id),
        None => None,
    }
}

proof fn lemma_search_bounds(in_hand: Seq<bool>, i: int, k: int)
    requires
        1 <= k,
    ensures
        -1 <= in_hand_after_from(in_hand, i, k) < in_hand.len(),
        in_hand_after_from(in_hand, i, k) >= 0 ==> in_hand[in_hand_after_from(in_hand, i, k)],
        -1 <= in_hand_before_from(in_hand, i, k) < in_hand.len(),
        in_hand_before_from(in_hand, i, k) >= 0 ==> in_hand[in_hand_before_from(in_hand, i, k)],
    decreases in_hand.len() - k,
{
    if k <= in_hand.len() {
        let n = in_hand.len() as int;
        assert(0 <= (i + k) % n < n) by {
            vstd::arithmetic::div_mod::lemma_mod_bound(i + k, n);
        }
        assert(0 <= (i + n - k) % n < n) by {
            vstd::arithmetic::div_mod::lemma_mod_bound(i + n - k, n);
        }
        if k < in_hand.len() {
            lemma_search_bounds(in_hand, i, k + 1);
        }
    }
}

/// A seat in the ring finds a neighbour in it, itself at the latest.
proof fn lemma_search_finds(in_hand: Seq<bool>, i: int, k: int)
    requires
        0 <= i < in_hand.len(),
        in_hand[i],
        1 <= k <= in_hand.len(),
    ensures
        in_hand_after_from(in_hand, i, k) >= 0,
        in_hand_before_from(in_hand, i, k) >= 0,
    decreases in_hand.len() - k,
{
    let n = in_hand.len() as int;
    if k < n {
        lemma_search_finds(in_hand, i, k + 1);
    } else {
        lemma_step_on(i, n, n);
        lemma_step_on(i, 0, n);
    }
}

impl<G: Game> Table<G> {
    /// The player folds and leaves the ring of the hand; when only one other player is
    /// left in the ring, the hand is played out.
    pub fn fold(&mut self, player_id: u64) -> (r: Result<TableEvents, String>)
        requires
            old(self).wf(),
            !alone_in_hand(old(self).in_hand@, old(self).seat(player_id)),
        ensures
            final(self).wf(),
            total_wallets(final(self).players@) + final(self).pot == total_wallets(old(self).players@) + old(self).pot,
            folded(old(self), final(self), player_id, r),
            final(self).game == old(self).game,
            same_ids(old(self).players@, final(self).players@),
            old(self).seat(player_id) >= 0 ==> final(self).players@[old(self).seat(player_id)].wallet
                == old(self).players@[old(self).seat(player_id)].wallet,
            old(self).seat(player_id) >= 0 && fold_ends_hand(old(self).in_hand@, old(self).seat(player_id)) ==> final(self).turn is None,
            old(self).seat(player_id) >= 0 && !fold_ends_hand(old(self).in_hand@, old(self).seat(player_id)) ==> {
                let i = old(self).seat(player_id);
                &&& final(self).turn == moved_off(old(self).turn, player_id, id_at(old(self).players@, prev_in_hand(old(self).in_hand@, i)))
                &&& final(self).players@ == old(self).players@.update(i, folded_player(old(self).players@[i]))
                &&& final(self).in_hand@ == old(self).in_hand@.update(i, false)
                &&& final(self).bet == old(self).bet
                &&& final(self).pot == old(self).pot
                &&& final(self).game == old(self).game
                &&& final(self).showdown == old(self).showdown
                &&& final(self).next_game_players@ == old(self).next_game_players@
            },
    {
        let i = match self.find(player_id) {
            Some(i) => i,
            None => {
                proof { reveal_strlit("Player not found"); }
                return Err(String::from_str("Player not found"));
            },
        };
        proof {
            lemma_seat_of(self.players@, player_id);
            lemma_search_bounds(self.in_hand@, i as int, 1);
        }
        let ghost before = *self;
        let n = self.in_hand.len();
        let nx = next_active(&self.in_hand, i);
        let pv = prev_active(&self.in_hand, i);
        let nx_id = id_of(&self.players, nx);
        let pv_id = id_of(&self.players, pv);
        self.players[i].folded = true;
        self.in_hand.set(i, false);
        if names(self.head, player_id) {
            self.head = nx_id;
        }
        if names(self.bettor, player_id) {
            self.bettor = pv_id;
        }
        if names(self.blind, player_id) {
            self.blind = pv_id;
        }
        if names(self.turn, player_id) {
            self.turn = pv_id;
        }
        proof {
            let ps = self.players@;
            assert(ps =~= before.players@.update(i as int, folded_player(before.players@[i as int])));
            assert forall|k: int| 0 <= k < ps.len() implies (#[trigger] ps[k]).id == before.players@[k].id by {}
            lemma_same_ids(before.players@, ps);
            assert forall|k: int| 0 <= k < ps.len() implies (#[trigger] ps[k]).wallet == before.players@[k].wallet by {}
            lemma_total_same_wallets(ps, before.players@);
            assert forall|k: int| 0 <= k < ps.len() implies #[trigger] ps[k].wallet + ps[k].bet <= u64::MAX by {
                assert(ps[k].wallet == before.players@[k].wallet && ps[k].bet == before.players@[k].bet);
            }
            if let Some(j) = nx {
                lemma_seat_of_unique(before.players@, j as int);
            }
            if let Some(j) = pv {
                lemma_seat_of_unique(before.players@, j as int);
            }
        }
        let ghost mid = *self;
        proof {
            let id = before.players@[i as int].id;
            assert(id == player_id);
            assert(mid.players@ == before.players@.update(i as int, folded_player(before.players@[i as int])));
            assert(mid.in_hand@ == before.in_hand@.update(i as int, false));
            assert(nx_id == id_at(before.players@, next_in_hand(before.in_hand@, i as int)));
            assert(mid.head == moved_off(before.head, id, id_at(before.players@, next_in_hand(before.in_hand@, i as int))));
            assert(mid.bettor == moved_off(before.bettor, id, id_at(before.players@, prev_in_hand(before.in_hand@, i as int))));
        }
        assert(folded_out(&before, &mid, i as int));
        let ends = match (nx, pv) {
            (Some(a), Some(b)) => a == b,
            _ => false,
        };
        proof {
            if before.in_hand@[i as int] {
                lemma_search_finds(before.in_hand@, i as int, 1);
            }
            assert(ends == fold_ends_hand(before.in_hand@, i as int));
        }
        if ends {
            let ended = self.end_game();
            let r = Ok(TableEvents { started: false, round_advanced: false, ended });
            assert(folded_out(&before, &mid, i as int) && mid.wf() && played_out(&mid, self));
            proof {
                let cs = contenders(mid.players@);
                let j = next_in_hand(before.in_hand@, i as int);
                assert(before.in_hand@[j]);
                assert(mid.players@[j] == before.players@[j]);
                lemma_contenders_nonempty(mid.players@, j);
                if cs.len() > 0 {
                    let lb = last_best(showdown_ranks(mid.game, cs));
                    lemma_last_best_bounds(showdown_ranks(mid.game, cs));
                    lemma_contender_seated(mid.players@, lb);
                    let j = choose|j: int| 0 <= j < mid.players@.len() && mid.players@[j] == cs[lb];
                    assert(mid.players@[i as int].folded);
                    assert(j != i);
                    assert(mid.players@[j].id != mid.players@[i as int].id);
                    assert(self.players@[i as int].wallet == mid.players@[i as int].wallet);
                }
                assert forall|k: int| 0 <= k < self.players@.len() implies (#[trigger] self.players@[k]).id == before.players@[k].id by {
                    assert(mid.players@[k].id == before.players@[k].id);
                }
            }
            return r;
        }
        let r = Ok(TableEvents { started: false, round_advanced: false, ended: false });
        assert(folded_out(&before, &mid, i as int) && mid.wf() && same_view(&mid, self));
        r
    }
}

// ---------------------------------------------------------------------------------------
// Leaving the table
// ---------------------------------------------------------------------------------------

/// The head once the ring of the table is rebuilt: kept if it names a seat, else the
/// first seat; none at an empty table.
pub open spec fn ring_head(players: Seq<Player>, head: Option<u64>) -> Option<u64> {
    if players.len() == 0 {
        None
    } else if head is Some && names_a_seat(players, head) {
        head
    } else {
        Some(players[0].id)
    }
}

/// The blind once the ring of the table is rebuilt: kept if it names a seat, else the head.
pub open spec fn ring_blind(players: Seq<Player>, head: Option<u64>, blind: Option<u64>) -> Option<u64> {
    if players.len() == 0 {
        None
    } else if blind is Some && names_a_seat(players, blind) {
        blind
    } else {
        ring_head(players, head)
    }
}

/// `after` is `before` once the player at seat `i` has left the table: a head at that
/// seat moves to the next seat, a blind there to the head, and the ring is rebuilt.
pub open spec fn left_table<G: Game>(before: &Table<G>, after: &Table<G>, i: int) -> bool {
    let id = before.players@[i].id;
    let rest = before.players@.remove(i);
    let head = if before.head == Some(id) {
        if rest.len() == 0 {
            None
        } else {
            Some(rest[i % (rest.len() as int)].id)
        }
    } else {
        before.head
    };
    let blind = moved_off(before.blind, id, None);
    &&& after.players@ == rest
    &&& after.in_hand@ == before.in_hand@.remove(i)
    &&& after.head == ring_head(rest, head)
    &&& after.blind == ring_blind(rest, head, blind)
    &&& after.bettor == moved_off(before.bettor, id, None)
    &&& after.turn == moved_off(before.turn, id, None)
    &&& after.bet == before.bet
    &&& after.pot == before.pot
    &&& after.game == before.game
    &&& after.showdown == before.showdown
    &&& after.next_game_players@ == before.next_game_players@
}

/// A pointer that named another seat still names one after a seat is removed.
proof fn lemma_names_kept_remove(players: Seq<Player>, at: int, ptr: Option<u64>)
    requires
        0 <= at < players.len(),
        names_a_seat(players, ptr),
        ptr != Some(players[at].id),
    ensures
        names_a_seat(players.remove(at), ptr),
{
    if let Some(id) = ptr {
        lemma_seat_of(players, id);
        let s = seat_of(players, id);
        let ps = players.remove(at);
        let t = if s < at { s } else { s - 1 };
        assert(ps[t].id == id);
        lemma_seat_of(ps, id);
    }
}

/// `after` is `before` once the player has left the table, with the answer `r`.
pub open spec fn removed<G: Game>(before: &Table<G>, after: &Table<G>, player_id: u64, r: Result<TableEvents, String>) -> bool {
    &&& before.seat(player_id) < 0 ==> refused(r, "Player not found"@) && *after == *before
    &&& before.seat(player_id) >= 0 ==> match r {
        Ok(ev) => {
            &&& !ev.started
            &&& !ev.round_advanced
            &&& exists|mid: Table<G>|
                #[trigger] fold_result(before, &mid, before.seat(player_id), ev.ended) && left_table(
                    &mid,
                    after,
                    before.seat(player_id),
                )
            &&& total_wallets(after.players@) + after.pot == total_wallets(before.players@)
                + before.pot - before.players@[before.seat(player_id)].wallet
        },
        Err(_) => false,
    }
    &&& before.seat(player_id) >= 0 && !before.in_hand@[before.seat(player_id)] ==> {
        let i = before.seat(player_id);
        &&& after.players@ == before.players@.remove(i)
        &&& after.in_hand@ == before.in_hand@.remove(i)
        &&& after.bet == before.bet
        &&& after.pot == before.pot
        &&& after.game == before.game
        &&& after.showdown == before.showdown
        &&& after.next_game_players@ == before.next_game_players@
    }
}

impl<G: Game> Table<G> {
    /// The table is well formed, but for a head or blind that may name no seat.
    pub open spec fn wf_loose(&self) -> bool {
        &&& self.players@.len() == self.in_hand@.len()
        &&& ids_unique(self.players@)
        &&& names_a_seat(self.players@, self.bettor)
        &&& names_a_seat(self.players@, self.turn)
        &&& money_fits(self.players@, self.pot)
        &&& self.showdown is Some ==> forall|i: int| 0 <= i < self.in_hand@.len() ==> !#[trigger] self.in_hand@[i]
        &&& forall|i: int| 0 <= i < self.in_hand@.len() && #[trigger] self.in_hand@[i] ==> !self.players@[i].folded
    }

    /// Makes the head and the blind name seats again: the head falls back to the first
    /// seat, the blind to the head.
    fn rebuild_full_ring(&mut self)
        requires
            old(self).wf_loose(),
        ensures
            final(self).wf(),
            final(self).head == ring_head(old(self).players@, old(self).head),
            final(self).blind == ring_blind(old(self).players@, old(self).head, old(self).blind),
            final(self).players == old(self).players,
            final(self).in_hand == old(self).in_hand,
            final(self).bettor == old(self).bettor,
            final(self).turn == old(self).turn,
            final(self).bet == old(self).bet,
            final(self).pot == old(self).pot,
            final(self).game == old(self).game,
            final(self).showdown == old(self).showdown,
            final(self).next_game_players == old(self).next_game_players,
    {
        if self.players.len() == 0 {
            self.head = None;
            self.blind = None;
            return;
        }
        let head_present = match self.head {
            Some(h) => self.find(h).is_some(),
            None => false,
        };
        if !head_present {
            self.head = Some(self.players[0].id);
            proof {
                lemma_seat_of_unique(self.players@, 0);
            }
        }
        let blind_present = match self.blind {
            Some(b) => self.find(b).is_some(),
            None => false,
        };
        if !blind_present {
            self.blind = self.head;
        }
    }

    /// The player folds and leaves the table, and the answer is `REMOVED`.
    pub fn remove_player(&mut self, player_id: u64) -> (r: Result<(TableEvents, String), String>)
        requires
            old(self).wf(),
            !alone_in_hand(old(self).in_hand@, old(self).seat(player_id)),
        ensures
            final(self).wf(),
            match r {
                Ok((ev, reply)) => removed(old(self), final(self), player_id, Ok(ev)) && reply@ == "REMOVED\n"@,
                Err(e) => removed(old(self), final(self), player_id, Err(e)),
            },
            final(self).game == old(self).game,
    {
        match self.leave(player_id) {
            Ok(ev) => {
                proof { reveal_strlit("REMOVED\n"); }
                Ok((ev, String::from_str("REMOVED\n")))
            },
            Err(e) => Err(e),
        }
    }

    /// The player folds and leaves the table; the ring of the table is rebuilt.
    fn leave(&mut self, player_id: u64) -> (r: Result<TableEvents, String>)
        requires
            old(self).wf(),
            !alone_in_hand(old(self).in_hand@, old(self).seat(player_id)),
        ensures
            final(self).wf(),
            removed(old(self), final(self), player_id, r),
            final(self).game == old(self).game,
            turn_has_company(old(self), player_id) ==> final(self).turn is Some ==> !alone_in_hand(
                final(self).in_hand@,
                final(self).seat(final(self).turn->0),
            ),
    {
        let ghost s0 = self.seat(player_id);
        let ghost players0 = self.players@;
        let events = match self.fold(player_id) {
            Ok(events) => events,
            Err(e) => {
                return Err(e);
            },
        };
        let ghost mid = *self;
        proof {
            lemma_same_ids(players0, self.players@);
            lemma_seat_of(self.players@, player_id);
        }
        let i = match self.find(player_id) {
            Some(i) => i,
            None => {
                return Err(String::from_str("Player not found"));
            },
        };
        let n = self.players.len();
        let next_id = if n > 1 {
            Some(self.players[seat_on(i, 1, n)].id)
        } else {
            None
        };
        proof {
            lemma_total_remove(self.players@, i as int);
            lemma_names_kept_remove(self.players@, i as int, moved_off(self.bettor, player_id, None));
            lemma_names_kept_remove(self.players@, i as int, moved_off(self.turn, player_id, None));
        }
        self.players.remove(i);
        self.in_hand.remove(i);
        if names(self.head, player_id) {
            self.head = next_id;
        }
        if names(self.blind, player_id) {
            self.blind = None;
        }
        if names(self.bettor, player_id) {
            self.bettor = None;
        }
        if names(self.turn, player_id) {
            self.turn = None;
        }
        proof {
            let ps = self.players@;
            let before = mid.players@;
            assert(ps =~= before.remove(i as int));
            assert forall|a: int, b: int|
                0 <= a < ps.len() && 0 <= b < ps.len() && a != b implies #[trigger] ps[a].id != #[trigger] ps[b].id by {
                let oa = if a < i { a } else { a + 1 };
                let ob = if b < i { b } else { b + 1 };
                assert(ps[a] == before[oa] && ps[b] == before[ob]);
            }
            assert forall|k: int| 0 <= k < ps.len() implies #[trigger] ps[k].wallet + ps[k].bet <= u64::MAX by {
                let ok = if k < i { k } else { k + 1 };
                assert(ps[k] == before[ok]);
            }
            assert(self.in_hand@ =~= mid.in_hand@.remove(i as int));
            if n > 1 {
                let t = (i + 1) % (n as int);
                lemma_step_on(i as int, 1, n as int);
                if i + 1 < n {
                    assert(ps[i as int] == before[t]);
                    lemma_small_mod(i as nat, (n - 1) as nat);
                } else {
                    assert(ps[0] == before[t]);
                    vstd::arithmetic::div_mod::lemma_mod_self_0((n - 1) as int);
                }
            }
        }
        proof {
            if turn_has_company(old(self), player_id) && self.turn is Some {
                let t = self.turn->0;
                lemma_seat_of(self.players@, t);
                let q = seat_of(self.players@, t);
                lemma_alone_iff(self.in_hand@, q);
                if lone_in(self.in_hand@, q) {
                    lemma_lone_after_remove(mid.in_hand@, i as int, q);
                    let p = if q < i { q } else { q + 1 };
                    assert(mid.players@[p].id == t);
                    let oi = old(self).in_hand@;
                    if !oi[s0] {
                        assert(mid.in_hand@ =~= oi);
                        assert(old(self).players@[p].id == t);
                        lemma_seat_of_unique(old(self).players@, p);
                        lemma_alone_iff(oi, p);
                    } else {
                        let nx = next_in_hand(oi, s0);
                        let pv = prev_in_hand(oi, s0);
                        lemma_search_finds(oi, s0, 1);
                        lemma_search_bounds(oi, s0, 1);
                        lemma_prev_not_self(oi, s0, nx);
                        assert(mid.in_hand@[nx] && mid.in_hand@[pv]);
                    }
                }
            }
        }
        self.rebuild_full_ring();
        proof {
            if !old(self).in_hand@[s0] {
                assert(mid.players@.remove(s0) =~= old(self).players@.remove(s0));
                assert(mid.in_hand@.remove(s0) =~= old(self).in_hand@.remove(s0));
            }
            let id = mid.players@[s0].id;
            let rest = mid.players@.remove(s0);
            assert(i == s0);
            assert(id == player_id);
            assert(self.players@ == rest);
            let head = if mid.head == Some(id) {
                if rest.len() == 0 {
                    None
                } else {
                    Some(rest[s0 % (rest.len() as int)].id)
                }
            } else {
                mid.head
            };
            assert(self.head == ring_head(rest, head));
            assert(self.blind == ring_blind(rest, head, moved_off(mid.blind, id, None)));
            assert(left_table(&mid, self, s0));
        }
        Ok(events)
    }
}

impl<G: Game> Table<G> {
    /// A move of the player's own, for the game to handle. The game's refusal, or its
    /// word that the move is a betting move for the table, comes back as the error.
    pub fn game_actions(&mut self, player_id: u64, parts: &[&str]) -> (r: Result<(), String>)
        requires
            old(self).wf(),
            old(self).seat(player_id) >= 0 ==> old(self).game.action_safe(
                old(self).players@[old(self).seat(player_id)].hand.0@,
                parts@,
            ),
        ensures
            final(self).wf(),
            total_wallets(final(self).players@) + final(self).pot == total_wallets(old(self).players@) + old(self).pot,
            acted(old(self), final(self), player_id, parts@, r),
            final(self).game.round_of() == old(self).game.round_of(),
    {
        let i = match self.find(player_id) {
            Some(i) => i,
            None => {
                proof { reveal_strlit("Player not found"); }
                return Err(String::from_str("Player not found"));
            },
        };
        let ghost before = *self;
        let res = self.game.client_action(&mut self.players[i], parts);
        proof {
            let ps = self.players@;
            assert(ps =~= before.players@.update(i as int, ps[i as int]));
            assert forall|k: int| 0 <= k < ps.len() implies (#[trigger] ps[k]).id == before.players@[k].id by {}
            lemma_same_ids(before.players@, ps);
            assert forall|k: int| 0 <= k < ps.len() implies (#[trigger] ps[k]).wallet == before.players@[k].wallet by {}
            lemma_total_same_wallets(ps, before.players@);
            assert forall|k: int| 0 <= k < ps.len() implies #[trigger] ps[k].wallet + ps[k].bet <= u64::MAX by {
                assert(ps[k].wallet == before.players@[k].wallet && ps[k].bet == before.players@[k].bet);
            }
            assert(before.game.action_step(before.players@[i as int], parts@, self.game, ps[i as int], res));
        }
        match res {
            Ok(()) => Ok(()),
            Err(e) => Err(String::from_str(e)),
        }
    }
}

// ---------------------------------------------------------------------------------------
// Starting a hand
// ---------------------------------------------------------------------------------------

/// The blind's stake.
pub const BLIND: u64 = 50;

/// The table bet once the blind has put in its stake: the blind's bet, or nothing when the
/// blind cannot pay.
pub open spec fn blind_bet(p: Player) -> int {
    if p.wallet >= BLIND {
        p.bet + BLIND
    } else {
        0
    }
}

/// A player's wallet once the blind is posted.
pub open spec fn wallet_after_blind(p: Player, is_blind: bool) -> int {
    if is_blind && p.wallet >= BLIND {
        p.wallet - BLIND
    } else {
        p.wallet as int
    }
}

/// A player's bet once the blind is posted.
pub open spec fn bet_after_blind(p: Player, is_blind: bool) -> int {
    if is_blind && p.wallet >= BLIND {
        p.bet + BLIND
    } else {
        p.bet as int
    }
}

/// Whether a player who checks to the table bet pays the difference: the bet differs
/// and the wallet covers it.
pub open spec fn pays_check(wallet: int, bet: int, table_bet: int) -> bool {
    bet != table_bet && wallet >= table_bet - bet
}

/// A player's wallet once the blind is posted and, in a game with antes, the player has
/// checked to the table bet.
pub open spec fn staked_wallet(p: Player, is_blind: bool, antes: bool, table_bet: int) -> int {
    let w = wallet_after_blind(p, is_blind);
    let b = bet_after_blind(p, is_blind);
    if antes && pays_check(w, b, table_bet) {
        w - (table_bet - b)
    } else {
        w
    }
}

/// A player's bet once the blind is posted and, in a game with antes, the player has
/// checked to the table bet.
pub open spec fn staked_bet(p: Player, is_blind: bool, antes: bool, table_bet: int) -> int {
    let w = wallet_after_blind(p, is_blind);
    let b = bet_after_blind(p, is_blind);
    if antes && pays_check(w, b, table_bet) {
        table_bet
    } else {
        b
    }
}

/// The players once the blind at seat `b` has posted and, in a game with antes, every
/// player has checked to the table bet.
pub open spec fn staked(before: Seq<Player>, after: Seq<Player>, b: int, antes: bool) -> bool {
    let tb = blind_bet(before[b]);
    &&& after.len() == before.len()
    &&& forall|k: int|
        0 <= k < before.len() ==> {
            &&& (#[trigger] after[k]).id == before[k].id
            &&& after[k].name == before[k].name
            &&& after[k].wallet == staked_wallet(before[k], k == b, antes, tb)
            &&& after[k].bet == staked_bet(before[k], k == b, antes, tb)
        }
}

/// No player's bet is above the table bet when it comes to check to it.
pub open spec fn antes_payable(players: Seq<Player>, b: int) -> bool {
    forall|k: int| 0 <= k < players.len() ==> bet_after_blind(#[trigger] players[k], k == b) <= blind_bet(players[b])
}

/// The player after checking to the table bet.
pub open spec fn checked_player(p: Player, table_bet: int) -> Player {
    if pays_check(p.wallet as int, p.bet as int, table_bet) {
        with_money(p, (p.wallet - (table_bet - p.bet)) as u64, table_bet as u64)
    } else {
        p
    }
}

/// Every seat is visited by a walk round the whole table.
proof fn lemma_full_walk_covers(n: nat, start: int, s: int)
    requires
        0 <= start < n,
        0 <= s < n,
    ensures
        full_walk(n, start).contains(s as usize),
{
    if n == 1 {
        assert(full_walk(n, start)[0] == s as usize);
    } else {
        let k = if s >= start { s - start } else { s + n - start };
        lemma_step_on(start, k, n as int);
        assert(seats_from(n, start)[k] == s as usize);
    }
}

impl<G: Game> Table<G> {
    /// Puts every seat into the new hand: no cards, not folded, nothing in the pot.
    fn seat_everyone(&mut self)
        requires
            old(self).wf(),
            old(self).showdown is None,
        ensures
            final(self).wf(),
            final(self).players@.len() == old(self).players@.len(),
            forall|k: int|
                0 <= k < old(self).players@.len() ==> {
                    &&& (#[trigger] final(self).players@[k]).id == old(self).players@[k].id
                    &&& final(self).players@[k].name == old(self).players@[k].name
                    &&& final(self).players@[k].wallet == old(self).players@[k].wallet
                    &&& final(self).players@[k].bet == old(self).players@[k].bet
                    &&& !final(self).players@[k].folded
                    &&& final(self).players@[k].hand.0@ == Seq::<u8>::empty()
                },
            final(self).in_hand@ == Seq::new(old(self).players@.len(), |k: int| true),
            final(self).bet == 0,
            final(self).pot == 0,
            total_wallets(final(self).players@) == total_wallets(old(self).players@),
            final(self).head == old(self).head,
            final(self).bettor == old(self).bettor,
            final(self).blind == old(self).blind,
            final(self).turn == old(self).turn,
            final(self).game == old(self).game,
            final(self).showdown == old(self).showdown,
            final(self).next_game_players@ == old(self).next_game_players@,
    {
        let n = self.players.len();
        let ghost players0 = self.players@;
        let mut i: usize = 0;
        while i < n
            invariant
                i <= n,
                n == self.players@.len(),
                n == self.in_hand@.len(),
                n == players0.len(),
                forall|k: int|
                    0 <= k < i ==> {
                        &&& (#[trigger] self.players@[k]).id == players0[k].id
                        &&& self.players@[k].name == players0[k].name
                        &&& self.players@[k].wallet == players0[k].wallet
                        &&& self.players@[k].bet == players0[k].bet
                        &&& !self.players@[k].folded
                        &&& self.players@[k].hand.0@ == Seq::<u8>::empty()
                    },
                forall|k: int| i <= k < n ==> #[trigger] self.players@[k] == players0[k],
                forall|k: int| 0 <= k < i ==> #[trigger] self.in_hand@[k],
                self.head == old(self).head,
                self.bettor == old(self).bettor,
                self.blind == old(self).blind,
                self.turn == old(self).turn,
                self.game == old(self).game,
                self.showdown == old(self).showdown,
                self.next_game_players@ == old(self).next_game_players@,
                self.bet == old(self).bet,
                self.pot == old(self).pot,
            decreases n - i,
        {
            self.players[i].folded = false;
            self.players[i].hand = Hand(Vec::new());
            self.in_hand.set(i, true);
            i = i + 1;
        }
        self.bet = 0;
        self.pot = 0;
        proof {
            let ps = self.players@;
            assert forall|k: int| 0 <= k < n implies (#[trigger] ps[k]).id == players0[k].id by {}
            lemma_same_ids(players0, ps);
            assert forall|k: int| 0 <= k < n implies (#[trigger] ps[k]).wallet == players0[k].wallet by {}
            lemma_total_same_wallets(ps, players0);
            assert forall|k: int| 0 <= k < n implies #[trigger] ps[k].wallet + ps[k].bet <= u64::MAX by {
                assert(ps[k].wallet == players0[k].wallet && ps[k].bet == players0[k].bet);
            }
            lemma_total_nonneg(players0);
            assert(self.in_hand@ =~= Seq::new(n as nat, |k: int| true));
        }
    }
}

impl<G: Game> Table<G> {
    /// The blind puts in its stake and becomes the bettor. In a game with antes the blind
    /// has the turn and every player, from the blind round the table, checks to the table
    /// bet; otherwise the turn passes to the seat after the blind.
    fn post_stakes(&mut self)
        requires
            old(self).wf(),
            old(self).blind is Some,
            old(self).bet == 0,
            old(self).in_hand@ == Seq::new(old(self).players@.len(), |k: int| true),
            old(self).game.antes() ==> antes_payable(old(self).players@, old(self).seat(old(self).blind->0)),
        ensures
            final(self).wf(),
            ({
                let b = old(self).seat(old(self).blind->0);
                let ps = old(self).players@;
                &&& staked(ps, final(self).players@, b, old(self).game.antes())
                &&& forall|k: int| 0 <= k < ps.len() ==> (#[trigger] final(self).players@[k]).folded == ps[k].folded
                    && final(self).players@[k].hand == ps[k].hand
                &&& final(self).bet == blind_bet(ps[b])
                &&& final(self).bettor == old(self).blind
                &&& final(self).turn == (if old(self).game.antes() {
                    old(self).blind
                } else {
                    id_at(ps, (b + 1) % (ps.len() as int))
                })
            }),
            total_wallets(final(self).players@) + final(self).pot == total_wallets(old(self).players@) + old(self).pot,
            final(self).in_hand == old(self).in_hand,
            final(self).head == old(self).head,
            final(self).blind == old(self).blind,
            final(self).game == old(self).game,
            final(self).showdown == old(self).showdown,
            final(self).next_game_players == old(self).next_game_players,
    {
        let n = self.players.len();
        let b = match self.blind {
            Some(b) => b,
            None => {
                return;
            },
        };
        proof {
            lemma_seat_of(self.players@, b);
        }
        let bs = match self.find(b) {
            Some(bs) => bs,
            None => {
                return;
            },
        };
        let ghost p0 = self.players@;
        let ghost antes = self.game.antes();
        let ghost tb = blind_bet(p0[bs as int]);
        let _ = self.raise(b, BLIND);
        let ghost p1 = self.players@;
        let ghost money = total_wallets(p1) + self.pot;
        proof {
            assert(self.bet == tb);
            assert forall|k: int| 0 <= k < n implies (#[trigger] p1[k]).id == p0[k].id
                && p1[k].name == p0[k].name && p1[k].folded == p0[k].folded && p1[k].hand == p0[k].hand
                && p1[k].wallet == wallet_after_blind(p0[k], k == bs) && p1[k].bet == bet_after_blind(p0[k], k == bs) by {}
        }
        if self.game.is_ante() {
            self.turn = Some(b);
            let walk = full_walk_from(n, bs);
            let mut k: usize = 0;
            while k < walk.len()
                invariant
                    k <= walk@.len(),
                    walk@ == full_walk(n as nat, bs as int),
                    walk_in_bounds(walk@, n as nat),
                    bs < n,
                    n == self.players@.len(),
                    n == p1.len(),
                    self.wf(),
                    self.bet == tb,
                    antes,
                    forall|s: int| 0 <= s < n ==> (#[trigger] p1[s]).bet <= tb,
                    forall|s: int|
                        0 <= s < n ==> #[trigger] self.players@[s] == (if walk@.take(k as int).contains(s as usize) {
                            checked_player(p1[s], tb)
                        } else {
                            p1[s]
                        }),
                    total_wallets(self.players@) + self.pot == money,
                    self.turn == Some(b),
                    self.bettor == Some(b),
                    self.in_hand == old(self).in_hand,
                    self.head == old(self).head,
                    self.blind == old(self).blind,
                    self.game == old(self).game,
                    self.showdown == old(self).showdown,
                    self.next_game_players == old(self).next_game_players,
                decreases walk@.len() - k,
            {
                let s = walk[k];
                let id = self.players[s].id;
                proof {
                    lemma_seat_of_unique(self.players@, s as int);
                    assert(walk@.take(k + 1) =~= walk@.take(k as int).push(s));
                }
                let ghost cur = self.players@;
                let _ = self.check(id);
                proof {
                    assert forall|t: int| 0 <= t < n implies #[trigger] self.players@[t] == (if walk@.take(k + 1).contains(t as usize) {
                        checked_player(p1[t], tb)
                    } else {
                        p1[t]
                    }) by {
                        vstd::seq_lib::lemma_seq_contains_after_push(walk@.take(k as int), s, t as usize);
                        if t != s {
                            assert(self.players@[t] == cur[t]);
                        }
                    }
                }
                k = k + 1;
            }
            proof {
                assert(walk@.take(walk@.len() as int) =~= walk@);
                assert forall|s: int| 0 <= s < n implies #[trigger] self.players@[s] == checked_player(p1[s], tb) by {
                    lemma_full_walk_covers(n as nat, bs as int, s);
                }
            }
        } else {
            let nb = next_active(&self.in_hand, bs);
            self.turn = id_of(&self.players, nb);
            proof {
                lemma_step_on(bs as int, 1, n as int);
                lemma_seat_of_unique(self.players@, (bs as int + 1) % (n as int));
            }
        }
    }
}

/// The seat of the blind once the ring of the table is rebuilt.
pub open spec fn start_blind<G: Game>(t: &Table<G>) -> int {
    match ring_blind(t.players@, t.head, t.blind) {
        Some(id) => seat_of(t.players@, id),
        None => -1,
    }
}

/// A game just started: round 0 with a full shuffled deck.
pub open spec fn fresh_game<G: Game>(g: G, before: G) -> bool {
    &&& g.round_of() == 0
    &&& g.deck_of().to_multiset() == standard_decks(1).to_multiset()
    &&& g.antes() == before.antes()
}

impl<G: Game> Table<G> {
    /// Starts a hand: every seated player is dealt in with no cards, the pot is emptied,
    /// the game starts afresh, the blind posts its stake (and, in a game with antes, every
    /// player checks to it), and the game does what its first round asks. With no player
    /// seated nothing starts. The showdown of the last hand and the players who said they
    /// would play on are forgotten either way.
    pub fn start_game(&mut self) -> (r: TableEvents)
        requires
            old(self).wf(),
            old(self).players@.len() > 0 && old(self).game.antes() ==> antes_payable(old(self).players@, start_blind(old(self))),
        ensures
            final(self).wf(),
            final(self).showdown is None,
            final(self).next_game_players@ == Set::<u64>::empty(),
            !r.round_advanced,
            !r.ended,
            old(self).players@.len() == 0 ==> {
                &&& !r.started
                &&& final(self).players@ == old(self).players@
                &&& final(self).in_hand@ == old(self).in_hand@
                &&& final(self).head is None
                &&& final(self).blind is None
                &&& final(self).turn == old(self).turn
                &&& final(self).bettor == old(self).bettor
                &&& final(self).bet == old(self).bet
                &&& final(self).pot == old(self).pot
                &&& final(self).game == old(self).game
            },
            old(self).players@.len() > 0 ==> {
                let ps = old(self).players@;
                let blind = ring_blind(ps, old(self).head, old(self).blind);
                let b = start_blind(old(self));
                let antes = old(self).game.antes();
                &&& r.started
                &&& final(self).head == ring_head(ps, old(self).head)
                &&& final(self).blind == blind
                &&& final(self).bettor == blind
                &&& final(self).in_hand@ == Seq::new(ps.len(), |k: int| true)
                &&& final(self).turn == (if antes { blind } else { id_at(ps, (b + 1) % (ps.len() as int)) })
                &&& final(self).bet == blind_bet(ps[b])
                &&& total_wallets(final(self).players@) + final(self).pot == total_wallets(ps)
                &&& exists|g: G, dealt_from: Seq<Player>|
                    #[trigger] g.round_step(dealt_from, final(self).walks().0, final(self).walks().1, final(self).game, final(self).players@, false)
                    && fresh_game(g, old(self).game)
                    && staked(ps, dealt_from, b, antes)
                    && same_but_hands(dealt_from, final(self).players@)
                    && forall|k: int| 0 <= k < ps.len() ==> !(#[trigger] dealt_from[k]).folded && dealt_from[k].hand.0@ == Seq::<u8>::empty()
            },
    {
        self.rebuild_full_ring();
        self.showdown = None;
        self.next_game_players.clear();
        if self.players.len() == 0 {
            return TableEvents { started: false, round_advanced: false, ended: false };
        }
        let ghost s1 = *self;
        proof {
            lemma_seat_of(s1.players@, s1.blind->0);
        }
        self.seat_everyone();
        let ghost s2 = *self;
        proof {
            let b = seat_of(s1.players@, s1.blind->0);
            assert forall|k: int| 0 <= k < s2.players@.len() implies (#[trigger] s2.players@[k]).id == s1.players@[k].id by {}
            lemma_same_ids(s1.players@, s2.players@);
        }
        self.game.start_game();
        proof {
            let b = seat_of(s1.players@, s1.blind->0);
            if self.game.antes() {
                assert forall|k: int| 0 <= k < s2.players@.len() implies bet_after_blind(#[trigger] s2.players@[k], k == b)
                    <= blind_bet(s2.players@[b]) by {
                    assert(bet_after_blind(s1.players@[k], k == b) <= blind_bet(s1.players@[b]));
                }
            }
        }
        self.post_stakes();
        let ghost s3 = *self;
        let goes_on = self.round_action();
        proof {
            let b = seat_of(s1.players@, s1.blind->0);
            let ps = s1.players@;
            assert(staked(ps, s3.players@, b, s1.game.antes()));
            assert(goes_on);
            assert forall|k: int| 0 <= k < s3.players@.len() implies (#[trigger] s3.players@[k]).id == self.players@[k].id by {
                assert(same_but_hand(s3.players@[k], self.players@[k]));
            }
            lemma_same_ids(s3.players@, self.players@);
            assert(s3.walks() == self.walks());
            assert(s3.game.round_step(s3.players@, self.walks().0, self.walks().1, self.game, self.players@, false));
        }
        TableEvents { started: true, round_advanced: false, ended: !goes_on }
    }
}

// ---------------------------------------------------------------------------------------
// Passing the turn
// ---------------------------------------------------------------------------------------

/// Every player in the ring of the hand but the one at seat `ts` has bet the table bet.
pub open spec fn bets_matched(players: Seq<Player>, in_hand: Seq<bool>, ts: int, bet: u64) -> bool {
    forall|s: int| 0 <= s < players.len() && in_hand[s] && s != ts ==> (#[trigger] players[s]).bet == bet
}

/// The turn passing from seat `ts` to seat `nx` ends the betting round: `nx` is the
/// bettor's seat (or the id 0 when there is no bettor) and the bets are matched.
pub open spec fn round_over<G: Game>(t: &Table<G>, ts: int, nx: int) -> bool {
    &&& t.players@[nx].id == (match t.bettor {
        Some(b) => b,
        None => 0,
    })
    &&& bets_matched(t.players@, t.in_hand@, ts, t.bet)
}

/// `after` is `before` with the turn passed to seat `nx` and the game moved to its next
/// round.
pub open spec fn round_moved_on<G: Game>(before: &Table<G>, after: &Table<G>, nx: int) -> bool {
    &&& after.players@ == before.players@
    &&& after.in_hand@ == before.in_hand@
    &&& after.head == before.head
    &&& after.bettor == before.bettor
    &&& after.blind == before.blind
    &&& after.turn == Some(before.players@[nx].id)
    &&& after.bet == before.bet
    &&& after.pot == before.pot
    &&& after.showdown == before.showdown
    &&& after.next_game_players@ == before.next_game_players@
    &&& after.game.round_of() == before.game.round_of() + 1
    &&& after.game.deck_of() == before.game.deck_of()
    &&& after.game.antes() == before.game.antes()
}

/// `after` is `before` once the turn has passed on, with the events `r`.
pub open spec fn turn_passed<G: Game>(before: &Table<G>, after: &Table<G>, r: TableEvents) -> bool {
    &&& !r.started
    &&& match before.turn_seats() {
        None => !r.round_advanced && !r.ended && *after == *before,
        Some((ts, nx)) => if round_over(before, ts, nx) {
            &&& r.round_advanced
            &&& exists|mid: Table<G>|
                #[trigger] round_moved_on(before, &mid, nx) && mid.wf() && Table::<G>::round_done(&mid, after, !r.ended)
        } else {
            &&& !r.round_advanced
            &&& !r.ended
            &&& after.turn == Some(before.players@[nx].id)
            &&& after.players == before.players
            &&& after.in_hand == before.in_hand
            &&& after.head == before.head
            &&& after.bettor == before.bettor
            &&& after.blind == before.blind
            &&& after.bet == before.bet
            &&& after.pot == before.pot
            &&& after.game == before.game
            &&& after.showdown == before.showdown
            &&& after.next_game_players == before.next_game_players
        },
    }
}

impl<G: Game> Table<G> {
    /// The seat of the player whose turn it is, and the next seat in the ring, when both
    /// exist.
    pub open spec fn turn_seats(&self) -> Option<(int, int)> {
        match self.turn {
            Some(t) => {
                let ts = self.seat(t);
                let nx = next_in_hand(self.in_hand@, ts);
                if nx >= 0 {
                    Some((ts, nx))
                } else {
                    None
                }
            },
            None => None,
        }
    }

    /// Passes the turn to the next player in the ring of the hand. When that player is the
    /// bettor and every other player in the ring has matched the table bet, the game moves
    /// to its next round and does what that round asks.
    pub fn advance_turn(&mut self) -> (r: TableEvents)
        requires
            old(self).wf(),
            old(self).turn is Some ==> !alone_in_hand(old(self).in_hand@, old(self).seat(old(self).turn->0)),
            match old(self).turn_seats() {
                Some((ts, nx)) => round_over(old(self), ts, nx) ==> old(self).game.round_of() < 255,
                None => true,
            },
        ensures
            final(self).wf(),
            total_wallets(final(self).players@) + final(self).pot == total_wallets(old(self).players@) + old(self).pot,
            turn_passed(old(self), final(self), r),
    {
        let none = TableEvents { started: false, round_advanced: false, ended: false };
        let t = match self.turn {
            Some(t) => t,
            None => {
                return none;
            },
        };
        proof {
            lemma_seat_of(self.players@, t);
        }
        let ts = match self.find(t) {
            Some(ts) => ts,
            None => {
                return none;
            },
        };
        proof {
            lemma_search_bounds(self.in_hand@, ts as int, 1);
        }
        let nx = match next_active(&self.in_hand, ts) {
            Some(nx) => nx,
            None => {
                return none;
            },
        };
        let next_id = self.players[nx].id;
        self.turn = Some(next_id);
        proof {
            lemma_seat_of_unique(self.players@, nx as int);
        }
        let bettor_id = match self.bettor {
            Some(b) => b,
            None => 0,
        };
        let complete = next_id == bettor_id;
        let n = self.players.len();
        let mut matched = true;
        let mut s: usize = 0;
        while s < n
            invariant
                s <= n,
                n == self.players@.len(),
                n == self.in_hand@.len(),
                matched == forall|j: int|
                    0 <= j < s && self.in_hand@[j] && j != ts ==> (#[trigger] self.players@[j]).bet == self.bet,
            decreases n - s,
        {
            if self.in_hand[s] && s != ts && self.players[s].bet != self.bet {
                matched = false;
            }
            s = s + 1;
        }
        if complete && matched {
            self.game.advance_round();
            let ghost mid = *self;
            let goes_on = self.round_action();
            let r = TableEvents { started: false, round_advanced: true, ended: !goes_on };
            assert(round_moved_on(old(self), &mid, nx as int) && mid.wf() && Self::round_done(&mid, self, !r.ended));
            return r;
        }
        none
    }
}

/// Equal tails stay equal one step further on.
proof fn lemma_skip_step(a: Seq<Player>, b: Seq<Player>, i: int, j: int)
    requires
        0 <= i < a.len(),
        0 <= j <= b.len(),
        a.skip(i) == b.skip(j),
    ensures
        a.skip(i + 1) == b.skip(j + 1),
{
    assert(a.skip(i).len() == a.len() - i);
    assert(b.skip(j).len() == b.len() - j);
    assert(a.skip(i).len() == b.skip(j).len());
    assert(j < b.len());
    assert forall|k: int| 0 <= k < a.len() - i - 1 implies #[trigger] a.skip(i + 1)[k] == b.skip(j + 1)[k] by {
        assert(a.skip(i)[k + 1] == b.skip(j)[k + 1]);
        assert(a.skip(i)[k + 1] == a[i + 1 + k]);
        assert(b.skip(j)[k + 1] == b[j + 1 + k]);
    }
    assert(a.skip(i + 1) =~= b.skip(j + 1));
}

/// Whether a player said they would play the next hand.
pub open spec fn confirmed(players_on: Set<u64>) -> spec_fn(Player) -> bool {
    |p: Player| players_on.contains(p.id)
}

/// Whether a player did not say they would play the next hand.
pub open spec fn unconfirmed(players_on: Set<u64>) -> spec_fn(Player) -> bool {
    |p: Player| !players_on.contains(p.id)
}

/// The ids of the players.
pub open spec fn ids_of(players: Seq<Player>) -> Seq<u64> {
    players.map_values(|p: Player| p.id)
}

/// The pointer, when it still names a seat; none otherwise.
pub open spec fn still_seated(players: Seq<Player>, p: Option<u64>) -> Option<u64> {
    if names_a_seat(players, p) {
        p
    } else {
        None
    }
}

/// A player is seated after the seat `i` is taken away exactly when seated before and
/// not the one at `i`.
proof fn lemma_seat_after_remove(players: Seq<Player>, i: int, x: u64)
    requires
        0 <= i < players.len(),
        ids_unique(players),
    ensures
        (seat_of(players.remove(i), x) >= 0) == (seat_of(players, x) >= 0 && x != players[i].id),
{
    let rest = players.remove(i);
    lemma_seat_of(players, x);
    lemma_seat_of(rest, x);
    if seat_of(rest, x) >= 0 {
        let k = seat_of(rest, x);
        if k < i {
            assert(rest[k] == players[k]);
        } else {
            assert(rest[k] == players[k + 1]);
        }
        if x == players[i].id {
            if k < i {
                assert(players[k].id == players[i].id);
            } else {
                assert(players[k + 1].id == players[i].id);
            }
        }
    }
    if seat_of(players, x) >= 0 && x != players[i].id {
        let k = seat_of(players, x);
        if k < i {
            assert(rest[k] == players[k]);
        } else {
            assert(k > i);
            assert(rest[k - 1] == players[k]);
        }
    }
}

/// The head after one more player who is not in the hand has left, when the players who
/// left before moved it as the ring is rebuilt.
proof fn lemma_head_step(players: Seq<Player>, i: int, head: Option<u64>, h0: Option<u64>, earlier: bool)
    requires
        0 <= i < players.len(),
        ids_unique(players),
        names_a_seat(players, head),
        earlier ==> head == ring_head(players, h0),
        !earlier ==> head == h0,
    ensures
        ring_head(players.remove(i), moved_off(head, players[i].id, None)) == ring_head(players.remove(i), h0),
{
    let rest = players.remove(i);
    if let Some(x) = h0 {
        lemma_seat_after_remove(players, i, x);
    }
    if let Some(x) = head {
        lemma_seat_after_remove(players, i, x);
    }
    lemma_seat_of_unique(players, 0);
    lemma_seat_after_remove(players, i, players[0].id);
    if i > 0 && rest.len() > 0 {
        assert(rest[0] == players[0]);
    }
    if i == 0 {
        assert(players[0].id == players[i].id);
    }
}

/// The blind after one more player who is not in the hand has left, when the players who
/// left before moved it as the ring is rebuilt.
proof fn lemma_blind_step(
    players: Seq<Player>,
    i: int,
    head: Option<u64>,
    blind: Option<u64>,
    h0: Option<u64>,
    b0: Option<u64>,
    earlier: bool,
)
    requires
        0 <= i < players.len(),
        ids_unique(players),
        names_a_seat(players, head),
        names_a_seat(players, blind),
        earlier ==> head == ring_head(players, h0),
        !earlier ==> head == h0,
        earlier ==> blind == ring_blind(players, h0, b0),
        !earlier ==> blind == b0,
    ensures
        ring_blind(players.remove(i), moved_off(head, players[i].id, None), moved_off(blind, players[i].id, None))
            == ring_blind(players.remove(i), h0, b0),
{
    lemma_head_step(players, i, head, h0, earlier);
    if let Some(x) = b0 {
        lemma_seat_after_remove(players, i, x);
    }
    if let Some(x) = blind {
        lemma_seat_after_remove(players, i, x);
    }
    if let Some(x) = head {
        lemma_seat_after_remove(players, i, x);
    }
}

/// A pointer that was moved off each player who left still names the seat it named, or
/// none once that player is gone.
proof fn lemma_still_seated_step(players: Seq<Player>, i: int, p: Option<u64>, p0: Option<u64>)
    requires
        0 <= i < players.len(),
        ids_unique(players),
        p == still_seated(players, p0),
    ensures
        moved_off(p, players[i].id, None) == still_seated(players.remove(i), p0),
{
    if let Some(x) = p0 {
        lemma_seat_after_remove(players, i, x);
    }
}

/// What taking off a player who is not in the hand does to the pointers of the table.
proof fn lemma_removed_out_of_hand<G: Game>(before: &Table<G>, after: &Table<G>, id: u64, r: Result<TableEvents, String>)
    requires
        before.wf(),
        removed(before, after, id, r),
        before.seat(id) >= 0,
        !before.in_hand@[before.seat(id)],
    ensures
        after.head == ring_head(after.players@, moved_off(before.head, id, None)),
        after.blind == ring_blind(after.players@, moved_off(before.head, id, None), moved_off(before.blind, id, None)),
        after.bettor == moved_off(before.bettor, id, None),
        after.turn == moved_off(before.turn, id, None),
{
    let i = before.seat(id);
    lemma_seat_of(before.players@, id);
    let ev = r->Ok_0;
    let mid = choose|mid: Table<G>| #[trigger] fold_result(before, &mid, i, ev.ended) && left_table(&mid, after, i);
    let inner = choose|m: Table<G>|
        #[trigger] folded_out(before, &m, i) && m.wf() && if fold_ends_hand(before.in_hand@, i) {
            played_out(&m, &mid) && ev.ended == (contenders(m.players@).len() > 0)
        } else {
            same_view(&m, &mid) && !ev.ended
        };
    assert(!fold_ends_hand(before.in_hand@, i));
    assert(next_in_hand(before.in_hand@, i) == -1);
    assert(prev_in_hand(before.in_hand@, i) == -1);
    assert(mid.players@[i].id == id);
}

impl<G: Game> Table<G> {
    /// After a showdown, every player who has not said they will play on leaves the table,
    /// in table order. Returns the ids of those who left.
    pub fn remove_unconfirmed_players(&mut self) -> (r: Vec<u64>)
        requires
            old(self).wf(),
        ensures
            final(self).wf(),
            old(self).showdown is None ==> r@.len() == 0 && *final(self) == *old(self),
            old(self).showdown is Some ==> {
                &&& final(self).players@ == old(self).players@.filter(confirmed(old(self).next_game_players@))
                &&& r@ == ids_of(old(self).players@.filter(unconfirmed(old(self).next_game_players@)))
                &&& final(self).in_hand@ == Seq::new(final(self).players@.len(), |k: int| false)
                &&& final(self).bet == old(self).bet
                &&& final(self).pot == old(self).pot
                &&& final(self).game == old(self).game
                &&& final(self).showdown == old(self).showdown
                &&& final(self).next_game_players@ == old(self).next_game_players@
                &&& r@.len() == 0 ==> *final(self) == *old(self)
                &&& r@.len() > 0 ==> final(self).head == ring_head(final(self).players@, old(self).head)
                &&& r@.len() > 0 ==> final(self).blind == ring_blind(
                    final(self).players@,
                    old(self).head,
                    old(self).blind,
                )
                &&& final(self).bettor == still_seated(final(self).players@, old(self).bettor)
                &&& final(self).turn == still_seated(final(self).players@, old(self).turn)
            },
    {
        let mut removed: Vec<u64> = Vec::new();
        if self.showdown.is_none() {
            return removed;
        }
        let ghost p0 = self.players@;
        let ghost on = self.next_game_players@;
        let mut i: usize = 0;
        let ghost mut j: int = 0;
        proof {
            reveal_with_fuel(Seq::<Player>::filter, 1);
            assert(self.players@.take(0) =~= p0.take(0).filter(confirmed(on)));
            assert(self.players@.skip(0) =~= p0.skip(0));
            assert(removed@ =~= ids_of(p0.take(0).filter(unconfirmed(on))));
        }
        while i < self.players.len()
            invariant
                self.wf(),
                self.showdown is Some,
                self.showdown == old(self).showdown,
                self.next_game_players@ == on,
                self.bet == old(self).bet,
                self.pot == old(self).pot,
                self.game == old(self).game,
                0 <= j <= p0.len(),
                i <= self.players@.len(),
                self.players@.take(i as int) == p0.take(j).filter(confirmed(on)),
                self.players@.skip(i as int) == p0.skip(j),
                removed@ == ids_of(p0.take(j).filter(unconfirmed(on))),
                removed@.len() == 0 ==> *self == *old(self),
                removed@.len() > 0 ==> self.head == ring_head(self.players@, old(self).head),
                removed@.len() > 0 ==> self.blind == ring_blind(self.players@, old(self).head, old(self).blind),
                self.bettor == still_seated(self.players@, old(self).bettor),
                self.turn == still_seated(self.players@, old(self).turn),
            decreases p0.len() - j,
        {
            let ghost before = self.players@;
            let ghost st: Table<G> = *self;
            proof {
                assert(before.skip(i as int).len() == p0.skip(j).len());
                assert(j < p0.len());
                assert(before.skip(i as int)[0] == p0.skip(j)[0]);
                assert(p0.take(j + 1) =~= p0.take(j).push(p0[j]));
                p0.take(j).lemma_filter_push(p0[j], confirmed(on));
                p0.take(j).lemma_filter_push(p0[j], unconfirmed(on));
            }
            let id = self.players[i].id;
            if self.next_game_players.contains(&id) {
                i = i + 1;
                proof {
                    assert(self.players@.take(i as int) =~= before.take(i - 1).push(before[i - 1]));
                    lemma_skip_step(before, p0, i - 1, j);
                }
            } else {
                proof {
                    lemma_seat_of_unique(self.players@, i as int);
                }
                let res = self.leave(id);
                proof {
                    lemma_seat_of_unique(st.players@, i as int);
                    lemma_removed_out_of_hand(&st, self, id, res);
                    lemma_head_step(st.players@, i as int, st.head, old(self).head, removed@.len() > 0);
                    lemma_blind_step(
                        st.players@,
                        i as int,
                        st.head,
                        st.blind,
                        old(self).head,
                        old(self).blind,
                        removed@.len() > 0,
                    );
                    lemma_still_seated_step(st.players@, i as int, st.bettor, old(self).bettor);
                    lemma_still_seated_step(st.players@, i as int, st.turn, old(self).turn);
                }
                removed.push(id);
                proof {
                    assert(self.players@.take(i as int) =~= before.take(i as int));
                    lemma_skip_step(before, p0, i as int, j);
                    assert(self.players@.skip(i as int) =~= before.skip(i + 1));
                    assert(removed@ =~= ids_of(p0.take(j + 1).filter(unconfirmed(on))));
                }
            }
            proof {
                j = j + 1;
            }
        }
        proof {
            assert(p0.skip(j).len() == 0);
            assert(p0.take(j) =~= p0);
            assert(self.players@ =~= self.players@.take(i as int));
            assert(self.in_hand@ =~= Seq::new(self.players@.len(), |k: int| false));
        }
        removed
    }
}

// ---------------------------------------------------------------------------------------
// A player's move
// ---------------------------------------------------------------------------------------

/// Why a move at the table was not taken.
#[derive(Debug)]
pub enum TurnError {
    /// Another player has the turn.
    NotYourTurn,
    /// The amount of a raise is not a number.
    InvalidAmount,
    /// There is no such move.
    InvalidCommand,
    /// The table or the game refused the move, for the reason given.
    Refused(String),
}

/// The move was refused for the reason `msg`.
pub open spec fn turn_refused(r: Result<TableEvents, TurnError>, msg: Seq<char>) -> bool {
    match r {
        Err(TurnError::Refused(m)) => m@ == msg,
        _ => false,
    }
}

/// The amount a raise names, read as `str::parse::<u64>` reads it.
pub open spec fn amount_of(word: Seq<char>) -> Option<u64> {
    match unsigned_value(word) {
        Some(v) => if v <= u64::MAX {
            Some(v as u64)
        } else {
            None
        },
        None => None,
    }
}

/// After a move answered `step`: when it was taken the turn passes on (`ended` says
/// whether the move itself ended the hand); when not, nothing more happens and its
/// reason is the answer.
pub open spec fn then_passed<G: Game>(
    mid: &Table<G>,
    after: &Table<G>,
    step: Result<(), String>,
    ended: bool,
    r: Result<TableEvents, TurnError>,
) -> bool {
    match step {
        Ok(_) => match r {
            Ok(ev) => exists|pass: TableEvents|
                #[trigger] turn_passed(mid, after, pass) && !ev.started && ev.round_advanced == pass.round_advanced
                    && ev.ended == (ended || pass.ended),
            Err(_) => false,
        },
        Err(e) => turn_refused(r, e@) && same_view(mid, after),
    }
}

/// `after` is `before` once the player has made the betting move `parts`: `RAISE` with an
/// amount, `CHECK` or `FOLD`, each followed by the turn passing on when taken.
pub open spec fn bet_played<G: Game>(
    before: &Table<G>,
    after: &Table<G>,
    player_id: u64,
    parts: Seq<&str>,
    r: Result<TableEvents, TurnError>,
) -> bool {
    if parts.len() == 2 && parts[0]@ == "RAISE"@ {
        match amount_of(parts[1]@) {
            None => r == Err::<TableEvents, TurnError>(TurnError::InvalidAmount) && same_view(before, after),
            Some(a) => exists|mid: Table<G>, step: Result<(), String>|
                #[trigger] raised(before, &mid, player_id, a, step) && mid.wf() && then_passed(&mid, after, step, false, r),
        }
    } else if parts.len() == 1 && parts[0]@ == "CHECK"@ {
        exists|mid: Table<G>, step: Result<(), String>|
            #[trigger] checked(before, &mid, player_id, step) && mid.wf() && then_passed(&mid, after, step, false, r)
    } else if parts.len() == 1 && parts[0]@ == "FOLD"@ {
        exists|mid: Table<G>, step: Result<TableEvents, String>|
            #[trigger] folded(before, &mid, player_id, step) && mid.wf() && match step {
                Ok(ev) => then_passed(&mid, after, Ok(()), ev.ended, r),
                Err(e) => then_passed(&mid, after, Err(e), false, r),
            }
    } else {
        r == Err::<TableEvents, TurnError>(TurnError::InvalidCommand) && same_view(before, after)
    }
}

/// `after` is `before` once the player has made the move `parts`: refused unless the
/// player has the turn; otherwise the game handles it first, and when the game says it is
/// a betting move (`[BET]`), the table does.
pub open spec fn turn_played<G: Game>(
    before: &Table<G>,
    after: &Table<G>,
    player_id: u64,
    parts: Seq<&str>,
    r: Result<TableEvents, TurnError>,
) -> bool {
    if before.turn != Some(player_id) {
        r == Err::<TableEvents, TurnError>(TurnError::NotYourTurn) && same_view(before, after)
    } else {
        exists|mid: Table<G>, ga: Result<(), String>|
            #[trigger] acted(before, &mid, player_id, parts, ga) && mid.wf() && match ga {
                Ok(_) => then_passed(&mid, after, ga, false, r),
                Err(e) => if e@ == "[BET]"@ {
                    bet_played(&mid, after, player_id, parts, r)
                } else {
                    turn_refused(r, e@) && same_view(&mid, after)
                },
            }
    }
}

/// The move `parts` by the player whose turn it is would not stop the program: the game
/// can take it, the player is not alone in the ring, the player's bet is not above the
/// table bet, and the round can still move on.
pub open spec fn turn_safe<G: Game>(t: &Table<G>, player_id: u64, parts: Seq<&str>) -> bool {
    t.turn == Some(player_id) ==> {
        let i = t.seat(player_id);
        &&& t.game.action_safe(t.players@[i].hand.0@, parts)
        &&& !alone_in_hand(t.in_hand@, i)
        &&& t.players@[i].bet <= t.bet
        &&& t.game.round_of() < 255
    }
}

/// The words are exactly the one word `w`.
pub open spec fn is_word(parts: Seq<&str>, w: Seq<char>) -> bool {
    parts.len() == 1 && parts[0]@ == w
}

/// A request from a browser with these words would not stop the program.
pub open spec fn action_safe_at<G: Game>(t: &Table<G>, player_id: u64, parts: Seq<&str>) -> bool {
    if is_word(parts, "LEAVE"@) {
        !alone_in_hand(t.in_hand@, t.seat(player_id))
    } else if is_word(parts, "UPDATE"@) || is_word(parts, "KEEP_PLAYING"@) {
        true
    } else {
        turn_safe(t, player_id, parts)
    }
}

/// What a request from a browser led to.
#[derive(Debug)]
pub enum ActionReply {
    /// The player left the table, with the reply `REMOVED`.
    Left(TableEvents, String),
    /// The player asked to be sent their own state.
    Update,
    /// The player will play the next hand, with the reply `KEEP_PLAYING`.
    KeptPlaying(String),
    /// The player's move was taken.
    Played(TableEvents),
}

/// The browser's answer for the outcome of a move.
pub open spec fn web_answer(t: Result<TableEvents, TurnError>, r: Result<ActionReply, String>) -> bool {
    match t {
        Ok(ev) => r == Ok::<ActionReply, String>(ActionReply::Played(ev)),
        Err(TurnError::NotYourTurn) => refused(r, "[ERROR] NOT YOUR TURN"@),
        Err(TurnError::InvalidAmount) => refused(r, "[ERROR] INVALID AMOUNT"@),
        Err(TurnError::InvalidCommand) => refused(r, "[ERROR] INVALID COMMAND"@),
        Err(TurnError::Refused(m)) => refused(r, m@),
    }
}

/// The seat is the only one in the ring of the hand, said plainly.
pub open spec fn lone_in(in_hand: Seq<bool>, p: int) -> bool {
    &&& 0 <= p < in_hand.len()
    &&& in_hand[p]
    &&& forall|j: int| 0 <= j < in_hand.len() && j != p ==> !#[trigger] in_hand[j]
}

/// Searching back from `p` with an in-hand seat `d` places back, the search stops before
/// coming round to `p`.
proof fn lemma_search_avoids_back(in_hand: Seq<bool>, p: int, k: int, d: int)
    requires
        0 <= p < in_hand.len(),
        1 <= k <= d < in_hand.len(),
        in_hand[(p + in_hand.len() - d) % (in_hand.len() as int)],
    ensures
        in_hand_before_from(in_hand, p, k) != p,
    decreases d - k,
{
    let n = in_hand.len() as int;
    lemma_step_on(p, n - k, n);
    if !in_hand[(p + n - k) % n] {
        lemma_search_avoids_back(in_hand, p, k + 1, d);
    }
}

/// Searching from a seat with no other seat in the ring comes back to it.
proof fn lemma_search_lone(in_hand: Seq<bool>, p: int, k: int)
    requires
        lone_in(in_hand, p),
        1 <= k <= in_hand.len(),
    ensures
        in_hand_after_from(in_hand, p, k) == p,
        in_hand_before_from(in_hand, p, k) == p,
    decreases in_hand.len() - k,
{
    let n = in_hand.len() as int;
    lemma_step_on(p, k, n);
    lemma_step_on(p, n - k, n);
    if k < n {
        lemma_search_lone(in_hand, p, k + 1);
    }
}

/// A seat is alone in the ring exactly when no other seat is in it.
proof fn lemma_alone_iff(in_hand: Seq<bool>, p: int)
    ensures
        alone_in_hand(in_hand, p) == lone_in(in_hand, p),
{
    if lone_in(in_hand, p) {
        lemma_search_lone(in_hand, p, 1);
    }
    if alone_in_hand(in_hand, p) && !lone_in(in_hand, p) {
        let j = choose|j: int| 0 <= j < in_hand.len() && j != p && #[trigger] in_hand[j];
        lemma_not_alone(in_hand, p, j);
    }
}

/// A seat in the ring with another seat in it has a different seat before it.
proof fn lemma_prev_not_self(in_hand: Seq<bool>, p: int, j: int)
    requires
        0 <= p < in_hand.len(),
        0 <= j < in_hand.len(),
        p != j,
        in_hand[p],
        in_hand[j],
    ensures
        prev_in_hand(in_hand, p) != p,
{
    let n = in_hand.len() as int;
    let d = if j < p { p - j } else { p + n - j };
    lemma_step_on(p, n - d, n);
    lemma_search_avoids_back(in_hand, p, 1, d);
}

/// Taking out a seat that is not in the ring keeps every other seat's company.
proof fn lemma_lone_after_remove(in_hand: Seq<bool>, i: int, q: int)
    requires
        0 <= i < in_hand.len(),
        !in_hand[i],
        lone_in(in_hand.remove(i), q),
    ensures
        lone_in(in_hand, if q < i { q } else { q + 1 }),
{
    let s = in_hand.remove(i);
    let p = if q < i { q } else { q + 1 };
    assert(in_hand[p] == s[q]);
    assert forall|j: int| 0 <= j < in_hand.len() && j != p implies !#[trigger] in_hand[j] by {
        if j < i {
            assert(in_hand[j] == s[j]);
        } else if j > i {
            assert(in_hand[j] == s[j - 1]);
        }
    }
}

/// A seat in the ring with another seat in it is not alone there.
proof fn lemma_not_alone(in_hand: Seq<bool>, p: int, j: int)
    requires
        0 <= p < in_hand.len(),
        0 <= j < in_hand.len(),
        p != j,
        in_hand[p],
        in_hand[j],
    ensures
        !alone_in_hand(in_hand, p),
{
    let n = in_hand.len() as int;
    let d = if j > p { j - p } else { j + n - p };
    lemma_step_on(p, d, n);
    lemma_search_avoids(in_hand, p, 1, d);
}

/// Searching on from `p` with an in-hand seat `d` places on, the search stops before
/// coming round to `p`.
proof fn lemma_search_avoids(in_hand: Seq<bool>, p: int, k: int, d: int)
    requires
        0 <= p < in_hand.len(),
        1 <= k <= d < in_hand.len(),
        in_hand[(p + d) % (in_hand.len() as int)],
    ensures
        in_hand_after_from(in_hand, p, k) != p,
    decreases d - k,
{
    let n = in_hand.len() as int;
    lemma_step_on(p, k, n);
    if !in_hand[(p + k) % n] {
        lemma_search_avoids(in_hand, p, k + 1, d);
    }
}

/// A player who has not folded is a contender.
proof fn lemma_contenders_nonempty(players: Seq<Player>, j: int)
    requires
        0 <= j < players.len(),
        !players[j].folded,
    ensures
        contenders(players).len() > 0,
    decreases players.len(),
{
    if j < players.len() - 1 {
        lemma_contenders_nonempty(players.drop_last(), j);
    }
}

impl<G: Game> Table<G> {
    /// The player whose turn it is makes a move: the game handles it first; when the game
    /// says it is a betting move, the table takes `RAISE <amount>`, `CHECK` or `FOLD`.
    /// When the move is taken, the turn passes on.
    pub fn play_turn(&mut self, player_id: u64, parts: &[&str]) -> (r: Result<TableEvents, TurnError>)
        requires
            old(self).wf(),
            turn_safe(old(self), player_id, parts@),
        ensures
            final(self).wf(),
            total_wallets(final(self).players@) + final(self).pot == total_wallets(old(self).players@) + old(self).pot,
            turn_played(old(self), final(self), player_id, parts@, r),
    {
        let is_turn = names(self.turn, player_id);
        if !is_turn {
            return Err(TurnError::NotYourTurn);
        }
        let ghost before = *self;
        proof {
            lemma_seat_of(self.players@, player_id);
        }
        let ga = self.game_actions(player_id, parts);
        let ghost mid = *self;
        proof {
            let i = before.seat(player_id);
            assert forall|k: int| 0 <= k < mid.players@.len() implies (#[trigger] mid.players@[k]).id == before.players@[k].id by {
                if k == i {
                    assert(same_but_hand(before.players@[i], mid.players@[i]));
                }
            }
            lemma_same_ids(before.players@, mid.players@);
        }
        let bet_move = match &ga {
            Ok(()) => false,
            Err(e) => {
                proof { reveal_strlit("[BET]"); }
                str_eq(e.as_str(), "[BET]")
            },
        };
        if !bet_move {
            match ga {
                Ok(()) => {
                    let pass = self.advance_turn();
                    let r = Ok(TableEvents { started: false, round_advanced: pass.round_advanced, ended: pass.ended });
                    assert(acted(&before, &mid, player_id, parts@, Ok(())) && mid.wf() && then_passed(&mid, self, Ok(()), false, r));
                    return r;
                },
                Err(e) => {
                    let r = Err(TurnError::Refused(e));
                    assert(acted(&before, &mid, player_id, parts@, Err(e)) && mid.wf());
                    return r;
                },
            }
        }
        let i = match self.find(player_id) {
            Some(i) => i,
            None => {
                return Err(TurnError::InvalidCommand);
            },
        };
        proof {
            reveal_strlit("RAISE");
            reveal_strlit("CHECK");
            reveal_strlit("FOLD");
        }
        if parts.len() == 2 && str_eq(parts[0], "RAISE") {
            let amount = match parse_u64(parts[1]) {
                Some(a) => a,
                None => {
                    return Err(TurnError::InvalidAmount);
                },
            };
            let step = self.raise(player_id, amount);
            let ghost after_move = *self;
            proof {
                assert forall|k: int| 0 <= k < after_move.players@.len() implies (#[trigger] after_move.players@[k]).id == mid.players@[k].id by {
                    if k == i {
                        assert(after_move.players@[k].id == mid.players@[k].id);
                    }
                }
                lemma_same_ids(mid.players@, after_move.players@);
            }
            let r = self.pass_after(step, false);
            assert(raised(&mid, &after_move, player_id, amount, step) && after_move.wf());
            return r;
        } else if parts.len() == 1 && str_eq(parts[0], "CHECK") {
            let step = self.check(player_id);
            let ghost after_move = *self;
            proof {
                assert forall|k: int| 0 <= k < after_move.players@.len() implies (#[trigger] after_move.players@[k]).id == mid.players@[k].id by {
                    if k == i {
                        assert(after_move.players@[k].id == mid.players@[k].id);
                    }
                }
                lemma_same_ids(mid.players@, after_move.players@);
            }
            let r = self.pass_after(step, false);
            assert(checked(&mid, &after_move, player_id, step) && after_move.wf());
            return r;
        } else if parts.len() == 1 && str_eq(parts[0], "FOLD") {
            let step = self.fold(player_id);
            let ghost after_move = *self;
            let r = match step {
                Ok(ev) => {
                    proof {
                        let ids = mid.players@;
                        if !fold_ends_hand(mid.in_hand@, i as int) {
                            let pv = prev_in_hand(mid.in_hand@, i as int);
                            let nx = next_in_hand(mid.in_hand@, i as int);
                            lemma_search_bounds(mid.in_hand@, i as int, 1);
                            assert forall|k: int| 0 <= k < after_move.players@.len() implies (#[trigger] after_move.players@[k]).id == ids[k].id by {}
                            lemma_same_ids(ids, after_move.players@);
                            if pv >= 0 && pv != i {
                                lemma_search_finds(mid.in_hand@, i as int, 1);
                                lemma_seat_of_unique(ids, pv);
                                lemma_not_alone(after_move.in_hand@, pv, nx);
                            }
                        }
                    }
                    self.pass_after(Ok(()), ev.ended)
                },
                Err(e) => self.pass_after(Err(e), false),
            };
            assert(folded(&mid, &after_move, player_id, step) && after_move.wf());
            return r;
        }
        Err(TurnError::InvalidCommand)
    }

    /// After a move answered `step`: when it was taken the turn passes on; when not, its
    /// reason is the answer.
    fn pass_after(&mut self, step: Result<(), String>, ended: bool) -> (r: Result<TableEvents, TurnError>)
        requires
            old(self).wf(),
            step is Ok ==> old(self).turn is Some ==> !alone_in_hand(old(self).in_hand@, old(self).seat(old(self).turn->0)),
            step is Ok ==> match old(self).turn_seats() {
                Some((ts, nx)) => round_over(old(self), ts, nx) ==> old(self).game.round_of() < 255,
                None => true,
            },
        ensures
            final(self).wf(),
            total_wallets(final(self).players@) + final(self).pot == total_wallets(old(self).players@) + old(self).pot,
            then_passed(old(self), final(self), step, ended, r),
    {
        match step {
            Ok(()) => {
                let pass = self.advance_turn();
                let r = Ok(TableEvents { started: false, round_advanced: pass.round_advanced, ended: ended || pass.ended });
                assert(turn_passed(old(self), self, pass));
                r
            },
            Err(e) => Err(TurnError::Refused(e)),
        }
    }
}

impl<G: Game> Table<G> {
    /// Whether the seat is the only one in the ring of the hand.
    fn is_alone(&self, i: usize) -> (r: bool)
        requires
            i < self.in_hand@.len(),
        ensures
            r == alone_in_hand(self.in_hand@, i as int),
    {
        if !self.in_hand[i] {
            return false;
        }
        let n = self.in_hand.len();
        proof {
            lemma_search_bounds(self.in_hand@, i as int, 1);
        }
        match next_active(&self.in_hand, i) {
            Some(j) => j == i,
            None => false,
        }
    }

    /// Whether the move `parts` by this player can be made without stopping the program,
    /// as `turn_safe` says.
    pub fn turn_is_safe(&self, player_id: u64, parts: &[&str]) -> (r: bool)
        requires
            self.wf(),
        ensures
            r == turn_safe(self, player_id, parts@),
    {
        if !names(self.turn, player_id) {
            return true;
        }
        proof {
            lemma_seat_of(self.players@, player_id);
        }
        let i = match self.find(player_id) {
            Some(i) => i,
            None => {
                return true;
            },
        };
        self.game.is_action_safe(&self.players[i].hand, parts) && !self.is_alone(i) && self.players[i].bet
            <= self.bet && self.game.get_round() < 255
    }

    /// Whether a request from a browser with these words can be run without stopping the
    /// program, as `action_safe_at` says.
    pub fn action_is_safe(&self, player_id: u64, parts: &[&str]) -> (r: bool)
        requires
            self.wf(),
        ensures
            r == action_safe_at(self, player_id, parts@),
    {
        proof {
            reveal_strlit("LEAVE");
            reveal_strlit("UPDATE");
            reveal_strlit("KEEP_PLAYING");
        }
        if parts.len() == 1 && str_eq(parts[0], "LEAVE") {
            proof {
                lemma_seat_of(self.players@, player_id);
            }
            match self.find(player_id) {
                Some(i) => !self.is_alone(i),
                None => true,
            }
        } else if parts.len() == 1 && (str_eq(parts[0], "UPDATE") || str_eq(parts[0], "KEEP_PLAYING")) {
            true
        } else {
            self.turn_is_safe(player_id, parts)
        }
    }

    /// Runs a request from a browser, given as its words: `LEAVE`, `UPDATE`,
    /// `KEEP_PLAYING`, or a move by the player whose turn it is.
    pub fn run_action(&mut self, player_id: u64, parts: &[&str]) -> (r: Result<ActionReply, String>)
        requires
            old(self).wf(),
            action_safe_at(old(self), player_id, parts@),
        ensures
            final(self).wf(),
            parts@.len() == 0 ==> refused(r, "Command is required"@) && *final(self) == *old(self),
            is_word(parts@, "LEAVE"@) ==> match r {
                Ok(ActionReply::Left(ev, reply)) => removed(old(self), final(self), player_id, Ok(ev))
                    && reply@ == "REMOVED\n"@,
                Ok(_) => false,
                Err(e) => removed(old(self), final(self), player_id, Err(e)),
            },
            is_word(parts@, "UPDATE"@) ==> *final(self) == *old(self) && if old(self).seat(player_id) < 0 {
                refused(r, "Player not found"@)
            } else {
                r == Ok::<ActionReply, String>(ActionReply::Update)
            },
            is_word(parts@, "KEEP_PLAYING"@) ==> match r {
                Ok(ActionReply::KeptPlaying(m)) => kept_on(old(self), final(self), player_id, Ok(m)),
                Ok(_) => false,
                Err(e) => kept_on(old(self), final(self), player_id, Err(e)),
            },
            parts@.len() > 0 && !is_word(parts@, "LEAVE"@) && !is_word(parts@, "UPDATE"@) && !is_word(parts@, "KEEP_PLAYING"@)
                ==> exists|t: Result<TableEvents, TurnError>| #[trigger] turn_played(old(self), final(self), player_id, parts@, t) && web_answer(t, r),
    {
        if parts.len() == 0 {
            proof { reveal_strlit("Command is required"); }
            return Err(String::from_str("Command is required"));
        }
        proof {
            reveal_strlit("LEAVE");
            reveal_strlit("UPDATE");
            reveal_strlit("KEEP_PLAYING");
            assert("LEAVE"@.len() == 5 && "UPDATE"@.len() == 6 && "KEEP_PLAYING"@.len() == 12);
        }
        if parts.len() == 1 && str_eq(parts[0], "LEAVE") {
            return match self.remove_player(player_id) {
                Ok((ev, reply)) => Ok(ActionReply::Left(ev, reply)),
                Err(e) => Err(e),
            };
        }
        if parts.len() == 1 && str_eq(parts[0], "UPDATE") {
            if self.find(player_id).is_none() {
                proof { reveal_strlit("Player not found"); }
                return Err(String::from_str("Player not found"));
            }
            return Ok(ActionReply::Update);
        }
        if parts.len() == 1 && str_eq(parts[0], "KEEP_PLAYING") {
            return match self.keep_playing(player_id) {
                Ok(m) => Ok(ActionReply::KeptPlaying(m)),
                Err(e) => Err(e),
            };
        }
        let t = self.play_turn(player_id, parts);
        let r = match t {
            Ok(ev) => Ok(ActionReply::Played(ev)),
            Err(TurnError::NotYourTurn) => {
                proof { reveal_strlit("[ERROR] NOT YOUR TURN"); }
                Err(String::from_str("[ERROR] NOT YOUR TURN"))
            },
            Err(TurnError::InvalidAmount) => {
                proof { reveal_strlit("[ERROR] INVALID AMOUNT"); }
                Err(String::from_str("[ERROR] INVALID AMOUNT"))
            },
            Err(TurnError::InvalidCommand) => {
                proof { reveal_strlit("[ERROR] INVALID COMMAND"); }
                Err(String::from_str("[ERROR] INVALID COMMAND"))
            },
            Err(TurnError::Refused(m)) => Err(m),
        };
        r
    }
}

/// The steps of a disconnection: `m1` is `before` once the player has left (answer
/// `left`), `m2` once the turn has passed on when it was the player's (events `pass`), and
/// `after` once the hand has been played out when fewer than two players are left.
pub open spec fn disconnected<G: Game>(
    before: &Table<G>,
    m1: &Table<G>,
    m2: &Table<G>,
    after: &Table<G>,
    player_id: u64,
    was_turn: bool,
    left: Result<TableEvents, String>,
    pass: TableEvents,
    r: TableEvents,
) -> bool {
    &&& removed(before, m1, player_id, left)
    &&& m1.wf()
    &&& m2.wf()
    &&& if was_turn {
        turn_passed(m1, m2, pass)
    } else {
        same_view(m1, m2) && pass == TableEvents { started: false, round_advanced: false, ended: false }
    }
    &&& if m2.players@.len() < 2 {
        played_out(m2, after)
    } else {
        same_view(m2, after)
    }
    &&& !r.started
    &&& r.round_advanced == pass.round_advanced
    &&& r.ended == (left_ended(left) || pass.ended || (m2.players@.len() < 2 && contenders(m2.players@).len() > 0))
}

/// Whether leaving ended the hand.
pub open spec fn left_ended(r: Result<TableEvents, String>) -> bool {
    match r {
        Ok(ev) => ev.ended,
        Err(_) => false,
    }
}

impl<G: Game> Table<G> {
    /// A player's connection is gone: the player leaves the table (a refusal changes
    /// nothing); if it was the player's turn (`was_turn`), the turn passes on; and with
    /// fewer than two players left, the hand is played out.
    pub fn disconnect(&mut self, player_id: u64, was_turn: bool) -> (r: TableEvents)
        requires
            old(self).wf(),
            !alone_in_hand(old(self).in_hand@, old(self).seat(player_id)),
            turn_has_company(old(self), player_id),
            old(self).game.round_of() < 255,
        ensures
            final(self).wf(),
            exists|m1: Table<G>, m2: Table<G>, left: Result<TableEvents, String>, pass: TableEvents|
                #[trigger] disconnected(old(self), &m1, &m2, final(self), player_id, was_turn, left, pass, r),
    {
        let left = self.leave(player_id);
        let ghost m1 = *self;
        let none = TableEvents { started: false, round_advanced: false, ended: false };
        let pass = if was_turn {
            proof {
                if self.turn is Some {
                    if old(self).turn == Some(player_id) {
                        lemma_seat_of(old(self).players@, player_id);
                    }
                }
            }
            self.advance_turn()
        } else {
            none
        };
        let ghost m2 = *self;
        let shown = if self.players.len() < 2 {
            self.end_game()
        } else {
            false
        };
        let left_done = match &left {
            Ok(ev) => ev.ended,
            Err(_) => false,
        };
        let r = TableEvents { started: false, round_advanced: pass.round_advanced, ended: left_done || pass.ended || shown };
        assert(disconnected(old(self), &m1, &m2, self, player_id, was_turn, left, pass, r));
        r
    }
}

// ---------------------------------------------------------------------------------------
// What is shown of the table
// ---------------------------------------------------------------------------------------

/// What a browser is shown of the table.
#[derive(Debug)]
pub struct TableView {
    pub turn: Option<u64>,
    pub pot: u64,
    pub is_running: bool,
    /// Every player as the others see them.
    pub players: Vec<BroadcastPlayer>,
    pub game: GameState,
    /// The viewer, cards and all, when seated.
    pub me: Option<BroadcastPlayer>,
}

/// One player in a saved state of the table.
#[derive(Debug)]
pub struct SavedPlayer {
    pub id: u64,
    pub name: String,
    pub wallet: u64,
    pub folded: bool,
}

/// The state of the table that is saved when a hand starts, moves on or ends.
#[derive(Debug)]
pub struct Snapshot {
    pub round: u8,
    pub turn: Option<u64>,
    pub pot: u64,
    pub players: Vec<SavedPlayer>,
    pub game: GameState,
    /// The winner, in the state saved at the end of a hand.
    pub winner: Option<u64>,
}

/// `b` shows the player, with the cards that lie face down hidden when `hidden`.
pub open spec fn shows_player(b: BroadcastPlayer, p: Player, hidden: bool) -> bool {
    &&& b.id == p.id
    &&& b.name@ == p.name@
    &&& b.wallet == p.wallet
    &&& b.bet == p.bet
    &&& b.folded == p.folded
    &&& b.hand.0@ == (if hidden { visible_cards(p.hand.0@) } else { p.hand.0@ })
}

/// The viewer's own entry shows the player with every card.
pub open spec fn shows_me(me: Option<BroadcastPlayer>, p: Player) -> bool {
    match me {
        Some(m) => shows_player(m, p, false),
        None => false,
    }
}

/// The game as everyone sees it.
pub open spec fn shows_game<G: Game>(s: GameState, game: G) -> bool {
    &&& s.round == game.round_of()
    &&& match s.community_cards {
        Some(c) => game.shared_cards() == Some(c@),
        None => game.shared_cards() is None,
    }
}

impl<G: Game> Table<G> {
    /// What a browser is shown: the turn, the pot, whether a hand is running, every
    /// player with face-down cards hidden, the game, and the viewer's own state when the
    /// viewer is seated.
    pub fn player_view(&self, viewer: Option<u64>) -> (r: TableView)
        ensures
            r.turn == self.turn,
            r.pot == self.pot,
            r.is_running == self.turn is Some,
            r.players@.len() == self.players@.len(),
            forall|k: int| 0 <= k < self.players@.len() ==> shows_player(#[trigger] r.players@[k], self.players@[k], true),
            shows_game(r.game, self.game),
            match viewer {
                Some(id) => if self.seat(id) >= 0 {
                    shows_me(r.me, self.players@[self.seat(id)])
                } else {
                    r.me is None
                },
                None => r.me is None,
            },
    {
        let mut players: Vec<BroadcastPlayer> = Vec::new();
        let n = self.players.len();
        for k in 0..n
            invariant
                n == self.players@.len(),
                players@.len() == k,
                forall|j: int| 0 <= j < k ==> shows_player(#[trigger] players@[j], self.players@[j], true),
        {
            players.push(self.players[k].to_broadcast());
        }
        let me = match viewer {
            Some(id) => match self.find(id) {
                Some(i) => Some(self.players[i].to_stream()),
                None => None,
            },
            None => None,
        };
        TableView {
            turn: self.turn,
            pot: self.pot,
            is_running: self.is_running(),
            players,
            game: self.game.to_broadcast(),
            me,
        }
    }

    /// The state saved for an event (`start`, `advance` or `end`): the round, the turn,
    /// the pot, each player's id, name, wallet and whether folded, the game, and at the
    /// end of a hand the winner, who heads the table then.
    pub fn snapshot(&self, event: &str) -> (r: Snapshot)
        ensures
            r.round == self.game.round_of(),
            r.turn == self.turn,
            r.pot == self.pot,
            r.players@.len() == self.players@.len(),
            forall|k: int|
                0 <= k < self.players@.len() ==> {
                    &&& (#[trigger] r.players@[k]).id == self.players@[k].id
                    &&& r.players@[k].name@ == self.players@[k].name@
                    &&& r.players@[k].wallet == self.players@[k].wallet
                    &&& r.players@[k].folded == self.players@[k].folded
                },
            shows_game(r.game, self.game),
            r.winner == (if event@ == "end"@ { self.head } else { None }),
    {
        let mut players: Vec<SavedPlayer> = Vec::new();
        let n = self.players.len();
        for k in 0..n
            invariant
                n == self.players@.len(),
                players@.len() == k,
                forall|j: int|
                    0 <= j < k ==> {
                        &&& (#[trigger] players@[j]).id == self.players@[j].id
                        &&& players@[j].name@ == self.players@[j].name@
                        &&& players@[j].wallet == self.players@[j].wallet
                        &&& players@[j].folded == self.players@[j].folded
                    },
        {
            let p = &self.players[k];
            players.push(SavedPlayer { id: p.id, name: p.name.clone(), wallet: p.wallet, folded: p.folded });
        }
        let winner = if str_eq(event, "end") {
            self.head
        } else {
            None
        };
        Snapshot {
            round: self.game.get_round(),
            turn: self.turn,
            pot: self.pot,
            players,
            game: self.game.to_broadcast(),
            winner,
        }
    }
}

/// `true` or `false`.
pub open spec fn bool_label(b: bool) -> Seq<char> {
    if b {
        "true"@
    } else {
        "false"@
    }
}

/// One player in the text of the table.
pub open spec fn player_block(p: Player) -> Seq<char> {
    "  Player "@ + decimal(p.id as nat) + " ("@ + p.name@ + ")\n  Wallet: "@ + decimal(p.wallet as nat)
        + "\n  Current Bet: "@ + decimal(p.bet as nat) + "\n  Folded: "@ + bool_label(p.folded) + "\n  Hand: "@
        + cards_label(p.hand.0@) + "\n"@
}

/// The players at the seats of the walk, one after the other.
pub open spec fn player_blocks(players: Seq<Player>, walk: Seq<usize>) -> Seq<char>
    decreases walk.len(),
{
    if walk.len() == 0 {
        Seq::empty()
    } else {
        player_blocks(players, walk.drop_last()) + player_block(players[walk.last() as int])
    }
}

/// The player a pointer names, as `<id> (<name>)`, or `None`.
pub open spec fn pointer_label(players: Seq<Player>, p: Option<u64>) -> Seq<char> {
    match p {
        Some(id) => decimal(id as nat) + " ("@ + players[seat_of(players, id)].name@ + ")"@,
        None => "None"@,
    }
}

/// The table as text: the bet, the pot, the game, the players from the head round the
/// table (a lone player twice), and who has the turn, who bet last and who is the blind.
pub open spec fn table_label<G: Game>(t: &Table<G>) -> Seq<char> {
    "Table State:\nCurrent Bet: "@ + decimal(t.bet as nat) + "\nPot: "@ + decimal(t.pot as nat) + "\nGame: "@
        + t.game.label() + "\n"@ + match t.head {
        Some(h) => "Players:\n"@ + player_blocks(t.players@, full_walk(t.players@.len(), t.seat(h))),
        None => "No players at the table.\n"@,
    } + "Current Turn: "@ + pointer_label(t.players@, t.turn) + "\nCurrent Bettor: "@ + pointer_label(
        t.players@,
        t.bettor,
    ) + "\nCurrent Blind: "@ + pointer_label(t.players@, t.blind) + "\n"@
}

/// One player in the text of the table.
fn player_text(p: &Player) -> (r: String)
    ensures
        r@ == player_block(*p),
{
    let mut s = String::from_str("  Player ");
    s.append(decimal_text(p.id).as_str());
    s.append(" (");
    s.append(p.name.as_str());
    s.append(")\n  Wallet: ");
    s.append(decimal_text(p.wallet).as_str());
    s.append("\n  Current Bet: ");
    s.append(decimal_text(p.bet).as_str());
    s.append("\n  Folded: ");
    if p.folded {
        s.append("true");
    } else {
        s.append("false");
    }
    s.append("\n  Hand: ");
    s.append(p.hand.to_string().as_str());
    s.append("\n");
    s
}

impl<G: Game> Table<G> {
    /// The player a pointer names, as `<id> (<name>)`, or `None`.
    fn pointer_text(&self, p: Option<u64>) -> (r: String)
        requires
            self.wf(),
            names_a_seat(self.players@, p),
        ensures
            r@ == pointer_label(self.players@, p),
    {
        match p {
            Some(id) => {
                proof {
                    lemma_seat_of(self.players@, id);
                }
                let i = match self.find(id) {
                    Some(i) => i,
                    None => 0,
                };
                let mut s = decimal_text(id);
                s.append(" (");
                s.append(self.players[i].name.as_str());
                s.append(")");
                s
            },
            None => String::from_str("None"),
        }
    }

    /// The table as text, as `table_label` says.
    pub fn to_string(&self) -> (r: String)
        requires
            self.wf(),
        ensures
            r@ == table_label(self),
    {
        let mut s = String::from_str("Table State:\nCurrent Bet: ");
        s.append(decimal_text(self.bet).as_str());
        s.append("\nPot: ");
        s.append(decimal_text(self.pot).as_str());
        s.append("\nGame: ");
        s.append(self.game.to_string().as_str());
        s.append("\n");
        match self.head {
            Some(h) => {
                proof {
                    lemma_seat_of(self.players@, h);
                }
                let hs = match self.find(h) {
                    Some(hs) => hs,
                    None => 0,
                };
                let walk = full_walk_from(self.players.len(), hs);
                let mut blocks = String::from_str("Players:\n");
                let ghost prefix = s@;
                let mut k: usize = 0;
                proof {
                    assert(walk@.take(0) =~= Seq::<usize>::empty());
                }
                while k < walk.len()
                    invariant
                        k <= walk@.len(),
                        walk_in_bounds(walk@, self.players@.len()),
                        blocks@ == "Players:\n"@ + player_blocks(self.players@, walk@.take(k as int)),
                    decreases walk@.len() - k,
                {
                    let p = &self.players[walk[k]];
                    proof {
                        assert(walk@.take(k + 1).drop_last() =~= walk@.take(k as int));
                    }
                    blocks.append(player_text(p).as_str());
                    k = k + 1;
                }
                proof {
                    assert(walk@.take(walk@.len() as int) =~= walk@);
                }
                s.append(blocks.as_str());
            },
            None => {
                s.append("No players at the table.\n");
            },
        }
        s.append("Current Turn: ");
        s.append(self.pointer_text(self.turn).as_str());
        s.append("\nCurrent Bettor: ");
        s.append(self.pointer_text(self.bettor).as_str());
        s.append("\nCurrent Blind: ");
        s.append(self.pointer_text(self.blind).as_str());
        s.append("\n");
        s
    }
}

// ---------------------------------------------------------------------------------------
// Checks a caller makes before a call
// ---------------------------------------------------------------------------------------

impl<G: Game> Table<G> {
    /// All the money at the table: the wallets and the pot.
    pub fn total_money(&self) -> (r: u64)
        requires
            self.wf(),
        ensures
            r == total_wallets(self.players@) + self.pot,
    {
        let n = self.players.len();
        let mut sum: u64 = self.pot;
        let mut k: usize = 0;
        proof {
            assert(self.players@.take(0) =~= Seq::<Player>::empty());
            lemma_total_nonneg(self.players@);
        }
        while k < n
            invariant
                k <= n,
                n == self.players@.len(),
                sum == total_wallets(self.players@.take(k as int)) + self.pot,
                total_wallets(self.players@) + self.pot <= u64::MAX,
            decreases n - k,
        {
            proof {
                assert(self.players@.take(k + 1).drop_last() =~= self.players@.take(k as int));
                lemma_total_prefix(self.players@, k + 1);
            }
            sum = sum + self.players[k].wallet;
            k = k + 1;
        }
        proof {
            assert(self.players@.take(n as int) =~= self.players@);
        }
        sum
    }

    /// Whether a hand can be started without stopping the program, as the `requires` of
    /// `start_game` says.
    pub fn start_is_safe(&self) -> (r: bool)
        requires
            self.wf(),
        ensures
            r == (self.players@.len() > 0 && self.game.antes() ==> antes_payable(self.players@, start_blind(self))),
    {
        let n = self.players.len();
        if n == 0 || !self.game.is_ante() {
            return true;
        }
        let blind = match self.blind {
            Some(b) => b,
            None => match self.head {
                Some(h) => h,
                None => self.players[0].id,
            },
        };
        proof {
            if let Some(b) = self.blind {
                lemma_seat_of(self.players@, b);
            } else if let Some(h) = self.head {
                lemma_seat_of(self.players@, h);
            }
            lemma_seat_of_unique(self.players@, 0);
            assert(ring_blind(self.players@, self.head, self.blind) == Some(blind));
        }
        let b = match self.find(blind) {
            Some(b) => b,
            None => {
                return true;
            },
        };
        let bp = &self.players[b];
        let table_bet: u64 = if bp.wallet >= BLIND {
            bp.bet + BLIND
        } else {
            0
        };
        proof {
            assert(start_blind(self) == b as int);
        }
        let mut k: usize = 0;
        while k < n
            invariant
                k <= n,
                n == self.players@.len(),
                b < n,
                start_blind(self) == b as int,
                self.game.antes(),
                table_bet == blind_bet(self.players@[b as int]),
                money_fits(self.players@, self.pot),
                forall|j: int| 0 <= j < k ==> bet_after_blind(#[trigger] self.players@[j], j == b) <= table_bet,
            decreases n - k,
        {
            let p = &self.players[k];
            let bet = if k == b && p.wallet >= BLIND {
                p.bet + BLIND
            } else {
                p.bet
            };
            if bet > table_bet {
                proof {
                    assert(bet_after_blind(self.players@[k as int], k == b) > blind_bet(self.players@[b as int]));
                }
                return false;
            }
            k = k + 1;
        }
        true
    }

    /// Whether passing the turn would not stop the program, as the `requires` of
    /// `advance_turn` says.
    pub fn advance_is_safe(&self) -> (r: bool)
        requires
            self.wf(),
        ensures
            r == ((self.turn is Some ==> !alone_in_hand(self.in_hand@, self.seat(self.turn->0))) && match self.turn_seats() {
                Some((ts, nx)) => round_over(self, ts, nx) ==> self.game.round_of() < 255,
                None => true,
            }),
    {
        let t = match self.turn {
            Some(t) => t,
            None => {
                return true;
            },
        };
        proof {
            lemma_seat_of(self.players@, t);
        }
        let ts = match self.find(t) {
            Some(ts) => ts,
            None => {
                return true;
            },
        };
        if self.is_alone(ts) {
            return false;
        }
        let _len = self.in_hand.len();
        proof {
            lemma_search_bounds(self.in_hand@, ts as int, 1);
        }
        let nx = match next_active(&self.in_hand, ts) {
            Some(nx) => nx,
            None => {
                return true;
            },
        };
        let bettor_id = match self.bettor {
            Some(b) => b,
            None => 0,
        };
        proof {
            assert(self.turn_seats() == Some((ts as int, nx as int)));
        }
        if self.players[nx].id != bettor_id {
            return true;
        }
        let n = self.players.len();
        let mut matched = true;
        let mut s: usize = 0;
        while s < n
            invariant
                s <= n,
                n == self.players@.len(),
                n == self.in_hand@.len(),
                matched == forall|j: int|
                    0 <= j < s && self.in_hand@[j] && j != ts ==> (#[trigger] self.players@[j]).bet == self.bet,
            decreases n - s,
        {
            if self.in_hand[s] && s != ts && self.players[s].bet != self.bet {
                matched = false;
            }
            s = s + 1;
        }
        !matched || self.game.get_round() < 255
    }

    /// Whether a player whose connection is gone can be taken off the table without
    /// stopping the program, as the `requires` of `disconnect` says.
    pub fn disconnect_is_safe(&self, player_id: u64) -> (r: bool)
        requires
            self.wf(),
        ensures
            r == (!alone_in_hand(self.in_hand@, self.seat(player_id)) && turn_has_company(self, player_id)
                && self.game.round_of() < 255),
    {
        proof {
            lemma_seat_of(self.players@, player_id);
        }
        let own = match self.find(player_id) {
            Some(i) => !self.is_alone(i),
            None => true,
        };
        let company = match self.turn {
            Some(t) => {
                if t == player_id {
                    true
                } else {
                    proof {
                        lemma_seat_of(self.players@, t);
                    }
                    match self.find(t) {
                        Some(ts) => !self.is_alone(ts),
                        None => true,
                    }
                }
            },
            None => true,
        };
        own && company && self.game.get_round() < 255
    }
}

/// The money in a prefix of the seats is at most the money in all of them.
proof fn lemma_total_prefix(players: Seq<Player>, k: int)
    requires
        0 <= k <= players.len(),
    ensures
        total_wallets(players.take(k)) <= total_wallets(players),
    decreases players.len() - k,
{
    if k < players.len() {
        lemma_total_prefix(players, k + 1);
        assert(players.take(k + 1).drop_last() =~= players.take(k));
        lemma_total_nonneg(players.take(k));
    } else {
        assert(players.take(k) =~= players);
    }
}

/// A seated player who, after a showdown, says they will play the next hand is still
/// seated once the players who did not say so have left the table.
pub proof fn lemma_kept_player_stays<G: Game>(
    before: Table<G>,
    kept: Table<G>,
    after: Table<G>,
    player_id: u64,
    r: Result<String, String>,
)
    requires
        kept_on(&before, &kept, player_id, r),
        before.showdown is Some,
        before.seat(player_id) >= 0,
        after.players@ == kept.players@.filter(confirmed(kept.next_game_players@)),
    ensures
        after.seat(player_id) >= 0,
{
    lemma_seat_of(before.players@, player_id);
    let i = before.seat(player_id);
    let ps = kept.players@;
    assert(kept.next_game_players@.contains(player_id));
    assert(confirmed(kept.next_game_players@)(ps[i]));
    ps.lemma_filter_contains(confirmed(kept.next_game_players@), i);
    let f = ps.filter(confirmed(kept.next_game_players@));
    let j = choose|j: int| 0 <= j < f.len() && f[j] == ps[i];
    lemma_seat_of(after.players@, player_id);
    assert(after.players@[j].id == player_id);
}

/// A player just seated is the one found at the table by their id, at the seat they were
/// given.
pub proof fn lemma_seated_player_found<G: Game>(before: Table<G>, after: Table<G>, player: Player, k: int)
    requires
        after.wf(),
        0 <= k <= before.players@.len(),
        after.players@ == before.players@.insert(k, player),
    ensures
        after.seat(player.id) == k,
        after.players@[after.seat(player.id)] == player,
{
    assert(after.players@[k] == player);
    lemma_seat_of_unique(after.players@, k);
}

} // verus!
