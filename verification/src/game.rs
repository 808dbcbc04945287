//! What every poker variant offers the table that runs it.
use vstd::prelude::*;
use crate::deck::{Deck, dealt_count, standard_decks};
use crate::hand::{Hand, HandRank, RankModel, rank_of, rank_order, rank_at_most, lemma_rank_order_reflexive, lemma_rank_order_transitive, lemma_rank_order_antisymmetric};
use crate::player::Player;

verus! {

/// What a game shows to everyone at the table.
#[derive(Debug, Clone)]
pub struct GameState {
    pub round: u8,
    /// The shared cards, for games that have them.
    pub community_cards: Option<Vec<u8>>,
}

/// `r` is the error `msg`.
pub open spec fn fails_with<T>(r: Result<T, &str>, msg: Seq<char>) -> bool {
    match r {
        Err(e) => e@ == msg,
        Ok(_) => false,
    }
}

/// The deck once `n` cards have been dealt from its end.
pub open spec fn deck_after(deck: Seq<u8>, n: nat) -> Seq<u8> {
    deck.subrange(0, deck.len() - dealt_count(deck.len(), n))
}

/// The cards that a deal of `n` takes from the end of the deck, in deck order.
pub open spec fn cards_taken(deck: Seq<u8>, n: nat) -> Seq<u8> {
    deck.subrange(deck.len() - dealt_count(deck.len(), n), deck.len() as int)
}

/// The same cards turned face up.
pub open spec fn turned_up(cards: Seq<u8>) -> Seq<u8> {
    Seq::new(cards.len(), |i: int| cards[i] | 64u8)
}

/// The position of the winner among the ranks as `Iterator::max_by` chooses it: the last
/// of the ranks that compare highest; -1 when there are none.
pub open spec fn last_best(ranks: Seq<RankModel>) -> int
    decreases ranks.len(),
{
    if ranks.len() == 0 {
        -1
    } else {
        let b = last_best(ranks.drop_last());
        if b < 0 || rank_order(ranks[b], ranks.last()) <= 0 {
            ranks.len() - 1
        } else {
            b
        }
    }
}

/// The winner's position lies among the ranks.
pub proof fn lemma_last_best_bounds(ranks: Seq<RankModel>)
    ensures
        ranks.len() == 0 <==> last_best(ranks) == -1,
        ranks.len() > 0 ==> 0 <= last_best(ranks) < ranks.len(),
    decreases ranks.len(),
{
    if ranks.len() > 0 {
        lemma_last_best_bounds(ranks.drop_last());
    }
}

/// The rank that `last_best` picks is at least as high as every rank, and higher than
/// every rank after it: the winner of a showdown holds a best hand, and of equal best
/// hands the last.
pub proof fn lemma_last_best_is_best(ranks: Seq<RankModel>)
    requires
        ranks.len() > 0,
    ensures
        forall|k: int| 0 <= k < ranks.len() ==> rank_order(#[trigger] ranks[k], ranks[last_best(ranks)]) <= 0,
        forall|k: int| last_best(ranks) < k < ranks.len() ==> rank_order(#[trigger] ranks[k], ranks[last_best(ranks)]) < 0,
    decreases ranks.len(),
{
    let last = ranks.len() - 1;
    let rest = ranks.drop_last();
    let b = last_best(rest);
    lemma_last_best_bounds(rest);
    lemma_rank_order_reflexive(ranks[last]);
    if rest.len() == 0 {
        return;
    }
    lemma_last_best_is_best(rest);
    if rank_order(ranks[b], ranks[last]) <= 0 {
        assert forall|k: int| 0 <= k < ranks.len() implies rank_order(#[trigger] ranks[k], ranks[last_best(ranks)]) <= 0 by {
            if k < last {
                assert(rest[k] == ranks[k]);
                lemma_rank_order_transitive(ranks[k], ranks[b], ranks[last]);
            }
        }
    } else {
        assert(last_best(ranks) == b);
        lemma_rank_order_antisymmetric(ranks[b], ranks[last]);
        assert forall|k: int| 0 <= k < ranks.len() implies rank_order(#[trigger] ranks[k], ranks[last_best(ranks)]) <= 0 by {
            if k < last {
                assert(rest[k] == ranks[k]);
            }
        }
        assert forall|k: int| last_best(ranks) < k < ranks.len() implies rank_order(#[trigger] ranks[k], ranks[last_best(ranks)]) < 0 by {
            if k < last {
                assert(rest[k] == ranks[k]);
            }
        }
    }
}

/// The hands of the players, in order.
pub open spec fn hands_of(players: Seq<Player>) -> Seq<Seq<u8>> {
    players.map_values(|p: Player| p.hand.0@)
}

/// Everything about the player but the cards is the same.
pub open spec fn same_but_hand(a: Player, b: Player) -> bool {
    &&& a.id == b.id
    &&& a.name == b.name
    &&& a.wallet == b.wallet
    &&& a.bet == b.bet
    &&& a.folded == b.folded
}

/// Everything about the players but their cards is the same.
pub open spec fn same_but_hands(a: Seq<Player>, b: Seq<Player>) -> bool {
    &&& a.len() == b.len()
    &&& forall|i: int| 0 <= i < a.len() ==> same_but_hand(#[trigger] a[i], b[i])
}

/// Every position in `walk` names a player.
pub open spec fn walk_in_bounds(walk: Seq<usize>, n: nat) -> bool {
    forall|i: int| 0 <= i < walk.len() ==> #[trigger] walk[i] < n
}

/// Whether each player has folded, in order.
pub open spec fn folded_flags(players: Seq<Player>) -> Seq<bool> {
    players.map_values(|p: Player| p.folded)
}

/// Going around `walk`, each player who has not folded gets `n` cards from the end of
/// the deck: the deck and the hands afterwards.
pub open spec fn deal_around(deck: Seq<u8>, hands: Seq<Seq<u8>>, folded: Seq<bool>, walk: Seq<usize>, n: nat) -> (Seq<u8>, Seq<Seq<u8>>)
    decreases walk.len(),
{
    if walk.len() == 0 {
        (deck, hands)
    } else {
        let i = walk[0] as int;
        if folded[i] {
            deal_around(deck, hands, folded, walk.drop_first(), n)
        } else {
            deal_around(
                deck_after(deck, n),
                hands.update(i, hands[i] + cards_taken(deck, n)),
                folded,
                walk.drop_first(),
                n,
            )
        }
    }
}

/// The ranks of the players' hands, each joined by the shared cards.
pub open spec fn ranks_with(players: Seq<(&u64, &Hand)>, shared: Seq<u8>) -> Seq<RankModel> {
    Seq::new(players.len(), |i: int| rank_of(players[i].1.0@ + shared))
}

/// The hand of the player at `i`, joined by the shared cards, ranks at least as high as
/// every other player's hand joined by them.
pub open spec fn holds_best(players: Seq<(&u64, &Hand)>, shared: Seq<u8>, i: int) -> bool {
    forall|j: int|
        0 <= j < players.len() ==> rank_order(
            #[trigger] rank_of(players[j].1.0@ + shared),
            rank_of(players[i].1.0@ + shared),
        ) <= 0
}

/// A showdown is won by a player whose hand, joined by the shared cards, ranks best; with
/// no players there is no winner.
pub open spec fn wins_showdown(players: Seq<(&u64, &Hand)>, shared: Seq<u8>, r: Option<u64>) -> bool {
    match r {
        Some(id) => exists|i: int| 0 <= i < players.len() && *players[i].0 == id && #[trigger] holds_best(players, shared, i),
        None => players.len() == 0,
    }
}

/// The player `last_best` picks holds a best hand.
pub proof fn lemma_best_player_wins(players: Seq<(&u64, &Hand)>, shared: Seq<u8>)
    requires
        players.len() > 0,
    ensures
        0 <= last_best(ranks_with(players, shared)) < players.len(),
        holds_best(players, shared, last_best(ranks_with(players, shared))),
{
    let ranks = ranks_with(players, shared);
    lemma_last_best_bounds(ranks);
    lemma_last_best_is_best(ranks);
    let b = last_best(ranks);
    assert forall|j: int| 0 <= j < players.len() implies rank_order(
        #[trigger] rank_of(players[j].1.0@ + shared),
        rank_of(players[b].1.0@ + shared),
    ) <= 0 by {
        assert(ranks[j] == rank_of(players[j].1.0@ + shared));
    }
}

/// The id of the player whose hand, joined by the shared cards, ranks best; among equal
/// best hands the last one, as `Iterator::max_by` picks it.
pub fn best_player(players: &[(&u64, &Hand)], shared: &[u8]) -> (r: Option<u64>)
    ensures
        r == (if players@.len() == 0 {
            None
        } else {
            Some(*players@[last_best(ranks_with(players@, shared@))].0)
        }),
        wins_showdown(players@, shared@, r),
{
    let n = players.len();
    if n == 0 {
        return None;
    }
    proof {
        lemma_best_player_wins(players@, shared@);
    }
    let ghost ranks = ranks_with(players@, shared@);
    let mut best: usize = 0;
    let mut best_rank = joined_rank(players[0].1, shared);
    proof {
        assert(ranks.take(1).drop_last() =~= Seq::<RankModel>::empty());
        assert(ranks.take(1).len() == 1);
        assert(last_best(ranks.take(1).drop_last()) == -1);
        assert(last_best(ranks.take(1)) == 0);
        assert(best_rank@ == ranks[0]);
    }
    for j in 1..n
        invariant
            n == players@.len(),
            ranks == ranks_with(players@, shared@),
            best < j,
            best as int == last_best(ranks.take(j as int)),
            best_rank@ == ranks[best as int],
    {
        let rank = joined_rank(players[j].1, shared);
        proof {
            assert(ranks.take(j + 1).drop_last() =~= ranks.take(j as int));
        }
        if rank_at_most(&best_rank, &rank) {
            best = j;
            best_rank = rank;
        }
    }
    proof {
        assert(ranks.take(n as int) =~= ranks);
    }
    Some(*players[best].0)
}

/// The rank of a hand joined by the shared cards.
fn joined_rank(hand: &Hand, shared: &[u8]) -> (r: HandRank)
    ensures
        r@ == rank_of(hand.0@ + shared@),
{
    let mut cards = hand.0.clone();
    let mut i: usize = 0;
    proof { assert(cards@ =~= hand.0@ + shared@.take(0)); }
    while i < shared.len()
        invariant
            i <= shared@.len(),
            cards@ == hand.0@ + shared@.take(i as int),
        decreases shared@.len() - i,
    {
        cards.push(shared[i]);
        i = i + 1;
        proof { assert(cards@ =~= hand.0@ + shared@.take(i as int)); }
    }
    proof { assert(shared@.take(i as int) =~= shared@); }
    Hand(cards).evaluate()
}

pub trait Game: Sized {
    spec fn round_of(&self) -> u8;

    spec fn deck_of(&self) -> Seq<u8>;

    spec fn antes(&self) -> bool;

    /// The cards a hand is judged with at the showdown.
    spec fn showdown_cards(&self, hand: Seq<u8>) -> Seq<u8>;

    /// The game as text.
    spec fn label(&self) -> Seq<char>;

    /// The cards shared by all players that everyone sees, for games that have them.
    spec fn shared_cards(&self) -> Option<Seq<u8>>;

    /// What `handle_round_action` does: from this game and these players, walking as
    /// given, the game becomes `next`, the players `next_players`, and `ended` says
    /// whether the hand is over.
    spec fn round_step(
        &self,
        players: Seq<Player>,
        active_walk: Seq<usize>,
        full_walk: Seq<usize>,
        next: Self,
        next_players: Seq<Player>,
        ended: bool,
    ) -> bool;

    /// What `client_action` does: with these words from this player, the game becomes
    /// `next`, the player `next_player`, and `result` is the answer.
    spec fn action_step(
        &self,
        player: Player,
        parts: Seq<&str>,
        next: Self,
        next_player: Player,
        result: Result<(), &'static str>,
    ) -> bool;

    /// A client action with these words would not stop the program.
    spec fn action_safe(&self, hand: Seq<u8>, parts: Seq<&str>) -> bool;

    /// Whether a client action with these words would not stop the program, as
    /// `action_safe` says.
    fn is_action_safe(&self, hand: &Hand, parts: &[&str]) -> (r: bool)
        ensures
            r == self.action_safe(hand.0@, parts@),
    ;

    fn new() -> (r: Self)
        ensures
            r.round_of() == 0,
            r.deck_of() == Seq::<u8>::empty(),
    ;

    fn is_ante(&self) -> (r: bool)
        ensures
            r == self.antes(),
    ;

    fn get_round(&self) -> (r: u8)
        ensures
            r == self.round_of(),
    ;

    fn advance_round(&mut self)
        requires
            old(self).round_of() < 255,
        ensures
            final(self).round_of() == old(self).round_of() + 1,
            final(self).deck_of() == old(self).deck_of(),
            final(self).antes() == old(self).antes(),
    ;

    fn get_deck(&self) -> (r: Deck)
        ensures
            r.0@ == self.deck_of(),
    ;

    /// A move of the player's own that only this game knows; `Err("[BET]")` when the
    /// command is a betting move for the table instead.
    fn client_action(&mut self, player: &mut Player, parts: &[&str]) -> (r: Result<(), &'static str>)
        requires
            old(self).action_safe(old(player).hand.0@, parts@),
        ensures
            old(self).action_step(*old(player), parts@, *final(self), *final(player), r),
            same_but_hand(*old(player), *final(player)),
            final(self).round_of() == old(self).round_of(),
            final(self).antes() == old(self).antes(),
    ;

    /// Does what the current round asks: deals around the table, starting where `walk`
    /// starts, in the active ring (`active_walk`) or around every seat (`full_walk`).
    /// Returns whether the hand is over.
    fn handle_round_action(&mut self, players: &mut Vec<Player>, active_walk: &[usize], full_walk: &[usize]) -> (r: bool)
        requires
            walk_in_bounds(active_walk@, old(players)@.len()),
            walk_in_bounds(full_walk@, old(players)@.len()),
        ensures
            same_but_hands(old(players)@, final(players)@),
            final(self).round_of() == old(self).round_of(),
            final(self).antes() == old(self).antes(),
            old(self).round_step(old(players)@, active_walk@, full_walk@, *final(self), final(players)@, r),
            old(self).round_of() == 0 ==> !r,
            r ==> *final(self) == *old(self) && *final(players) == *old(players),
    ;

    fn deal_to_player(&mut self, player: &mut Player) -> (r: Result<(), String>)
        ensures
            same_but_hand(*old(player), *final(player)),
            r is Ok,
            final(self).round_of() == old(self).round_of(),
            final(self).antes() == old(self).antes(),
    ;

    /// Back to round 0 with a freshly shuffled deck.
    fn start_game(&mut self)
        ensures
            final(self).round_of() == 0,
            final(self).deck_of().to_multiset() == standard_decks(1).to_multiset(),
            final(self).antes() == old(self).antes(),
    ;

    /// The id of the player with the best hand, as `Iterator::max_by` picks it.
    fn determine_winner(&self, players: &[(&u64, &Hand)]) -> (r: Option<u64>)
        ensures
            r == (if players@.len() == 0 {
                None
            } else {
                Some(*players@[last_best(Seq::new(players@.len(), |i: int| rank_of(self.showdown_cards(players@[i].1.0@))))].0)
            }),
    ;

    fn showdown_hand(&self, hand: &Hand) -> (r: Hand)
        ensures
            r.0@ == self.showdown_cards(hand.0@),
    ;

    fn to_broadcast(&self) -> (r: GameState)
        ensures
            r.round == self.round_of(),
            match r.community_cards {
                Some(c) => self.shared_cards() == Some(c@),
                None => self.shared_cards() is None,
            },
    ;

    fn to_string(&self) -> (r: String)
        ensures
            r@ == self.label(),
    ;
}

} // verus!
