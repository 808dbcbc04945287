//! Texas hold'em: two cards each, then five shared cards over flop, turn and river.
use vstd::prelude::*;
use vstd::string::*;
use crate::card::{cards_label, cards_text};
use crate::deck::Deck;
use crate::game::{Game, GameState, best_player, ranks_with, wins_showdown, cards_taken, deal_around, deck_after, fails_with, folded_flags, hands_of, same_but_hand, same_but_hands, turned_up, walk_in_bounds};
use crate::hand::{Hand, rank_of};
use crate::player::Player;
use crate::text::{decimal, decimal_text};

verus! {

/// How many shared cards are turned up in a round (flop, turn, river).
pub open spec fn shared_in_round(round: u8) -> nat {
    if round == 1 {
        3
    } else if round == 2 || round == 3 {
        1
    } else {
        0
    }
}

/// The flop turns up the last three cards of the deck, the turn and the river the last one.
proof fn lemma_shared_deal(d: Seq<u8>, c: Seq<u8>, round: u8)
    ensures
        round == 1 && d.len() >= 3 ==> c + turned_up(cards_taken(d, shared_in_round(round))) == c + seq![
            d[d.len() - 3] | 64u8,
            d[d.len() - 2] | 64u8,
            d[d.len() - 1] | 64u8,
        ] && deck_after(d, shared_in_round(round)) == d.take(d.len() - 3),
        (round == 2 || round == 3) && d.len() >= 1 ==> c + turned_up(cards_taken(d, shared_in_round(round)))
            == c.push(d[d.len() - 1] | 64u8) && deck_after(d, shared_in_round(round)) == d.take(d.len() - 1),
{
    let n = d.len();
    if round == 1 && n >= 3 {
        assert(turned_up(cards_taken(d, 3)) =~= seq![d[n - 3] | 64u8, d[n - 2] | 64u8, d[n - 1] | 64u8]);
        assert(deck_after(d, 3) =~= d.take(n - 3));
    }
    if (round == 2 || round == 3) && n >= 1 {
        assert(turned_up(cards_taken(d, 1)) =~= seq![d[n - 1] | 64u8]);
        assert(c + seq![d[n - 1] | 64u8] =~= c.push(d[n - 1] | 64u8));
        assert(deck_after(d, 1) =~= d.take(n - 1));
    }
}

pub struct TexasHoldem {
    round: u8,
    deck: Deck,
    community_cards: Hand,
}

impl TexasHoldem {
    pub closed spec fn round_spec(&self) -> u8 {
        self.round
    }

    pub closed spec fn deck_spec(&self) -> Seq<u8> {
        self.deck.0@
    }

    /// The shared cards on the table.
    pub closed spec fn community_spec(&self) -> Seq<u8> {
        self.community_cards.0@
    }

    pub fn community_len(&self) -> (r: usize)
        ensures
            r == self.community_spec().len(),
    {
        self.community_cards.0.len()
    }

    pub fn set_community_cards(&mut self, hand: Hand)
        ensures
            final(self).community_spec() == hand.0@,
            final(self).round_spec() == old(self).round_spec(),
            final(self).deck_spec() == old(self).deck_spec(),
    {
        self.community_cards = hand;
    }
}

impl Game for TexasHoldem {
    open spec fn round_of(&self) -> u8 {
        self.round_spec()
    }

    open spec fn deck_of(&self) -> Seq<u8> {
        self.deck_spec()
    }

    open spec fn antes(&self) -> bool {
        false
    }

    open spec fn showdown_cards(&self, hand: Seq<u8>) -> Seq<u8> {
        hand + self.community_spec()
    }

    open spec fn action_safe(&self, hand: Seq<u8>, parts: Seq<&str>) -> bool {
        true
    }

    open spec fn label(&self) -> Seq<char> {
        "\n Texas Hold'em:\n  Round: "@ + decimal(self.round_spec() as nat) + "\n  Community Cards: "@
            + cards_label(self.community_spec())
    }

    open spec fn shared_cards(&self) -> Option<Seq<u8>> {
        Some(self.community_spec())
    }

    open spec fn round_step(
        &self,
        players: Seq<Player>,
        active_walk: Seq<usize>,
        full_walk: Seq<usize>,
        next: Self,
        next_players: Seq<Player>,
        ended: bool,
    ) -> bool {
        &&& self.round_spec() == 0 ==> (next.deck_spec(), hands_of(next_players)) == deal_around(
            self.deck_spec(),
            hands_of(players),
            folded_flags(players),
            active_walk,
            2,
        ) && next.community_spec() == self.community_spec()
        &&& 1 <= self.round_spec() <= 3 ==> {
            let n = shared_in_round(self.round_spec());
            &&& next_players == players
            &&& next.community_spec() == self.community_spec() + turned_up(cards_taken(self.deck_spec(), n))
            &&& next.deck_spec() == deck_after(self.deck_spec(), n)
        }
        &&& self.round_spec() > 3 ==> next_players == players && next.deck_spec() == self.deck_spec()
            && next.community_spec() == self.community_spec()
        &&& ended == (self.round_spec() > 3)
    }

    open spec fn action_step(
        &self,
        player: Player,
        parts: Seq<&str>,
        next: Self,
        next_player: Player,
        result: Result<(), &'static str>,
    ) -> bool {
        &&& fails_with(result, "[BET]"@)
        &&& next_player == player
        &&& next.deck_spec() == self.deck_spec()
        &&& next.community_spec() == self.community_spec()
    }

    fn is_action_safe(&self, hand: &Hand, parts: &[&str]) -> (r: bool) {
        true
    }

    fn new() -> (r: Self)
        ensures
            r.community_spec() == Seq::<u8>::empty(),
    {
        TexasHoldem { round: 0, deck: Deck(Vec::new()), community_cards: Hand(Vec::new()) }
    }

    fn is_ante(&self) -> (r: bool) {
        false
    }

    fn get_round(&self) -> (r: u8) {
        self.round
    }

    fn advance_round(&mut self)
        ensures
            final(self).community_spec() == old(self).community_spec(),
    {
        self.round = self.round + 1;
    }

    fn get_deck(&self) -> (r: Deck) {
        let cards = self.deck.0.clone();
        proof { assert(cards@ =~= self.deck.0@); }
        Deck(cards)
    }

    /// Every command is a betting move here.
    fn client_action(&mut self, player: &mut Player, parts: &[&str]) -> (r: Result<(), &'static str>)
        ensures
            fails_with(r, "[BET]"@),
            *final(player) == *old(player),
            final(self).deck_spec() == old(self).deck_spec(),
            final(self).community_spec() == old(self).community_spec(),
    {
        proof { reveal_strlit("[BET]"); }
        Err("[BET]")
    }

    /// Round 0 deals two cards to each player in the active ring; rounds 1 to 3 turn up
    /// three, one and one shared cards; after that the hand is over.
    fn handle_round_action(&mut self, players: &mut Vec<Player>, active_walk: &[usize], full_walk: &[usize]) -> (r: bool)
        ensures
            old(self).round_spec() == 0 ==> (final(self).deck_spec(), hands_of(final(players)@)) == deal_around(
                old(self).deck_spec(),
                hands_of(old(players)@),
                folded_flags(old(players)@),
                active_walk@,
                2,
            ) && final(self).community_spec() == old(self).community_spec(),
            1 <= old(self).round_spec() <= 3 ==> {
                let n = shared_in_round(old(self).round_spec());
                &&& final(players)@ == old(players)@
                &&& final(self).community_spec() == old(self).community_spec() + turned_up(
                    cards_taken(old(self).deck_spec(), n),
                )
                &&& final(self).deck_spec() == deck_after(old(self).deck_spec(), n)
            },
            old(self).round_spec() > 3 ==> final(players)@ == old(players)@ && final(self).deck_spec()
                == old(self).deck_spec() && final(self).community_spec() == old(self).community_spec(),
            r == (old(self).round_spec() > 3),
            ({
                let d = old(self).deck_spec();
                let n = d.len();
                let c = old(self).community_spec();
                &&& old(self).round_spec() == 1 && n >= 3 ==> final(self).community_spec() == c + seq![
                    d[n - 3] | 64u8,
                    d[n - 2] | 64u8,
                    d[n - 1] | 64u8,
                ] && final(self).deck_spec() == d.take(n - 3)
                &&& (old(self).round_spec() == 2 || old(self).round_spec() == 3) && n >= 1 ==> final(self).community_spec()
                    == c.push(d[n - 1] | 64u8) && final(self).deck_spec() == d.take(n - 1)
            }),
    {
        proof {
            lemma_shared_deal(self.deck.0@, self.community_cards.0@, self.round);
        }
        if self.round == 0 {
            let n = active_walk.len();
            let ghost folded = folded_flags(players@);
            proof { assert(active_walk@.skip(0) =~= active_walk@); }
            for j in 0..n
                invariant
                    n == active_walk@.len(),
                    walk_in_bounds(active_walk@, players@.len()),
                    same_but_hands(old(players)@, players@),
                    folded == folded_flags(old(players)@),
                    self.round == 0,
                    self.community_cards.0@ == old(self).community_cards.0@,
                    deal_around(self.deck.0@, hands_of(players@), folded, active_walk@.skip(j as int), 2)
                        == deal_around(old(self).deck.0@, hands_of(old(players)@), folded, active_walk@, 2),
            {
                let i = active_walk[j];
                proof {
                    assert(active_walk@.skip(j as int)[0] == i);
                    assert(active_walk@.skip(j as int).drop_first() =~= active_walk@.skip(j + 1));
                    assert(folded[i as int] == players@[i as int].folded);
                }
                let ghost before = players@;
                let ghost deck_before = self.deck.0@;
                let _ = self.deal_to_player(&mut players[i]);
                proof {
                    if folded[i as int] {
                        assert(hands_of(players@) =~= hands_of(before));
                    } else {
                        assert(hands_of(players@) =~= hands_of(before).update(
                            i as int,
                            hands_of(before)[i as int] + cards_taken(deck_before, 2),
                        ));
                    }
                }
            }
            proof {
                assert(active_walk@.skip(n as int) =~= Seq::<usize>::empty());
            }
            false
        } else if self.round <= 3 {
            let k: usize = if self.round == 1 { 3 } else { 1 };
            let ghost d0 = self.deck.0@;
            let mut cards = self.deck.deal_face_up(k);
            proof {
                let taken = cards_taken(d0, k as nat);
                assert forall|i: int| 0 <= i < cards@.len() implies cards@[i] == turned_up(taken)[i] by {
                    assert(taken[i] == d0[d0.len() - taken.len() + i]);
                }
                assert(cards@ =~= turned_up(taken));
            }
            self.community_cards.0.append(&mut cards);
            false
        } else {
            true
        }
    }

    /// A player who has not folded gets two cards from the end of the deck.
    fn deal_to_player(&mut self, player: &mut Player) -> (r: Result<(), String>)
        ensures
            same_but_hand(*old(player), *final(player)),
            old(player).folded ==> *final(player) == *old(player) && final(self).deck_spec() == old(self).deck_spec(),
            !old(player).folded ==> final(player).hand.0@ == old(player).hand.0@ + cards_taken(
                old(self).deck_spec(),
                2,
            ) && final(self).deck_spec() == deck_after(old(self).deck_spec(), 2),
            final(self).community_spec() == old(self).community_spec(),
    {
        if player.folded {
            return Ok(());
        }
        let mut cards = self.deck.deal(2);
        player.hand.0.append(&mut cards);
        Ok(())
    }

    fn start_game(&mut self)
        ensures
            final(self).community_spec() == Seq::<u8>::empty(),
    {
        self.round = 0;
        self.deck = Deck::new(true, 1);
        self.community_cards = Hand::new();
    }

    /// Each player's hole cards are joined by all the community cards, and the best of
    /// those hands wins.
    fn determine_winner(&self, players: &[(&u64, &Hand)]) -> (r: Option<u64>)
        ensures
            wins_showdown(players@, self.community_spec(), r),
    {
        proof {
            assert(ranks_with(players@, self.community_cards.0@) =~= Seq::new(players@.len(), |i: int| rank_of(self.showdown_cards(players@[i].1.0@))));
        }
        best_player(players, self.community_cards.0.as_slice())
    }

    fn showdown_hand(&self, hand: &Hand) -> (r: Hand) {
        let mut cards = hand.0.clone();
        let mut shared = self.community_cards.0.clone();
        proof {
            assert(cards@ =~= hand.0@);
            assert(shared@ =~= self.community_cards.0@);
        }
        cards.append(&mut shared);
        Hand(cards)
    }

    fn to_broadcast(&self) -> (r: GameState)
        ensures
            r.community_cards matches Some(c) && c@ == self.community_spec(),
    {
        let shared = self.community_cards.0.clone();
        proof { assert(shared@ =~= self.community_cards.0@); }
        GameState { round: self.round, community_cards: Some(shared) }
    }

    /// The game as text: its name, round and shared cards.
    fn to_string(&self) -> (r: String)
        ensures
            r@ == "\n Texas Hold'em:\n  Round: "@ + decimal(self.round_spec() as nat) + "\n  Community Cards: "@
                + cards_label(self.community_spec()),
    {
        let mut s = String::from_str("\n Texas Hold'em:\n  Round: ");
        s.append(decimal_text(self.round as u64).as_str());
        s.append("\n  Community Cards: ");
        s.append(cards_text(self.community_cards.0.as_slice()).as_str());
        s
    }
}

} // verus!
