//! Seven-card stud: cards dealt around over five rounds, some face down, some face up.
use vstd::prelude::*;
use vstd::string::*;
use crate::deck::Deck;
use crate::game::{Game, GameState, best_player, ranks_with, wins_showdown, cards_taken, deck_after, fails_with, hands_of, same_but_hand, same_but_hands, turned_up, walk_in_bounds};
use crate::hand::{Hand, rank_of};
use crate::player::Player;
use crate::text::{decimal, decimal_text};

verus! {

/// How many cards each player gets in a round: (face down, face up).
pub open spec fn stud_cards(round: u8) -> (nat, nat) {
    if round == 0 {
        (2, 1)
    } else if 1 <= round <= 3 {
        (0, 1)
    } else if round == 4 {
        (1, 0)
    } else {
        (0, 0)
    }
}

/// One player's cards for the round: the face-down ones, then the face-up ones.
pub open spec fn stud_dealt(deck: Seq<u8>, round: u8) -> Seq<u8> {
    let (down, up) = stud_cards(round);
    cards_taken(deck, down) + turned_up(cards_taken(deck_after(deck, down), up))
}

/// The deck once a player has had the round's cards.
pub open spec fn stud_deck_after(deck: Seq<u8>, round: u8) -> Seq<u8> {
    let (down, up) = stud_cards(round);
    deck_after(deck_after(deck, down), up)
}

/// Going around `walk`, every player gets the round's cards.
pub open spec fn stud_around(deck: Seq<u8>, hands: Seq<Seq<u8>>, walk: Seq<usize>, round: u8) -> (Seq<u8>, Seq<Seq<u8>>)
    decreases walk.len(),
{
    if walk.len() == 0 {
        (deck, hands)
    } else {
        let i = walk[0] as int;
        stud_around(
            stud_deck_after(deck, round),
            hands.update(i, hands[i] + stud_dealt(deck, round)),
            walk.drop_first(),
            round,
        )
    }
}

pub struct SevenCardStud {
    round: u8,
    deck: Deck,
}

impl SevenCardStud {
    pub closed spec fn round_spec(&self) -> u8 {
        self.round
    }

    pub closed spec fn deck_spec(&self) -> Seq<u8> {
        self.deck.0@
    }
}

impl Game for SevenCardStud {
    open spec fn round_of(&self) -> u8 {
        self.round_spec()
    }

    open spec fn deck_of(&self) -> Seq<u8> {
        self.deck_spec()
    }

    open spec fn antes(&self) -> bool {
        true
    }

    open spec fn showdown_cards(&self, hand: Seq<u8>) -> Seq<u8> {
        hand
    }

    open spec fn action_safe(&self, hand: Seq<u8>, parts: Seq<&str>) -> bool {
        true
    }

    open spec fn label(&self) -> Seq<char> {
        "\n Seven Card Stud:\n  Round: "@ + decimal(self.round_spec() as nat) + "\n"@
    }

    open spec fn shared_cards(&self) -> Option<Seq<u8>> {
        None
    }

    open spec fn round_step(
        &self,
        players: Seq<Player>,
        active_walk: Seq<usize>,
        full_walk: Seq<usize>,
        next: Self,
        next_players: Seq<Player>,
        ended: bool,
    ) -> bool {
        &&& self.round_spec() <= 4 ==> (next.deck_spec(), hands_of(next_players)) == stud_around(
            self.deck_spec(),
            hands_of(players),
            full_walk,
            self.round_spec(),
        )
        &&& self.round_spec() > 4 ==> next_players == players && next.deck_spec() == self.deck_spec()
        &&& ended == (self.round_spec() > 4)
    }

    open spec fn action_step(
        &self,
        player: Player,
        parts: Seq<&str>,
        next: Self,
        next_player: Player,
        result: Result<(), &'static str>,
    ) -> bool {
        &&& fails_with(result, "[BET]"@)
        &&& next_player == player
        &&& next.deck_spec() == self.deck_spec()
    }

    fn is_action_safe(&self, hand: &Hand, parts: &[&str]) -> (r: bool) {
        true
    }

    fn new() -> (r: Self) {
        SevenCardStud { round: 0, deck: Deck(Vec::new()) }
    }

    fn is_ante(&self) -> (r: bool) {
        true
    }

    fn get_round(&self) -> (r: u8) {
        self.round
    }

    fn advance_round(&mut self) {
        self.round = self.round + 1;
    }

    fn get_deck(&self) -> (r: Deck) {
        let cards = self.deck.0.clone();
        proof { assert(cards@ =~= self.deck.0@); }
        Deck(cards)
    }

    /// Every command is a betting move here.
    fn client_action(&mut self, player: &mut Player, parts: &[&str]) -> (r: Result<(), &'static str>)
        ensures
            fails_with(r, "[BET]"@),
            *final(player) == *old(player),
            final(self).deck_spec() == old(self).deck_spec(),
    {
        proof { reveal_strlit("[BET]"); }
        Err("[BET]")
    }

    /// Until round 4 everyone, folded or not, gets the round's cards, going around all
    /// seats; after round 4 the hand is over.
    fn handle_round_action(&mut self, players: &mut Vec<Player>, active_walk: &[usize], full_walk: &[usize]) -> (r: bool)
        ensures
            old(self).round_spec() <= 4 ==> (final(self).deck_spec(), hands_of(final(players)@)) == stud_around(
                old(self).deck_spec(),
                hands_of(old(players)@),
                full_walk@,
                old(self).round_spec(),
            ),
            old(self).round_spec() > 4 ==> final(players)@ == old(players)@ && final(self).deck_spec()
                == old(self).deck_spec(),
            r == (old(self).round_spec() > 4),
    {
        if 4 < self.round {
            return true;
        }
        let n = full_walk.len();
        proof { assert(full_walk@.skip(0) =~= full_walk@); }
        for j in 0..n
            invariant
                n == full_walk@.len(),
                walk_in_bounds(full_walk@, players@.len()),
                same_but_hands(old(players)@, players@),
                self.round == old(self).round,
                stud_around(self.deck.0@, hands_of(players@), full_walk@.skip(j as int), self.round)
                    == stud_around(old(self).deck.0@, hands_of(old(players)@), full_walk@, self.round),
        {
            let i = full_walk[j];
            proof {
                assert(full_walk@.skip(j as int)[0] == i);
                assert(full_walk@.skip(j as int).drop_first() =~= full_walk@.skip(j + 1));
            }
            let ghost before = players@;
            let ghost deck_before = self.deck.0@;
            let _ = self.deal_to_player(&mut players[i]);
            proof {
                assert(hands_of(players@) =~= hands_of(before).update(
                    i as int,
                    hands_of(before)[i as int] + stud_dealt(deck_before, self.round),
                ));
            }
        }
        proof {
            assert(full_walk@.skip(n as int) =~= Seq::<usize>::empty());
        }
        false
    }

    /// The player gets the round's cards, folded or not.
    fn deal_to_player(&mut self, player: &mut Player) -> (r: Result<(), String>)
        ensures
            final(player).hand.0@ == old(player).hand.0@ + stud_dealt(old(self).deck_spec(), old(self).round_spec()),
            final(self).deck_spec() == stud_deck_after(old(self).deck_spec(), old(self).round_spec()),
            same_but_hand(*old(player), *final(player)),
            ({
                let d = old(self).deck_spec();
                let n = d.len();
                let round = old(self).round_spec();
                let hand = old(player).hand.0@;
                &&& round == 0 && n >= 3 ==> final(player).hand.0@ == hand + seq![d[n - 2], d[n - 1], d[n - 3] | 64u8]
                    && final(self).deck_spec() == d.take(n - 3)
                &&& 1 <= round <= 3 && n >= 1 ==> final(player).hand.0@ == hand.push(d[n - 1] | 64u8)
                    && final(self).deck_spec() == d.take(n - 1)
                &&& round == 4 && n >= 1 ==> final(player).hand.0@ == hand.push(d[n - 1])
                    && final(self).deck_spec() == d.take(n - 1)
                &&& round > 4 ==> final(player).hand.0@ == hand && final(self).deck_spec() == d
            }),
    {
        let (down, up): (usize, usize) = if self.round == 0 {
            (2, 1)
        } else if 1 <= self.round && self.round <= 3 {
            (0, 1)
        } else if self.round == 4 {
            (1, 0)
        } else {
            (0, 0)
        };
        let mut cards = self.deck.deal(down);
        player.hand.0.append(&mut cards);
        let ghost mid = self.deck.0@;
        let mut cards = self.deck.deal_face_up(up);
        proof {
            let d0 = old(self).deck.0@;
            assert(mid == deck_after(d0, down as nat));
            let taken = cards_taken(mid, up as nat);
            assert(cards@.len() == taken.len());
            assert forall|i: int| 0 <= i < cards@.len() implies cards@[i] == turned_up(taken)[i] by {
                assert(taken[i] == mid[mid.len() - taken.len() + i]);
            }
            assert(cards@ =~= turned_up(taken));
        }
        player.hand.0.append(&mut cards);
        proof {
            let d = old(self).deck.0@;
            let n = d.len();
            let hand = old(player).hand.0@;
            let round = old(self).round;
            if round == 0 && n >= 3 {
                assert(cards_taken(d, 2) =~= seq![d[n - 2], d[n - 1]]);
                assert(deck_after(d, 2) =~= d.take(n - 2));
                assert(cards_taken(d.take(n - 2), 1) =~= seq![d[n - 3]]);
                assert(turned_up(seq![d[n - 3]]) =~= seq![d[n - 3] | 64u8]);
                assert(stud_dealt(d, round) =~= seq![d[n - 2], d[n - 1], d[n - 3] | 64u8]);
                assert(stud_deck_after(d, round) =~= d.take(n - 3));
            } else if 1 <= round <= 3 && n >= 1 {
                assert(cards_taken(d, 0) =~= Seq::<u8>::empty());
                assert(deck_after(d, 0) =~= d);
                assert(cards_taken(d, 1) =~= seq![d[n - 1]]);
                assert(turned_up(seq![d[n - 1]]) =~= seq![d[n - 1] | 64u8]);
                assert(stud_dealt(d, round) =~= seq![d[n - 1] | 64u8]);
                assert(hand + seq![d[n - 1] | 64u8] =~= hand.push(d[n - 1] | 64u8));
                assert(stud_deck_after(d, round) =~= d.take(n - 1));
            } else if round == 4 && n >= 1 {
                assert(cards_taken(d, 1) =~= seq![d[n - 1]]);
                assert(deck_after(d, 1) =~= d.take(n - 1));
                assert(cards_taken(d.take(n - 1), 0) =~= Seq::<u8>::empty());
                assert(turned_up(Seq::<u8>::empty()) =~= Seq::<u8>::empty());
                assert(stud_dealt(d, round) =~= seq![d[n - 1]]);
                assert(hand + seq![d[n - 1]] =~= hand.push(d[n - 1]));
                assert(deck_after(d.take(n - 1), 0) =~= d.take(n - 1));
            } else if round > 4 {
                assert(cards_taken(d, 0) =~= Seq::<u8>::empty());
                assert(deck_after(d, 0) =~= d);
                assert(turned_up(Seq::<u8>::empty()) =~= Seq::<u8>::empty());
                assert(stud_dealt(d, round) =~= Seq::<u8>::empty());
                assert(hand + Seq::<u8>::empty() =~= hand);
            }
        }
        Ok(())
    }

    fn start_game(&mut self) {
        self.round = 0;
        self.deck = Deck::new(true, 1);
    }

    /// The best hand of the players' own cards wins.
    fn determine_winner(&self, players: &[(&u64, &Hand)]) -> (r: Option<u64>)
        ensures
            wins_showdown(players@, Seq::<u8>::empty(), r),
    {
        let none: Vec<u8> = Vec::new();
        proof {
            assert(none@ =~= Seq::<u8>::empty());
            assert(ranks_with(players@, none@) =~= Seq::new(players@.len(), |i: int| rank_of(self.showdown_cards(players@[i].1.0@)))) by {
                assert forall|i: int| 0 <= i < players@.len() implies players@[i].1.0@ + none@ == players@[i].1.0@ by {
                    assert(players@[i].1.0@ + none@ =~= players@[i].1.0@);
                }
            }
        }
        best_player(players, none.as_slice())
    }

    fn showdown_hand(&self, hand: &Hand) -> (r: Hand) {
        let cards = hand.0.clone();
        proof { assert(cards@ =~= hand.0@); }
        Hand(cards)
    }

    fn to_broadcast(&self) -> (r: GameState)
        ensures
            r.community_cards is None,
    {
        GameState { round: self.round, community_cards: None }
    }

    /// The game as text: its name and round.
    fn to_string(&self) -> (r: String)
        ensures
            r@ == "\n Seven Card Stud:\n  Round: "@ + decimal(self.round_spec() as nat) + "\n"@,
    {
        let mut s = String::from_str("\n Seven Card Stud:\n  Round: ");
        s.append(decimal_text(self.round as u64).as_str());
        s.append("\n");
        s
    }
}

} // verus!
