//! Five-card draw: five cards each, one round to replace cards, then the showdown.
use vstd::prelude::*;
use vstd::string::*;
use crate::card::value_of;
use crate::deck::Deck;
use crate::game::{Game, GameState, same_but_hand, fails_with, best_player, ranks_with, wins_showdown, deal_around, folded_flags, hands_of, last_best, same_but_hands, walk_in_bounds, cards_taken, deck_after};
use crate::hand::{Hand, rank_of};
use crate::player::Player;
use crate::text::{decimal, decimal_text, parse_u8, str_eq, unsigned_value};

verus! {

/// The first position of `x` in `s`, or -1.
pub open spec fn first_index(s: Seq<u8>, x: u8) -> int
    decreases s.len(),
{
    if s.len() == 0 {
        -1
    } else if s[0] == x {
        0
    } else if first_index(s.drop_first(), x) < 0 {
        -1
    } else {
        first_index(s.drop_first(), x) + 1
    }
}

/// `hand` without the first occurrence of each discarded card in turn; `None` as soon as
/// one of them is not there.
pub open spec fn remove_each(hand: Seq<u8>, discard: Seq<u8>) -> Option<Seq<u8>>
    decreases discard.len(),
{
    if discard.len() == 0 {
        Some(hand)
    } else if first_index(hand, discard[0]) < 0 {
        None
    } else {
        remove_each(hand.remove(first_index(hand, discard[0])), discard.drop_first())
    }
}

/// Every card is discarded no more often than the hand holds it.
pub open spec fn held_in(discard: Seq<u8>, hand: Seq<u8>) -> bool {
    forall|c: u8| #[trigger] discard.to_multiset().count(c) <= hand.to_multiset().count(c)
}

/// Taking the discarded cards out of a hand succeeds exactly when the hand holds them, and
/// leaves each card as often as the hand held it less as often as it was discarded.
pub proof fn lemma_remove_each_counts(hand: Seq<u8>, discard: Seq<u8>)
    ensures
        remove_each(hand, discard) is Some <==> held_in(discard, hand),
        remove_each(hand, discard) is Some ==> forall|c: u8|
            #[trigger] remove_each(hand, discard)->0.to_multiset().count(c) == hand.to_multiset().count(c)
                - discard.to_multiset().count(c),
    decreases discard.len(),
{
    broadcast use vstd::seq_lib::group_to_multiset_ensures;
    broadcast use vstd::multiset::group_multiset_axioms;

    if discard.len() == 0 {
        assert(discard.to_multiset() =~= vstd::multiset::Multiset::<u8>::empty());
    } else {
        let x = discard[0];
        let rest = discard.drop_first();
        assert(discard.remove(0) =~= rest);
        assert(rest.to_multiset() == discard.to_multiset().remove(x));
        assert(discard.contains(x));
        lemma_first_index(hand, x);
        let i = first_index(hand, x);
        if i < 0 {
            assert(!hand.contains(x));
            assert(discard.to_multiset().count(x) > hand.to_multiset().count(x));
        } else {
            let h2 = hand.remove(i);
            assert(h2.to_multiset() == hand.to_multiset().remove(hand[i]));
            assert(hand.contains(x));
            lemma_remove_each_counts(h2, rest);
            assert(held_in(rest, h2) == held_in(discard, hand)) by {
                if held_in(rest, h2) {
                    assert forall|c: u8| #[trigger] discard.to_multiset().count(c) <= hand.to_multiset().count(c) by {
                        assert(rest.to_multiset().count(c) <= h2.to_multiset().count(c));
                    }
                }
                if held_in(discard, hand) {
                    assert forall|c: u8| #[trigger] rest.to_multiset().count(c) <= h2.to_multiset().count(c) by {
                        assert(discard.to_multiset().count(c) <= hand.to_multiset().count(c));
                    }
                }
            }
        }
    }
}

/// No player counts as folded: a deal in Five Card Draw goes to every seat it walks.
pub open spec fn none_folded(n: nat) -> Seq<bool> {
    Seq::new(n, |k: int| false)
}

/// Replacing these cards would look at a card of an empty hand.
pub open spec fn discard_empties_hand(hand: Seq<u8>, discard: Seq<u8>) -> bool {
    discard.len() == 4 && match remove_each(hand, discard) {
        Some(t) => t.len() == 0,
        None => false,
    }
}

/// Why a replacement of these cards is refused, if it is.
pub open spec fn replace_error(hand: Seq<u8>, discard: Seq<u8>) -> Option<Seq<char>> {
    if discard.len() > 4 {
        Some("[ERROR] Discard less cards!!"@)
    } else if remove_each(hand, discard) is None {
        Some("Card not in hand"@)
    } else if discard.len() == 4 && value_of(remove_each(hand, discard)->0[0]) != 1 {
        Some("[ERROR] Can only discard 4 if last card is an ace!!"@)
    } else {
        None
    }
}

/// What replacing cards does: the error and nothing changed, or the new hand and deck.
pub open spec fn replaced(
    hand: Seq<u8>,
    deck: Seq<u8>,
    discard: Seq<u8>,
    r: Result<(), &str>,
    new_hand: Seq<u8>,
    new_deck: Seq<u8>,
) -> bool {
    match replace_error(hand, discard) {
        Some(msg) => fails_with(r, msg) && new_hand == hand && new_deck == deck,
        None => {
            &&& r is Ok
            &&& new_hand == remove_each(hand, discard)->0 + cards_taken(deck, discard.len())
            &&& new_deck == deck_after(deck, discard.len())
        },
    }
}

/// The card numbers after the command word, if each reads as a `u8`.
pub open spec fn parsed_cards(words: Seq<&str>) -> Option<Seq<u8>>
    decreases words.len(),
{
    if words.len() == 0 {
        Some(seq![])
    } else {
        match (parsed_cards(words.drop_last()), unsigned_value(words.last()@)) {
            (Some(cards), Some(v)) => if v <= 255 { Some(cards.push(v as u8)) } else { None },
            _ => None,
        }
    }
}

/// The command replaces cards: its first word is `REPLACE_CARDS`.
pub open spec fn is_replace_command(parts: Seq<&str>) -> bool {
    parts.len() >= 1 && parts[0]@ == "REPLACE_CARDS"@
}

pub struct FiveCardDraw {
    round: u8,
    deck: Deck,
}

proof fn lemma_first_index(s: Seq<u8>, x: u8)
    ensures
        -1 <= first_index(s, x) < s.len(),
        first_index(s, x) >= 0 ==> s[first_index(s, x)] == x,
        forall|k: int| 0 <= k < s.len() && s[k] == x ==> first_index(s, x) >= 0 && first_index(s, x) <= k,
    decreases s.len(),
{
    if s.len() > 0 {
        lemma_first_index(s.drop_first(), x);
        assert forall|k: int| 0 <= k < s.len() && s[k] == x implies first_index(s, x) >= 0 && first_index(s, x) <= k by {
            if k > 0 {
                assert(s.drop_first()[k - 1] == x);
            }
        }
    }
}

impl FiveCardDraw {
    pub closed spec fn round_spec(&self) -> u8 {
        self.round
    }

    pub closed spec fn deck_spec(&self) -> Seq<u8> {
        self.deck.0@
    }

    fn find_card(hand: &Vec<u8>, card: u8) -> (r: Option<usize>)
        ensures
            match r {
                Some(k) => k == first_index(hand@, card),
                None => first_index(hand@, card) < 0,
            },
    {
        proof { lemma_first_index(hand@, card); }
        let n = hand.len();
        for k in 0..n
            invariant
                n == hand@.len(),
                forall|j: int| 0 <= j < k ==> hand@[j] != card,
                -1 <= first_index(hand@, card) < hand@.len(),
                first_index(hand@, card) >= 0 ==> hand@[first_index(hand@, card)] == card,
                forall|j: int| 0 <= j < hand@.len() && hand@[j] == card ==> first_index(hand@, card) >= 0 && first_index(hand@, card) <= j,
        {
            if hand[k] == card {
                return Some(k);
            }
        }
        None
    }

    /// The cards named after the command word.
    fn parse_discards(parts: &[&str]) -> (r: Option<Vec<u8>>)
        requires
            parts@.len() >= 1,
        ensures
            match r {
                Some(d) => parsed_cards(parts@.drop_first()) == Some(d@),
                None => parsed_cards(parts@.drop_first()) is None,
            },
    {
        let mut discard: Vec<u8> = Vec::new();
        let n = parts.len();
        proof {
            assert(parts@.drop_first().take(0) =~= Seq::<&str>::empty());
        }
        for j in 1..n
            invariant
                n == parts@.len(),
                n >= 1,
                parsed_cards(parts@.drop_first().take(j - 1)) == Some(discard@),
        {
            proof {
                assert(parts@.drop_first().take(j as int).drop_last() =~= parts@.drop_first().take(j - 1));
                assert(parts@.drop_first().take(j as int).last() == parts@[j as int]);
            }
            match parse_u8(parts[j]) {
                Some(c) => {
                    discard.push(c);
                },
                None => {
                    proof {
                        lemma_parsed_prefix_none(parts@.drop_first(), j as int);
                    }
                    return None;
                },
            }
        }
        proof {
            assert(parts@.drop_first().take(n - 1) =~= parts@.drop_first());
        }
        Some(discard)
    }

    /// The hand without each discarded card in turn, if they are all there.
    fn remaining_after(hand: &Vec<u8>, discard: &Vec<u8>) -> (r: Option<Vec<u8>>)
        ensures
            match r {
                Some(t) => remove_each(hand@, discard@) == Some(t@),
                None => remove_each(hand@, discard@) is None,
            },
    {
        let mut temp = hand.clone();
        proof {
            assert(temp@ =~= hand@);
            assert(discard@.skip(0) =~= discard@);
        }
        let n = discard.len();
        for j in 0..n
            invariant
                n == discard@.len(),
                remove_each(hand@, discard@) == remove_each(temp@, discard@.skip(j as int)),
        {
            proof {
                assert(discard@.skip(j as int)[0] == discard@[j as int]);
                assert(discard@.skip(j as int).drop_first() =~= discard@.skip(j + 1));
            }
            proof { lemma_first_index(temp@, discard@[j as int]); }
            match FiveCardDraw::find_card(&temp, discard[j]) {
                Some(pos) => {
                    temp.remove(pos);
                },
                None => {
                    return None;
                },
            }
        }
        proof {
            assert(discard@.skip(n as int) =~= Seq::<u8>::empty());
        }
        Some(temp)
    }

    /// Swaps the discarded cards for as many new ones from the deck. At most four cards
    /// may go, and four only when the card kept is an ace.
    pub fn replace_cards(&mut self, player: &mut Player, discard: Vec<u8>) -> (r: Result<(), &'static str>)
        requires
            !discard_empties_hand(old(player).hand.0@, discard@),
        ensures
            replaced(old(player).hand.0@, old(self).deck_spec(), discard@, r, final(player).hand.0@, final(self).deck_spec()),
            same_but_hand(*old(player), *final(player)),
            final(self).round_spec() == old(self).round_spec(),
            discard@.len() <= 3 && remove_each(old(player).hand.0@, discard@) is Some ==> {
                let d = old(self).deck_spec();
                let k = if discard@.len() <= d.len() { discard@.len() as int } else { d.len() as int };
                &&& r is Ok
                &&& final(player).hand.0@ == remove_each(old(player).hand.0@, discard@)->0 + d.subrange(d.len() - k, d.len() as int)
                &&& final(self).deck_spec() == d.subrange(0, d.len() - k)
            },
            discard@.len() <= 3 && held_in(discard@, old(player).hand.0@) ==> r is Ok,
            r is Ok ==> forall|c: u8|
                #[trigger] final(player).hand.0@.to_multiset().count(c) + final(self).deck_spec().to_multiset().count(c)
                    == old(player).hand.0@.to_multiset().count(c) - discard@.to_multiset().count(c)
                    + old(self).deck_spec().to_multiset().count(c),
            discard@.len() > 4 ==> r is Err && final(player).hand == old(player).hand,
            remove_each(old(player).hand.0@, discard@) is None ==> r is Err && final(player).hand == old(player).hand,
    {
        proof {
            lemma_remove_each_counts(player.hand.0@, discard@);
        }
        if 4 < discard.len() {
            proof { reveal_strlit("[ERROR] Discard less cards!!"); }
            return Err("[ERROR] Discard less cards!!");
        }
        let mut temp = player.hand.0.clone();
        proof {
            assert(temp@ =~= player.hand.0@);
            assert(discard@.skip(0) =~= discard@);
        }
        let n = discard.len();
        for j in 0..n
            invariant
                n == discard@.len(),
                n <= 4,
                remove_each(old(player).hand.0@, discard@) == remove_each(temp@, discard@.skip(j as int)),
                remove_each(old(player).hand.0@, discard@) is Some <==> held_in(discard@, old(player).hand.0@),
        {
            proof {
                assert(discard@.skip(j as int)[0] == discard@[j as int]);
                assert(discard@.skip(j as int).drop_first() =~= discard@.skip(j + 1));
            }
            proof { lemma_first_index(temp@, discard@[j as int]); }
            match FiveCardDraw::find_card(&temp, discard[j]) {
                Some(pos) => {
                    temp.remove(pos);
                },
                None => {
                    proof { reveal_strlit("Card not in hand"); }
                    return Err("Card not in hand");
                },
            }
        }
        proof {
            assert(discard@.skip(n as int) =~= Seq::<u8>::empty());
        }
        if n == 4 {
            let (_, value) = crate::card::decode_card(temp[0]);
            if value != 1 {
                proof { reveal_strlit("[ERROR] Can only discard 4 if last card is an ace!!"); }
                return Err("[ERROR] Can only discard 4 if last card is an ace!!");
            }
        }
        let ghost kept = temp@;
        let ghost d0 = self.deck.0@;
        let mut new_cards = self.deck.deal(n);
        let ghost dealt = new_cards@;
        proof {
            assert(remove_each(kept, Seq::<u8>::empty()) == Some(kept));
            assert(remove_each(old(player).hand.0@, discard@) == Some(kept));
            let k = d0.len() - dealt.len();
            assert(d0 =~= d0.subrange(0, k) + dealt);
            vstd::seq_lib::lemma_multiset_commutative(d0.subrange(0, k), dealt);
            vstd::seq_lib::lemma_multiset_commutative(kept, dealt);
        }
        temp.append(&mut new_cards);
        player.hand.0 = temp;
        proof {
            broadcast use vstd::multiset::group_multiset_axioms;
            lemma_remove_each_counts(old(player).hand.0@, discard@);
            let k = d0.len() - dealt.len();
            assert(player.hand.0@ == kept + dealt);
            assert(self.deck.0@ == d0.subrange(0, k));
            assert forall|c: u8|
                #[trigger] player.hand.0@.to_multiset().count(c) + self.deck.0@.to_multiset().count(c)
                    == old(player).hand.0@.to_multiset().count(c) - discard@.to_multiset().count(c)
                    + d0.to_multiset().count(c) by {
                assert(remove_each(old(player).hand.0@, discard@)->0.to_multiset().count(c) == old(player).hand.0@.to_multiset().count(c)
                    - discard@.to_multiset().count(c));
                assert(remove_each(old(player).hand.0@, discard@)->0 == kept);
                assert((kept + dealt).to_multiset().count(c) == kept.to_multiset().count(c) + dealt.to_multiset().count(c));
                assert(d0.to_multiset().count(c) == d0.subrange(0, k).to_multiset().count(c) + dealt.to_multiset().count(c));
            }
        }
        Ok(())
    }
}

impl Game for FiveCardDraw {
    open spec fn round_of(&self) -> u8 {
        self.round_spec()
    }

    open spec fn deck_of(&self) -> Seq<u8> {
        self.deck_spec()
    }

    open spec fn antes(&self) -> bool {
        true
    }

    open spec fn showdown_cards(&self, hand: Seq<u8>) -> Seq<u8> {
        hand
    }

    open spec fn action_safe(&self, hand: Seq<u8>, parts: Seq<&str>) -> bool {
        self.round_of() == 1 && is_replace_command(parts) ==> match parsed_cards(parts.drop_first()) {
            Some(d) => !discard_empties_hand(hand, d),
            None => true,
        }
    }

    open spec fn label(&self) -> Seq<char> {
        "\n Five Card Draw:\n  Round: "@ + decimal(self.round_spec() as nat)
    }

    open spec fn shared_cards(&self) -> Option<Seq<u8>> {
        None
    }

    open spec fn round_step(
        &self,
        players: Seq<Player>,
        active_walk: Seq<usize>,
        full_walk: Seq<usize>,
        next: Self,
        next_players: Seq<Player>,
        ended: bool,
    ) -> bool {
        &&& self.round_spec() == 0 ==> (next.deck_spec(), hands_of(next_players)) == deal_around(
            self.deck_spec(),
            hands_of(players),
            none_folded(players.len()),
            active_walk,
            5,
        )
        &&& self.round_spec() != 0 ==> next_players == players && next.deck_spec() == self.deck_spec()
        &&& ended == (self.round_spec() > 2)
    }

    open spec fn action_step(
        &self,
        player: Player,
        parts: Seq<&str>,
        next: Self,
        next_player: Player,
        result: Result<(), &'static str>,
    ) -> bool {
        &&& self.round_spec() != 1 ==> fails_with(result, "[BET]"@)
        &&& self.round_spec() == 1 && !is_replace_command(parts) ==> fails_with(result, "[ERROR] REPLACE CARDS\n"@)
        &&& self.round_spec() == 1 && is_replace_command(parts) && parsed_cards(parts.drop_first()) is None
            ==> fails_with(result, "[ERROR] INVALID CARD\n"@)
        &&& result is Err && !(self.round_spec() == 1 && is_replace_command(parts) && parsed_cards(parts.drop_first()) is Some)
            ==> next_player == player && next.deck_spec() == self.deck_spec()
        &&& self.round_spec() == 1 && is_replace_command(parts) ==> match parsed_cards(parts.drop_first()) {
            Some(d) => replaced(player.hand.0@, self.deck_spec(), d, result, next_player.hand.0@, next.deck_spec()),
            None => true,
        }
    }

    fn is_action_safe(&self, hand: &Hand, parts: &[&str]) -> (r: bool) {
        if self.round != 1 {
            return true;
        }
        proof { reveal_strlit("REPLACE_CARDS"); }
        if parts.len() == 0 || !str_eq(parts[0], "REPLACE_CARDS") {
            return true;
        }
        let discard = match FiveCardDraw::parse_discards(parts) {
            Some(d) => d,
            None => {
                return true;
            },
        };
        if discard.len() != 4 {
            return true;
        }
        match FiveCardDraw::remaining_after(&hand.0, &discard) {
            Some(rest) => rest.len() != 0,
            None => true,
        }
    }

    fn new() -> (r: Self) {
        FiveCardDraw { round: 0, deck: Deck(Vec::new()) }
    }

    fn is_ante(&self) -> (r: bool) {
        true
    }

    fn get_round(&self) -> (r: u8) {
        self.round
    }

    fn advance_round(&mut self) {
        self.round = self.round + 1;
    }

    fn get_deck(&self) -> (r: Deck) {
        let cards = self.deck.0.clone();
        proof { assert(cards@ =~= self.deck.0@); }
        Deck(cards)
    }

    /// Outside round 1 every command is a betting move (`[BET]`). In round 1 the only
    /// move is `REPLACE_CARDS` followed by the cards to discard.
    fn client_action(&mut self, player: &mut Player, parts: &[&str]) -> (r: Result<(), &'static str>)
        ensures
            old(self).round_spec() != 1 ==> fails_with(r, "[BET]"@),
            old(self).round_spec() == 1 && !is_replace_command(parts@) ==> fails_with(r, "[ERROR] REPLACE CARDS\n"@),
            old(self).round_spec() == 1 && is_replace_command(parts@) && parsed_cards(parts@.drop_first()) is None
                ==> fails_with(r, "[ERROR] INVALID CARD\n"@),
            r is Err && !(old(self).round_spec() == 1 && is_replace_command(parts@) && parsed_cards(parts@.drop_first()) is Some)
                ==> *final(player) == *old(player) && final(self).deck_spec() == old(self).deck_spec(),
            old(self).round_spec() == 1 && is_replace_command(parts@) ==> match parsed_cards(parts@.drop_first()) {
                Some(d) => replaced(old(player).hand.0@, old(self).deck_spec(), d, r, final(player).hand.0@, final(self).deck_spec()),
                None => true,
            },
    {
        if self.round != 1 {
            proof { reveal_strlit("[BET]"); }
            return Err("[BET]");
        }
        proof { reveal_strlit("[ERROR] REPLACE CARDS\n"); }
        if parts.len() == 0 || !str_eq(parts[0], "REPLACE_CARDS") {
            return Err("[ERROR] REPLACE CARDS\n");
        }
        let mut discard: Vec<u8> = Vec::new();
        let n = parts.len();
        for j in 1..n
            invariant
                n == parts@.len(),
                n >= 1,
                parsed_cards(parts@.drop_first().take(j - 1)) == Some(discard@),
                old(self).round_spec() == 1,
                self.round == 1,
                self.deck.0@ == old(self).deck.0@,
                is_replace_command(parts@),
                *player == *old(player),
        {
            proof {
                assert(parts@.drop_first().take(j as int).drop_last() =~= parts@.drop_first().take(j - 1));
                assert(parts@.drop_first().take(j as int).last() == parts@[j as int]);
            }
            match parse_u8(parts[j]) {
                Some(c) => {
                    discard.push(c);
                },
                None => {
                    proof {
                        lemma_parsed_prefix_none(parts@.drop_first(), j as int);
                        reveal_strlit("[ERROR] INVALID CARD\n");
                    }
                    return Err("[ERROR] INVALID CARD\n");
                },
            }
        }
        proof {
            assert(parts@.drop_first().take(n - 1) =~= parts@.drop_first());
        }
        self.replace_cards(player, discard)
    }

    fn handle_round_action(&mut self, players: &mut Vec<Player>, active_walk: &[usize], full_walk: &[usize]) -> (r: bool)
        ensures
            old(self).round_spec() == 0 ==> (final(self).deck_spec(), hands_of(final(players)@)) == deal_around(
                old(self).deck_spec(),
                hands_of(old(players)@),
                none_folded(old(players)@.len()),
                active_walk@,
                5,
            ),
            old(self).round_spec() != 0 ==> final(players)@ == old(players)@ && final(self).deck_spec()
                == old(self).deck_spec(),
            r == (old(self).round_spec() > 2),
    {
        if self.round == 0 {
            let n = active_walk.len();
            let ghost folded = none_folded(players@.len());
            proof { assert(active_walk@.skip(0) =~= active_walk@); }
            for j in 0..n
                invariant
                    n == active_walk@.len(),
                    walk_in_bounds(active_walk@, players@.len()),
                    same_but_hands(old(players)@, players@),
                    folded == none_folded(old(players)@.len()),
                    self.round == 0,
                    deal_around(self.deck.0@, hands_of(players@), folded, active_walk@.skip(j as int), 5)
                        == deal_around(old(self).deck.0@, hands_of(old(players)@), folded, active_walk@, 5),
            {
                let i = active_walk[j];
                proof {
                    assert(active_walk@.skip(j as int)[0] == i);
                    assert(active_walk@.skip(j as int).drop_first() =~= active_walk@.skip(j + 1));
                }
                let ghost before = players@;
                let ghost deck_before = self.deck.0@;
                let _ = self.deal_to_player(&mut players[i]);
                proof {
                    assert(hands_of(players@) =~= hands_of(before).update(
                        i as int,
                        hands_of(before)[i as int] + cards_taken(deck_before, 5),
                    ));
                }
            }
            proof {
                assert(active_walk@.skip(n as int) =~= Seq::<usize>::empty());
            }
        } else if 2 < self.round {
            return true;
        }
        false
    }

    /// The player gets five cards from the end of the deck, whether folded or not.
    fn deal_to_player(&mut self, player: &mut Player) -> (r: Result<(), String>)
        ensures
            same_but_hand(*old(player), *final(player)),
            final(player).hand.0@ == old(player).hand.0@ + cards_taken(old(self).deck_spec(), 5),
            final(self).deck_spec() == deck_after(old(self).deck_spec(), 5),
    {
        let mut cards = self.deck.deal(5);
        player.hand.0.append(&mut cards);
        Ok(())
    }

    fn start_game(&mut self) {
        self.round = 0;
        self.deck = Deck::new(true, 1);
    }

    /// The best hand of the players' own cards wins.
    fn determine_winner(&self, players: &[(&u64, &Hand)]) -> (r: Option<u64>)
        ensures
            wins_showdown(players@, Seq::<u8>::empty(), r),
    {
        let none: Vec<u8> = Vec::new();
        proof {
            assert(none@ =~= Seq::<u8>::empty());
            assert(ranks_with(players@, none@) =~= Seq::new(players@.len(), |i: int| rank_of(self.showdown_cards(players@[i].1.0@)))) by {
                assert forall|i: int| 0 <= i < players@.len() implies players@[i].1.0@ + none@ == players@[i].1.0@ by {
                    assert(players@[i].1.0@ + none@ =~= players@[i].1.0@);
                }
            }
        }
        best_player(players, none.as_slice())
    }

    fn showdown_hand(&self, hand: &Hand) -> (r: Hand) {
        let cards = hand.0.clone();
        proof { assert(cards@ =~= hand.0@); }
        Hand(cards)
    }

    fn to_broadcast(&self) -> (r: GameState)
        ensures
            r.community_cards is None,
    {
        GameState { round: self.round, community_cards: None }
    }

    /// The game as text: its name and round.
    fn to_string(&self) -> (r: String)
        ensures
            r@ == "\n Five Card Draw:\n  Round: "@ + decimal(self.round_spec() as nat),
    {
        let mut s = String::from_str("\n Five Card Draw:\n  Round: ");
        s.append(decimal_text(self.round as u64).as_str());
        s
    }
}

proof fn lemma_parsed_prefix_none(words: Seq<&str>, j: int)
    requires
        1 <= j <= words.len(),
        parsed_cards(words.take(j)) is None,
    ensures
        parsed_cards(words) is None,
    decreases words.len(),
{
    if j < words.len() {
        assert(words.drop_last().take(j) =~= words.take(j));
        lemma_parsed_prefix_none(words.drop_last(), j);
    } else {
        assert(words.take(j) =~= words);
    }
}

} // verus!
