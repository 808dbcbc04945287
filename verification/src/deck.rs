//! A deck is the stack of encoded cards that a game deals from; cards leave from its end.
use vstd::prelude::*;
use rand::seq::SliceRandom;
use crate::card::{cards_label, cards_text, encode_card};

verus! {

/// The 52 cards of one deck in the order they are made: suits 0..3, each with values 1..13.
pub open spec fn one_deck() -> Seq<u8> {
    Seq::new(52, |i: int| ((i / 13) * 16 + i % 13 + 1) as u8)
}

/// `n` unshuffled decks one after another.
pub open spec fn standard_decks(n: nat) -> Seq<u8>
    decreases n,
{
    if n == 0 {
        seq![]
    } else {
        standard_decks((n - 1) as nat) + one_deck()
    }
}

/// How many cards a deal of `num_deal` takes from a stack of `len` cards.
pub open spec fn dealt_count(len: nat, num_deal: nat) -> nat {
    if num_deal < len { num_deal } else { len }
}

/// Calls rand's `SliceRandom::shuffle` with `rand::thread_rng()`. In rand 0.8 this is a
/// Fisher-Yates shuffle made only of swaps, so the same cards come out; their order is
/// left open.
#[verifier::external_body]
fn shuffle_cards(cards: &mut Vec<u8>)
    ensures
        final(cards)@.to_multiset() == old(cards)@.to_multiset(),
        final(cards)@.len() == old(cards)@.len(),
{
    cards.shuffle(&mut rand::thread_rng());
}

#[derive(Debug, Clone)]
pub struct Deck(pub Vec<u8>);

impl core::ops::Deref for Deck {
    type Target = Vec<u8>;

    fn deref(&self) -> (r: &Vec<u8>)
        ensures
            r == &self.0,
    {
        &self.0
    }
}

impl Deck {
    /// `num_decks` full decks, shuffled when `shuffle` is set.
    pub fn new(shuffle: bool, num_decks: usize) -> (r: Deck)
        ensures
            !shuffle ==> r.0@ == standard_decks(num_decks as nat),
            shuffle ==> r.0@.to_multiset() == standard_decks(num_decks as nat).to_multiset(),
            r.0@.len() == 52 * num_decks,
    {
        let mut decks: Vec<u8> = Vec::new();
        for d in 0..num_decks
            invariant
                decks@ == standard_decks(d as nat),
                decks@.len() == 52 * d,
        {
            let ghost start = decks@;
            for suit in 0..4u8
                invariant
                    decks@ == start + one_deck().take(suit * 13),
                    start == standard_decks(d as nat),
                    start.len() == 52 * d,
            {
                for value in 1..14u8
                    invariant
                        1 <= value <= 14,
                        suit < 4,
                        decks@ == start + one_deck().take(suit * 13 + value - 1),
                {
                    let c = encode_card(suit, value);
                    proof {
                        let k = suit * 13 + value - 1;
                        assert(k / 13 == suit && k % 13 == value - 1) by (nonlinear_arith)
                            requires k == suit * 13 + value - 1, 1 <= value <= 13;
                        assert(one_deck()[k] == c);
                        assert(one_deck().take(k + 1) =~= one_deck().take(k).push(c));
                    }
                    decks.push(c);
                }
            }
            proof {
                assert(one_deck().take(52) =~= one_deck());
            }
        }
        if shuffle {
            shuffle_cards(&mut decks);
        }
        Deck(decks)
    }

    /// Takes `num_deal` cards (or all that are left) from the end of the deck.
    pub fn deal(&mut self, num_deal: usize) -> (r: Vec<u8>)
        ensures
            ({
                let len = old(self).0@.len();
                let k = dealt_count(len, num_deal as nat);
                &&& r@ == old(self).0@.subrange(len - k, len as int)
                &&& final(self).0@ == old(self).0@.subrange(0, len - k)
            }),
    {
        let len = self.0.len();
        let k = if num_deal < len { num_deal } else { len };
        self.0.split_off(len - k)
    }

    /// Deals like `deal` and turns the dealt cards face up.
    pub fn deal_face_up(&mut self, num_deal: usize) -> (r: Vec<u8>)
        ensures
            ({
                let len = old(self).0@.len();
                let k = dealt_count(len, num_deal as nat);
                &&& r@.len() == k
                &&& forall|i: int|
                    0 <= i < k ==> #[trigger] r@[i] == (old(self).0@[len - k + i] | 64u8)
                &&& final(self).0@ == old(self).0@.subrange(0, len - k)
            }),
    {
        let dealt = self.deal(num_deal);
        let mut out: Vec<u8> = Vec::new();
        let n = dealt.len();
        for i in 0..n
            invariant
                n == dealt@.len(),
                out@.len() == i,
                forall|j: int| 0 <= j < i ==> #[trigger] out@[j] == (dealt@[j] | 64u8),
        {
            out.push(dealt[i] | 0x40);
        }
        out
    }

    /// The deck as text, cards separated by `, `.
    pub fn to_string(&self) -> (r: String)
        ensures
            r@ == cards_label(self.0@),
    {
        cards_text(self.0.as_slice())
    }
}

} // verus!
