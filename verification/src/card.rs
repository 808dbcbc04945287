//! Cards are single bytes: bits 0..3 hold the face value (1 = ace ... 13 = king),
//! bits 4..5 the suit, and bit 6 marks a card that lies face up.
use vstd::prelude::*;
use vstd::string::*;

verus! {

/// The suit stored in an encoded card.
pub open spec fn suit_of(c: u8) -> u8 {
    ((c / 16) % 4) as u8
}

/// The face value stored in an encoded card.
pub open spec fn value_of(c: u8) -> u8 {
    (c % 16) as u8
}

/// A card counts as face up when any bit above the suit is set.
pub open spec fn is_face_up(c: u8) -> bool {
    c >= 64
}

/// Packs a suit (bits 4..5) and a face value (bits 0..3) into one byte.
pub fn encode_card(suit: u8, value: u8) -> (r: u8)
    ensures
        r == ((suit << 4u8) | value),
        suit < 4 && value < 16 ==> r == suit * 16 + value,
{
    proof {
        assert(suit < 4 && value < 16 ==> ((suit << 4u8) | value) == suit * 16 + value)
            by (bit_vector);
    }
    (suit << 4) | value
}

/// Splits an encoded card into its suit and its face value.
pub fn decode_card(encoded: u8) -> (r: (u8, u8))
    ensures
        r.0 == suit_of(encoded),
        r.1 == value_of(encoded),
{
    proof {
        assert(((encoded >> 4u8) & 3u8) == (encoded / 16) % 4) by (bit_vector);
        assert((encoded & 15u8) == encoded % 16) by (bit_vector);
    }
    ((encoded >> 4) & 0x3, encoded & 0xF)
}

/// Decoding an encoded card gives back its suit and value.
pub proof fn lemma_decode_encode(suit: u8, value: u8)
    requires
        suit < 4,
        value < 16,
    ensures
        suit_of(((suit << 4u8) | value) as u8) == suit,
        value_of(((suit << 4u8) | value) as u8) == value,
{
    assert(suit < 4 && value < 16 ==> ((suit << 4u8) | value) == suit * 16 + value) by (bit_vector);
}

/// Turning a card over twice leaves it as it was.
pub proof fn lemma_flip_twice(c: u8)
    ensures
        ((c ^ 64u8) ^ 64u8) == c,
{
    assert(((c ^ 64u8) ^ 64u8) == c) by (bit_vector);
}

/// The symbol printed for a suit.
pub open spec fn suit_symbol(s: u8) -> Seq<char> {
    if s == 0 {
        seq!['♦']
    } else if s == 1 {
        seq!['♣']
    } else if s == 2 {
        seq!['♥']
    } else if s == 3 {
        seq!['♠']
    } else {
        seq!['?']
    }
}

/// The text printed for a face value; aces may be stored as 1 or as 14.
pub open spec fn value_label(v: u8) -> Seq<char> {
    if v == 1 || v == 14 {
        seq!['A']
    } else if v == 2 {
        seq!['2']
    } else if v == 3 {
        seq!['3']
    } else if v == 4 {
        seq!['4']
    } else if v == 5 {
        seq!['5']
    } else if v == 6 {
        seq!['6']
    } else if v == 7 {
        seq!['7']
    } else if v == 8 {
        seq!['8']
    } else if v == 9 {
        seq!['9']
    } else if v == 10 {
        seq!['1', '0']
    } else if v == 11 {
        seq!['J']
    } else if v == 12 {
        seq!['Q']
    } else if v == 13 {
        seq!['K']
    } else {
        seq!['?']
    }
}

/// How a card is shown: suit symbol then value, or `??` when the value is unknown.
pub open spec fn card_label(c: u8) -> Seq<char> {
    if value_label(value_of(c)) == seq!['?'] || suit_symbol(suit_of(c)) == seq!['?'] {
        seq!['?', '?']
    } else {
        suit_symbol(suit_of(c)) + value_label(value_of(c))
    }
}

pub fn suit_symbol_str(s: u8) -> (r: &'static str)
    ensures
        r@ == suit_symbol(s),
{
    if s == 0 {
        proof { reveal_strlit("♦"); }
        "♦"
    } else if s == 1 {
        proof { reveal_strlit("♣"); }
        "♣"
    } else if s == 2 {
        proof { reveal_strlit("♥"); }
        "♥"
    } else if s == 3 {
        proof { reveal_strlit("♠"); }
        "♠"
    } else {
        proof { reveal_strlit("?"); }
        "?"
    }
}


pub fn value_label_str(v: u8) -> (r: &'static str)
    ensures
        r@ == value_label(v),
{
    if v == 1 || v == 14 {
        proof { reveal_strlit("A"); }
        "A"
    } else if v == 2 {
        proof { reveal_strlit("2"); }
        "2"
    } else if v == 3 {
        proof { reveal_strlit("3"); }
        "3"
    } else if v == 4 {
        proof { reveal_strlit("4"); }
        "4"
    } else if v == 5 {
        proof { reveal_strlit("5"); }
        "5"
    } else if v == 6 {
        proof { reveal_strlit("6"); }
        "6"
    } else if v == 7 {
        proof { reveal_strlit("7"); }
        "7"
    } else if v == 8 {
        proof { reveal_strlit("8"); }
        "8"
    } else if v == 9 {
        proof { reveal_strlit("9"); }
        "9"
    } else if v == 10 {
        proof { reveal_strlit("10"); }
        "10"
    } else if v == 11 {
        proof { reveal_strlit("J"); }
        "J"
    } else if v == 12 {
        proof { reveal_strlit("Q"); }
        "Q"
    } else if v == 13 {
        proof { reveal_strlit("K"); }
        "K"
    } else {
        proof { reveal_strlit("?"); }
        "?"
    }
}

/// The text of one card, as `card_label` describes it.
pub fn card_text(c: u8) -> (r: String)
    ensures
        r@ == card_label(c),
{
    let (suit, value) = decode_card(c);
    let suit_str = suit_symbol_str(suit);
    let value_str = value_label_str(value);
    if value_str.unicode_len() == 1 && value_str.get_char(0) == '?' {
        proof { reveal_strlit("??"); }
        return String::from_str("??");
    }
    if suit_str.unicode_len() == 1 && suit_str.get_char(0) == '?' {
        proof { reveal_strlit("??"); }
        return String::from_str("??");
    }
    proof {
        assert(value_label(value) != seq!['?']);
        assert(suit_symbol(suit) != seq!['?']);
    }
    let mut s = String::from_str(suit_str);
    s.append(value_str);
    s
}

/// Cards shown one after another, separated by `, `.
pub open spec fn cards_label(cards: Seq<u8>) -> Seq<char>
    decreases cards.len(),
{
    if cards.len() == 0 {
        seq![]
    } else if cards.len() == 1 {
        card_label(cards[0])
    } else {
        cards_label(cards.drop_last()) + seq![',', ' '] + card_label(cards.last())
    }
}

/// The text of a row of cards, as `cards_label` describes it.
pub fn cards_text(cards: &[u8]) -> (r: String)
    ensures
        r@ == cards_label(cards@),
{
    let mut s = String::new();
    let n = cards.len();
    for i in 0..n
        invariant
            n == cards@.len(),
            s@ == cards_label(cards@.take(i as int)),
    {
        proof {
            assert(cards@.take(i + 1).drop_last() =~= cards@.take(i as int));
            assert(cards@.take(i + 1).last() == cards@[i as int]);
        }
        if i > 0 {
            proof { reveal_strlit(", "); }
            s.append(", ");
        } else {
            proof { assert(cards@.take(1) =~= seq![cards@[0]]); }
        }
        let t = card_text(cards[i]);
        s.append(t.as_str());
    }
    proof { assert(cards@.take(n as int) =~= cards@); }
    s
}

/// One playing card in its one-byte encoding.
#[derive(Debug, Clone, Copy)]
pub struct Card(pub u8);

impl Card {
    /// The blank card (encoding 0).
    pub fn new() -> (r: Card)
        ensures
            r.0 == 0,
    {
        Card(0)
    }

    pub fn from_encoded(card: u8) -> (r: Card)
        ensures
            r.0 == card,
    {
        Card(card)
    }

    pub fn from_suit_value(suit: u8, value: u8) -> (r: Card)
        ensures
            r.0 == ((suit << 4u8) | value),
            suit < 4 && value < 16 ==> r.0 == suit * 16 + value,
    {
        Card(encode_card(suit, value))
    }

    pub fn decode(&self) -> (r: (u8, u8))
        ensures
            r.0 == suit_of(self.0),
            r.1 == value_of(self.0),
    {
        decode_card(self.0)
    }

    /// Decodes the face-up flag together with suit and value.
    pub fn decode_f(&self) -> (r: (bool, u8, u8))
        ensures
            r.0 == is_face_up(self.0),
            r.1 == suit_of(self.0),
            r.2 == value_of(self.0),
    {
        let x = self.0;
        proof {
            assert(((x >> 6u8) != 0) == (x >= 64)) by (bit_vector);
        }
        let (s, v) = decode_card(x);
        (x >> 6 != 0, s, v)
    }

    /// Whether the card lies face up; the card is not changed.
    pub fn face_up(&mut self) -> (r: bool)
        ensures
            r == is_face_up(old(self).0),
            *final(self) == *old(self),
    {
        let x = self.0;
        proof {
            assert(((x >> 6u8) != 0) == (x >= 64)) by (bit_vector);
        }
        x >> 6 != 0
    }

    /// Toggles the face-up bit.
    pub fn flip(&mut self)
        ensures
            final(self).0 == (old(self).0 ^ 64u8),
            suit_of(final(self).0) == suit_of(old(self).0),
            value_of(final(self).0) == value_of(old(self).0),
            old(self).0 < 128 ==> is_face_up(final(self).0) == !is_face_up(old(self).0),
    {
        let x = self.0;
        proof {
            assert(((x ^ 64u8) / 16) % 4 == (x / 16) % 4) by (bit_vector);
            assert((x ^ 64u8) % 16 == x % 16) by (bit_vector);
            assert(x < 128 ==> (((x ^ 64u8) >= 64) == !(x >= 64))) by (bit_vector);
        }
        self.0 = x ^ 0x40;
    }

    /// Turns the card face up.
    pub fn flip_up(&mut self)
        ensures
            final(self).0 == (old(self).0 | 64u8),
            is_face_up(final(self).0),
            suit_of(final(self).0) == suit_of(old(self).0),
            value_of(final(self).0) == value_of(old(self).0),
    {
        let x = self.0;
        proof {
            assert((x | 64u8) >= 64) by (bit_vector);
            assert(((x | 64u8) / 16) % 4 == (x / 16) % 4) by (bit_vector);
            assert((x | 64u8) % 16 == x % 16) by (bit_vector);
        }
        self.0 = x | 0x40;
    }

    /// Turns the card face down, clearing every bit above the suit.
    pub fn flip_down(&mut self)
        ensures
            final(self).0 == old(self).0 % 64,
            !is_face_up(final(self).0),
            suit_of(final(self).0) == suit_of(old(self).0),
            value_of(final(self).0) == value_of(old(self).0),
    {
        let x = self.0;
        proof {
            assert((x & 0x3Fu8) == x % 64) by (bit_vector);
        }
        self.0 = x & 0x3F;
    }

    /// The card as text, for example `♥A`.
    pub fn to_string(&self) -> (r: String)
        ensures
            r@ == card_label(self.0),
    {
        card_text(self.0)
    }
}

} // verus!
