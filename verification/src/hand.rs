//! Hands of cards and their poker rank.
use vstd::prelude::*;
use std::collections::HashMap;
use std::cmp::Ordering;
use vstd::string::*;
use crate::card::{suit_of, value_of, decode_card, is_face_up, value_label, value_label_str, cards_label, cards_text};

verus! {

broadcast use vstd::std_specs::hash::group_hash_axioms;

// ---------------------------------------------------------------------------------------
// Counting and ordering face values
// ---------------------------------------------------------------------------------------

/// How often `v` occurs in `s`.
pub open spec fn count_of(s: Seq<u8>, v: u8) -> nat {
    s.filter(|x: u8| x == v).len()
}

/// The face values of a row of cards, in the same order.
pub open spec fn values_of(cards: Seq<u8>) -> Seq<u8> {
    cards.map_values(|c: u8| value_of(c))
}

/// Every occurrence of the values `hi, hi - 1, ..., 0` in `s`, largest first.
pub open spec fn desc_from(s: Seq<u8>, hi: int) -> Seq<u8>
    decreases hi + 1,
{
    if hi < 0 {
        seq![]
    } else {
        Seq::new(count_of(s, hi as u8), |i: int| hi as u8) + desc_from(s, hi - 1)
    }
}

/// `s` sorted from the largest value to the smallest.
pub open spec fn sorted_desc(s: Seq<u8>) -> Seq<u8> {
    desc_from(s, 255)
}

proof fn lemma_count_step(s: Seq<u8>, i: int, v: u8)
    requires
        0 <= i < s.len(),
    ensures
        count_of(s.take(i + 1), v) == count_of(s.take(i), v) + (if s[i] == v { 1int } else { 0int }),
{
    reveal_with_fuel(Seq::<_>::filter, 1);
    assert(s.take(i + 1).drop_last() =~= s.take(i));
    assert(s.take(i + 1).last() == s[i]);
}

/// Counts every value of `s` in a table of 256 entries.
fn value_counts(s: &[u8]) -> (counts: Vec<usize>)
    ensures
        counts@.len() == 256,
        forall|v: int| 0 <= v < 256 ==> #[trigger] counts@[v] == count_of(s@, v as u8),
{
    let mut counts: Vec<usize> = Vec::new();
    for v in 0..256usize
        invariant
            counts@.len() == v,
            forall|j: int| 0 <= j < v ==> #[trigger] counts@[j] == 0,
    {
        counts.push(0);
    }
    proof {
        assert(s@.take(0) =~= Seq::<u8>::empty());
        assert forall|v: int| 0 <= v < 256 implies #[trigger] counts@[v] == count_of(s@.take(0), v as u8) by {}
    }
    let n = s.len();
    for i in 0..n
        invariant
            n == s@.len(),
            counts@.len() == 256,
            forall|v: int| 0 <= v < 256 ==> #[trigger] counts@[v] == count_of(s@.take(i as int), v as u8),
            forall|v: int| 0 <= v < 256 ==> #[trigger] counts@[v] <= i,
    {
        let x = s[i];
        proof {
            assert forall|v: int| 0 <= v < 256 implies #[trigger] count_of(s@.take(i + 1), v as u8) == count_of(s@.take(i as int), v as u8) + (if s@[i as int] == v as u8 { 1int } else { 0int }) by {
                lemma_count_step(s@, i as int, v as u8);
            }
        }
        let c = counts[x as usize];
        counts.set(x as usize, c + 1);
    }
    proof {
        assert(s@.take(n as int) =~= s@);
    }
    counts
}

/// Sorts a row of values from largest to smallest.
pub fn sort_desc(s: &[u8]) -> (r: Vec<u8>)
    ensures
        r@ == sorted_desc(s@),
{
    let counts = value_counts(s);
    let mut out: Vec<u8> = Vec::new();
    let mut hi: usize = 256;
    while hi > 0
        invariant
            hi <= 256,
            counts@.len() == 256,
            forall|v: int| 0 <= v < 256 ==> #[trigger] counts@[v] == count_of(s@, v as u8),
            out@ + desc_from(s@, hi - 1) == sorted_desc(s@),
        decreases hi,
    {
        hi = hi - 1;
        let v = hi as u8;
        let c = counts[hi];
        let ghost before = out@;
        for j in 0..c
            invariant
                out@ == before + Seq::new(j as nat, |k: int| v),
        {
            out.push(v);
            proof {
                assert(out@ =~= before + Seq::new((j + 1) as nat, |k: int| v));
            }
        }
        proof {
            assert(desc_from(s@, hi as int) == Seq::new(count_of(s@, v), |i: int| v) + desc_from(s@, hi - 1));
            assert(out@ + desc_from(s@, hi - 1) =~= before + desc_from(s@, hi as int));
        }
    }
    proof {
        assert(desc_from(s@, -1) =~= Seq::<u8>::empty());
        assert(out@ =~= out@ + desc_from(s@, -1));
    }
    out
}


proof fn lemma_count_positive(s: Seq<u8>, v: u8)
    ensures
        (count_of(s, v) > 0) == s.contains(v),
    decreases s.len(),
{
    reveal_with_fuel(Seq::<_>::filter, 1);
    if s.len() > 0 {
        lemma_count_positive(s.drop_last(), v);
        assert(s =~= s.drop_last().push(s.last()));
        if s.drop_last().contains(v) {
            let k = choose|k: int| 0 <= k < s.drop_last().len() && s.drop_last()[k] == v;
            assert(s[k] == v);
        }
        if s.contains(v) && s.last() != v {
            let k = choose|k: int| 0 <= k < s.len() && s[k] == v;
            assert(s.drop_last()[k] == v);
        }
    }
}

// ---------------------------------------------------------------------------------------
// Ordering whole cards
// ---------------------------------------------------------------------------------------

/// Cards are ordered by face value, then by suit.
pub open spec fn card_key(c: u8) -> int {
    value_of(c) * 4 + suit_of(c)
}

/// The cards of `cards` whose key is `k`, `k - 1`, ..., 0, larger keys first; cards with
/// equal keys keep their order.
pub open spec fn cards_desc_from(cards: Seq<u8>, k: int) -> Seq<u8>
    decreases k + 1,
{
    if k < 0 {
        seq![]
    } else {
        cards.filter(|c: u8| card_key(c) == k) + cards_desc_from(cards, k - 1)
    }
}

/// The cards sorted from the highest (value, suit) to the lowest, a stable sort.
pub open spec fn sorted_cards_desc(cards: Seq<u8>) -> Seq<u8> {
    cards_desc_from(cards, 63)
}

fn key_of(c: u8) -> (k: u8)
    ensures
        k == card_key(c),
        k < 64,
{
    let (s, v) = decode_card(c);
    v * 4 + s
}

/// Sorts cards from the highest (value, suit) to the lowest, keeping the order of equal keys.
pub fn sort_cards_desc(cards: &[u8]) -> (r: Vec<u8>)
    ensures
        r@ == sorted_cards_desc(cards@),
{
    let mut out: Vec<u8> = Vec::new();
    let n = cards.len();
    let mut k: usize = 64;
    while k > 0
        invariant
            k <= 64,
            n == cards@.len(),
            out@ + cards_desc_from(cards@, k - 1) == sorted_cards_desc(cards@),
        decreases k,
    {
        k = k - 1;
        let ghost before = out@;
        let ghost key = k as int;
        for i in 0..n
            invariant
                n == cards@.len(),
                key == k,
                k < 64,
                out@ == before + cards@.take(i as int).filter(|c: u8| card_key(c) == key),
        {
            let c = cards[i];
            proof {
                reveal_with_fuel(Seq::<_>::filter, 1);
                assert(cards@.take(i + 1).drop_last() =~= cards@.take(i as int));
                assert(cards@.take(i + 1).last() == c);
            }
            if key_of(c) as usize == k {
                out.push(c);
            }
        }
        proof {
            assert(cards@.take(n as int) =~= cards@);
            assert(out@ + cards_desc_from(cards@, k - 1) =~= before + cards_desc_from(cards@, k as int));
        }
    }
    proof {
        assert(out@ =~= out@ + cards_desc_from(cards@, -1));
    }
    out
}

// ---------------------------------------------------------------------------------------
// Straights
// ---------------------------------------------------------------------------------------

/// An ace (1) counts as 14 above the king.
pub open spec fn ace_high(v: u8) -> u8 {
    if v == 1 { 14 } else { v }
}

/// `w` occurs among the values once every ace is counted as 14.
pub open spec fn occurs_ace_high(values: Seq<u8>, w: int) -> bool {
    ||| w != 1 && 0 <= w < 256 && values.contains(w as u8)
    ||| w == 14 && values.contains(1)
}

/// Exactly the five values ace (as 1), 2, 3, 4, 5.
pub open spec fn is_wheel(values: Seq<u8>) -> bool {
    &&& values.len() == 5
    &&& forall|k: u8| 1 <= k <= 5 ==> values.contains(k)
}

/// `top, top - 1, ..., top - 4` all occur, aces counted as 14.
pub open spec fn run_at(values: Seq<u8>, top: int) -> bool {
    &&& occurs_ace_high(values, top)
    &&& occurs_ace_high(values, top - 1)
    &&& occurs_ace_high(values, top - 2)
    &&& occurs_ace_high(values, top - 3)
    &&& occurs_ace_high(values, top - 4)
}

/// The highest `t <= top` at which a run of five ends, or -1.
pub open spec fn highest_run(values: Seq<u8>, top: int) -> int
    decreases top,
{
    if top < 4 {
        -1
    } else if run_at(values, top) {
        top
    } else {
        highest_run(values, top - 1)
    }
}

/// The high card of a straight among `values`: 5 for exactly ace to five, else the top of
/// the highest run of five consecutive values with aces counted high.
pub open spec fn straight_high(values: Seq<u8>) -> Option<u8> {
    if is_wheel(values) {
        Some(5u8)
    } else if highest_run(values, 255) >= 0 {
        Some(highest_run(values, 255) as u8)
    } else {
        None
    }
}

fn occurs_in_counts(counts: &Vec<usize>, w: usize) -> (r: bool)
    requires
        counts@.len() == 256,
    ensures
        r == ((w != 1 && w < 256 && counts@[w as int] > 0) || (w == 14 && counts@[1] > 0)),
{
    (w != 1 && w < 256 && counts[w] > 0) || (w == 14 && counts[1] > 0)
}

impl Hand {
    /// The high card of a straight among the values, as `straight_high` says.
    pub fn check_straight(values: &[u8]) -> (r: Option<u8>)
        ensures
            r == straight_high(values@),
    {
        let counts = value_counts(values);
        proof {
            assert forall|v: int| 0 <= v < 256 implies (counts@[v] > 0) == values@.contains(v as u8) by {
                lemma_count_positive(values@, v as u8);
            }
        }
        if values.len() == 5 && counts[1] > 0 && counts[2] > 0 && counts[3] > 0 && counts[4] > 0
            && counts[5] > 0 {
            proof {
                assert forall|k: u8| 1 <= k <= 5 implies values@.contains(k) by {
                    assert(counts@[k as int] > 0);
                }
            }
            return Some(5);
        }
        proof {
            if is_wheel(values@) {
                assert(values@.contains(1u8) && values@.contains(2u8) && values@.contains(3u8)
                    && values@.contains(4u8) && values@.contains(5u8));
            }
        }
        let mut top: usize = 256;
        while top > 4
            invariant
                4 <= top <= 256,
                counts@.len() == 256,
                forall|v: int| 0 <= v < 256 ==> (#[trigger] counts@[v] > 0) == values@.contains(v as u8),
                highest_run(values@, 255) == highest_run(values@, top - 1),
                !is_wheel(values@),
            decreases top,
        {
            top = top - 1;
            let all = occurs_in_counts(&counts, top) && occurs_in_counts(&counts, top - 1)
                && occurs_in_counts(&counts, top - 2) && occurs_in_counts(&counts, top - 3)
                && occurs_in_counts(&counts, top - 4);
            if all {
                proof {
                    assert(run_at(values@, top as int));
                }
                return Some(top as u8);
            }
        }
        proof {
            assert(highest_run(values@, 3) == -1);
        }
        None
    }

    /// How often each value occurs; values that do not occur have no entry.
    pub fn count_values(values: &[u8]) -> (r: HashMap<u8, usize>)
        ensures
            forall|v: u8| #[trigger] r@.contains_key(v) == values@.contains(v),
            forall|v: u8| #[trigger] r@.contains_key(v) ==> r@[v] == count_of(values@, v),
    {
        let mut counts: HashMap<u8, usize> = HashMap::new();
        let n = values.len();
        for i in 0..n
            invariant
                n == values@.len(),
                forall|v: u8| #[trigger] counts@.contains_key(v) == (count_of(values@.take(i as int), v) > 0),
                forall|v: u8| #[trigger] counts@.contains_key(v) ==> counts@[v] == count_of(values@.take(i as int), v),
                forall|v: u8| count_of(values@.take(i as int), v) <= i,
        {
            let x = values[i];
            proof {
                assert forall|v: u8| #[trigger] count_of(values@.take(i + 1), v) == count_of(values@.take(i as int), v) + (if values@[i as int] == v { 1int } else { 0int }) by {
                    lemma_count_step(values@, i as int, v);
                }
            }
            let c: usize = match counts.get(&x) {
                Some(c) => *c,
                None => 0,
            };
            counts.insert(x, c + 1);
        }
        proof {
            assert(values@.take(n as int) =~= values@);
            assert forall|v: u8| #[trigger] counts@.contains_key(v) == values@.contains(v) by {
                lemma_count_positive(values@, v);
            }
        }
        counts
    }
}


// ---------------------------------------------------------------------------------------
// Groups of equal values
// ---------------------------------------------------------------------------------------

/// Groups of equal values are ranked by size, then by value: the key of value `v`.
pub open spec fn group_key(values: Seq<u8>, v: int) -> int {
    count_of(values, v as u8) * 256 + v
}

/// The largest group key among the values below `n` that occur and are not `excluded`;
/// -1 when there is none.
pub open spec fn best_group(values: Seq<u8>, excluded: int, n: int) -> int
    decreases n,
{
    if n <= 0 {
        -1
    } else {
        let rest = best_group(values, excluded, n - 1);
        let v = n - 1;
        if v != excluded && count_of(values, v as u8) > 0 && group_key(values, v) > rest {
            group_key(values, v)
        } else {
            rest
        }
    }
}

/// The key of the largest group of equal values (-1 for no values).
pub open spec fn first_group(values: Seq<u8>) -> int {
    best_group(values, -1, 256)
}

/// The key of the next largest group after the first (-1 when there is one value only).
pub open spec fn second_group(values: Seq<u8>) -> int {
    best_group(values, first_group(values) % 256, 256)
}

pub open spec fn excluded_key(o: Option<u8>) -> int {
    match o {
        Some(x) => x as int,
        None => -1,
    }
}

/// The largest group among the counted values other than `excluded`, as (size, value).
fn best_group_of(counts: &Vec<usize>, excluded: Option<u8>, Ghost(values): Ghost<Seq<u8>>) -> (r: Option<(usize, u8)>)
    requires
        counts@.len() == 256,
        forall|v: int| 0 <= v < 256 ==> #[trigger] counts@[v] == count_of(values, v as u8),
    ensures
        match r {
            None => best_group(values, excluded_key(excluded), 256) == -1,
            Some((c, b)) => {
                &&& best_group(values, excluded_key(excluded), 256) == c * 256 + b
                &&& c == count_of(values, b)
                &&& c > 0
            },
        },
{
    let mut best: Option<(usize, u8)> = None;
    let ghost ex = excluded_key(excluded);
    for v in 0..256usize
        invariant
            counts@.len() == 256,
            forall|v: int| 0 <= v < 256 ==> #[trigger] counts@[v] == count_of(values, v as u8),
            ex == excluded_key(excluded),
            match best {
                None => best_group(values, ex, v as int) == -1,
                Some((c, b)) => {
                    &&& best_group(values, ex, v as int) == c * 256 + b
                    &&& c == count_of(values, b)
                    &&& c > 0
                    &&& b < v
                },
            },
    {
        let c = counts[v];
        let skip = match excluded {
            Some(x) => x as usize == v,
            None => false,
        };
        if c > 0 && !skip {
            match best {
                None => {
                    best = Some((c, v as u8));
                },
                Some((bc, bv)) => {
                    proof {
                        assert((c * 256 + v > bc * 256 + bv) == (c >= bc)) by (nonlinear_arith)
                            requires bv < v, v < 256;
                    }
                    if c >= bc {
                        best = Some((c, v as u8));
                    }
                },
            }
        }
    }
    best
}

// ---------------------------------------------------------------------------------------
// Smaller pieces of an evaluation
// ---------------------------------------------------------------------------------------

/// The values other than `q`, in their order.
pub fn without_value(values: &[u8], q: u8) -> (r: Vec<u8>)
    ensures
        r@ == values@.filter(|x: u8| x != q),
{
    let mut out: Vec<u8> = Vec::new();
    let n = values.len();
    for i in 0..n
        invariant
            n == values@.len(),
            out@ == values@.take(i as int).filter(|x: u8| x != q),
    {
        proof {
            reveal_with_fuel(Seq::<_>::filter, 1);
            assert(values@.take(i + 1).drop_last() =~= values@.take(i as int));
        }
        if values[i] != q {
            out.push(values[i]);
        }
    }
    proof { assert(values@.take(n as int) =~= values@); }
    out
}

/// The values other than `p1` and `p2`, in their order.
pub fn without_values(values: &[u8], p1: u8, p2: u8) -> (r: Vec<u8>)
    ensures
        r@ == values@.filter(|x: u8| x != p1 && x != p2),
{
    let mut out: Vec<u8> = Vec::new();
    let n = values.len();
    for i in 0..n
        invariant
            n == values@.len(),
            out@ == values@.take(i as int).filter(|x: u8| x != p1 && x != p2),
    {
        proof {
            reveal_with_fuel(Seq::<_>::filter, 1);
            assert(values@.take(i + 1).drop_last() =~= values@.take(i as int));
        }
        if values[i] != p1 && values[i] != p2 {
            out.push(values[i]);
        }
    }
    proof { assert(values@.take(n as int) =~= values@); }
    out
}

/// All cards share one suit.
pub open spec fn all_same_suit(cards: Seq<u8>) -> bool {
    forall|i: int| 0 <= i < cards.len() ==> #[trigger] suit_of(cards[i]) == suit_of(cards[0])
}

fn same_suit(cards: &[u8]) -> (r: bool)
    requires
        cards@.len() > 0,
    ensures
        r == all_same_suit(cards@),
{
    let (first, _) = decode_card(cards[0]);
    let n = cards.len();
    for i in 0..n
        invariant
            n == cards@.len(),
            n > 0,
            first == suit_of(cards@[0]),
            forall|j: int| 0 <= j < i ==> #[trigger] suit_of(cards@[j]) == first,
    {
        let (s, _) = decode_card(cards[i]);
        if s != first {
            return false;
        }
    }
    true
}

/// The face values of the cards, in their order.
pub fn card_values(cards: &[u8]) -> (r: Vec<u8>)
    ensures
        r@ == values_of(cards@),
{
    let mut out: Vec<u8> = Vec::new();
    let n = cards.len();
    for i in 0..n
        invariant
            n == cards@.len(),
            out@ == values_of(cards@.take(i as int)),
    {
        let (_, v) = decode_card(cards[i]);
        out.push(v);
        proof {
            assert(out@ =~= values_of(cards@.take(i + 1)));
        }
    }
    proof { assert(cards@.take(n as int) =~= cards@); }
    out
}


// ---------------------------------------------------------------------------------------
// Ranks
// ---------------------------------------------------------------------------------------

/// The rank of a hand. The last field of each variant holds the cards sorted by
/// `sorted_cards_desc`; the others hold values, aces counted as 14 where noted.
#[derive(Debug, Clone, PartialEq, Eq)]
pub enum HandRank {
    NoCards(),
    /// Values sorted from high to low, then the sorted cards.
    HighCard(Vec<u8>, Vec<u8>),
    /// Pair value (ace high), the other values in hand order, the sorted cards.
    OnePair(u8, Vec<u8>, Vec<u8>),
    /// Higher pair, lower pair (ace high), the other values in hand order, the sorted cards.
    TwoPair(u8, u8, Vec<u8>, Vec<u8>),
    /// Triple value (ace high), the other values in hand order, the sorted cards.
    ThreeOfAKind(u8, Vec<u8>, Vec<u8>),
    /// High card of the straight, the sorted cards.
    Straight(u8, Vec<u8>),
    /// Values sorted from high to low, the sorted cards.
    Flush(Vec<u8>, Vec<u8>),
    /// Triple value, pair value (ace high), the sorted cards.
    FullHouse(u8, u8, Vec<u8>),
    /// Quad value (ace high), the other values in hand order, the sorted cards.
    FourOfAKind(u8, Vec<u8>, Vec<u8>),
    /// High card of the straight, the sorted cards.
    StraightFlush(u8, Vec<u8>),
    /// The sorted cards.
    RoyalFlush(Vec<u8>),
}

/// A `HandRank` with its vectors taken as sequences.
pub enum RankModel {
    NoCards,
    HighCard(Seq<u8>, Seq<u8>),
    OnePair(u8, Seq<u8>, Seq<u8>),
    TwoPair(u8, u8, Seq<u8>, Seq<u8>),
    ThreeOfAKind(u8, Seq<u8>, Seq<u8>),
    Straight(u8, Seq<u8>),
    Flush(Seq<u8>, Seq<u8>),
    FullHouse(u8, u8, Seq<u8>),
    FourOfAKind(u8, Seq<u8>, Seq<u8>),
    StraightFlush(u8, Seq<u8>),
    RoyalFlush(Seq<u8>),
}

impl View for HandRank {
    type V = RankModel;

    open spec fn view(&self) -> RankModel {
        match self {
            HandRank::NoCards() => RankModel::NoCards,
            HandRank::HighCard(a, b) => RankModel::HighCard(a@, b@),
            HandRank::OnePair(v, a, b) => RankModel::OnePair(*v, a@, b@),
            HandRank::TwoPair(v, w, a, b) => RankModel::TwoPair(*v, *w, a@, b@),
            HandRank::ThreeOfAKind(v, a, b) => RankModel::ThreeOfAKind(*v, a@, b@),
            HandRank::Straight(v, b) => RankModel::Straight(*v, b@),
            HandRank::Flush(a, b) => RankModel::Flush(a@, b@),
            HandRank::FullHouse(v, w, b) => RankModel::FullHouse(*v, *w, b@),
            HandRank::FourOfAKind(v, a, b) => RankModel::FourOfAKind(*v, a@, b@),
            HandRank::StraightFlush(v, b) => RankModel::StraightFlush(*v, b@),
            HandRank::RoyalFlush(b) => RankModel::RoyalFlush(b@),
        }
    }
}

/// The rank of a hand of encoded cards.
///
/// Values are grouped by how often they occur; the first group is the largest (ties to the
/// larger raw value, an ace counting 1), the second the next. Straights and flushes are
/// found as `straight_high` and `all_same_suit` say, and the categories are tried from
/// royal flush down to high card.
pub open spec fn rank_of(cards: Seq<u8>) -> RankModel {
    if cards.len() == 0 {
        RankModel::NoCards
    } else {
        let values = values_of(cards);
        let sorted = sorted_cards_desc(cards);
        let flush = all_same_suit(cards);
        let high = straight_high(values);
        let first = first_group(values);
        let second = second_group(values);
        let (c1, v1) = (first / 256, (first % 256) as u8);
        let (c2, v2) = (second / 256, (second % 256) as u8);
        if flush && high == Some(14u8) {
            RankModel::RoyalFlush(sorted)
        } else if flush && high is Some {
            RankModel::StraightFlush(high->0, sorted)
        } else if c1 == 4 {
            RankModel::FourOfAKind(ace_high(v1), values.filter(|x: u8| x != v1), sorted)
        } else if c1 == 3 && second >= 0 && c2 == 2 {
            RankModel::FullHouse(ace_high(v1), ace_high(v2), sorted)
        } else if flush {
            RankModel::Flush(sorted_desc(values), sorted)
        } else if high is Some {
            RankModel::Straight(high->0, sorted)
        } else if c1 == 3 {
            RankModel::ThreeOfAKind(ace_high(v1), values.filter(|x: u8| x != v1), sorted)
        } else if c1 == 2 && second >= 0 && c2 == 2 {
            let (a1, a2) = (ace_high(v1), ace_high(v2));
            RankModel::TwoPair(
                if a1 > a2 { a1 } else { a2 },
                if a1 > a2 { a2 } else { a1 },
                values.filter(|x: u8| x != v1 && x != v2),
                sorted,
            )
        } else if c1 == 2 {
            RankModel::OnePair(ace_high(v1), values.filter(|x: u8| x != v1), sorted)
        } else {
            RankModel::HighCard(sorted_desc(values), sorted)
        }
    }
}

/// The face value an ace-high value stands for: 14 is the ace, 1.
pub open spec fn ace_low(v: u8) -> u8 {
    if v == 14 { 1 } else { v }
}

/// Every card of the hand has a face value from 0 to 13.
pub open spec fn plain_values(cards: Seq<u8>) -> bool {
    forall|i: int| 0 <= i < cards.len() ==> value_of(#[trigger] cards[i]) <= 13
}

/// The values a rank names occur in the hand as often as the rank says: four times for
/// quads, three and two for a full house, three for a triple, twice for each pair (the
/// higher pair first).
pub open spec fn rank_counts_hold(cards: Seq<u8>, r: RankModel) -> bool {
    let values = values_of(cards);
    match r {
        RankModel::FourOfAKind(q, _, _) => count_of(values, ace_low(q)) == 4,
        RankModel::FullHouse(t, p, _) => count_of(values, ace_low(t)) == 3 && count_of(values, ace_low(p)) == 2,
        RankModel::ThreeOfAKind(t, _, _) => count_of(values, ace_low(t)) == 3,
        RankModel::TwoPair(h, l, _, _) => h > l && count_of(values, ace_low(h)) == 2 && count_of(values, ace_low(l)) == 2,
        RankModel::OnePair(p, _, _) => count_of(values, ace_low(p)) == 2,
        _ => true,
    }
}

/// The group that `best_group` picks is a value below `n`, other than the excluded one,
/// that occurs as often as its key says.
proof fn lemma_best_group(values: Seq<u8>, excluded: int, n: int)
    requires
        n <= 256,
    ensures
        best_group(values, excluded, n) >= -1,
        best_group(values, excluded, n) >= 0 ==> {
            let g = best_group(values, excluded, n);
            &&& 0 <= g % 256 < n
            &&& g % 256 != excluded
            &&& count_of(values, (g % 256) as u8) == g / 256
            &&& g / 256 > 0
        },
    decreases n,
{
    if n > 0 {
        lemma_best_group(values, excluded, n - 1);
        let v = n - 1;
        let c = count_of(values, v as u8);
        vstd::arithmetic::div_mod::lemma_fundamental_div_mod_converse(c * 256 + v, 256, c as int, v);
    }
}

/// The face at a place of a run: 14 is the ace (1), others stand for themselves.
pub open spec fn has_face(values: Seq<u8>, w: int) -> bool {
    if w == 14 {
        values.contains(1)
    } else {
        0 <= w < 256 && values.contains(w as u8)
    }
}

/// Every card has the suit of every other.
pub open spec fn suits_agree(cards: Seq<u8>) -> bool {
    forall|i: int, j: int| 0 <= i < cards.len() && 0 <= j < cards.len() ==> suit_of(#[trigger] cards[i]) == suit_of(#[trigger] cards[j])
}

/// The five faces `top, top - 1, ..., top - 4` are all in the hand.
pub open spec fn five_in_a_row(values: Seq<u8>, top: int) -> bool {
    forall|k: int| 0 <= k < 5 ==> #[trigger] has_face(values, top - k)
}

/// No value occurs more than four times, as in a single deck.
pub open spec fn at_most_four_each(values: Seq<u8>) -> bool {
    forall|v: u8| #[trigger] count_of(values, v) <= 4
}

/// What the kind of a rank says of the hand: flushes have one suit, straights five faces
/// in a row, and the other kinds no larger groups of equal values than they name (in a
/// hand with at most four cards of a value).
pub open spec fn rank_shape_holds(cards: Seq<u8>, r: RankModel) -> bool {
    let values = values_of(cards);
    match r {
        RankModel::RoyalFlush(_) => suits_agree(cards) && five_in_a_row(values, 14),
        RankModel::StraightFlush(h, _) => suits_agree(cards) && five_in_a_row(values, h as int),
        RankModel::Flush(_, _) => suits_agree(cards),
        RankModel::Straight(h, _) => !suits_agree(cards) && five_in_a_row(values, h as int),
        RankModel::FullHouse(_, _, _) => at_most_four_each(values) ==> forall|v: u8| #[trigger] count_of(values, v) <= 3,
        RankModel::ThreeOfAKind(_, _, _) => !suits_agree(cards) && (at_most_four_each(values) ==> forall|v: u8|
            #[trigger] count_of(values, v) <= 3),
        RankModel::TwoPair(_, _, _, _) => !suits_agree(cards) && (at_most_four_each(values) ==> forall|v: u8|
            #[trigger] count_of(values, v) <= 2),
        RankModel::OnePair(p, _, _) => !suits_agree(cards) && (at_most_four_each(values) ==> forall|v: u8|
            v != ace_low(p) ==> #[trigger] count_of(values, v) <= 1),
        RankModel::HighCard(_, _) => !suits_agree(cards) && (at_most_four_each(values) ==> forall|v: u8|
            #[trigger] count_of(values, v) <= 1),
        _ => true,
    }
}

/// `best_group` is at least the key of every value below `n`, other than the excluded
/// one, that occurs.
proof fn lemma_best_group_max(values: Seq<u8>, excluded: int, n: int, v: int)
    requires
        0 <= v < n,
        v != excluded,
        count_of(values, v as u8) > 0,
    ensures
        best_group(values, excluded, n) >= group_key(values, v),
    decreases n,
{
    if v < n - 1 {
        lemma_best_group_max(values, excluded, n - 1, v);
    }
}

/// A key of a larger group is larger: with values below 256, the counts compare as the
/// keys do.
proof fn lemma_key_counts(c1: int, v1: int, c: int, v: int)
    requires
        0 <= v1 < 256,
        0 <= v < 256,
        c >= 0,
        c1 * 256 + v1 >= c * 256 + v,
    ensures
        c1 >= c,
{
    assert(c1 >= c) by (nonlinear_arith)
        requires
            0 <= v1 < 256,
            0 <= v < 256,
            c1 * 256 + v1 >= c * 256 + v;
}

/// The last run of five that `highest_run` finds is there.
proof fn lemma_highest_run(values: Seq<u8>, top: int)
    ensures
        highest_run(values, top) >= 0 ==> run_at(values, highest_run(values, top)),
    decreases top,
{
    if top >= 4 && !run_at(values, top) {
        lemma_highest_run(values, top - 1);
    }
}

/// In a hand of plain values a face counted ace-high is a face of the hand.
proof fn lemma_occurs_has_face(cards: Seq<u8>, w: int)
    requires
        plain_values(cards),
        occurs_ace_high(values_of(cards), w),
    ensures
        has_face(values_of(cards), w),
{
    let values = values_of(cards);
    if w == 14 && values.contains(14) && !values.contains(1) {
        lemma_count_positive(values, 14);
        lemma_plain_value(cards, 14);
    }
}

/// The kind of the rank of a hand is what the hand shows: one suit for flushes, five faces
/// in a row for straights, and no larger groups than the kind names.
pub proof fn lemma_rank_shape(cards: Seq<u8>)
    requires
        plain_values(cards),
    ensures
        rank_shape_holds(cards, rank_of(cards)),
{
    if cards.len() == 0 {
        return;
    }
    let values = values_of(cards);
    let first = first_group(values);
    let second = second_group(values);
    lemma_best_group(values, -1, 256);
    lemma_best_group(values, first % 256, 256);
    let v1 = (first % 256) as u8;
    let c1 = first / 256;
    let c2 = second / 256;
    // The suits.
    if all_same_suit(cards) {
        assert forall|i: int, j: int| 0 <= i < cards.len() && 0 <= j < cards.len() implies suit_of(#[trigger] cards[i])
            == suit_of(#[trigger] cards[j]) by {
            assert(suit_of(cards[i]) == suit_of(cards[0]));
            assert(suit_of(cards[j]) == suit_of(cards[0]));
        }
    } else {
        if suits_agree(cards) {
            assert forall|i: int| 0 <= i < cards.len() implies #[trigger] suit_of(cards[i]) == suit_of(cards[0]) by {
                assert(suit_of(cards[i]) == suit_of(cards[0]));
            }
        }
    }
    // The straights.
    let high = straight_high(values);
    if high is Some {
        let h = high->0 as int;
        if is_wheel(values) {
            assert forall|k: int| 0 <= k < 5 implies #[trigger] has_face(values, h - k) by {
                let w = (5 - k) as u8;
                assert(1 <= w <= 5);
                assert(values.contains(w));
            }
        } else {
            lemma_highest_run(values, 255);
            assert forall|k: int| 0 <= k < 5 implies #[trigger] has_face(values, h - k) by {
                lemma_occurs_has_face(cards, h - k);
            }
        }
    }
    // The groups.
    if first >= 0 {
        assert(values.len() > 0);
        assert forall|v: u8| count_of(values, v) > 0 implies c1 >= #[trigger] count_of(values, v) by {
            lemma_best_group_max(values, -1, 256, v as int);
            lemma_key_counts(c1, first % 256, count_of(values, v) as int, v as int);
        }
        assert forall|v: u8| v != v1 && count_of(values, v) > 0 implies second >= 0 && c2 >= #[trigger] count_of(values, v) by {
            lemma_best_group_max(values, first % 256, 256, v as int);
            lemma_key_counts(c2, second % 256, count_of(values, v) as int, v as int);
        }
        lemma_plain_value(cards, v1);
    } else {
        lemma_count_positive(values, values[0]);
        lemma_best_group_max(values, -1, 256, values[0] as int);
    }
}

/// A value that occurs in a hand of plain values is at most 13.
proof fn lemma_plain_value(cards: Seq<u8>, v: u8)
    requires
        plain_values(cards),
        count_of(values_of(cards), v) > 0,
    ensures
        v <= 13,
        ace_low(ace_high(v)) == v,
{
    let values = values_of(cards);
    lemma_count_positive(values, v);
    let k = choose|k: int| 0 <= k < values.len() && values[k] == v;
    assert(values[k] == value_of(cards[k]));
}

/// What the rank of a hand names is there in the hand: the values of quads, full houses,
/// triples and pairs occur as often as the rank says.
pub proof fn lemma_rank_counts(cards: Seq<u8>)
    requires
        plain_values(cards),
    ensures
        rank_counts_hold(cards, rank_of(cards)),
{
    if cards.len() > 0 {
        let values = values_of(cards);
        let first = first_group(values);
        let second = second_group(values);
        lemma_best_group(values, -1, 256);
        lemma_best_group(values, first % 256, 256);
        let v1 = (first % 256) as u8;
        let v2 = (second % 256) as u8;
        if first >= 0 {
            lemma_plain_value(cards, v1);
        }
        if second >= 0 {
            lemma_plain_value(cards, v2);
        }
    }
}

fn ace_high_value(v: u8) -> (r: u8)
    ensures
        r == ace_high(v),
{
    if v == 1 { 14 } else { v }
}

/// A hand of encoded cards.
#[derive(Debug, Clone)]
pub struct Hand(pub Vec<u8>);

impl core::ops::Deref for Hand {
    type Target = Vec<u8>;

    fn deref(&self) -> (r: &Vec<u8>)
        ensures
            r == &self.0,
    {
        &self.0
    }
}

impl Hand {
    pub fn new() -> (r: Hand)
        ensures
            r.0@ == Seq::<u8>::empty(),
    {
        Hand(Vec::new())
    }

    /// The rank of the hand, as `rank_of` describes it.
    pub fn evaluate(&self) -> (r: HandRank)
        ensures
            r@ == rank_of(self.0@),
            plain_values(self.0@) ==> rank_counts_hold(self.0@, r@),
            plain_values(self.0@) ==> rank_shape_holds(self.0@, r@),
    {
        proof {
            if plain_values(self.0@) {
                lemma_rank_counts(self.0@);
                lemma_rank_shape(self.0@);
            }
        }
        if self.0.len() == 0 {
            return HandRank::NoCards();
        }
        let cards = self.0.as_slice();
        let values = card_values(cards);
        let sorted = sort_cards_desc(cards);
        let flush = same_suit(cards);
        let high = Hand::check_straight(values.as_slice());
        let counts = value_counts(values.as_slice());
        let ghost vs = values@;
        let first = best_group_of(&counts, None, Ghost(vs));
        proof {
            assert(first is Some) by {
                lemma_count_positive(vs, vs[0]);
                assert(vs.contains(vs[0]));
                lemma_best_group_found(vs, -1, 256, vs[0] as int);
            }
        }
        let (c1, v1) = match first {
            Some(p) => p,
            None => (0, 0),
        };
        let second = best_group_of(&counts, Some(v1), Ghost(vs));
        proof {
            assert(first_group(vs) == c1 * 256 + v1);
            assert((c1 * 256 + v1) / 256 == c1 && (c1 * 256 + v1) % 256 == v1) by (nonlinear_arith)
                requires v1 < 256;
            match second {
                Some((c2, v2)) => {
                    assert((c2 * 256 + v2) / 256 == c2 && (c2 * 256 + v2) % 256 == v2) by (nonlinear_arith)
                        requires v2 < 256;
                },
                None => {},
            }
        }
        let is_royal = match high {
            Some(h) => flush && h == 14,
            None => false,
        };
        if is_royal {
            return HandRank::RoyalFlush(sorted);
        }
        if flush {
            if let Some(h) = high {
                return HandRank::StraightFlush(h, sorted);
            }
        }
        if c1 == 4 {
            return HandRank::FourOfAKind(ace_high_value(v1), without_value(values.as_slice(), v1), sorted);
        }
        if c1 == 3 {
            if let Some((c2, v2)) = second {
                if c2 == 2 {
                    return HandRank::FullHouse(ace_high_value(v1), ace_high_value(v2), sorted);
                }
            }
        }
        if flush {
            return HandRank::Flush(sort_desc(values.as_slice()), sorted);
        }
        if let Some(h) = high {
            return HandRank::Straight(h, sorted);
        }
        if c1 == 3 {
            return HandRank::ThreeOfAKind(ace_high_value(v1), without_value(values.as_slice(), v1), sorted);
        }
        if c1 == 2 {
            if let Some((c2, v2)) = second {
                if c2 == 2 {
                    let a1 = ace_high_value(v1);
                    let a2 = ace_high_value(v2);
                    let (higher, lower) = if a1 > a2 { (a1, a2) } else { (a2, a1) };
                    return HandRank::TwoPair(higher, lower, without_values(values.as_slice(), v1, v2), sorted);
                }
            }
            return HandRank::OnePair(ace_high_value(v1), without_value(values.as_slice(), v1), sorted);
        }
        HandRank::HighCard(sort_desc(values.as_slice()), sorted)
    }
}

/// When some value other than `excluded` below `n` occurs, a best group exists.
proof fn lemma_best_group_found(values: Seq<u8>, excluded: int, n: int, v: int)
    requires
        0 <= v < n,
        v != excluded,
        count_of(values, v as u8) > 0,
    ensures
        best_group(values, excluded, n) >= 0,
    decreases n,
{
    if v < n - 1 {
        lemma_best_group_found(values, excluded, n - 1, v);
    }
}


// ---------------------------------------------------------------------------------------
// Comparing ranks
// ---------------------------------------------------------------------------------------

/// -1, 0 or 1 for less, equal or greater.
pub open spec fn ordering_sign(o: Ordering) -> int {
    match o {
        Ordering::Less => -1,
        Ordering::Equal => 0,
        Ordering::Greater => 1,
    }
}

/// -1, 0 or 1 as `a` is below, equal to or above `b`.
pub open spec fn sign_of(a: int, b: int) -> int {
    if a < b {
        -1
    } else if a > b {
        1
    } else {
        0
    }
}

/// -1, 0 or 1 as the byte `a` is below, equal to or above `b`.
pub open spec fn sign_u8(a: u8, b: u8) -> int {
    if a < b {
        -1
    } else if a > b {
        1
    } else {
        0
    }
}

/// The first comparison, unless it found the two equal.
pub open spec fn then_sign(first: int, next: int) -> int {
    if first != 0 { first } else { next }
}

/// Lexicographic order, first elements first; a proper prefix comes before.
pub open spec fn order_from_start(a: Seq<u8>, b: Seq<u8>) -> int
    decreases a.len(),
{
    if a.len() == 0 {
        if b.len() == 0 { 0 } else { -1 }
    } else if b.len() == 0 {
        1
    } else if a[0] != b[0] {
        sign_u8(a[0], b[0])
    } else {
        order_from_start(a.drop_first(), b.drop_first())
    }
}

/// Lexicographic order read from the last elements backwards.
pub open spec fn order_from_end(a: Seq<u8>, b: Seq<u8>) -> int
    decreases a.len(),
{
    if a.len() == 0 {
        if b.len() == 0 { 0 } else { -1 }
    } else if b.len() == 0 {
        1
    } else if a.last() != b.last() {
        sign_u8(a.last(), b.last())
    } else {
        order_from_end(a.drop_last(), b.drop_last())
    }
}

/// The category number of a rank, from 0 (no cards) to 10 (royal flush).
pub open spec fn category(r: RankModel) -> int {
    match r {
        RankModel::NoCards => 0,
        RankModel::HighCard(..) => 1,
        RankModel::OnePair(..) => 2,
        RankModel::TwoPair(..) => 3,
        RankModel::ThreeOfAKind(..) => 4,
        RankModel::Straight(..) => 5,
        RankModel::Flush(..) => 6,
        RankModel::FullHouse(..) => 7,
        RankModel::FourOfAKind(..) => 8,
        RankModel::StraightFlush(..) => 9,
        RankModel::RoyalFlush(..) => 10,
    }
}

/// How two ranks compare: first by category, then field by field. Kicker and value
/// lists of high cards and flushes are read from their last element back; the sorted
/// cards are compared from the front.
pub open spec fn rank_order(a: RankModel, b: RankModel) -> int {
    if category(a) != category(b) {
        sign_of(category(a), category(b))
    } else {
        match (a, b) {
            (RankModel::HighCard(av, ac), RankModel::HighCard(bv, bc)) =>
                then_sign(order_from_end(av, bv), order_from_start(ac, bc)),
            (RankModel::OnePair(va, ka, ac), RankModel::OnePair(vb, kb, bc)) =>
                then_sign(sign_u8(va, vb), then_sign(order_from_end(ka, kb), order_from_start(ac, bc))),
            (RankModel::TwoPair(a1, a2, ka, ac), RankModel::TwoPair(b1, b2, kb, bc)) =>
                then_sign(sign_u8(a1, b1), then_sign(sign_u8(a2, b2),
                    then_sign(order_from_end(ka, kb), order_from_start(ac, bc)))),
            (RankModel::ThreeOfAKind(va, ka, ac), RankModel::ThreeOfAKind(vb, kb, bc)) =>
                then_sign(sign_u8(va, vb), then_sign(order_from_end(ka, kb), order_from_start(ac, bc))),
            (RankModel::Straight(va, ac), RankModel::Straight(vb, bc)) =>
                then_sign(sign_u8(va, vb), order_from_start(ac, bc)),
            (RankModel::Flush(av, ac), RankModel::Flush(bv, bc)) =>
                then_sign(order_from_end(av, bv), order_from_start(ac, bc)),
            (RankModel::FullHouse(ta, pa, ac), RankModel::FullHouse(tb, pb, bc)) =>
                then_sign(sign_u8(ta, tb), then_sign(sign_u8(pa, pb), order_from_start(ac, bc))),
            (RankModel::FourOfAKind(va, ka, ac), RankModel::FourOfAKind(vb, kb, bc)) =>
                then_sign(sign_u8(va, vb), then_sign(order_from_end(ka, kb), order_from_start(ac, bc))),
            (RankModel::StraightFlush(va, ac), RankModel::StraightFlush(vb, bc)) =>
                then_sign(sign_u8(va, vb), order_from_start(ac, bc)),
            (RankModel::RoyalFlush(ac), RankModel::RoyalFlush(bc)) => order_from_start(ac, bc),
            _ => 0,
        }
    }
}

/// The kinds of poker hands from the weakest to the strongest: no cards, high card, one
/// pair, two pair, three of a kind, straight, flush, full house, four of a kind, straight
/// flush, royal flush.
pub open spec fn poker_ladder(r: RankModel) -> int {
    match r {
        RankModel::NoCards => 0,
        RankModel::HighCard(..) => 1,
        RankModel::OnePair(..) => 2,
        RankModel::TwoPair(..) => 3,
        RankModel::ThreeOfAKind(..) => 4,
        RankModel::Straight(..) => 5,
        RankModel::Flush(..) => 6,
        RankModel::FullHouse(..) => 7,
        RankModel::FourOfAKind(..) => 8,
        RankModel::StraightFlush(..) => 9,
        RankModel::RoyalFlush(..) => 10,
    }
}

/// The larger value wins, when the two differ.
pub open spec fn larger_wins(a: u8, b: u8, r: Ordering) -> bool {
    &&& a > b ==> r == Ordering::Greater
    &&& a < b ==> r == Ordering::Less
}

/// Between two hands of the same kind, the value that makes the hand decides first: the
/// pair, the higher pair (then the lower one), the triple, the quads, the top of the
/// straight, or the triple of a full house (then its pair).
pub open spec fn leading_values_decide(a: RankModel, b: RankModel, r: Ordering) -> bool {
    match (a, b) {
        (RankModel::OnePair(x, _, _), RankModel::OnePair(y, _, _)) => larger_wins(x, y, r),
        (RankModel::TwoPair(x1, x2, _, _), RankModel::TwoPair(y1, y2, _, _)) => larger_wins(x1, y1, r) && (x1
            == y1 ==> larger_wins(x2, y2, r)),
        (RankModel::ThreeOfAKind(x, _, _), RankModel::ThreeOfAKind(y, _, _)) => larger_wins(x, y, r),
        (RankModel::Straight(x, _), RankModel::Straight(y, _)) => larger_wins(x, y, r),
        (RankModel::FullHouse(x1, x2, _), RankModel::FullHouse(y1, y2, _)) => larger_wins(x1, y1, r) && (x1
            == y1 ==> larger_wins(x2, y2, r)),
        (RankModel::FourOfAKind(x, _, _), RankModel::FourOfAKind(y, _, _)) => larger_wins(x, y, r),
        (RankModel::StraightFlush(x, _), RankModel::StraightFlush(y, _)) => larger_wins(x, y, r),
        _ => true,
    }
}

fn order_u8(a: u8, b: u8) -> (r: Ordering)
    ensures
        ordering_sign(r) == sign_u8(a, b),
{
    if a < b {
        Ordering::Less
    } else if a > b {
        Ordering::Greater
    } else {
        Ordering::Equal
    }
}

fn then_ordering(first: Ordering, next: Ordering) -> (r: Ordering)
    ensures
        ordering_sign(r) == then_sign(ordering_sign(first), ordering_sign(next)),
{
    match first {
        Ordering::Equal => next,
        _ => first,
    }
}

/// Where two rows first differ, reading from the front.
fn first_difference(a: &[u8], b: &[u8]) -> (i: usize)
    ensures
        i <= a@.len(),
        i <= b@.len(),
        i < a@.len() && i < b@.len() ==> a@[i as int] != b@[i as int]
            && order_from_start(a@, b@) == sign_u8(a@[i as int], b@[i as int]),
        !(i < a@.len() && i < b@.len()) ==> order_from_start(a@, b@) == (if i < a@.len() {
            1int
        } else if i < b@.len() {
            -1int
        } else {
            0int
        }),
{
    let mut i: usize = 0;
    proof {
        assert(a@.skip(0) =~= a@);
        assert(b@.skip(0) =~= b@);
    }
    while i < a.len() && i < b.len()
        invariant
            i <= a@.len(),
            i <= b@.len(),
            order_from_start(a@, b@) == order_from_start(a@.skip(i as int), b@.skip(i as int)),
        decreases a@.len() - i,
    {
        proof {
            assert(a@.skip(i as int).drop_first() =~= a@.skip(i + 1));
            assert(b@.skip(i as int).drop_first() =~= b@.skip(i + 1));
        }
        if a[i] != b[i] {
            return i;
        }
        i = i + 1;
    }
    i
}

/// Where two rows first differ, reading from the back: the lengths of the parts left.
fn last_difference(a: &[u8], b: &[u8]) -> (r: (usize, usize))
    ensures
        r.0 <= a@.len(),
        r.1 <= b@.len(),
        r.0 > 0 && r.1 > 0 ==> a@[r.0 - 1] != b@[r.1 - 1]
            && order_from_end(a@, b@) == sign_u8(a@[r.0 - 1], b@[r.1 - 1]),
        !(r.0 > 0 && r.1 > 0) ==> order_from_end(a@, b@) == (if r.0 > 0 {
            1int
        } else if r.1 > 0 {
            -1int
        } else {
            0int
        }),
{
    let mut ia = a.len();
    let mut ib = b.len();
    proof {
        assert(a@.take(ia as int) =~= a@);
        assert(b@.take(ib as int) =~= b@);
    }
    while ia > 0 && ib > 0
        invariant
            ia <= a@.len(),
            ib <= b@.len(),
            order_from_end(a@, b@) == order_from_end(a@.take(ia as int), b@.take(ib as int)),
        decreases ia,
    {
        proof {
            assert(a@.take(ia as int).drop_last() =~= a@.take(ia - 1));
            assert(b@.take(ib as int).drop_last() =~= b@.take(ib - 1));
        }
        if a[ia - 1] != b[ib - 1] {
            return (ia, ib);
        }
        ia = ia - 1;
        ib = ib - 1;
    }
    proof {
        assert(a@.take(ia as int).len() == ia);
    }
    (ia, ib)
}

/// Compares two rows of values lexicographically from the front (Rust's order on vectors).
pub fn compare_from_start(a: &[u8], b: &[u8]) -> (r: Ordering)
    ensures
        ordering_sign(r) == order_from_start(a@, b@),
{
    let i = first_difference(a, b);
    if i < a.len() && i < b.len() {
        order_u8(a[i], b[i])
    } else if i < a.len() {
        Ordering::Greater
    } else if i < b.len() {
        Ordering::Less
    } else {
        Ordering::Equal
    }
}

impl HandRank {
    /// The category number, from 0 (no cards) to 10 (royal flush).
    pub fn rank_value(&self) -> (r: u8)
        ensures
            r == category(self@),
    {
        match self {
            HandRank::NoCards() => 0,
            HandRank::HighCard(_, _) => 1,
            HandRank::OnePair(_, _, _) => 2,
            HandRank::TwoPair(_, _, _, _) => 3,
            HandRank::ThreeOfAKind(_, _, _) => 4,
            HandRank::Straight(_, _) => 5,
            HandRank::Flush(_, _) => 6,
            HandRank::FullHouse(_, _, _) => 7,
            HandRank::FourOfAKind(_, _, _) => 8,
            HandRank::StraightFlush(_, _) => 9,
            HandRank::RoyalFlush(_) => 10,
        }
    }

    /// Compares two rows of values lexicographically from their last elements backwards.
    pub fn compare_values(a: &[u8], b: &[u8]) -> (r: Ordering)
        ensures
            ordering_sign(r) == order_from_end(a@, b@),
    {
        let (ia, ib) = last_difference(a, b);
        if ia > 0 && ib > 0 {
            order_u8(a[ia - 1], b[ib - 1])
        } else if ia > 0 {
            Ordering::Greater
        } else if ib > 0 {
            Ordering::Less
        } else {
            Ordering::Equal
        }
    }

    /// Compares two ranks as `rank_order` says.
    pub fn cmp(&self, other: &Self) -> (r: Ordering)
        ensures
            ordering_sign(r) == rank_order(self@, other@),
            poker_ladder(self@) > poker_ladder(other@) ==> r == Ordering::Greater,
            poker_ladder(self@) < poker_ladder(other@) ==> r == Ordering::Less,
            leading_values_decide(self@, other@, r),
    {
        let ra = self.rank_value();
        let rb = other.rank_value();
        if ra != rb {
            return order_u8(ra, rb);
        }
        match (self, other) {
            (HandRank::HighCard(av, ac), HandRank::HighCard(bv, bc)) =>
                then_ordering(HandRank::compare_values(av, bv), compare_from_start(ac, bc)),
            (HandRank::OnePair(va, ka, ac), HandRank::OnePair(vb, kb, bc)) =>
                then_ordering(order_u8(*va, *vb), then_ordering(HandRank::compare_values(ka, kb), compare_from_start(ac, bc))),
            (HandRank::TwoPair(a1, a2, ka, ac), HandRank::TwoPair(b1, b2, kb, bc)) =>
                then_ordering(order_u8(*a1, *b1), then_ordering(order_u8(*a2, *b2),
                    then_ordering(HandRank::compare_values(ka, kb), compare_from_start(ac, bc)))),
            (HandRank::ThreeOfAKind(va, ka, ac), HandRank::ThreeOfAKind(vb, kb, bc)) =>
                then_ordering(order_u8(*va, *vb), then_ordering(HandRank::compare_values(ka, kb), compare_from_start(ac, bc))),
            (HandRank::Straight(va, ac), HandRank::Straight(vb, bc)) =>
                then_ordering(order_u8(*va, *vb), compare_from_start(ac, bc)),
            (HandRank::Flush(av, ac), HandRank::Flush(bv, bc)) =>
                then_ordering(HandRank::compare_values(av, bv), compare_from_start(ac, bc)),
            (HandRank::FullHouse(ta, pa, ac), HandRank::FullHouse(tb, pb, bc)) =>
                then_ordering(order_u8(*ta, *tb), then_ordering(order_u8(*pa, *pb), compare_from_start(ac, bc))),
            (HandRank::FourOfAKind(va, ka, ac), HandRank::FourOfAKind(vb, kb, bc)) =>
                then_ordering(order_u8(*va, *vb), then_ordering(HandRank::compare_values(ka, kb), compare_from_start(ac, bc))),
            (HandRank::StraightFlush(va, ac), HandRank::StraightFlush(vb, bc)) =>
                then_ordering(order_u8(*va, *vb), compare_from_start(ac, bc)),
            (HandRank::RoyalFlush(ac), HandRank::RoyalFlush(bc)) => compare_from_start(ac, bc),
            _ => Ordering::Equal,
        }
    }
}


/// Whether the rank `a` is no higher than `b`.
pub fn rank_at_most(a: &HandRank, b: &HandRank) -> (r: bool)
    ensures
        r == (rank_order(a@, b@) <= 0),
{
    match a.cmp(b) {
        Ordering::Greater => false,
        _ => true,
    }
}

// ---------------------------------------------------------------------------------------
// The comparison of ranks is a total order
// ---------------------------------------------------------------------------------------

proof fn lemma_from_start_props(a: Seq<u8>, b: Seq<u8>)
    ensures
        order_from_start(a, b) == -order_from_start(b, a),
        order_from_start(a, b) == 0 <==> a == b,
        -1 <= order_from_start(a, b) <= 1,
    decreases a.len(),
{
    if a.len() > 0 && b.len() > 0 {
        lemma_from_start_props(a.drop_first(), b.drop_first());
        if a[0] == b[0] && a.drop_first() == b.drop_first() {
            assert(a =~= seq![a[0]] + a.drop_first());
            assert(b =~= seq![b[0]] + b.drop_first());
        }
    }
    if a.len() == 0 && b.len() == 0 {
        assert(a =~= b);
    }
}

proof fn lemma_from_start_trans(a: Seq<u8>, b: Seq<u8>, c: Seq<u8>)
    requires
        order_from_start(a, b) <= 0,
        order_from_start(b, c) <= 0,
    ensures
        order_from_start(a, c) <= 0,
    decreases a.len(),
{
    if a.len() > 0 && b.len() > 0 && c.len() > 0 {
        if a[0] == b[0] && b[0] == c[0] {
            lemma_from_start_trans(a.drop_first(), b.drop_first(), c.drop_first());
        }
    }
}

proof fn lemma_from_end_props(a: Seq<u8>, b: Seq<u8>)
    ensures
        order_from_end(a, b) == -order_from_end(b, a),
        order_from_end(a, b) == 0 <==> a == b,
        -1 <= order_from_end(a, b) <= 1,
    decreases a.len(),
{
    if a.len() > 0 && b.len() > 0 {
        lemma_from_end_props(a.drop_last(), b.drop_last());
        if a.last() == b.last() && a.drop_last() == b.drop_last() {
            assert(a =~= a.drop_last().push(a.last()));
            assert(b =~= b.drop_last().push(b.last()));
        }
    }
    if a.len() == 0 && b.len() == 0 {
        assert(a =~= b);
    }
}

proof fn lemma_from_end_trans(a: Seq<u8>, b: Seq<u8>, c: Seq<u8>)
    requires
        order_from_end(a, b) <= 0,
        order_from_end(b, c) <= 0,
    ensures
        order_from_end(a, c) <= 0,
    decreases a.len(),
{
    if a.len() > 0 && b.len() > 0 && c.len() > 0 {
        if a.last() == b.last() && b.last() == c.last() {
            lemma_from_end_trans(a.drop_last(), b.drop_last(), c.drop_last());
        }
    }
}

proof fn lemma_all_field_orders(a: RankModel, b: RankModel)
    ensures
        match (a, b) {
            (RankModel::HighCard(av, ac), RankModel::HighCard(bv, bc)) => {
                &&& order_from_end(av, bv) == -order_from_end(bv, av)
                &&& (order_from_end(av, bv) == 0 <==> av == bv)
                &&& order_from_start(ac, bc) == -order_from_start(bc, ac)
                &&& (order_from_start(ac, bc) == 0 <==> ac == bc)
            },
            (RankModel::OnePair(_, ka, ac), RankModel::OnePair(_, kb, bc))
            | (RankModel::ThreeOfAKind(_, ka, ac), RankModel::ThreeOfAKind(_, kb, bc))
            | (RankModel::FourOfAKind(_, ka, ac), RankModel::FourOfAKind(_, kb, bc))
            | (RankModel::TwoPair(_, _, ka, ac), RankModel::TwoPair(_, _, kb, bc))
            | (RankModel::Flush(ka, ac), RankModel::Flush(kb, bc)) => {
                &&& order_from_end(ka, kb) == -order_from_end(kb, ka)
                &&& (order_from_end(ka, kb) == 0 <==> ka == kb)
                &&& order_from_start(ac, bc) == -order_from_start(bc, ac)
                &&& (order_from_start(ac, bc) == 0 <==> ac == bc)
            },
            (RankModel::Straight(_, ac), RankModel::Straight(_, bc))
            | (RankModel::StraightFlush(_, ac), RankModel::StraightFlush(_, bc))
            | (RankModel::FullHouse(_, _, ac), RankModel::FullHouse(_, _, bc))
            | (RankModel::RoyalFlush(ac), RankModel::RoyalFlush(bc)) => {
                &&& order_from_start(ac, bc) == -order_from_start(bc, ac)
                &&& (order_from_start(ac, bc) == 0 <==> ac == bc)
            },
            _ => true,
        },
{
    match (a, b) {
        (RankModel::HighCard(av, ac), RankModel::HighCard(bv, bc)) => {
            lemma_from_end_props(av, bv);
            lemma_from_start_props(ac, bc);
        },
        (RankModel::OnePair(_, ka, ac), RankModel::OnePair(_, kb, bc))
        | (RankModel::ThreeOfAKind(_, ka, ac), RankModel::ThreeOfAKind(_, kb, bc))
        | (RankModel::FourOfAKind(_, ka, ac), RankModel::FourOfAKind(_, kb, bc))
        | (RankModel::TwoPair(_, _, ka, ac), RankModel::TwoPair(_, _, kb, bc))
        | (RankModel::Flush(ka, ac), RankModel::Flush(kb, bc)) => {
            lemma_from_end_props(ka, kb);
            lemma_from_start_props(ac, bc);
        },
        (RankModel::Straight(_, ac), RankModel::Straight(_, bc))
        | (RankModel::StraightFlush(_, ac), RankModel::StraightFlush(_, bc))
        | (RankModel::FullHouse(_, _, ac), RankModel::FullHouse(_, _, bc))
        | (RankModel::RoyalFlush(ac), RankModel::RoyalFlush(bc)) => {
            lemma_from_start_props(ac, bc);
        },
        _ => {},
    }
}

/// Swapping the two ranks turns the result of the comparison around, and two ranks
/// compare equal exactly when they are the same.
pub proof fn lemma_rank_order_antisymmetric(a: RankModel, b: RankModel)
    ensures
        rank_order(a, b) == -rank_order(b, a),
        rank_order(a, b) == 0 <==> a == b,
{
    lemma_all_field_orders(a, b);
}

/// Every rank compares equal to itself.
pub proof fn lemma_rank_order_reflexive(a: RankModel)
    ensures
        rank_order(a, a) == 0,
{
    lemma_rank_order_antisymmetric(a, a);
}

/// If `a` ranks no higher than `b` and `b` no higher than `c`, then `a` ranks no higher
/// than `c`.
pub proof fn lemma_rank_order_transitive(a: RankModel, b: RankModel, c: RankModel)
    requires
        rank_order(a, b) <= 0,
        rank_order(b, c) <= 0,
    ensures
        rank_order(a, c) <= 0,
{
    lemma_all_field_orders(a, b);
    lemma_all_field_orders(b, c);
    lemma_all_field_orders(a, c);
    if category(a) == category(b) && category(b) == category(c) {
        match (a, b, c) {
            (RankModel::HighCard(av, ac), RankModel::HighCard(bv, bc), RankModel::HighCard(cv, cc))
            | (RankModel::Flush(av, ac), RankModel::Flush(bv, bc), RankModel::Flush(cv, cc)) => {
                if order_from_end(av, bv) <= 0 && order_from_end(bv, cv) <= 0 {
                    lemma_from_end_trans(av, bv, cv);
                }
                if order_from_start(ac, bc) <= 0 && order_from_start(bc, cc) <= 0 {
                    lemma_from_start_trans(ac, bc, cc);
                }
            },
            (RankModel::OnePair(_, av, ac), RankModel::OnePair(_, bv, bc), RankModel::OnePair(_, cv, cc))
            | (RankModel::ThreeOfAKind(_, av, ac), RankModel::ThreeOfAKind(_, bv, bc), RankModel::ThreeOfAKind(_, cv, cc))
            | (RankModel::FourOfAKind(_, av, ac), RankModel::FourOfAKind(_, bv, bc), RankModel::FourOfAKind(_, cv, cc))
            | (RankModel::TwoPair(_, _, av, ac), RankModel::TwoPair(_, _, bv, bc), RankModel::TwoPair(_, _, cv, cc)) => {
                if order_from_end(av, bv) <= 0 && order_from_end(bv, cv) <= 0 {
                    lemma_from_end_trans(av, bv, cv);
                }
                if order_from_start(ac, bc) <= 0 && order_from_start(bc, cc) <= 0 {
                    lemma_from_start_trans(ac, bc, cc);
                }
            },
            (RankModel::Straight(_, ac), RankModel::Straight(_, bc), RankModel::Straight(_, cc))
            | (RankModel::StraightFlush(_, ac), RankModel::StraightFlush(_, bc), RankModel::StraightFlush(_, cc))
            | (RankModel::FullHouse(_, _, ac), RankModel::FullHouse(_, _, bc), RankModel::FullHouse(_, _, cc))
            | (RankModel::RoyalFlush(ac), RankModel::RoyalFlush(bc), RankModel::RoyalFlush(cc)) => {
                if order_from_start(ac, bc) <= 0 && order_from_start(bc, cc) <= 0 {
                    lemma_from_start_trans(ac, bc, cc);
                }
            },
            _ => {},
        }
    }
}


// ---------------------------------------------------------------------------------------
// Showing ranks and hands
// ---------------------------------------------------------------------------------------

/// Values shown one after another, separated by `, `.
pub open spec fn values_label(values: Seq<u8>) -> Seq<char>
    decreases values.len(),
{
    if values.len() == 0 {
        seq![]
    } else if values.len() == 1 {
        value_label(values[0])
    } else {
        values_label(values.drop_last()) + seq![',', ' '] + value_label(values.last())
    }
}

fn values_text(values: &[u8]) -> (r: String)
    ensures
        r@ == values_label(values@),
{
    let mut s = String::new();
    let n = values.len();
    for i in 0..n
        invariant
            n == values@.len(),
            s@ == values_label(values@.take(i as int)),
    {
        proof {
            assert(values@.take(i + 1).drop_last() =~= values@.take(i as int));
            assert(values@.take(i + 1).last() == values@[i as int]);
        }
        if i > 0 {
            proof { reveal_strlit(", "); }
            s.append(", ");
        } else {
            proof { assert(values@.take(1) =~= seq![values@[0]]); }
        }
        s.append(value_label_str(values[i]));
    }
    proof { assert(values@.take(n as int) =~= values@); }
    s
}

/// How a rank is described to the players.
pub open spec fn rank_label(r: RankModel) -> Seq<char> {
    match r {
        RankModel::RoyalFlush(_) => "Royal Flush"@,
        RankModel::StraightFlush(h, _) => "Straight Flush (High Card "@ + value_label(h) + ")"@,
        RankModel::FourOfAKind(v, k, _) => "Four of a Kind ("@ + value_label(v) + ") with kickers "@
            + values_label(sorted_desc(k)),
        RankModel::FullHouse(t, p, _) => "Full House ("@ + value_label(t) + ") over ("@ + value_label(p)
            + ")"@,
        RankModel::Flush(v, _) => "Flush ("@ + values_label(sorted_desc(v)) + ")"@,
        RankModel::Straight(h, _) => "Straight (High Card "@ + value_label(h) + ")"@,
        RankModel::ThreeOfAKind(v, k, _) => "Three of a Kind ("@ + value_label(v) + ") with kickers "@
            + values_label(sorted_desc(k)),
        RankModel::TwoPair(p1, p2, k, _) => "Two Pair ("@ + value_label(if p1 > p2 { p1 } else { p2 })
            + ") and ("@ + value_label(if p1 > p2 { p2 } else { p1 }) + ") with kickers "@
            + values_label(sorted_desc(k)),
        RankModel::OnePair(v, k, _) => "One Pair ("@ + value_label(v) + ") with kickers "@ + values_label(
            sorted_desc(k),
        ),
        RankModel::HighCard(v, _) => "High Card ("@ + values_label(sorted_desc(v)) + ")"@,
        RankModel::NoCards => "Empty Hand"@,
    }
}

impl HandRank {
    /// The description of the rank, as `rank_label` gives it.
    pub fn to_string(&self) -> (r: String)
        ensures
            r@ == rank_label(self@),
    {
        match self {
            HandRank::RoyalFlush(_) => String::from_str("Royal Flush"),
            HandRank::StraightFlush(h, _) => {
                let mut s = String::from_str("Straight Flush (High Card ");
                s.append(value_label_str(*h));
                s.append(")");
                s
            },
            HandRank::FourOfAKind(v, k, _) => {
                let mut s = String::from_str("Four of a Kind (");
                s.append(value_label_str(*v));
                s.append(") with kickers ");
                let sorted = sort_desc(k.as_slice());
                s.append(values_text(sorted.as_slice()).as_str());
                s
            },
            HandRank::FullHouse(t, p, _) => {
                let mut s = String::from_str("Full House (");
                s.append(value_label_str(*t));
                s.append(") over (");
                s.append(value_label_str(*p));
                s.append(")");
                s
            },
            HandRank::Flush(v, _) => {
                let mut s = String::from_str("Flush (");
                let sorted = sort_desc(v.as_slice());
                s.append(values_text(sorted.as_slice()).as_str());
                s.append(")");
                s
            },
            HandRank::Straight(h, _) => {
                let mut s = String::from_str("Straight (High Card ");
                s.append(value_label_str(*h));
                s.append(")");
                s
            },
            HandRank::ThreeOfAKind(v, k, _) => {
                let mut s = String::from_str("Three of a Kind (");
                s.append(value_label_str(*v));
                s.append(") with kickers ");
                let sorted = sort_desc(k.as_slice());
                s.append(values_text(sorted.as_slice()).as_str());
                s
            },
            HandRank::TwoPair(p1, p2, k, _) => {
                let (high, low) = if *p1 > *p2 { (*p1, *p2) } else { (*p2, *p1) };
                let mut s = String::from_str("Two Pair (");
                s.append(value_label_str(high));
                s.append(") and (");
                s.append(value_label_str(low));
                s.append(") with kickers ");
                let sorted = sort_desc(k.as_slice());
                s.append(values_text(sorted.as_slice()).as_str());
                s
            },
            HandRank::OnePair(v, k, _) => {
                let mut s = String::from_str("One Pair (");
                s.append(value_label_str(*v));
                s.append(") with kickers ");
                let sorted = sort_desc(k.as_slice());
                s.append(values_text(sorted.as_slice()).as_str());
                s
            },
            HandRank::HighCard(v, _) => {
                let mut s = String::from_str("High Card (");
                let sorted = sort_desc(v.as_slice());
                s.append(values_text(sorted.as_slice()).as_str());
                s.append(")");
                s
            },
            HandRank::NoCards() => String::from_str("Empty Hand"),
        }
    }
}

/// What the other players may see of a hand: face-up cards as they are, the rest as 0.
pub open spec fn visible_cards(cards: Seq<u8>) -> Seq<u8> {
    Seq::new(cards.len(), |i: int| if is_face_up(cards[i]) { cards[i] } else { 0u8 })
}

impl Hand {
    /// The hand as the other players see it, as `visible_cards` says.
    pub fn to_broadcast(&self) -> (r: Hand)
        ensures
            r.0@ == visible_cards(self.0@),
    {
        let mut out: Vec<u8> = Vec::new();
        let n = self.0.len();
        for i in 0..n
            invariant
                n == self.0@.len(),
                out@ == visible_cards(self.0@.take(i as int)),
        {
            let c = self.0[i];
            proof {
                assert(((c >> 6u8) != 0) == (c >= 64)) by (bit_vector);
            }
            let shown = if c >> 6 != 0 { c } else { 0 };
            out.push(shown);
            proof {
                assert(out@ =~= visible_cards(self.0@.take(i + 1)));
            }
        }
        proof { assert(self.0@.take(n as int) =~= self.0@); }
        Hand(out)
    }

    /// The hand as text, cards separated by `, `.
    pub fn to_string(&self) -> (r: String)
        ensures
            r@ == cards_label(self.0@),
    {
        cards_text(self.0.as_slice())
    }
}

} // verus!
