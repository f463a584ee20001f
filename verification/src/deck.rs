//! The 52-card deck: a fresh ordered deck, a seedable Fisher-Yates shuffle,
//! and dealing from the top.

use vstd::prelude::*;
use crate::cards::{Card, Rank, Suit};
use crate::rng::{Rng, rng_output, rng_step};

verus! {

/// The rank with index `i` (0 = Two, ..., 12 = Ace).
pub open spec fn rank_at(i: int) -> Rank {
    if i == 0 { Rank::Two }
    else if i == 1 { Rank::Three }
    else if i == 2 { Rank::Four }
    else if i == 3 { Rank::Five }
    else if i == 4 { Rank::Six }
    else if i == 5 { Rank::Seven }
    else if i == 6 { Rank::Eight }
    else if i == 7 { Rank::Nine }
    else if i == 8 { Rank::Ten }
    else if i == 9 { Rank::Jack }
    else if i == 10 { Rank::Queen }
    else if i == 11 { Rank::King }
    else { Rank::Ace }
}

/// The suit with index `i` (0 = Clubs, 1 = Diamonds, 2 = Hearts, 3 = Spades).
pub open spec fn suit_at(i: int) -> Suit {
    if i == 0 { Suit::Clubs }
    else if i == 1 { Suit::Diamonds }
    else if i == 2 { Suit::Hearts }
    else { Suit::Spades }
}

/// The ordered deck: suit by suit (clubs, diamonds, hearts, spades), each
/// suit from Two up to Ace.
pub open spec fn ordered_deck() -> Seq<Card> {
    Seq::new(52, |i: int| Card { rank: rank_at(i % 13), suit: suit_at(i / 13) })
}

/// Fisher-Yates from position `i` down to 1: swap position `i` with a
/// position drawn uniformly from `0..=i`, then continue with `i - 1`.
/// Returns the permuted cards and the generator state afterwards.
pub open spec fn shuffle_from(cards: Seq<Card>, state: u64, i: int) -> (Seq<Card>, u64)
    decreases i,
{
    if i < 1 {
        (cards, state)
    } else {
        let j = (rng_output(state) as int) % (i + 1);
        let swapped = cards.update(i, cards[j]).update(j, cards[i]);
        shuffle_from(swapped, rng_step(state), i - 1)
    }
}

/// The result of shuffling `cards` with a generator in state `state`.
pub open spec fn shuffled(cards: Seq<Card>, state: u64) -> (Seq<Card>, u64) {
    shuffle_from(cards, state, cards.len() - 1)
}

pub(crate) fn rank_of_index(i: usize) -> (r: Rank)
    requires
        i < 13,
    ensures
        r == rank_at(i as int),
{
    match i {
        0 => Rank::Two,
        1 => Rank::Three,
        2 => Rank::Four,
        3 => Rank::Five,
        4 => Rank::Six,
        5 => Rank::Seven,
        6 => Rank::Eight,
        7 => Rank::Nine,
        8 => Rank::Ten,
        9 => Rank::Jack,
        10 => Rank::Queen,
        11 => Rank::King,
        _ => Rank::Ace,
    }
}

pub(crate) fn suit_of_index(i: usize) -> (s: Suit)
    requires
        i < 4,
    ensures
        s == suit_at(i as int),
{
    match i {
        0 => Suit::Clubs,
        1 => Suit::Diamonds,
        2 => Suit::Hearts,
        _ => Suit::Spades,
    }
}

pub struct Deck {
    pub cards: Vec<Card>,
}

impl View for Deck {
    type V = Seq<Card>;

    open spec fn view(&self) -> Seq<Card> {
        self.cards@
    }
}

impl Deck {
    /// A fresh, ordered 52-card deck.
    pub fn full() -> (d: Deck)
        ensures
            d@ == ordered_deck(),
    {
        let mut cards: Vec<Card> = Vec::with_capacity(52);
        let mut s: usize = 0;
        while s < 4
            invariant
                s <= 4,
                cards@.len() == 13 * s,
                forall|k: int| 0 <= k < cards@.len() ==> #[trigger] cards@[k] == ordered_deck()[k],
            decreases 4 - s,
        {
            let suit = suit_of_index(s);
            let mut r: usize = 0;
            while r < 13
                invariant
                    s < 4,
                    r <= 13,
                    suit == suit_at(s as int),
                    cards@.len() == 13 * s + r,
                    forall|k: int| 0 <= k < cards@.len() ==> #[trigger] cards@[k] == ordered_deck()[k],
                decreases 13 - r,
            {
                let c = Card::new(rank_of_index(r), suit);
                proof {
                    let k = 13 * s + r;
                    assert(k % 13 == r as int) by (nonlinear_arith)
                        requires k == 13 * s + r, r < 13;
                    assert(k / 13 == s as int) by (nonlinear_arith)
                        requires k == 13 * s + r, r < 13;
                }
                cards.push(c);
                r = r + 1;
            }
            s = s + 1;
        }
        assert(cards@ =~= ordered_deck());
        Deck { cards }
    }

    /// Fisher-Yates shuffle with the given RNG.
    pub fn shuffle(&mut self, rng: &mut Rng)
        ensures
            (final(self)@, final(rng)@) == shuffled(old(self)@, old(rng)@),
    {
        let n = self.cards.len();
        if n < 2 {
            return;
        }
        let mut i: usize = n - 1;
        while i >= 1
            invariant
                n == self.cards@.len(),
                i < n,
                shuffle_from(self.cards@, rng@, i as int) == shuffled(old(self)@, old(rng)@),
            decreases i,
        {
            let ghost before = self.cards@;
            let ghost state = rng@;
            let j = rng.below(i + 1);
            let ci = self.cards[i];
            let cj = self.cards[j];
            self.cards.set(i, cj);
            self.cards.set(j, ci);
            assert(self.cards@ =~= before.update(i as int, before[j as int]).update(j as int, before[i as int]));
            i = i - 1;
        }
    }

    /// Take the top card (the last one).
    pub fn deal(&mut self) -> (c: Card)
        requires
            old(self)@.len() > 0,
        ensures
            c == old(self)@.last(),
            final(self)@ == old(self)@.drop_last(),
    {
        let c = self.cards.pop();
        match c {
            Some(c) => c,
            None => { assert(false); Card::new(Rank::Two, Suit::Clubs) },
        }
    }

    pub fn len(&self) -> (n: usize)
        ensures
            n == self@.len(),
    {
        self.cards.len()
    }

    pub fn is_empty(&self) -> (b: bool)
        ensures
            b == (self@.len() == 0),
    {
        self.cards.len() == 0
    }
}


/// Swapping two positions keeps the same elements.
pub proof fn lemma_swap_permutes<A>(s: Seq<A>, i: int, j: int)
    requires
        0 <= i < s.len(),
        0 <= j < s.len(),
    ensures
        s.update(i, s[j]).update(j, s[i]).to_multiset() == s.to_multiset(),
        s.update(i, s[j]).update(j, s[i]).len() == s.len(),
{
    broadcast use vstd::seq_lib::to_multiset_update;
    broadcast use vstd::multiset::group_multiset_axioms;
    let t = s.update(i, s[j]);
    s.to_multiset_ensures();
    assert(s.contains(s[i]) && s.contains(s[j]));
    assert(t[j] == s[j]);
    t.to_multiset_ensures();
    assert(t.contains(s[j]));
    assert(t.update(j, s[i]).to_multiset() =~= s.to_multiset());
}

/// The shuffle from position `i` down never touches the cards above `i`.
proof fn lemma_shuffle_keeps_above(cards: Seq<Card>, state: u64, i: int, p: int)
    requires
        i < p < cards.len(),
    ensures
        shuffle_from(cards, state, i).0.len() == cards.len(),
        shuffle_from(cards, state, i).0[p] == cards[p],
    decreases i,
{
    if i >= 1 {
        let j = (rng_output(state) as int) % (i + 1);
        let swapped = cards.update(i, cards[j]).update(j, cards[i]);
        lemma_shuffle_keeps_above(swapped, rng_step(state), i - 1, p);
    }
}

/// Any card can come out on top of a shuffle, the card already on top
/// included: for every card of the deck some generator state shuffles it
/// into the last place, where the deal takes from.
pub proof fn lemma_any_card_can_come_first(cards: Seq<Card>, k: int)
    requires
        0 <= k < cards.len() <= usize::MAX,
    ensures
        exists|state: u64| #[trigger] shuffled(cards, state).0.last() == cards[k],
{
    let i = cards.len() - 1;
    if i < 1 {
        assert(shuffled(cards, 0).0.last() == cards[k]);
    } else {
        crate::rng::lemma_every_output_reachable(k as u64);
        let state = choose|state: u64| #[trigger] rng_output(state) == k as u64;
        let j = (rng_output(state) as int) % (i + 1);
        assert(rng_output(state) as int == k);
        vstd::arithmetic::div_mod::lemma_small_mod(k as nat, (i + 1) as nat);
        assert(j == k);
        let swapped = cards.update(i, cards[j]).update(j, cards[i]);
        assert(swapped[i] == cards[k]);
        lemma_shuffle_keeps_above(swapped, rng_step(state), i - 1, i);
        assert(shuffled(cards, state).0 == shuffle_from(swapped, rng_step(state), i - 1).0);
        assert(shuffled(cards, state).0.last() == cards[k]);
    }
}

/// Shuffling only reorders: the same cards, the same number of times each.
pub proof fn lemma_shuffle_is_permutation(cards: Seq<Card>, state: u64, i: int)
    requires
        i < cards.len(),
    ensures
        shuffle_from(cards, state, i).0.to_multiset() == cards.to_multiset(),
        shuffle_from(cards, state, i).0.len() == cards.len(),
    decreases i,
{
    if i >= 1 {
        let j = (rng_output(state) as int) % (i + 1);
        lemma_swap_permutes(cards, i, j);
        let swapped = cards.update(i, cards[j]).update(j, cards[i]);
        lemma_shuffle_is_permutation(swapped, rng_step(state), i - 1);
    }
}

/// No card appears twice in the ordered deck.
pub proof fn lemma_ordered_deck_no_duplicates()
    ensures
        ordered_deck().no_duplicates(),
{
    let d = ordered_deck();
    assert forall|a: int, b: int| 0 <= a < d.len() && 0 <= b < d.len() && a != b implies d[a] != d[b] by {
        let (ra, sa, rb, sb) = (a % 13, a / 13, b % 13, b / 13);
        assert(a == 13 * sa + ra && b == 13 * sb + rb) by (nonlinear_arith)
            requires ra == a % 13, sa == a / 13, rb == b % 13, sb == b / 13, a >= 0, b >= 0;
        assert(0 <= sa < 4 && 0 <= sb < 4) by (nonlinear_arith)
            requires sa == a / 13, sb == b / 13, 0 <= a < 52, 0 <= b < 52;
    }
}

/// The ordered deck holds every card exactly once.
pub proof fn lemma_ordered_deck_complete(c: Card)
    ensures
        ordered_deck().to_multiset().count(c) == 1,
{
    let d = ordered_deck();
    let ri: int = match c.rank {
        Rank::Two => 0, Rank::Three => 1, Rank::Four => 2, Rank::Five => 3,
        Rank::Six => 4, Rank::Seven => 5, Rank::Eight => 6, Rank::Nine => 7,
        Rank::Ten => 8, Rank::Jack => 9, Rank::Queen => 10, Rank::King => 11,
        Rank::Ace => 12,
    };
    let si: int = match c.suit {
        Suit::Clubs => 0, Suit::Diamonds => 1, Suit::Hearts => 2, Suit::Spades => 3,
    };
    let k = 13 * si + ri;
    assert(k % 13 == ri && k / 13 == si) by (nonlinear_arith)
        requires k == 13 * si + ri, 0 <= ri < 13;
    assert(d[k] == c);
    lemma_ordered_deck_no_duplicates();
    d.lemma_multiset_has_no_duplicates();
    assert(d.contains(c));
    d.to_multiset_ensures();
}

} // verus!
