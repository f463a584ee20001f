//! Resolving a hand: who holds the best hand, how the pot is split into
//! side pots, and who is paid what.

use vstd::prelude::*;
use crate::cards::Card;
use crate::hand::{HandScore, HandValue, best_hand, compare_hands, evaluate_best, hand_compare,
    lemma_hand_compare_antisymmetric, lemma_hand_compare_transitive};
use crate::game::{Game, GameState, Payout, Player, Street, count_live, sum_committed, total_chips,
    lemma_sum_stacks_bounds};

verus! {

/// The cards a seat plays at showdown: the board, then its two hole cards.
pub open spec fn seat_cards(s: GameState, seat: int) -> Seq<Card> {
    s.community + seq![s.players[seat].hole[0], s.players[seat].hole[1]]
}

/// The best five-card hand a seat can make.
pub open spec fn seat_hand(s: GameState, seat: int) -> HandScore {
    best_hand(seat_cards(s, seat))
}

/// The strongest hand among the seats `seats` (which must not be empty).
pub open spec fn top_hand(s: GameState, seats: Seq<usize>) -> HandScore
    decreases seats.len(),
{
    if seats.len() <= 1 {
        seat_hand(s, seats[0] as int)
    } else {
        let rest = top_hand(s, seats.drop_last());
        let last = seat_hand(s, seats.last() as int);
        if hand_compare(last, rest) > 0 { last } else { rest }
    }
}

/// The seats of `seats` (in the same order) whose hand is `h`.
pub open spec fn seats_with_hand(s: GameState, seats: Seq<usize>, h: HandScore) -> Seq<usize>
    decreases seats.len(),
{
    if seats.len() == 0 {
        seq![]
    } else {
        seats_with_hand(s, seats.drop_last(), h) + if seat_hand(s, seats.last() as int) == h {
            seq![seats.last()]
        } else {
            seq![]
        }
    }
}

/// The seats holding the best (tied) hand among `seats`, in their order.
pub open spec fn best_seats(s: GameState, seats: Seq<usize>) -> Seq<usize> {
    if seats.len() == 0 {
        seq![]
    } else {
        seats_with_hand(s, seats, top_hand(s, seats))
    }
}

proof fn lemma_top_hand_is_top(s: GameState, seats: Seq<usize>)
    requires
        seats.len() >= 1,
    ensures
        forall|k: int| 0 <= k < seats.len() ==> hand_compare(#[trigger] seat_hand(s, seats[k] as int), top_hand(s, seats)) <= 0,
        exists|k: int| 0 <= k < seats.len() && #[trigger] seat_hand(s, seats[k] as int) == top_hand(s, seats),
    decreases seats.len(),
{
    let t = top_hand(s, seats);
    if seats.len() == 1 {
        lemma_hand_compare_antisymmetric(t, t);
        assert(seat_hand(s, seats[0] as int) == t);
    } else {
        let rest = seats.drop_last();
        lemma_top_hand_is_top(s, rest);
        let r = top_hand(s, rest);
        let last = seat_hand(s, seats.last() as int);
        lemma_hand_compare_antisymmetric(last, r);
        lemma_hand_compare_antisymmetric(t, t);
        assert forall|k: int| 0 <= k < seats.len() implies hand_compare(#[trigger] seat_hand(s, seats[k] as int), t) <= 0 by {
            if k < seats.len() - 1 {
                assert(seats[k] == rest[k]);
                assert(hand_compare(seat_hand(s, rest[k] as int), r) <= 0);
                if t != r {
                    lemma_hand_compare_transitive(seat_hand(s, rest[k] as int), r, t);
                }
            }
        }
        if t == r {
            let k = choose|k: int| 0 <= k < rest.len() && #[trigger] seat_hand(s, rest[k] as int) == r;
            assert(seats[k] == rest[k]);
        } else {
            assert(seat_hand(s, seats[seats.len() - 1] as int) == t);
        }
    }
}

proof fn lemma_seats_with_hand_none(s: GameState, seats: Seq<usize>, h: HandScore)
    requires
        forall|k: int| 0 <= k < seats.len() ==> #[trigger] seat_hand(s, seats[k] as int) != h,
    ensures
        seats_with_hand(s, seats, h) == Seq::<usize>::empty(),
    decreases seats.len(),
{
    if seats.len() > 0 {
        lemma_seats_with_hand_none(s, seats.drop_last(), h);
        assert(seat_hand(s, seats[seats.len() - 1] as int) != h);
        assert(seats_with_hand(s, seats, h) =~= Seq::<usize>::empty());
    }
}

proof fn lemma_seats_with_hand_subset(s: GameState, seats: Seq<usize>, h: HandScore)
    ensures
        seats_with_hand(s, seats, h).len() <= seats.len(),
        forall|k: int| 0 <= k < seats_with_hand(s, seats, h).len() ==> seats.contains(#[trigger] seats_with_hand(s, seats, h)[k]),
    decreases seats.len(),
{
    if seats.len() > 0 {
        let rest = seats.drop_last();
        lemma_seats_with_hand_subset(s, rest, h);
        let w = seats_with_hand(s, seats, h);
        assert forall|k: int| 0 <= k < w.len() implies seats.contains(#[trigger] w[k]) by {
            if k < seats_with_hand(s, rest, h).len() {
                let x = seats_with_hand(s, rest, h)[k];
                assert(rest.contains(x));
                let j = choose|j: int| 0 <= j < rest.len() && rest[j] == x;
                assert(seats[j] == x);
            } else {
                assert(w[k] == seats[seats.len() - 1]);
            }
        }
    }
}

/// The best seats of a non-empty list are a non-empty part of it.
pub proof fn lemma_best_seats_nonempty(s: GameState, seats: Seq<usize>)
    requires
        seats.len() >= 1,
    ensures
        best_seats(s, seats).len() >= 1,
        best_seats(s, seats).len() <= seats.len(),
        forall|k: int| 0 <= k < best_seats(s, seats).len() ==> seats.contains(#[trigger] best_seats(s, seats)[k]),
    decreases seats.len(),
{
    lemma_top_hand_is_top(s, seats);
    lemma_seats_with_hand_subset(s, seats, top_hand(s, seats));
    lemma_seats_with_hand_has(s, seats, top_hand(s, seats));
}

proof fn lemma_seats_with_hand_has(s: GameState, seats: Seq<usize>, h: HandScore)
    requires
        exists|k: int| 0 <= k < seats.len() && #[trigger] seat_hand(s, seats[k] as int) == h,
    ensures
        seats_with_hand(s, seats, h).len() >= 1,
    decreases seats.len(),
{
    let k = choose|k: int| 0 <= k < seats.len() && #[trigger] seat_hand(s, seats[k] as int) == h;
    if k < seats.len() - 1 {
        let rest = seats.drop_last();
        assert(rest[k] == seats[k]);
        lemma_seats_with_hand_has(s, rest, h);
    }
}

impl Game {
    /// The board plus a seat's hole cards.
    fn seat_cards_vec(&self, seat: usize) -> (cards: Vec<Card>)
        requires
            seat < self.players@.len(),
        ensures
            cards@ == seat_cards(self@, seat as int),
    {
        let mut cards: Vec<Card> = Vec::new();
        let mut i: usize = 0;
        while i < self.community.len()
            invariant
                i <= self.community@.len(),
                cards@ == self.community@.take(i as int),
            decreases self.community@.len() - i,
        {
            cards.push(self.community[i]);
            i = i + 1;
            assert(cards@ =~= self.community@.take(i as int));
        }
        cards.push(self.players[seat].hole[0]);
        cards.push(self.players[seat].hole[1]);
        assert(cards@ =~= seat_cards(self@, seat as int));
        cards
    }

    /// The best made hand for a seat (for UI / showdown labels): none before
    /// the flop.
    pub fn hand_value(&self, seat: usize) -> (v: Option<HandValue>)
        requires
            seat < self.players@.len(),
            self.community@.len() <= 5,
        ensures
            v is None <==> self.community@.len() < 3,
            v matches Some(h) ==> h@ == seat_hand(self@, seat as int),
    {
        if self.community.len() < 3 {
            return None;
        }
        let cards = self.seat_cards_vec(seat);
        Some(evaluate_best(&cards))
    }

    /// Among `seats`, the indices holding the best (tied) hand.
    pub fn best_hands(&self, seats: &[usize]) -> (winners: Vec<usize>)
        requires
            forall|k: int| 0 <= k < seats@.len() ==> #[trigger] seats@[k] < self.players@.len(),
            seats@.len() > 0 ==> 3 <= self.community@.len() <= 5,
        ensures
            winners@ == best_seats(self@, seats@),
    {
        let mut best: Option<HandValue> = None;
        let mut winners: Vec<usize> = Vec::new();
        let mut k: usize = 0;
        while k < seats.len()
            invariant
                k <= seats@.len(),
                forall|j: int| 0 <= j < seats@.len() ==> #[trigger] seats@[j] < self.players@.len(),
                seats@.len() > 0 ==> 3 <= self.community@.len() <= 5,
                k == 0 ==> best is None && winners@ == Seq::<usize>::empty(),
                k > 0 ==> best is Some && best->0@ == top_hand(self@, seats@.take(k as int))
                    && winners@ == seats_with_hand(self@, seats@.take(k as int), best->0@),
            decreases seats@.len() - k,
        {
            let i = seats[k];
            let cards = self.seat_cards_vec(i);
            let v = evaluate_best(&cards);
            let ghost prefix = seats@.take(k as int);
            let ghost next = seats@.take(k + 1);
            assert(next.drop_last() =~= prefix);
            assert(next.last() == i);
            let ghost vs = v@;
            assert(seat_hand(self@, i as int) == vs);
            match best {
                None => {
                    best = Some(v);
                    winners = Vec::new();
                    winners.push(i);
                    proof {
                        assert(prefix =~= Seq::<usize>::empty());
                        assert(seats_with_hand(self@, prefix, vs) =~= Seq::<usize>::empty());
                        assert(seats_with_hand(self@, next, vs) =~= seats_with_hand(self@, prefix, vs) + seq![i]);
                        assert(winners@ =~= seats_with_hand(self@, next, vs));
                    }
                },
                Some(b) => {
                    let ghost bs = b@;
                    let c = compare_hands(&v, &b);
                    proof {
                        lemma_hand_compare_antisymmetric(vs, bs);
                    }
                    if c > 0 {
                        best = Some(v);
                        winners = Vec::new();
                        winners.push(i);
                        proof {
                            lemma_top_hand_is_top(self@, prefix);
                            assert forall|j: int| 0 <= j < prefix.len() implies #[trigger] seat_hand(self@, prefix[j] as int) != vs by {
                                lemma_hand_compare_antisymmetric(seat_hand(self@, prefix[j] as int), vs);
                                if seat_hand(self@, prefix[j] as int) == vs {
                                    assert(hand_compare(vs, bs) <= 0);
                                }
                            }
                            lemma_seats_with_hand_none(self@, prefix, vs);
                            assert(winners@ =~= seats_with_hand(self@, next, vs));
                        }
                    } else if c == 0 {
                        best = Some(b);
                        winners.push(i);
                        proof {
                            assert(vs == bs);
                            assert(winners@ =~= seats_with_hand(self@, next, bs));
                        }
                    } else {
                        best = Some(b);
                        proof {
                            assert(vs != bs);
                            assert(winners@ =~= seats_with_hand(self@, next, bs));
                        }
                    }
                },
            }
            k = k + 1;
        }
        assert(seats@.take(seats@.len() as int) =~= seats@);
        winners
    }
}


// ---------------------------------------------------------------------------
// Side pots
// ---------------------------------------------------------------------------

/// Each seat's commitment this hand.
pub open spec fn commitments(ps: Seq<Player>) -> Seq<int> {
    Seq::new(ps.len(), |i: int| ps[i].committed as int)
}

pub open spec fn sum_ints(x: Seq<int>) -> int
    decreases x.len(),
{
    if x.len() == 0 {
        0
    } else {
        sum_ints(x.drop_last()) + x.last()
    }
}

/// The positions among the first `k` that hold a positive amount, ascending.
pub open spec fn positive_positions(c: Seq<int>, k: int) -> Seq<usize>
    decreases k,
{
    if k <= 0 {
        seq![]
    } else {
        positive_positions(c, k - 1) + if c[k - 1] > 0 { seq![(k - 1) as usize] } else { seq![] }
    }
}

/// The smallest positive amount among the first `k` (0 if there is none).
pub open spec fn min_positive(c: Seq<int>, k: int) -> int
    decreases k,
{
    if k <= 0 {
        0
    } else {
        let m = min_positive(c, k - 1);
        if c[k - 1] > 0 && (m == 0 || c[k - 1] < m) { c[k - 1] } else { m }
    }
}

/// The contributions after taking one layer off every positive one.
pub open spec fn peel_layer(c: Seq<int>, layer: int) -> Seq<int> {
    Seq::new(c.len(), |i: int| if c[i] > 0 { c[i] - layer } else { c[i] })
}

/// The seats among the first `k` that still hold cards, ascending.
pub open spec fn live_positions(ps: Seq<Player>, k: int) -> Seq<usize>
    decreases k,
{
    if k <= 0 {
        seq![]
    } else {
        live_positions(ps, k - 1) + if !ps[k - 1].folded { seq![(k - 1) as usize] } else { seq![] }
    }
}

/// The seats of `cs` (in order) that still hold cards.
pub open spec fn live_among(ps: Seq<Player>, cs: Seq<usize>) -> Seq<usize>
    decreases cs.len(),
{
    if cs.len() == 0 {
        seq![]
    } else {
        live_among(ps, cs.drop_last()) + if !ps[cs.last() as int].folded { seq![cs.last()] } else { seq![] }
    }
}

/// Who may win a layer paid by the seats `cs`: those of them still in the
/// hand, or (should every one of them have folded) every live seat.
pub open spec fn eligible_for(s: GameState, cs: Seq<usize>) -> Seq<usize> {
    let e = live_among(s.players, cs);
    if e.len() == 0 { live_positions(s.players, s.players.len() as int) } else { e }
}

/// The seats of `ws` after the button (in order).
pub open spec fn seats_after(ws: Seq<usize>, button: int) -> Seq<usize>
    decreases ws.len(),
{
    if ws.len() == 0 {
        seq![]
    } else {
        seats_after(ws.drop_last(), button) + if ws.last() > button { seq![ws.last()] } else { seq![] }
    }
}

/// The seats of `ws` up to and including the button (in order).
pub open spec fn seats_upto(ws: Seq<usize>, button: int) -> Seq<usize>
    decreases ws.len(),
{
    if ws.len() == 0 {
        seq![]
    } else {
        seats_upto(ws.drop_last(), button) + if ws.last() <= button { seq![ws.last()] } else { seq![] }
    }
}

/// The seat the odd chips are counted from: the button, taken round the
/// table.
pub open spec fn odd_chip_button(s: GameState) -> int {
    s.button % (s.players.len() as int)
}

/// The winners in the order the odd chips go: starting left of the button
/// and going around (for winners listed in seat order).
pub open spec fn odd_chip_order(ws: Seq<usize>, button: int) -> Seq<usize> {
    seats_after(ws, button) + seats_upto(ws, button)
}

/// Add `share` to the payout of every seat of `ws`.
pub open spec fn pay_each(p: Seq<int>, ws: Seq<usize>, share: int) -> Seq<int>
    decreases ws.len(),
{
    if ws.len() == 0 {
        p
    } else {
        let p1 = pay_each(p, ws.drop_last(), share);
        p1.update(ws.last() as int, p1[ws.last() as int] + share)
    }
}

/// Add one chip to the payout of each of the first `count` seats of `order`.
pub open spec fn pay_odd(p: Seq<int>, order: Seq<usize>, count: int) -> Seq<int>
    decreases count,
{
    if count <= 0 {
        p
    } else {
        let p1 = pay_odd(p, order, count - 1);
        let w = order[count - 1] as int;
        p1.update(w, p1[w] + 1)
    }
}

/// Split `amount` evenly among `ws`; the odd chips go one each to the
/// first winners left of the button.
pub open spec fn award(p: Seq<int>, ws: Seq<usize>, amount: int, button: int) -> Seq<int> {
    pay_odd(pay_each(p, ws, amount / (ws.len() as int)), odd_chip_order(ws, button), amount % (ws.len() as int))
}

pub proof fn lemma_min_positive(c: Seq<int>, k: int)
    requires
        0 <= k <= c.len(),
    ensures
        min_positive(c, k) >= 0,
        min_positive(c, k) == 0 <==> positive_positions(c, k).len() == 0,
        min_positive(c, k) == 0 ==> forall|i: int| 0 <= i < k ==> c[i] <= 0,
        forall|i: int| 0 <= i < k && c[i] > 0 ==> min_positive(c, k) <= c[i],
        min_positive(c, k) > 0 ==> exists|i: int| 0 <= i < k && c[i] == min_positive(c, k),
    decreases k,
{
    if k > 0 {
        lemma_min_positive(c, k - 1);
        if min_positive(c, k) > 0 && min_positive(c, k) != min_positive(c, k - 1) {
            assert(c[k - 1] == min_positive(c, k));
        }
    }
}

pub proof fn lemma_peel_counts(c: Seq<int>, layer: int, k: int)
    requires
        0 <= k <= c.len(),
        layer > 0,
        forall|i: int| 0 <= i < c.len() && c[i] > 0 ==> layer <= c[i],
    ensures
        positive_positions(peel_layer(c, layer), k).len() <= positive_positions(c, k).len(),
        (exists|j: int| 0 <= j < k && c[j] == layer) ==> positive_positions(peel_layer(c, layer), k).len()
            < positive_positions(c, k).len(),
    decreases k,
{
    if k > 0 {
        lemma_peel_counts(c, layer, k - 1);
        if exists|j: int| 0 <= j < k && c[j] == layer {
            let j = choose|j: int| 0 <= j < k && c[j] == layer;
            if j < k - 1 {
            } else {
                assert(peel_layer(c, layer)[k - 1] == 0);
            }
        }
    }
}

/// Taking a layer off the contributions leaves fewer contributors.
pub proof fn lemma_layer_shrinks(c: Seq<int>)
    requires
        positive_positions(c, c.len() as int).len() > 0,
    ensures
        positive_positions(peel_layer(c, min_positive(c, c.len() as int)), c.len() as int).len()
            < positive_positions(c, c.len() as int).len(),
{
    lemma_min_positive(c, c.len() as int);
    lemma_peel_counts(c, min_positive(c, c.len() as int), c.len() as int);
}

/// The payouts after splitting the contributions `c` into layers (the
/// smallest contribution first): each layer is paid by everyone who put in
/// that much, and won by the best hand(s) among them still in the hand.
pub open spec fn settle_layers(s: GameState, c: Seq<int>, p: Seq<int>) -> Seq<int>
    decreases positive_positions(c, c.len() as int).len(),
{
    let n = c.len() as int;
    let cs = positive_positions(c, n);
    if cs.len() == 0 {
        p
    } else {
        let layer = min_positive(c, n);
        let c2 = peel_layer(c, layer);
        proof {
            lemma_layer_shrinks(c);
        }
        let ws = best_seats(s, eligible_for(s, cs));
        if ws.len() == 0 {
            settle_layers(s, c2, p)
        } else {
            settle_layers(s, c2, award(p, ws, layer * cs.len(), odd_chip_button(s)))
        }
    }
}

/// The first seat at or after `i` that still holds cards.
pub open spec fn first_live_from(ps: Seq<Player>, i: int) -> int
    decreases ps.len() - i,
{
    if i >= ps.len() || !ps[i].folded {
        i
    } else {
        first_live_from(ps, i + 1)
    }
}

/// What each seat wins: the whole pot if only one seat holds cards,
/// otherwise the side pots.
pub open spec fn showdown_payouts(s: GameState) -> Seq<int> {
    let n = s.players.len() as int;
    if count_live(s.players) == 1 {
        Seq::new(n as nat, |i: int| if i == first_live_from(s.players, 0) { sum_committed(s.players) as int } else { 0 })
    } else {
        settle_layers(s, commitments(s.players), Seq::new(n as nat, |i: int| 0int))
    }
}

/// The positive payouts among the first `k` seats, in seat order.
pub open spec fn payout_list(p: Seq<int>, k: int) -> Seq<Payout>
    decreases k,
{
    if k <= 0 {
        seq![]
    } else {
        payout_list(p, k - 1) + if p[k - 1] > 0 {
            seq![Payout { seat: (k - 1) as usize, amount: p[k - 1] as u32 }]
        } else {
            seq![]
        }
    }
}

/// The state after the showdown: winnings credited to stacks, nothing left
/// committed, the payouts recorded, and the hand over.
pub open spec fn settle_of(s: GameState) -> GameState {
    let p = showdown_payouts(s);
    GameState {
        players: Seq::new(s.players.len(), |i: int| Player {
            stack: (s.players[i].stack + p[i]) as u32,
            bet: 0,
            committed: 0,
            ..s.players[i]
        }),
        last_payouts: payout_list(p, s.players.len() as int),
        street: Street::HandOver,
        ..s
    }
}


// ---------------------------------------------------------------------------
// Sums of payouts and contributions
// ---------------------------------------------------------------------------

/// A vector of chip counts as numbers.
pub open spec fn as_ints(v: Seq<u32>) -> Seq<int> {
    Seq::new(v.len(), |i: int| v[i] as int)
}

pub open spec fn all_nonneg(x: Seq<int>) -> bool {
    forall|i: int| 0 <= i < x.len() ==> 0 <= #[trigger] x[i]
}

pub proof fn lemma_sum_update(p: Seq<int>, i: int, d: int)
    requires
        0 <= i < p.len(),
    ensures
        sum_ints(p.update(i, p[i] + d)) == sum_ints(p) + d,
    decreases p.len(),
{
    if i < p.len() - 1 {
        lemma_sum_update(p.drop_last(), i, d);
        assert(p.update(i, p[i] + d).drop_last() =~= p.drop_last().update(i, p[i] + d));
    } else {
        assert(p.update(i, p[i] + d).drop_last() =~= p.drop_last());
    }
}

pub proof fn lemma_entry_le_sum(p: Seq<int>, i: int)
    requires
        0 <= i < p.len(),
        all_nonneg(p),
    ensures
        p[i] <= sum_ints(p),
        0 <= sum_ints(p),
    decreases p.len(),
{
    let q = p.drop_last();
    assert(all_nonneg(q)) by {
        assert forall|k: int| 0 <= k < q.len() implies 0 <= #[trigger] q[k] by {
            assert(q[k] == p[k]);
        }
    }
    assert(0 <= p[p.len() - 1]);
    lemma_sum_nonneg(q);
    if i < p.len() - 1 {
        lemma_entry_le_sum(q, i);
    }
}

pub proof fn lemma_sum_nonneg(p: Seq<int>)
    requires
        all_nonneg(p),
    ensures
        0 <= sum_ints(p),
    decreases p.len(),
{
    if p.len() > 0 {
        let q = p.drop_last();
        assert(all_nonneg(q)) by {
            assert forall|k: int| 0 <= k < q.len() implies 0 <= #[trigger] q[k] by {
                assert(q[k] == p[k]);
            }
        }
        assert(0 <= p[p.len() - 1]);
        lemma_sum_nonneg(q);
    }
}

proof fn lemma_pay_each(p: Seq<int>, ws: Seq<usize>, share: int)
    requires
        forall|k: int| 0 <= k < ws.len() ==> #[trigger] ws[k] < p.len(),
        all_nonneg(p),
        share >= 0,
    ensures
        pay_each(p, ws, share).len() == p.len(),
        all_nonneg(pay_each(p, ws, share)),
        sum_ints(pay_each(p, ws, share)) == sum_ints(p) + share * ws.len(),
    decreases ws.len(),
{
    if ws.len() > 0 {
        let rest = ws.drop_last();
        lemma_pay_each(p, rest, share);
        let p1 = pay_each(p, rest, share);
        lemma_sum_update(p1, ws.last() as int, share);
        assert(share * ws.len() == share * rest.len() + share) by (nonlinear_arith)
            requires ws.len() == rest.len() + 1;
    }
}

proof fn lemma_pay_odd(p: Seq<int>, order: Seq<usize>, count: int)
    requires
        forall|k: int| 0 <= k < order.len() ==> #[trigger] order[k] < p.len(),
        all_nonneg(p),
        0 <= count <= order.len(),
    ensures
        pay_odd(p, order, count).len() == p.len(),
        all_nonneg(pay_odd(p, order, count)),
        sum_ints(pay_odd(p, order, count)) == sum_ints(p) + count,
    decreases count,
{
    if count > 0 {
        lemma_pay_odd(p, order, count - 1);
        let p1 = pay_odd(p, order, count - 1);
        lemma_sum_update(p1, order[count - 1] as int, 1);
    }
}

proof fn lemma_split_lengths(ws: Seq<usize>, button: int)
    ensures
        seats_after(ws, button).len() + seats_upto(ws, button).len() == ws.len(),
        forall|k: int| 0 <= k < seats_after(ws, button).len() ==> ws.contains(#[trigger] seats_after(ws, button)[k]),
        forall|k: int| 0 <= k < seats_upto(ws, button).len() ==> ws.contains(#[trigger] seats_upto(ws, button)[k]),
    decreases ws.len(),
{
    if ws.len() > 0 {
        let rest = ws.drop_last();
        lemma_split_lengths(rest, button);
        assert forall|k: int| 0 <= k < seats_after(ws, button).len() implies ws.contains(#[trigger] seats_after(ws, button)[k]) by {
            if k < seats_after(rest, button).len() {
                let x = seats_after(rest, button)[k];
                assert(rest.contains(x));
                let j = choose|j: int| 0 <= j < rest.len() && rest[j] == x;
                assert(ws[j] == x);
            } else {
                assert(seats_after(ws, button)[k] == ws[ws.len() - 1]);
            }
        }
        assert forall|k: int| 0 <= k < seats_upto(ws, button).len() implies ws.contains(#[trigger] seats_upto(ws, button)[k]) by {
            if k < seats_upto(rest, button).len() {
                let x = seats_upto(rest, button)[k];
                assert(rest.contains(x));
                let j = choose|j: int| 0 <= j < rest.len() && rest[j] == x;
                assert(ws[j] == x);
            } else {
                assert(seats_upto(ws, button)[k] == ws[ws.len() - 1]);
            }
        }
    }
}

/// Splitting a layer pays out exactly the layer: nothing is lost or made up.
pub proof fn lemma_award_conserves(p: Seq<int>, ws: Seq<usize>, amount: int, button: int)
    requires
        ws.len() >= 1,
        forall|k: int| 0 <= k < ws.len() ==> #[trigger] ws[k] < p.len(),
        all_nonneg(p),
        amount >= 0,
    ensures
        award(p, ws, amount, button).len() == p.len(),
        all_nonneg(award(p, ws, amount, button)),
        sum_ints(award(p, ws, amount, button)) == sum_ints(p) + amount,
{
    let w = ws.len() as int;
    let share = amount / w;
    let rem = amount % w;
    assert(share * w + rem == amount && 0 <= rem < w && share >= 0) by (nonlinear_arith)
        requires share == amount / w, rem == amount % w, w >= 1, amount >= 0;
    lemma_pay_each(p, ws, share);
    let p1 = pay_each(p, ws, share);
    let order = odd_chip_order(ws, button);
    lemma_split_lengths(ws, button);
    assert forall|k: int| 0 <= k < order.len() implies #[trigger] order[k] < p1.len() by {
        if k < seats_after(ws, button).len() {
            assert(ws.contains(seats_after(ws, button)[k]));
        } else {
            assert(order[k] == seats_upto(ws, button)[k - seats_after(ws, button).len()]);
            assert(ws.contains(seats_upto(ws, button)[k - seats_after(ws, button).len()]));
        }
    }
    lemma_pay_odd(p1, order, rem);
}

proof fn lemma_peel_sum(c: Seq<int>, layer: int, k: int)
    requires
        0 <= k <= c.len(),
    ensures
        sum_ints(peel_layer(c, layer).take(k)) + layer * positive_positions(c, k).len() == sum_ints(c.take(k)),
    decreases k,
{
    if k > 0 {
        lemma_peel_sum(c, layer, k - 1);
        assert(peel_layer(c, layer).take(k).drop_last() =~= peel_layer(c, layer).take(k - 1));
        assert(c.take(k).drop_last() =~= c.take(k - 1));
        let a = positive_positions(c, k - 1).len() as int;
        assert(layer * (a + 1) == layer * a + layer) by (nonlinear_arith);
    }
}

/// Taking a layer off every contributor removes the layer times the number
/// of contributors.
pub proof fn lemma_peel_conserves(c: Seq<int>, layer: int)
    ensures
        sum_ints(peel_layer(c, layer)) + layer * positive_positions(c, c.len() as int).len() == sum_ints(c),
{
    lemma_peel_sum(c, layer, c.len() as int);
    assert(peel_layer(c, layer).take(c.len() as int) =~= peel_layer(c, layer));
    assert(c.take(c.len() as int) =~= c);
}


// ---------------------------------------------------------------------------
// Computing the side pots
// ---------------------------------------------------------------------------

fn min_positive_of(c: &Vec<u32>) -> (r: u32)
    ensures
        r == min_positive(as_ints(c@), c@.len() as int),
{
    let mut m: u32 = 0;
    let mut k: usize = 0;
    while k < c.len()
        invariant
            k <= c@.len(),
            m == min_positive(as_ints(c@), k as int),
        decreases c@.len() - k,
    {
        if c[k] > 0 && (m == 0 || c[k] < m) {
            m = c[k];
        }
        k = k + 1;
    }
    m
}

fn positive_positions_of(c: &Vec<u32>) -> (r: Vec<usize>)
    ensures
        r@ == positive_positions(as_ints(c@), c@.len() as int),
        forall|k: int| 0 <= k < r@.len() ==> #[trigger] r@[k] < c@.len(),
{
    let mut r: Vec<usize> = Vec::new();
    let mut k: usize = 0;
    while k < c.len()
        invariant
            k <= c@.len(),
            r@ == positive_positions(as_ints(c@), k as int),
            forall|j: int| 0 <= j < r@.len() ==> #[trigger] r@[j] < k,
        decreases c@.len() - k,
    {
        if c[k] > 0 {
            r.push(k);
        }
        k = k + 1;
    }
    r
}

fn peel(c: &mut Vec<u32>, layer: u32)
    requires
        forall|i: int| 0 <= i < old(c)@.len() && old(c)@[i] > 0 ==> layer <= #[trigger] old(c)@[i],
    ensures
        as_ints(final(c)@) == peel_layer(as_ints(old(c)@), layer as int),
{
    let n = c.len();
    let mut k: usize = 0;
    while k < n
        invariant
            n == c@.len(),
            n == old(c)@.len(),
            k <= n,
            forall|i: int| 0 <= i < old(c)@.len() && old(c)@[i] > 0 ==> layer <= #[trigger] old(c)@[i],
            forall|i: int| 0 <= i < k ==> #[trigger] c@[i] as int == peel_layer(as_ints(old(c)@), layer as int)[i],
            forall|i: int| k <= i < n ==> #[trigger] c@[i] == old(c)@[i],
        decreases n - k,
    {
        let v = c[k];
        if v > 0 {
            c.set(k, v - layer);
        }
        k = k + 1;
    }
    assert(as_ints(c@) =~= peel_layer(as_ints(old(c)@), layer as int));
}

/// Split `amount` among the winners `ws`: an even share each, and the odd
/// chips one at a time to the first winners left of the button.
fn award_chips(payouts: &mut Vec<u32>, ws: &Vec<usize>, amount: u32, button: usize)
    requires
        1 <= ws@.len() < u32::MAX,
        forall|k: int| 0 <= k < ws@.len() ==> #[trigger] ws@[k] < old(payouts)@.len(),
        sum_ints(as_ints(old(payouts)@)) + amount <= u32::MAX,
    ensures
        as_ints(final(payouts)@) == award(as_ints(old(payouts)@), ws@, amount as int, button as int),
{
    let ghost p0 = as_ints(payouts@);
    assert(all_nonneg(p0));
    let w = ws.len();
    let share = amount / (w as u32);
    let rem = amount % (w as u32);
    proof {
        lemma_award_conserves(p0, ws@, amount as int, button as int);
        lemma_pay_each(p0, ws@, share as int);
        let (ai, wi, si, ri) = (amount as int, w as int, share as int, rem as int);
        assert(si == ai / wi && ri == ai % wi);
        assert(si * wi + ri == ai && 0 <= ri < wi && si >= 0) by (nonlinear_arith)
            requires si == ai / wi, ri == ai % wi, wi >= 1, ai >= 0;
        assert(share * w <= amount);
    }
    let mut j: usize = 0;
    while j < w
        invariant
            j <= w,
            w == ws@.len(),
            1 <= w < u32::MAX,
            forall|k: int| 0 <= k < ws@.len() ==> #[trigger] ws@[k] < payouts@.len(),
            payouts@.len() == p0.len(),
            as_ints(payouts@) == pay_each(p0, ws@.take(j as int), share as int),
            all_nonneg(p0),
            sum_ints(p0) + amount <= u32::MAX,
            share * w <= amount,
        decreases w - j,
    {
        let seat = ws[j];
        proof {
            assert(ws@.take(j + 1).drop_last() =~= ws@.take(j as int));
            assert forall|k: int| 0 <= k < ws@.take(j as int).len() implies #[trigger] ws@.take(j as int)[k] < p0.len() by {
                assert(ws@.take(j as int)[k] == ws@[k]);
            }
            lemma_pay_each(p0, ws@.take(j as int), share as int);
            lemma_entry_le_sum(as_ints(payouts@), seat as int);
            assert(share * j + share <= share * w) by (nonlinear_arith)
                requires j < w, share >= 0;
        }
        let cur = payouts[seat];
        payouts.set(seat, cur + share);
        j = j + 1;
        assert(as_ints(payouts@) =~= pay_each(p0, ws@.take(j as int), share as int));
    }
    assert(ws@.take(w as int) =~= ws@);
    let ghost p1 = as_ints(payouts@);

    let mut after: Vec<usize> = Vec::new();
    let mut upto: Vec<usize> = Vec::new();
    let mut k: usize = 0;
    while k < w
        invariant
            k <= w,
            w == ws@.len(),
            after@ == seats_after(ws@.take(k as int), button as int),
            upto@ == seats_upto(ws@.take(k as int), button as int),
        decreases w - k,
    {
        assert(ws@.take(k + 1).drop_last() =~= ws@.take(k as int));
        if ws[k] > button {
            after.push(ws[k]);
        } else {
            upto.push(ws[k]);
        }
        k = k + 1;
    }
    let mut order = after;
    let mut m: usize = 0;
    let ghost a0 = order@;
    while m < upto.len()
        invariant
            m <= upto@.len(),
            order@ == a0 + upto@.take(m as int),
        decreases upto@.len() - m,
    {
        order.push(upto[m]);
        m = m + 1;
        assert(order@ =~= a0 + upto@.take(m as int));
    }
    assert(upto@.take(upto@.len() as int) =~= upto@);
    assert(order@ == odd_chip_order(ws@, button as int));
    proof {
        lemma_split_lengths(ws@, button as int);
        assert forall|t: int| 0 <= t < order@.len() implies #[trigger] order@[t] < p1.len() by {
            if t < a0.len() {
                assert(ws@.contains(seats_after(ws@, button as int)[t]));
            } else {
                assert(order@[t] == seats_upto(ws@, button as int)[t - a0.len()]);
                assert(ws@.contains(seats_upto(ws@, button as int)[t - a0.len()]));
            }
        }
        lemma_pay_each(p0, ws@, share as int);
        assert(rem as int == (amount as int) % (w as int));
        assert(share as int == (amount as int) / (w as int));
    }

    let mut t: usize = 0;
    while t < rem as usize
        invariant
            t <= rem,
            rem < w,
            order@.len() == w,
            forall|x: int| 0 <= x < order@.len() ==> #[trigger] order@[x] < p1.len(),
            payouts@.len() == p1.len(),
            as_ints(payouts@) == pay_odd(p1, order@, t as int),
            all_nonneg(p1),
            sum_ints(p1) + rem <= u32::MAX,
        decreases rem - t,
    {
        let seat = order[t];
        proof {
            lemma_pay_odd(p1, order@, t as int);
            lemma_entry_le_sum(as_ints(payouts@), seat as int);
        }
        let cur = payouts[seat];
        payouts.set(seat, cur + 1);
        t = t + 1;
        assert(as_ints(payouts@) =~= pay_odd(p1, order@, t as int));
    }
}


pub proof fn lemma_positive_positions_bound(c: Seq<int>, k: int)
    requires
        0 <= k,
    ensures
        positive_positions(c, k).len() <= k,
        forall|j: int| 0 <= j < positive_positions(c, k).len() ==> #[trigger] positive_positions(c, k)[j] < k,
    decreases k,
{
    if k > 0 {
        lemma_positive_positions_bound(c, k - 1);
    }
}

proof fn lemma_live_positions(ps: Seq<Player>, k: int)
    requires
        0 <= k <= ps.len(),
        k <= usize::MAX,
    ensures
        live_positions(ps, k).len() <= k,
        forall|j: int| 0 <= j < live_positions(ps, k).len() ==> {
            let x = #[trigger] live_positions(ps, k)[j];
            x < k && !ps[x as int].folded
        },
    decreases k,
{
    if k > 0 {
        lemma_live_positions(ps, k - 1);
        let prev = live_positions(ps, k - 1);
        assert forall|j: int| 0 <= j < live_positions(ps, k).len() implies {
            let x = #[trigger] live_positions(ps, k)[j];
            x < k && !ps[x as int].folded
        } by {
            if j < prev.len() {
                assert(live_positions(ps, k)[j] == prev[j]);
                let y = prev[j];
                assert(y < k - 1 && !ps[y as int].folded);
            } else {
                assert(!ps[k - 1].folded);
                assert(live_positions(ps, k)[j] == (k - 1) as usize);
            }
        }
    }
}

proof fn lemma_live_among(ps: Seq<Player>, cs: Seq<usize>)
    ensures
        live_among(ps, cs).len() <= cs.len(),
        forall|j: int| 0 <= j < live_among(ps, cs).len() ==> {
            let x = #[trigger] live_among(ps, cs)[j];
            cs.contains(x) && !ps[x as int].folded
        },
    decreases cs.len(),
{
    if cs.len() > 0 {
        let rest = cs.drop_last();
        lemma_live_among(ps, rest);
        assert forall|j: int| 0 <= j < live_among(ps, cs).len() implies {
            let x = #[trigger] live_among(ps, cs)[j];
            cs.contains(x) && !ps[x as int].folded
        } by {
            if j < live_among(ps, rest).len() {
                let x = live_among(ps, rest)[j];
                assert(rest.contains(x));
                let i = choose|i: int| 0 <= i < rest.len() && rest[i] == x;
                assert(cs[i] == x);
            } else {
                assert(live_among(ps, cs)[j] == cs[cs.len() - 1]);
            }
        }
    }
}

/// When someone is still in the hand, every layer has someone eligible to
/// win it, and they are all seats of the table.
pub proof fn lemma_eligible_nonempty(s: GameState, cs: Seq<usize>)
    requires
        count_live(s.players) >= 1,
        s.players.len() <= usize::MAX,
        forall|k: int| 0 <= k < cs.len() ==> #[trigger] cs[k] < s.players.len(),
    ensures
        eligible_for(s, cs).len() >= 1,
        forall|k: int| 0 <= k < eligible_for(s, cs).len() ==> #[trigger] eligible_for(s, cs)[k] < s.players.len(),
{
    let ps = s.players;
    lemma_live_among(ps, cs);
    lemma_live_positions(ps, ps.len() as int);
    lemma_live_positions_count(ps, ps.len() as int);
    assert(ps.take(ps.len() as int) =~= ps);
    let e = eligible_for(s, cs);
    assert forall|k: int| 0 <= k < e.len() implies #[trigger] e[k] < s.players.len() by {
        if live_among(ps, cs).len() > 0 {
            assert(cs.contains(e[k]));
        }
    }
}

proof fn lemma_live_positions_count(ps: Seq<Player>, k: int)
    requires
        0 <= k <= ps.len(),
    ensures
        live_positions(ps, k).len() == count_live(ps.take(k)),
    decreases k,
{
    if k > 0 {
        lemma_live_positions_count(ps, k - 1);
        assert(ps.take(k).drop_last() =~= ps.take(k - 1));
    }
}

/// A table with a live seat has at least one live seat counted.
pub proof fn lemma_live_seat_counted(ps: Seq<Player>, i: int)
    requires
        0 <= i < ps.len(),
        !ps[i].folded,
    ensures
        count_live(ps) >= 1,
    decreases ps.len(),
{
    if i < ps.len() - 1 {
        lemma_live_seat_counted(ps.drop_last(), i);
    }
}

pub proof fn lemma_first_live(ps: Seq<Player>, i: int)
    requires
        0 <= i <= ps.len(),
    ensures
        i <= first_live_from(ps, i) <= ps.len(),
        first_live_from(ps, i) < ps.len() ==> !ps[first_live_from(ps, i)].folded,
        forall|j: int| i <= j < first_live_from(ps, i) ==> #[trigger] ps[j].folded,
    decreases ps.len() - i,
{
    if i < ps.len() && ps[i].folded {
        lemma_first_live(ps, i + 1);
    }
}

pub proof fn lemma_none_live(ps: Seq<Player>)
    requires
        forall|j: int| 0 <= j < ps.len() ==> #[trigger] ps[j].folded,
    ensures
        count_live(ps) == 0,
    decreases ps.len(),
{
    if ps.len() > 0 {
        let q = ps.drop_last();
        assert forall|j: int| 0 <= j < q.len() implies #[trigger] q[j].folded by {
            assert(q[j] == ps[j]);
        }
        lemma_none_live(q);
    }
}

pub proof fn lemma_sum_commitments(ps: Seq<Player>)
    ensures
        sum_ints(commitments(ps)) == sum_committed(ps),
    decreases ps.len(),
{
    if ps.len() > 0 {
        lemma_sum_commitments(ps.drop_last());
        assert(commitments(ps).drop_last() =~= commitments(ps.drop_last()));
    }
}

pub proof fn lemma_zero_sum(n: nat)
    ensures
        sum_ints(Seq::new(n, |i: int| 0int)) == 0,
    decreases n,
{
    if n > 0 {
        lemma_zero_sum((n - 1) as nat);
        assert(Seq::new(n, |i: int| 0int).drop_last() =~= Seq::new((n - 1) as nat, |i: int| 0int));
    }
}

impl Game {
    /// The seats of `cs` still in the hand, or every live seat if none is.
    fn eligible_seats(&self, cs: &Vec<usize>) -> (e: Vec<usize>)
        requires
            forall|k: int| 0 <= k < cs@.len() ==> #[trigger] cs@[k] < self.players@.len(),
        ensures
            e@ == eligible_for(self@, cs@),
    {
        let mut e: Vec<usize> = Vec::new();
        let mut k: usize = 0;
        while k < cs.len()
            invariant
                k <= cs@.len(),
                forall|j: int| 0 <= j < cs@.len() ==> #[trigger] cs@[j] < self.players@.len(),
                e@ == live_among(self.players@, cs@.take(k as int)),
            decreases cs@.len() - k,
        {
            assert(cs@.take(k + 1).drop_last() =~= cs@.take(k as int));
            if !self.players[cs[k]].folded {
                e.push(cs[k]);
            }
            k = k + 1;
        }
        assert(cs@.take(cs@.len() as int) =~= cs@);
        if e.len() == 0 {
            let mut i: usize = 0;
            while i < self.players.len()
                invariant
                    i <= self.players@.len(),
                    e@ == live_positions(self.players@, i as int),
                decreases self.players@.len() - i,
            {
                if !self.players[i].folded {
                    e.push(i);
                }
                i = i + 1;
            }
        }
        e
    }

    /// Resolve the hand: build side pots from contributions, award to the
    /// best eligible hand(s), credit stacks, and record payouts.
    pub fn settle(&mut self)
        requires
            1 <= old(self).players@.len() < u32::MAX,
            total_chips(old(self)@) <= u32::MAX,
            count_live(old(self).players@) >= 2 ==> 3 <= old(self).community@.len() <= 5,
        ensures
            final(self)@ == settle_of(old(self)@),
    {
        let n = self.players.len();
        let ghost s = self@;
        let ghost ps = self.players@;
        let mut payouts: Vec<u32> = vec![0u32; n];
        assert(as_ints(payouts@) =~= Seq::new(n as nat, |i: int| 0int));
        proof {
            lemma_zero_sum(n as nat);
        }

        if self.live_count() == 1 {
            let mut winner: usize = 0;
            while winner < n && self.players[winner].folded
                invariant
                    n == self.players@.len(),
                    winner <= n,
                    forall|j: int| 0 <= j < winner ==> #[trigger] self.players@[j].folded,
                    first_live_from(self.players@, 0) == first_live_from(self.players@, winner as int),
                decreases n - winner,
            {
                winner = winner + 1;
            }
            proof {
                if winner == n {
                    lemma_none_live(self.players@);
                }
            }
            let total = self.pot();
            let ghost zeros = as_ints(payouts@);
            payouts.set(winner, total);
            proof {
                assert(as_ints(payouts@) =~= zeros.update(winner as int, zeros[winner as int] + total));
                lemma_sum_update(zeros, winner as int, total as int);
                lemma_first_live(self.players@, 0);
                assert(as_ints(payouts@) =~= showdown_payouts(s));
            }
        } else {
            let mut left: Vec<u32> = Vec::new();
            let mut i: usize = 0;
            while i < n
                invariant
                    n == self.players@.len(),
                    i <= n,
                    left@.len() == i,
                    as_ints(left@) == commitments(self.players@).take(i as int),
                decreases n - i,
            {
                left.push(self.players[i].committed);
                i = i + 1;
                assert(as_ints(left@) =~= commitments(self.players@).take(i as int));
            }
            assert(commitments(self.players@).take(n as int) =~= commitments(self.players@));
            proof {
                lemma_sum_commitments(ps);
            }
            let odd_button = self.button % n;
            while min_positive_of(&left) > 0
                invariant
                    self@ == s,
                    n == ps.len(),
                    1 <= n < u32::MAX,
                    ps == s.players,
                    odd_button as int == odd_chip_button(s),
                    count_live(ps) != 1,
                    count_live(ps) >= 2 ==> 3 <= s.community.len() <= 5,
                    left@.len() == n,
                    payouts@.len() == n,
                    settle_layers(s, as_ints(left@), as_ints(payouts@)) == showdown_payouts(s),
                    sum_ints(as_ints(payouts@)) + sum_ints(as_ints(left@)) <= sum_committed(ps),
                    total_chips(s) <= u32::MAX,
                decreases positive_positions(as_ints(left@), n as int).len(),
            {
                let ghost c = as_ints(left@);
                let ghost p = as_ints(payouts@);
                let layer = min_positive_of(&left);
                let cs = positive_positions_of(&left);
                proof {
                    lemma_min_positive(c, n as int);
                    lemma_layer_shrinks(c);
                    lemma_peel_conserves(c, layer as int);
                    lemma_positive_positions_bound(c, n as int);
                    assert(all_nonneg(c));
                    assert(all_nonneg(peel_layer(c, layer as int))) by {
                        assert forall|x: int| 0 <= x < n implies 0 <= #[trigger] peel_layer(c, layer as int)[x] by {}
                    }
                    lemma_sum_nonneg(peel_layer(c, layer as int));
                    lemma_sum_nonneg(p);
                    assert(layer * cs@.len() <= sum_ints(c));
                }
                assert forall|x: int| 0 <= x < left@.len() && left@[x] > 0 implies layer <= #[trigger] left@[x] by {
                    assert(c[x] == left@[x] as int);
                }
                peel(&mut left, layer);
                let pot_amount = layer * (cs.len() as u32);
                let eligible = self.eligible_seats(&cs);
                proof {
                    lemma_live_among(ps, cs@);
                    lemma_live_positions(ps, n as int);
                    if eligible@.len() > 0 {
                        let x = eligible@[0];
                        assert(!ps[x as int].folded);
                        lemma_live_seat_counted(ps, x as int);
                    }
                    assert forall|k: int| 0 <= k < eligible@.len() implies #[trigger] eligible@[k] < n by {
                        if live_among(ps, cs@).len() > 0 {
                            assert(cs@.contains(eligible@[k]));
                        }
                    }
                }
                let winners = self.best_hands(eligible.as_slice());
                if winners.len() > 0 {
                    proof {
                        lemma_best_seats_nonempty(s, eligible@);
                        assert forall|k: int| 0 <= k < winners@.len() implies #[trigger] winners@[k] < payouts@.len() by {
                            assert(eligible@.contains(winners@[k]));
                        }
                        lemma_award_conserves(p, winners@, pot_amount as int, odd_button as int);
                    }
                    award_chips(&mut payouts, &winners, pot_amount, odd_button);
                }
            }
            proof {
                lemma_min_positive(as_ints(left@), n as int);
                assert(all_nonneg(as_ints(left@)));
                lemma_sum_nonneg(as_ints(left@));
            }
        }

        let ghost pay = as_ints(payouts@);
        assert(pay == showdown_payouts(s));
        proof {
            lemma_sum_commitments(ps);
        }
        let mut i: usize = 0;
        while i < n
            invariant
                n == self.players@.len(),
                n == ps.len(),
                i <= n,
                payouts@.len() == n,
                as_ints(payouts@) == pay,
                sum_ints(pay) <= sum_committed(ps),
                total_chips(s) <= u32::MAX,
                ps == s.players,
                forall|j: int| 0 <= j < i ==> #[trigger] self.players@[j] == (Player {
                    stack: (ps[j].stack + pay[j]) as u32,
                    bet: 0,
                    committed: 0,
                    ..ps[j]
                }),
                forall|j: int| i <= j < n ==> #[trigger] self.players@[j] == ps[j],
                self@ == (GameState { players: self@.players, ..s }),
            decreases n - i,
        {
            proof {
                lemma_entry_le_sum(pay, i as int);
                lemma_sum_stacks_bounds(ps, i as int);
            }
            let won = payouts[i];
            let p = &mut self.players[i];
            p.stack = p.stack + won;
            p.bet = 0;
            p.committed = 0;
            i = i + 1;
        }
        let mut list: Vec<Payout> = Vec::new();
        let mut k: usize = 0;
        while k < n
            invariant
                k <= n,
                payouts@.len() == n,
                list@ == payout_list(as_ints(payouts@), k as int),
            decreases n - k,
        {
            if payouts[k] > 0 {
                list.push(Payout { seat: k, amount: payouts[k] });
            }
            k = k + 1;
        }
        self.last_payouts = list;
        self.street = Street::HandOver;
        assert(self@ =~= settle_of(s));
    }
}

// ---------------------------------------------------------------------------
// Only players still in the hand win
// ---------------------------------------------------------------------------

proof fn lemma_pay_each_spares(p: Seq<int>, ws: Seq<usize>, share: int, i: int)
    requires
        0 <= i < p.len(),
        !ws.contains(i as usize),
        forall|k: int| 0 <= k < ws.len() ==> #[trigger] ws[k] < p.len(),
    ensures
        pay_each(p, ws, share).len() == p.len(),
        pay_each(p, ws, share)[i] == p[i],
    decreases ws.len(),
{
    if ws.len() > 0 {
        let rest = ws.drop_last();
        assert forall|k: int| 0 <= k < rest.len() implies #[trigger] rest[k] < p.len() by {
            assert(rest[k] == ws[k]);
        }
        if rest.contains(i as usize) {
            let j = choose|j: int| 0 <= j < rest.len() && rest[j] == i as usize;
            assert(ws[j] == i as usize);
        }
        lemma_pay_each_spares(p, rest, share, i);
        assert(ws[ws.len() - 1] != i as usize);
    }
}

proof fn lemma_pay_odd_spares(p: Seq<int>, order: Seq<usize>, count: int, i: int)
    requires
        0 <= i < p.len(),
        0 <= count <= order.len(),
        !order.contains(i as usize),
        forall|k: int| 0 <= k < order.len() ==> #[trigger] order[k] < p.len(),
    ensures
        pay_odd(p, order, count).len() == p.len(),
        pay_odd(p, order, count)[i] == p[i],
    decreases count,
{
    if count > 0 {
        lemma_pay_odd_spares(p, order, count - 1, i);
        assert(order[count - 1] != i as usize);
    }
}

/// A seat that is not among the winners of a layer gets nothing of it.
proof fn lemma_award_spares(p: Seq<int>, ws: Seq<usize>, amount: int, button: int, i: int)
    requires
        0 <= i < p.len(),
        ws.len() >= 1,
        !ws.contains(i as usize),
        forall|k: int| 0 <= k < ws.len() ==> #[trigger] ws[k] < p.len(),
    ensures
        award(p, ws, amount, button).len() == p.len(),
        award(p, ws, amount, button)[i] == p[i],
{
    let share = amount / (ws.len() as int);
    lemma_pay_each_spares(p, ws, share, i);
    let p1 = pay_each(p, ws, share);
    let order = odd_chip_order(ws, button);
    lemma_split_lengths(ws, button);
    let after = seats_after(ws, button);
    assert forall|k: int| 0 <= k < order.len() implies ws.contains(#[trigger] order[k]) by {
        if k < after.len() {
            assert(ws.contains(after[k]));
        } else {
            assert(order[k] == seats_upto(ws, button)[k - after.len()]);
            assert(ws.contains(seats_upto(ws, button)[k - after.len()]));
        }
    }
    assert forall|k: int| 0 <= k < order.len() implies #[trigger] order[k] < p1.len() by {
        assert(ws.contains(order[k]));
    }
    if order.contains(i as usize) {
        let k = choose|k: int| 0 <= k < order.len() && order[k] == i as usize;
        assert(ws.contains(order[k]));
    }
    let rem = amount % (ws.len() as int);
    assert(0 <= rem < ws.len()) by (nonlinear_arith)
        requires rem == amount % (ws.len() as int), ws.len() > 0;
    lemma_pay_odd_spares(p1, order, rem, i);
}

/// Everyone who may win a layer still holds cards.
proof fn lemma_eligible_live(s: GameState, cs: Seq<usize>)
    requires
        s.players.len() <= usize::MAX,
    ensures
        forall|k: int| 0 <= k < eligible_for(s, cs).len() ==> !s.players[#[trigger] eligible_for(s, cs)[k] as int].folded,
{
    let ps = s.players;
    lemma_live_among(ps, cs);
    lemma_live_positions(ps, ps.len() as int);
}

proof fn lemma_layers_spare_folded(s: GameState, c: Seq<int>, p: Seq<int>, i: int)
    requires
        count_live(s.players) >= 1,
        c.len() == s.players.len(),
        p.len() == s.players.len(),
        s.players.len() <= usize::MAX,
        0 <= i < s.players.len(),
        s.players[i].folded,
    ensures
        settle_layers(s, c, p).len() == p.len(),
        settle_layers(s, c, p)[i] == p[i],
    decreases positive_positions(c, c.len() as int).len(),
{
    let n = c.len() as int;
    let cs = positive_positions(c, n);
    if cs.len() > 0 {
        let layer = min_positive(c, n);
        lemma_layer_shrinks(c);
        let c2 = peel_layer(c, layer);
        lemma_positive_positions_bound(c, n);
        let e = eligible_for(s, cs);
        lemma_eligible_nonempty(s, cs);
        lemma_eligible_live(s, cs);
        lemma_best_seats_nonempty(s, e);
        let ws = best_seats(s, e);
        assert forall|k: int| 0 <= k < ws.len() implies #[trigger] ws[k] < p.len() by {
            assert(e.contains(ws[k]));
        }
        if ws.contains(i as usize) {
            let k = choose|k: int| 0 <= k < ws.len() && ws[k] == i as usize;
            assert(e.contains(ws[k]));
            let j = choose|j: int| 0 <= j < e.len() && e[j] == ws[k];
            assert(!s.players[e[j] as int].folded);
        }
        lemma_award_spares(p, ws, layer * cs.len(), odd_chip_button(s), i);
        lemma_layers_spare_folded(s, c2, award(p, ws, layer * cs.len(), odd_chip_button(s)), i);
    }
}

/// A player who folded wins nothing at the showdown: every pot goes to
/// players still holding cards.
pub proof fn lemma_folded_seats_win_nothing(s: GameState, i: int)
    requires
        count_live(s.players) >= 1,
        s.players.len() <= usize::MAX,
        0 <= i < s.players.len(),
        s.players[i].folded,
    ensures
        showdown_payouts(s)[i] == 0,
        settle_of(s).players[i].stack == s.players[i].stack,
{
    let ps = s.players;
    if count_live(ps) == 1 {
        lemma_first_live(ps, 0);
    } else {
        let zeros = Seq::new(ps.len(), |k: int| 0int);
        lemma_layers_spare_folded(s, commitments(ps), zeros, i);
    }
}

// ---------------------------------------------------------------------------
// The best hand wins
// ---------------------------------------------------------------------------

proof fn lemma_all_positive(c: Seq<int>, k: int)
    requires
        0 <= k <= c.len(),
        k <= usize::MAX,
        forall|i: int| 0 <= i < k ==> c[i] > 0,
    ensures
        positive_positions(c, k) == Seq::new(k as nat, |i: int| i as usize),
    decreases k,
{
    if k > 0 {
        lemma_all_positive(c, k - 1);
        assert(positive_positions(c, k) =~= Seq::new(k as nat, |i: int| i as usize));
    }
}

proof fn lemma_none_positive(c: Seq<int>, k: int)
    requires
        0 <= k <= c.len(),
        forall|i: int| 0 <= i < k ==> c[i] <= 0,
    ensures
        positive_positions(c, k).len() == 0,
    decreases k,
{
    if k > 0 {
        lemma_none_positive(c, k - 1);
    }
}

proof fn lemma_min_of_equal(c: Seq<int>, k: int, a: int)
    requires
        1 <= k <= c.len(),
        a > 0,
        forall|i: int| 0 <= i < k ==> c[i] == a,
    ensures
        min_positive(c, k) == a,
    decreases k,
{
    if k > 1 {
        lemma_min_of_equal(c, k - 1, a);
        assert(min_positive(c, k - 1) == a);
    } else {
        assert(min_positive(c, 0) == 0);
    }
}

/// The seats still in the hand among the first `k` seats.
proof fn lemma_live_among_first(ps: Seq<Player>, k: int)
    requires
        0 <= k <= ps.len(),
        k <= usize::MAX,
    ensures
        live_among(ps, Seq::new(k as nat, |i: int| i as usize)) == live_positions(ps, k),
    decreases k,
{
    if k > 0 {
        lemma_live_among_first(ps, k - 1);
        assert(Seq::new(k as nat, |i: int| i as usize).drop_last() =~= Seq::new((k - 1) as nat, |i: int| i as usize));
    }
}

/// Among the live seats, only `w` holds `w`'s hand.
proof fn lemma_only_w_holds(s: GameState, k: int, w: int)
    requires
        0 <= k <= s.players.len(),
        s.players.len() <= usize::MAX,
        0 <= w < s.players.len(),
        !s.players[w].folded,
        forall|i: int| 0 <= i < s.players.len() && i != w && !s.players[i].folded
            ==> #[trigger] seat_hand(s, i) != seat_hand(s, w),
    ensures
        seats_with_hand(s, live_positions(s.players, k), seat_hand(s, w))
            == if w < k { seq![w as usize] } else { Seq::<usize>::empty() },
    decreases k,
{
    if k > 0 {
        lemma_only_w_holds(s, k - 1, w);
        let ps = s.players;
        let prev = live_positions(ps, k - 1);
        if !ps[k - 1].folded {
            assert(live_positions(ps, k).drop_last() =~= prev);
            assert(live_positions(ps, k).last() == (k - 1) as usize);
            if k - 1 != w {
                assert(seat_hand(s, k - 1) != seat_hand(s, w));
            }
            assert(seats_with_hand(s, live_positions(ps, k), seat_hand(s, w))
                =~= if w < k { seq![w as usize] } else { Seq::<usize>::empty() });
        } else {
            assert(live_positions(ps, k) =~= prev);
        }
    }
}

proof fn lemma_live_position_of(ps: Seq<Player>, k: int, w: int)
    requires
        0 <= w < k <= ps.len(),
        !ps[w].folded,
    ensures
        live_positions(ps, k).contains(w as usize),
    decreases k,
{
    if w < k - 1 {
        lemma_live_position_of(ps, k - 1, w);
        let prev = live_positions(ps, k - 1);
        let j = choose|j: int| 0 <= j < prev.len() && prev[j] == w as usize;
        assert(live_positions(ps, k)[j] == w as usize);
    } else {
        assert(live_positions(ps, k).last() == w as usize);
    }
}

proof fn lemma_sum_committed_equal(ps: Seq<Player>, a: int)
    requires
        forall|i: int| 0 <= i < ps.len() ==> #[trigger] ps[i].committed == a,
    ensures
        sum_committed(ps) == a * ps.len(),
    decreases ps.len(),
{
    if ps.len() > 0 {
        lemma_sum_committed_equal(ps.drop_last(), a);
        assert(a * ps.len() == a * (ps.len() - 1) + a) by (nonlinear_arith);
    }
}

/// The best hand takes the pot: when everyone put the same amount in and
/// one seat still in the hand holds a hand that beats every other seat
/// still in it, that seat wins the whole pot and nobody else wins anything.
pub proof fn lemma_best_hand_takes_the_pot(s: GameState, w: int)
    requires
        1 <= s.players.len() <= usize::MAX,
        0 <= w < s.players.len(),
        !s.players[w].folded,
        forall|i: int| 0 <= i < s.players.len() ==> #[trigger] s.players[i].committed == s.players[w].committed,
        forall|i: int| 0 <= i < s.players.len() && i != w && !s.players[i].folded
            ==> hand_compare(#[trigger] seat_hand(s, i), seat_hand(s, w)) < 0,
    ensures
        showdown_payouts(s)[w] == sum_committed(s.players),
        forall|i: int| 0 <= i < s.players.len() && i != w ==> #[trigger] showdown_payouts(s)[i] == 0,
{
    let ps = s.players;
    let n = ps.len() as int;
    let a = ps[w].committed as int;
    let zeros = Seq::new(n as nat, |i: int| 0int);
    lemma_sum_committed_equal(ps, a);
    assert forall|i: int| 0 <= i < n && i != w && !ps[i].folded implies #[trigger] seat_hand(s, i) != seat_hand(s, w) by {
        lemma_hand_compare_antisymmetric(seat_hand(s, i), seat_hand(s, w));
    }
    lemma_live_seat_counted(ps, w);
    if count_live(ps) == 1 {
        lemma_first_live(ps, 0);
        let f = first_live_from(ps, 0);
        if f != w {
            if f < w {
                assert(!ps[f].folded);
                lemma_two_live(ps, f, w);
            } else {
                assert(ps[w].folded);
            }
        }
    } else if a == 0 {
        let c = commitments(ps);
        lemma_none_positive(c, n);
        assert(showdown_payouts(s) == zeros);
        assert(sum_committed(ps) == 0) by (nonlinear_arith)
            requires sum_committed(ps) == a * n, a == 0;
    } else {
        let c = commitments(ps);
        lemma_all_positive(c, n);
        let cs = positive_positions(c, n);
        lemma_min_of_equal(c, n, a);
        let c2 = peel_layer(c, a);
        lemma_none_positive(c2, n);
        lemma_live_among_first(ps, n);
        lemma_live_positions(ps, n);
        lemma_live_position_of(ps, n, w);
        let e = eligible_for(s, cs);
        assert(e == live_positions(ps, n));
        lemma_top_hand_is_top(s, e);
        let top = top_hand(s, e);
        let k = choose|k: int| 0 <= k < e.len() && #[trigger] seat_hand(s, e[k] as int) == top;
        let j = choose|j: int| 0 <= j < e.len() && e[j] == w as usize;
        assert(hand_compare(seat_hand(s, e[j] as int), top) <= 0);
        if e[k] as int != w {
            assert(!ps[e[k] as int].folded);
            assert(hand_compare(seat_hand(s, e[k] as int), seat_hand(s, w)) < 0);
            lemma_hand_compare_antisymmetric(seat_hand(s, w), top);
        }
        assert(top == seat_hand(s, w));
        lemma_only_w_holds(s, n, w);
        let ws = best_seats(s, e);
        assert(ws == seq![w as usize]);
        let pot = a * cs.len();
        assert(pot / 1 == pot && pot % 1 == 0);
        assert(ws.drop_last() =~= Seq::<usize>::empty());
        assert(pay_each(zeros, ws.drop_last(), pot) == zeros);
        let paid = pay_each(zeros, ws, pot);
        assert(paid == zeros.update(w, zeros[w] + pot));
        assert(pay_odd(paid, odd_chip_order(ws, odd_chip_button(s)), 0) == paid);
        assert(award(zeros, ws, pot, odd_chip_button(s)) =~= zeros.update(w, pot));
        assert(showdown_payouts(s) == settle_layers(s, c2, award(zeros, ws, pot, odd_chip_button(s))));
        assert(cs.len() == n);
    }
}

/// What seat `w` can win from each seat: all of a smaller contribution, and
/// as much as `w` put in of a larger one.
pub open spec fn matched_by(c: Seq<int>, w: int, k: int) -> Seq<int> {
    Seq::new(k as nat, |j: int| if c[j] < c[w] { c[j] } else { c[w] })
}

proof fn lemma_positive_positions_positive(c: Seq<int>, k: int)
    requires
        0 <= k <= c.len(),
        c.len() <= usize::MAX,
    ensures
        forall|j: int| 0 <= j < positive_positions(c, k).len() ==> c[#[trigger] positive_positions(c, k)[j] as int] > 0,
        forall|j: int| 0 <= j < positive_positions(c, k).len() ==> #[trigger] positive_positions(c, k)[j] < k,
    decreases k,
{
    if k > 0 {
        lemma_positive_positions_positive(c, k - 1);
        let prev = positive_positions(c, k - 1);
        let cur = positive_positions(c, k);
        assert forall|j: int| 0 <= j < cur.len() implies c[#[trigger] cur[j] as int] > 0 && cur[j] < k by {
            if j < prev.len() {
                assert(cur[j] == prev[j]);
            } else {
                assert(cur[j] == (k - 1) as usize);
            }
        }
    }
}

/// When every seat of `cs` still holds cards, all of them are eligible.
proof fn lemma_live_among_all(ps: Seq<Player>, cs: Seq<usize>)
    requires
        forall|k: int| 0 <= k < cs.len() ==> !ps[#[trigger] cs[k] as int].folded,
    ensures
        live_among(ps, cs) == cs,
    decreases cs.len(),
{
    if cs.len() > 0 {
        let rest = cs.drop_last();
        assert forall|k: int| 0 <= k < rest.len() implies !ps[#[trigger] rest[k] as int].folded by {
            assert(rest[k] == cs[k]);
        }
        lemma_live_among_all(ps, rest);
        assert(!ps[cs[cs.len() - 1] as int].folded);
        assert(live_among(ps, cs) =~= cs);
    }
}

/// Among the contributors still in the hand, only `w` holds `w`'s hand.
proof fn lemma_only_w_among_contributors(s: GameState, c: Seq<int>, k: int, w: int)
    requires
        0 <= k <= c.len(),
        c.len() == s.players.len(),
        s.players.len() <= usize::MAX,
        0 <= w < s.players.len(),
        !s.players[w].folded,
        forall|i: int| 0 <= i < s.players.len() && i != w && !s.players[i].folded
            ==> #[trigger] seat_hand(s, i) != seat_hand(s, w),
    ensures
        seats_with_hand(s, live_among(s.players, positive_positions(c, k)), seat_hand(s, w))
            == if w < k && c[w] > 0 { seq![w as usize] } else { Seq::<usize>::empty() },
    decreases k,
{
    if k > 0 {
        lemma_only_w_among_contributors(s, c, k - 1, w);
        let ps = s.players;
        let prev = positive_positions(c, k - 1);
        let cur = positive_positions(c, k);
        let x = (k - 1) as usize;
        if c[k - 1] > 0 {
            assert(cur.drop_last() =~= prev);
            assert(cur.last() == x);
            let e = live_among(ps, cur);
            if !ps[k - 1].folded {
                assert(e.drop_last() =~= live_among(ps, prev));
                assert(e.last() == x);
                if k - 1 != w {
                    assert(seat_hand(s, k - 1) != seat_hand(s, w));
                }
            } else {
                assert(e =~= live_among(ps, prev));
            }
            assert(seats_with_hand(s, e, seat_hand(s, w))
                =~= if w < k && c[w] > 0 { seq![w as usize] } else { Seq::<usize>::empty() });
        } else {
            assert(cur =~= prev);
        }
    }
}

/// Taking off a layer of `m` takes `m` off what `w` wins from every seat
/// that contributed.
proof fn lemma_matched_peel(c: Seq<int>, m: int, w: int, k: int)
    requires
        0 <= k <= c.len(),
        0 <= w < c.len(),
        m > 0,
        c[w] >= m,
        forall|i: int| 0 <= i < c.len() ==> c[i] >= 0,
        forall|i: int| 0 <= i < c.len() && c[i] > 0 ==> m <= c[i],
    ensures
        sum_ints(matched_by(c, w, k)) == sum_ints(matched_by(peel_layer(c, m), w, k))
            + m * positive_positions(c, k).len(),
    decreases k,
{
    if k > 0 {
        lemma_matched_peel(c, m, w, k - 1);
        assert(matched_by(c, w, k).drop_last() =~= matched_by(c, w, k - 1));
        assert(matched_by(peel_layer(c, m), w, k).drop_last() =~= matched_by(peel_layer(c, m), w, k - 1));
        let pp = positive_positions(c, k);
        assert(m * pp.len() == m * positive_positions(c, k - 1).len() + if c[k - 1] > 0 { m } else { 0 })
            by (nonlinear_arith)
            requires
                pp.len() == positive_positions(c, k - 1).len() + if c[k - 1] > 0 { 1int } else { 0int };
    }
}

/// With nothing of `w` left in the pot, `w` wins nothing from anyone.
proof fn lemma_matched_none(c: Seq<int>, w: int, k: int)
    requires
        0 <= k <= c.len(),
        0 <= w < c.len(),
        c[w] == 0,
        forall|i: int| 0 <= i < c.len() ==> c[i] >= 0,
    ensures
        sum_ints(matched_by(c, w, k)) == 0,
{
    assert(matched_by(c, w, k) =~= Seq::new(k as nat, |i: int| 0int));
    lemma_zero_sum(k as nat);
}

/// Layer by layer, the strongest seat still in the hand wins from every
/// contributor as much as it contributed itself.
proof fn lemma_layers_pay_the_best(s: GameState, c: Seq<int>, p: Seq<int>, w: int)
    requires
        c.len() == s.players.len(),
        p.len() == s.players.len(),
        s.players.len() <= usize::MAX,
        0 <= w < s.players.len(),
        !s.players[w].folded,
        forall|i: int| 0 <= i < c.len() ==> c[i] >= 0,
        forall|i: int| 0 <= i < c.len() && s.players[i].folded ==> c[i] <= c[w],
        forall|i: int| 0 <= i < s.players.len() && i != w && !s.players[i].folded
            ==> hand_compare(#[trigger] seat_hand(s, i), seat_hand(s, w)) < 0,
    ensures
        settle_layers(s, c, p)[w] == p[w] + sum_ints(matched_by(c, w, c.len() as int)),
    decreases positive_positions(c, c.len() as int).len(),
{
    let ps = s.players;
    let n = c.len() as int;
    let cs = positive_positions(c, n);
    lemma_positive_positions_positive(c, n);
    lemma_min_positive(c, n);
    if cs.len() == 0 {
        assert forall|i: int| 0 <= i < n implies c[i] == 0 by {}
        lemma_matched_none(c, w, n);
    } else {
        let m = min_positive(c, n);
        let c2 = peel_layer(c, m);
        lemma_layer_shrinks(c);
        lemma_live_seat_counted(ps, w);
        assert forall|k: int| 0 <= k < cs.len() implies #[trigger] cs[k] < ps.len() by {}
        lemma_eligible_nonempty(s, cs);
        lemma_eligible_live(s, cs);
        let e = eligible_for(s, cs);
        lemma_best_seats_nonempty(s, e);
        let ws = best_seats(s, e);
        assert forall|k: int| 0 <= k < ws.len() implies #[trigger] ws[k] < p.len() by {
            assert(e.contains(ws[k]));
        }
        if c[w] > 0 {
            assert forall|i: int| 0 <= i < n && i != w && !ps[i].folded implies #[trigger] seat_hand(s, i) != seat_hand(s, w) by {
                lemma_hand_compare_antisymmetric(seat_hand(s, i), seat_hand(s, w));
            }
            lemma_only_w_among_contributors(s, c, n, w);
            let la = live_among(ps, cs);
            lemma_seats_with_hand_subset(s, la, seat_hand(s, w));
            let sw = seats_with_hand(s, la, seat_hand(s, w));
            assert(sw[0] == w as usize);
            assert(la.contains(sw[0]));
            assert(e == la);
            lemma_top_hand_is_top(s, e);
            let top = top_hand(s, e);
            let k = choose|k: int| 0 <= k < e.len() && #[trigger] seat_hand(s, e[k] as int) == top;
            let j = choose|j: int| 0 <= j < e.len() && e[j] == w as usize;
            assert(hand_compare(seat_hand(s, e[j] as int), top) <= 0);
            if e[k] as int != w {
                assert(!ps[e[k] as int].folded);
                assert(hand_compare(seat_hand(s, e[k] as int), seat_hand(s, w)) < 0);
                lemma_hand_compare_antisymmetric(seat_hand(s, w), top);
            }
            assert(top == seat_hand(s, w));
            assert(ws == seq![w as usize]);
            let pot = m * cs.len();
            assert(pot / 1 == pot && pot % 1 == 0) by (nonlinear_arith);
            assert(ws.drop_last() =~= Seq::<usize>::empty());
            assert(pay_each(p, ws.drop_last(), pot) == p);
            let paid = pay_each(p, ws, pot);
            assert(paid == p.update(w, p[w] + pot));
            assert(pay_odd(paid, odd_chip_order(ws, odd_chip_button(s)), 0) == paid);
            let p2 = award(p, ws, pot, odd_chip_button(s));
            assert(p2 =~= p.update(w, p[w] + pot));
            assert forall|i: int| 0 <= i < n && ps[i].folded implies c2[i] <= c2[w] by {}
            lemma_layers_pay_the_best(s, c2, p2, w);
            lemma_matched_peel(c, m, w, n);
        } else {
            assert forall|k: int| 0 <= k < cs.len() implies !ps[#[trigger] cs[k] as int].folded by {
                assert(c[cs[k] as int] > 0);
            }
            lemma_live_among_all(ps, cs);
            assert(e == cs);
            if ws.contains(w as usize) {
                let k = choose|k: int| 0 <= k < ws.len() && ws[k] == w as usize;
                assert(e.contains(ws[k]));
                let j = choose|j: int| 0 <= j < cs.len() && cs[j] == ws[k];
                assert(c[cs[j] as int] > 0);
            }
            lemma_award_spares(p, ws, m * cs.len(), odd_chip_button(s), w);
            let p2 = award(p, ws, m * cs.len(), odd_chip_button(s));
            assert forall|i: int| 0 <= i < n && ps[i].folded implies c2[i] <= c2[w] by {}
            lemma_layers_pay_the_best(s, c2, p2, w);
            lemma_matched_none(c2, w, n);
            lemma_matched_none(c, w, n);
        }
    }
}

/// Side pots: when one seat still in the hand beats every other seat still
/// in it, and no seat that folded put in more than it did, that seat wins
/// from every seat as much as it put in itself: all of a smaller
/// contribution, and its own amount of a larger one.
pub proof fn lemma_best_hand_wins_its_side_pots(s: GameState, w: int)
    requires
        1 <= s.players.len() <= usize::MAX,
        0 <= w < s.players.len(),
        !s.players[w].folded,
        forall|i: int| 0 <= i < s.players.len() && #[trigger] s.players[i].folded
            ==> s.players[i].committed <= s.players[w].committed,
        forall|i: int| 0 <= i < s.players.len() && i != w && !s.players[i].folded
            ==> hand_compare(#[trigger] seat_hand(s, i), seat_hand(s, w)) < 0,
    ensures
        showdown_payouts(s)[w] == sum_ints(matched_by(commitments(s.players), w, s.players.len() as int)),
{
    let ps = s.players;
    let n = ps.len() as int;
    let c = commitments(ps);
    lemma_live_seat_counted(ps, w);
    if count_live(ps) == 1 {
        lemma_first_live(ps, 0);
        let f = first_live_from(ps, 0);
        if f != w {
            if f < w {
                assert(!ps[f].folded);
                lemma_two_live(ps, f, w);
            } else {
                assert(ps[w].folded);
            }
        }
        assert forall|i: int| 0 <= i < n && i != w implies #[trigger] ps[i].folded by {
            if !ps[i].folded {
                lemma_two_live(ps, i, w);
            }
        }
        assert forall|i: int| 0 <= i < n implies #[trigger] matched_by(c, w, n)[i] == c[i] by {
            if i != w {
                assert(ps[i].folded);
            }
        }
        assert(matched_by(c, w, n) =~= c);
        lemma_sum_commitments(ps);
    } else {
        let zeros = Seq::new(n as nat, |i: int| 0int);
        lemma_layers_pay_the_best(s, c, zeros, w);
    }
}

/// Two different seats still in the hand make two live seats.
pub proof fn lemma_two_live(ps: Seq<Player>, i: int, j: int)
    requires
        0 <= i < ps.len(),
        0 <= j < ps.len(),
        i != j,
        !ps[i].folded,
        !ps[j].folded,
    ensures
        count_live(ps) >= 2,
    decreases ps.len(),
{
    let last = ps.len() - 1;
    if i < last && j < last {
        lemma_two_live(ps.drop_last(), i, j);
    } else if i == last {
        lemma_live_seat_counted(ps.drop_last(), j);
    } else {
        lemma_live_seat_counted(ps.drop_last(), i);
    }
}

} // verus!
