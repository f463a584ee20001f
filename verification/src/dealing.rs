//! Every card comes from one deck: when a hand is dealt, the hole cards of
//! the seats in the hand, the board and the cards left in the deck hold
//! each of the 52 cards exactly once, so no card is ever dealt twice.

use vstd::prelude::*;
use vstd::multiset::Multiset;
use crate::cards::Card;
use crate::deck::{ordered_deck, shuffled, lemma_ordered_deck_complete, lemma_shuffle_is_permutation};
use crate::game::{Action, GameState, Player, Street, count_live, deal_community_of, deal_hole_round,
    give_hole_card, live_from_step, next_live_of, next_to_act_of, pay_chips, reset_for_hand, round_complete_of,
    seat_offset, seats_with_chips, start_hand_of, lemma_deal_round_takes, lemma_live_counts_by_flags,
    lemma_live_from_start, lemma_next_live_scan_in_range, lemma_offset, lemma_seats_in_new_hand};
use crate::betting::{act_of, apply_of, count_can_act, first_to_act_from, is_betting_street,
    table_ok, lemma_act_keeps_table, lemma_deal_keeps_table};

verus! {

/// Hole card number `round` (0 or 1) of a seat.
pub open spec fn hole_card(p: Player, round: int) -> Card {
    if round == 0 { p.hole[0] } else { p.hole[1] }
}

/// Hole card number `round` of the seats below `i` that still hold cards.
pub open spec fn live_holes_below(ps: Seq<Player>, round: int, i: int) -> Multiset<Card>
    decreases i,
{
    if i <= 0 {
        Multiset::empty()
    } else {
        let m = live_holes_below(ps, round, i - 1);
        if !ps[i - 1].folded { m.insert(hole_card(ps[i - 1], round)) } else { m }
    }
}

/// Hole card number `round` of every seat still holding cards.
pub open spec fn live_holes(ps: Seq<Player>, round: int) -> Multiset<Card> {
    live_holes_below(ps, round, ps.len() as int)
}

/// The cards of a hand: both hole cards of the seats in it, the board and
/// the deck.
pub open spec fn cards_of_hand(s: GameState) -> Multiset<Card> {
    live_holes(s.players, 0).add(live_holes(s.players, 1)).add(s.community.to_multiset()).add(s.deck.to_multiset())
}

/// Hole card `round` of the seats below `i` still in the hand that the
/// first `k` steps of a deal round, from the seat left of `button`, reach.
spec fn reached_below(ps: Seq<Player>, round: int, button: int, k: int, i: int) -> Multiset<Card>
    decreases i,
{
    if i <= 0 {
        Multiset::empty()
    } else {
        let m = reached_below(ps, round, button, k, i - 1);
        if !ps[i - 1].folded && seat_offset(button, ps.len() as int, i - 1) < k {
            m.insert(hole_card(ps[i - 1], round))
        } else {
            m
        }
    }
}

/// A seat a deal step passes over because it has folded: what the round
/// has reached is unchanged.
proof fn lemma_step_folded(ps: Seq<Player>, round: int, button: int, k: int, i: int)
    requires
        ps.len() > 0,
        0 <= k < ps.len(),
        0 <= i <= ps.len(),
        ps[(button + 1 + k) % (ps.len() as int)].folded,
    ensures
        reached_below(ps, round, button, k + 1, i) == reached_below(ps, round, button, k, i),
    decreases i,
{
    if i > 0 {
        let n = ps.len() as int;
        lemma_offset(button, n, i - 1, k);
        lemma_step_folded(ps, round, button, k, i - 1);
    }
}

/// A deal step that gives the live seat `k` places after the button the
/// card `c`: what the round has reached gains `c`.
proof fn lemma_step_dealt(ps: Seq<Player>, round: int, button: int, k: int, i: int, c: Card)
    requires
        ps.len() > 0,
        0 <= k < ps.len(),
        0 <= i <= ps.len(),
        !ps[(button + 1 + k) % (ps.len() as int)].folded,
    ensures
        ({
            let seat = (button + 1 + k) % (ps.len() as int);
            let ps1 = ps.update(seat, give_hole_card(ps[seat], round, c));
            reached_below(ps1, round, button, k + 1, i) == if seat < i {
                reached_below(ps, round, button, k, i).insert(c)
            } else {
                reached_below(ps, round, button, k, i)
            }
        }),
    decreases i,
{
    let n = ps.len() as int;
    let seat = (button + 1 + k) % n;
    let ps1 = ps.update(seat, give_hole_card(ps[seat], round, c));
    if i > 0 {
        lemma_offset(button, n, i - 1, k);
        lemma_step_dealt(ps, round, button, k, i - 1, c);
        let before = reached_below(ps, round, button, k, i - 1);
        if seat < i - 1 && !ps[i - 1].folded && seat_offset(button, n, i - 1) < k {
            assert(before.insert(c).insert(hole_card(ps[i - 1], round))
                =~= before.insert(hole_card(ps[i - 1], round)).insert(c));
        }
    }
}

/// A deal round, from step `k` on, moves cards from the deck to the seats
/// still in the hand and touches nothing else.
proof fn lemma_round(ps: Seq<Player>, deck: Seq<Card>, button: int, round: int, k: int)
    requires
        ps.len() > 0,
        0 <= k <= ps.len(),
        deck.len() >= live_from_step(ps, button, k),
        round == 0 || round == 1,
    ensures
        ({
            let r = deal_hole_round(ps, deck, button, round, k);
            &&& reached_below(r.0, round, button, ps.len() as int, ps.len() as int).add(r.1.to_multiset())
                == reached_below(ps, round, button, k, ps.len() as int).add(deck.to_multiset())
            &&& r.0.len() == ps.len()
            &&& forall|i: int| 0 <= i < ps.len() ==> (#[trigger] r.0[i]).folded == ps[i].folded
                && hole_card(r.0[i], 1 - round) == hole_card(ps[i], 1 - round)
        }),
    decreases ps.len() - k,
{
    let n = ps.len() as int;
    if k < n {
        let seat = (button + 1 + k) % n;
        lemma_offset(button, n, 0, k);
        if !ps[seat].folded {
            let c = deck.last();
            let ps1 = ps.update(seat, give_hole_card(ps[seat], round, c));
            let deck1 = deck.drop_last();
            lemma_live_counts_by_flags(ps, ps1, button, k + 1);
            lemma_round(ps1, deck1, button, round, k + 1);
            lemma_step_dealt(ps, round, button, k, n, c);
            assert(deck =~= deck1.push(c));
            deck1.to_multiset_ensures();
            let before = reached_below(ps, round, button, k, n);
            assert(before.insert(c).add(deck1.to_multiset()) =~= before.add(deck1.to_multiset().insert(c)));
        } else {
            lemma_round(ps, deck, button, round, k + 1);
            lemma_step_folded(ps, round, button, k, n);
        }
    }
}

/// A round that has gone all the way round has reached every seat still
/// in the hand, and one that has not started has reached none.
proof fn lemma_reached_ends(ps: Seq<Player>, round: int, button: int, i: int)
    requires
        ps.len() > 0,
        0 <= i <= ps.len(),
    ensures
        reached_below(ps, round, button, ps.len() as int, i) == live_holes_below(ps, round, i),
        reached_below(ps, round, button, 0, i) == Multiset::<Card>::empty(),
    decreases i,
{
    if i > 0 {
        lemma_offset(button, ps.len() as int, i - 1, 0);
        lemma_reached_ends(ps, round, button, i - 1);
    }
}

/// The hole cards of the live seats depend only on who is live and what
/// they hold.
proof fn lemma_live_holes_same(ps: Seq<Player>, qs: Seq<Player>, round: int, i: int)
    requires
        0 <= i <= ps.len(),
        ps.len() == qs.len(),
        forall|j: int| 0 <= j < ps.len() ==> (#[trigger] qs[j]).folded == ps[j].folded
            && hole_card(qs[j], round) == hole_card(ps[j], round),
    ensures
        live_holes_below(qs, round, i) == live_holes_below(ps, round, i),
    decreases i,
{
    if i > 0 {
        assert(qs[i - 1].folded == ps[i - 1].folded);
        lemma_live_holes_same(ps, qs, round, i - 1);
    }
}

/// Every card is dealt once: right after a hand is dealt, the hole cards
/// of the seats in the hand, the board and the deck hold each of the 52
/// cards exactly once.
pub proof fn lemma_every_card_dealt_once(s: GameState, c: Card)
    requires
        s.players.len() >= 1,
        seats_with_chips(s.players) <= 26,
    ensures
        cards_of_hand(start_hand_of(s)) == ordered_deck().to_multiset(),
        cards_of_hand(start_hand_of(s)).count(c) == 1,
{
    let n = s.players.len() as int;
    let ps0 = s.players.map_values(|p: Player| reset_for_hand(p));
    let shuffle = shuffled(ordered_deck(), s.rng);
    lemma_shuffle_is_permutation(ordered_deck(), s.rng, 51);
    let deck0 = shuffle.0;
    let button = next_live_of(ps0, s.button);
    lemma_seats_in_new_hand(s.players);
    lemma_live_from_start(ps0, button);
    let round0 = deal_hole_round(ps0, deck0, button, 0, 0);
    lemma_round(ps0, deck0, button, 0, 0);
    lemma_reached_ends(ps0, 0, button, n);
    lemma_reached_ends(round0.0, 0, button, n);
    lemma_deal_round_takes(ps0, deck0, button, 0, 0);
    lemma_live_counts_by_flags(ps0, round0.0, button, 0);
    lemma_live_from_start(round0.0, button);
    let round1 = deal_hole_round(round0.0, round0.1, button, 1, 0);
    lemma_round(round0.0, round0.1, button, 1, 0);
    lemma_reached_ends(round0.0, 1, button, n);
    lemma_reached_ends(round1.0, 1, button, n);
    let ps2 = round1.0;
    lemma_live_holes_same(round0.0, ps2, 0, n);

    let sb = next_live_of(ps2, button);
    vstd::arithmetic::div_mod::lemma_mod_bound(button + 1, n);
    lemma_next_live_scan_in_range(ps2, (button + 1) % n, 0);
    let bb = next_live_of(ps2, sb);
    vstd::arithmetic::div_mod::lemma_mod_bound(sb + 1, n);
    lemma_next_live_scan_in_range(ps2, (sb + 1) % n, 0);
    let ps3 = ps2.update(sb, pay_chips(ps2[sb], s.small_blind));
    let ps4 = ps3.update(bb, pay_chips(ps3[bb], s.big_blind));
    lemma_live_holes_same(ps2, ps4, 0, n);
    lemma_live_holes_same(ps2, ps4, 1, n);

    let t = start_hand_of(s);
    assert(t.players == ps4);
    assert(t.deck == round1.1);
    assert(t.community.to_multiset() =~= Multiset::<Card>::empty()) by {
        t.community.to_multiset_ensures();
    }
    let h0 = live_holes(ps4, 0);
    let h1 = live_holes(ps4, 1);
    assert(cards_of_hand(t) =~= h0.add(h1.add(round1.1.to_multiset())));
    assert(h1.add(round1.1.to_multiset()) == round0.1.to_multiset());
    assert(h0.add(round0.1.to_multiset()) == deck0.to_multiset());
    lemma_ordered_deck_complete(c);
}

// ---------------------------------------------------------------------------
// Cards stay put during a hand
// ---------------------------------------------------------------------------

/// Seats that hold the same cards, of which no folded one is back in the
/// hand, hold no more live hole cards than before.
proof fn lemma_fewer_live_holes(ps: Seq<Player>, qs: Seq<Player>, round: int, i: int)
    requires
        0 <= i <= ps.len(),
        ps.len() == qs.len(),
        forall|j: int| 0 <= j < ps.len() ==> (#[trigger] qs[j]).hole == ps[j].hole
            && (!qs[j].folded ==> !ps[j].folded),
    ensures
        live_holes_below(qs, round, i).subset_of(live_holes_below(ps, round, i)),
    decreases i,
{
    if i > 0 {
        assert(qs[i - 1].hole == ps[i - 1].hole);
        lemma_fewer_live_holes(ps, qs, round, i - 1);
        let a = live_holes_below(qs, round, i - 1);
        let b = live_holes_below(ps, round, i - 1);
        let h = hole_card(ps[i - 1], round);
        if !qs[i - 1].folded {
            assert(a.insert(h).subset_of(b.insert(h)));
        } else if !ps[i - 1].folded {
            assert(a.subset_of(b.insert(h)));
        }
    }
}

/// Moving cards from the deck to the board moves them, no more.
proof fn lemma_draw_keeps_cards(community: Seq<Card>, deck: Seq<Card>, count: int)
    requires
        0 <= count <= deck.len(),
    ensures
        crate::game::draw_to_board(community, deck, count).0.to_multiset().add(
            crate::game::draw_to_board(community, deck, count).1.to_multiset(),
        ) == community.to_multiset().add(deck.to_multiset()),
    decreases count,
{
    if count > 0 {
        let c = deck.last();
        lemma_draw_keeps_cards(community.push(c), deck.drop_last(), count - 1);
        assert(deck =~= deck.drop_last().push(c));
        deck.drop_last().to_multiset_ensures();
        community.to_multiset_ensures();
        assert(community.push(c).to_multiset().add(deck.drop_last().to_multiset())
            =~= community.to_multiset().add(deck.to_multiset()));
    }
}

/// Dealing a street moves cards from the deck to the board.
proof fn lemma_deal_keeps_cards(s: GameState, count: int, next: crate::game::Street)
    requires
        0 <= count <= s.deck.len(),
    ensures
        cards_of_hand(crate::game::deal_community_of(s, count, next)) == cards_of_hand(s),
{
    let d = crate::game::deal_community_of(s, count, next);
    let n = s.players.len() as int;
    assert forall|j: int| 0 <= j < n implies (#[trigger] d.players[j]).folded == s.players[j].folded
        && hole_card(d.players[j], 0) == hole_card(s.players[j], 0)
        && hole_card(d.players[j], 1) == hole_card(s.players[j], 1) by {}
    lemma_live_holes_same(s.players, d.players, 0, n);
    lemma_live_holes_same(s.players, d.players, 1, n);
    lemma_draw_keeps_cards(s.community, s.deck, count);
    let h = live_holes(s.players, 0).add(live_holes(s.players, 1));
    assert(cards_of_hand(d) =~= h.add(d.community.to_multiset().add(d.deck.to_multiset())));
    assert(cards_of_hand(s) =~= h.add(s.community.to_multiset().add(s.deck.to_multiset())));
}

/// Settling touches no card.
proof fn lemma_settle_keeps_cards(s: GameState)
    ensures
        cards_of_hand(crate::showdown::settle_of(s)) == cards_of_hand(s),
{
    let t = crate::showdown::settle_of(s);
    let n = s.players.len() as int;
    assert forall|j: int| 0 <= j < n implies (#[trigger] t.players[j]).folded == s.players[j].folded
        && hole_card(t.players[j], 0) == hole_card(s.players[j], 0)
        && hole_card(t.players[j], 1) == hole_card(s.players[j], 1) by {}
    lemma_live_holes_same(s.players, t.players, 0, n);
    lemma_live_holes_same(s.players, t.players, 1, n);
}

/// Dealing out the remaining streets moves cards to the board and no
/// further.
proof fn lemma_run_streets_keeps_cards(s: GameState)
    requires
        table_ok(s),
    ensures
        cards_of_hand(crate::betting::run_streets(s)) == cards_of_hand(s),
    decreases crate::betting::streets_left(s.street),
{
    if s.street is River {
        lemma_settle_keeps_cards(s);
    } else if is_betting_street(s.street) {
        let dealt = match s.street {
            Street::Preflop => deal_community_of(s, 3, Street::Flop),
            Street::Flop => deal_community_of(s, 1, Street::Turn),
            _ => deal_community_of(s, 1, Street::River),
        };
        match s.street {
            Street::Preflop => {
                lemma_deal_keeps_table(s, 3, Street::Flop);
                lemma_deal_keeps_cards(s, 3, Street::Flop);
            },
            Street::Flop => {
                lemma_deal_keeps_table(s, 1, Street::Turn);
                lemma_deal_keeps_cards(s, 1, Street::Turn);
            },
            _ => {
                lemma_deal_keeps_table(s, 1, Street::River);
                lemma_deal_keeps_cards(s, 1, Street::River);
            },
        }
        if !(first_to_act_from(dealt, 0) is Some && count_can_act(dealt.players, dealt.players.len() as int) >= 2) {
            lemma_run_streets_keeps_cards(dealt);
        }
    }
}

/// No card is ever in play twice: if every card of a hand is a card of
/// the deck held at most once, then after any allowed action (and the
/// streets and showdown it leads to) that is still so: a fold takes a
/// seat's cards out of the hand, and new board cards come off the deck.
pub proof fn lemma_no_card_twice(s: GameState, action: Action)
    requires
        table_ok(s),
        cards_of_hand(s).subset_of(ordered_deck().to_multiset()),
    ensures
        cards_of_hand(apply_of(s, action)).subset_of(ordered_deck().to_multiset()),
{
    let t = act_of(s, action);
    lemma_act_keeps_table(s, action);
    let n = s.players.len() as int;
    assert forall|j: int| 0 <= j < n implies (#[trigger] t.players[j]).hole == s.players[j].hole
        && (!t.players[j].folded ==> !s.players[j].folded) by {
        match action {
            Action::Raise(_) => {
                if j != s.to_act {
                    assert(t.players[j].hole == s.players[j].hole);
                }
            },
            _ => {},
        }
    }
    lemma_fewer_live_holes(s.players, t.players, 0, n);
    lemma_fewer_live_holes(s.players, t.players, 1, n);
    let a0 = live_holes(t.players, 0);
    let a1 = live_holes(t.players, 1);
    let b0 = live_holes(s.players, 0);
    let b1 = live_holes(s.players, 1);
    let rest = s.community.to_multiset().add(s.deck.to_multiset());
    assert(cards_of_hand(t) =~= a0.add(a1).add(rest));
    assert(cards_of_hand(s) =~= b0.add(b1).add(rest));
    assert(cards_of_hand(t).subset_of(cards_of_hand(s)));
    if count_live(t.players) <= 1 {
        lemma_settle_keeps_cards(t);
    } else if !round_complete_of(t) {
        let u = GameState { to_act: next_to_act_of(t, t.to_act), ..t };
        assert(cards_of_hand(u) == cards_of_hand(t));
    } else {
        lemma_run_streets_keeps_cards(t);
    }
}

} // verus!
