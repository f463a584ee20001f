//! Properties of the engine as a whole: chips are never created or lost,
//! and the table's bookkeeping survives every step of a hand.

use vstd::prelude::*;
use crate::game::{Action, GameState, Player, count_live, sum_committed, sum_stacks, total_chips,
    lemma_nothing_committed};
use crate::showdown::{all_nonneg, award, best_seats, eligible_for, lemma_award_conserves, lemma_best_seats_nonempty,
    lemma_eligible_nonempty, lemma_layer_shrinks, lemma_positive_positions_bound,
    lemma_min_positive, lemma_peel_conserves, min_positive, peel_layer, positive_positions,
    settle_layers, sum_ints, settle_of, showdown_payouts, commitments, first_live_from,
    lemma_sum_update, lemma_zero_sum, lemma_sum_commitments, lemma_first_live, lemma_none_live,
    lemma_entry_le_sum};
use crate::game::{lemma_sum_stacks_bounds, deal_community_of, next_to_act_of, round_complete_of, min_raise_to_of};
use crate::game::{Street, start_hand_of, reset_for_hand, next_live_of, deal_hole_round, pay_chips,
    lemma_same_stacks, lemma_deal_round_keeps_chips, lemma_deal_round_takes, lemma_live_from_start,
    lemma_live_counts_by_flags, lemma_seats_in_new_hand, seats_with_chips,
    lemma_total_after_update, lemma_seat_within_total, lemma_next_live_other,
    lemma_next_live_scan_in_range};
use crate::deck::{ordered_deck, shuffled, lemma_shuffle_is_permutation};
use crate::progress::{hand_in_play, stacks_ok, lemma_next_to_act_needs};
use crate::game::needs_to_act_of;
use crate::betting::{table_ok, act_of, clamp_to, apply_of, run_streets, streets_left, is_betting_street,
    first_to_act_from, lemma_act_keeps_table, lemma_deal_keeps_table,
    lemma_next_to_act_in_range, lemma_first_to_act_in_range};

verus! {

/// Every layer of a showdown has a winner when someone is still in the
/// hand, so the layers pay out exactly what was put in.
proof fn lemma_layers_conserve(s: GameState, c: Seq<int>, p: Seq<int>)
    requires
        count_live(s.players) >= 1,
        c.len() == s.players.len(),
        p.len() == s.players.len(),
        s.players.len() <= usize::MAX,
        all_nonneg(c),
        all_nonneg(p),
    ensures
        sum_ints(settle_layers(s, c, p)) == sum_ints(p) + sum_ints(c),
        settle_layers(s, c, p).len() == p.len(),
        all_nonneg(settle_layers(s, c, p)),
    decreases positive_positions(c, c.len() as int).len(),
{
    let n = c.len() as int;
    let cs = positive_positions(c, n);
    if cs.len() == 0 {
        assert forall|i: int| 0 <= i < n implies c[i] == 0 by {
            lemma_min_positive(c, n);
        }
        lemma_all_zero(c);
    } else {
        let layer = min_positive(c, n);
        lemma_min_positive(c, n);
        lemma_layer_shrinks(c);
        lemma_peel_conserves(c, layer);
        let c2 = peel_layer(c, layer);
        assert(all_nonneg(c2));
        let e = eligible_for(s, cs);
        lemma_positive_positions_bound(c, n);
        lemma_eligible_nonempty(s, cs);
        lemma_best_seats_nonempty(s, e);
        let ws = best_seats(s, e);
        assert forall|k: int| 0 <= k < ws.len() implies #[trigger] ws[k] < p.len() by {
            assert(e.contains(ws[k]));
        }
        lemma_award_conserves(p, ws, layer * cs.len(), crate::showdown::odd_chip_button(s));
        lemma_layers_conserve(s, c2, award(p, ws, layer * cs.len(), crate::showdown::odd_chip_button(s)));
    }
}

proof fn lemma_all_zero(c: Seq<int>)
    requires
        forall|i: int| 0 <= i < c.len() ==> c[i] == 0,
    ensures
        sum_ints(c) == 0,
    decreases c.len(),
{
    if c.len() > 0 {
        lemma_all_zero(c.drop_last());
    }
}


proof fn lemma_stacks_plus(a: Seq<Player>, b: Seq<Player>, p: Seq<int>)
    requires
        a.len() == b.len(),
        p.len() == a.len(),
        forall|i: int| 0 <= i < a.len() ==> #[trigger] b[i].stack == a[i].stack + p[i],
    ensures
        sum_stacks(b) == sum_stacks(a) + sum_ints(p),
    decreases a.len(),
{
    if a.len() > 0 {
        lemma_stacks_plus(a.drop_last(), b.drop_last(), p.drop_last());
    }
}

/// What the showdown pays out adds up to the pot, provided someone is
/// still in the hand.
pub proof fn lemma_payouts_sum_to_pot(s: GameState)
    requires
        count_live(s.players) >= 1,
        s.players.len() <= usize::MAX,
    ensures
        showdown_payouts(s).len() == s.players.len(),
        all_nonneg(showdown_payouts(s)),
        sum_ints(showdown_payouts(s)) == sum_committed(s.players),
{
    let n = s.players.len();
    let zeros = Seq::new(n, |i: int| 0int);
    lemma_zero_sum(n);
    if count_live(s.players) == 1 {
        let w = first_live_from(s.players, 0);
        lemma_first_live(s.players, 0);
        if w >= n {
            lemma_none_live(s.players);
        }
        let pot = sum_committed(s.players) as int;
        assert(showdown_payouts(s) =~= zeros.update(w, zeros[w] + pot));
        lemma_sum_update(zeros, w, pot);
    } else {
        lemma_sum_commitments(s.players);
        lemma_layers_conserve(s, commitments(s.players), zeros);
    }
}

/// Settling a hand in which someone still holds cards gives every chip in
/// the pot back to the stacks: the table total is unchanged and nothing
/// stays committed.
pub proof fn lemma_settle_conserves_chips(s: GameState)
    requires
        count_live(s.players) >= 1,
        total_chips(s) <= u32::MAX,
        s.players.len() <= usize::MAX,
    ensures
        total_chips(settle_of(s)) == total_chips(s),
        sum_committed(settle_of(s).players) == 0,
        forall|i: int| 0 <= i < s.players.len() ==> #[trigger] settle_of(s).players[i].stack
            == s.players[i].stack + showdown_payouts(s)[i],
{
    let p = showdown_payouts(s);
    lemma_payouts_sum_to_pot(s);
    let t = settle_of(s);
    assert forall|i: int| 0 <= i < s.players.len() implies #[trigger] t.players[i].stack == s.players[i].stack + p[i] by {
        lemma_entry_le_sum(p, i);
        lemma_sum_stacks_bounds(s.players, i);
    }
    lemma_stacks_plus(s.players, t.players, p);
    lemma_nothing_committed(t.players);
}


proof fn lemma_count_live_same(a: Seq<Player>, b: Seq<Player>)
    requires
        a.len() == b.len(),
        forall|i: int| 0 <= i < a.len() ==> #[trigger] a[i].folded == b[i].folded,
    ensures
        count_live(a) == count_live(b),
    decreases a.len(),
{
    if a.len() > 0 {
        lemma_count_live_same(a.drop_last(), b.drop_last());
    }
}

proof fn lemma_count_live_one_change(a: Seq<Player>, b: Seq<Player>, j: int)
    requires
        a.len() == b.len(),
        0 <= j < a.len(),
        forall|i: int| 0 <= i < a.len() && i != j ==> #[trigger] a[i].folded == b[i].folded,
    ensures
        count_live(b) + 1 >= count_live(a),
    decreases a.len(),
{
    if a.len() > 0 {
        if j < a.len() - 1 {
            lemma_count_live_one_change(a.drop_last(), b.drop_last(), j);
        } else {
            lemma_count_live_same(a.drop_last(), b.drop_last());
        }
    }
}

/// Settling keeps the table's bookkeeping when someone still holds cards.
proof fn lemma_settle_keeps_table(s: GameState)
    requires
        table_ok(s),
        count_live(s.players) >= 1,
    ensures
        table_ok(settle_of(s)),
        total_chips(settle_of(s)) == total_chips(s),
{
    lemma_settle_conserves_chips(s);
    let t = settle_of(s);
    assert(t.players.len() == s.players.len());
    assert forall|i: int| 0 <= i < t.players.len() implies #[trigger] t.players[i].bet <= t.players[i].committed
        && t.players[i].bet <= t.current_bet by {
        assert(s.players[0].bet <= s.current_bet);
        assert(t.players[i].bet == 0 && t.players[i].committed == 0);
    }
    assert(!is_betting_street(t.street));
}

/// Dealing out the remaining streets keeps every chip at the table.
proof fn lemma_run_streets_conserves(s: GameState)
    requires
        table_ok(s),
        count_live(s.players) >= 1,
    ensures
        table_ok(run_streets(s)),
        total_chips(run_streets(s)) == total_chips(s),
    decreases streets_left(s.street),
{
    if s.street is River {
        lemma_settle_keeps_table(s);
    } else if is_betting_street(s.street) {
        let dealt = match s.street {
            Street::Preflop => deal_community_of(s, 3, Street::Flop),
            Street::Flop => deal_community_of(s, 1, Street::Turn),
            _ => deal_community_of(s, 1, Street::River),
        };
        match s.street {
            Street::Preflop => lemma_deal_keeps_table(s, 3, Street::Flop),
            Street::Flop => lemma_deal_keeps_table(s, 1, Street::Turn),
            _ => lemma_deal_keeps_table(s, 1, Street::River),
        }
        lemma_count_live_same(s.players, dealt.players);
        lemma_first_to_act_in_range(dealt, 0);
        if !(first_to_act_from(dealt, 0) is Some && crate::betting::count_can_act(dealt.players, dealt.players.len() as int) >= 2) {
            lemma_run_streets_conserves(dealt);
        }
    }
}

/// Chips are conserved at every step: any action, and the streets and
/// showdown it leads to, leaves the table total unchanged and the table's
/// bookkeeping intact, as long as someone is left holding cards to win the
/// pot (so not when the only seat still in the hand folds).
pub proof fn lemma_apply_conserves_chips(s: GameState, action: Action)
    requires
        table_ok(s),
        count_live(s.players) >= 1,
        count_live(s.players) == 1 && !s.players[s.to_act].folded ==> !(action is Fold),
    ensures
        total_chips(apply_of(s, action)) == total_chips(s),
        table_ok(apply_of(s, action)),
{
    let t = act_of(s, action);
    lemma_act_keeps_table(s, action);
    lemma_count_live_one_change(s.players, t.players, s.to_act);
    if !(action is Fold) || s.players[s.to_act].folded {
        assert forall|i: int| 0 <= i < s.players.len() implies #[trigger] s.players[i].folded == t.players[i].folded by {
            if action is Raise && i != s.to_act {
                assert(t.players[i].folded == s.players[i].folded);
            }
        }
        lemma_count_live_same(s.players, t.players);
    }
    if count_live(t.players) <= 1 {
        lemma_settle_keeps_table(t);
    } else if !round_complete_of(t) {
        lemma_next_to_act_in_range(t, t.to_act);
    } else {
        lemma_run_streets_conserves(t);
    }
}


/// Starting a hand with an empty pot keeps every chip at the table.
pub proof fn lemma_start_hand_conserves_chips(s: GameState)
    requires
        s.players.len() >= 1,
        seats_with_chips(s.players) <= 26,
        0 <= s.button,
        0 <= s.small_blind,
        0 <= s.big_blind,
        sum_committed(s.players) == 0,
    ensures
        total_chips(start_hand_of(s)) == total_chips(s),
{
    lemma_start_hand_facts(s);
}

/// The facts about a fresh hand that both start-of-hand laws use.
proof fn lemma_start_hand_facts(s: GameState)
    requires
        s.players.len() >= 1,
        seats_with_chips(s.players) <= 26,
        0 <= s.button,
        0 <= s.small_blind,
        0 <= s.big_blind,
    ensures
        total_chips(start_hand_of(s)) == sum_stacks(s.players),
        ({
            let ps0 = s.players.map_values(|p: Player| reset_for_hand(p));
            let shuffle = shuffled(ordered_deck(), s.rng);
            let button = next_live_of(ps0, s.button);
            let round0 = deal_hole_round(ps0, shuffle.0, button, 0, 0);
            let round1 = deal_hole_round(round0.0, round0.1, button, 1, 0);
            &&& round1.0.len() == s.players.len()
            &&& round1.1.len() == 52 - 2 * seats_with_chips(s.players)
            &&& forall|i: int| 0 <= i < s.players.len() ==> {
                let q = #[trigger] round1.0[i];
                &&& q.stack == s.players[i].stack
                &&& q.committed == 0
                &&& q.bet == 0
                &&& q.folded == (s.players[i].stack == 0)
            }
            &&& 0 <= button < s.players.len()
        }),
{
    let n = s.players.len() as int;
    let ps0 = s.players.map_values(|p: Player| reset_for_hand(p));
    let shuffle = shuffled(ordered_deck(), s.rng);
    lemma_shuffle_is_permutation(ordered_deck(), s.rng, 51);
    let button = next_live_of(ps0, s.button);
    assert(0 <= (s.button + 1) % n < n) by (nonlinear_arith)
        requires n >= 1, s.button >= 0;
    lemma_next_live_scan_in_range(ps0, (s.button + 1) % n, 0);
    let round0 = deal_hole_round(ps0, shuffle.0, button, 0, 0);
    let round1 = deal_hole_round(round0.0, round0.1, button, 1, 0);
    lemma_deal_round_keeps_chips(ps0, shuffle.0, button, 0, 0);
    lemma_deal_round_keeps_chips(round0.0, round0.1, button, 1, 0);
    lemma_seats_in_new_hand(s.players);
    lemma_live_from_start(ps0, button);
    lemma_deal_round_takes(ps0, shuffle.0, button, 0, 0);
    lemma_live_counts_by_flags(ps0, round0.0, button, 0);
    lemma_live_from_start(round0.0, button);
    lemma_deal_round_takes(round0.0, round0.1, button, 1, 0);
    let ps2 = round1.0;
    assert forall|i: int| 0 <= i < n implies #[trigger] ps2[i].stack == s.players[i].stack by {
        assert(round0.0[i].stack == ps0[i].stack);
    }
    lemma_same_stacks(ps2, s.players);
    assert forall|i: int| 0 <= i < n implies #[trigger] ps2[i].committed == 0 by {
        assert(round0.0[i].committed == ps0[i].committed);
    }
    lemma_nothing_committed(ps2);
    let g2 = GameState { players: ps2, ..s };
    let sb = next_live_of(ps2, button);
    assert(0 <= (button + 1) % n < n) by (nonlinear_arith)
        requires n >= 1, button >= 0, button < n;
    lemma_next_live_scan_in_range(ps2, (button + 1) % n, 0);
    let bb = next_live_of(ps2, sb);
    assert(0 <= (sb + 1) % n < n) by (nonlinear_arith)
        requires n >= 1, sb >= 0, sb < n;
    lemma_next_live_scan_in_range(ps2, (sb + 1) % n, 0);
    lemma_seat_within_total(g2, sb);
    let ps3 = ps2.update(sb, pay_chips(ps2[sb], s.small_blind));
    lemma_total_after_update(ps2, sb, pay_chips(ps2[sb], s.small_blind));
    let g3 = GameState { players: ps3, ..s };
    assert(total_chips(g3) == total_chips(g2));
    lemma_seat_within_total(g3, bb);
    let ps4 = ps3.update(bb, pay_chips(ps3[bb], s.big_blind));
    lemma_total_after_update(ps3, bb, pay_chips(ps3[bb], s.big_blind));
    assert(start_hand_of(s).players == ps4);
    assert(total_chips(start_hand_of(s)) == total_chips(g2));
    assert forall|i: int| 0 <= i < n implies {
        let q = #[trigger] round1.0[i];
        &&& q.stack == s.players[i].stack
        &&& q.committed == 0
        &&& q.bet == 0
        &&& q.folded == (s.players[i].stack == 0)
    } by {
        assert(round0.0[i].stack == ps0[i].stack);
    }
}


/// A new hand between at least two seats with chips (and a small blind no
/// bigger than the big blind) satisfies the table's bookkeeping.
pub proof fn lemma_start_hand_table_ok(s: GameState, i: int, j: int)
    requires
        1 <= s.players.len() < u32::MAX,
        seats_with_chips(s.players) <= 23,
        0 <= s.button,
        total_chips(s) <= u32::MAX,
        0 <= s.small_blind <= s.big_blind,
        0 <= i < s.players.len(),
        0 <= j < s.players.len(),
        i != j,
        s.players[i].stack > 0,
        s.players[j].stack > 0,
    ensures
        table_ok(start_hand_of(s)),
{
    lemma_start_hand_facts(s);
    let n = s.players.len() as int;
    let ps0 = s.players.map_values(|p: Player| reset_for_hand(p));
    let shuffle = shuffled(ordered_deck(), s.rng);
    let button = next_live_of(ps0, s.button);
    let round0 = deal_hole_round(ps0, shuffle.0, button, 0, 0);
    let round1 = deal_hole_round(round0.0, round0.1, button, 1, 0);
    let ps2 = round1.0;
    assert(!ps2[i].folded && !ps2[j].folded);
    let other_than_button = if i != button { i } else { j };
    lemma_next_live_other(ps2, button, other_than_button);
    let sb = next_live_of(ps2, button);
    let other_than_sb = if i != sb { i } else { j };
    lemma_next_live_other(ps2, sb, other_than_sb);
    let bb = next_live_of(ps2, sb);
    let ps3 = ps2.update(sb, pay_chips(ps2[sb], s.small_blind));
    let ps4 = ps3.update(bb, pay_chips(ps3[bb], s.big_blind));
    let t = start_hand_of(s);
    assert(t.players == ps4);
    let s1 = GameState {
        players: ps4,
        button,
        community: Seq::empty(),
        street: Street::Preflop,
        current_bet: s.big_blind,
        min_raise: s.big_blind,
        last_payouts: Seq::empty(),
        deck: round1.1,
        rng: shuffle.1,
        ..s
    };
    assert(t == GameState { to_act: next_to_act_of(s1, bb), ..s1 });
    lemma_next_to_act_in_range(s1, bb);
    lemma_stacks_le_total(s);
    assert forall|k: int| 0 <= k < n implies #[trigger] t.players[k].bet <= t.players[k].committed
        && t.players[k].bet <= t.current_bet by {
        assert(ps2[k].bet == 0 && ps2[k].committed == 0);
    }
}

proof fn lemma_stacks_le_total(s: GameState)
    ensures
        sum_stacks(s.players) <= total_chips(s),
{
}


/// A new hand between at least two seats with chips (and a small blind no
/// bigger than the big blind) is a hand in play: the table's bookkeeping
/// holds, the turn is at a seat owing an action (or nobody owes one), and
/// every seat that can bet has chips.
pub proof fn lemma_start_hand_in_play(s: GameState, i: int, j: int)
    requires
        1 <= s.players.len() < u32::MAX,
        seats_with_chips(s.players) <= 23,
        0 <= s.button,
        total_chips(s) <= u32::MAX,
        0 <= s.small_blind <= s.big_blind,
        0 <= i < s.players.len(),
        0 <= j < s.players.len(),
        i != j,
        s.players[i].stack > 0,
        s.players[j].stack > 0,
    ensures
        hand_in_play(start_hand_of(s)),
{
    lemma_start_hand_table_ok(s, i, j);
    lemma_start_hand_facts(s);
    let n = s.players.len() as int;
    let ps0 = s.players.map_values(|p: Player| reset_for_hand(p));
    let shuffle = shuffled(ordered_deck(), s.rng);
    let button = next_live_of(ps0, s.button);
    let round0 = deal_hole_round(ps0, shuffle.0, button, 0, 0);
    let round1 = deal_hole_round(round0.0, round0.1, button, 1, 0);
    let ps2 = round1.0;
    let other_than_button = if i != button { i } else { j };
    lemma_next_live_other(ps2, button, other_than_button);
    let sb = next_live_of(ps2, button);
    let other_than_sb = if i != sb { i } else { j };
    lemma_next_live_other(ps2, sb, other_than_sb);
    let bb = next_live_of(ps2, sb);
    let ps3 = ps2.update(sb, pay_chips(ps2[sb], s.small_blind));
    let ps4 = ps3.update(bb, pay_chips(ps3[bb], s.big_blind));
    let t = start_hand_of(s);
    assert(t.players == ps4);
    let s1 = GameState {
        players: ps4,
        button,
        community: Seq::empty(),
        street: Street::Preflop,
        current_bet: s.big_blind,
        min_raise: s.big_blind,
        last_payouts: Seq::empty(),
        deck: round1.1,
        rng: shuffle.1,
        ..s
    };
    assert(t == GameState { to_act: next_to_act_of(s1, bb), ..s1 });
    assert(!ps4[i].folded && !ps4[j].folded);
    crate::showdown::lemma_two_live(ps4, i, j);
    assert(stacks_ok(t)) by {
        assert forall|k: int| 0 <= k < n && !t.players[k].folded && !t.players[k].all_in implies #[trigger] t.players[k].stack > 0 by {
            assert(ps2[k].folded == (s.players[k].stack == 0));
        }
    }
    if exists|k: int| 0 <= k < n && needs_to_act_of(s1, k) {
        let k = choose|k: int| 0 <= k < n && needs_to_act_of(s1, k);
        lemma_next_to_act_needs(s1, bb, k);
        assert(needs_to_act_of(t, t.to_act));
    } else {
        assert(crate::game::round_complete_of(t)) by {
            assert forall|k: int| 0 <= k < n implies !#[trigger] needs_to_act_of(t, k) by {
                assert(!needs_to_act_of(s1, k));
            }
        }
    }
}

/// A check can never leave an unmatched bet: after the seat to act
/// checks, it has matched the current bet or is all in.
pub proof fn lemma_check_matches_the_bet(s: GameState)
    requires
        table_ok(s),
    ensures
        act_of(s, Action::Check).players[s.to_act].bet >= s.current_bet
            || act_of(s, Action::Check).players[s.to_act].all_in,
{
    crate::game::lemma_seat_within_total(s, s.to_act);
}

/// Facing a bet, a check is a call.
pub proof fn lemma_check_facing_bet_is_call(s: GameState)
    requires
        table_ok(s),
        s.players[s.to_act].bet < s.current_bet,
    ensures
        apply_of(s, Action::Check) == apply_of(s, Action::Call),
{
}

/// A raise from a seat that can cover the current bet lands between the
/// current bet and the seat's whole stack, and becomes the bet to match.
pub proof fn lemma_raise_is_clamped(s: GameState, to: u32)
    requires
        table_ok(s),
        s.current_bet <= s.players[s.to_act].bet + s.players[s.to_act].stack,
    ensures
        act_of(s, Action::Raise(to)).players[s.to_act].bet >= s.current_bet,
        act_of(s, Action::Raise(to)).players[s.to_act].bet
            <= s.players[s.to_act].bet + s.players[s.to_act].stack,
        act_of(s, Action::Raise(to)).current_bet
            == act_of(s, Action::Raise(to)).players[s.to_act].bet,
{
    crate::game::lemma_seat_within_total(s, s.to_act);
}

/// A raise from a seat that cannot even cover the current bet is a call
/// clamped to its stack: it goes all in for less and the bet to match
/// stays where it was.
pub proof fn lemma_short_raise_is_call(s: GameState, to: u32)
    requires
        table_ok(s),
        0 <= s.min_raise,
        s.players[s.to_act].bet + s.players[s.to_act].stack < s.current_bet,
    ensures
        act_of(s, Action::Raise(to)) == act_of(s, Action::Call),
        act_of(s, Action::Raise(to)).players[s.to_act].all_in,
        act_of(s, Action::Raise(to)).players[s.to_act].stack == 0,
        act_of(s, Action::Raise(to)).current_bet == s.current_bet,
{
    crate::game::lemma_seat_within_total(s, s.to_act);
    let seat = s.to_act;
    let p = s.players[seat];
    let to2 = clamp_to(to as int, s.current_bet, p.bet + p.stack);
    assert(pay_chips(p, to2 - p.bet) == pay_chips(p, crate::game::call_amount_of(s, seat)));
    let sa = crate::betting::move_chips_of(s, seat, to2 - p.bet);
    assert(sa == crate::betting::move_chips_of(s, seat, crate::game::call_amount_of(s, seat)));
    if 0 >= s.min_raise {
        assert(s.min_raise == 0);
        assert((GameState { min_raise: 0, ..sa }) == sa);
    }
}

/// A new hand starts with every seat in it holding chips, or all in when a
/// blind took its last chip.
pub proof fn lemma_start_hand_stacks_ok(s: GameState)
    requires
        s.players.len() >= 1,
        seats_with_chips(s.players) <= 26,
        0 <= s.button,
        0 <= s.small_blind,
        0 <= s.big_blind,
    ensures
        crate::progress::stacks_ok(start_hand_of(s)),
{
    lemma_start_hand_facts(s);
    let n = s.players.len() as int;
    let ps0 = s.players.map_values(|p: Player| reset_for_hand(p));
    let shuffle = shuffled(ordered_deck(), s.rng);
    let button = next_live_of(ps0, s.button);
    let round0 = deal_hole_round(ps0, shuffle.0, button, 0, 0);
    let round1 = deal_hole_round(round0.0, round0.1, button, 1, 0);
    lemma_deal_round_keeps_chips(ps0, shuffle.0, button, 0, 0);
    lemma_deal_round_keeps_chips(round0.0, round0.1, button, 1, 0);
    let ps2 = round1.0;
    assert forall|i: int| 0 <= i < n implies !(#[trigger] ps2[i]).all_in by {
        assert(round0.0[i].all_in == ps0[i].all_in);
    }
    let sb = next_live_of(ps2, button);
    assert(0 <= (button + 1) % n < n) by (nonlinear_arith)
        requires n >= 1, button >= 0, button < n;
    lemma_next_live_scan_in_range(ps2, (button + 1) % n, 0);
    let bb = next_live_of(ps2, sb);
    assert(0 <= (sb + 1) % n < n) by (nonlinear_arith)
        requires n >= 1, sb >= 0, sb < n;
    lemma_next_live_scan_in_range(ps2, (sb + 1) % n, 0);
    let ps3 = ps2.update(sb, pay_chips(ps2[sb], s.small_blind));
    let ps4 = ps3.update(bb, pay_chips(ps3[bb], s.big_blind));
    assert(start_hand_of(s).players == ps4);
    assert forall|i: int| 0 <= i < n && !ps3[i].folded && !ps3[i].all_in implies #[trigger] ps3[i].stack > 0 by {
        assert(ps2[i].folded == (s.players[i].stack == 0));
        assert(ps2[i].stack == s.players[i].stack);
        if i == sb {
            assert(ps3[i] == pay_chips(ps2[sb], s.small_blind));
        } else {
            assert(ps3[i] == ps2[i]);
        }
    }
    assert forall|i: int| 0 <= i < n && !ps4[i].folded && !ps4[i].all_in implies #[trigger] ps4[i].stack > 0 by {
        if i == bb {
            assert(ps4[i] == pay_chips(ps3[bb], s.big_blind));
        } else {
            assert(ps4[i] == ps3[i]);
            assert(!ps3[i].folded && !ps3[i].all_in);
        }
    }
}

/// The minimum raise follows the raises of a street. A raise that lifts
/// the bet to match by at least the minimum raise makes that increment the
/// new minimum raise; any smaller raise (one that puts the seat all in for
/// less) leaves it as it was, and so do folds, checks and calls. It never
/// goes down while the street lasts.
pub proof fn lemma_min_raise_follows_raises(s: GameState, action: Action)
    requires
        table_ok(s),
        0 <= s.min_raise,
    ensures
        act_of(s, action).min_raise >= s.min_raise,
        !(action is Raise) ==> act_of(s, action).min_raise == s.min_raise,
        action is Raise && act_of(s, action).players[s.to_act].bet - s.current_bet >= s.min_raise
            ==> act_of(s, action).min_raise == act_of(s, action).players[s.to_act].bet - s.current_bet,
        action is Raise && act_of(s, action).players[s.to_act].bet - s.current_bet < s.min_raise
            ==> act_of(s, action).min_raise == s.min_raise,
        count_live(act_of(s, action).players) >= 2 && !round_complete_of(act_of(s, action))
            ==> apply_of(s, action).min_raise == act_of(s, action).min_raise,
{
    let seat = s.to_act;
    let p = s.players[seat];
    crate::game::lemma_seat_within_total(s, seat);
    assert(p.bet + p.stack <= u32::MAX);
    if let Action::Raise(to) = action {
        let to2 = clamp_to(to as int, s.current_bet, p.bet + p.stack);
        let t = act_of(s, action);
        if to2 > s.current_bet {
            assert(to2 <= p.bet + p.stack);
            assert(pay_chips(p, to2 - p.bet).bet == to2);
            assert(t.players[seat].bet == to2);
        } else {
            assert(pay_chips(p, to2 - p.bet).bet <= s.current_bet);
            assert(t.players[seat].bet <= s.current_bet);
        }
    }
}

/// The smallest raise a seat can make: a full minimum raise over the bet
/// to match, or everything the seat has when that is less. It is always
/// above the bet to match and never more than the seat's bet and stack
/// together; there is none for a seat that folded, is all in, or cannot
/// go above the bet to match.
pub proof fn lemma_min_raise_to_bounds(s: GameState, seat: int)
    requires
        0 <= seat < s.players.len(),
        0 <= s.min_raise,
    ensures
        min_raise_to_of(s, seat) is None <==> (s.players[seat].folded || s.players[seat].all_in
            || s.players[seat].bet + s.players[seat].stack <= s.current_bet),
        min_raise_to_of(s, seat) is Some ==> s.current_bet <= min_raise_to_of(s, seat)->0
            <= s.players[seat].bet + s.players[seat].stack,
        min_raise_to_of(s, seat) is Some ==> min_raise_to_of(s, seat)->0 <= s.current_bet + s.min_raise,
        min_raise_to_of(s, seat) is Some ==> (min_raise_to_of(s, seat)->0 == s.current_bet + s.min_raise
            || min_raise_to_of(s, seat)->0 == s.players[seat].bet + s.players[seat].stack),
        min_raise_to_of(s, seat) is Some && s.min_raise > 0 ==> s.current_bet < min_raise_to_of(s, seat)->0,
{
}

} // verus!
