//! Every hand ends: each allowed action either finishes the hand or moves
//! it strictly forward (a later street, fewer chips behind, or fewer seats
//! owing an action).

use vstd::prelude::*;
use crate::game::{Action, GameState, Player, Street, call_amount_of, count_live, deal_community_of,
    needs_to_act_of, next_to_act_of, pay_chips, reset_for_street, round_complete_of,
    sum_stacks, to_act_scan, lemma_to_act_scan_in_range};
use crate::betting::{act_of, advance_of, apply_of, clamp_to, count_can_act, first_to_act_from,
    is_betting_street, mark_acted, move_chips_of, reopen_action, run_streets, streets_left,
    table_ok, lemma_first_to_act_in_range, lemma_deal_keeps_table};
use crate::showdown::settle_of;

verus! {

/// Seats among the first `k` that owe an action.
pub open spec fn count_needing(s: GameState, k: int) -> nat
    decreases k,
{
    if k <= 0 {
        0
    } else {
        count_needing(s, k - 1) + if needs_to_act_of(s, k - 1) { 1nat } else { 0nat }
    }
}

/// Seats owing an action.
pub open spec fn owing(s: GameState) -> nat {
    count_needing(s, s.players.len() as int)
}

/// The seat to act owes an action, unless nobody does.
pub open spec fn turn_ok(s: GameState) -> bool {
    (0 <= s.to_act < s.players.len() && needs_to_act_of(s, s.to_act)) || round_complete_of(s)
}

/// A seat that can still bet has chips.
pub open spec fn stacks_ok(s: GameState) -> bool {
    forall|i: int| 0 <= i < s.players.len() && !s.players[i].folded && !s.players[i].all_in
        ==> #[trigger] s.players[i].stack > 0
}

/// `after` is strictly further along than `before`: the hand is over, or a
/// later street is reached, or on the same street fewer chips are behind,
/// or as many chips are behind and fewer seats owe an action.
pub open spec fn further_along(after: GameState, before: GameState) -> bool {
    ||| after.street is HandOver
    ||| streets_left(after.street) < streets_left(before.street)
    ||| after.street == before.street && sum_stacks(after.players) < sum_stacks(before.players)
    ||| after.street == before.street && sum_stacks(after.players) == sum_stacks(before.players)
        && owing(after) < owing(before)
}

/// A hand being played: on a betting street, two or more seats holding
/// cards, the turn at a seat that owes an action (or nobody does), and
/// every seat that can still bet holding chips.
pub open spec fn hand_in_play(s: GameState) -> bool {
    &&& table_ok(s)
    &&& is_betting_street(s.street)
    &&& count_live(s.players) >= 2
    &&& turn_ok(s)
    &&& stacks_ok(s)
}

proof fn lemma_scan_finds(s: GameState, from: int, g: int, d: int)
    requires
        1 <= s.players.len(),
        0 <= from < s.players.len(),
        0 <= g <= d <= s.players.len() - 1,
        needs_to_act_of(s, (from + 1 + d) % (s.players.len() as int)),
    ensures
        to_act_scan(s, (from + 1 + g) % (s.players.len() as int), g) is Some,
    decreases d - g,
{
    let n = s.players.len() as int;
    let i = (from + 1 + g) % n;
    if !needs_to_act_of(s, i) {
        assert(d != g);
        vstd::arithmetic::div_mod::lemma_add_mod_noop(from + 1 + g, 1, n);
        if n > 1 {
            vstd::arithmetic::div_mod::lemma_small_mod(1, n as nat);
        } else {
            assert(d == 0);
        }
        assert((i + 1) % n == (from + 1 + (g + 1)) % n);
        lemma_scan_finds(s, from, g + 1, d);
    }
}

/// When some seat owes an action, the next seat to act owes one.
pub proof fn lemma_next_to_act_needs(s: GameState, from: int, j: int)
    requires
        1 <= s.players.len(),
        0 <= from < s.players.len(),
        0 <= j < s.players.len(),
        needs_to_act_of(s, j),
    ensures
        0 <= next_to_act_of(s, from) < s.players.len(),
        needs_to_act_of(s, next_to_act_of(s, from)),
{
    let n = s.players.len() as int;
    let d = if j > from { j - from - 1 } else { j - from - 1 + n };
    if j > from {
        vstd::arithmetic::div_mod::lemma_small_mod(j as nat, n as nat);
    } else {
        vstd::arithmetic::div_mod::lemma_mod_add_multiples_vanish(j, n);
        vstd::arithmetic::div_mod::lemma_small_mod(j as nat, n as nat);
    }
    assert((from + 1 + d) % n == j);
    lemma_scan_finds(s, from, 0, d);
    vstd::arithmetic::div_mod::lemma_small_mod(0, n as nat);
    assert(0 <= (from + 1) % n < n) by (nonlinear_arith)
        requires n >= 1, from >= 0;
    lemma_to_act_scan_in_range(s, (from + 1) % n, 0);
}


proof fn lemma_count_needing_bound(s: GameState, k: int)
    requires
        0 <= k <= s.players.len(),
    ensures
        count_needing(s, k) == 0 <==> forall|i: int| 0 <= i < k ==> !#[trigger] needs_to_act_of(s, i),
    decreases k,
{
    if k > 0 {
        lemma_count_needing_bound(s, k - 1);
    }
}

/// Nobody owes an action exactly when the betting round is complete.
proof fn lemma_owing_zero(s: GameState)
    ensures
        owing(s) == 0 <==> round_complete_of(s),
{
    lemma_count_needing_bound(s, s.players.len() as int);
}

/// Two tables whose seats owe actions alike, except `seat`, which owes none
/// in `t`: `t` owes one action fewer if `seat` owed one in `s`.
proof fn lemma_owing_one_less(s: GameState, t: GameState, seat: int, k: int)
    requires
        0 <= k <= s.players.len(),
        s.players.len() == t.players.len(),
        0 <= seat < s.players.len(),
        !needs_to_act_of(t, seat),
        forall|i: int| 0 <= i < s.players.len() && i != seat ==> #[trigger] needs_to_act_of(t, i) == needs_to_act_of(s, i),
    ensures
        count_needing(t, k) + (if seat < k && needs_to_act_of(s, seat) { 1nat } else { 0nat }) == count_needing(s, k),
    decreases k,
{
    if k > 0 {
        lemma_owing_one_less(s, t, seat, k - 1);
    }
}

proof fn lemma_owing_same(s: GameState, t: GameState, k: int)
    requires
        0 <= k <= s.players.len(),
        s.players.len() == t.players.len(),
        forall|i: int| 0 <= i < s.players.len() ==> #[trigger] needs_to_act_of(t, i) == needs_to_act_of(s, i),
    ensures
        count_needing(t, k) == count_needing(s, k),
    decreases k,
{
    if k > 0 {
        lemma_owing_same(s, t, k - 1);
    }
}

proof fn lemma_stacks_after_update(ps: Seq<Player>, i: int, q: Player)
    requires
        0 <= i < ps.len(),
    ensures
        sum_stacks(ps.update(i, q)) + ps[i].stack == sum_stacks(ps) + q.stack,
    decreases ps.len(),
{
    if i < ps.len() - 1 {
        lemma_stacks_after_update(ps.drop_last(), i, q);
        assert(ps.update(i, q).drop_last() =~= ps.drop_last().update(i, q));
    } else {
        assert(ps.update(i, q).drop_last() =~= ps.drop_last());
    }
}

proof fn lemma_stacks_same(a: Seq<Player>, b: Seq<Player>)
    requires
        a.len() == b.len(),
        forall|i: int| 0 <= i < a.len() ==> #[trigger] a[i].stack == b[i].stack,
    ensures
        sum_stacks(a) == sum_stacks(b),
    decreases a.len(),
{
    if a.len() > 0 {
        lemma_stacks_same(a.drop_last(), b.drop_last());
    }
}


/// One seat changed without moving chips and now owes nothing: one action
/// fewer is owed, or the round was and stays complete.
proof fn lemma_no_chips_moved(s: GameState, t: GameState)
    requires
        turn_ok(s),
        0 <= s.to_act < s.players.len(),
        t.players.len() == s.players.len(),
        t.current_bet == s.current_bet,
        forall|i: int| 0 <= i < s.players.len() && i != s.to_act ==> #[trigger] t.players[i] == s.players[i],
        !needs_to_act_of(t, s.to_act),
    ensures
        owing(t) < owing(s) || round_complete_of(t),
{
    let n = s.players.len() as int;
    assert forall|i: int| 0 <= i < n && i != s.to_act implies #[trigger] needs_to_act_of(t, i) == needs_to_act_of(s, i) by {
        assert(t.players[i] == s.players[i]);
    }
    lemma_owing_one_less(s, t, s.to_act, n);
    if !needs_to_act_of(s, s.to_act) {
        lemma_owing_zero(s);
        lemma_owing_zero(t);
    }
}

/// The chips behind after a seat puts (up to) `amount` in.
proof fn lemma_move_chips_stacks(s: GameState, seat: int, amount: int)
    requires
        0 <= seat < s.players.len(),
        amount >= 0,
    ensures
        ({
            let p = s.players[seat];
            let pay = if amount < p.stack { amount } else { p.stack as int };
            sum_stacks(move_chips_of(s, seat, amount).players) + pay == sum_stacks(s.players)
        }),
{
    lemma_stacks_after_update(s.players, seat, pay_chips(s.players[seat], amount));
}

proof fn lemma_mark_acted_stacks(s: GameState, seat: int)
    requires
        0 <= seat < s.players.len(),
    ensures
        sum_stacks(mark_acted(s, seat).players) == sum_stacks(s.players),
{
    lemma_stacks_after_update(s.players, seat, Player { acted: true, ..s.players[seat] });
}

/// Acting either puts chips in, or leaves the seat owing nothing.
proof fn lemma_act_progress(s: GameState, action: Action)
    requires
        table_ok(s),
        stacks_ok(s),
        turn_ok(s),
    ensures
        act_of(s, action).street == s.street,
        stacks_ok(act_of(s, action)),
        sum_stacks(act_of(s, action).players) < sum_stacks(s.players) || (sum_stacks(act_of(s, action).players)
            == sum_stacks(s.players) && (owing(act_of(s, action)) < owing(s) || round_complete_of(act_of(s, action)))),
{
    let seat = s.to_act;
    let p = s.players[seat];
    let t = act_of(s, action);
    crate::game::lemma_seat_within_total(s, seat);
    assert(p.bet <= s.current_bet);
    match action {
        Action::Fold => {
            lemma_stacks_after_update(s.players, seat, Player { folded: true, ..p });
            lemma_no_chips_moved(s, t);
        },
        Action::Check | Action::Call => {
            let pays = action is Call || p.bet < s.current_bet;
            let amt = call_amount_of(s, seat);
            let s0 = if pays { move_chips_of(s, seat, amt) } else { s };
            assert(t == mark_acted(s0, seat));
            if pays {
                lemma_move_chips_stacks(s, seat, amt);
            }
            lemma_mark_acted_stacks(s0, seat);
            if !pays || amt == 0 {
                if pays && amt == 0 && p.stack == 0 {
                    assert(p.folded || p.all_in);
                }
                lemma_no_chips_moved(s, t);
            }
        },
        Action::Raise(to) => {
            let to2 = clamp_to(to as int, s.current_bet, p.bet + p.stack);
            let sa = move_chips_of(s, seat, to2 - p.bet);
            lemma_move_chips_stacks(s, seat, to2 - p.bet);
            let increment = if to2 > s.current_bet { to2 - s.current_bet } else { 0 };
            let sb = if increment >= s.min_raise { GameState { min_raise: increment, ..sa } } else { sa };
            let sc = if to2 > s.current_bet {
                GameState { current_bet: to2, players: reopen_action(sb.players, seat), ..sb }
            } else {
                sb
            };
            if to2 > s.current_bet {
                lemma_stacks_same(reopen_action(sb.players, seat), sb.players);
            }
            lemma_mark_acted_stacks(sc, seat);
            if to2 == p.bet || p.stack == 0 {
                lemma_no_chips_moved(s, t);
            }
            assert forall|i: int| 0 <= i < t.players.len() && !t.players[i].folded && !t.players[i].all_in
                implies #[trigger] t.players[i].stack > 0 by {
                if i != seat {
                    assert(t.players[i].stack == s.players[i].stack);
                }
            }
        },
    }
}


proof fn lemma_count_live_same_flags(a: Seq<Player>, b: Seq<Player>)
    requires
        a.len() == b.len(),
        forall|i: int| 0 <= i < a.len() ==> #[trigger] a[i].folded == b[i].folded,
    ensures
        count_live(a) == count_live(b),
    decreases a.len(),
{
    if a.len() > 0 {
        lemma_count_live_same_flags(a.drop_last(), b.drop_last());
    }
}

/// Dealing the remaining streets ends the hand, or reaches a later street
/// where the hand is in play.
proof fn lemma_run_streets_progress(t: GameState)
    requires
        table_ok(t),
        stacks_ok(t),
        is_betting_street(t.street),
        count_live(t.players) >= 2,
    ensures
        run_streets(t).street is HandOver || (streets_left(run_streets(t).street) < streets_left(t.street)
            && hand_in_play(run_streets(t))),
    decreases streets_left(t.street),
{
    if !(t.street is River) {
        let dealt = match t.street {
            Street::Preflop => deal_community_of(t, 3, Street::Flop),
            Street::Flop => deal_community_of(t, 1, Street::Turn),
            _ => deal_community_of(t, 1, Street::River),
        };
        match t.street {
            Street::Preflop => lemma_deal_keeps_table(t, 3, Street::Flop),
            Street::Flop => lemma_deal_keeps_table(t, 1, Street::Turn),
            _ => lemma_deal_keeps_table(t, 1, Street::River),
        }
        assert forall|i: int| 0 <= i < dealt.players.len() implies #[trigger] dealt.players[i].folded == t.players[i].folded
            && dealt.players[i].all_in == t.players[i].all_in && dealt.players[i].stack == t.players[i].stack by {
            assert(dealt.players[i] == reset_for_street(t.players[i]));
        }
        lemma_count_live_same_flags(dealt.players, t.players);
        assert(stacks_ok(dealt)) by {
            assert forall|i: int| 0 <= i < dealt.players.len() && !dealt.players[i].folded && !dealt.players[i].all_in
                implies #[trigger] dealt.players[i].stack > 0 by {
                assert(dealt.players[i] == reset_for_street(t.players[i]));
            }
        }
        lemma_first_to_act_in_range(dealt, 0);
        if first_to_act_from(dealt, 0) is Some && count_can_act(dealt.players, dealt.players.len() as int) >= 2 {
            assert(run_streets(t) == dealt);
            let s1 = GameState { to_act: t.to_act, ..dealt };
            assert(dealt == GameState { to_act: next_to_act_of(s1, t.button), ..s1 });
            let j = first_to_act_from(dealt, 0)->0;
            assert forall|i: int| 0 <= i < s1.players.len() implies #[trigger] needs_to_act_of(s1, i) == needs_to_act_of(dealt, i) by {}
            lemma_next_to_act_needs(s1, t.button, j);
        } else {
            lemma_run_streets_progress(dealt);
        }
    }
}

/// After acting, the hand ends or stays in play, further along than before.
proof fn lemma_advance_progress(s: GameState, t: GameState)
    requires
        table_ok(t),
        stacks_ok(t),
        is_betting_street(t.street),
        t.street == s.street,
        count_live(t.players) >= 1,
        sum_stacks(t.players) < sum_stacks(s.players) || (sum_stacks(t.players) == sum_stacks(s.players) && (owing(t)
            < owing(s) || round_complete_of(t))),
    ensures
        further_along(advance_of(t), s),
        advance_of(t).street is HandOver || hand_in_play(advance_of(t)),
{
    if count_live(t.players) <= 1 {
    } else if !round_complete_of(t) {
        let u = GameState { to_act: next_to_act_of(t, t.to_act), ..t };
        let j = choose|j: int| 0 <= j < t.players.len() && needs_to_act_of(t, j);
        lemma_next_to_act_needs(t, t.to_act, j);
        assert forall|i: int| 0 <= i < u.players.len() implies #[trigger] needs_to_act_of(u, i) == needs_to_act_of(t, i) by {}
        lemma_owing_same(t, u, t.players.len() as int);
    } else {
        lemma_run_streets_progress(t);
    }
}

/// Every hand ends. While a hand is in play, any allowed action either ends
/// the hand or leaves it in play and strictly further along: a later
/// street, or on the same street fewer chips behind, or as many chips
/// behind and fewer seats owing an action. Since none of these can go on
/// decreasing forever, a hand is over after finitely many actions.
pub proof fn lemma_hand_makes_progress(s: GameState, action: Action)
    requires
        hand_in_play(s),
    ensures
        further_along(apply_of(s, action), s),
        apply_of(s, action).street is HandOver || hand_in_play(apply_of(s, action)),
{
    let t = act_of(s, action);
    crate::betting::lemma_act_keeps_table(s, action);
    lemma_act_progress(s, action);
    assert forall|i: int| 0 <= i < s.players.len() && i != s.to_act implies #[trigger] t.players[i].folded == s.players[i].folded by {}
    lemma_count_live_drop(s.players, t.players, s.to_act);
    lemma_advance_progress(s, t);
}

proof fn lemma_count_live_drop(a: Seq<Player>, b: Seq<Player>, j: int)
    requires
        a.len() == b.len(),
        0 <= j < a.len(),
        forall|i: int| 0 <= i < a.len() && i != j ==> #[trigger] b[i].folded == a[i].folded,
    ensures
        count_live(b) + 1 >= count_live(a),
    decreases a.len(),
{
    if a.len() > 0 {
        if j < a.len() - 1 {
            lemma_count_live_drop(a.drop_last(), b.drop_last(), j);
        } else {
            lemma_count_live_same_flags(a.drop_last(), b.drop_last());
        }
    }
}

// ---------------------------------------------------------------------------
// What holds after every action
// ---------------------------------------------------------------------------

/// Dealing out the remaining streets ends the hand, or hands the turn to a
/// seat that owes an action.
proof fn lemma_run_streets_turn(t: GameState)
    requires
        table_ok(t),
        is_betting_street(t.street),
    ensures
        run_streets(t).street is HandOver || needs_to_act_of(run_streets(t), run_streets(t).to_act),
    decreases streets_left(t.street),
{
    if !(t.street is River) {
        let dealt = match t.street {
            Street::Preflop => deal_community_of(t, 3, Street::Flop),
            Street::Flop => deal_community_of(t, 1, Street::Turn),
            _ => deal_community_of(t, 1, Street::River),
        };
        match t.street {
            Street::Preflop => lemma_deal_keeps_table(t, 3, Street::Flop),
            Street::Flop => lemma_deal_keeps_table(t, 1, Street::Turn),
            _ => lemma_deal_keeps_table(t, 1, Street::River),
        }
        lemma_first_to_act_in_range(dealt, 0);
        if first_to_act_from(dealt, 0) is Some && count_can_act(dealt.players, dealt.players.len() as int) >= 2 {
            let s1 = GameState { to_act: t.to_act, ..dealt };
            assert(dealt == GameState { to_act: next_to_act_of(s1, t.button), ..s1 });
            let j = first_to_act_from(dealt, 0)->0;
            assert forall|i: int| 0 <= i < s1.players.len() implies #[trigger] needs_to_act_of(s1, i) == needs_to_act_of(dealt, i) by {}
            lemma_next_to_act_needs(s1, t.button, j);
        } else {
            lemma_run_streets_turn(dealt);
        }
    }
}

/// After any action on a betting street the hand is over, or the seat to
/// act owes an action: it still holds cards, is not all in, and has not
/// acted since the last raise or has a bet to match.
pub proof fn lemma_turn_owes_action(s: GameState, action: Action)
    requires
        table_ok(s),
        is_betting_street(s.street),
    ensures
        apply_of(s, action).street is HandOver || (0 <= apply_of(s, action).to_act < s.players.len()
            && needs_to_act_of(apply_of(s, action), apply_of(s, action).to_act)),
{
    let t = act_of(s, action);
    crate::betting::lemma_act_keeps_table(s, action);
    if count_live(t.players) <= 1 {
    } else if !round_complete_of(t) {
        let j = choose|j: int| 0 <= j < t.players.len() && needs_to_act_of(t, j);
        lemma_next_to_act_needs(t, t.to_act, j);
        let u = GameState { to_act: next_to_act_of(t, t.to_act), ..t };
        assert(needs_to_act_of(u, u.to_act) == needs_to_act_of(t, u.to_act));
    } else {
        lemma_run_streets_turn(t);
        crate::betting::lemma_first_to_act_in_range(t, 0);
        lemma_run_streets_seat(t);
    }
}

/// Dealing out the streets keeps the number of seats and the turn at one
/// of them.
proof fn lemma_run_streets_seat(t: GameState)
    requires
        table_ok(t),
        is_betting_street(t.street),
    ensures
        run_streets(t).players.len() == t.players.len(),
        table_ok(run_streets(t)) || run_streets(t).street is HandOver,
        0 <= run_streets(t).to_act < t.players.len(),
    decreases streets_left(t.street),
{
    if !(t.street is River) {
        let dealt = match t.street {
            Street::Preflop => deal_community_of(t, 3, Street::Flop),
            Street::Flop => deal_community_of(t, 1, Street::Turn),
            _ => deal_community_of(t, 1, Street::River),
        };
        match t.street {
            Street::Preflop => lemma_deal_keeps_table(t, 3, Street::Flop),
            Street::Flop => lemma_deal_keeps_table(t, 1, Street::Turn),
            _ => lemma_deal_keeps_table(t, 1, Street::River),
        }
        if !(first_to_act_from(dealt, 0) is Some && count_can_act(dealt.players, dealt.players.len() as int) >= 2) {
            lemma_run_streets_seat(dealt);
        }
    }
}

/// Every seat still in the hand that is not all in has chips.
proof fn lemma_act_keeps_stacks(s: GameState, action: Action)
    requires
        table_ok(s),
        stacks_ok(s),
    ensures
        stacks_ok(act_of(s, action)),
{
    let seat = s.to_act;
    let t = act_of(s, action);
    crate::betting::lemma_act_keeps_table(s, action);
    assert forall|i: int| 0 <= i < t.players.len() && !t.players[i].folded && !t.players[i].all_in
        implies #[trigger] t.players[i].stack > 0 by {
        if i != seat {
            assert(t.players[i].stack == s.players[i].stack && t.players[i].folded == s.players[i].folded
                && t.players[i].all_in == s.players[i].all_in);
        }
    }
}

proof fn lemma_settle_keeps_stacks(s: GameState)
    requires
        stacks_ok(s),
        count_live(s.players) >= 1,
        s.players.len() <= usize::MAX,
        crate::game::total_chips(s) <= u32::MAX,
    ensures
        stacks_ok(settle_of(s)),
{
    crate::laws::lemma_payouts_sum_to_pot(s);
    crate::laws::lemma_settle_conserves_chips(s);
    let t = settle_of(s);
    let p = crate::showdown::showdown_payouts(s);
    assert forall|i: int| 0 <= i < t.players.len() && !t.players[i].folded && !t.players[i].all_in
        implies #[trigger] t.players[i].stack > 0 by {
        assert(p[i] >= 0);
        assert(s.players[i].stack > 0);
    }
}

proof fn lemma_run_streets_keeps_stacks(t: GameState)
    requires
        table_ok(t),
        stacks_ok(t),
        count_live(t.players) >= 1,
    ensures
        stacks_ok(run_streets(t)),
    decreases streets_left(t.street),
{
    if t.street is River {
        lemma_settle_keeps_stacks(t);
    } else if is_betting_street(t.street) {
        let dealt = match t.street {
            Street::Preflop => deal_community_of(t, 3, Street::Flop),
            Street::Flop => deal_community_of(t, 1, Street::Turn),
            _ => deal_community_of(t, 1, Street::River),
        };
        match t.street {
            Street::Preflop => lemma_deal_keeps_table(t, 3, Street::Flop),
            Street::Flop => lemma_deal_keeps_table(t, 1, Street::Turn),
            _ => lemma_deal_keeps_table(t, 1, Street::River),
        }
        assert forall|i: int| 0 <= i < dealt.players.len() implies #[trigger] dealt.players[i].folded == t.players[i].folded
            && dealt.players[i].all_in == t.players[i].all_in && dealt.players[i].stack == t.players[i].stack by {
            assert(dealt.players[i] == reset_for_street(t.players[i]));
        }
        lemma_count_live_same_flags(dealt.players, t.players);
        if !(first_to_act_from(dealt, 0) is Some && count_can_act(dealt.players, dealt.players.len() as int) >= 2) {
            lemma_run_streets_keeps_stacks(dealt);
        }
    }
}

/// Seats in the hand have chips or are all in, after any action too: an
/// action that empties a stack puts the seat all in, and the streets and
/// showdown it leads to only add chips. (This needs someone left in the
/// hand to win the pot, as chip conservation does.)
pub proof fn lemma_stacks_kept(s: GameState, action: Action)
    requires
        table_ok(s),
        stacks_ok(s),
        count_live(act_of(s, action).players) >= 1,
    ensures
        stacks_ok(apply_of(s, action)),
{
    let t = act_of(s, action);
    crate::betting::lemma_act_keeps_table(s, action);
    lemma_act_keeps_stacks(s, action);
    if count_live(t.players) <= 1 {
        lemma_settle_keeps_stacks(t);
    } else if !round_complete_of(t) {
    } else {
        lemma_run_streets_keeps_stacks(t);
    }
}

} // verus!
