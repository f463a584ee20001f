//! Acting at the table: applying a player's action and advancing the hand
//! (next player, next street, or the showdown).

use vstd::prelude::*;
use crate::cards::Card;
use crate::game::{Action, Game, GameState, Player, Street, call_amount_of, count_live, deal_community_of,
    needs_to_act_of, next_to_act_of, pay_chips, round_complete_of, total_chips,
    lemma_seat_within_total};
use crate::game::{lemma_to_act_scan_in_range, lemma_total_after_update, lemma_same_chips, reset_for_street,
    draw_to_board};
use crate::showdown::settle_of;

verus! {

/// Streets still to be played from `st` (the hand-over state has none).
pub open spec fn streets_left(st: Street) -> nat {
    match st {
        Street::Preflop => 4,
        Street::Flop => 3,
        Street::Turn => 2,
        Street::River => 1,
        Street::Showdown => 0,
        Street::HandOver => 0,
    }
}

/// A street on which players bet.
pub open spec fn is_betting_street(st: Street) -> bool {
    st is Preflop || st is Flop || st is Turn || st is River
}

/// The number of board cards on a betting street.
pub open spec fn board_size(st: Street) -> int {
    match st {
        Street::Preflop => 0,
        Street::Flop => 3,
        Street::Turn => 4,
        _ => 5,
    }
}

/// The bookkeeping every table keeps: a sensible number of seats, the
/// button and the seat to act at the table, chip totals that fit, no seat
/// having bet more than it committed or than the current bet, and a board
/// that matches the street with enough cards left to finish it.
pub open spec fn table_ok(s: GameState) -> bool {
    &&& 1 <= s.players.len() < u32::MAX
    &&& 0 <= s.button < s.players.len()
    &&& 0 <= s.to_act < s.players.len()
    &&& total_chips(s) <= u32::MAX
    &&& forall|i: int| 0 <= i < s.players.len() ==> #[trigger] s.players[i].bet <= s.players[i].committed
        && s.players[i].bet <= s.current_bet
    &&& is_betting_street(s.street) ==> s.community.len() == board_size(s.street) && s.deck.len()
        + s.community.len() >= 5
    &&& s.community.len() <= 5
}

/// The first seat at or after `k` that owes an action.
pub open spec fn first_to_act_from(s: GameState, k: int) -> Option<int>
    decreases s.players.len() - k,
{
    if k < 0 || k >= s.players.len() {
        None
    } else if needs_to_act_of(s, k) {
        Some(k)
    } else {
        first_to_act_from(s, k + 1)
    }
}

/// Seats among the first `k` that can still put chips in (live, not all-in).
pub open spec fn count_can_act(ps: Seq<Player>, k: int) -> nat
    decreases k,
{
    if k <= 0 {
        0
    } else {
        count_can_act(ps, k - 1) + if !ps[k - 1].folded && !ps[k - 1].all_in { 1nat } else { 0nat }
    }
}

/// With the betting round over, deal street after street until at least two
/// seats can act on one (the first seat left of the button that owes an
/// action then acts, as dealing the street chose), or settle at the end of
/// the river.
pub open spec fn run_streets(s: GameState) -> GameState
    decreases streets_left(s.street),
{
    let dealt = match s.street {
        Street::Preflop => deal_community_of(s, 3, Street::Flop),
        Street::Flop => deal_community_of(s, 1, Street::Turn),
        Street::Turn => deal_community_of(s, 1, Street::River),
        _ => s,
    };
    if s.street is River {
        settle_of(s)
    } else if !is_betting_street(s.street) {
        s
    } else if first_to_act_from(dealt, 0) is Some && count_can_act(dealt.players, dealt.players.len() as int) >= 2 {
        dealt
    } else {
        run_streets(dealt)
    }
}

/// After an action: a lone remaining seat wins at once; otherwise the next
/// seat owing an action acts, or the hand moves on to later streets.
pub open spec fn advance_of(s: GameState) -> GameState {
    if count_live(s.players) <= 1 {
        settle_of(s)
    } else if !round_complete_of(s) {
        GameState { to_act: next_to_act_of(s, s.to_act), ..s }
    } else {
        run_streets(s)
    }
}

/// Put (up to) `amount` chips from `seat` into the pot.
pub open spec fn move_chips_of(s: GameState, seat: int, amount: int) -> GameState {
    GameState { players: s.players.update(seat, pay_chips(s.players[seat], amount)), ..s }
}

/// Mark `seat` as having acted.
pub open spec fn mark_acted(s: GameState, seat: int) -> GameState {
    GameState { players: s.players.update(seat, Player { acted: true, ..s.players[seat] }), ..s }
}

/// Everyone else still able to act must respond to a raise.
pub open spec fn reopen_action(ps: Seq<Player>, seat: int) -> Seq<Player> {
    Seq::new(ps.len(), |i: int| if i != seat && !ps[i].folded && !ps[i].all_in {
        Player { acted: false, ..ps[i] }
    } else {
        ps[i]
    })
}

/// `x` clamped into `lo..=hi`.
pub open spec fn clamp_to(x: int, lo: int, hi: int) -> int {
    if x < lo { lo } else if x > hi { hi } else { x }
}

/// The table after the seat to act folds, checks, calls or raises, before
/// the hand advances. A check facing a bet is treated as a call; a raise is
/// clamped between the current bet and the seat's whole stack, and a full
/// raise becomes the new minimum raise increment.
pub open spec fn act_of(s: GameState, action: Action) -> GameState {
    let seat = s.to_act;
    let p = s.players[seat];
    match action {
        Action::Fold => GameState { players: s.players.update(seat, Player { folded: true, ..p }), ..s },
        Action::Check => {
            let s0 = if p.bet < s.current_bet { move_chips_of(s, seat, call_amount_of(s, seat)) } else { s };
            mark_acted(s0, seat)
        },
        Action::Call => mark_acted(move_chips_of(s, seat, call_amount_of(s, seat)), seat),
        Action::Raise(to) => {
            let to2 = clamp_to(to as int, s.current_bet, p.bet + p.stack);
            let sa = move_chips_of(s, seat, to2 - p.bet);
            let increment = if to2 > s.current_bet { to2 - s.current_bet } else { 0 };
            let sb = if increment >= s.min_raise { GameState { min_raise: increment, ..sa } } else { sa };
            let sc = if to2 > s.current_bet {
                GameState { current_bet: to2, players: reopen_action(sb.players, seat), ..sb }
            } else {
                sb
            };
            mark_acted(sc, seat)
        },
    }
}

/// The table after the seat to act takes `action` and the game advances.
pub open spec fn apply_of(s: GameState, action: Action) -> GameState {
    advance_of(act_of(s, action))
}


/// The seat after `from` owing an action is a seat of the table.
pub proof fn lemma_next_to_act_in_range(s: GameState, from: int)
    requires
        s.players.len() >= 1,
        0 <= from < s.players.len(),
    ensures
        0 <= next_to_act_of(s, from) < s.players.len(),
{
    let n = s.players.len() as int;
    assert(0 <= (from + 1) % n < n) by (nonlinear_arith)
        requires n >= 1, from >= 0;
    lemma_to_act_scan_in_range(s, (from + 1) % n, 0);
}

pub proof fn lemma_first_to_act_in_range(s: GameState, k: int)
    ensures
        first_to_act_from(s, k) matches Some(j) ==> 0 <= j < s.players.len() && needs_to_act_of(s, j),
    decreases s.players.len() - k,
{
    if 0 <= k < s.players.len() && !needs_to_act_of(s, k) {
        lemma_first_to_act_in_range(s, k + 1);
    }
}

proof fn lemma_draw_to_board(community: Seq<Card>, deck: Seq<Card>, count: int)
    requires
        0 <= count <= deck.len(),
    ensures
        draw_to_board(community, deck, count).0.len() == community.len() + count,
        draw_to_board(community, deck, count).1.len() == deck.len() - count,
    decreases count,
{
    if count > 0 {
        lemma_draw_to_board(community.push(deck.last()), deck.drop_last(), count - 1);
    }
}

/// Dealing the next street keeps the table's bookkeeping.
pub proof fn lemma_deal_keeps_table(s: GameState, count: int, next: Street)
    requires
        table_ok(s),
        is_betting_street(s.street),
        is_betting_street(next),
        board_size(next) == board_size(s.street) + count,
        count >= 1,
    ensures
        table_ok(deal_community_of(s, count, next)),
        total_chips(deal_community_of(s, count, next)) == total_chips(s),
{
    let d = deal_community_of(s, count, next);
    let board = draw_to_board(s.community, s.deck, count);
    let s1 = GameState {
        players: s.players.map_values(|p: Player| reset_for_street(p)),
        current_bet: 0,
        min_raise: s.big_blind,
        community: board.0,
        deck: board.1,
        street: next,
        ..s
    };
    assert(d == GameState { to_act: next_to_act_of(s1, s.button), ..s1 });
    lemma_draw_to_board(s.community, s.deck, count);
    lemma_same_chips(d.players, s.players);
    lemma_next_to_act_in_range(s1, s.button);
    assert forall|i: int| 0 <= i < d.players.len() implies #[trigger] d.players[i].bet <= d.players[i].committed
        && d.players[i].bet <= d.current_bet by {
        assert(d.players[i] == reset_for_street(s.players[i]));
    }
    assert(total_chips(d) == total_chips(s));
}


impl Game {
    /// The first seat (from seat 0) that owes an action, if any.
    fn first_to_act(&self) -> (r: Option<usize>)
        ensures
            r matches Some(i) ==> first_to_act_from(self@, 0) == Some(i as int),
            r is None ==> first_to_act_from(self@, 0) is None,
    {
        let mut i: usize = 0;
        while i < self.players.len()
            invariant
                i <= self.players@.len(),
                first_to_act_from(self@, 0) == first_to_act_from(self@, i as int),
            decreases self.players@.len() - i,
        {
            if self.players[i].folded == false && self.players[i].all_in == false
                && (!self.players[i].acted || self.players[i].bet < self.current_bet)
            {
                return Some(i);
            }
            i = i + 1;
        }
        None
    }

    /// How many seats can still put chips in.
    fn can_act_count(&self) -> (c: usize)
        ensures
            c == count_can_act(self.players@, self.players@.len() as int),
    {
        let mut c: usize = 0;
        let mut i: usize = 0;
        while i < self.players.len()
            invariant
                i <= self.players@.len(),
                c == count_can_act(self.players@, i as int),
                c <= i,
            decreases self.players@.len() - i,
        {
            if !self.players[i].folded && !self.players[i].all_in {
                c = c + 1;
            }
            i = i + 1;
        }
        c
    }

    /// Betting round done: keep dealing streets until someone can act or
    /// we reach the showdown.
    fn run_out_streets(&mut self)
        requires
            table_ok(old(self)@),
        ensures
            final(self)@ == run_streets(old(self)@),
    {
        loop
            invariant
                table_ok(self@),
                run_streets(self@) == run_streets(old(self)@),
            decreases streets_left(self.street),
        {
            match self.street {
                Street::Preflop => {
                    proof {
                        lemma_deal_keeps_table(self@, 3, Street::Flop);
                    }
                    self.deal_community(3, Street::Flop);
                },
                Street::Flop => {
                    proof {
                        lemma_deal_keeps_table(self@, 1, Street::Turn);
                    }
                    self.deal_community(1, Street::Turn);
                },
                Street::Turn => {
                    proof {
                        lemma_deal_keeps_table(self@, 1, Street::River);
                    }
                    self.deal_community(1, Street::River);
                },
                Street::River => {
                    self.settle();
                    return;
                },
                _ => {
                    return;
                },
            }
            // Can anyone actually act this street? Dealing it already gave
            // the turn to the first seat left of the button that owes an
            // action.
            let actor = self.first_to_act();
            let can_act = self.can_act_count();
            if actor.is_some() {
                // Only meaningful if more than one player can still act.
                if can_act >= 2 {
                    return;
                }
            }
            // Otherwise loop: deal the next street.
        }
    }

    /// Advance the game after an action: pick the next actor, deal the next
    /// street, or go to showdown.
    fn advance(&mut self)
        requires
            table_ok(old(self)@),
        ensures
            final(self)@ == advance_of(old(self)@),
    {
        // Everyone but one folded: that player wins immediately.
        if self.live_count() <= 1 {
            self.settle();
            return;
        }
        if !self.round_complete() {
            proof {
                lemma_next_to_act_in_range(self@, self.to_act as int);
            }
            self.to_act = self.next_to_act_from(self.to_act);
            return;
        }
        self.run_out_streets();
    }
}


/// Moving chips into the pot keeps every chip at the table.
proof fn lemma_move_chips_total(s: GameState, seat: int, amount: int)
    requires
        0 <= seat < s.players.len(),
        amount >= 0,
        total_chips(s) <= u32::MAX,
    ensures
        total_chips(move_chips_of(s, seat, amount)) == total_chips(s),
{
    lemma_seat_within_total(s, seat);
    lemma_total_after_update(s.players, seat, pay_chips(s.players[seat], amount));
}

proof fn lemma_mark_acted_total(s: GameState, seat: int)
    requires
        0 <= seat < s.players.len(),
    ensures
        total_chips(mark_acted(s, seat)) == total_chips(s),
{
    lemma_total_after_update(s.players, seat, Player { acted: true, ..s.players[seat] });
}

/// Acting keeps the table's bookkeeping and every chip at the table.
pub proof fn lemma_act_keeps_table(s: GameState, action: Action)
    requires
        table_ok(s),
    ensures
        table_ok(act_of(s, action)),
        total_chips(act_of(s, action)) == total_chips(s),
        act_of(s, action).street == s.street,
        act_of(s, action).community == s.community,
        act_of(s, action).players.len() == s.players.len(),
{
    let seat = s.to_act;
    let p = s.players[seat];
    lemma_seat_within_total(s, seat);
    match action {
        Action::Fold => {
            lemma_total_after_update(s.players, seat, Player { folded: true, ..p });
        },
        Action::Check => {
            let s0 = if p.bet < s.current_bet { move_chips_of(s, seat, call_amount_of(s, seat)) } else { s };
            if p.bet < s.current_bet {
                lemma_move_chips_total(s, seat, call_amount_of(s, seat));
            }
            lemma_mark_acted_total(s0, seat);
        },
        Action::Call => {
            let s0 = move_chips_of(s, seat, call_amount_of(s, seat));
            lemma_move_chips_total(s, seat, call_amount_of(s, seat));
            lemma_mark_acted_total(s0, seat);
        },
        Action::Raise(to) => {
            let to2 = clamp_to(to as int, s.current_bet, p.bet + p.stack);
            let sa = move_chips_of(s, seat, to2 - p.bet);
            lemma_move_chips_total(s, seat, to2 - p.bet);
            let increment = if to2 > s.current_bet { to2 - s.current_bet } else { 0 };
            let sb = if increment >= s.min_raise { GameState { min_raise: increment, ..sa } } else { sa };
            let sc = if to2 > s.current_bet {
                GameState { current_bet: to2, players: reopen_action(sb.players, seat), ..sb }
            } else {
                sb
            };
            if to2 > s.current_bet {
                lemma_same_chips(reopen_action(sb.players, seat), sb.players);
            }
            lemma_mark_acted_total(sc, seat);
            assert forall|i: int| 0 <= i < sc.players.len() implies #[trigger] sc.players[i].bet <= sc.players[i].committed
                && sc.players[i].bet <= sc.current_bet by {
                assert(s.players[i].bet <= s.players[i].committed && s.players[i].bet <= s.current_bet);
            }
        },
    }
}

impl Game {
    /// Apply an action for the player whose turn it is. Advances the game.
    pub fn apply(&mut self, action: Action)
        requires
            table_ok(old(self)@),
        ensures
            final(self)@ == apply_of(old(self)@, action),
    {
        let seat = self.to_act;
        proof {
            lemma_act_keeps_table(self@, action);
            lemma_seat_within_total(self@, seat as int);
        }
        match action {
            Action::Fold => {
                self.players[seat].folded = true;
                assert(self@ =~= act_of(old(self)@, action));
            },
            Action::Check => {
                // If there's actually a bet to face, treat it as a call so a
                // stray check can never leave an unmatched bet.
                if self.players[seat].bet < self.current_bet {
                    let amt = self.call_amount(seat);
                    self.move_chips(seat, amt);
                }
                self.players[seat].acted = true;
                assert(self@ =~= act_of(old(self)@, action));
            },
            Action::Call => {
                let amt = self.call_amount(seat);
                self.move_chips(seat, amt);
                self.players[seat].acted = true;
                assert(self@ =~= act_of(old(self)@, action));
            },
            Action::Raise(to_in) => {
                let to = to_in;
                let max_to = self.max_raise_to(seat);
                let to = if to < self.current_bet {
                    self.current_bet
                } else if to > max_to {
                    max_to
                } else {
                    to
                };
                let add = to - self.players[seat].bet;
                let ghost s0 = old(self)@;
                let ghost p0 = s0.players[seat as int];
                let ghost to2 = clamp_to(to_in as int, s0.current_bet, p0.bet + p0.stack);
                assert(to as int == to2);
                self.move_chips(seat, add);
                let ghost sa = move_chips_of(s0, seat as int, to2 - p0.bet);
                assert(self@ =~= sa);
                let increment = if to > self.current_bet { to - self.current_bet } else { 0 };
                if increment >= self.min_raise {
                    self.min_raise = increment;
                }
                if to > self.current_bet {
                    self.current_bet = to;
                    // Re-open the action: everyone else must respond.
                    let n = self.players.len();
                    let ghost before = self.players@;
                    let ghost sbefore = self@;
                    let mut i: usize = 0;
                    while i < n
                        invariant
                            n == self.players@.len(),
                            n == before.len(),
                            i <= n,
                            forall|j: int| 0 <= j < i ==> #[trigger] self.players@[j] == reopen_action(before, seat as int)[j],
                            forall|j: int| i <= j < n ==> #[trigger] self.players@[j] == before[j],
                            self@ == (GameState { players: self@.players, ..sbefore }),
                            seat < n,
                        decreases n - i,
                    {
                        if i != seat && !self.players[i].folded && !self.players[i].all_in {
                            self.players[i].acted = false;
                        }
                        i = i + 1;
                    }
                    assert(self.players@ =~= reopen_action(before, seat as int));
                }
                let ghost sc = self@;
                self.players[seat].acted = true;
                assert(self@ =~= mark_acted(sc, seat as int));
                proof {
                    let increment = if to2 > s0.current_bet { to2 - s0.current_bet } else { 0 };
                    let sb = if increment >= s0.min_raise { GameState { min_raise: increment, ..sa } } else { sa };
                    let sc2 = if to2 > s0.current_bet {
                        GameState { current_bet: to2, players: reopen_action(sb.players, seat as int), ..sb }
                    } else {
                        sb
                    };
                    assert(sc =~= sc2);
                    assert(act_of(s0, action) == mark_acted(sc2, seat as int));
                }
            },
        }
        assert(self@ =~= act_of(old(self)@, action));
        self.advance();
    }
}

} // verus!
