//! What the table's controls and cues decide from the game state: when the
//! human may bet, what the betting buttons say and do, the order the deal
//! goes round, which sound plays, the blind level, and starting over.

use vstd::prelude::*;
use crate::game::{Action, Game, GameState, Payout, Player, Street, call_amount_of, start_hand_of};
use crate::table::{SfxRng, append_decimal, blinds_at, blinds_spec, decimal, sound_output, sound_step};

verus! {

// ---------------------------------------------------------------------------
// The betting bar
// ---------------------------------------------------------------------------

/// The three betting buttons.
#[derive(Clone, Copy, PartialEq, Eq, Structural, Debug)]
pub enum ActBtn {
    /// "Check" when there is nothing to call, else "Fold".
    CheckFold,
    /// "Call $<amount>" (shown only when there is a bet to call).
    Call,
    /// "Bet $<amount>" or "Raise to $<amount>", sized by the slider.
    Raise,
}

/// The betting keys pressed this frame: C (check or call), F (fold),
/// R (raise by the slider) and A (all in).
#[derive(Clone, Copy, PartialEq, Eq, Structural, Debug)]
pub struct BetKeys {
    pub check_call: bool,
    pub fold: bool,
    pub raise: bool,
    pub all_in: bool,
}

/// The human (seat 0) is to act: the hand is on, the action is on seat 0,
/// which still holds cards and is not all in, and nothing else (a pause,
/// a deal animation) holds the table.
pub open spec fn human_turn_of(g: GameState, busy: bool) -> bool {
    &&& !busy
    &&& g.street != Street::HandOver
    &&& g.to_act == 0
    &&& !g.players[0].folded
    &&& !g.players[0].all_in
}

/// Seat 0 has nothing to call.
pub open spec fn human_can_check(g: GameState) -> bool {
    g.players[0].bet == g.current_bet
}

/// What a betting button does.
pub open spec fn button_action_of(g: GameState, btn: ActBtn, amount: u32) -> Action {
    match btn {
        ActBtn::CheckFold => if human_can_check(g) { Action::Check } else { Action::Fold },
        ActBtn::Call => Action::Call,
        ActBtn::Raise => Action::Raise(amount),
    }
}

/// What a betting button says.
pub open spec fn button_text(g: GameState, btn: ActBtn, amount: u32) -> Seq<char> {
    match btn {
        ActBtn::CheckFold => if human_can_check(g) { "Check"@ } else { "Fold"@ },
        ActBtn::Call => "Call $"@ + decimal(call_amount_of(g, 0) as nat),
        ActBtn::Raise => if human_can_check(g) {
            "Bet $"@ + decimal(amount as nat)
        } else {
            "Raise to $"@ + decimal(amount as nat)
        },
    }
}

/// What the keys ask for, if anything: C checks or calls, F folds (only
/// when there is a bet to fold to), R raises to the slider amount, A goes
/// all in; the first of these that applies wins.
pub open spec fn key_action_of(g: GameState, keys: BetKeys, amount: u32) -> Option<Action> {
    if keys.check_call {
        Some(if human_can_check(g) { Action::Check } else { Action::Call })
    } else if keys.fold && !human_can_check(g) {
        Some(Action::Fold)
    } else if keys.raise {
        Some(Action::Raise(amount))
    } else if keys.all_in {
        Some(Action::Raise((g.players[0].bet + g.players[0].stack) as u32))
    } else {
        None
    }
}

/// The action chosen this frame: a key that applies, else the pressed
/// button.
pub open spec fn chosen_action_of(g: GameState, pressed: Option<ActBtn>, keys: BetKeys, amount: u32) -> Option<Action> {
    match key_action_of(g, keys, amount) {
        Some(a) => Some(a),
        None => match pressed {
            Some(b) => Some(button_action_of(g, b, amount)),
            None => None,
        },
    }
}

/// Whether the betting bar is up for the human; `busy` is true while the
/// table is paused or a deal is being animated.
pub fn human_turn(game: &Game, busy: bool) -> (b: bool)
    requires
        game.players@.len() >= 1,
    ensures
        b == human_turn_of(game@, busy),
{
    let me = &game.players[0];
    !busy && game.street != Street::HandOver && game.to_act == 0 && !me.folded && !me.all_in
}

/// The Call button only appears when there is a bet to call.
pub fn call_button_shown(game: &Game) -> (b: bool)
    requires
        game.players@.len() >= 1,
    ensures
        b == !human_can_check(game@),
{
    !game.can_check(0)
}

/// The label of a betting button, with `amount` the slider's raise total.
pub fn button_label(game: &Game, btn: ActBtn, amount: u32) -> (s: String)
    requires
        game.players@.len() >= 1,
    ensures
        s@ == button_text(game@, btn, amount),
{
    let can_check = game.can_check(0);
    match btn {
        ActBtn::CheckFold => if can_check {
            String::from_str("Check")
        } else {
            String::from_str("Fold")
        },
        ActBtn::Call => {
            let mut s = String::from_str("Call $");
            append_decimal(&mut s, game.call_amount(0));
            s
        },
        ActBtn::Raise => {
            let mut s = if can_check {
                String::from_str("Bet $")
            } else {
                String::from_str("Raise to $")
            };
            append_decimal(&mut s, amount);
            s
        },
    }
}

/// The action the human takes this frame, if any, from the button pressed
/// and the keys held; `amount` is the slider's raise total.
pub fn chosen_action(game: &Game, pressed: Option<ActBtn>, keys: BetKeys, amount: u32) -> (a: Option<Action>)
    requires
        game.players@.len() >= 1,
        keys.all_in ==> game.players@[0].bet + game.players@[0].stack <= u32::MAX,
    ensures
        a == chosen_action_of(game@, pressed, keys, amount),
{
    let can_check = game.can_check(0);
    if keys.check_call {
        return Some(if can_check { Action::Check } else { Action::Call });
    }
    if keys.fold && !can_check {
        return Some(Action::Fold);
    }
    if keys.raise {
        return Some(Action::Raise(amount));
    }
    if keys.all_in {
        return Some(Action::Raise(game.max_raise_to(0)));
    }
    match pressed {
        Some(ActBtn::CheckFold) => Some(if can_check { Action::Check } else { Action::Fold }),
        Some(ActBtn::Call) => Some(Action::Call),
        Some(ActBtn::Raise) => Some(Action::Raise(amount)),
        None => None,
    }
}

// ---------------------------------------------------------------------------
// The deal and the sounds
// ---------------------------------------------------------------------------

/// The seats dealt to, in order: the first `k` seats going round from the
/// one after the button, keeping those still in the hand.
pub open spec fn deal_order_upto(g: GameState, k: int) -> Seq<usize>
    decreases k,
{
    if k <= 0 {
        Seq::empty()
    } else {
        let earlier = deal_order_upto(g, k - 1);
        let s = (g.button + k) % (g.players.len() as int);
        if !g.players[s].folded { earlier.push(s as usize) } else { earlier }
    }
}

/// The order the hole cards go round: every seat still in the hand, starting
/// left of the button.
pub open spec fn deal_order_of(g: GameState) -> Seq<usize> {
    deal_order_upto(g, g.players.len() as int)
}

/// The seats the deal goes round, starting left of the button.
pub fn deal_order(game: &Game) -> (order: Vec<usize>)
    requires
        game.button + game.players@.len() <= usize::MAX,
    ensures
        order@ == deal_order_of(game@),
{
    let n = game.players.len();
    let mut order: Vec<usize> = Vec::new();
    let mut k: usize = 0;
    while k < n
        invariant
            n == game.players@.len(),
            k <= n,
            game.button + n <= usize::MAX,
            order@ == deal_order_upto(game@, k as int),
        decreases n - k,
    {
        let s = (game.button + k + 1) % n;
        if game.players[s].in_hand() {
            order.push(s);
        }
        k = k + 1;
    }
    order
}

/// A pick among `len` sounds that never repeats `last` when there is a
/// choice: a uniform draw, and if it hit `last`, a second draw among the
/// others. The pick and the generator's state after.
pub open spec fn fresh_pick_of(state: u64, len: int, last: int) -> (int, u64) {
    let i = (sound_output(state) as int) % len;
    if len > 1 && i == last {
        let s1 = sound_step(state);
        ((i + 1 + (sound_output(s1) as int) % (len - 1)) % len, sound_step(s1))
    } else {
        (i, sound_step(state))
    }
}

/// Pick one of `len` sounds, never the one played `last` when there are two
/// or more: true randomness repeats often enough that it feels broken.
pub fn fresh_pick(rng: &mut SfxRng, len: usize, last: usize) -> (i: usize)
    requires
        0 < len <= usize::MAX / 2,
    ensures
        i as int == fresh_pick_of(old(rng)@, len as int, last as int).0,
        final(rng)@ == fresh_pick_of(old(rng)@, len as int, last as int).1,
        i < len,
        len > 1 ==> i != last,
{
    let first = rng.next_u32() as usize % len;
    if len > 1 && first == last {
        let skip = rng.next_u32() as usize % (len - 1);
        let i = (first + 1 + skip) % len;
        proof {
            let x = (first + 1 + skip) as int;
            let m = len as int;
            if x < m {
                vstd::arithmetic::div_mod::lemma_small_mod(x as nat, m as nat);
            } else {
                vstd::arithmetic::div_mod::lemma_mod_add_multiples_vanish(x - m, m);
                vstd::arithmetic::div_mod::lemma_small_mod((x - m) as nat, m as nat);
            }
        }
        i
    } else {
        first
    }
}

/// What an action sounds like.
#[derive(Clone, Copy, PartialEq, Eq, Structural, Debug)]
pub enum Cue {
    /// A card sliding (a fold).
    Card,
    /// A knock on the felt (a check, or a call of nothing).
    Knock,
    /// Chips going in.
    Chips,
}

/// The sound of `action` when calling would cost `call_amount`.
pub open spec fn action_cue_of(action: Action, call_amount: int) -> Cue {
    match action {
        Action::Fold => Cue::Card,
        Action::Check => Cue::Knock,
        Action::Call => if call_amount > 0 { Cue::Chips } else { Cue::Knock },
        Action::Raise(_) => Cue::Chips,
    }
}

/// The sound an action makes, given what calling cost before it.
pub fn action_cue(action: Action, call_amount: u32) -> (c: Cue)
    ensures
        c == action_cue_of(action, call_amount as int),
{
    match action {
        Action::Fold => Cue::Card,
        Action::Check => Cue::Knock,
        Action::Call => if call_amount > 0 { Cue::Chips } else { Cue::Knock },
        Action::Raise(_) => Cue::Chips,
    }
}

/// How big a win sounds.
#[derive(Clone, Copy, PartialEq, Eq, Structural, Debug)]
pub enum WinSize {
    Small,
    Medium,
    Big,
}

/// The chips handed out by a list of payouts.
pub open spec fn payouts_total(p: Seq<Payout>) -> int
    decreases p.len(),
{
    if p.len() == 0 { 0 } else { payouts_total(p.drop_last()) + p.last().amount }
}

/// The payouts' total, capped at the largest `u64`.
spec fn capped_total(p: Seq<Payout>) -> int {
    if payouts_total(p) < u64::MAX { payouts_total(p) } else { u64::MAX as int }
}

proof fn lemma_payouts_total_nonneg(p: Seq<Payout>)
    ensures
        payouts_total(p) >= 0,
        forall|k: int| 0 <= k <= p.len() ==> payouts_total(#[trigger] p.take(k)) <= payouts_total(p),
    decreases p.len(),
{
    if p.len() > 0 {
        lemma_payouts_total_nonneg(p.drop_last());
        assert forall|k: int| 0 <= k <= p.len() implies payouts_total(#[trigger] p.take(k)) <= payouts_total(p) by {
            if k < p.len() {
                assert(p.take(k) =~= p.drop_last().take(k));
            } else {
                assert(p.take(k) =~= p);
            }
        }
    }
}

/// A win of $600 or more is big, of $180 or more medium, else small.
pub open spec fn win_size_of(won: int) -> WinSize {
    if won >= 600 {
        WinSize::Big
    } else if won >= 180 {
        WinSize::Medium
    } else {
        WinSize::Small
    }
}

/// The size of the win just paid out, by the chips in the last payouts.
pub fn win_size(game: &Game) -> (w: WinSize)
    ensures
        w == win_size_of(payouts_total(game.last_payouts@)),
{
    let mut won: u64 = 0;
    let mut i: usize = 0;
    while i < game.last_payouts.len()
        invariant
            i <= game.last_payouts@.len(),
            won as int == capped_total(game.last_payouts@.take(i as int)),
        decreases game.last_payouts@.len() - i,
    {
        assert(game.last_payouts@.take(i + 1).drop_last() =~= game.last_payouts@.take(i as int));
        let amount = game.last_payouts[i].amount as u64;
        won = if won > u64::MAX - amount { u64::MAX } else { won + amount };
        i = i + 1;
    }
    assert(game.last_payouts@.take(i as int) =~= game.last_payouts@);
    proof {
        lemma_payouts_total_nonneg(game.last_payouts@);
    }
    if won >= 600 {
        WinSize::Big
    } else if won >= 180 {
        WinSize::Medium
    } else {
        WinSize::Small
    }
}

// ---------------------------------------------------------------------------
// Blinds and starting over
// ---------------------------------------------------------------------------

/// Move the blinds to a level of the schedule; nothing else changes.
pub fn set_blind_level(game: &mut Game, level: usize)
    ensures
        final(game)@ == (GameState {
            small_blind: blinds_spec(level as int).0 as int,
            big_blind: blinds_spec(level as int).1 as int,
            ..old(game)@
        }),
{
    let (sb, bb) = blinds_at(level);
    game.small_blind = sb;
    game.big_blind = bb;
}

/// Every player's buy-in for a new game.
pub const STARTING_STACK: u32 = 1000;

/// A seat as a new game finds it: the starting stack, nothing bet, not
/// folded or all in.
pub open spec fn fresh_seat(p: Player) -> Player {
    Player { stack: STARTING_STACK, folded: false, all_in: false, bet: 0, committed: 0, ..p }
}

/// A new game: every seat back to the starting stack, the blinds back to
/// the first level, and the first hand dealt.
pub open spec fn reset_game_of(s: GameState) -> GameState {
    start_hand_of(GameState {
        players: s.players.map_values(|p: Player| fresh_seat(p)),
        small_blind: blinds_spec(0).0 as int,
        big_blind: blinds_spec(0).1 as int,
        ..s
    })
}

proof fn lemma_fresh_seats(ps: Seq<Player>)
    requires
        forall|i: int| 0 <= i < ps.len() ==> #[trigger] ps[i].stack == STARTING_STACK,
    ensures
        crate::game::seats_with_chips(ps) == ps.len(),
    decreases ps.len(),
{
    if ps.len() > 0 {
        lemma_fresh_seats(ps.drop_last());
    }
}

/// Start a new game at the same table.
pub fn reset_game(game: &mut Game)
    requires
        1 <= old(game).players@.len() <= 26,
        old(game).button < usize::MAX,
    ensures
        final(game)@ == reset_game_of(old(game)@),
{
    let n = game.players.len();
    let mut i: usize = 0;
    while i < n
        invariant
            n == game.players@.len(),
            i <= n,
            forall|j: int| 0 <= j < i ==> #[trigger] game.players@[j] == fresh_seat(old(game).players@[j]),
            forall|j: int| i <= j < n ==> #[trigger] game.players@[j] == old(game).players@[j],
            game@ == (GameState { players: game@.players, ..old(game)@ }),
        decreases n - i,
    {
        let p = &mut game.players[i];
        p.stack = STARTING_STACK;
        p.folded = false;
        p.all_in = false;
        p.bet = 0;
        p.committed = 0;
        i = i + 1;
    }
    assert(game.players@ =~= old(game).players@.map_values(|p: Player| fresh_seat(p)));
    set_blind_level(game, 0);
    proof {
        lemma_fresh_seats(game.players@);
    }
    game.start_hand();
}

} // verus!
