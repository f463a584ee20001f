//! The words and numbers the table shows: each seat's money label, the
//! human's own money line, the pot label, the showdown banner and the HUD.

use vstd::prelude::*;
use crate::game::{Game, GameState, Payout, Street, count_live, sum_committed};
use crate::hand::{category_name, describe_text};
use crate::showdown::seat_hand;
use crate::table::{append_decimal, decimal};

verus! {

/// `"$"` and an amount.
pub open spec fn dollars(n: int) -> Seq<char> {
    "$"@ + decimal(n as nat)
}

/// The made hand's category name at showdown, when there is a board to
/// make one with.
pub open spec fn made_hand_name(g: GameState, seat: int) -> Seq<char> {
    if g.community.len() < 3 { Seq::empty() } else { category_name(seat_hand(g, seat).category) }
}

/// The second line of a seat's money label: after the hand, "folded" or
/// the hand it made; during it, "all-in" or "folded"; else nothing.
pub open spec fn seat_status(g: GameState, seat: int) -> Seq<char> {
    let p = g.players[seat];
    if g.street == Street::HandOver {
        if p.folded { "folded"@ } else { made_hand_name(g, seat) }
    } else if p.all_in {
        "all-in"@
    } else if p.folded {
        "folded"@
    } else {
        Seq::empty()
    }
}

/// The floating label over a seat: none once the seat is busted (it has
/// left the table), else its stack and, on a second line, its status.
pub open spec fn seat_label_text(g: GameState, seat: int) -> Option<Seq<char>> {
    let p = g.players[seat];
    if p.stack == 0 && !p.all_in {
        None
    } else if seat_status(g, seat).len() == 0 {
        Some(dollars(p.stack as int))
    } else {
        Some(dollars(p.stack as int) + "\n"@ + seat_status(g, seat))
    }
}

/// The human's money line: the stack, the bet if any, and after the hand
/// the hand made.
pub open spec fn my_money_text(g: GameState) -> Seq<char> {
    let me = g.players[0];
    if g.street == Street::HandOver && !me.folded && g.community.len() >= 3 {
        dollars(me.stack as int) + "  —  "@ + made_hand_name(g, 0)
    } else if me.bet > 0 {
        dollars(me.stack as int) + "  (bet "@ + dollars(me.bet as int) + ")"@
    } else {
        dollars(me.stack as int)
    }
}

/// The pot label: hidden while the pot is empty.
pub open spec fn pot_label_text(pot: int) -> Option<Seq<char>> {
    if pot == 0 { None } else { Some("Pot "@ + dollars(pot)) }
}

fn push_dollars(s: &mut String, n: u32)
    ensures
        final(s)@ == old(s)@ + dollars(n as int),
{
    s.append("$");
    append_decimal(s, n);
    assert(final(s)@ =~= old(s)@ + dollars(n as int));
}

impl Game {
    /// The category name of the hand a seat has made, or nothing before the
    /// flop.
    fn made_hand(&self, seat: usize) -> (s: &'static str)
        requires
            seat < self.players@.len(),
            self.community@.len() <= 5,
        ensures
            s@ == made_hand_name(self@, seat as int),
    {
        match self.hand_value(seat) {
            Some(hv) => hv.category.name(),
            None => {
                proof {
                    reveal_strlit("");
                }
                ""
            },
        }
    }
}

/// The money label over a seat, or `None` when the seat is busted and the
/// label is hidden.
pub fn seat_label(game: &Game, seat: usize) -> (s: Option<String>)
    requires
        seat < game.players@.len(),
        game.community@.len() <= 5,
    ensures
        s matches Some(t) ==> seat_label_text(game@, seat as int) == Some(t@),
        s is None ==> seat_label_text(game@, seat as int) is None,
{
    let p = &game.players[seat];
    if p.busted() {
        return None;
    }
    let status: &str = if game.street == Street::HandOver {
        if p.folded {
            "folded"
        } else {
            game.made_hand(seat)
        }
    } else if p.all_in {
        "all-in"
    } else if p.folded {
        "folded"
    } else {
        proof {
            reveal_strlit("");
        }
        ""
    };
    assert(status@ == seat_status(game@, seat as int));
    let mut s = String::new();
    push_dollars(&mut s, p.stack);
    if status.unicode_len() > 0 {
        s.append("\n");
        s.append(status);
    }
    assert(s@ =~= seat_label_text(game@, seat as int)->0);
    Some(s)
}

/// The human's money line, under the betting bar.
pub fn my_money(game: &Game) -> (s: String)
    requires
        game.players@.len() >= 1,
        game.community@.len() <= 5,
    ensures
        s@ == my_money_text(game@),
{
    let me = &game.players[0];
    let mut s = String::new();
    push_dollars(&mut s, me.stack);
    if game.street == Street::HandOver && me.in_hand() && game.community.len() >= 3 {
        s.append("  —  ");
        s.append(game.made_hand(0));
    } else if me.bet > 0 {
        s.append("  (bet ");
        push_dollars(&mut s, me.bet);
        s.append(")");
    }
    assert(s@ =~= my_money_text(game@));
    s
}

/// The pot label, or `None` when the pot is empty and the label is hidden.
pub fn pot_label(pot: u32) -> (s: Option<String>)
    ensures
        s matches Some(t) ==> pot_label_text(pot as int) == Some(t@),
        s is None ==> pot_label_text(pot as int) is None,
{
    if pot == 0 {
        None
    } else {
        let mut s = String::from_str("Pot ");
        push_dollars(&mut s, pot);
        Some(s)
    }
}

// ---------------------------------------------------------------------------
// The showdown banner
// ---------------------------------------------------------------------------

/// One winner's line: who won how much, and with which hand when the hand
/// went to a real showdown (more than one player still holding cards, and
/// a board to make a hand with).
pub open spec fn payout_line(g: GameState, pay: Payout) -> Seq<char> {
    let p = g.players[pay.seat as int];
    let verb = if p.is_human { "win"@ } else { "wins"@ };
    let with_hand = if count_live(g.players) > 1 && g.community.len() >= 3 {
        " with "@ + describe_text(seat_hand(g, pay.seat as int))
    } else {
        Seq::empty()
    };
    p.name@ + " "@ + verb + " "@ + dollars(pay.amount as int) + with_hand
}

/// The lines of the first `k` payouts, separated by a dot.
pub open spec fn payout_lines(g: GameState, k: int) -> Seq<char>
    decreases k,
{
    if k <= 0 {
        Seq::empty()
    } else if k == 1 {
        payout_line(g, g.last_payouts[0])
    } else {
        payout_lines(g, k - 1) + "   ·   "@ + payout_line(g, g.last_payouts[k - 1])
    }
}

/// The big banner at the end of a hand: every payout's line; nothing while
/// the hand is on.
pub open spec fn banner_text(g: GameState) -> Seq<char> {
    if g.street == Street::HandOver { payout_lines(g, g.last_payouts.len() as int) } else { Seq::empty() }
}

fn push_payout_line(s: &mut String, game: &Game, pay: Payout, showdown: bool)
    requires
        pay.seat < game.players@.len(),
        game.community@.len() <= 5,
        showdown == (count_live(game.players@) > 1),
    ensures
        final(s)@ == old(s)@ + payout_line(game@, pay),
{
    let p = &game.players[pay.seat];
    s.append(p.name.as_str());
    s.append(" ");
    if p.is_human {
        s.append("win");
    } else {
        s.append("wins");
    }
    s.append(" ");
    push_dollars(s, pay.amount);
    if showdown {
        if let Some(hv) = game.hand_value(pay.seat) {
            s.append(" with ");
            let d = hv.describe();
            s.append(d.as_str());
        }
    }
    assert(final(s)@ =~= old(s)@ + payout_line(game@, pay));
}

/// The showdown banner: who won what, and with which hand.
pub fn win_banner(game: &Game) -> (s: String)
    requires
        forall|k: int| 0 <= k < game.last_payouts@.len() ==> #[trigger] game.last_payouts@[k].seat < game.players@.len(),
        game.community@.len() <= 5,
    ensures
        s@ == banner_text(game@),
{
    let mut s = String::new();
    if game.street != Street::HandOver {
        return s;
    }
    let showdown = game.live_count() > 1;
    let mut i: usize = 0;
    while i < game.last_payouts.len()
        invariant
            i <= game.last_payouts@.len(),
            s@ == payout_lines(game@, i as int),
            showdown == (count_live(game.players@) > 1),
            forall|k: int| 0 <= k < game.last_payouts@.len() ==> #[trigger] game.last_payouts@[k].seat < game.players@.len(),
            game.community@.len() <= 5,
        decreases game.last_payouts@.len() - i,
    {
        if i > 0 {
            s.append("   ·   ");
        }
        let pay = game.last_payouts[i];
        push_payout_line(&mut s, game, pay, showdown);
        i = i + 1;
    }
    s
}

// ---------------------------------------------------------------------------
// The HUD
// ---------------------------------------------------------------------------

/// `s` padded with spaces on the right to `width` characters.
pub open spec fn pad_right(s: Seq<char>, width: int) -> Seq<char> {
    if s.len() >= width { s } else { s + Seq::new((width - s.len()) as nat, |i: int| ' ') }
}

/// A seat's line in the HUD: a marker when it is to act, the name and
/// stack in columns, then its bet, the dealer button and its status.
pub open spec fn hud_seat_line(g: GameState, i: int) -> Seq<char> {
    let p = g.players[i];
    let turn = if i == g.to_act && g.street != Street::HandOver { ">"@ } else { " "@ };
    turn + " "@ + pad_right(p.name@, 9) + " $"@ + pad_right(decimal(p.stack as nat), 5) + hud_seat_tail(g, i)
}

/// The lines of the first `k` seats.
pub open spec fn hud_seat_lines(g: GameState, k: int) -> Seq<char>
    decreases k,
{
    if k <= 0 { Seq::empty() } else { hud_seat_lines(g, k - 1) + hud_seat_line(g, k - 1) }
}

/// The HUD: the street, the pot and the blinds, a line per seat, then the
/// last thing that happened.
pub open spec fn hud_text_of(g: GameState, log: Seq<char>) -> Seq<char> {
    crate::table::street_text(g.street) + "    Pot "@ + dollars(sum_committed(g.players) as int)
        + "\nBlinds "@ + decimal(g.small_blind as nat) + "/"@ + decimal(g.big_blind as nat) + "\n\n"@
        + hud_seat_lines(g, g.players.len() as int) + "\n"@ + log
}

/// Append `text` to `s`, padded with spaces on the right to `width`
/// characters.
fn push_padded(s: &mut String, text: &str, width: usize)
    ensures
        final(s)@ == old(s)@ + pad_right(text@, width as int),
{
    let ghost start = s@;
    s.append(text);
    let len = text.unicode_len();
    let mut n = len;
    while n < width
        invariant
            len == text@.len(),
            len <= n,
            len < width ==> n <= width,
            width <= len ==> n == len,
            s@ == start + text@ + Seq::new((n - len) as nat, |i: int| ' '),
        decreases width - n,
    {
        proof {
            reveal_strlit(" ");
        }
        s.append(" ");
        assert(s@ =~= start + text@ + Seq::new((n + 1 - len) as nat, |i: int| ' '));
        n = n + 1;
    }
    assert(s@ =~= start + pad_right(text@, width as int));
}

/// The HUD columns after a seat's stack: its bet, the dealer button and
/// its status.
pub open spec fn hud_seat_tail(g: GameState, i: int) -> Seq<char> {
    let p = g.players[i];
    let bet = if p.bet > 0 { "  bet "@ + dollars(p.bet as int) } else { Seq::empty() };
    let dealer = if i == g.button { " (D)"@ } else { Seq::empty() };
    let status = if p.folded { "  folded"@ } else if p.all_in { "  all-in"@ } else { Seq::empty() };
    bet + dealer + status + "\n"@
}

fn push_seat_tail(s: &mut String, game: &Game, i: usize)
    requires
        i < game.players@.len(),
    ensures
        final(s)@ == old(s)@ + hud_seat_tail(game@, i as int),
{
    let p = &game.players[i];
    if p.bet > 0 {
        s.append("  bet ");
        push_dollars(s, p.bet);
    }
    if i == game.button {
        s.append(" (D)");
    }
    if p.folded {
        s.append("  folded");
    } else if p.all_in {
        s.append("  all-in");
    }
    s.append("\n");
    assert(final(s)@ =~= old(s)@ + hud_seat_tail(game@, i as int));
}

fn push_seat_line(s: &mut String, game: &Game, i: usize)
    requires
        i < game.players@.len(),
    ensures
        final(s)@ == old(s)@ + hud_seat_line(game@, i as int),
{
    let p = &game.players[i];
    let ghost start = s@;
    let turn = if i == game.to_act && game.street != Street::HandOver { ">" } else { " " };
    s.append(turn);
    s.append(" ");
    push_padded(s, p.name.as_str(), 9);
    s.append(" $");
    let mut stack = String::new();
    append_decimal(&mut stack, p.stack);
    push_padded(s, stack.as_str(), 5);
    let ghost columns = s@;
    assert(columns =~= start + turn@ + " "@ + pad_right(p.name@, 9) + " $"@ + pad_right(decimal(p.stack as nat), 5));
    push_seat_tail(s, game, i);
    assert(final(s)@ =~= old(s)@ + hud_seat_line(game@, i as int));
}

/// The HUD text, with `log` the last thing that happened.
pub fn hud_text(game: &Game, log: &str) -> (s: String)
    requires
        sum_committed(game.players@) <= u32::MAX,
    ensures
        s@ == hud_text_of(game@, log@),
{
    let mut s = String::new();
    s.append(crate::table::street_name(game.street));
    s.append("    Pot ");
    push_dollars(&mut s, game.pot());
    s.append("\nBlinds ");
    append_decimal(&mut s, game.small_blind);
    s.append("/");
    append_decimal(&mut s, game.big_blind);
    s.append("\n\n");
    let ghost head = s@;
    let mut i: usize = 0;
    while i < game.players.len()
        invariant
            i <= game.players@.len(),
            s@ == head + hud_seat_lines(game@, i as int),
        decreases game.players@.len() - i,
    {
        push_seat_line(&mut s, game, i);
        assert(s@ =~= head + hud_seat_lines(game@, i + 1));
        i = i + 1;
    }
    s.append("\n");
    s.append(log);
    assert(s@ =~= hud_text_of(game@, log@));
    s
}

} // verus!
