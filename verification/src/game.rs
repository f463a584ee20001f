//! The No-Limit betting state machine: blinds, four betting streets,
//! raises and re-raises, all-ins, and the showdown with side pots.

use vstd::prelude::*;
use crate::cards::{Card, Rank, Suit};
use crate::deck::{Deck, ordered_deck, shuffled};
use crate::rng::Rng;

verus! {

#[derive(Clone, Copy, PartialEq, Eq, Structural, Debug)]
pub enum Street {
    Preflop,
    Flop,
    Turn,
    River,
    Showdown,
    HandOver,
}

/// A player action. `Raise(to)` raises the player's total bet *this street* up
/// to `to` chips; going all-in is just a raise/call clamped to the stack.
#[derive(Clone, Copy, PartialEq, Eq, Structural, Debug)]
pub enum Action {
    Fold,
    Check,
    Call,
    Raise(u32),
}

/// A seat at the table. (The AI personality of a seat lives with the
/// front-end, not in the rules engine.)
#[derive(Clone)]
pub struct Player {
    pub name: String,
    pub stack: u32,
    pub hole: [Card; 2],
    pub folded: bool,
    pub all_in: bool,
    /// chips committed this street
    pub bet: u32,
    /// total chips committed this hand (for side pots)
    pub committed: u32,
    /// has acted since the last bet/raise this street
    pub acted: bool,
    pub is_human: bool,
}

impl Player {
    pub fn new(name: String, stack: u32, is_human: bool) -> (p: Player)
        ensures
            p.name@ == name@,
            p.stack == stack,
            p.hole@ == seq![Card { rank: Rank::Two, suit: Suit::Clubs }, Card { rank: Rank::Two, suit: Suit::Clubs }],
            !p.folded,
            !p.all_in,
            p.bet == 0,
            p.committed == 0,
            !p.acted,
            p.is_human == is_human,
    {
        let p = Player {
            name,
            stack,
            hole: [Card::new(Rank::Two, Suit::Clubs), Card::new(Rank::Two, Suit::Clubs)],
            folded: false,
            all_in: false,
            bet: 0,
            committed: 0,
            acted: false,
            is_human,
        };
        assert(p.hole@ =~= seq![Card { rank: Rank::Two, suit: Suit::Clubs }, Card { rank: Rank::Two, suit: Suit::Clubs }]);
        p
    }

    /// Still contesting the pot (not folded).
    pub fn in_hand(&self) -> (b: bool)
        ensures
            b == !self.folded,
    {
        !self.folded
    }

    /// Out of the game: no chips and not currently all-in (an all-in player
    /// also has a 0 stack but is still live in the hand).
    pub fn busted(&self) -> (b: bool)
        ensures
            b == (self.stack == 0 && !self.all_in),
    {
        self.stack == 0 && !self.all_in
    }
}

/// A pot awarded at showdown (or sooner).
#[derive(Clone, Copy, Debug, PartialEq, Eq, Structural)]
pub struct Payout {
    pub seat: usize,
    pub amount: u32,
}

pub struct Game {
    pub players: Vec<Player>,
    pub button: usize,
    pub community: Vec<Card>,
    pub street: Street,
    pub to_act: usize,
    /// highest `bet` this street
    pub current_bet: u32,
    /// minimum legal raise increment
    pub min_raise: u32,
    pub small_blind: u32,
    pub big_blind: u32,
    pub last_payouts: Vec<Payout>,
    /// The cards left to deal (the top card is the last).
    pub deck: Deck,
    /// The generator that shuffles the deck and seeds the AI.
    pub rng: Rng,
}

/// The whole state of a game, as a mathematical value.
#[verifier::ext_equal]
pub struct GameState {
    pub players: Seq<Player>,
    pub button: int,
    pub community: Seq<Card>,
    pub street: Street,
    pub to_act: int,
    pub current_bet: int,
    pub min_raise: int,
    pub small_blind: int,
    pub big_blind: int,
    pub last_payouts: Seq<Payout>,
    pub deck: Seq<Card>,
    pub rng: u64,
}

impl View for Game {
    type V = GameState;

    open spec fn view(&self) -> GameState {
        GameState {
            players: self.players@,
            button: self.button as int,
            community: self.community@,
            street: self.street,
            to_act: self.to_act as int,
            current_bet: self.current_bet as int,
            min_raise: self.min_raise as int,
            small_blind: self.small_blind as int,
            big_blind: self.big_blind as int,
            last_payouts: self.last_payouts@,
            deck: self.deck@,
            rng: self.rng@,
        }
    }
}


// ---------------------------------------------------------------------------
// Counting and summing over the seats
// ---------------------------------------------------------------------------

/// Number of seats still holding cards.
pub open spec fn count_live(ps: Seq<Player>) -> nat
    decreases ps.len(),
{
    if ps.len() == 0 {
        0
    } else {
        count_live(ps.drop_last()) + if !ps.last().folded { 1nat } else { 0nat }
    }
}

/// Chips committed to the pot this hand, over all seats.
pub open spec fn sum_committed(ps: Seq<Player>) -> nat
    decreases ps.len(),
{
    if ps.len() == 0 {
        0
    } else {
        sum_committed(ps.drop_last()) + ps.last().committed as nat
    }
}

/// Chips behind, over all seats.
pub open spec fn sum_stacks(ps: Seq<Player>) -> nat
    decreases ps.len(),
{
    if ps.len() == 0 {
        0
    } else {
        sum_stacks(ps.drop_last()) + ps.last().stack as nat
    }
}

/// Every chip at the table: stacks plus the pot.
pub open spec fn total_chips(s: GameState) -> nat {
    sum_stacks(s.players) + sum_committed(s.players)
}

proof fn lemma_sum_committed_prefix(ps: Seq<Player>, k: int)
    requires
        0 <= k <= ps.len(),
    ensures
        sum_committed(ps.take(k)) <= sum_committed(ps),
    decreases ps.len() - k,
{
    if k < ps.len() {
        lemma_sum_committed_prefix(ps, k + 1);
        assert(ps.take(k + 1).drop_last() =~= ps.take(k));
    } else {
        assert(ps.take(k) =~= ps);
    }
}

pub proof fn lemma_sum_committed_bounds(ps: Seq<Player>, i: int)
    requires
        0 <= i < ps.len(),
    ensures
        ps[i].committed <= sum_committed(ps),
    decreases ps.len(),
{
    if i < ps.len() - 1 {
        lemma_sum_committed_bounds(ps.drop_last(), i);
    }
}

pub proof fn lemma_sum_stacks_bounds(ps: Seq<Player>, i: int)
    requires
        0 <= i < ps.len(),
    ensures
        ps[i].stack <= sum_stacks(ps),
    decreases ps.len(),
{
    if i < ps.len() - 1 {
        lemma_sum_stacks_bounds(ps.drop_last(), i);
    }
}

/// A seat's stack and commitment each fit under the table total.
pub proof fn lemma_seat_within_total(s: GameState, i: int)
    requires
        0 <= i < s.players.len(),
    ensures
        s.players[i].stack + s.players[i].committed <= total_chips(s),
{
    lemma_sum_committed_bounds(s.players, i);
    lemma_sum_stacks_bounds(s.players, i);
}

/// The call amount of a seat: what it lacks to match the current bet,
/// capped at its stack.
pub open spec fn call_amount_of(s: GameState, seat: int) -> int {
    let p = s.players[seat];
    let owed = if s.current_bet > p.bet { s.current_bet - p.bet } else { 0 };
    if owed < p.stack { owed } else { p.stack as int }
}

/// Smallest legal total a seat can raise *to*, if it can raise at all.
pub open spec fn min_raise_to_of(s: GameState, seat: int) -> Option<int> {
    let p = s.players[seat];
    let max_to = p.bet + p.stack;
    if p.all_in || p.folded || max_to <= s.current_bet {
        None
    } else if s.current_bet + s.min_raise < max_to {
        Some(s.current_bet + s.min_raise)
    } else {
        Some(max_to)
    }
}

impl Game {
    pub fn new(players: Vec<Player>, small_blind: u32, big_blind: u32, seed: u64) -> (g: Game)
        ensures
            g.players@ == players@,
            g.button == 0,
            g.community@ == Seq::<Card>::empty(),
            g.street == Street::HandOver,
            g.to_act == 0,
            g.current_bet == 0,
            g.min_raise == big_blind,
            g.small_blind == small_blind,
            g.big_blind == big_blind,
            g.last_payouts@ == Seq::<Payout>::empty(),
            g.deck@ == ordered_deck(),
            g.rng@ == vstd::wrapping::u64_specs::wrapping_add(seed, crate::rng::GOLDEN_GAMMA),
    {
        Game {
            players,
            button: 0,
            community: Vec::new(),
            street: Street::HandOver,
            to_act: 0,
            current_bet: 0,
            min_raise: big_blind,
            small_blind,
            big_blind,
            last_payouts: Vec::new(),
            deck: Deck::full(),
            rng: Rng::new(seed),
        }
    }

    /// Total chips in the middle (collected + current-street bets).
    pub fn pot(&self) -> (t: u32)
        requires
            sum_committed(self.players@) <= u32::MAX,
        ensures
            t == sum_committed(self.players@),
    {
        let mut t: u32 = 0;
        let mut i: usize = 0;
        proof {
            lemma_sum_committed_prefix(self.players@, self.players@.len() as int);
        }
        while i < self.players.len()
            invariant
                i <= self.players@.len(),
                t == sum_committed(self.players@.take(i as int)),
                sum_committed(self.players@) <= u32::MAX,
            decreases self.players@.len() - i,
        {
            proof {
                assert(self.players@.take(i + 1).drop_last() =~= self.players@.take(i as int));
                lemma_sum_committed_prefix(self.players@, i + 1);
            }
            t = t + self.players[i].committed;
            i = i + 1;
        }
        assert(self.players@.take(i as int) =~= self.players@);
        t
    }

    /// Seats that still hold cards.
    pub fn live_count(&self) -> (c: usize)
        ensures
            c == count_live(self.players@),
    {
        let mut c: usize = 0;
        let mut i: usize = 0;
        while i < self.players.len()
            invariant
                i <= self.players@.len(),
                c == count_live(self.players@.take(i as int)),
                c <= i,
            decreases self.players@.len() - i,
        {
            assert(self.players@.take(i + 1).drop_last() =~= self.players@.take(i as int));
            if !self.players[i].folded {
                c = c + 1;
            }
            i = i + 1;
        }
        assert(self.players@.take(i as int) =~= self.players@);
        c
    }

    /// How much `seat` must put in to call.
    pub fn call_amount(&self, seat: usize) -> (a: u32)
        requires
            seat < self.players@.len(),
        ensures
            a == call_amount_of(self@, seat as int),
    {
        let p = &self.players[seat];
        let owed = if self.current_bet > p.bet { self.current_bet - p.bet } else { 0 };
        if owed < p.stack { owed } else { p.stack }
    }

    /// Smallest legal total this seat can raise *to* (None if they can't raise).
    pub fn min_raise_to(&self, seat: usize) -> (r: Option<u32>)
        requires
            seat < self.players@.len(),
            self.current_bet + self.min_raise <= u32::MAX,
            self.players@[seat as int].bet + self.players@[seat as int].stack <= u32::MAX,
        ensures
            r matches Some(v) ==> min_raise_to_of(self@, seat as int) == Some(v as int),
            r is None ==> min_raise_to_of(self@, seat as int) is None,
    {
        let p = &self.players[seat];
        if p.all_in || p.folded {
            return None;
        }
        let max_to = p.bet + p.stack;
        if max_to <= self.current_bet {
            return None;
        }
        let target = self.current_bet + self.min_raise;
        Some(if target < max_to { target } else { max_to })
    }

    /// Largest total this seat can raise *to* (their whole stack).
    pub fn max_raise_to(&self, seat: usize) -> (m: u32)
        requires
            seat < self.players@.len(),
            self.players@[seat as int].bet + self.players@[seat as int].stack <= u32::MAX,
        ensures
            m == self.players@[seat as int].bet + self.players@[seat as int].stack,
    {
        let p = &self.players[seat];
        p.bet + p.stack
    }

    pub fn can_check(&self, seat: usize) -> (b: bool)
        requires
            seat < self.players@.len(),
        ensures
            b == (self.players@[seat as int].bet == self.current_bet),
    {
        self.players[seat].bet == self.current_bet
    }
}


// ---------------------------------------------------------------------------
// Seat bookkeeping
// ---------------------------------------------------------------------------

/// Starting at seat `i`, step left (with wrap-around) past folded seats, at
/// most once around the table; `guard` counts the steps taken.
pub open spec fn next_live_scan(ps: Seq<Player>, i: int, guard: int) -> int
    decreases ps.len() - guard,
{
    if guard >= ps.len() || !ps[i].folded {
        i
    } else {
        next_live_scan(ps, (i + 1) % (ps.len() as int), guard + 1)
    }
}

/// The first seat after `from` that still holds cards (or, if none does,
/// the seat reached after going once around).
pub open spec fn next_live_of(ps: Seq<Player>, from: int) -> int {
    next_live_scan(ps, (from + 1) % (ps.len() as int), 0)
}

/// A seat after putting (up to) `amount` chips in: it pays what it has,
/// and is all-in once its stack is empty.
pub open spec fn pay_chips(p: Player, amount: int) -> Player {
    let pay = if amount < p.stack { amount } else { p.stack as int };
    Player {
        stack: (p.stack - pay) as u32,
        bet: (p.bet + pay) as u32,
        committed: (p.committed + pay) as u32,
        all_in: p.all_in || p.stack - pay == 0,
        ..p
    }
}

/// Does this seat still owe an action this street?
pub open spec fn needs_to_act_of(s: GameState, seat: int) -> bool {
    let p = s.players[seat];
    !p.folded && !p.all_in && (!p.acted || p.bet < s.current_bet)
}

/// From seat `i`, the first of the next `players.len() - k` seats (going
/// left) that owes an action.
pub open spec fn to_act_scan(s: GameState, i: int, k: int) -> Option<int>
    decreases s.players.len() - k,
{
    if k >= s.players.len() {
        None
    } else if needs_to_act_of(s, i) {
        Some(i)
    } else {
        to_act_scan(s, (i + 1) % (s.players.len() as int), k + 1)
    }
}

/// Next seat after `from` that needs to act; `from` itself if none does.
pub open spec fn next_to_act_of(s: GameState, from: int) -> int {
    match to_act_scan(s, (from + 1) % (s.players.len() as int), 0) {
        Some(i) => i,
        None => from,
    }
}

/// Nobody owes an action this street.
pub open spec fn round_complete_of(s: GameState) -> bool {
    forall|i: int| 0 <= i < s.players.len() ==> !#[trigger] needs_to_act_of(s, i)
}

pub proof fn lemma_next_live_scan_in_range(ps: Seq<Player>, i: int, guard: int)
    requires
        0 <= i < ps.len(),
        0 <= guard,
    ensures
        0 <= next_live_scan(ps, i, guard) < ps.len(),
    decreases ps.len() - guard,
{
    if !(guard >= ps.len() || !ps[i].folded) {
        lemma_next_live_scan_in_range(ps, (i + 1) % (ps.len() as int), guard + 1);
    }
}

pub proof fn lemma_to_act_scan_in_range(s: GameState, i: int, k: int)
    requires
        0 <= i < s.players.len(),
        0 <= k,
    ensures
        to_act_scan(s, i, k) matches Some(j) ==> 0 <= j < s.players.len() && needs_to_act_of(s, j),
    decreases s.players.len() - k,
{
    if k < s.players.len() && !needs_to_act_of(s, i) {
        lemma_to_act_scan_in_range(s, (i + 1) % (s.players.len() as int), k + 1);
    }
}

impl Game {
    pub(crate) fn next_live(&self, from: usize) -> (r: usize)
        requires
            self.players@.len() >= 1,
            from < usize::MAX,
        ensures
            r == next_live_of(self.players@, from as int),
            r < self.players@.len(),
    {
        let n = self.players.len();
        let mut i = (from + 1) % n;
        let mut guard: usize = 0;
        proof {
            lemma_next_live_scan_in_range(self.players@, i as int, 0);
        }
        while self.players[i].folded && guard < n
            invariant
                n == self.players@.len(),
                i < n,
                guard <= n,
                next_live_scan(self.players@, i as int, guard as int) == next_live_of(self.players@, from as int),
            decreases n - guard,
        {
            i = (i + 1) % n;
            guard = guard + 1;
        }
        proof {
            lemma_next_live_scan_in_range(self.players@, i as int, guard as int);
        }
        i
    }

    /// Put (up to) `amount` chips from `seat` into the pot.
    pub(crate) fn move_chips(&mut self, seat: usize, amount: u32)
        requires
            seat < old(self).players@.len(),
            old(self).players@[seat as int].bet <= old(self).players@[seat as int].committed,
            old(self).players@[seat as int].committed + old(self).players@[seat as int].stack <= u32::MAX,
        ensures
            final(self)@ == (GameState {
                players: old(self)@.players.update(seat as int, pay_chips(old(self)@.players[seat as int], amount as int)),
                ..old(self)@
            }),
    {
        let p = &mut self.players[seat];
        let pay = if amount < p.stack { amount } else { p.stack };
        p.stack = p.stack - pay;
        p.bet = p.bet + pay;
        p.committed = p.committed + pay;
        if p.stack == 0 {
            p.all_in = true;
        }
    }

    /// Does this seat still owe an action this street?
    pub(crate) fn needs_to_act(&self, seat: usize) -> (b: bool)
        requires
            seat < self.players@.len(),
        ensures
            b == needs_to_act_of(self@, seat as int),
    {
        let p = &self.players[seat];
        !p.folded && !p.all_in && (!p.acted || p.bet < self.current_bet)
    }

    /// Next seat (after `from`) that needs to act, if any.
    pub(crate) fn next_to_act_from(&self, from: usize) -> (r: usize)
        requires
            self.players@.len() >= 1,
            from < self.players@.len(),
        ensures
            r == next_to_act_of(self@, from as int),
            r < self.players@.len(),
    {
        let n = self.players.len();
        let mut i = (from + 1) % n;
        let mut k: usize = 0;
        while k < n
            invariant
                n == self.players@.len(),
                i < n,
                k <= n,
                from < n,
                to_act_scan(self@, (from as int + 1) % (n as int), 0) == to_act_scan(self@, i as int, k as int),
            decreases n - k,
        {
            if self.needs_to_act(i) {
                return i;
            }
            i = (i + 1) % n;
            k = k + 1;
        }
        from
    }

    pub(crate) fn round_complete(&self) -> (b: bool)
        ensures
            b == round_complete_of(self@),
    {
        let mut i: usize = 0;
        while i < self.players.len()
            invariant
                i <= self.players@.len(),
                forall|j: int| 0 <= j < i ==> !#[trigger] needs_to_act_of(self@, j),
            decreases self.players@.len() - i,
        {
            if self.needs_to_act(i) {
                return false;
            }
            i = i + 1;
        }
        true
    }
}


// ---------------------------------------------------------------------------
// Dealing
// ---------------------------------------------------------------------------

/// A seat at the start of a new street: no bet yet, no action yet.
pub open spec fn reset_for_street(p: Player) -> Player {
    Player { bet: 0, acted: false, ..p }
}

/// Move `count` cards from the top of `deck` onto the board, one at a time.
pub open spec fn draw_to_board(community: Seq<Card>, deck: Seq<Card>, count: int) -> (Seq<Card>, Seq<Card>)
    decreases count,
{
    if count <= 0 {
        (community, deck)
    } else {
        draw_to_board(community.push(deck.last()), deck.drop_last(), count - 1)
    }
}

/// The state after dealing `count` board cards and moving to street `next`:
/// bets and actions reset, and the first seat after the button that owes an
/// action is to act.
pub open spec fn deal_community_of(s: GameState, count: int, next: Street) -> GameState {
    let board = draw_to_board(s.community, s.deck, count);
    let s1 = GameState {
        players: s.players.map_values(|p: Player| reset_for_street(p)),
        current_bet: 0,
        min_raise: s.big_blind,
        community: board.0,
        deck: board.1,
        street: next,
        ..s
    };
    GameState { to_act: next_to_act_of(s1, s.button), ..s1 }
}

/// A seat at the start of a hand: out if it has no chips, nothing bet.
pub open spec fn reset_for_hand(p: Player) -> Player {
    Player { folded: p.stack == 0, all_in: false, bet: 0, committed: 0, acted: false, ..p }
}

/// A seat with its hole card number `round` replaced by `c`.
pub open spec fn give_hole_card(p: Player, round: int, c: Card) -> Player {
    Player { hole: if round == 0 { [c, p.hole[1]] } else { [p.hole[0], c] }, ..p }
}

/// One round of the deal: the seats after the button (from the `k`-th on),
/// going left, each take the top card if they still hold cards.
pub open spec fn deal_hole_round(ps: Seq<Player>, deck: Seq<Card>, button: int, round: int, k: int) -> (Seq<Player>, Seq<Card>)
    decreases ps.len() - k,
{
    if k < 0 || k >= ps.len() {
        (ps, deck)
    } else {
        let seat = (button + 1 + k) % (ps.len() as int);
        proof {
            let m = ps.len() as int;
            assert(0 <= seat < m) by (nonlinear_arith)
                requires
                    seat == (button + 1 + k) % m,
                    m > 0,
            ;
        }
        if !ps[seat].folded {
            deal_hole_round(ps.update(seat, give_hole_card(ps[seat], round, deck.last())), deck.drop_last(), button, round, k + 1)
        } else {
            deal_hole_round(ps, deck, button, round, k + 1)
        }
    }
}

/// The state after `start_hand`: seats reset (those without chips sit
/// out), a freshly shuffled deck, the button moved to the next live seat,
/// two hole cards dealt to each live seat one at a time starting left of
/// the button, the blinds posted by the next two live seats, and the
/// first seat after the big blind that owes an action to act.
pub open spec fn start_hand_of(s: GameState) -> GameState {
    let ps0 = s.players.map_values(|p: Player| reset_for_hand(p));
    let shuffle = shuffled(ordered_deck(), s.rng);
    let button = next_live_of(ps0, s.button);
    let round0 = deal_hole_round(ps0, shuffle.0, button, 0, 0);
    let round1 = deal_hole_round(round0.0, round0.1, button, 1, 0);
    let ps2 = round1.0;
    let sb = next_live_of(ps2, button);
    let bb = next_live_of(ps2, sb);
    let ps3 = ps2.update(sb, pay_chips(ps2[sb], s.small_blind));
    let ps4 = ps3.update(bb, pay_chips(ps3[bb], s.big_blind));
    let s1 = GameState {
        players: ps4,
        button,
        community: Seq::empty(),
        street: Street::Preflop,
        current_bet: s.big_blind,
        min_raise: s.big_blind,
        last_payouts: Seq::empty(),
        deck: round1.1,
        rng: shuffle.1,
        ..s
    };
    GameState { to_act: next_to_act_of(s1, bb), ..s1 }
}

impl Game {
    pub(crate) fn deal_community(&mut self, count: usize, next: Street)
        requires
            old(self).players@.len() >= 1,
            old(self).button < old(self).players@.len(),
            old(self).deck@.len() >= count,
        ensures
            final(self)@ == deal_community_of(old(self)@, count as int, next),
    {
        let n = self.players.len();
        let mut i: usize = 0;
        while i < n
            invariant
                n == self.players@.len(),
                i <= n,
                self.players@.len() == old(self).players@.len(),
                forall|j: int| 0 <= j < i ==> #[trigger] self.players@[j] == reset_for_street(old(self).players@[j]),
                forall|j: int| i <= j < n ==> #[trigger] self.players@[j] == old(self).players@[j],
                self.community@ == old(self).community@,
                self.deck@ == old(self).deck@,
                self.button == old(self).button,
                self.big_blind == old(self).big_blind,
                self@ == (GameState { players: self@.players, ..old(self)@ }),
            decreases n - i,
        {
            self.players[i].bet = 0;
            self.players[i].acted = false;
            i = i + 1;
        }
        assert(self.players@ =~= old(self).players@.map_values(|p: Player| reset_for_street(p)));
        self.current_bet = 0;
        self.min_raise = self.big_blind;
        let ghost mid = self@;
        let mut k: usize = 0;
        while k < count
            invariant
                k <= count,
                self.deck@.len() + k == old(self).deck@.len(),
                old(self).deck@.len() >= count,
                draw_to_board(self.community@, self.deck@, (count - k) as int)
                    == draw_to_board(old(self).community@, old(self).deck@, count as int),
                self@ == (GameState { community: self@.community, deck: self@.deck, ..mid }),
            decreases count - k,
        {
            let c = self.deck.deal();
            self.community.push(c);
            k = k + 1;
        }
        self.street = next;
        let ghost s1 = self@;
        self.to_act = self.next_to_act_from(self.button);
        assert(self@ =~= deal_community_of(old(self)@, count as int, next));
    }
}


/// Replacing one seat changes the table total by the change in that seat's
/// stack plus commitment.
pub proof fn lemma_total_after_update(ps: Seq<Player>, i: int, q: Player)
    requires
        0 <= i < ps.len(),
    ensures
        sum_stacks(ps.update(i, q)) + sum_committed(ps.update(i, q)) + ps[i].stack + ps[i].committed
            == sum_stacks(ps) + sum_committed(ps) + q.stack + q.committed,
    decreases ps.len(),
{
    if i < ps.len() - 1 {
        lemma_total_after_update(ps.drop_last(), i, q);
        assert(ps.update(i, q).drop_last() =~= ps.drop_last().update(i, q));
    } else {
        assert(ps.update(i, q).drop_last() =~= ps.drop_last());
    }
}

/// Two tables whose seats hold the same stacks have the same stack sum.
pub proof fn lemma_same_stacks(a: Seq<Player>, b: Seq<Player>)
    requires
        a.len() == b.len(),
        forall|i: int| 0 <= i < a.len() ==> #[trigger] a[i].stack == b[i].stack,
    ensures
        sum_stacks(a) == sum_stacks(b),
    decreases a.len(),
{
    if a.len() > 0 {
        lemma_same_stacks(a.drop_last(), b.drop_last());
    }
}

/// Two tables whose seats hold the same commitments have the same pot.
pub proof fn lemma_same_committed(a: Seq<Player>, b: Seq<Player>)
    requires
        a.len() == b.len(),
        forall|i: int| 0 <= i < a.len() ==> #[trigger] a[i].committed == b[i].committed,
    ensures
        sum_committed(a) == sum_committed(b),
    decreases a.len(),
{
    if a.len() > 0 {
        lemma_same_committed(a.drop_last(), b.drop_last());
    }
}

/// Two tables whose seats hold the same stacks and commitments have the same
/// sums.
pub proof fn lemma_same_chips(a: Seq<Player>, b: Seq<Player>)
    requires
        a.len() == b.len(),
        forall|i: int| 0 <= i < a.len() ==> #[trigger] a[i].stack == b[i].stack && a[i].committed == b[i].committed,
    ensures
        sum_stacks(a) == sum_stacks(b),
        sum_committed(a) == sum_committed(b),
{
    assert forall|i: int| 0 <= i < a.len() implies #[trigger] a[i].committed == b[i].committed by {
        assert(a[i].stack == b[i].stack && a[i].committed == b[i].committed);
    }
    assert forall|i: int| 0 <= i < a.len() implies #[trigger] a[i].stack == b[i].stack by {
        assert(a[i].stack == b[i].stack && a[i].committed == b[i].committed);
    }
    lemma_same_stacks(a, b);
    lemma_same_committed(a, b);
}

/// With nothing committed, the sum of commitments is zero.
pub proof fn lemma_nothing_committed(a: Seq<Player>)
    requires
        forall|i: int| 0 <= i < a.len() ==> #[trigger] a[i].committed == 0,
    ensures
        sum_committed(a) == 0,
    decreases a.len(),
{
    if a.len() > 0 {
        lemma_nothing_committed(a.drop_last());
    }
}

pub proof fn lemma_deal_round_keeps_chips(ps: Seq<Player>, deck: Seq<Card>, button: int, round: int, k: int)
    requires
        0 <= k,
    ensures
        deal_hole_round(ps, deck, button, round, k).0.len() == ps.len(),
        forall|i: int| 0 <= i < ps.len() ==> {
            let q = #[trigger] deal_hole_round(ps, deck, button, round, k).0[i];
            &&& q.stack == ps[i].stack
            &&& q.committed == ps[i].committed
            &&& q.bet == ps[i].bet
            &&& q.folded == ps[i].folded
            &&& q.all_in == ps[i].all_in
            &&& q.acted == ps[i].acted
        },
    decreases ps.len() - k,
{
    if k < ps.len() {
        let seat = (button + 1 + k) % (ps.len() as int);
        let m = ps.len() as int;
        assert(0 <= seat < m) by (nonlinear_arith)
            requires
                seat == (button + 1 + k) % m,
                m > 0,
        ;
        if !ps[seat].folded {
            lemma_deal_round_keeps_chips(ps.update(seat, give_hole_card(ps[seat], round, deck.last())), deck.drop_last(), button, round, k + 1);
        } else {
            lemma_deal_round_keeps_chips(ps, deck, button, round, k + 1);
        }
    }
}

impl Game {
    /// Put (up to) `amount` chips from `seat` into the pot as a blind.
    fn post(&mut self, seat: usize, amount: u32)
        requires
            seat < old(self).players@.len(),
            old(self).players@[seat as int].bet <= old(self).players@[seat as int].committed,
            old(self).players@[seat as int].committed + old(self).players@[seat as int].stack <= u32::MAX,
        ensures
            final(self)@ == (GameState {
                players: old(self)@.players.update(seat as int, pay_chips(old(self)@.players[seat as int], amount as int)),
                ..old(self)@
            }),
    {
        self.move_chips(seat, amount);
    }

    /// One round of the deal, starting left of the button.
    fn deal_hole_cards(&mut self, round: usize)
        requires
            round < 2,
            old(self).players@.len() >= 1,
            old(self).button < old(self).players@.len(),
            old(self).deck@.len() >= count_live(old(self).players@),
        ensures
            final(self)@.deck.len() + count_live(old(self).players@) == old(self)@.deck.len(),
            final(self)@.players.len() == old(self)@.players.len(),
            (final(self)@.players, final(self)@.deck)
                == deal_hole_round(old(self)@.players, old(self)@.deck, old(self)@.button, round as int, 0),
            final(self)@ == (GameState { players: final(self)@.players, deck: final(self)@.deck, ..old(self)@ }),
    {
        let n = self.players.len();
        proof {
            lemma_live_from_start(old(self)@.players, old(self)@.button);
            vstd::arithmetic::div_mod::lemma_mod_bound(self.button + 1, n as int);
        }
        let mut seat = (self.button + 1) % n;
        let mut k: usize = 0;
        while k < n
            invariant
                n == self.players@.len(),
                n >= 1,
                round < 2,
                k <= n,
                self.button < n,
                seat < n,
                seat as int == (self.button + 1 + k) % (n as int),
                self.deck@.len() >= live_from_step(self@.players, self@.button, k as int),
                deal_hole_round(self@.players, self@.deck, self@.button, round as int, k as int)
                    == deal_hole_round(old(self)@.players, old(self)@.deck, old(self)@.button, round as int, 0),
                self@ == (GameState { players: self@.players, deck: self@.deck, ..old(self)@ }),
            decreases n - k,
        {
            if !self.players[seat].folded {
                let card = self.deck.deal();
                let ghost before = self.players@;
                self.players[seat].hole[round] = card;
                proof {
                    let q = give_hole_card(before[seat as int], round as int, card);
                    assert(self.players@[seat as int].hole@ =~= q.hole@);
                    assert(self.players@[seat as int].hole == q.hole);
                    assert(self.players@ =~= before.update(seat as int, q));
                    lemma_live_counts_by_flags(before, self.players@, self.button as int, k + 1);
                }
            }
            proof {
                vstd::arithmetic::div_mod::lemma_add_mod_noop(self.button + 1 + k, 1, n as int);
                vstd::arithmetic::div_mod::lemma_mod_bound(self.button + 1 + k + 1, n as int);
                if n > 1 {
                    vstd::arithmetic::div_mod::lemma_small_mod(1, n as nat);
                } else {
                    vstd::arithmetic::div_mod::lemma_mod_bound(seat + 1, n as int);
                    vstd::arithmetic::div_mod::lemma_mod_bound(self.button + 1 + k + 1, n as int);
                }
            }
            seat = (seat + 1) % n;
            k = k + 1;
        }
        proof {
            lemma_deal_round_takes(old(self)@.players, old(self)@.deck, old(self)@.button, round as int, 0);
        }
    }
}


impl Game {
    /// Deal a new hand: move the button, post blinds, deal hole cards.
    pub fn start_hand(&mut self)
        requires
            old(self).players@.len() >= 1,
            seats_with_chips(old(self).players@) <= 26,
            old(self).button < usize::MAX,
        ensures
            final(self)@ == start_hand_of(old(self)@),
    {
        let n = self.players.len();
        let mut i: usize = 0;
        while i < n
            invariant
                n == self.players@.len(),
                i <= n,
                forall|j: int| 0 <= j < i ==> #[trigger] self.players@[j] == reset_for_hand(old(self).players@[j]),
                forall|j: int| i <= j < n ==> #[trigger] self.players@[j] == old(self).players@[j],
                self@ == (GameState { players: self@.players, ..old(self)@ }),
            decreases n - i,
        {
            let p = &mut self.players[i];
            p.folded = p.stack == 0;
            p.all_in = false;
            p.bet = 0;
            p.committed = 0;
            p.acted = false;
            i = i + 1;
        }
        let ghost ps0 = old(self).players@.map_values(|p: Player| reset_for_hand(p));
        assert(self.players@ =~= ps0);
        self.community.clear();
        self.last_payouts.clear();
        self.current_bet = 0;
        self.min_raise = self.big_blind;

        self.deck = Deck::full();
        self.deck.shuffle(&mut self.rng);
        proof {
            crate::deck::lemma_shuffle_is_permutation(ordered_deck(), old(self).rng@, 51);
        }
        self.button = self.next_live(self.button);
        proof {
            lemma_seats_in_new_hand(old(self).players@);
        }
        self.deal_hole_cards(0);
        proof {
            let r0 = deal_hole_round(ps0, shuffled(ordered_deck(), old(self).rng@).0, self.button as int, 0, 0);
            lemma_deal_round_keeps_chips(ps0, shuffled(ordered_deck(), old(self).rng@).0, self.button as int, 0, 0);
            lemma_live_counts_by_flags(ps0, r0.0, self.button as int, 0);
        }
        self.deal_hole_cards(1);
        proof {
            let r0 = deal_hole_round(ps0, shuffled(ordered_deck(), old(self).rng@).0, self.button as int, 0, 0);
            lemma_deal_round_keeps_chips(r0.0, r0.1, self.button as int, 1, 0);
        }

        let sb = self.next_live(self.button);
        let bb = self.next_live(sb);
        self.post(sb, self.small_blind);
        self.post(bb, self.big_blind);
        self.current_bet = self.big_blind;
        self.min_raise = self.big_blind;

        self.street = Street::Preflop;
        self.to_act = self.next_to_act_from(bb);
        assert(self@ =~= start_hand_of(old(self)@));
    }
}


/// `(from + 1 + d) % n` for an offset `0 <= d <= n - 2` is never `from`.
proof fn lemma_offset_seat(from: int, d: int, n: int)
    requires
        0 <= from < n,
        0 <= d <= n - 2,
    ensures
        0 <= (from + 1 + d) % n < n,
        (from + 1 + d) % n != from,
{
    let v = from + 1 + d;
    if v < n {
        vstd::arithmetic::div_mod::lemma_small_mod(v as nat, n as nat);
    } else {
        vstd::arithmetic::div_mod::lemma_mod_add_multiples_vanish(v - n, n);
        vstd::arithmetic::div_mod::lemma_small_mod((v - n) as nat, n as nat);
    }
}

proof fn lemma_next_live_scan_other(ps: Seq<Player>, from: int, g: int, d: int)
    requires
        1 <= ps.len(),
        0 <= from < ps.len(),
        0 <= g <= d <= ps.len() - 2,
        !ps[(from + 1 + d) % (ps.len() as int)].folded,
    ensures
        ({
            let r = next_live_scan(ps, (from + 1 + g) % (ps.len() as int), g);
            0 <= r < ps.len() && !ps[r].folded && r != from
        }),
    decreases d - g,
{
    let n = ps.len() as int;
    let i = (from + 1 + g) % n;
    lemma_offset_seat(from, g, n);
    if ps[i].folded {
        assert(d != g);
        vstd::arithmetic::div_mod::lemma_add_mod_noop(from + 1 + g, 1, n);
        if n > 1 {
            vstd::arithmetic::div_mod::lemma_small_mod(1, n as nat);
        }
        assert((i + 1) % n == (from + 1 + (g + 1)) % n);
        lemma_next_live_scan_other(ps, from, g + 1, d);
    }
}

/// If some other seat still holds cards, the next live seat after `from`
/// is such a seat, and not `from` itself.
pub proof fn lemma_next_live_other(ps: Seq<Player>, from: int, j: int)
    requires
        1 <= ps.len(),
        0 <= from < ps.len(),
        0 <= j < ps.len(),
        j != from,
        !ps[j].folded,
    ensures
        0 <= next_live_of(ps, from) < ps.len(),
        !ps[next_live_of(ps, from)].folded,
        next_live_of(ps, from) != from,
{
    let n = ps.len() as int;
    let d = if j > from { j - from - 1 } else { j - from - 1 + n };
    if j > from {
        vstd::arithmetic::div_mod::lemma_small_mod(j as nat, n as nat);
    } else {
        vstd::arithmetic::div_mod::lemma_mod_add_multiples_vanish(j, n);
        vstd::arithmetic::div_mod::lemma_small_mod(j as nat, n as nat);
    }
    assert((from + 1 + d) % n == j);
    lemma_next_live_scan_other(ps, from, 0, d);
}


/// The seats that hold chips, and so take part in the next hand.
pub open spec fn seats_with_chips(ps: Seq<Player>) -> nat
    decreases ps.len(),
{
    if ps.len() == 0 {
        0
    } else {
        seats_with_chips(ps.drop_last()) + if ps.last().stack > 0 { 1nat } else { 0nat }
    }
}

/// How many seats after the button seat `i` is, going left (0 for the seat
/// just after it).
pub open spec fn seat_offset(button: int, n: int, i: int) -> int {
    (i - button - 1) % n
}

/// The seats still in the hand that a deal round reaches from its step `k`
/// on (step `k` serves the seat `k + 1` places after the button).
pub open spec fn live_from_step(ps: Seq<Player>, button: int, k: int) -> nat
    decreases ps.len() - k,
{
    if k < 0 || k >= ps.len() {
        0
    } else {
        (if !ps[(button + 1 + k) % (ps.len() as int)].folded { 1nat } else { 0nat })
            + live_from_step(ps, button, k + 1)
    }
}

/// Step `k` of a deal round serves seat `i` exactly when `i` is `k` seats
/// after the button.
pub proof fn lemma_offset(b: int, n: int, i: int, k: int)
    requires
        n > 0,
        0 <= i < n,
        0 <= k < n,
    ensures
        0 <= (b + 1 + k) % n < n,
        0 <= seat_offset(b, n, i) < n,
        (i == (b + 1 + k) % n) <==> (seat_offset(b, n, i) == k),
{
    let x = b + 1 + k;
    let y = i - b - 1;
    vstd::arithmetic::div_mod::lemma_fundamental_div_mod(x, n);
    vstd::arithmetic::div_mod::lemma_fundamental_div_mod(y, n);
    vstd::arithmetic::div_mod::lemma_mod_bound(x, n);
    vstd::arithmetic::div_mod::lemma_mod_bound(y, n);
    let q = x / n;
    let r = y / n;
    vstd::arithmetic::div_mod::lemma_small_mod(k as nat, n as nat);
    vstd::arithmetic::div_mod::lemma_small_mod(i as nat, n as nat);
    if i == x % n {
        assert(n * (-q) == -(n * q)) by (nonlinear_arith);
        assert(y == n * (-q) + k);
        vstd::arithmetic::div_mod::lemma_mod_multiples_vanish(-q, k, n);
    }
    if y % n == k {
        assert(i == n * r + x);
        vstd::arithmetic::div_mod::lemma_mod_multiples_vanish(r, x, n);
    }
}

/// Live seats below `i` at least `k` seats after the button.
spec fn live_unreached(ps: Seq<Player>, button: int, k: int, i: int) -> nat
    decreases i,
{
    if i <= 0 {
        0
    } else {
        live_unreached(ps, button, k, i - 1)
            + if !ps[i - 1].folded && seat_offset(button, ps.len() as int, i - 1) >= k { 1nat } else { 0nat }
    }
}

proof fn lemma_unreached_step(ps: Seq<Player>, button: int, k: int, i: int)
    requires
        ps.len() > 0,
        0 <= k < ps.len(),
        0 <= i <= ps.len(),
    ensures
        live_unreached(ps, button, k, i) == live_unreached(ps, button, k + 1, i) + if (button + 1 + k) % (
            ps.len() as int) < i && !ps[(button + 1 + k) % (ps.len() as int)].folded {
            1nat
        } else {
            0nat
        },
    decreases i,
{
    if i > 0 {
        lemma_offset(button, ps.len() as int, i - 1, k);
        lemma_unreached_step(ps, button, k, i - 1);
    }
}

proof fn lemma_unreached_ends(ps: Seq<Player>, button: int, i: int)
    requires
        ps.len() > 0,
        0 <= i <= ps.len(),
    ensures
        live_unreached(ps, button, 0, i) == count_live(ps.take(i)),
        live_unreached(ps, button, ps.len() as int, i) == 0,
    decreases i,
{
    if i > 0 {
        lemma_offset(button, ps.len() as int, i - 1, 0);
        lemma_unreached_ends(ps, button, i - 1);
        assert(ps.take(i).drop_last() =~= ps.take(i - 1));
    }
}

proof fn lemma_live_from_unreached(ps: Seq<Player>, button: int, k: int)
    requires
        ps.len() > 0,
        0 <= k <= ps.len(),
    ensures
        live_from_step(ps, button, k) == live_unreached(ps, button, k, ps.len() as int),
    decreases ps.len() - k,
{
    if k < ps.len() {
        lemma_live_from_unreached(ps, button, k + 1);
        lemma_unreached_step(ps, button, k, ps.len() as int);
        lemma_offset(button, ps.len() as int, 0, k);
    } else {
        lemma_unreached_ends(ps, button, ps.len() as int);
    }
}

/// A whole deal round reaches every seat still in the hand, once.
pub proof fn lemma_live_from_start(ps: Seq<Player>, button: int)
    requires
        ps.len() > 0,
    ensures
        live_from_step(ps, button, 0) == count_live(ps),
{
    lemma_live_from_unreached(ps, button, 0);
    lemma_unreached_ends(ps, button, ps.len() as int);
    assert(ps.take(ps.len() as int) =~= ps);
}

/// Who is live is all these counts look at.
pub proof fn lemma_live_counts_by_flags(ps: Seq<Player>, qs: Seq<Player>, button: int, k: int)
    requires
        ps.len() == qs.len(),
        forall|i: int| 0 <= i < ps.len() ==> (#[trigger] qs[i]).folded == ps[i].folded,
    ensures
        live_from_step(qs, button, k) == live_from_step(ps, button, k),
        count_live(qs) == count_live(ps),
    decreases ps.len() - k,
{
    if 0 <= k < ps.len() {
        lemma_live_counts_by_flags(ps, qs, button, k + 1);
        let m = ps.len() as int;
        assert(0 <= (button + 1 + k) % m < m) by (nonlinear_arith)
            requires m > 0;
    } else {
        lemma_count_live_by_flags(ps, qs);
    }
}

proof fn lemma_count_live_by_flags(ps: Seq<Player>, qs: Seq<Player>)
    requires
        ps.len() == qs.len(),
        forall|i: int| 0 <= i < ps.len() ==> (#[trigger] qs[i]).folded == ps[i].folded,
    ensures
        count_live(qs) == count_live(ps),
    decreases ps.len(),
{
    if ps.len() > 0 {
        assert forall|i: int| 0 <= i < ps.len() - 1 implies (#[trigger] qs.drop_last()[i]).folded == ps.drop_last()[i].folded by {
            assert(qs[i].folded == ps[i].folded);
        }
        lemma_count_live_by_flags(ps.drop_last(), qs.drop_last());
        assert(qs[ps.len() - 1].folded == ps[ps.len() - 1].folded);
    }
}

/// At the start of a hand the seats with chips are the seats in it.
pub proof fn lemma_seats_in_new_hand(ps: Seq<Player>)
    ensures
        count_live(ps.map_values(|p: Player| reset_for_hand(p))) == seats_with_chips(ps),
    decreases ps.len(),
{
    if ps.len() > 0 {
        lemma_seats_in_new_hand(ps.drop_last());
        assert(ps.map_values(|p: Player| reset_for_hand(p)).drop_last() =~= ps.drop_last().map_values(
            |p: Player| reset_for_hand(p),
        ));
    }
}

/// A round of the deal takes one card off the deck for every seat still in
/// the hand that it reaches.
pub proof fn lemma_deal_round_takes(ps: Seq<Player>, deck: Seq<Card>, button: int, round: int, k: int)
    requires
        0 <= k <= ps.len(),
        deck.len() >= live_from_step(ps, button, k),
    ensures
        deal_hole_round(ps, deck, button, round, k).1.len() == deck.len() - live_from_step(ps, button, k),
    decreases ps.len() - k,
{
    if k < ps.len() {
        let seat = (button + 1 + k) % (ps.len() as int);
        let m = ps.len() as int;
        assert(0 <= seat < m) by (nonlinear_arith)
            requires
                seat == (button + 1 + k) % m,
                m > 0,
        ;
        if !ps[seat].folded {
            let ps1 = ps.update(seat, give_hole_card(ps[seat], round, deck.last()));
            lemma_live_counts_by_flags(ps, ps1, button, k + 1);
            lemma_deal_round_takes(ps1, deck.drop_last(), button, round, k + 1);
        } else {
            lemma_deal_round_takes(ps, deck, button, round, k + 1);
        }
    }
}

} // verus!
