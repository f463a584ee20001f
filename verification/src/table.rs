//! Table-side rules the front-end shows: how a bet is laid out in chips,
//! how an action is announced, the names of streets, the blind schedule,
//! when the game is won or lost, and the small generator that varies the
//! sound effects and the music order.

use vstd::prelude::*;
use crate::game::{Action, Game, Street, call_amount_of};

verus! {

// ---------------------------------------------------------------------------
// Chips
// ---------------------------------------------------------------------------

/// Chip denominations, largest first, with the colour index of each.
pub const CHIP_DENOMS: [(u32, usize); 5] = [(100, 4), (50, 3), (20, 2), (10, 1), (5, 0)];

/// The value of the chip with colour index `idx` ($5, $10, $20, $50, $100).
pub open spec fn chip_value(idx: int) -> int {
    if idx == 0 { 5 } else if idx == 1 { 10 } else if idx == 2 { 20 } else if idx == 3 { 50 } else { 100 }
}

/// How many chips of each colour (index 0 = $5 ... 4 = $100) make up
/// `amount`: an equal number of every denomination (one full set is worth
/// $185), then the rest split greedily from the largest chip down, and one
/// more $5 chip for anything left under $5.
pub open spec fn chip_counts(amount: int) -> Seq<int> {
    let base = amount / 185;
    let r0 = amount - base * 185;
    let c100 = r0 / 100;
    let r1 = r0 % 100;
    let c50 = r1 / 50;
    let r2 = r1 % 50;
    let c20 = r2 / 20;
    let r3 = r2 % 20;
    let c10 = r3 / 10;
    let r4 = r3 % 10;
    let c5 = r4 / 5;
    let r5 = r4 % 5;
    seq![base + c5 + if r5 > 0 { 1int } else { 0int }, base + c10, base + c20, base + c50, base + c100]
}

/// The piles: `(colour, count)` for every colour with chips, largest
/// denomination first.
pub open spec fn chip_piles(amount: int) -> Seq<(usize, u32)> {
    let c = chip_counts(amount);
    (if c[4] > 0 { seq![(4usize, c[4] as u32)] } else { seq![] })
        + (if c[3] > 0 { seq![(3usize, c[3] as u32)] } else { seq![] })
        + (if c[2] > 0 { seq![(2usize, c[2] as u32)] } else { seq![] })
        + (if c[1] > 0 { seq![(1usize, c[1] as u32)] } else { seq![] })
        + (if c[0] > 0 { seq![(0usize, c[0] as u32)] } else { seq![] })
}

/// The total value of a list of piles.
pub open spec fn piles_value(piles: Seq<(usize, u32)>) -> int
    decreases piles.len(),
{
    if piles.len() == 0 {
        0
    } else {
        piles_value(piles.drop_last()) + chip_value(piles.last().0 as int) * piles.last().1
    }
}

/// The chips always add up to the amount, rounded up to a multiple of $5
/// (an odd amount under $5 shows as one more $5 chip); so an amount in
/// whole $5 units is shown exactly.
pub proof fn lemma_chips_add_up(amount: int)
    requires
        0 <= amount <= u32::MAX,
    ensures
        piles_value(chip_piles(amount)) == (amount + 4) / 5 * 5,
        amount % 5 == 0 ==> piles_value(chip_piles(amount)) == amount,
{
    let c = chip_counts(amount);
    let base = amount / 185;
    let r0 = amount - base * 185;
    assert(0 <= r0 < 185 && base >= 0) by (nonlinear_arith)
        requires base == amount / 185, r0 == amount - base * 185, amount >= 0;
    let total = c[0] * 5 + c[1] * 10 + c[2] * 20 + c[3] * 50 + c[4] * 100;
    assert(total == base * 185 + r0 - r0 % 5 + if r0 % 5 > 0 { 5int } else { 0int }) by (nonlinear_arith)
        requires
            c[0] == base + r0 % 100 % 50 % 20 % 10 / 5 + if r0 % 100 % 50 % 20 % 10 % 5 > 0 { 1int } else { 0int },
            c[1] == base + r0 % 100 % 50 % 20 / 10,
            c[2] == base + r0 % 100 % 50 / 20,
            c[3] == base + r0 % 100 / 50,
            c[4] == base + r0 / 100,
            0 <= r0 < 185,
            total == c[0] * 5 + c[1] * 10 + c[2] * 20 + c[3] * 50 + c[4] * 100;
    assert(amount % 5 == r0 % 5) by (nonlinear_arith)
        requires r0 == amount - base * 185, amount >= 0, base >= 0;
    assert(base * 185 + r0 - r0 % 5 + (if r0 % 5 > 0 { 5int } else { 0int }) == (amount + 4) / 5 * 5) by (nonlinear_arith)
        requires r0 == amount - base * 185, amount % 5 == r0 % 5, amount >= 0;
    let p = chip_piles(amount);
    lemma_piles_value_parts(amount);
}

proof fn lemma_piles_value_concat(a: Seq<(usize, u32)>, b: Seq<(usize, u32)>)
    ensures
        piles_value(a + b) == piles_value(a) + piles_value(b),
    decreases b.len(),
{
    if b.len() > 0 {
        lemma_piles_value_concat(a, b.drop_last());
        assert((a + b).drop_last() =~= a + b.drop_last());
    } else {
        assert(a + b =~= a);
    }
}

/// The value of an optional single pile.
spec fn pile_if(idx: usize, count: int) -> Seq<(usize, u32)> {
    if count > 0 { seq![(idx, count as u32)] } else { seq![] }
}

proof fn lemma_pile_if_value(idx: usize, count: int)
    requires
        0 <= count <= u32::MAX,
        idx < 5,
    ensures
        piles_value(pile_if(idx, count)) == chip_value(idx as int) * count,
{
    if count > 0 {
        let p = pile_if(idx, count);
        assert(p.drop_last() =~= Seq::<(usize, u32)>::empty());
        assert(piles_value(Seq::<(usize, u32)>::empty()) == 0);
        assert(p.last() == (idx, count as u32));
        assert((count as u32) as int == count);
        assert(piles_value(p) == chip_value(idx as int) * ((count as u32) as int));
    }
}

proof fn lemma_piles_value_parts(amount: int)
    requires
        0 <= amount <= u32::MAX,
    ensures
        piles_value(chip_piles(amount)) == chip_counts(amount)[0] * 5 + chip_counts(amount)[1] * 10
            + chip_counts(amount)[2] * 20 + chip_counts(amount)[3] * 50 + chip_counts(amount)[4] * 100,
{
    let c = chip_counts(amount);
    let base = amount / 185;
    let r0 = amount - base * 185;
    assert(0 <= r0 < 185 && 0 <= base <= u32::MAX / 185) by (nonlinear_arith)
        requires base == amount / 185, r0 == amount - base * 185, 0 <= amount <= u32::MAX;
    let p4 = pile_if(4, c[4]);
    let p3 = pile_if(3, c[3]);
    let p2 = pile_if(2, c[2]);
    let p1 = pile_if(1, c[1]);
    let p0 = pile_if(0, c[0]);
    assert(chip_piles(amount) == p4 + p3 + p2 + p1 + p0);
    lemma_pile_if_value(4, c[4]);
    lemma_pile_if_value(3, c[3]);
    lemma_pile_if_value(2, c[2]);
    lemma_pile_if_value(1, c[1]);
    lemma_pile_if_value(0, c[0]);
    lemma_piles_value_concat(p4, p3);
    lemma_piles_value_concat(p4 + p3, p2);
    lemma_piles_value_concat(p4 + p3 + p2, p1);
    lemma_piles_value_concat(p4 + p3 + p2 + p1, p0);
}

/// Break an amount into physical chips in a *balanced* mix so a stack
/// shows a bunch of every colour rather than one tall tower of the biggest
/// denomination. Returns `(colour_index, count)` per denomination, largest
/// first.
pub fn chip_breakdown(amount: u32) -> (piles: Vec<(usize, u32)>)
    ensures
        piles@ == chip_piles(amount as int),
{
    // Sum of one chip of every denomination ($5+$10+$20+$50+$100).
    let set_value: u32 = 185;
    let base = amount / set_value;
    let rem = amount - base * set_value;
    assert(rem < 185) by (nonlinear_arith)
        requires base == amount / 185, rem == amount - base * 185;
    assert(base <= u32::MAX / 185) by (nonlinear_arith)
        requires base == amount / 185;
    // Spread what's left across denominations, largest first.
    let c100 = rem / 100;
    let r1 = rem % 100;
    let c50 = r1 / 50;
    let r2 = r1 % 50;
    let c20 = r2 / 20;
    let r3 = r2 % 20;
    let c10 = r3 / 10;
    let r4 = r3 % 10;
    let c5 = r4 / 5;
    let r5 = r4 % 5;
    // An odd chip under $5 is shown as one more $5 chip.
    let odd: u32 = if r5 > 0 { 1 } else { 0 };
    let counts: [u32; 5] = [base + c5 + odd, base + c10, base + c20, base + c50, base + c100];
    // Emit piles largest-denomination first, skipping any that are empty.
    let mut piles: Vec<(usize, u32)> = Vec::new();
    let ghost c = chip_counts(amount as int);
    if counts[4] > 0 {
        piles.push((4, counts[4]));
    }
    if counts[3] > 0 {
        piles.push((3, counts[3]));
    }
    if counts[2] > 0 {
        piles.push((2, counts[2]));
    }
    if counts[1] > 0 {
        piles.push((1, counts[1]));
    }
    if counts[0] > 0 {
        piles.push((0, counts[0]));
    }
    assert(piles@ =~= chip_piles(amount as int));
    piles
}


// ---------------------------------------------------------------------------
// Announcing actions
// ---------------------------------------------------------------------------

/// The decimal digit character for `d` (0..=9).
pub open spec fn digit_char(d: int) -> char {
    if d == 0 { '0' } else if d == 1 { '1' } else if d == 2 { '2' } else if d == 3 { '3' }
    else if d == 4 { '4' } else if d == 5 { '5' } else if d == 6 { '6' } else if d == 7 { '7' }
    else if d == 8 { '8' } else { '9' }
}

/// The decimal representation of `n`, without leading zeros.
pub open spec fn decimal(n: nat) -> Seq<char>
    decreases n,
{
    if n < 10 {
        seq![digit_char(n as int)]
    } else {
        decimal(n / 10) + seq![digit_char((n % 10) as int)]
    }
}

fn digit_str(d: u32) -> (s: &'static str)
    requires
        d < 10,
    ensures
        s@ == seq![digit_char(d as int)],
{
    match d {
        0 => { proof { reveal_strlit("0"); } "0" },
        1 => { proof { reveal_strlit("1"); } "1" },
        2 => { proof { reveal_strlit("2"); } "2" },
        3 => { proof { reveal_strlit("3"); } "3" },
        4 => { proof { reveal_strlit("4"); } "4" },
        5 => { proof { reveal_strlit("5"); } "5" },
        6 => { proof { reveal_strlit("6"); } "6" },
        7 => { proof { reveal_strlit("7"); } "7" },
        8 => { proof { reveal_strlit("8"); } "8" },
        9 => { proof { reveal_strlit("9"); } "9" },
        _ => { proof { reveal_strlit("9"); } "9" },
    }
}

/// Append the decimal representation of `n` to `s`.
pub(crate) fn append_decimal(s: &mut String, n: u32)
    ensures
        final(s)@ == old(s)@ + decimal(n as nat),
    decreases n,
{
    if n >= 10 {
        append_decimal(s, n / 10);
    }
    s.append(digit_str(n % 10));
    assert(final(s)@ =~= old(s)@ + decimal(n as nat));
}

/// How an action is announced at the table: "folds", "checks",
/// "calls $<amount>" or "raises to $<total>".
pub open spec fn action_text(g: crate::game::GameState, seat: int, action: Action) -> Seq<char> {
    match action {
        Action::Fold => "folds"@,
        Action::Check | Action::Call => if call_amount_of(g, seat) == 0 {
            "checks"@
        } else {
            "calls $"@ + decimal(call_amount_of(g, seat) as nat)
        },
        Action::Raise(to) => "raises to $"@ + decimal(to as nat),
    }
}

pub fn describe_action(game: &Game, seat: usize, action: Action) -> (s: String)
    requires
        seat < game.players@.len(),
    ensures
        s@ == action_text(game@, seat as int, action),
{
    match action {
        Action::Fold => String::from_str("folds"),
        Action::Check | Action::Call => {
            let amt = game.call_amount(seat);
            if amt == 0 {
                String::from_str("checks")
            } else {
                let mut s = String::from_str("calls $");
                append_decimal(&mut s, amt);
                s
            }
        },
        Action::Raise(to) => {
            let mut s = String::from_str("raises to $");
            append_decimal(&mut s, to);
            s
        },
    }
}

/// The name of a street, for the table display.
pub open spec fn street_text(s: Street) -> Seq<char> {
    match s {
        Street::Preflop => "Preflop"@,
        Street::Flop => "Flop"@,
        Street::Turn => "Turn"@,
        Street::River => "River"@,
        Street::Showdown => "Showdown"@,
        Street::HandOver => "Hand over"@,
    }
}

pub fn street_name(s: Street) -> (name: &'static str)
    ensures
        name@ == street_text(s),
{
    match s {
        Street::Preflop => "Preflop",
        Street::Flop => "Flop",
        Street::Turn => "Turn",
        Street::River => "River",
        Street::Showdown => "Showdown",
        Street::HandOver => "Hand over",
    }
}

// ---------------------------------------------------------------------------
// Blinds and the end of the game
// ---------------------------------------------------------------------------

/// Escalating blind schedule (small, big).
pub const BLIND_LEVELS: [(u32, u32); 12] = [
    (5, 10),
    (10, 20),
    (15, 30),
    (25, 50),
    (40, 80),
    (60, 120),
    (100, 200),
    (150, 300),
    (250, 500),
    (400, 800),
    (600, 1200),
    (1000, 2000),
];

/// The blinds at level `level` of the schedule (the last level repeats).
pub open spec fn blinds_spec(level: int) -> (u32, u32) {
    if level <= 0 { (5, 10) }
    else if level == 1 { (10, 20) }
    else if level == 2 { (15, 30) }
    else if level == 3 { (25, 50) }
    else if level == 4 { (40, 80) }
    else if level == 5 { (60, 120) }
    else if level == 6 { (100, 200) }
    else if level == 7 { (150, 300) }
    else if level == 8 { (250, 500) }
    else if level == 9 { (400, 800) }
    else if level == 10 { (600, 1200) }
    else { (1000, 2000) }
}

/// The blinds for a level; past the end of the schedule the last level
/// stays.
pub fn blinds_at(level: usize) -> (b: (u32, u32))
    ensures
        b == blinds_spec(level as int),
{
    let last = BLIND_LEVELS.len() - 1;
    let l = if level < last { level } else { last };
    let b = BLIND_LEVELS[l];
    assert(BLIND_LEVELS@ == seq![(5u32, 10u32), (10u32, 20u32), (15u32, 30u32), (25u32, 50u32), (40u32, 80u32),
        (60u32, 120u32), (100u32, 200u32), (150u32, 300u32), (250u32, 500u32), (400u32, 800u32),
        (600u32, 1200u32), (1000u32, 2000u32)]);
    b
}

/// Where the game stands for the human in seat 0.
#[derive(Clone, Copy, PartialEq, Eq, Structural, Debug)]
pub enum Standing {
    /// Still playing.
    Playing,
    /// Every other seat is out of chips.
    Won,
    /// Seat 0 is out of chips.
    Busted,
}

/// Seat 0 won once every other seat has no chips while it has some; it is
/// busted once it has no chips.
pub open spec fn standing_of(g: crate::game::GameState) -> Standing {
    let human_out = g.players[0].stack == 0;
    let others_out = forall|i: int| 1 <= i < g.players.len() ==> #[trigger] g.players[i].stack == 0;
    if others_out && !human_out {
        Standing::Won
    } else if human_out {
        Standing::Busted
    } else {
        Standing::Playing
    }
}

/// Decide whether the human (seat 0) is out (busted) or has cleaned
/// everyone else out (won).
pub fn standing(game: &Game) -> (r: Standing)
    requires
        game.players@.len() >= 1,
    ensures
        r == standing_of(game@),
{
    let human_out = game.players[0].stack == 0;
    let mut others_out = true;
    let mut i: usize = 1;
    while i < game.players.len()
        invariant
            1 <= i <= game.players@.len(),
            others_out == forall|k: int| 1 <= k < i ==> #[trigger] game.players@[k].stack == 0,
        decreases game.players@.len() - i,
    {
        if game.players[i].stack != 0 {
            others_out = false;
        }
        i = i + 1;
    }
    if others_out && !human_out {
        Standing::Won
    } else if human_out {
        Standing::Busted
    } else {
        Standing::Playing
    }
}


// ---------------------------------------------------------------------------
// Sound variety and the music order
// ---------------------------------------------------------------------------

/// One step of the sound generator (a 64-bit linear congruential
/// generator).
pub open spec fn sound_step(state: u64) -> u64 {
    vstd::wrapping::u64_specs::wrapping_add(
        vstd::wrapping::u64_specs::wrapping_mul(state, 6364136223846793005u64),
        1442695040888963407u64,
    )
}

/// The number drawn when stepping from `state`: the high bits of the next
/// state.
pub open spec fn sound_output(state: u64) -> u32 {
    (sound_step(state) >> 33u64) as u32
}

/// The small generator that varies sound effects and shuffles the music.
pub struct SfxRng {
    state: u64,
}

impl View for SfxRng {
    type V = u64;

    closed spec fn view(&self) -> u64 {
        self.state
    }
}

impl SfxRng {
    pub fn new(seed: u64) -> (r: SfxRng)
        ensures
            r@ == seed,
    {
        SfxRng { state: seed }
    }

    pub fn next_u32(&mut self) -> (r: u32)
        ensures
            final(self)@ == sound_step(old(self)@),
            r == sound_output(old(self)@),
    {
        let st: u64 = self.state.wrapping_mul(6364136223846793005).wrapping_add(1442695040888963407);
        self.state = st;
        let r: u64 = st >> 33;
        assert(r <= u32::MAX) by (bit_vector)
            requires r == st >> 33u64;
        r as u32
    }

    /// A random element of `v`, if it has any.
    pub fn pick<'a, T>(&mut self, v: &'a [T]) -> (r: Option<&'a T>)
        ensures
            v@.len() == 0 ==> r is None && final(self)@ == old(self)@,
            v@.len() > 0 ==> final(self)@ == sound_step(old(self)@)
                && r == Some(&v@[(sound_output(old(self)@) as int) % (v@.len() as int)]),
    {
        if v.len() == 0 {
            None
        } else {
            let i = self.next_u32() as usize % v.len();
            Some(&v[i])
        }
    }
}

/// Fisher-Yates over `order` from position `i` down to 1, drawing from the
/// sound generator.
pub open spec fn song_shuffle_from(order: Seq<usize>, state: u64, i: int) -> (Seq<usize>, u64)
    decreases i,
{
    if i < 1 || i >= order.len() {
        (order, state)
    } else {
        let j = (sound_output(state) as int) % (i + 1);
        song_shuffle_from(order.update(i, order[j]).update(j, order[i]), sound_step(state), i - 1)
    }
}

/// A fresh play order of `n` songs: the songs shuffled, and if the song that
/// was playing (`prev`) came up first, it swaps places with the last one.
pub open spec fn song_order_spec(n: int, prev: Option<usize>, state: u64) -> (Seq<usize>, u64) {
    let shuffled = song_shuffle_from(Seq::new(n as nat, |i: int| i as usize), state, n - 1);
    let order = shuffled.0;
    let fixed = if n > 1 && prev is Some && order[0] == prev->0 {
        order.update(0, order[n - 1]).update(n - 1, order[0])
    } else {
        order
    };
    (fixed, shuffled.1)
}

/// Shuffle the play order of `n` songs so that the song that was playing
/// (`prev`) does not come first again.
pub fn song_order(n: usize, prev: Option<usize>, rng: &mut SfxRng) -> (order: Vec<usize>)
    ensures
        (order@, final(rng)@) == song_order_spec(n as int, prev, old(rng)@),
{
    let mut order: Vec<usize> = Vec::new();
    let mut k: usize = 0;
    while k < n
        invariant
            k <= n,
            order@ == Seq::new(k as nat, |i: int| i as usize),
        decreases n - k,
    {
        order.push(k);
        k = k + 1;
        assert(order@ =~= Seq::new(k as nat, |i: int| i as usize));
    }
    if n >= 2 {
        let mut i: usize = n - 1;
        while i >= 1
            invariant
                n == order@.len(),
                i < n,
                song_shuffle_from(order@, rng@, i as int)
                    == song_shuffle_from(Seq::new(n as nat, |x: int| x as usize), old(rng)@, n - 1),
            decreases i,
        {
            let ghost before = order@;
            let j = rng.next_u32() as usize % (i + 1);
            let oi = order[i];
            let oj = order[j];
            order.set(i, oj);
            order.set(j, oi);
            assert(order@ =~= before.update(i as int, before[j as int]).update(j as int, before[i as int]));
            i = i - 1;
        }
        if let Some(p) = prev {
            if order[0] == p {
                let first = order[0];
                let last = order[n - 1];
                order.set(0, last);
                order.set(n - 1, first);
            }
        }
    }
    order
}

proof fn lemma_song_shuffle_permutes(order: Seq<usize>, state: u64, i: int)
    requires
        i < order.len(),
    ensures
        song_shuffle_from(order, state, i).0.to_multiset() == order.to_multiset(),
        song_shuffle_from(order, state, i).0.len() == order.len(),
    decreases i,
{
    if i >= 1 {
        let j = (sound_output(state) as int) % (i + 1);
        crate::deck::lemma_swap_permutes(order, i, j);
        lemma_song_shuffle_permutes(order.update(i, order[j]).update(j, order[i]), sound_step(state), i - 1);
    }
}

/// The new play order holds every song exactly once, and when there is
/// more than one song the one that was playing does not come first.
pub proof fn lemma_song_order(n: int, prev: Option<usize>, state: u64)
    requires
        0 <= n <= usize::MAX,
    ensures
        song_order_spec(n, prev, state).0.to_multiset() == Seq::new(n as nat, |i: int| i as usize).to_multiset(),
        song_order_spec(n, prev, state).0.len() == n,
        n > 1 && prev is Some ==> song_order_spec(n, prev, state).0[0] != prev->0,
{
    let start = Seq::new(n as nat, |i: int| i as usize);
    if n >= 1 {
        lemma_song_shuffle_permutes(start, state, n - 1);
    }
    let order = song_shuffle_from(start, state, n - 1).0;
    if n > 1 && prev is Some && order[0] == prev->0 {
        crate::deck::lemma_swap_permutes(order, 0, n - 1);
        assert(start.no_duplicates());
        start.lemma_multiset_has_no_duplicates();
        order.lemma_multiset_has_no_duplicates_conv();
        assert(order[0] != order[n - 1]);
    }
}

/// The element at `i`, if there is one.
pub open spec fn seq_get(s: Seq<usize>, i: int) -> Option<usize> {
    if 0 <= i < s.len() { Some(s[i]) } else { None }
}

/// A fresh play order for `n` songs, started from its first song; the
/// previous song is the one at `pos`, if any. The new order, position and
/// generator state.
pub open spec fn reshuffled(order: Seq<usize>, pos: int, n: int, state: u64) -> (Seq<usize>, int, u64) {
    let r = song_order_spec(n, seq_get(order, pos), state);
    (r.0, 0, r.1)
}

/// Where the playlist goes at the start of a round: with no order yet, a
/// fresh one; on the first round, the order's first song as it stands
/// (`pos` is `usize::MAX` until then); else the next song, reshuffling
/// once every song has played so that the song that just finished does not
/// open the new cycle.
pub open spec fn advance_playlist(order: Seq<usize>, pos: int, n: int, state: u64) -> (Seq<usize>, int, u64) {
    if order.len() == 0 {
        reshuffled(order, pos, n, state)
    } else if pos == usize::MAX {
        (order, 0, state)
    } else if pos + 1 >= order.len() {
        reshuffled(order, pos, n, state)
    } else {
        (order, pos + 1, state)
    }
}

/// The song to play at `pos` of `order`, among `n` songs.
pub open spec fn song_at(order: Seq<usize>, pos: int, n: int) -> int {
    (match seq_get(order, pos) { Some(i) => i as int, None => 0 }) % n
}

/// The background music's shuffled play order and the position in it.
pub struct Playlist {
    pub order: Vec<usize>,
    /// `usize::MAX` until the first song plays.
    pub pos: usize,
}

impl Playlist {
    /// A playlist that starts with the first song of `order`.
    pub fn new(order: Vec<usize>) -> (p: Playlist)
        ensures
            p.order@ == order@,
            p.pos == usize::MAX,
    {
        Playlist { order, pos: usize::MAX }
    }

    /// Move on to the next song at the start of a round, among `n` songs,
    /// and return it.
    pub fn next_song(&mut self, n: usize, rng: &mut SfxRng) -> (song: usize)
        requires
            n > 0,
        ensures
            (final(self).order@, final(self).pos as int, final(rng)@)
                == advance_playlist(old(self).order@, old(self).pos as int, n as int, old(rng)@),
            song as int == song_at(final(self).order@, final(self).pos as int, n as int),
            song < n,
    {
        if self.order.len() == 0 {
            let prev = if self.pos < self.order.len() { Some(self.order[self.pos]) } else { None };
            self.order = song_order(n, prev, rng);
            self.pos = 0;
        } else if self.pos == usize::MAX {
            self.pos = 0;
        } else {
            if self.pos + 1 >= self.order.len() {
                let prev = if self.pos < self.order.len() { Some(self.order[self.pos]) } else { None };
                self.order = song_order(n, prev, rng);
                self.pos = 0;
            } else {
                self.pos = self.pos + 1;
            }
        }
        let at = if self.pos < self.order.len() { self.order[self.pos] } else { 0 };
        at % n
    }
}

/// Songs `0..n`, each once.
pub open spec fn is_song_order(order: Seq<usize>, n: int) -> bool {
    order.to_multiset() == Seq::new(n as nat, |i: int| i as usize).to_multiset()
}

proof fn lemma_song_order_entries(order: Seq<usize>, n: int)
    requires
        0 <= n <= usize::MAX,
        is_song_order(order, n),
    ensures
        order.len() == n,
        order.no_duplicates(),
        forall|k: int| 0 <= k < order.len() ==> #[trigger] order[k] < n,
{
    let all = Seq::new(n as nat, |i: int| i as usize);
    order.to_multiset_ensures();
    all.to_multiset_ensures();
    assert(all.no_duplicates());
    all.lemma_multiset_has_no_duplicates();
    assert forall|x: usize| order.to_multiset().contains(x) implies order.to_multiset().count(x) == 1 by {}
    order.lemma_multiset_has_no_duplicates_conv();
    assert forall|k: int| 0 <= k < order.len() implies #[trigger] order[k] < n by {
        assert(order.contains(order[k]));
        assert(order.to_multiset().count(order[k]) > 0);
        assert(all.to_multiset().count(order[k]) > 0);
        assert(all.contains(order[k]));
        let i = choose|i: int| 0 <= i < all.len() && all[i] == order[k];
        assert(all[i] == i as usize);
    }
}

/// The music never plays the same song twice in a row: from a play order
/// holding each of `n > 1` songs once, the next song differs from the one
/// that just played, and the order still holds each song once.
pub proof fn lemma_playlist_no_repeat(order: Seq<usize>, pos: int, n: int, state: u64)
    requires
        1 < n <= usize::MAX,
        is_song_order(order, n),
        0 <= pos < n,
    ensures
        ({
            let r = advance_playlist(order, pos, n, state);
            &&& song_at(r.0, r.1, n) != order[pos]
            &&& is_song_order(r.0, n)
            &&& 0 <= r.1 < n
        }),
{
    lemma_song_order_entries(order, n);
    vstd::arithmetic::div_mod::lemma_small_mod(order[pos] as nat, n as nat);
    if pos + 1 >= order.len() {
        lemma_song_order(n, Some(order[pos]), state);
        let fresh = song_order_spec(n, Some(order[pos]), state).0;
        lemma_song_order_entries(fresh, n);
        vstd::arithmetic::div_mod::lemma_small_mod(fresh[0] as nat, n as nat);
    } else {
        vstd::arithmetic::div_mod::lemma_small_mod(order[pos + 1] as nat, n as nat);
    }
}

} // verus!
