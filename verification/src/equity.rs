//! The counting behind the Monte-Carlo equity estimate: which cards are
//! unseen, how each random roll-out deals them, and whether the seat wins,
//! ties or loses each one. (Turning the outcomes into a probability is
//! floating-point arithmetic and stays with the front-end.)

use vstd::prelude::*;
use crate::cards::Card;
use crate::deck::{ordered_deck, rank_of_index, suit_of_index, lemma_ordered_deck_no_duplicates};
use crate::game::{Game, GameState};
use crate::hand::{HandScore, best_hand, compare_hands, evaluate_best, hand_compare};
use crate::rng::{Rng, rng_output, rng_step};

verus! {

/// Seats other than `seat` among the first `k` that still hold cards.
pub open spec fn opponents_among(s: GameState, seat: int, k: int) -> nat
    decreases k,
{
    if k <= 0 {
        0
    } else {
        opponents_among(s, seat, k - 1) + if k - 1 != seat && !s.players[k - 1].folded { 1nat } else { 0nat }
    }
}

/// The live opponents of `seat`.
pub open spec fn opponent_count(s: GameState, seat: int) -> nat {
    opponents_among(s, seat, s.players.len() as int)
}

/// The cards `seat` can see: its hole cards, then the board.
pub open spec fn known_cards(s: GameState, seat: int) -> Seq<Card> {
    seq![s.players[seat].hole[0], s.players[seat].hole[1]] + s.community
}

/// The cards of the ordered deck (its first `k`) that `seat` cannot see,
/// in deck order.
pub open spec fn unseen_among(known: Seq<Card>, k: int) -> Seq<Card>
    decreases k,
{
    if k <= 0 {
        seq![]
    } else {
        unseen_among(known, k - 1) + if known.contains(ordered_deck()[k - 1]) {
            seq![]
        } else {
            seq![ordered_deck()[k - 1]]
        }
    }
}

/// Draw a uniform random `draw`-subset to the front of `deck` (a partial
/// Fisher-Yates from position `i` on): position `i` swaps with a position
/// drawn from `i..len`.
pub open spec fn partial_shuffle(deck: Seq<Card>, state: u64, i: int, draw: int) -> (Seq<Card>, u64)
    decreases draw - i,
{
    if i >= draw || i < 0 || i >= deck.len() {
        (deck, state)
    } else {
        let j = i + (rng_output(state) as int) % (deck.len() - i);
        partial_shuffle(deck.update(i, deck[j]).update(j, deck[i]), rng_step(state), i + 1, draw)
    }
}

/// The board of a roll-out: the real board completed from the drawn cards
/// that follow the opponents' hole cards.
pub open spec fn rollout_board(s: GameState, deck: Seq<Card>, opponents: int) -> Seq<Card> {
    s.community + deck.subrange(2 * opponents, 2 * opponents + 5 - s.community.len())
}

/// Opponent `o` of a roll-out holds the drawn cards `2o` and `2o + 1`.
pub open spec fn opponent_hand(s: GameState, deck: Seq<Card>, opponents: int, o: int) -> HandScore {
    best_hand(rollout_board(s, deck, opponents) + seq![deck[2 * o], deck[2 * o + 1]])
}

/// The seat's own hand in a roll-out.
pub open spec fn own_hand(s: GameState, seat: int, deck: Seq<Card>, opponents: int) -> HandScore {
    best_hand(rollout_board(s, deck, opponents) + seq![s.players[seat].hole[0], s.players[seat].hole[1]])
}

/// Going through the opponents from `o` on: `None` as soon as one holds a
/// better hand, else `Some` of the number of opponents tied with the seat.
pub open spec fn outcome_from(s: GameState, seat: int, deck: Seq<Card>, opponents: int, o: int, ties: nat) -> Option<nat>
    decreases opponents - o,
{
    if o >= opponents {
        Some(ties)
    } else {
        let c = hand_compare(opponent_hand(s, deck, opponents, o), own_hand(s, seat, deck, opponents));
        if c > 0 {
            None
        } else {
            outcome_from(s, seat, deck, opponents, o + 1, if c == 0 { ties + 1 } else { ties })
        }
    }
}

/// The outcomes of `k` roll-outs, each drawing afresh from where the last
/// left the deck, and the generator state afterwards.
pub open spec fn rollouts(s: GameState, seat: int, deck: Seq<Card>, state: u64, k: int) -> (Seq<Option<nat>>, u64)
    decreases k,
{
    if k <= 0 {
        (seq![], state)
    } else {
        let opponents = opponent_count(s, seat) as int;
        let draw = 2 * opponents + 5 - s.community.len();
        let shuffled = partial_shuffle(deck, state, 0, draw);
        let outcome = outcome_from(s, seat, shuffled.0, opponents, 0, 0);
        let rest = rollouts(s, seat, shuffled.0, shuffled.1, k - 1);
        (seq![outcome] + rest.0, rest.1)
    }
}

/// The cards of the ordered deck (its first `k`) that `seat` can see.
spec fn seen_among(known: Seq<Card>, k: int) -> Seq<Card>
    decreases k,
{
    if k <= 0 {
        seq![]
    } else {
        seen_among(known, k - 1) + if known.contains(ordered_deck()[k - 1]) {
            seq![ordered_deck()[k - 1]]
        } else {
            seq![]
        }
    }
}

proof fn lemma_seen_split(known: Seq<Card>, k: int)
    requires
        0 <= k <= 52,
    ensures
        unseen_among(known, k).len() + seen_among(known, k).len() == k,
        seen_among(known, k).no_duplicates(),
        forall|x: Card| #[trigger] seen_among(known, k).contains(x) ==> known.contains(x)
            && exists|i: int| 0 <= i < k && ordered_deck()[i] == x,
    decreases k,
{
    if k > 0 {
        lemma_seen_split(known, k - 1);
        lemma_ordered_deck_no_duplicates();
        let prev = seen_among(known, k - 1);
        let c = ordered_deck()[k - 1];
        if known.contains(c) {
            assert(!prev.contains(c)) by {
                if prev.contains(c) {
                    let i = choose|i: int| 0 <= i < k - 1 && ordered_deck()[i] == c;
                }
            }
            let cur = seen_among(known, k);
            assert(cur == prev.push(c));
            assert forall|x: Card| #[trigger] cur.contains(x) implies known.contains(x)
                && exists|i: int| 0 <= i < k && ordered_deck()[i] == x by {
                if x != c {
                    let t = choose|t: int| 0 <= t < cur.len() && cur[t] == x;
                    assert(prev[t] == x);
                    assert(prev.contains(x));
                }
            }
            assert(cur.no_duplicates()) by {
                assert forall|a: int, b: int| 0 <= a < cur.len() && 0 <= b < cur.len() && a != b implies cur[a] != cur[b] by {
                    if a < prev.len() && b < prev.len() {
                    } else if a < prev.len() {
                        assert(prev.contains(cur[a]));
                    } else if b < prev.len() {
                        assert(prev.contains(cur[b]));
                    }
                }
            }
        } else {
            let cur = seen_among(known, k);
            assert(cur == prev);
            assert forall|x: Card| #[trigger] cur.contains(x) implies known.contains(x)
                && exists|i: int| 0 <= i < k && ordered_deck()[i] == x by {
                let i = choose|i: int| 0 <= i < k - 1 && ordered_deck()[i] == x;
            }
        }
    }
}

/// At least `52 - known.len()` cards are unseen.
pub proof fn lemma_unseen_count(known: Seq<Card>)
    ensures
        unseen_among(known, 52).len() + known.len() >= 52,
{
    lemma_seen_split(known, 52);
    let seen = seen_among(known, 52);
    seen.unique_seq_to_set();
    known.lemma_cardinality_of_set();
    assert(seen.to_set().subset_of(known.to_set()));
    vstd::set_lib::lemma_len_subset(seen.to_set(), known.to_set());
}

/// Ties counted so far never exceed the opponents gone through.
proof fn lemma_outcome_ties(s: GameState, seat: int, deck: Seq<Card>, opponents: int, o: int, ties: nat)
    requires
        0 <= o,
        ties <= o,
    ensures
        outcome_from(s, seat, deck, opponents, o, ties) matches Some(t) ==> t <= if o > opponents { o } else { opponents },
    decreases opponents - o,
{
    if o < opponents {
        let c = hand_compare(opponent_hand(s, deck, opponents, o), own_hand(s, seat, deck, opponents));
        lemma_outcome_ties(s, seat, deck, opponents, o + 1, if c == 0 { ties + 1 } else { ties });
    }
}

/// How many of the opponents before `k` hold a hand equal to the seat's.
pub open spec fn tied_opponents(s: GameState, seat: int, deck: Seq<Card>, opponents: int, k: int) -> nat
    decreases k,
{
    if k <= 0 {
        0
    } else {
        tied_opponents(s, seat, deck, opponents, k - 1) + if hand_compare(
            opponent_hand(s, deck, opponents, k - 1),
            own_hand(s, seat, deck, opponents),
        ) == 0 {
            1nat
        } else {
            0nat
        }
    }
}

proof fn lemma_outcome_from_rest(s: GameState, seat: int, deck: Seq<Card>, opponents: int, o: int, ties: nat)
    requires
        0 <= o <= opponents,
    ensures
        outcome_from(s, seat, deck, opponents, o, ties) is None <==> exists|b: int| o <= b < opponents
            && hand_compare(#[trigger] opponent_hand(s, deck, opponents, b), own_hand(s, seat, deck, opponents)) > 0,
        outcome_from(s, seat, deck, opponents, o, ties) matches Some(t) ==> t + tied_opponents(s, seat, deck, opponents, o)
            == ties + tied_opponents(s, seat, deck, opponents, opponents),
    decreases opponents - o,
{
    if o < opponents {
        let c = hand_compare(opponent_hand(s, deck, opponents, o), own_hand(s, seat, deck, opponents));
        if c <= 0 {
            lemma_outcome_from_rest(s, seat, deck, opponents, o + 1, if c == 0 { ties + 1 } else { ties });
            if exists|b: int| o <= b < opponents
                && hand_compare(#[trigger] opponent_hand(s, deck, opponents, b), own_hand(s, seat, deck, opponents)) > 0 {
                let b = choose|b: int| o <= b < opponents
                    && hand_compare(#[trigger] opponent_hand(s, deck, opponents, b), own_hand(s, seat, deck, opponents)) > 0;
                assert(b != o);
            }
        }
    }
}

/// A roll-out is lost exactly when some opponent holds a strictly better
/// hand. Otherwise the seat wins it, shared with every opponent whose hand
/// is equal to its own: ties split the win, they do not lose it.
pub proof fn lemma_outcome_is_loss_or_shared_win(s: GameState, seat: int, deck: Seq<Card>, opponents: int)
    requires
        0 <= opponents,
    ensures
        outcome_from(s, seat, deck, opponents, 0, 0) is None <==> exists|b: int| 0 <= b < opponents
            && hand_compare(#[trigger] opponent_hand(s, deck, opponents, b), own_hand(s, seat, deck, opponents)) > 0,
        outcome_from(s, seat, deck, opponents, 0, 0) matches Some(t)
            ==> t == tied_opponents(s, seat, deck, opponents, opponents),
{
    lemma_outcome_from_rest(s, seat, deck, opponents, 0, 0);
}

/// Every roll-out has an outcome, and a win is shared with at most every
/// opponent.
pub proof fn lemma_rollouts_shape(s: GameState, seat: int, deck: Seq<Card>, state: u64, k: int)
    requires
        k >= 0,
    ensures
        rollouts(s, seat, deck, state, k).0.len() == k,
        forall|i: int| 0 <= i < k ==> (#[trigger] rollouts(s, seat, deck, state, k).0[i] matches Some(t) ==> t
            <= opponent_count(s, seat)),
    decreases k,
{
    if k > 0 {
        let opponents = opponent_count(s, seat) as int;
        let draw = 2 * opponents + 5 - s.community.len();
        let shuffled = partial_shuffle(deck, state, 0, draw);
        lemma_outcome_ties(s, seat, shuffled.0, opponents, 0, 0);
        lemma_rollouts_shape(s, seat, shuffled.0, shuffled.1, k - 1);
        let r = rollouts(s, seat, deck, state, k).0;
        let rest = rollouts(s, seat, shuffled.0, shuffled.1, k - 1).0;
        assert forall|i: int| 0 <= i < k implies (#[trigger] r[i] matches Some(t) ==> t <= opponent_count(s, seat)) by {
            if i > 0 {
                assert(r[i] == rest[i - 1]);
            }
        }
    }
}

/// Live opponents of a seat.
pub fn count_opponents(game: &Game, seat: usize) -> (c: usize)
    requires
        seat < game.players@.len(),
    ensures
        c == opponent_count(game@, seat as int),
{
    let mut c: usize = 0;
    let mut i: usize = 0;
    while i < game.players.len()
        invariant
            i <= game.players@.len(),
            c == opponents_among(game@, seat as int, i as int),
            c <= i,
        decreases game.players@.len() - i,
    {
        if i != seat && !game.players[i].folded {
            c = c + 1;
        }
        i = i + 1;
    }
    c
}

fn contains_card(cards: &Vec<Card>, c: Card) -> (b: bool)
    ensures
        b == cards@.contains(c),
{
    let mut i: usize = 0;
    while i < cards.len()
        invariant
            i <= cards@.len(),
            forall|k: int| 0 <= k < i ==> cards@[k] != c,
        decreases cards@.len() - i,
    {
        if cards[i] == c {
            return true;
        }
        i = i + 1;
    }
    false
}

/// The cards `seat` cannot see, in deck order.
pub fn unseen_cards(game: &Game, seat: usize) -> (deck: Vec<Card>)
    requires
        seat < game.players@.len(),
    ensures
        deck@ == unseen_among(known_cards(game@, seat as int), 52),
{
    let mut known: Vec<Card> = Vec::new();
    known.push(game.players[seat].hole[0]);
    known.push(game.players[seat].hole[1]);
    let mut i: usize = 0;
    while i < game.community.len()
        invariant
            i <= game.community@.len(),
            seat < game.players@.len(),
            known@ == seq![game.players@[seat as int].hole[0], game.players@[seat as int].hole[1]] + game.community@.take(i as int),
        decreases game.community@.len() - i,
    {
        known.push(game.community[i]);
        i = i + 1;
        assert(known@ =~= seq![game.players@[seat as int].hole[0], game.players@[seat as int].hole[1]] + game.community@.take(i as int));
    }
    assert(game.community@.take(i as int) =~= game.community@);
    let mut deck: Vec<Card> = Vec::with_capacity(52);
    let mut k: usize = 0;
    while k < 52
        invariant
            k <= 52,
            deck@ == unseen_among(known@, k as int),
        decreases 52 - k,
    {
        let c = Card::new(rank_of_index(k % 13), suit_of_index(k / 13));
        assert(c == ordered_deck()[k as int]);
        if !contains_card(&known, c) {
            deck.push(c);
        }
        k = k + 1;
    }
    deck
}


/// An outcome as a number of ties (`None`: lost).
pub open spec fn outcome_view(o: Option<u32>) -> Option<nat> {
    match o {
        Some(t) => Some(t as nat),
        None => None,
    }
}

/// Partial Fisher-Yates from the front: a uniform random `draw`-subset,
/// leaving the deck permuted.
fn draw_cards(deck: &mut Vec<Card>, rng: &mut Rng, draw: usize)
    requires
        draw <= old(deck)@.len(),
    ensures
        (final(deck)@, final(rng)@) == partial_shuffle(old(deck)@, old(rng)@, 0, draw as int),
        final(deck)@.len() == old(deck)@.len(),
{
    let len = deck.len();
    let mut i: usize = 0;
    while i < draw
        invariant
            i <= draw,
            draw <= len,
            len == deck@.len(),
            partial_shuffle(deck@, rng@, i as int, draw as int) == partial_shuffle(old(deck)@, old(rng)@, 0, draw as int),
        decreases draw - i,
    {
        let ghost before = deck@;
        let j = i + rng.below(len - i);
        let ci = deck[i];
        let cj = deck[j];
        deck.set(i, cj);
        deck.set(j, ci);
        assert(deck@ =~= before.update(i as int, before[j as int]).update(j as int, before[i as int]));
        i = i + 1;
    }
}

/// The board of a roll-out plus two more cards.
fn rollout_cards(game: &Game, deck: &Vec<Card>, opponents: usize, a: Card, b: Card) -> (cards: Vec<Card>)
    requires
        game.community@.len() <= 5,
        opponents <= 24,
        2 * opponents + 5 - game.community@.len() <= deck@.len(),
    ensures
        cards@ == rollout_board(game@, deck@, opponents as int) + seq![a, b],
        cards@.len() == 7,
{
    let mut cards: Vec<Card> = Vec::with_capacity(7);
    let mut i: usize = 0;
    while i < game.community.len()
        invariant
            i <= game.community@.len(),
            cards@ == game.community@.take(i as int),
        decreases game.community@.len() - i,
    {
        cards.push(game.community[i]);
        i = i + 1;
        assert(cards@ =~= game.community@.take(i as int));
    }
    assert(game.community@.take(i as int) =~= game.community@);
    let need = 5 - game.community.len();
    let start = 2 * opponents;
    let mut k: usize = 0;
    while k < need
        invariant
            k <= need,
            need == 5 - game.community@.len(),
            start == 2 * opponents,
            opponents <= 24,
            start + need <= deck@.len(),
            cards@ == game.community@ + deck@.subrange(start as int, (start + k) as int),
        decreases need - k,
    {
        cards.push(deck[start + k]);
        k = k + 1;
        assert(cards@ =~= game.community@ + deck@.subrange(start as int, (start + k) as int));
    }
    cards.push(a);
    cards.push(b);
    assert(cards@ =~= rollout_board(game@, deck@, opponents as int) + seq![a, b]);
    cards
}

/// Whether `seat` wins, ties (with how many) or loses a dealt roll-out.
fn rollout_outcome(game: &Game, seat: usize, deck: &Vec<Card>, opponents: usize) -> (r: Option<u32>)
    requires
        seat < game.players@.len(),
        game.community@.len() <= 5,
        opponents <= 24,
        2 * opponents + 5 - game.community@.len() <= deck@.len(),
    ensures
        outcome_view(r) == outcome_from(game@, seat as int, deck@, opponents as int, 0, 0),
{
    let mine_cards = rollout_cards(game, deck, opponents, game.players[seat].hole[0], game.players[seat].hole[1]);
    let mine = evaluate_best(&mine_cards);
    let mut ties: u32 = 0;
    let mut o: usize = 0;
    while o < opponents
        invariant
            o <= opponents,
            opponents <= 24,
            ties <= o,
            seat < game.players@.len(),
            game.community@.len() <= 5,
            2 * opponents + 5 - game.community@.len() <= deck@.len(),
            mine@ == own_hand(game@, seat as int, deck@, opponents as int),
            outcome_from(game@, seat as int, deck@, opponents as int, o as int, ties as nat)
                == outcome_from(game@, seat as int, deck@, opponents as int, 0, 0),
        decreases opponents - o,
    {
        let opp_cards = rollout_cards(game, deck, opponents, deck[o * 2], deck[o * 2 + 1]);
        let theirs = evaluate_best(&opp_cards);
        let c = compare_hands(&theirs, &mine);
        if c > 0 {
            return None;
        }
        if c == 0 {
            ties = ties + 1;
        }
        o = o + 1;
    }
    Some(ties)
}

/// Play `samples` random roll-outs for `seat`: the opponents and the rest of
/// the board are dealt from the cards `seat` cannot see. Each outcome is
/// `None` for a loss, or `Some(t)` for a win shared with `t` tied
/// opponents (a win counts `1 / (1 + t)`).
pub fn equity_rollouts(game: &Game, seat: usize, rng: &mut Rng, samples: usize) -> (outcomes: Vec<Option<u32>>)
    requires
        seat < game.players@.len(),
        opponent_count(game@, seat as int) <= 22,
        game.community@.len() <= 5,
    ensures
        outcomes@.map_values(|o: Option<u32>| outcome_view(o)) == rollouts(
            game@,
            seat as int,
            unseen_among(known_cards(game@, seat as int), 52),
            old(rng)@,
            samples as int,
        ).0,
        final(rng)@ == rollouts(
            game@,
            seat as int,
            unseen_among(known_cards(game@, seat as int), 52),
            old(rng)@,
            samples as int,
        ).1,
        outcomes@.len() == samples,
        forall|i: int| 0 <= i < samples ==> (#[trigger] outcomes@[i] matches Some(t) ==> t <= opponent_count(game@, seat as int)),
{
    let opponents = count_opponents(game, seat);
    let mut deck = unseen_cards(game, seat);
    proof {
        lemma_unseen_count(known_cards(game@, seat as int));
    }
    let draw = opponents * 2 + (5 - game.community.len());
    let ghost deck0 = deck@;
    let mut outcomes: Vec<Option<u32>> = Vec::new();
    let mut t: usize = 0;
    while t < samples
        invariant
            t <= samples,
            seat < game.players@.len(),
            game.community@.len() <= 5,
            opponents == opponent_count(game@, seat as int),
            opponents <= 22,
            draw == 2 * opponents + 5 - game.community@.len(),
            draw <= deck@.len(),
            outcomes@.map_values(|o: Option<u32>| outcome_view(o)) + rollouts(game@, seat as int, deck@, rng@, (samples - t) as int).0
                == rollouts(game@, seat as int, deck0, old(rng)@, samples as int).0,
            rollouts(game@, seat as int, deck@, rng@, (samples - t) as int).1
                == rollouts(game@, seat as int, deck0, old(rng)@, samples as int).1,
        decreases samples - t,
    {
        let ghost before = outcomes@.map_values(|o: Option<u32>| outcome_view(o));
        draw_cards(&mut deck, rng, draw);
        let outcome = rollout_outcome(game, seat, &deck, opponents);
        outcomes.push(outcome);
        assert(outcomes@.map_values(|o: Option<u32>| outcome_view(o)) =~= before.push(outcome_view(outcome)));
        t = t + 1;
    }
    assert(outcomes@.map_values(|o: Option<u32>| outcome_view(o)) =~= rollouts(game@, seat as int, deck0, old(rng)@, samples as int).0);
    proof {
        let r = rollouts(game@, seat as int, deck0, old(rng)@, samples as int).0;
        lemma_rollouts_shape(game@, seat as int, deck0, old(rng)@, samples as int);
        assert forall|i: int| 0 <= i < samples implies (#[trigger] outcomes@[i] matches Some(t) ==> t <= opponent_count(game@, seat as int)) by {
            assert(outcome_view(outcomes@[i]) == r[i]);
        }
    }
    outcomes
}

} // verus!
