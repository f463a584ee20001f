//! Tests of the table around the engine: the generators, the chips and
//! labels on the felt, the betting controls, the music order, and the rules
//! of the game checked on concrete hands.

use holdem::cards::{Card, Rank, Suit};
use holdem::controls::{
    action_cue, button_label, call_button_shown, chosen_action, deal_order, fresh_pick, human_turn,
    reset_game, set_blind_level, win_size, ActBtn, BetKeys, Cue, WinSize, STARTING_STACK,
};
use holdem::game::{Action, Game, Payout, Player, Street};
use holdem::hand::{compare_hands, eval5, evaluate_best, HandCategory};
use holdem::labels::{hud_text, my_money, pot_label, seat_label, win_banner};
use holdem::rng::Rng;
use holdem::table::{
    blinds_at, chip_breakdown, describe_action, song_order, standing, street_name, Playlist, SfxRng,
    Standing,
};

fn card(code: &str) -> Card {
    let mut chars = code.chars();
    let r = chars.next().unwrap();
    let s = chars.next().unwrap();
    let rank = Rank::ALL.iter().copied().find(|rk| rk.label() == r).unwrap();
    let suit = Suit::ALL.iter().copied().find(|su| su.label() == s).unwrap();
    Card::new(rank, suit)
}

fn hand(codes: &[&str]) -> Vec<Card> {
    codes.iter().map(|c| card(c)).collect()
}

fn players(stacks: &[u32]) -> Vec<Player> {
    stacks
        .iter()
        .enumerate()
        .map(|(i, &s)| Player::new(format!("P{i}"), s, i == 0))
        .collect()
}

fn total_chips(g: &Game) -> u32 {
    g.players.iter().map(|p| p.stack).sum::<u32>() + g.pot()
}

/// A fresh three-handed hand: the button moves to seat 1, seat 2 posts the
/// small blind, seat 0 the big blind, and seat 1 is first to act.
fn three_handed(seed: u64) -> Game {
    let mut g = Game::new(players(&[1000, 1000, 1000]), 5, 10, seed);
    g.start_hand();
    g
}

// ---------------------------------------------------------------------------
// Generators
// ---------------------------------------------------------------------------

#[test]
fn rng_is_splitmix64() {
    let mut r = Rng::new(42);
    assert_eq!(r.next_u64(), 2949826092126892291);
    assert_eq!(r.unit_bits(), 4674151);
    let mut a = Rng::new(7);
    let mut b = Rng::new(7);
    for _ in 0..20 {
        assert_eq!(a.below(52), b.below(52));
    }
    let mut c = Rng::new(9);
    for _ in 0..200 {
        assert!(c.below(13) < 13);
    }
}

#[test]
fn sfx_rng_is_a_linear_congruential_generator() {
    let mut r = SfxRng::new(12345);
    assert_eq!(r.next_u32(), 235318264);
    assert_eq!(r.next_u32(), 569910583);
}

#[test]
fn sound_picks_reach_every_clip() {
    let clips: Vec<String> = (0..10).map(|i| format!("deal{i}.wav")).collect();
    let mut rng = SfxRng::new(12345);
    let mut hits = vec![0u32; clips.len()];
    for _ in 0..500 {
        let p = rng.pick(&clips).unwrap();
        let i = clips.iter().position(|d| d == p).unwrap();
        hits[i] += 1;
    }
    assert!(hits.iter().all(|&h| h > 0), "some clips were never picked: {hits:?}");
    let none: [u8; 0] = [];
    assert!(rng.pick(&none).is_none());
}

#[test]
fn deal_sound_never_repeats() {
    let mut rng = SfxRng::new(99);
    let mut last = 0usize;
    for _ in 0..1000 {
        let i = fresh_pick(&mut rng, 10, last);
        assert!(i < 10);
        assert_ne!(i, last);
        last = i;
    }
    // With a single clip there is no choice.
    assert_eq!(fresh_pick(&mut rng, 1, 0), 0);
}

// ---------------------------------------------------------------------------
// Music
// ---------------------------------------------------------------------------

#[test]
fn song_order_is_a_permutation_that_moves_the_previous_song() {
    for seed in 0..50u64 {
        let mut rng = SfxRng::new(seed);
        let order = song_order(6, Some(3), &mut rng);
        let mut sorted = order.clone();
        sorted.sort();
        assert_eq!(sorted, vec![0, 1, 2, 3, 4, 5]);
        assert_ne!(order[0], 3, "seed {seed}: the song that was playing came first again");
    }
    assert!(song_order(0, None, &mut SfxRng::new(1)).is_empty());
    assert_eq!(song_order(1, Some(0), &mut SfxRng::new(1)), vec![0]);
}

#[test]
fn playlist_plays_every_song_once_per_cycle() {
    let mut rng = SfxRng::new(5);
    let mut list = Playlist::new(vec![2, 0, 1]);
    // The first round plays the order as it was shuffled at startup.
    assert_eq!(list.next_song(3, &mut rng), 2);
    assert_eq!(list.next_song(3, &mut rng), 0);
    assert_eq!(list.next_song(3, &mut rng), 1);
    // Then a fresh cycle: every song once more.
    let mut cycle: Vec<usize> = (0..3).map(|_| list.next_song(3, &mut rng)).collect();
    cycle.sort();
    assert_eq!(cycle, vec![0, 1, 2]);
    // With no order yet, one is made.
    let mut empty = Playlist::new(Vec::new());
    assert!(empty.next_song(4, &mut rng) < 4);
    assert_eq!(empty.order.len(), 4);
    assert_eq!(empty.pos, 0);
}

// ---------------------------------------------------------------------------
// Chips, blinds and words on the table
// ---------------------------------------------------------------------------

#[test]
fn chip_breakdown_balances_the_colours() {
    assert_eq!(chip_breakdown(0), vec![]);
    assert_eq!(chip_breakdown(185), vec![(4, 1), (3, 1), (2, 1), (1, 1), (0, 1)]);
    assert_eq!(chip_breakdown(990), vec![(4, 5), (3, 6), (2, 5), (1, 6), (0, 6)]);
    assert_eq!(chip_breakdown(100), vec![(4, 1)]);
    // An odd amount under $5 shows as one more $5 chip.
    assert_eq!(chip_breakdown(7), vec![(0, 2)]);
    let values = [5u32, 10, 20, 50, 100];
    for amount in (0..5000u32).step_by(5) {
        let total: u32 = chip_breakdown(amount).iter().map(|&(c, n)| values[c] * n).sum();
        assert_eq!(total, amount);
    }
}

#[test]
fn blinds_follow_the_schedule() {
    assert_eq!(blinds_at(0), (5, 10));
    assert_eq!(blinds_at(3), (25, 50));
    assert_eq!(blinds_at(11), (1000, 2000));
    assert_eq!(blinds_at(40), (1000, 2000));
    let mut g = three_handed(1);
    set_blind_level(&mut g, 2);
    assert_eq!((g.small_blind, g.big_blind), (15, 30));
}

#[test]
fn actions_are_announced() {
    let g = three_handed(3);
    assert_eq!(g.to_act, 1);
    assert_eq!(describe_action(&g, 1, Action::Fold), "folds");
    assert_eq!(describe_action(&g, 1, Action::Call), "calls $10");
    assert_eq!(describe_action(&g, 0, Action::Check), "checks");
    assert_eq!(describe_action(&g, 1, Action::Raise(40)), "raises to $40");
    assert_eq!(street_name(Street::Preflop), "Preflop");
    assert_eq!(street_name(Street::HandOver), "Hand over");
}

#[test]
fn labels_show_stacks_and_status() {
    let mut g = three_handed(4);
    assert_eq!(seat_label(&g, 1).unwrap(), "$1000");
    assert_eq!(seat_label(&g, 0).unwrap(), "$990");
    assert_eq!(my_money(&g), "$990  (bet $10)");
    assert_eq!(pot_label(g.pot()).unwrap(), "Pot $15");
    assert!(pot_label(0).is_none());
    g.players[2].folded = true;
    assert_eq!(seat_label(&g, 2).unwrap(), "$995\nfolded");
    g.players[1].stack = 0;
    g.players[1].all_in = true;
    assert_eq!(seat_label(&g, 1).unwrap(), "$0\nall-in");
    g.players[1].all_in = false;
    assert!(seat_label(&g, 1).is_none(), "a busted seat's label is hidden");
}

#[test]
fn hud_lists_every_seat() {
    let g = three_handed(4);
    let hud = hud_text(&g, "New hand");
    let mut expected = "Preflop    Pot $15\nBlinds 5/10\n\n".to_string();
    expected += &format!("{} {:<9} ${:<5}{}{}{}\n", " ", "P0", 990, "  bet $10", "", "");
    expected += &format!("{} {:<9} ${:<5}{}{}{}\n", ">", "P1", 1000, "", " (D)", "");
    expected += &format!("{} {:<9} ${:<5}{}{}{}\n", " ", "P2", 995, "  bet $5", "", "");
    expected += "\nNew hand";
    assert_eq!(hud, expected);
}

// ---------------------------------------------------------------------------
// Betting controls
// ---------------------------------------------------------------------------

const NO_KEYS: BetKeys = BetKeys { check_call: false, fold: false, raise: false, all_in: false };

#[test]
fn betting_bar_follows_the_human_turn() {
    let mut g = three_handed(6);
    assert!(!human_turn(&g, false), "seat 1 acts first");
    g.apply(Action::Call);
    g.apply(Action::Call);
    assert_eq!(g.to_act, 0);
    assert!(human_turn(&g, false));
    assert!(!human_turn(&g, true), "nothing while a deal is animating");
    // The big blind has nothing to call.
    assert!(!call_button_shown(&g));
    assert_eq!(button_label(&g, ActBtn::CheckFold, 20), "Check");
    assert_eq!(button_label(&g, ActBtn::Raise, 20), "Bet $20");
    assert_eq!(chosen_action(&g, Some(ActBtn::CheckFold), NO_KEYS, 20), Some(Action::Check));
}

#[test]
fn buttons_and_keys_facing_a_bet() {
    let mut g = three_handed(6);
    g.apply(Action::Raise(40));
    g.apply(Action::Call);
    assert_eq!(g.to_act, 0);
    assert!(call_button_shown(&g));
    assert_eq!(button_label(&g, ActBtn::CheckFold, 80), "Fold");
    assert_eq!(button_label(&g, ActBtn::Call, 80), "Call $30");
    assert_eq!(button_label(&g, ActBtn::Raise, 80), "Raise to $80");
    assert_eq!(chosen_action(&g, Some(ActBtn::CheckFold), NO_KEYS, 80), Some(Action::Fold));
    assert_eq!(chosen_action(&g, Some(ActBtn::Call), NO_KEYS, 80), Some(Action::Call));
    assert_eq!(chosen_action(&g, None, NO_KEYS, 80), None);
    // Keys win over a pressed button, the first that applies.
    let keys = BetKeys { check_call: true, ..NO_KEYS };
    assert_eq!(chosen_action(&g, Some(ActBtn::Raise), keys, 80), Some(Action::Call));
    let keys = BetKeys { fold: true, raise: true, ..NO_KEYS };
    assert_eq!(chosen_action(&g, None, keys, 80), Some(Action::Fold));
    let keys = BetKeys { all_in: true, ..NO_KEYS };
    assert_eq!(chosen_action(&g, None, keys, 80), Some(Action::Raise(1000)));
}

#[test]
fn fold_key_does_nothing_without_a_bet() {
    let mut g = three_handed(6);
    g.apply(Action::Call);
    g.apply(Action::Call);
    let keys = BetKeys { fold: true, ..NO_KEYS };
    assert_eq!(chosen_action(&g, None, keys, 20), None);
    let keys = BetKeys { fold: true, raise: true, ..NO_KEYS };
    assert_eq!(chosen_action(&g, None, keys, 20), Some(Action::Raise(20)));
}

#[test]
fn cues_and_win_sizes() {
    assert_eq!(action_cue(Action::Fold, 10), Cue::Card);
    assert_eq!(action_cue(Action::Check, 0), Cue::Knock);
    assert_eq!(action_cue(Action::Call, 0), Cue::Knock);
    assert_eq!(action_cue(Action::Call, 10), Cue::Chips);
    assert_eq!(action_cue(Action::Raise(20), 0), Cue::Chips);
    let mut g = three_handed(1);
    g.last_payouts = vec![Payout { seat: 0, amount: 179 }];
    assert_eq!(win_size(&g), WinSize::Small);
    g.last_payouts = vec![Payout { seat: 0, amount: 90 }, Payout { seat: 1, amount: 90 }];
    assert_eq!(win_size(&g), WinSize::Medium);
    g.last_payouts = vec![Payout { seat: 2, amount: 600 }];
    assert_eq!(win_size(&g), WinSize::Big);
}

#[test]
fn the_deal_goes_round_from_left_of_the_button() {
    let mut g = three_handed(2);
    assert_eq!(g.button, 1);
    assert_eq!(deal_order(&g), vec![2, 0, 1]);
    g.players[0].folded = true;
    assert_eq!(deal_order(&g), vec![2, 1]);
}

#[test]
fn a_new_game_resets_the_table() {
    let mut g = Game::new(players(&[0, 2500, 500]), 100, 200, 8);
    g.button = 2;
    reset_game(&mut g);
    assert_eq!((g.small_blind, g.big_blind), (5, 10));
    assert_eq!(g.street, Street::Preflop);
    assert_eq!(total_chips(&g), 3 * STARTING_STACK);
    assert!(g.players.iter().all(|p| !p.folded));
    assert_eq!(g.pot(), 15);
}

#[test]
fn standing_of_the_human() {
    let mut g = Game::new(players(&[1000, 0, 0]), 5, 10, 1);
    assert_eq!(standing(&g), Standing::Won);
    g.players[1].stack = 10;
    assert_eq!(standing(&g), Standing::Playing);
    g.players[0].stack = 0;
    assert_eq!(standing(&g), Standing::Busted);
}

// ---------------------------------------------------------------------------
// Rules of the game, on concrete hands
// ---------------------------------------------------------------------------

#[test]
fn starting_a_hand_posts_the_blinds() {
    let g = three_handed(11);
    assert_eq!((g.button, g.to_act), (1, 1));
    assert_eq!(g.players[2].bet, 5);
    assert_eq!(g.players[0].bet, 10);
    assert_eq!(g.current_bet, 10);
    assert_eq!(g.pot(), 15);
    assert_eq!(total_chips(&g), 3000);
    // Six distinct hole cards.
    let mut codes: Vec<String> = g.players.iter().flat_map(|p| p.hole.iter().map(|c| c.code())).collect();
    codes.sort();
    codes.dedup();
    assert_eq!(codes.len(), 6);
}

#[test]
fn a_check_facing_a_bet_is_a_call() {
    let mut a = three_handed(12);
    let mut b = three_handed(12);
    a.apply(Action::Check);
    b.apply(Action::Call);
    assert_eq!(a.players[1].bet, 10);
    assert_eq!(a.players[1].stack, b.players[1].stack);
    assert_eq!(a.to_act, b.to_act);
    assert_eq!(a.pot(), b.pot());
}

#[test]
fn raises_are_clamped_to_the_stack() {
    let mut g = three_handed(13);
    g.apply(Action::Raise(u32::MAX));
    assert_eq!(g.players[1].stack, 0);
    assert!(g.players[1].all_in);
    assert_eq!(g.current_bet, 1000);
    assert_eq!(total_chips(&g), 3000);
    // A raise below the current bet is lifted to a call.
    let mut h = three_handed(13);
    h.apply(Action::Raise(1));
    assert_eq!(h.players[1].bet, 10);
}

#[test]
fn folded_players_win_nothing() {
    let mut g = Game::new(players(&[0, 0, 0]), 5, 10, 1);
    g.community = hand(&["Ac", "Kd", "Qh", "Js", "2c"]);
    g.players[0].hole = [card("3d"), card("4h")];
    g.players[1].hole = [card("Th"), card("9h")]; // would make the straight
    g.players[2].hole = [card("2d"), card("2h")];
    for (i, p) in g.players.iter_mut().enumerate() {
        p.committed = 100;
        p.folded = i == 1;
    }
    g.settle();
    assert_eq!(g.players[1].stack, 0);
    assert_eq!(g.players[2].stack, 300);
    assert_eq!(g.last_payouts, vec![Payout { seat: 2, amount: 300 }]);
    assert_eq!(win_banner(&g), "P2 wins $300 with Three Twos");
}

#[test]
fn odd_chips_go_left_of_the_button() {
    let mut g = Game::new(players(&[0, 0, 0]), 5, 10, 1);
    g.button = 1;
    g.community = hand(&["Ac", "Kd", "Qh", "Js", "Ts"]);
    g.players[0].hole = [card("2d"), card("3h")];
    g.players[1].hole = [card("4d"), card("5h")];
    g.players[2].hole = [card("6d"), card("7h")];
    g.players[0].committed = 50;
    g.players[1].committed = 50;
    g.players[2].committed = 1;
    g.players[2].folded = true;
    g.settle();
    // 101 split two ways: the odd chip goes to the first winner after the
    // button, seat 0.
    assert_eq!(g.players[0].stack, 51);
    assert_eq!(g.players[1].stack, 50);
    assert_eq!(
        win_banner(&g),
        "P0 win $51 with an Ace-high Straight   ·   P1 wins $50 with an Ace-high Straight"
    );
}

#[test]
fn payouts_add_up_to_the_pot() {
    let mut g = Game::new(players(&[0, 0, 0, 0]), 5, 10, 1);
    g.community = hand(&["2c", "7d", "9h", "Js", "Kc"]);
    let holes = [["Ad", "Ah"], ["Qd", "Qh"], ["3d", "4h"], ["As", "Ac"]];
    let committed = [40u32, 250, 400, 250];
    for i in 0..4 {
        g.players[i].hole = [card(holes[i][0]), card(holes[i][1])];
        g.players[i].committed = committed[i];
    }
    let pot = g.pot();
    g.settle();
    let paid: u32 = g.last_payouts.iter().map(|p| p.amount).sum();
    assert_eq!(paid, pot);
    assert_eq!(g.pot(), 0);
    // Aces split the main pot, seat 3's aces take the side pot, the queens
    // win nothing,
    // the big stack takes back what nobody matched.
    assert_eq!(g.players[0].stack, 80);
    assert_eq!(g.players[3].stack, 80 + 630);
    assert_eq!(g.players[1].stack, 0);
    assert_eq!(g.players[2].stack, 150);
}

#[test]
fn the_best_five_of_seven_is_at_least_any_five() {
    let cards = hand(&["As", "Ks", "Qs", "2s", "7s", "2d", "2h"]);
    let best = evaluate_best(&cards);
    let n = cards.len();
    for a in 0..n {
        for b in a + 1..n {
            for c in b + 1..n {
                for d in c + 1..n {
                    for e in d + 1..n {
                        let five = [cards[a], cards[b], cards[c], cards[d], cards[e]];
                        assert!(compare_hands(&eval5(&five), &best) <= 0);
                    }
                }
            }
        }
    }
    assert_eq!(best.category, HandCategory::Flush);
    assert_eq!(best.describe(), "an Ace-high Flush");
    assert_eq!(HandCategory::Trips.name(), "Three of a Kind");
}

/// The cards of the hand: both hole cards of the seats still in it, the
/// board and the deck.
fn cards_in_play(g: &Game) -> Vec<String> {
    let mut codes: Vec<String> = Vec::new();
    for p in g.players.iter().filter(|p| !p.folded) {
        codes.push(p.hole[0].code());
        codes.push(p.hole[1].code());
    }
    codes.extend(g.community.iter().map(|c| c.code()));
    codes.extend(g.deck.cards.iter().map(|c| c.code()));
    codes
}

fn all_distinct(codes: &[String]) -> bool {
    let mut sorted = codes.to_vec();
    sorted.sort();
    sorted.dedup();
    sorted.len() == codes.len()
}

#[test]
fn no_card_is_dealt_twice() {
    for seed in 0..20u64 {
        let mut g = Game::new(players(&[1000, 1000, 0, 1000, 1000]), 5, 10, seed);
        g.start_hand();
        let dealt = cards_in_play(&g);
        assert_eq!(dealt.len(), 52, "seed {seed}: every card is in play once after the deal");
        assert!(all_distinct(&dealt));
        let mut step = 0;
        while g.street != Street::HandOver {
            let action = if step % 5 == 1 { Action::Fold } else { Action::Call };
            g.apply(action);
            let now = cards_in_play(&g);
            assert!(all_distinct(&now), "seed {seed}: a card is in play twice");
            step += 1;
            assert!(step < 100);
        }
    }
}

#[test]
fn hud_keeps_long_names_whole() {
    let mut ps = players(&[1000, 1000]);
    ps[1].name = "Hoodguy the Great".to_string();
    let mut g = Game::new(ps, 5, 10, 2);
    g.start_hand();
    let hud = hud_text(&g, "");
    let line = hud.lines().find(|l| l.contains("Hoodguy")).unwrap().to_string();
    assert!(line.contains("Hoodguy the Great $"), "{line}");
    assert!(hud.ends_with('\n'));
}

#[test]
fn the_best_hand_takes_the_pot() {
    let mut g = Game::new(players(&[0, 0, 0, 0]), 5, 10, 1);
    g.button = 3;
    g.community = hand(&["9c", "9d", "4h", "Js", "2c"]);
    g.players[0].hole = [card("Kd"), card("Qh")];
    g.players[1].hole = [card("Jd"), card("Jh")]; // full house, jacks full of nines
    g.players[2].hole = [card("9h"), card("Ac")]; // trip nines
    g.players[3].hole = [card("9s"), card("Jc")]; // nines full of jacks, but folded
    g.players[3].folded = true;
    for p in &mut g.players {
        p.committed = 120;
    }
    g.settle();
    assert_eq!(g.last_payouts, vec![Payout { seat: 1, amount: 480 }]);
    assert_eq!(
        g.players.iter().map(|p| p.stack).collect::<Vec<_>>(),
        vec![0, 480, 0, 0]
    );
}

#[test]
fn a_big_table_deals_only_the_seats_with_chips() {
    let mut stacks = vec![0u32; 30];
    for i in [0, 5, 11, 17, 23, 29] {
        stacks[i] = 1000;
    }
    let mut g = Game::new(players(&stacks), 5, 10, 3);
    g.start_hand();
    assert_eq!(g.live_count(), 6);
    assert_eq!(g.deck.len(), 52 - 12);
    assert_eq!(g.button, 5);
    assert_eq!(total_chips(&g), 6000);
    let mut guard = 0;
    while g.street != Street::HandOver {
        g.apply(Action::Call);
        assert_eq!(total_chips(&g), 6000);
        guard += 1;
        assert!(guard < 100);
    }
    assert_eq!(g.players.iter().map(|p| p.stack).sum::<u32>(), 6000);
}

#[test]
fn odd_chips_count_the_button_round_the_table() {
    // A button past the last seat counts round the table: seat 3 of three is
    // seat 0, so the odd chip goes to seat 1.
    let mut g = Game::new(players(&[0, 0, 0]), 5, 10, 1);
    g.button = 3;
    g.community = hand(&["Ac", "Kd", "Qh", "Js", "Ts"]);
    g.players[0].hole = [card("2d"), card("3h")];
    g.players[1].hole = [card("4d"), card("5h")];
    g.players[2].hole = [card("6d"), card("7h")];
    g.players[0].committed = 50;
    g.players[1].committed = 50;
    g.players[2].committed = 1;
    g.players[2].folded = true;
    g.settle();
    assert_eq!(g.players[0].stack, 50);
    assert_eq!(g.players[1].stack, 51);
}

#[test]
fn rollouts_count_every_sample() {
    let g = three_handed(21);
    let mut rng = Rng::new(5);
    let outcomes = holdem::equity::equity_rollouts(&g, 1, &mut rng, 200);
    assert_eq!(outcomes.len(), 200);
    assert_eq!(holdem::equity::count_opponents(&g, 1), 2);
    assert!(outcomes.iter().all(|o| o.map_or(true, |t| t <= 2)));
    // The same generator state gives the same roll-outs.
    let again = holdem::equity::equity_rollouts(&g, 1, &mut Rng::new(5), 200);
    assert_eq!(outcomes, again);
    // Every card the seat cannot see is in the pool, once.
    let unseen = holdem::equity::unseen_cards(&g, 1);
    assert_eq!(unseen.len(), 50);
}

#[test]
fn the_first_seat_left_of_the_button_opens_the_flop() {
    let mut g = three_handed(7);
    assert_eq!((g.button, g.to_act), (1, 1));
    g.apply(Action::Call);
    g.apply(Action::Call);
    g.apply(Action::Check);
    assert_eq!(g.street, Street::Flop);
    assert_eq!(g.community.len(), 3);
    assert_eq!(g.current_bet, 0);
    assert_eq!(g.to_act, 2);
    assert_eq!(total_chips(&g), 3000);
}

#[test]
fn a_short_stack_raise_is_an_all_in_call() {
    let mut g = Game::new(players(&[1000, 1000, 30]), 5, 10, 7);
    g.start_hand();
    assert_eq!(g.to_act, 1);
    g.apply(Action::Raise(100));
    assert_eq!(g.to_act, 2);
    assert!(g.players[2].bet + g.players[2].stack < g.current_bet);
    g.apply(Action::Raise(30));
    assert_eq!(g.players[2].stack, 0);
    assert_eq!(g.players[2].bet, 30);
    assert!(g.players[2].all_in);
    assert_eq!(g.current_bet, 100);
    assert_eq!(g.to_act, 0);
    assert_eq!(total_chips(&g), 2030);
}

#[test]
fn a_new_cycle_never_repeats_the_last_song() {
    for seed in 0..40u64 {
        let mut rng = SfxRng::new(seed);
        let mut list = Playlist::new(vec![0, 1, 2, 3]);
        let mut last = list.next_song(4, &mut rng);
        for _ in 0..20 {
            let next = list.next_song(4, &mut rng);
            assert_ne!(next, last, "seed {seed}: a song played twice in a row");
            last = next;
        }
    }
}

#[test]
fn different_seeds_give_different_first_draws() {
    for a in 0..20u64 {
        for b in (a + 1)..20u64 {
            assert_ne!(Rng::new(a).next_u64(), Rng::new(b).next_u64());
        }
    }
    assert_ne!(Rng::new(1).next_u64(), Rng::new(2).next_u64());
}

#[test]
fn adding_a_card_never_weakens_the_best_hand() {
    let five = hand(&["2c", "7d", "9h", "Js", "Kc"]);
    let mut six = five.clone();
    six.push(card("2d"));
    let a = evaluate_best(&five);
    let b = evaluate_best(&six);
    assert_eq!(b.category, HandCategory::Pair);
    assert!(compare_hands(&a, &b) <= 0);
}

#[test]
fn a_lone_seat_with_chips_keeps_every_chip() {
    let mut g = Game::new(players(&[0, 500, 0]), 5, 10, 3);
    g.start_hand();
    assert_eq!(total_chips(&g), 500);
    g.apply(Action::Call);
    assert_eq!(total_chips(&g), 500);
}

#[test]
fn the_order_of_the_cards_does_not_matter() {
    let cards = hand(&["Ah", "2d", "Kh", "3c", "Qh", "4s", "5h"]);
    let mut reversed = cards.clone();
    reversed.reverse();
    let mut rotated = cards.clone();
    rotated.rotate_left(3);
    let a = evaluate_best(&cards);
    assert_eq!(compare_hands(&a, &evaluate_best(&reversed)), 0);
    assert_eq!(compare_hands(&a, &evaluate_best(&rotated)), 0);
    assert_eq!(a.category, HandCategory::Straight);
}

#[test]
fn a_short_all_in_wins_only_what_it_matched() {
    let mut g = Game::new(players(&[0, 0, 0]), 5, 10, 1);
    g.button = 3;
    g.community = hand(&["Ac", "Kd", "Qh", "7s", "2c"]);
    g.players[0].hole = [card("As"), card("Ah")];
    g.players[1].hole = [card("Ks"), card("3d")];
    g.players[2].hole = [card("Qs"), card("4d")];
    g.players[0].committed = 50;
    g.players[1].committed = 100;
    g.players[2].committed = 100;
    g.settle();
    assert_eq!(g.players[0].stack, 150);
    assert_eq!(g.players[1].stack, 100);
    assert_eq!(g.players[2].stack, 0);
}
