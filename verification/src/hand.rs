//! Hand evaluation: the category and tiebreakers of five cards, the best
//! five-card hand out of five to seven cards, and how two hands compare.

use vstd::prelude::*;
use crate::cards::{Card, rank_value};

verus! {

#[derive(Clone, Copy, PartialEq, Eq, Structural, PartialOrd, Ord, Debug)]
pub enum HandCategory {
    HighCard,
    Pair,
    TwoPair,
    Trips,
    Straight,
    Flush,
    FullHouse,
    Quads,
    StraightFlush,
}

/// Position of a category in the ranking of hands (High Card = 0, ...,
/// Straight Flush = 8); the derived `Ord` follows the same order.
pub open spec fn category_rank(c: HandCategory) -> int {
    match c {
        HandCategory::HighCard => 0,
        HandCategory::Pair => 1,
        HandCategory::TwoPair => 2,
        HandCategory::Trips => 3,
        HandCategory::Straight => 4,
        HandCategory::Flush => 5,
        HandCategory::FullHouse => 6,
        HandCategory::Quads => 7,
        HandCategory::StraightFlush => 8,
    }
}

pub open spec fn category_name(c: HandCategory) -> Seq<char> {
    match c {
        HandCategory::HighCard => "High Card"@,
        HandCategory::Pair => "Pair"@,
        HandCategory::TwoPair => "Two Pair"@,
        HandCategory::Trips => "Three of a Kind"@,
        HandCategory::Straight => "Straight"@,
        HandCategory::Flush => "Flush"@,
        HandCategory::FullHouse => "Full House"@,
        HandCategory::Quads => "Four of a Kind"@,
        HandCategory::StraightFlush => "Straight Flush"@,
    }
}

impl HandCategory {
    pub fn name(self) -> (s: &'static str)
        ensures
            s@ == category_name(self),
    {
        match self {
            HandCategory::HighCard => "High Card",
            HandCategory::Pair => "Pair",
            HandCategory::TwoPair => "Two Pair",
            HandCategory::Trips => "Three of a Kind",
            HandCategory::Straight => "Straight",
            HandCategory::Flush => "Flush",
            HandCategory::FullHouse => "Full House",
            HandCategory::Quads => "Four of a Kind",
            HandCategory::StraightFlush => "Straight Flush",
        }
    }

    fn rank(self) -> (r: u8)
        ensures
            r == category_rank(self),
    {
        match self {
            HandCategory::HighCard => 0,
            HandCategory::Pair => 1,
            HandCategory::TwoPair => 2,
            HandCategory::Trips => 3,
            HandCategory::Straight => 4,
            HandCategory::Flush => 5,
            HandCategory::FullHouse => 6,
            HandCategory::Quads => 7,
            HandCategory::StraightFlush => 8,
        }
    }
}

/// The mathematical value of a hand: its category and its tiebreakers.
pub struct HandScore {
    pub category: HandCategory,
    pub tiebreak: Seq<u8>,
}

/// A fully comparable hand value: category first, then rank-ordered
/// tiebreakers. The derived order compares exactly that way.
#[derive(Clone, PartialEq, Eq, PartialOrd, Ord, Debug)]
pub struct HandValue {
    pub category: HandCategory,
    pub tiebreak: Vec<u8>,
}

impl View for HandValue {
    type V = HandScore;

    open spec fn view(&self) -> HandScore {
        HandScore { category: self.category, tiebreak: self.tiebreak@ }
    }
}

/// Lexicographic comparison of two sequences (a proper prefix is smaller):
/// -1, 0 or 1.
pub open spec fn lex_compare(a: Seq<u8>, b: Seq<u8>) -> int
    decreases a.len(),
{
    if a.len() == 0 {
        if b.len() == 0 { 0 } else { -1 }
    } else if b.len() == 0 {
        1
    } else if a[0] < b[0] {
        -1
    } else if a[0] > b[0] {
        1
    } else {
        lex_compare(a.drop_first(), b.drop_first())
    }
}

/// How two hands compare: category first, then tiebreakers; -1, 0 or 1.
pub open spec fn hand_compare(a: HandScore, b: HandScore) -> int {
    if category_rank(a.category) < category_rank(b.category) {
        -1
    } else if category_rank(a.category) > category_rank(b.category) {
        1
    } else {
        lex_compare(a.tiebreak, b.tiebreak)
    }
}

proof fn lemma_lex_compare_antisymmetric(a: Seq<u8>, b: Seq<u8>)
    ensures
        lex_compare(a, b) == -lex_compare(b, a),
        -1 <= lex_compare(a, b) <= 1,
        lex_compare(a, b) == 0 <==> a == b,
    decreases a.len(),
{
    if a.len() == 0 && b.len() == 0 {
        assert(a =~= b);
    } else if a.len() > 0 && b.len() > 0 && a[0] == b[0] {
        lemma_lex_compare_antisymmetric(a.drop_first(), b.drop_first());
        if a.drop_first() == b.drop_first() {
            assert(a =~= seq![a[0]] + a.drop_first());
            assert(b =~= seq![b[0]] + b.drop_first());
        }
        if a == b {
            assert(a.drop_first() =~= b.drop_first());
        }
    } else {
        assert(a != b) by {
            if a == b {
                assert(a.len() == b.len());
            }
        }
    }
}

proof fn lemma_lex_compare_transitive(a: Seq<u8>, b: Seq<u8>, c: Seq<u8>)
    requires
        lex_compare(a, b) <= 0,
        lex_compare(b, c) <= 0,
    ensures
        lex_compare(a, c) <= 0,
    decreases a.len(),
{
    if a.len() > 0 && b.len() > 0 && c.len() > 0 && a[0] == b[0] && b[0] == c[0] {
        lemma_lex_compare_transitive(a.drop_first(), b.drop_first(), c.drop_first());
    }
}

/// Comparing hands is a total order on hand values: antisymmetric, and two
/// hands compare equal only when they are the same value.
pub proof fn lemma_hand_compare_antisymmetric(a: HandScore, b: HandScore)
    ensures
        hand_compare(a, b) == -hand_compare(b, a),
        -1 <= hand_compare(a, b) <= 1,
        hand_compare(a, b) == 0 <==> a == b,
{
    lemma_lex_compare_antisymmetric(a.tiebreak, b.tiebreak);
    if category_rank(a.category) == category_rank(b.category) {
        assert(a.category == b.category);
    }
}

/// Comparing hands is transitive.
pub proof fn lemma_hand_compare_transitive(a: HandScore, b: HandScore, c: HandScore)
    requires
        hand_compare(a, b) <= 0,
        hand_compare(b, c) <= 0,
    ensures
        hand_compare(a, c) <= 0,
{
    if category_rank(a.category) == category_rank(c.category) {
        lemma_lex_compare_transitive(a.tiebreak, b.tiebreak, c.tiebreak);
    }
}

/// Compare two hand values: -1 if `a` is the weaker hand, 1 if it is the
/// stronger, 0 if they are equal.
pub fn compare_hands(a: &HandValue, b: &HandValue) -> (r: i8)
    ensures
        r == hand_compare(a@, b@),
{
    let ra = a.category.rank();
    let rb = b.category.rank();
    if ra < rb {
        return -1;
    }
    if ra > rb {
        return 1;
    }
    let n = a.tiebreak.len();
    let m = b.tiebreak.len();
    let mut i: usize = 0;
    assert(a.tiebreak@.skip(0) =~= a.tiebreak@);
    assert(b.tiebreak@.skip(0) =~= b.tiebreak@);
    while i < n && i < m
        invariant
            i <= n,
            i <= m,
            n == a.tiebreak@.len(),
            m == b.tiebreak@.len(),
            category_rank(a.category) == category_rank(b.category),
            lex_compare(a.tiebreak@, b.tiebreak@) == lex_compare(a.tiebreak@.skip(i as int), b.tiebreak@.skip(i as int)),
        decreases n - i,
    {
        let x = a.tiebreak[i];
        let y = b.tiebreak[i];
        assert(a.tiebreak@.skip(i as int)[0] == x);
        assert(b.tiebreak@.skip(i as int)[0] == y);
        if x < y {
            return -1;
        }
        if x > y {
            return 1;
        }
        assert(a.tiebreak@.skip(i as int).drop_first() =~= a.tiebreak@.skip(i + 1));
        assert(b.tiebreak@.skip(i as int).drop_first() =~= b.tiebreak@.skip(i + 1));
        i = i + 1;
    }
    if n == m {
        0
    } else if i == n {
        -1
    } else {
        1
    }
}


// ---------------------------------------------------------------------------
// Five-card evaluation
// ---------------------------------------------------------------------------

/// Number of cards in `cards` whose rank has value `v`.
pub open spec fn count_value(cards: Seq<Card>, v: int) -> nat
    decreases cards.len(),
{
    if cards.len() == 0 {
        0
    } else {
        count_value(cards.drop_last(), v) + if rank_value(cards.last().rank) == v { 1nat } else { 0nat }
    }
}

/// How many cards there are of each value, indexed by value (0..=14).
pub open spec fn histogram(cards: Seq<Card>) -> Seq<u8> {
    Seq::new(15, |v: int| count_value(cards, v) as u8)
}

/// The values above `lo` (up to 14) that occur exactly `c` times, highest
/// first.
pub open spec fn values_with_count(h: Seq<u8>, c: u8, lo: int) -> Seq<u8>
    decreases 14 - lo,
{
    if lo >= 14 {
        seq![]
    } else {
        values_with_count(h, c, lo + 1) + if h[lo + 1] == c { seq![(lo + 1) as u8] } else { seq![] }
    }
}

/// The values above `lo` that occur at all, highest first.
pub open spec fn distinct_values(h: Seq<u8>, lo: int) -> Seq<u8>
    decreases 14 - lo,
{
    if lo >= 14 {
        seq![]
    } else {
        distinct_values(h, lo + 1) + if h[lo + 1] > 0 { seq![(lo + 1) as u8] } else { seq![] }
    }
}

/// Every value above `lo`, as often as it occurs, highest first.
pub open spec fn values_desc(h: Seq<u8>, lo: int) -> Seq<u8>
    decreases 14 - lo,
{
    if lo >= 14 {
        seq![]
    } else {
        values_desc(h, lo + 1) + Seq::new(h[lo + 1] as nat, |_i: int| (lo + 1) as u8)
    }
}

/// The distinct values ordered by how often they occur (most first), then by
/// value (highest first).
pub open spec fn grouped_values(h: Seq<u8>) -> Seq<u8> {
    values_with_count(h, 5, 1) + values_with_count(h, 4, 1) + values_with_count(h, 3, 1)
        + values_with_count(h, 2, 1) + values_with_count(h, 1, 1)
}

/// How often each entry of `grouped_values` occurs, in the same order.
pub open spec fn group_sizes(h: Seq<u8>) -> Seq<u8> {
    Seq::new(values_with_count(h, 5, 1).len(), |_i: int| 5u8)
        + Seq::new(values_with_count(h, 4, 1).len(), |_i: int| 4u8)
        + Seq::new(values_with_count(h, 3, 1).len(), |_i: int| 3u8)
        + Seq::new(values_with_count(h, 2, 1).len(), |_i: int| 2u8)
        + Seq::new(values_with_count(h, 1, 1).len(), |_i: int| 1u8)
}

/// Size of the largest group (0 when there are no cards).
pub open spec fn largest_group(h: Seq<u8>) -> u8 {
    if group_sizes(h).len() > 0 { group_sizes(h)[0] } else { 0 }
}

/// Size of the second group in group order (0 when there is none).
pub open spec fn second_group(h: Seq<u8>) -> u8 {
    if group_sizes(h).len() > 1 { group_sizes(h)[1] } else { 0 }
}

/// Whether a card of value `v` is among `s`; the Ace (14) also counts as 1.
pub open spec fn has_rank_value(s: Seq<u8>, v: int) -> bool {
    if v == 1 { s.contains(14u8) } else { s.contains(v as u8) }
}

/// `s` holds five consecutive values from `top` down to `top - 4`.
pub open spec fn run_of_five(s: Seq<u8>, top: int) -> bool {
    &&& has_rank_value(s, top)
    &&& has_rank_value(s, top - 1)
    &&& has_rank_value(s, top - 2)
    &&& has_rank_value(s, top - 3)
    &&& has_rank_value(s, top - 4)
}

/// The highest `top <= from` (and at least 5) such that `s` holds a run of
/// five down from `top`.
pub open spec fn best_run_from(s: Seq<u8>, from: int) -> Option<u8>
    decreases from,
{
    if from < 5 {
        None
    } else if run_of_five(s, from) {
        Some(from as u8)
    } else {
        best_run_from(s, from - 1)
    }
}

/// The high card of the best straight among the values `s` (the wheel
/// A-2-3-4-5 counts as five-high), if there is one.
pub open spec fn straight_high_of(s: Seq<u8>) -> Option<u8> {
    best_run_from(s, 14)
}

/// All cards share one suit.
pub open spec fn is_flush(cards: Seq<Card>) -> bool {
    forall|i: int| 0 <= i < cards.len() ==> #[trigger] cards[i].suit == cards[0].suit
}

/// The category of five cards.
pub open spec fn category_of(cards: Seq<Card>) -> HandCategory {
    let h = histogram(cards);
    let straight = straight_high_of(distinct_values(h, 1));
    let flush = is_flush(cards);
    if straight is Some && flush {
        HandCategory::StraightFlush
    } else if largest_group(h) == 4 {
        HandCategory::Quads
    } else if largest_group(h) == 3 && second_group(h) == 2 {
        HandCategory::FullHouse
    } else if flush {
        HandCategory::Flush
    } else if straight is Some {
        HandCategory::Straight
    } else if largest_group(h) == 3 {
        HandCategory::Trips
    } else if largest_group(h) == 2 && second_group(h) == 2 {
        HandCategory::TwoPair
    } else if largest_group(h) == 2 {
        HandCategory::Pair
    } else {
        HandCategory::HighCard
    }
}

/// The value of five cards: straights are broken by their high card,
/// flushes and high-card hands by every value from the top, grouped hands
/// by their groups (largest first, then highest).
pub open spec fn eval5_score(cards: Seq<Card>) -> HandScore {
    let h = histogram(cards);
    let category = category_of(cards);
    let tiebreak = match category {
        HandCategory::StraightFlush | HandCategory::Straight =>
            seq![straight_high_of(distinct_values(h, 1))->0],
        HandCategory::Flush | HandCategory::HighCard => values_desc(h, 1),
        _ => grouped_values(h),
    };
    HandScore { category, tiebreak }
}

fn slice_contains(s: &[u8], v: u8) -> (b: bool)
    ensures
        b == s@.contains(v),
{
    let mut i: usize = 0;
    while i < s.len()
        invariant
            i <= s@.len(),
            forall|k: int| 0 <= k < i ==> s@[k] != v,
        decreases s@.len() - i,
    {
        if s[i] == v {
            return true;
        }
        i = i + 1;
    }
    false
}

fn has_value(s: &[u8], v: u8) -> (b: bool)
    ensures
        b == has_rank_value(s@, v as int),
{
    if v == 1 {
        slice_contains(s, 14)
    } else {
        slice_contains(s, v)
    }
}

/// If the (unique) rank set contains a 5-card straight, return its high card.
/// Handles the wheel (A-2-3-4-5, high card 5).
fn straight_high(unique_desc: &[u8]) -> (r: Option<u8>)
    ensures
        r == straight_high_of(unique_desc@),
{
    let mut top: u8 = 14;
    while top >= 5
        invariant
            4 <= top <= 14,
            best_run_from(unique_desc@, 14) == best_run_from(unique_desc@, top as int),
        decreases top,
    {
        if has_value(unique_desc, top) && has_value(unique_desc, top - 1) && has_value(unique_desc, top - 2)
            && has_value(unique_desc, top - 3) && has_value(unique_desc, top - 4)
        {
            return Some(top);
        }
        top = top - 1;
    }
    None
}

/// Count the cards of each value.
fn histogram_of(cards: &[Card; 5]) -> (cnt: Vec<u8>)
    ensures
        cnt@ == histogram(cards@),
{
    let mut cnt: Vec<u8> = vec![0u8; 15];
    let mut i: usize = 0;
    while i < 5
        invariant
            i <= 5,
            cards@.len() == 5,
            cnt@.len() == 15,
            forall|v: int| 0 <= v < 15 ==> #[trigger] cnt@[v] == count_value(cards@.take(i as int), v),
            forall|v: int| 0 <= v < 15 ==> #[trigger] cnt@[v] <= i,
        decreases 5 - i,
    {
        let v = cards[i].rank.value();
        assert(cards@.take(i + 1).drop_last() =~= cards@.take(i as int));
        let old_c = cnt[v as usize];
        cnt.set(v as usize, old_c + 1);
        i = i + 1;
    }
    assert(cards@.take(5) =~= cards@);
    assert(cnt@ =~= histogram(cards@));
    cnt
}

/// The values (above 1) occurring exactly `c` times, highest first.
fn list_with_count(cnt: &Vec<u8>, c: u8) -> (out: Vec<u8>)
    requires
        cnt@.len() == 15,
    ensures
        out@ == values_with_count(cnt@, c, 1),
{
    let mut out: Vec<u8> = Vec::new();
    let mut v: usize = 15;
    while v > 2
        invariant
            2 <= v <= 15,
            cnt@.len() == 15,
            out@ == values_with_count(cnt@, c, v as int - 1),
        decreases v,
    {
        v = v - 1;
        if cnt[v] == c {
            out.push(v as u8);
        }
    }
    out
}

/// The values (above 1) that occur, highest first.
fn list_distinct(cnt: &Vec<u8>) -> (out: Vec<u8>)
    requires
        cnt@.len() == 15,
    ensures
        out@ == distinct_values(cnt@, 1),
{
    let mut out: Vec<u8> = Vec::new();
    let mut v: usize = 15;
    while v > 2
        invariant
            2 <= v <= 15,
            cnt@.len() == 15,
            out@ == distinct_values(cnt@, v as int - 1),
        decreases v,
    {
        v = v - 1;
        if cnt[v] > 0 {
            out.push(v as u8);
        }
    }
    out
}

/// Every value (above 1) as often as it occurs, highest first.
fn list_desc(cnt: &Vec<u8>) -> (out: Vec<u8>)
    requires
        cnt@.len() == 15,
    ensures
        out@ == values_desc(cnt@, 1),
{
    let mut out: Vec<u8> = Vec::new();
    let mut v: usize = 15;
    while v > 2
        invariant
            2 <= v <= 15,
            cnt@.len() == 15,
            out@ == values_desc(cnt@, v as int - 1),
        decreases v,
    {
        v = v - 1;
        let ghost before = out@;
        let k = cnt[v];
        let mut j: u8 = 0;
        while j < k
            invariant
                j <= k,
                out@ == before + Seq::new(j as nat, |_i: int| v as u8),
            decreases k - j,
        {
            out.push(v as u8);
            j = j + 1;
            assert(out@ =~= before + Seq::new(j as nat, |_i: int| v as u8));
        }
        assert(out@ =~= values_desc(cnt@, v as int - 1));
    }
    out
}

fn append_all(dst: &mut Vec<u8>, src: &Vec<u8>)
    ensures
        final(dst)@ == old(dst)@ + src@,
{
    let mut i: usize = 0;
    while i < src.len()
        invariant
            i <= src@.len(),
            dst@ == old(dst)@ + src@.take(i as int),
        decreases src@.len() - i,
    {
        dst.push(src[i]);
        i = i + 1;
        assert(dst@ =~= old(dst)@ + src@.take(i as int));
    }
    assert(src@.take(src@.len() as int) =~= src@);
}

fn append_repeat(dst: &mut Vec<u8>, value: u8, n: usize)
    ensures
        final(dst)@ == old(dst)@ + Seq::new(n as nat, |_i: int| value),
{
    let mut i: usize = 0;
    while i < n
        invariant
            i <= n,
            dst@ == old(dst)@ + Seq::new(i as nat, |_i: int| value),
        decreases n - i,
    {
        dst.push(value);
        i = i + 1;
        assert(dst@ =~= old(dst)@ + Seq::new(i as nat, |_i: int| value));
    }
}

/// Evaluate exactly five cards.
pub fn eval5(cards: &[Card; 5]) -> (v: HandValue)
    ensures
        v@ == eval5_score(cards@),
{
    let cnt = histogram_of(cards);

    let mut flush = true;
    let mut i: usize = 1;
    while i < 5
        invariant
            1 <= i <= 5,
            cards@.len() == 5,
            flush == forall|k: int| 0 <= k < i ==> #[trigger] cards@[k].suit == cards@[0].suit,
        decreases 5 - i,
    {
        if cards[i].suit != cards[0].suit {
            flush = false;
        }
        i = i + 1;
    }
    assert(flush == is_flush(cards@));

    let unique = list_distinct(&cnt);
    let straight = straight_high(unique.as_slice());

    let l5 = list_with_count(&cnt, 5);
    let l4 = list_with_count(&cnt, 4);
    let l3 = list_with_count(&cnt, 3);
    let l2 = list_with_count(&cnt, 2);
    let l1 = list_with_count(&cnt, 1);
    let mut groups: Vec<u8> = Vec::new();
    append_all(&mut groups, &l5);
    append_all(&mut groups, &l4);
    append_all(&mut groups, &l3);
    append_all(&mut groups, &l2);
    append_all(&mut groups, &l1);
    let mut counts: Vec<u8> = Vec::new();
    append_repeat(&mut counts, 5, l5.len());
    append_repeat(&mut counts, 4, l4.len());
    append_repeat(&mut counts, 3, l3.len());
    append_repeat(&mut counts, 2, l2.len());
    append_repeat(&mut counts, 1, l1.len());
    assert(groups@ == grouped_values(cnt@));
    assert(counts@ =~= group_sizes(cnt@));

    let first: u8 = if counts.len() > 0 { counts[0] } else { 0 };
    let second: u8 = if counts.len() > 1 { counts[1] } else { 0 };

    let category = if straight.is_some() && flush {
        HandCategory::StraightFlush
    } else if first == 4 {
        HandCategory::Quads
    } else if first == 3 && second == 2 {
        HandCategory::FullHouse
    } else if flush {
        HandCategory::Flush
    } else if straight.is_some() {
        HandCategory::Straight
    } else if first == 3 {
        HandCategory::Trips
    } else if first == 2 && second == 2 {
        HandCategory::TwoPair
    } else if first == 2 {
        HandCategory::Pair
    } else {
        HandCategory::HighCard
    };

    let tiebreak = match category {
        HandCategory::StraightFlush | HandCategory::Straight => {
            let high = match straight {
                Some(h) => h,
                None => 0,
            };
            vec![high]
        },
        HandCategory::Flush | HandCategory::HighCard => list_desc(&cnt),
        _ => groups,
    };
    let v = HandValue { category, tiebreak };
    assert(v@.tiebreak =~= eval5_score(cards@).tiebreak);
    v
}


// ---------------------------------------------------------------------------
// The tiebreak of a grouped hand
// ---------------------------------------------------------------------------

/// `x` goes before `y` in the tiebreak of a grouped hand: it occurs more
/// often among the cards, or as often and is the higher rank.
pub open spec fn ranks_before(cards: Seq<Card>, x: u8, y: u8) -> bool {
    count_value(cards, x as int) > count_value(cards, y as int)
        || (count_value(cards, x as int) == count_value(cards, y as int) && x > y)
}

/// Every entry of `t` goes before every later one.
pub open spec fn in_group_order(cards: Seq<Card>, t: Seq<u8>) -> bool {
    forall|i: int, j: int| 0 <= i < j < t.len() ==> ranks_before(cards, #[trigger] t[i], #[trigger] t[j])
}

/// A count never exceeds the number of cards, and a value is counted
/// exactly when some card has it.
proof fn lemma_count_value_facts(cards: Seq<Card>, v: int)
    ensures
        count_value(cards, v) <= cards.len(),
        count_value(cards, v) > 0 <==> exists|i: int| 0 <= i < cards.len() && rank_value(#[trigger] cards[i].rank) == v,
    decreases cards.len(),
{
    if cards.len() > 0 {
        let rest = cards.drop_last();
        lemma_count_value_facts(rest, v);
        if exists|i: int| 0 <= i < rest.len() && rank_value(#[trigger] rest[i].rank) == v {
            let i = choose|i: int| 0 <= i < rest.len() && rank_value(#[trigger] rest[i].rank) == v;
            assert(cards[i] == rest[i]);
        }
        if exists|i: int| 0 <= i < cards.len() && rank_value(#[trigger] cards[i].rank) == v {
            let i = choose|i: int| 0 <= i < cards.len() && rank_value(#[trigger] cards[i].rank) == v;
            if i < cards.len() - 1 {
                assert(rest[i] == cards[i]);
            }
        }
    }
}

/// The values above `lo` that occur `c` times are exactly those, listed
/// from the highest down.
proof fn lemma_values_with_count(h: Seq<u8>, c: u8, lo: int)
    requires
        1 <= lo <= 14,
        h.len() == 15,
    ensures
        forall|x: u8| values_with_count(h, c, lo).contains(x) <==> (lo < x <= 14 && h[x as int] == c),
        forall|i: int| 0 <= i < values_with_count(h, c, lo).len() ==> {
            let x = #[trigger] values_with_count(h, c, lo)[i];
            lo < x <= 14 && h[x as int] == c
        },
        forall|i: int, j: int| 0 <= i < j < values_with_count(h, c, lo).len()
            ==> #[trigger] values_with_count(h, c, lo)[i] > #[trigger] values_with_count(h, c, lo)[j],
    decreases 14 - lo,
{
    if lo < 14 {
        lemma_values_with_count(h, c, lo + 1);
        let prev = values_with_count(h, c, lo + 1);
        let cur = values_with_count(h, c, lo);
        if h[lo + 1] == c {
            assert(cur == prev + seq![(lo + 1) as u8]);
            assert(cur.last() == (lo + 1) as u8);
            assert forall|i: int| 0 <= i < cur.len() implies {
                let x = #[trigger] cur[i];
                lo < x <= 14 && h[x as int] == c
            } by {
                if i < prev.len() {
                    assert(cur[i] == prev[i]);
                }
            }
            assert forall|i: int, j: int| 0 <= i < j < cur.len() implies #[trigger] cur[i] > #[trigger] cur[j] by {
                assert(cur[i] == prev[i]);
                if j < prev.len() {
                    assert(cur[j] == prev[j]);
                }
            }
            assert forall|x: u8| cur.contains(x) <==> (lo < x <= 14 && h[x as int] == c) by {
                if cur.contains(x) {
                    let i = choose|i: int| 0 <= i < cur.len() && cur[i] == x;
                }
                if lo < x <= 14 && h[x as int] == c {
                    if x == lo + 1 {
                        assert(cur[cur.len() - 1] == x);
                    } else {
                        assert(prev.contains(x));
                        let i = choose|i: int| 0 <= i < prev.len() && prev[i] == x;
                        assert(cur[i] == x);
                    }
                }
            }
        } else {
            assert(cur =~= prev);
        }
    } else {
        assert(values_with_count(h, c, lo) =~= Seq::<u8>::empty());
    }
}

/// Two lists in group order, every entry of the first going before every
/// entry of the second, make one list in group order.
proof fn lemma_group_order_append(cards: Seq<Card>, a: Seq<u8>, b: Seq<u8>)
    requires
        in_group_order(cards, a),
        in_group_order(cards, b),
        forall|i: int, j: int| 0 <= i < a.len() && 0 <= j < b.len() ==> ranks_before(cards, #[trigger] a[i], #[trigger] b[j]),
    ensures
        in_group_order(cards, a + b),
{
    let t = a + b;
    assert forall|i: int, j: int| 0 <= i < j < t.len() implies ranks_before(cards, #[trigger] t[i], #[trigger] t[j]) by {
        if j < a.len() {
            assert(t[i] == a[i] && t[j] == a[j]);
        } else if i >= a.len() {
            assert(t[i] == b[i - a.len()] && t[j] == b[j - a.len()]);
        } else {
            assert(t[i] == a[i] && t[j] == b[j - a.len()]);
        }
    }
}

/// The ranks that occur `c` times, from the highest down, are in group
/// order, and each occurs `c` times.
proof fn lemma_group_in_order(cards: Seq<Card>, c: u8)
    requires
        cards.len() == 5,
        1 <= c <= 5,
    ensures
        in_group_order(cards, values_with_count(histogram(cards), c, 1)),
        forall|i: int| 0 <= i < values_with_count(histogram(cards), c, 1).len()
            ==> count_value(cards, #[trigger] values_with_count(histogram(cards), c, 1)[i] as int) == c,
{
    let h = histogram(cards);
    let l = values_with_count(h, c, 1);
    lemma_values_with_count(h, c, 1);
    assert forall|i: int| 0 <= i < l.len() implies count_value(cards, #[trigger] l[i] as int) == c by {
        let x = l[i];
        lemma_count_value_facts(cards, x as int);
        assert(h[x as int] == count_value(cards, x as int) as u8);
    }
    assert forall|i: int, j: int| 0 <= i < j < l.len() implies ranks_before(cards, #[trigger] l[i], #[trigger] l[j]) by {
        assert(count_value(cards, l[i] as int) == c);
        assert(count_value(cards, l[j] as int) == c);
    }
}

/// Groups that occur more often go before groups that occur less often.
proof fn lemma_groups_before(cards: Seq<Card>, a: Seq<u8>, b: Seq<u8>, ca: u8, cb: u8)
    requires
        ca > cb,
        forall|i: int| 0 <= i < a.len() ==> count_value(cards, #[trigger] a[i] as int) == ca,
        forall|i: int| 0 <= i < b.len() ==> count_value(cards, #[trigger] b[i] as int) == cb,
    ensures
        forall|i: int, j: int| 0 <= i < a.len() && 0 <= j < b.len() ==> ranks_before(cards, #[trigger] a[i], #[trigger] b[j]),
{
}

/// The tiebreak of a pair, two pair, trips, full house or quads names every
/// rank among the five cards exactly once, kickers included. Ranks that
/// occur more often come first, and among ranks that occur equally often
/// the higher comes first; so two such hands of the same category compare
/// group by group and then kicker by kicker.
pub proof fn lemma_grouped_tiebreak(cards: Seq<Card>)
    requires
        cards.len() == 5,
        eval5_score(cards).category is Pair || eval5_score(cards).category is TwoPair
            || eval5_score(cards).category is Trips || eval5_score(cards).category is FullHouse
            || eval5_score(cards).category is Quads,
    ensures
        forall|v: u8| eval5_score(cards).tiebreak.contains(v)
            <==> exists|i: int| 0 <= i < cards.len() && rank_value(#[trigger] cards[i].rank) == v,
        eval5_score(cards).tiebreak.no_duplicates(),
        forall|i: int, j: int| 0 <= i < j < eval5_score(cards).tiebreak.len() ==> {
            let x = #[trigger] eval5_score(cards).tiebreak[i];
            let y = #[trigger] eval5_score(cards).tiebreak[j];
            count_value(cards, x as int) > count_value(cards, y as int)
                || (count_value(cards, x as int) == count_value(cards, y as int) && x > y)
        },
{
    let h = histogram(cards);
    let l5 = values_with_count(h, 5, 1);
    let l4 = values_with_count(h, 4, 1);
    let l3 = values_with_count(h, 3, 1);
    let l2 = values_with_count(h, 2, 1);
    let l1 = values_with_count(h, 1, 1);
    let t = eval5_score(cards).tiebreak;
    assert(t == grouped_values(h));
    assert(t == l5 + l4 + l3 + l2 + l1);
    lemma_group_in_order(cards, 5);
    lemma_group_in_order(cards, 4);
    lemma_group_in_order(cards, 3);
    lemma_group_in_order(cards, 2);
    lemma_group_in_order(cards, 1);
    lemma_groups_before(cards, l5, l4, 5, 4);
    lemma_group_order_append(cards, l5, l4);
    let a = l5 + l4;
    assert forall|i: int| 0 <= i < a.len() implies count_value(cards, #[trigger] a[i] as int) >= 4 by {
        if i < l5.len() { assert(a[i] == l5[i]); } else { assert(a[i] == l4[i - l5.len()]); }
    }
    assert forall|i: int, j: int| 0 <= i < a.len() && 0 <= j < l3.len() implies ranks_before(cards, #[trigger] a[i], #[trigger] l3[j]) by {}
    lemma_group_order_append(cards, a, l3);
    let b = a + l3;
    assert forall|i: int| 0 <= i < b.len() implies count_value(cards, #[trigger] b[i] as int) >= 3 by {
        if i < a.len() { assert(b[i] == a[i]); } else { assert(b[i] == l3[i - a.len()]); }
    }
    assert forall|i: int, j: int| 0 <= i < b.len() && 0 <= j < l2.len() implies ranks_before(cards, #[trigger] b[i], #[trigger] l2[j]) by {}
    lemma_group_order_append(cards, b, l2);
    let d = b + l2;
    assert forall|i: int| 0 <= i < d.len() implies count_value(cards, #[trigger] d[i] as int) >= 2 by {
        if i < b.len() { assert(d[i] == b[i]); } else { assert(d[i] == l2[i - b.len()]); }
    }
    assert forall|i: int, j: int| 0 <= i < d.len() && 0 <= j < l1.len() implies ranks_before(cards, #[trigger] d[i], #[trigger] l1[j]) by {}
    lemma_group_order_append(cards, d, l1);
    assert(in_group_order(cards, t));
    assert forall|i: int, j: int| 0 <= i < j < t.len() implies {
        let x = #[trigger] t[i];
        let y = #[trigger] t[j];
        count_value(cards, x as int) > count_value(cards, y as int)
            || (count_value(cards, x as int) == count_value(cards, y as int) && x > y)
    } by {
        assert(ranks_before(cards, t[i], t[j]));
    }
    assert forall|i: int, j: int| 0 <= i < t.len() && 0 <= j < t.len() && i != j implies t[i] != t[j] by {
        if i < j {
            assert(ranks_before(cards, t[i], t[j]));
        } else {
            assert(ranks_before(cards, t[j], t[i]));
        }
    }
    lemma_values_with_count(h, 5, 1);
    lemma_values_with_count(h, 4, 1);
    lemma_values_with_count(h, 3, 1);
    lemma_values_with_count(h, 2, 1);
    lemma_values_with_count(h, 1, 1);
    assert forall|v: u8| t.contains(v) <==> exists|i: int| 0 <= i < cards.len() && rank_value(#[trigger] cards[i].rank) == v by {
        lemma_count_value_facts(cards, v as int);
        if v < 15 {
            assert(h[v as int] == count_value(cards, v as int) as u8);
        }
        if exists|i: int| 0 <= i < cards.len() && rank_value(#[trigger] cards[i].rank) == v {
            let i = choose|i: int| 0 <= i < cards.len() && rank_value(#[trigger] cards[i].rank) == v;
            assert(2 <= v <= 14);
            let c = h[v as int];
            assert(1 <= c <= 5);
            if c == 5 { assert(l5.contains(v)); let k = choose|k: int| 0 <= k < l5.len() && l5[k] == v; assert(t[k] == v); }
            if c == 4 { assert(l4.contains(v)); let k = choose|k: int| 0 <= k < l4.len() && l4[k] == v; assert(t[l5.len() + k] == v); }
            if c == 3 { assert(l3.contains(v)); let k = choose|k: int| 0 <= k < l3.len() && l3[k] == v; assert(t[a.len() + k] == v); }
            if c == 2 { assert(l2.contains(v)); let k = choose|k: int| 0 <= k < l2.len() && l2[k] == v; assert(t[b.len() + k] == v); }
            if c == 1 { assert(l1.contains(v)); let k = choose|k: int| 0 <= k < l1.len() && l1[k] == v; assert(t[d.len() + k] == v); }
        }
        if t.contains(v) {
            let k = choose|k: int| 0 <= k < t.len() && t[k] == v;
            assert(count_value(cards, t[k] as int) >= 1) by {
                if k < d.len() {
                    assert(t[k] == d[k]);
                } else {
                    assert(t[k] == l1[k - d.len()]);
                }
            }
        }
    }
}


/// A run of `n` copies of `c` holds `c` exactly `n` times and nothing else.
proof fn lemma_run_counts(n: nat, c: u8, v: u8)
    ensures
        Seq::new(n, |_i: int| c).to_multiset().count(v) == if v == c { n } else { 0 },
    decreases n,
{
    broadcast use vstd::multiset::group_multiset_axioms;
    if n == 0 {
        let e = Seq::new(n, |_i: int| c);
        e.to_multiset_ensures();
        assert(!e.contains(v));
    } else {
        let prev = Seq::new((n - 1) as nat, |_i: int| c);
        lemma_run_counts((n - 1) as nat, c, v);
        assert(Seq::new(n, |_i: int| c) =~= prev.push(c));
        prev.to_multiset_ensures();
    }
}

/// Every value above `lo`, as often as it occurs, from the highest down.
proof fn lemma_values_desc(h: Seq<u8>, lo: int)
    requires
        1 <= lo <= 14,
        h.len() == 15,
    ensures
        forall|i: int| 0 <= i < values_desc(h, lo).len() ==> lo < #[trigger] values_desc(h, lo)[i] <= 14,
        forall|i: int, j: int| 0 <= i < j < values_desc(h, lo).len()
            ==> #[trigger] values_desc(h, lo)[i] >= #[trigger] values_desc(h, lo)[j],
        forall|v: u8| #[trigger] values_desc(h, lo).to_multiset().count(v)
            == if lo < v <= 14 { h[v as int] as nat } else { 0 },
    decreases 14 - lo,
{
    broadcast use vstd::multiset::group_multiset_axioms;
    if lo < 14 {
        lemma_values_desc(h, lo + 1);
        let prev = values_desc(h, lo + 1);
        let run = Seq::new(h[lo + 1] as nat, |_i: int| (lo + 1) as u8);
        let cur = values_desc(h, lo);
        assert(cur == prev + run);
        assert forall|i: int| 0 <= i < cur.len() implies lo < #[trigger] cur[i] <= 14 by {
            if i < prev.len() {
                assert(cur[i] == prev[i]);
            } else {
                assert(cur[i] == run[i - prev.len()]);
            }
        }
        assert forall|i: int, j: int| 0 <= i < j < cur.len() implies #[trigger] cur[i] >= #[trigger] cur[j] by {
            if j < prev.len() {
                assert(cur[i] == prev[i] && cur[j] == prev[j]);
            } else if i >= prev.len() {
                assert(cur[i] == run[i - prev.len()] && cur[j] == run[j - prev.len()]);
            } else {
                assert(cur[i] == prev[i] && cur[j] == run[j - prev.len()]);
            }
        }
        vstd::seq_lib::lemma_multiset_commutative(prev, run);
        assert forall|v: u8| #[trigger] cur.to_multiset().count(v) == if lo < v <= 14 { h[v as int] as nat } else { 0 } by {
            lemma_run_counts(h[lo + 1] as nat, (lo + 1) as u8, v);
        }
    } else {
        assert(values_desc(h, lo) =~= Seq::<u8>::empty());
        assert forall|v: u8| #[trigger] values_desc(h, lo).to_multiset().count(v) == 0 by {
            values_desc(h, lo).to_multiset_ensures();
            assert(!values_desc(h, lo).contains(v));
        }
    }
}

/// A high-card hand or a flush is broken by the ranks of all five cards,
/// from the highest down: the tiebreak holds each rank as often as it
/// occurs among the cards, in order from the top.
pub proof fn lemma_high_card_tiebreak(cards: Seq<Card>)
    requires
        cards.len() == 5,
        eval5_score(cards).category is HighCard || eval5_score(cards).category is Flush,
    ensures
        forall|i: int, j: int| 0 <= i < j < eval5_score(cards).tiebreak.len()
            ==> #[trigger] eval5_score(cards).tiebreak[i] >= #[trigger] eval5_score(cards).tiebreak[j],
        forall|v: u8| #[trigger] eval5_score(cards).tiebreak.to_multiset().count(v) == count_value(cards, v as int),
{
    let h = histogram(cards);
    let t = eval5_score(cards).tiebreak;
    assert(t == values_desc(h, 1));
    lemma_values_desc(h, 1);
    assert forall|v: u8| #[trigger] t.to_multiset().count(v) == count_value(cards, v as int) by {
        lemma_count_value_facts(cards, v as int);
        if 1 < v <= 14 {
            assert(h[v as int] == count_value(cards, v as int) as u8);
        } else if count_value(cards, v as int) > 0 {
            let i = choose|i: int| 0 <= i < cards.len() && rank_value(#[trigger] cards[i].rank) == v;
        }
    }
}


/// Some card has rank value `v`; an Ace also counts as the value 1, below
/// the Two.
pub open spec fn holds_rank(cards: Seq<Card>, v: int) -> bool {
    exists|i: int| 0 <= i < cards.len() && (rank_value(#[trigger] cards[i].rank) == v
        || (v == 1 && rank_value(cards[i].rank) == 14))
}

/// The five ranks from `top` down to `top - 4` are all among the cards.
pub open spec fn run_held(cards: Seq<Card>, top: int) -> bool {
    forall|d: int| 0 <= d < 5 ==> #[trigger] holds_rank(cards, top - d)
}

/// The values above `lo` that occur at all, listed from the highest down.
proof fn lemma_distinct_values(h: Seq<u8>, lo: int)
    requires
        1 <= lo <= 14,
        h.len() == 15,
    ensures
        forall|x: u8| distinct_values(h, lo).contains(x) <==> (lo < x <= 14 && h[x as int] > 0),
    decreases 14 - lo,
{
    if lo < 14 {
        lemma_distinct_values(h, lo + 1);
        let prev = distinct_values(h, lo + 1);
        let cur = distinct_values(h, lo);
        if h[lo + 1] > 0 {
            assert(cur == prev + seq![(lo + 1) as u8]);
            assert forall|x: u8| cur.contains(x) <==> (lo < x <= 14 && h[x as int] > 0) by {
                if cur.contains(x) {
                    let i = choose|i: int| 0 <= i < cur.len() && cur[i] == x;
                    if i < prev.len() {
                        assert(prev[i] == x);
                        assert(prev.contains(x));
                    } else {
                        assert(x == lo + 1);
                    }
                }
                if lo < x <= 14 && h[x as int] > 0 {
                    if x == lo + 1 {
                        assert(cur[cur.len() - 1] == x);
                    } else {
                        assert(prev.contains(x));
                        let i = choose|i: int| 0 <= i < prev.len() && prev[i] == x;
                        assert(cur[i] == x);
                    }
                }
            }
        } else {
            assert(cur =~= prev);
        }
    } else {
        assert(distinct_values(h, lo) =~= Seq::<u8>::empty());
    }
}

/// The run found is a run of five, no higher one starts at or below `from`.
proof fn lemma_best_run_from(s: Seq<u8>, from: int)
    requires
        from <= 14,
    ensures
        best_run_from(s, from) matches Some(t) ==> 5 <= t <= from && t <= 255 && run_of_five(s, t as int)
            && forall|u: int| t < u <= from ==> !#[trigger] run_of_five(s, u),
        best_run_from(s, from) is None ==> forall|u: int| 5 <= u <= from ==> !#[trigger] run_of_five(s, u),
    decreases from,
{
    if from >= 5 && !run_of_five(s, from) {
        lemma_best_run_from(s, from - 1);
    }
}

/// A straight or straight flush is broken by its top card alone: the
/// highest rank from which five ranks in a row, going down, are all among
/// the cards. The Ace plays high, or low below the Two, so A-2-3-4-5 is a
/// five-high straight.
pub proof fn lemma_straight_tiebreak(cards: Seq<Card>)
    requires
        cards.len() == 5,
        eval5_score(cards).category is Straight || eval5_score(cards).category is StraightFlush,
    ensures
        eval5_score(cards).tiebreak.len() == 1,
        5 <= eval5_score(cards).tiebreak[0] <= 14,
        run_held(cards, eval5_score(cards).tiebreak[0] as int),
        forall|top: int| eval5_score(cards).tiebreak[0] < top <= 14 ==> !#[trigger] run_held(cards, top),
{
    let h = histogram(cards);
    let dv = distinct_values(h, 1);
    lemma_distinct_values(h, 1);
    lemma_best_run_from(dv, 14);
    let t = eval5_score(cards).tiebreak;
    assert(straight_high_of(dv) is Some);
    let top = straight_high_of(dv)->0;
    assert(t == seq![top]);
    assert forall|v: int| 1 <= v <= 14 implies #[trigger] has_rank_value(dv, v) == holds_rank(cards, v) by {
        let w: int = if v == 1 { 14 } else { v };
        lemma_count_value_facts(cards, w);
        assert(h[w] == count_value(cards, w) as u8);
        assert(has_rank_value(dv, v) == dv.contains(w as u8));
        if holds_rank(cards, v) {
            let i = choose|i: int| 0 <= i < cards.len() && (rank_value(#[trigger] cards[i].rank) == v
                || (v == 1 && rank_value(cards[i].rank) == 14));
            assert(rank_value(cards[i].rank) == w);
        }
        if count_value(cards, w) > 0 {
            let i = choose|i: int| 0 <= i < cards.len() && rank_value(#[trigger] cards[i].rank) == w;
            assert(holds_rank(cards, v));
        }
    }
    assert forall|d: int| 0 <= d < 5 implies #[trigger] holds_rank(cards, t[0] - d) by {
        assert(has_rank_value(dv, top - d));
    }
    assert forall|u: int| t[0] < u <= 14 implies !#[trigger] run_held(cards, u) by {
        assert(!run_of_five(dv, u));
        if !has_rank_value(dv, u) {
            assert(!holds_rank(cards, u - 0));
        } else if !has_rank_value(dv, u - 1) {
            assert(!holds_rank(cards, u - 1));
        } else if !has_rank_value(dv, u - 2) {
            assert(!holds_rank(cards, u - 2));
        } else if !has_rank_value(dv, u - 3) {
            assert(!holds_rank(cards, u - 3));
        } else {
            assert(!holds_rank(cards, u - 4));
        }
    }
}


// ---------------------------------------------------------------------------
// Best five of five to seven cards
// ---------------------------------------------------------------------------

/// The five cards at positions `a`, `b`, `c`, `d`, `e`.
pub open spec fn pick5(s: Seq<Card>, a: int, b: int, c: int, d: int, e: int) -> Seq<Card> {
    seq![s[a], s[b], s[c], s[d], s[e]]
}

/// Positions of a five-card subset of `n` cards, in increasing order.
pub open spec fn is_five_subset(n: int, a: int, b: int, c: int, d: int, e: int) -> bool {
    0 <= a < b < c < d < e < n
}

/// The value of the five cards at the given positions.
pub open spec fn subset_score(s: Seq<Card>, a: int, b: int, c: int, d: int, e: int) -> HandScore {
    eval5_score(pick5(s, a, b, c, d, e))
}

/// `h` is the value of some five of the cards, and no five of them make a
/// stronger hand.
pub open spec fn is_best_hand(s: Seq<Card>, h: HandScore) -> bool {
    &&& exists|a: int, b: int, c: int, d: int, e: int|
        is_five_subset(s.len() as int, a, b, c, d, e) && #[trigger] subset_score(s, a, b, c, d, e) == h
    &&& forall|a: int, b: int, c: int, d: int, e: int|
        is_five_subset(s.len() as int, a, b, c, d, e) ==> hand_compare(
            #[trigger] subset_score(s, a, b, c, d, e),
            h,
        ) <= 0
}

/// The best five-card hand out of `s`.
pub open spec fn best_hand(s: Seq<Card>) -> HandScore {
    choose|h: HandScore| is_best_hand(s, h)
}

/// There is only one best hand.
pub proof fn lemma_best_hand_unique(s: Seq<Card>, h1: HandScore, h2: HandScore)
    requires
        is_best_hand(s, h1),
        is_best_hand(s, h2),
    ensures
        h1 == h2,
{
    let (a, b, c, d, e) = choose|a: int, b: int, c: int, d: int, e: int|
        is_five_subset(s.len() as int, a, b, c, d, e) && #[trigger] subset_score(s, a, b, c, d, e) == h1;
    let (a2, b2, c2, d2, e2) = choose|a: int, b: int, c: int, d: int, e: int|
        is_five_subset(s.len() as int, a, b, c, d, e) && #[trigger] subset_score(s, a, b, c, d, e) == h2;
    assert(hand_compare(subset_score(s, a, b, c, d, e), h2) <= 0);
    assert(hand_compare(subset_score(s, a2, b2, c2, d2, e2), h1) <= 0);
    lemma_hand_compare_antisymmetric(h1, h2);
}

/// Adding a card never weakens the best hand: every five cards of `s` are
/// still five cards of `s` with `c` added.
pub proof fn lemma_best_hand_grows(s: Seq<Card>, c: Card, h1: HandScore, h2: HandScore)
    requires
        is_best_hand(s, h1),
        is_best_hand(s.push(c), h2),
    ensures
        hand_compare(h1, h2) <= 0,
{
    let t = s.push(c);
    let (a, b, cc, d, e) = choose|a: int, b: int, c: int, d: int, e: int|
        is_five_subset(s.len() as int, a, b, c, d, e) && #[trigger] subset_score(s, a, b, c, d, e) == h1;
    assert(pick5(t, a, b, cc, d, e) =~= pick5(s, a, b, cc, d, e));
    assert(is_five_subset(t.len() as int, a, b, cc, d, e));
    assert(hand_compare(subset_score(t, a, b, cc, d, e), h2) <= 0);
}

pub open spec fn score_of(o: Option<HandValue>) -> Option<HandScore> {
    match o {
        Some(v) => Some(v@),
        None => None,
    }
}

/// `best` holds a hand at least as strong as `h`.
pub open spec fn covers(best: Option<HandScore>, h: HandScore) -> bool {
    best is Some && hand_compare(h, best->0) <= 0
}

/// `best`, if any, is the value of some five of the cards.
pub open spec fn achieved(s: Seq<Card>, best: Option<HandScore>) -> bool {
    best is Some ==> exists|a: int, b: int, c: int, d: int, e: int|
        is_five_subset(s.len() as int, a, b, c, d, e) && #[trigger] subset_score(s, a, b, c, d, e) == best->0
}

/// Try every fifth card after position `d`, keeping the strongest hand.
fn scan_e(cards: &[Card], a: usize, b: usize, c: usize, d: usize, best: Option<HandValue>) -> (r: Option<HandValue>)
    requires
        a < b < c < d < cards@.len() <= 7,
        achieved(cards@, score_of(best)),
    ensures
        achieved(cards@, score_of(r)),
        best is Some ==> r is Some,
        forall|h: HandScore| covers(score_of(best), h) ==> #[trigger] covers(score_of(r), h),
        forall|e: int| d < e < cards@.len() ==> covers(score_of(r), #[trigger] subset_score(cards@, a as int, b as int, c as int, d as int, e)),
{
    let n = cards.len();
    let mut best = best;
    let ghost start = score_of(best);
    let mut e: usize = d + 1;
    while e < n
        invariant
            a < b < c < d < e <= n,
            n == cards@.len(),
            n <= 7,
            achieved(cards@, score_of(best)),
            start is Some ==> best is Some,
            forall|h: HandScore| covers(start, h) ==> #[trigger] covers(score_of(best), h),
            forall|e2: int| d < e2 < e ==> covers(score_of(best), #[trigger] subset_score(cards@, a as int, b as int, c as int, d as int, e2)),
        decreases n - e,
    {
        let hand = [cards[a], cards[b], cards[c], cards[d], cards[e]];
        assert(hand@ =~= pick5(cards@, a as int, b as int, c as int, d as int, e as int));
        let v = eval5(&hand);
        let ghost vs = v@;
        let ghost prev = score_of(best);
        let better = match &best {
            None => true,
            Some(bv) => compare_hands(&v, bv) > 0,
        };
        if better {
            best = Some(v);
            proof {
                if prev is Some {
                    lemma_hand_compare_antisymmetric(vs, prev->0);
                    assert forall|h: HandScore| covers(prev, h) implies #[trigger] covers(score_of(best), h) by {
                        lemma_hand_compare_transitive(h, prev->0, vs);
                    }
                    assert forall|e2: int| d < e2 < e implies covers(score_of(best), #[trigger] subset_score(cards@, a as int, b as int, c as int, d as int, e2)) by {
                        assert(covers(prev, subset_score(cards@, a as int, b as int, c as int, d as int, e2)));
                        lemma_hand_compare_transitive(subset_score(cards@, a as int, b as int, c as int, d as int, e2), prev->0, vs);
                    }
                }
                lemma_hand_compare_antisymmetric(vs, vs);
                assert(is_five_subset(n as int, a as int, b as int, c as int, d as int, e as int));
                assert(subset_score(cards@, a as int, b as int, c as int, d as int, e as int) == vs);
            }
        } else {
            proof {
                lemma_hand_compare_antisymmetric(vs, prev->0);
                assert(covers(score_of(best), subset_score(cards@, a as int, b as int, c as int, d as int, e as int)));
            }
        }
        e = e + 1;
    }
    best
}


/// Try every fourth card after position `c` (and every fifth after it).
fn scan_d(cards: &[Card], a: usize, b: usize, c: usize, best: Option<HandValue>) -> (r: Option<HandValue>)
    requires
        a < b < c < cards@.len() <= 7,
        achieved(cards@, score_of(best)),
    ensures
        achieved(cards@, score_of(r)),
        best is Some ==> r is Some,
        forall|h: HandScore| covers(score_of(best), h) ==> #[trigger] covers(score_of(r), h),
        forall|d: int, e: int| c < d < e < cards@.len() ==> covers(score_of(r), #[trigger] subset_score(cards@, a as int, b as int, c as int, d, e)),
{
    let n = cards.len();
    let mut best = best;
    let ghost start = score_of(best);
    let mut d: usize = c + 1;
    while d < n
        invariant
            a < b < c < d <= n,
            n == cards@.len(),
            n <= 7,
            achieved(cards@, score_of(best)),
            start is Some ==> best is Some,
            forall|h: HandScore| covers(start, h) ==> #[trigger] covers(score_of(best), h),
            forall|d2: int, e2: int| c < d2 < d && d2 < e2 < n ==> covers(score_of(best), #[trigger] subset_score(cards@, a as int, b as int, c as int, d2, e2)),
        decreases n - d,
    {
        best = scan_e(cards, a, b, c, d, best);
        d = d + 1;
    }
    best
}

/// Try every third card after position `b` (and the rest after it).
fn scan_c(cards: &[Card], a: usize, b: usize, best: Option<HandValue>) -> (r: Option<HandValue>)
    requires
        a < b < cards@.len() <= 7,
        achieved(cards@, score_of(best)),
    ensures
        achieved(cards@, score_of(r)),
        best is Some ==> r is Some,
        forall|h: HandScore| covers(score_of(best), h) ==> #[trigger] covers(score_of(r), h),
        forall|c: int, d: int, e: int| b < c < d < e < cards@.len() ==> covers(score_of(r), #[trigger] subset_score(cards@, a as int, b as int, c, d, e)),
{
    let n = cards.len();
    let mut best = best;
    let ghost start = score_of(best);
    let mut c: usize = b + 1;
    while c < n
        invariant
            a < b < c <= n,
            n == cards@.len(),
            n <= 7,
            achieved(cards@, score_of(best)),
            start is Some ==> best is Some,
            forall|h: HandScore| covers(start, h) ==> #[trigger] covers(score_of(best), h),
            forall|c2: int, d2: int, e2: int| b < c2 < c && c2 < d2 < e2 < n ==> covers(score_of(best), #[trigger] subset_score(cards@, a as int, b as int, c2, d2, e2)),
        decreases n - c,
    {
        best = scan_d(cards, a, b, c, best);
        c = c + 1;
    }
    best
}

/// Try every second card after position `a` (and the rest after it).
fn scan_b(cards: &[Card], a: usize, best: Option<HandValue>) -> (r: Option<HandValue>)
    requires
        a < cards@.len() <= 7,
        achieved(cards@, score_of(best)),
    ensures
        achieved(cards@, score_of(r)),
        best is Some ==> r is Some,
        forall|h: HandScore| covers(score_of(best), h) ==> #[trigger] covers(score_of(r), h),
        forall|b: int, c: int, d: int, e: int| a < b < c < d < e < cards@.len() ==> covers(score_of(r), #[trigger] subset_score(cards@, a as int, b, c, d, e)),
{
    let n = cards.len();
    let mut best = best;
    let ghost start = score_of(best);
    let mut b: usize = a + 1;
    while b < n
        invariant
            a < b <= n,
            n == cards@.len(),
            n <= 7,
            achieved(cards@, score_of(best)),
            start is Some ==> best is Some,
            forall|h: HandScore| covers(start, h) ==> #[trigger] covers(score_of(best), h),
            forall|b2: int, c2: int, d2: int, e2: int| a < b2 < b && b2 < c2 < d2 < e2 < n ==> covers(score_of(best), #[trigger] subset_score(cards@, a as int, b2, c2, d2, e2)),
        decreases n - b,
    {
        best = scan_c(cards, a, b, best);
        b = b + 1;
    }
    best
}

/// Best 5-card value from 5, 6, or 7 cards.
pub fn evaluate_best(cards: &[Card]) -> (v: HandValue)
    requires
        5 <= cards@.len() <= 7,
    ensures
        is_best_hand(cards@, v@),
        v@ == best_hand(cards@),
{
    let n = cards.len();
    let mut best: Option<HandValue> = None;
    let mut a: usize = 0;
    while a < n
        invariant
            a <= n,
            n == cards@.len(),
            5 <= n <= 7,
            achieved(cards@, score_of(best)),
            a >= 1 ==> best is Some,
            forall|a2: int, b2: int, c2: int, d2: int, e2: int| 0 <= a2 < a && a2 < b2 < c2 < d2 < e2 < n ==> covers(score_of(best), #[trigger] subset_score(cards@, a2, b2, c2, d2, e2)),
        decreases n - a,
    {
        let ghost prev = score_of(best);
        best = scan_b(cards, a, best);
        proof {
            if a == 0 {
                assert(covers(score_of(best), subset_score(cards@, 0, 1, 2, 3, 4)));
            }
        }
        a = a + 1;
    }
    match best {
        Some(v) => {
            proof {
                assert forall|a2: int, b2: int, c2: int, d2: int, e2: int|
                    is_five_subset(n as int, a2, b2, c2, d2, e2) implies hand_compare(
                        #[trigger] subset_score(cards@, a2, b2, c2, d2, e2),
                        v@,
                    ) <= 0 by {
                    assert(covers(score_of(Some(v)), subset_score(cards@, a2, b2, c2, d2, e2)));
                }
                assert(is_best_hand(cards@, v@));
                lemma_best_hand_unique(cards@, v@, best_hand(cards@));
            }
            v
        },
        None => {
            proof {
                assert(false);
            }
            HandValue { category: HandCategory::HighCard, tiebreak: Vec::new() }
        },
    }
}


// ---------------------------------------------------------------------------
// The order of the cards does not matter
// ---------------------------------------------------------------------------

/// Putting `y` at position `k` moves one card out of the count of value `v`
/// and one card in.
proof fn lemma_count_value_update(x: Seq<Card>, k: int, y: Card, v: int)
    requires
        0 <= k < x.len(),
    ensures
        count_value(x.update(k, y), v) == count_value(x, v) - (if rank_value(x[k].rank) == v { 1int } else { 0int })
            + (if rank_value(y.rank) == v { 1int } else { 0int }),
    decreases x.len(),
{
    let z = x.update(k, y);
    if k == x.len() - 1 {
        assert(z.drop_last() =~= x.drop_last());
    } else {
        assert(z.drop_last() =~= x.drop_last().update(k, y));
        lemma_count_value_update(x.drop_last(), k, y, v);
    }
}

/// Swapping two of the cards leaves the value of a hand unchanged.
proof fn lemma_swap_keeps_score(x: Seq<Card>, i: int, j: int)
    requires
        0 <= i < x.len(),
        0 <= j < x.len(),
    ensures
        eval5_score(x.update(i, x[j]).update(j, x[i])) == eval5_score(x),
{
    let y = x.update(i, x[j]).update(j, x[i]);
    if i != j {
        assert forall|v: int| count_value(y, v) == count_value(x, v) by {
            lemma_count_value_update(x, i, x[j], v);
            lemma_count_value_update(x.update(i, x[j]), j, x[i], v);
        }
        assert(histogram(y) =~= histogram(x));
        assert(is_flush(y) == is_flush(x)) by {
            if is_flush(x) {
                assert forall|k: int| 0 <= k < y.len() implies #[trigger] y[k].suit == y[0].suit by {
                    assert(x[k].suit == x[0].suit);
                    assert(x[i].suit == x[0].suit);
                    assert(x[j].suit == x[0].suit);
                }
            }
            if is_flush(y) {
                assert forall|k: int| 0 <= k < x.len() implies #[trigger] x[k].suit == x[0].suit by {
                    assert(y[k].suit == y[0].suit);
                    assert(y[i].suit == y[0].suit);
                    assert(y[j].suit == y[0].suit);
                }
            }
        }
    } else {
        assert(y =~= x);
    }
}

/// Five different positions of `t`, in any order, pick the same hand as
/// some five positions in increasing order.
proof fn lemma_sorted_pick(t: Seq<Card>, p0: int, p1: int, p2: int, p3: int, p4: int)
    requires
        0 <= p0 < t.len(),
        0 <= p1 < t.len(),
        0 <= p2 < t.len(),
        0 <= p3 < t.len(),
        0 <= p4 < t.len(),
        p0 != p1 && p0 != p2 && p0 != p3 && p0 != p4,
        p1 != p2 && p1 != p3 && p1 != p4,
        p2 != p3 && p2 != p4,
        p3 != p4,
    ensures
        exists|a: int, b: int, c: int, d: int, e: int|
            is_five_subset(t.len() as int, a, b, c, d, e) && #[trigger] subset_score(t, a, b, c, d, e)
                == eval5_score(seq![t[p0], t[p1], t[p2], t[p3], t[p4]]),
    decreases 10 * t.len() - (p1 + 2 * p2 + 3 * p3 + 4 * p4),
{
    let x = seq![t[p0], t[p1], t[p2], t[p3], t[p4]];
    if p0 < p1 && p1 < p2 && p2 < p3 && p3 < p4 {
        assert(is_five_subset(t.len() as int, p0, p1, p2, p3, p4));
        assert(subset_score(t, p0, p1, p2, p3, p4) == eval5_score(x));
    } else if p0 > p1 {
        lemma_swap_keeps_score(x, 0, 1);
        assert(x.update(0, x[1]).update(1, x[0]) =~= seq![t[p1], t[p0], t[p2], t[p3], t[p4]]);
        lemma_sorted_pick(t, p1, p0, p2, p3, p4);
    } else if p1 > p2 {
        lemma_swap_keeps_score(x, 1, 2);
        assert(x.update(1, x[2]).update(2, x[1]) =~= seq![t[p0], t[p2], t[p1], t[p3], t[p4]]);
        lemma_sorted_pick(t, p0, p2, p1, p3, p4);
    } else if p2 > p3 {
        lemma_swap_keeps_score(x, 2, 3);
        assert(x.update(2, x[3]).update(3, x[2]) =~= seq![t[p0], t[p1], t[p3], t[p2], t[p4]]);
        lemma_sorted_pick(t, p0, p1, p3, p2, p4);
    } else {
        lemma_swap_keeps_score(x, 3, 4);
        assert(x.update(3, x[4]).update(4, x[3]) =~= seq![t[p0], t[p1], t[p2], t[p4], t[p3]]);
        lemma_sorted_pick(t, p0, p1, p2, p4, p3);
    }
}

/// Where position `k` goes when positions `i` and `j` trade places.
spec fn swapped_index(k: int, i: int, j: int) -> int {
    if k == i { j } else if k == j { i } else { k }
}

/// Every five cards of `s` are five cards of `s` with two cards swapped,
/// so none of them beats the best hand there.
proof fn lemma_swap_bounds_subsets(s: Seq<Card>, i: int, j: int, h: HandScore, a: int, b: int, c: int, d: int, e: int)
    requires
        0 <= i < s.len(),
        0 <= j < s.len(),
        is_best_hand(s.update(i, s[j]).update(j, s[i]), h),
        is_five_subset(s.len() as int, a, b, c, d, e),
    ensures
        hand_compare(subset_score(s, a, b, c, d, e), h) <= 0,
{
    let t = s.update(i, s[j]).update(j, s[i]);
    assert forall|k: int| 0 <= k < s.len() implies #[trigger] t[swapped_index(k, i, j)] == s[k] by {}
    let (qa, qb, qc, qd, qe) = (
        swapped_index(a, i, j),
        swapped_index(b, i, j),
        swapped_index(c, i, j),
        swapped_index(d, i, j),
        swapped_index(e, i, j),
    );
    assert(t[qa] == s[a] && t[qb] == s[b] && t[qc] == s[c] && t[qd] == s[d] && t[qe] == s[e]);
    lemma_sorted_pick(t, qa, qb, qc, qd, qe);
    assert(seq![t[qa], t[qb], t[qc], t[qd], t[qe]] =~= pick5(s, a, b, c, d, e));
    let (a2, b2, c2, d2, e2) = choose|a2: int, b2: int, c2: int, d2: int, e2: int|
        is_five_subset(t.len() as int, a2, b2, c2, d2, e2) && #[trigger] subset_score(t, a2, b2, c2, d2, e2)
            == eval5_score(seq![t[qa], t[qb], t[qc], t[qd], t[qe]]);
    assert(hand_compare(subset_score(t, a2, b2, c2, d2, e2), h) <= 0);
}

/// The best hand does not depend on the order of the cards: swapping any
/// two of them (and so any reordering, which is a run of swaps) leaves it
/// unchanged.
pub proof fn lemma_best_hand_ignores_order(s: Seq<Card>, i: int, j: int, h1: HandScore, h2: HandScore)
    requires
        0 <= i < s.len(),
        0 <= j < s.len(),
        is_best_hand(s, h1),
        is_best_hand(s.update(i, s[j]).update(j, s[i]), h2),
    ensures
        h1 == h2,
{
    let t = s.update(i, s[j]).update(j, s[i]);
    assert(t.update(i, t[j]).update(j, t[i]) =~= s);
    let (a, b, c, d, e) = choose|a: int, b: int, c: int, d: int, e: int|
        is_five_subset(s.len() as int, a, b, c, d, e) && #[trigger] subset_score(s, a, b, c, d, e) == h1;
    lemma_swap_bounds_subsets(s, i, j, h2, a, b, c, d, e);
    let (a2, b2, c2, d2, e2) = choose|a: int, b: int, c: int, d: int, e: int|
        is_five_subset(t.len() as int, a, b, c, d, e) && #[trigger] subset_score(t, a, b, c, d, e) == h2;
    lemma_swap_bounds_subsets(t, i, j, h1, a2, b2, c2, d2, e2);
    lemma_hand_compare_antisymmetric(h1, h2);
}


// ---------------------------------------------------------------------------
// Describing a hand in words
// ---------------------------------------------------------------------------

/// The name of a rank value ("Two" ... "Ace").
pub open spec fn rank_word(v: u8) -> Seq<char> {
    if v == 2 {
        "Two"@
    } else if v == 3 {
        "Three"@
    } else if v == 4 {
        "Four"@
    } else if v == 5 {
        "Five"@
    } else if v == 6 {
        "Six"@
    } else if v == 7 {
        "Seven"@
    } else if v == 8 {
        "Eight"@
    } else if v == 9 {
        "Nine"@
    } else if v == 10 {
        "Ten"@
    } else if v == 11 {
        "Jack"@
    } else if v == 12 {
        "Queen"@
    } else if v == 13 {
        "King"@
    } else if v == 14 {
        "Ace"@
    } else {
        "?"@
    }
}

/// The plural name of a rank value ("Twos" ... "Aces").
pub open spec fn rank_plural(v: u8) -> Seq<char> {
    if v == 2 {
        "Twos"@
    } else if v == 3 {
        "Threes"@
    } else if v == 4 {
        "Fours"@
    } else if v == 5 {
        "Fives"@
    } else if v == 6 {
        "Sixes"@
    } else if v == 7 {
        "Sevens"@
    } else if v == 8 {
        "Eights"@
    } else if v == 9 {
        "Nines"@
    } else if v == 10 {
        "Tens"@
    } else if v == 11 {
        "Jacks"@
    } else if v == 12 {
        "Queens"@
    } else if v == 13 {
        "Kings"@
    } else if v == 14 {
        "Aces"@
    } else {
        "?"@
    }
}

/// The indefinite article for a rank name ("an Eight", "an Ace", "a King").
pub open spec fn article(v: u8) -> Seq<char> {
    if v == 8 || v == 14 { "an "@ } else { "a "@ }
}

/// The `i`-th tiebreaker, or 0 when there is none.
pub open spec fn tiebreak_at(h: HandScore, i: int) -> u8 {
    if 0 <= i < h.tiebreak.len() { h.tiebreak[i] } else { 0 }
}

/// A hand in words, e.g. "a Pair of Kings", "Two Pair, Kings & Eights",
/// "a Full House, Aces full of Tens", "a Nine-high Straight".
pub open spec fn describe_text(h: HandScore) -> Seq<char> {
    let t0 = tiebreak_at(h, 0);
    let t1 = tiebreak_at(h, 1);
    match h.category {
        HandCategory::HighCard => rank_word(t0) + "-high"@,
        HandCategory::Pair => "a Pair of "@ + rank_plural(t0),
        HandCategory::TwoPair => "Two Pair, "@ + rank_plural(t0) + " & "@ + rank_plural(t1),
        HandCategory::Trips => "Three "@ + rank_plural(t0),
        HandCategory::Straight => article(t0) + rank_word(t0) + "-high Straight"@,
        HandCategory::Flush => article(t0) + rank_word(t0) + "-high Flush"@,
        HandCategory::FullHouse => "a Full House, "@ + rank_plural(t0) + " full of "@ + rank_plural(t1),
        HandCategory::Quads => "Four "@ + rank_plural(t0),
        HandCategory::StraightFlush => if t0 == 14 {
            "a Royal Flush"@
        } else {
            article(t0) + rank_word(t0) + "-high Straight Flush"@
        },
    }
}

fn rank_word_str(v: u8) -> (s: &'static str)
    ensures
        s@ == rank_word(v),
{
    match v {
        2 => "Two",
        3 => "Three",
        4 => "Four",
        5 => "Five",
        6 => "Six",
        7 => "Seven",
        8 => "Eight",
        9 => "Nine",
        10 => "Ten",
        11 => "Jack",
        12 => "Queen",
        13 => "King",
        14 => "Ace",
        _ => "?",
    }
}

fn rank_plural_str(v: u8) -> (s: &'static str)
    ensures
        s@ == rank_plural(v),
{
    match v {
        2 => "Twos",
        3 => "Threes",
        4 => "Fours",
        5 => "Fives",
        6 => "Sixes",
        7 => "Sevens",
        8 => "Eights",
        9 => "Nines",
        10 => "Tens",
        11 => "Jacks",
        12 => "Queens",
        13 => "Kings",
        14 => "Aces",
        _ => "?",
    }
}

fn article_str(v: u8) -> (s: &'static str)
    ensures
        s@ == article(v),
{
    if v == 8 || v == 14 { "an " } else { "a " }
}

impl HandValue {
    fn tiebreak_at(&self, i: usize) -> (t: u8)
        ensures
            t == tiebreak_at(self@, i as int),
    {
        if i < self.tiebreak.len() { self.tiebreak[i] } else { 0 }
    }

    /// The hand in words, for showdown banners.
    pub fn describe(&self) -> (s: String)
        ensures
            s@ == describe_text(self@),
    {
        let t0 = self.tiebreak_at(0);
        let t1 = self.tiebreak_at(1);
        let mut s = String::new();
        match self.category {
            HandCategory::HighCard => {
                s.append(rank_word_str(t0));
                s.append("-high");
            },
            HandCategory::Pair => {
                s.append("a Pair of ");
                s.append(rank_plural_str(t0));
            },
            HandCategory::TwoPair => {
                s.append("Two Pair, ");
                s.append(rank_plural_str(t0));
                s.append(" & ");
                s.append(rank_plural_str(t1));
            },
            HandCategory::Trips => {
                s.append("Three ");
                s.append(rank_plural_str(t0));
            },
            HandCategory::Straight => {
                s.append(article_str(t0));
                s.append(rank_word_str(t0));
                s.append("-high Straight");
            },
            HandCategory::Flush => {
                s.append(article_str(t0));
                s.append(rank_word_str(t0));
                s.append("-high Flush");
            },
            HandCategory::FullHouse => {
                s.append("a Full House, ");
                s.append(rank_plural_str(t0));
                s.append(" full of ");
                s.append(rank_plural_str(t1));
            },
            HandCategory::Quads => {
                s.append("Four ");
                s.append(rank_plural_str(t0));
            },
            HandCategory::StraightFlush => {
                if t0 == 14 {
                    s.append("a Royal Flush");
                } else {
                    s.append(article_str(t0));
                    s.append(rank_word_str(t0));
                    s.append("-high Straight Flush");
                }
            },
        }
        assert(s@ =~= describe_text(self@));
        s
    }
}

} // verus!
