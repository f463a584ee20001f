//! Ranks, suits and cards.

use vstd::prelude::*;

verus! {

/// Ranks in ascending order, so the derived `Ord` matches poker strength.
#[derive(Clone, Copy, PartialEq, Eq, Structural, PartialOrd, Ord, Debug, Hash)]
pub enum Rank {
    Two,
    Three,
    Four,
    Five,
    Six,
    Seven,
    Eight,
    Nine,
    Ten,
    Jack,
    Queen,
    King,
    Ace,
}

/// Numeric value 2..=14 of a rank (Ace high).
pub open spec fn rank_value(r: Rank) -> u8 {
    match r {
        Rank::Two => 2,
        Rank::Three => 3,
        Rank::Four => 4,
        Rank::Five => 5,
        Rank::Six => 6,
        Rank::Seven => 7,
        Rank::Eight => 8,
        Rank::Nine => 9,
        Rank::Ten => 10,
        Rank::Jack => 11,
        Rank::Queen => 12,
        Rank::King => 13,
        Rank::Ace => 14,
    }
}

impl Rank {
    /// Numeric value 2..=14 (Ace high).
    pub fn value(self) -> (v: u8)
        ensures
            v == rank_value(self),
            2 <= v <= 14,
    {
        match self {
            Rank::Two => 2,
            Rank::Three => 3,
            Rank::Four => 4,
            Rank::Five => 5,
            Rank::Six => 6,
            Rank::Seven => 7,
            Rank::Eight => 8,
            Rank::Nine => 9,
            Rank::Ten => 10,
            Rank::Jack => 11,
            Rank::Queen => 12,
            Rank::King => 13,
            Rank::Ace => 14,
        }
    }

    pub const ALL: [Rank; 13] = [
        Rank::Two,
        Rank::Three,
        Rank::Four,
        Rank::Five,
        Rank::Six,
        Rank::Seven,
        Rank::Eight,
        Rank::Nine,
        Rank::Ten,
        Rank::Jack,
        Rank::Queen,
        Rank::King,
        Rank::Ace,
    ];
}


/// Single-character label of a rank, as used by the card art file names.
pub open spec fn rank_label(r: Rank) -> char {
    match r {
        Rank::Two => '2',
        Rank::Three => '3',
        Rank::Four => '4',
        Rank::Five => '5',
        Rank::Six => '6',
        Rank::Seven => '7',
        Rank::Eight => '8',
        Rank::Nine => '9',
        Rank::Ten => 'T',
        Rank::Jack => 'J',
        Rank::Queen => 'Q',
        Rank::King => 'K',
        Rank::Ace => 'A',
    }
}

impl Rank {
    /// Single-character label used by the card art filenames (`T`, `J`, ...).
    pub fn label(self) -> (c: char)
        ensures
            c == rank_label(self),
    {
        match self {
            Rank::Two => '2',
            Rank::Three => '3',
            Rank::Four => '4',
            Rank::Five => '5',
            Rank::Six => '6',
            Rank::Seven => '7',
            Rank::Eight => '8',
            Rank::Nine => '9',
            Rank::Ten => 'T',
            Rank::Jack => 'J',
            Rank::Queen => 'Q',
            Rank::King => 'K',
            Rank::Ace => 'A',
        }
    }

    /// The label as a one-character string slice.
    fn label_str(self) -> (s: &'static str)
        ensures
            s@ == seq![rank_label(self)],
    {
        match self {
            Rank::Two => { proof { reveal_strlit("2"); } "2" },
            Rank::Three => { proof { reveal_strlit("3"); } "3" },
            Rank::Four => { proof { reveal_strlit("4"); } "4" },
            Rank::Five => { proof { reveal_strlit("5"); } "5" },
            Rank::Six => { proof { reveal_strlit("6"); } "6" },
            Rank::Seven => { proof { reveal_strlit("7"); } "7" },
            Rank::Eight => { proof { reveal_strlit("8"); } "8" },
            Rank::Nine => { proof { reveal_strlit("9"); } "9" },
            Rank::Ten => { proof { reveal_strlit("T"); } "T" },
            Rank::Jack => { proof { reveal_strlit("J"); } "J" },
            Rank::Queen => { proof { reveal_strlit("Q"); } "Q" },
            Rank::King => { proof { reveal_strlit("K"); } "K" },
            Rank::Ace => { proof { reveal_strlit("A"); } "A" },
        }
    }
}

#[derive(Clone, Copy, PartialEq, Eq, Structural, Debug, Hash)]
pub enum Suit {
    Clubs,
    Diamonds,
    Hearts,
    Spades,
}

/// Single-character label of a suit.
pub open spec fn suit_label(s: Suit) -> char {
    match s {
        Suit::Clubs => 'c',
        Suit::Diamonds => 'd',
        Suit::Hearts => 'h',
        Suit::Spades => 's',
    }
}

impl Suit {
    /// Single-character label used by the card art filenames (`c`, `d`, ...).
    pub fn label(self) -> (c: char)
        ensures
            c == suit_label(self),
    {
        match self {
            Suit::Clubs => 'c',
            Suit::Diamonds => 'd',
            Suit::Hearts => 'h',
            Suit::Spades => 's',
        }
    }

    fn label_str(self) -> (s: &'static str)
        ensures
            s@ == seq![suit_label(self)],
    {
        match self {
            Suit::Clubs => { proof { reveal_strlit("c"); } "c" },
            Suit::Diamonds => { proof { reveal_strlit("d"); } "d" },
            Suit::Hearts => { proof { reveal_strlit("h"); } "h" },
            Suit::Spades => { proof { reveal_strlit("s"); } "s" },
        }
    }

    pub const ALL: [Suit; 4] = [Suit::Clubs, Suit::Diamonds, Suit::Hearts, Suit::Spades];
}

#[derive(Clone, Copy, PartialEq, Eq, Structural, Debug, Hash)]
pub struct Card {
    pub rank: Rank,
    pub suit: Suit,
}

/// The two-character code of a card, e.g. `As`, `Th`, `2c`.
pub open spec fn card_code(c: Card) -> Seq<char> {
    seq![rank_label(c.rank), suit_label(c.suit)]
}

impl Card {
    pub fn new(rank: Rank, suit: Suit) -> (c: Card)
        ensures
            c.rank == rank,
            c.suit == suit,
    {
        Card { rank, suit }
    }

    /// e.g. `"As"`, `"Th"`, `"2c"`: matches the `cards/<code>.png` art.
    pub fn code(self) -> (s: String)
        ensures
            s@ == card_code(self),
    {
        let r = String::from_str(self.rank.label_str());
        let s = r.concat(self.suit.label_str());
        assert(s@ =~= card_code(self));
        s
    }
}

/// Two different cards never share a code.
pub proof fn lemma_code_injective(a: Card, b: Card)
    requires
        card_code(a) == card_code(b),
    ensures
        a == b,
{
    assert(card_code(a)[0] == card_code(b)[0]);
    assert(card_code(a)[1] == card_code(b)[1]);
}

} // verus!
