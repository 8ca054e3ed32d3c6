use vstd::prelude::*;
use crate::text::{push_char, push_decimal, string_of, digit_to_char};

verus! {

/// Sentinel for a turn or river card that has not been dealt yet.
pub const NOT_DEALT: u8 = 0xFF;

/// Number of distinct two-card hands.
pub const NUM_PAIRS: usize = 1326;

/// Rank of a card id: 0 for a deuce, up to 12 for an ace.
pub open spec fn rank_of(card: int) -> int {
    card / 4
}

/// Suit of a card id: 0, 1, 2, 3 for clubs, diamonds, hearts, spades.
pub open spec fn suit_of(card: int) -> int {
    card % 4
}

/// Number of card pairs `(a, b)` with `a < b` whose first card is below `c`.
pub open spec fn pairs_before(c: int) -> int
    decreases c,
{
    if c <= 0 {
        0
    } else {
        pairs_before(c - 1) + (52 - c)
    }
}

/// Index of the unordered pair `{lo, hi}` with `lo < hi`: pairs are numbered in
/// lexicographic order of `(lo, hi)`.
pub open spec fn pair_index(lo: int, hi: int) -> int {
    pairs_before(lo) + (hi - lo - 1)
}

} // verus!

verus! {

/// `pairs_before` in closed form.
pub proof fn lemma_pairs_before_closed(c: int)
    requires
        0 <= c,
    ensures
        2 * pairs_before(c) == c * (103 - c),
    decreases c,
{
    if c > 0 {
        lemma_pairs_before_closed(c - 1);
        assert(pairs_before(c) == pairs_before(c - 1) + (52 - c));
        assert(c * (103 - c) == (c - 1) * (103 - (c - 1)) + 2 * (52 - c)) by (nonlinear_arith);
    } else {
        assert(c * (103 - c) == 0) by (nonlinear_arith)
            requires
                c == 0,
        ;
    }
}

/// `pairs_before` is monotone on `0..=52`.
pub proof fn lemma_pairs_before_mono(a: int, b: int)
    requires
        0 <= a <= b <= 52,
    ensures
        pairs_before(a) <= pairs_before(b),
    decreases b - a,
{
    if a < b {
        lemma_pairs_before_mono(a, b - 1);
    }
}

/// Every pair of distinct cards gets an index in `0..1326`, and distinct pairs get
/// distinct indices.
pub proof fn lemma_pair_index_bijective(a: int, b: int, c: int, d: int)
    requires
        0 <= a < b < 52,
        0 <= c < d < 52,
    ensures
        0 <= pair_index(a, b) < NUM_PAIRS,
        pair_index(a, b) == pair_index(c, d) <==> (a == c && b == d),
{
    lemma_pairs_before_mono(0, a);
    lemma_pairs_before_mono(a + 1, 52);
    lemma_pairs_before_closed(52);
    assert(pairs_before(a + 1) == pairs_before(a) + (51 - a));
    assert(pairs_before(c + 1) == pairs_before(c) + (51 - c));
    if a < c {
        lemma_pairs_before_mono(a + 1, c);
    } else if c < a {
        lemma_pairs_before_mono(c + 1, a);
    }
}

/// Returns the index of the two-card hand made of `card1` and `card2`, in either order.
///
/// Card ids: 2c2d2h2s are `0..4`, 3c3d3h3s are `4..8`, ..., AcAdAhAs are `48..52`.
pub fn card_pair_index(card1: u8, card2: u8) -> (r: usize)
    requires
        card1 < 52,
        card2 < 52,
        card1 != card2,
    ensures
        card1 < card2 ==> r == pair_index(card1 as int, card2 as int),
        card2 < card1 ==> r == pair_index(card2 as int, card1 as int),
        r < NUM_PAIRS,
{
    let (lo, hi) = if card1 < card2 { (card1, card2) } else { (card2, card1) };
    let lo = lo as usize;
    let hi = hi as usize;
    proof {
        lemma_pairs_before_closed(lo as int);
        lemma_pair_index_bijective(lo as int, hi as int, lo as int, hi as int);
        assert(lo * (101 - lo) == lo * (103 - lo) - 2 * lo) by (nonlinear_arith);
        assert(0 <= lo * (101 - lo) <= 2600) by (nonlinear_arith)
            requires lo < 52;
    }
    lo * (101 - lo) / 2 + hi - 1
}

/// Rank of a rank character: `'A'` is 12, `'K'` 11, ..., `'2'` 0.
pub open spec fn rank_of_char(c: char) -> Option<int> {
    if c == 'A' {
        Some(12)
    } else if c == 'K' {
        Some(11)
    } else if c == 'Q' {
        Some(10)
    } else if c == 'J' {
        Some(9)
    } else if c == 'T' {
        Some(8)
    } else if '2' <= c <= '9' {
        Some(c as int - '2' as int)
    } else {
        None
    }
}

/// Suit of a suit character: `'c'`, `'d'`, `'h'`, `'s'` are 0 to 3.
pub open spec fn suit_of_char(c: char) -> Option<int> {
    if c == 'c' {
        Some(0)
    } else if c == 'd' {
        Some(1)
    } else if c == 'h' {
        Some(2)
    } else if c == 's' {
        Some(3)
    } else {
        None
    }
}

/// Character of a rank `r < 13`.
pub open spec fn rank_char(r: int) -> char {
    if r == 12 {
        'A'
    } else if r == 11 {
        'K'
    } else if r == 10 {
        'Q'
    } else if r == 9 {
        'J'
    } else if r == 8 {
        'T'
    } else {
        (r + '2' as int) as char
    }
}

/// Character of a suit `s < 4`.
pub open spec fn suit_char(s: int) -> char {
    if s == 0 {
        'c'
    } else if s == 1 {
        'd'
    } else if s == 2 {
        'h'
    } else {
        's'
    }
}

/// Rank and suit characters are read back as the rank and suit they print.
pub proof fn lemma_chars_round_trip(r: int, s: int)
    requires
        0 <= r < 13,
        0 <= s < 4,
    ensures
        rank_of_char(rank_char(r)) == Some(r),
        suit_of_char(suit_char(s)) == Some(s),
{
}

/// Attempts to convert a rank character to a rank index.
///
/// `'A'` => `12`, `'K'` => `11`, ..., `'2'` => `0`.
pub fn char_to_rank(c: char) -> (r: Result<u8, String>)
    ensures
        r is Ok <==> rank_of_char(c) is Some,
        r is Ok ==> Some(r->Ok_0 as int) == rank_of_char(c),
{
    match c {
        'A' => Ok(12),
        'K' => Ok(11),
        'Q' => Ok(10),
        'J' => Ok(9),
        'T' => Ok(8),
        '2'..='9' => Ok(((c as u32) - ('2' as u32)) as u8),
        _ => {
            let mut e = string_of("invalid input: ");
            push_char(&mut e, c);
            Err(e)
        },
    }
}

/// Attempts to convert a suit character to a suit index.
///
/// `'c'` => `0`, `'d'` => `1`, `'h'` => `2`, `'s'` => `3`.
pub fn char_to_suit(c: char) -> (r: Result<u8, String>)
    ensures
        r is Ok <==> suit_of_char(c) is Some,
        r is Ok ==> Some(r->Ok_0 as int) == suit_of_char(c),
{
    match c {
        'c' => Ok(0),
        'd' => Ok(1),
        'h' => Ok(2),
        's' => Ok(3),
        _ => {
            let mut e = string_of("invalid input: ");
            push_char(&mut e, c);
            Err(e)
        },
    }
}

/// Attempts to convert a rank index to a rank character.
///
/// `12` => `'A'`, `11` => `'K'`, ..., `0` => `'2'`.
pub fn rank_to_char(rank: u8) -> (r: Result<char, String>)
    ensures
        r is Ok <==> rank < 13,
        r is Ok ==> r->Ok_0 == rank_char(rank as int),
{
    match rank {
        12 => Ok('A'),
        11 => Ok('K'),
        10 => Ok('Q'),
        9 => Ok('J'),
        8 => Ok('T'),
        0..=7 => Ok(digit_to_char(rank + 2)),
        _ => {
            let mut e = string_of("invalid input: ");
            push_decimal(&mut e, rank as u64);
            Err(e)
        },
    }
}

/// Attempts to convert a suit index to a suit character.
///
/// `0` => `'c'`, `1` => `'d'`, `2` => `'h'`, `3` => `'s'`.
pub fn suit_to_char(suit: u8) -> (r: Result<char, String>)
    ensures
        r is Ok <==> suit < 4,
        r is Ok ==> r->Ok_0 == suit_char(suit as int),
{
    match suit {
        0 => Ok('c'),
        1 => Ok('d'),
        2 => Ok('h'),
        3 => Ok('s'),
        _ => {
            let mut e = string_of("invalid input: ");
            push_decimal(&mut e, suit as u64);
            Err(e)
        },
    }
}

/// Checks that `card` is a card id.
pub fn check_card(card: u8) -> (r: Result<(), String>)
    ensures
        r is Ok <==> card < 52,
{
    if card < 52 {
        Ok(())
    } else {
        let mut e = string_of("Invalid card: ");
        push_decimal(&mut e, card as u64);
        Err(e)
    }
}

/// Checks that `rank` is a rank index.
pub fn check_rank(rank: u8) -> (r: Result<(), String>)
    ensures
        r is Ok <==> rank < 13,
{
    if rank < 13 {
        Ok(())
    } else {
        let mut e = string_of("Invalid rank: ");
        push_decimal(&mut e, rank as u64);
        Err(e)
    }
}

/// The two cards, lower first, of the hand with index `i < 1326`.
pub open spec fn pair_cards(i: int) -> (int, int) {
    choose|p: (int, int)| 0 <= p.0 < p.1 < 52 && pair_index(p.0, p.1) == i
}

/// `pair_cards` inverts `pair_index`.
pub proof fn lemma_pair_cards(a: int, b: int)
    requires
        0 <= a < b < 52,
    ensures
        pair_cards(pair_index(a, b)) == (a, b),
{
    let i = pair_index(a, b);
    assert(0 <= (a, b).0 < (a, b).1 < 52 && pair_index((a, b).0, (a, b).1) == i);
    let p = pair_cards(i);
    lemma_pair_index_bijective(a, b, p.0, p.1);
}

/// The hand that follows `(a, b)` in index order.
pub open spec fn next_pair(a: int, b: int) -> (int, int) {
    if b + 1 < 52 {
        (a, b + 1)
    } else {
        (a + 1, a + 2)
    }
}

/// Consecutive hands in index order have consecutive indices.
pub proof fn lemma_next_pair(a: int, b: int)
    requires
        0 <= a < b < 52,
        pair_index(a, b) + 1 < NUM_PAIRS,
    ensures
        0 <= next_pair(a, b).0 < next_pair(a, b).1 < 52,
        pair_index(next_pair(a, b).0, next_pair(a, b).1) == pair_index(a, b) + 1,
{
    if b + 1 >= 52 {
        assert(pairs_before(a + 1) == pairs_before(a) + (51 - a));
        if a + 1 >= 51 {
            lemma_pairs_before_closed(51);
            assert(false);
        }
    }
}

/// Every index below 1326 is that of a hand, so `pair_cards` finds it.
pub proof fn lemma_pair_cards_onto(i: int)
    requires
        0 <= i < NUM_PAIRS,
    ensures
        0 <= pair_cards(i).0 < pair_cards(i).1 < 52,
        pair_index(pair_cards(i).0, pair_cards(i).1) == i,
{
    lemma_pairs_before_closed(52);
    lemma_onto_from(i, 0);
}

proof fn lemma_onto_from(i: int, a: int)
    requires
        0 <= a <= 51,
        pairs_before(a) <= i < NUM_PAIRS,
    ensures
        0 <= pair_cards(i).0 < pair_cards(i).1 < 52,
        pair_index(pair_cards(i).0, pair_cards(i).1) == i,
    decreases 51 - a,
{
    assert(pairs_before(a + 1) == pairs_before(a) + (51 - a));
    if i < pairs_before(a + 1) {
        let b = i - pairs_before(a) + a + 1;
        assert(0 <= (a, b).0 < (a, b).1 < 52 && pair_index((a, b).0, (a, b).1) == i);
    } else {
        if a + 1 > 51 {
            lemma_pairs_before_closed(52);
            assert(false);
        }
        lemma_onto_from(i, a + 1);
    }
}

} // verus!
