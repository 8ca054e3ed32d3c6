use vstd::prelude::*;
use crate::card::{
    card_pair_index, check_card, check_rank, lemma_next_pair, lemma_pair_cards,
    lemma_pair_cards_onto, lemma_pair_index_bijective, next_pair, pair_cards, pair_index, rank_of,
    suit_of, NUM_PAIRS,
};
use crate::text::{push_decimal, string_of, error_with, push_char, push_text, digit_char, digit_to_char};
use crate::range_print::{class_ok, class_text, join_commas, lemma_read_joined, lemma_token_text, span_ok, span_text, token_text};
use crate::card::{rank_of_char, suit_of_char, char_to_rank, char_to_suit, rank_char, suit_char};
use crate::range_text::{
    first_index, is_combo, is_digit, is_prob, range_tokens, squeeze, token_parts, chars_of,
    find_char, slice_chars, split_token, split_tokens, squeeze_chars, string_of_chars,
};

verus! {

/// Probability 1 in the fixed-point unit of a range: probabilities are in millionths.
pub const PROB_ONE: u32 = 1_000_000;

/// Which suit combinations of a rank pair a hand class holds.
#[derive(Clone, Copy, Debug, PartialEq, Eq, Structural)]
pub enum Suitedness {
    Suited,
    Offsuit,
    All,
    Specific(u8, u8),
}

/// Cards `lo < hi` make a hand of the class `r1`, `r2`, `s`: ranks `r1` and `r2` (a pair when
/// equal), with suits as `s` says, `Specific` giving the suit of the `r1` card first.
pub open spec fn in_group(lo: int, hi: int, r1: int, r2: int, s: Suitedness) -> bool {
    let ra = rank_of(lo);
    let rb = rank_of(hi);
    let sa = suit_of(lo);
    let sb = suit_of(hi);
    if r1 == r2 {
        ra == r1 && rb == r1 && match s {
            Suitedness::All => true,
            Suitedness::Specific(x, y) => (sa == x && sb == y) || (sa == y && sb == x),
            _ => false,
        }
    } else {
        let s1 = if ra == r1 {
            sa
        } else {
            sb
        };
        let s2 = if ra == r1 {
            sb
        } else {
            sa
        };
        ((ra == r1 && rb == r2) || (ra == r2 && rb == r1)) && match s {
            Suitedness::Suited => s1 == s2,
            Suitedness::Offsuit => s1 != s2,
            Suitedness::All => true,
            Suitedness::Specific(x, y) => s1 == x && s2 == y,
        }
    }
}

/// The hand with index `i` belongs to the class `r1`, `r2`, `s`.
pub open spec fn in_group_at(i: int, r1: int, r2: int, s: Suitedness) -> bool {
    in_group(pair_cards(i).0, pair_cards(i).1, r1, r2, s)
}

/// Indices below `n` of the hands of a class, in increasing order.
pub open spec fn members_upto(n: int, r1: int, r2: int, s: Suitedness) -> Seq<usize>
    decreases n,
{
    if n <= 0 {
        Seq::empty()
    } else if in_group_at(n - 1, r1, r2, s) {
        members_upto(n - 1, r1, r2, s).push((n - 1) as usize)
    } else {
        members_upto(n - 1, r1, r2, s)
    }
}

/// Indices of the hands of a class, in increasing order.
pub open spec fn members(r1: int, r2: int, s: Suitedness) -> Seq<usize> {
    members_upto(NUM_PAIRS as int, r1, r2, s)
}

proof fn lemma_members_upto(n: int, r1: int, r2: int, s: Suitedness)
    requires
        0 <= n <= NUM_PAIRS,
    ensures
        forall|k: int| 0 <= k < members_upto(n, r1, r2, s).len() ==> (#[trigger] members_upto(n, r1, r2, s)[k]) < n
            && in_group_at(members_upto(n, r1, r2, s)[k] as int, r1, r2, s),
        forall|i: int| 0 <= i < n && in_group_at(i, r1, r2, s) ==> #[trigger] members_upto(n, r1, r2, s).contains(i as usize),
        members_upto(n, r1, r2, s).no_duplicates(),
        members_upto(n, r1, r2, s).len() <= n,
    decreases n,
{
    if n > 0 {
        lemma_members_upto(n - 1, r1, r2, s);
        let prev = members_upto(n - 1, r1, r2, s);
        let cur = members_upto(n, r1, r2, s);
        assert forall|i: int| 0 <= i < n && in_group_at(i, r1, r2, s) implies #[trigger] cur.contains(i as usize) by {
            if i < n - 1 {
                assert(prev.contains(i as usize));
                let k = choose|k: int| 0 <= k < prev.len() && prev[k] == i as usize;
                assert(cur[k] == i as usize);
            } else {
                assert(cur[cur.len() - 1] == i as usize);
            }
        }
    }
}

/// Whether cards `lo < hi` make a hand of the class `r1`, `r2`, `s`.
fn group_member(lo: u8, hi: u8, r1: u8, r2: u8, s: Suitedness) -> (r: bool)
    requires
        lo < hi < 52,
    ensures
        r == in_group(lo as int, hi as int, r1 as int, r2 as int, s),
{
    let ra = lo / 4;
    let rb = hi / 4;
    let sa = lo % 4;
    let sb = hi % 4;
    if r1 == r2 {
        ra == r1 && rb == r1 && match s {
            Suitedness::All => true,
            Suitedness::Specific(x, y) => (sa == x && sb == y) || (sa == y && sb == x),
            _ => false,
        }
    } else {
        let s1 = if ra == r1 {
            sa
        } else {
            sb
        };
        let s2 = if ra == r1 {
            sb
        } else {
            sa
        };
        ((ra == r1 && rb == r2) || (ra == r2 && rb == r1)) && match s {
            Suitedness::Suited => s1 == s2,
            Suitedness::Offsuit => s1 != s2,
            Suitedness::All => true,
            Suitedness::Specific(x, y) => s1 == x && s2 == y,
        }
    }
}

/// A class a pair can have: all six hands, or two given cards.
pub open spec fn pair_class_ok(rank1: int, rank2: int, s: Suitedness) -> bool {
    rank1 == rank2 ==> (s is All || s is Specific)
}

/// Indices of the hands of a class, in increasing order.
fn indices_with_suitedness(rank1: u8, rank2: u8, suitedness: Suitedness) -> (r: Vec<usize>)
    requires
        pair_class_ok(rank1 as int, rank2 as int, suitedness),
    ensures
        r@ == members(rank1 as int, rank2 as int, suitedness),
{
    let mut r: Vec<usize> = Vec::new();
    let mut i: usize = 0;
    let mut c1: u8 = 0;
    let mut c2: u8 = 1;
    while i < NUM_PAIRS
        invariant
            i <= NUM_PAIRS,
            c1 < c2 < 52,
            i < NUM_PAIRS ==> pair_index(c1 as int, c2 as int) == i,
            r@ == members_upto(i as int, rank1 as int, rank2 as int, suitedness),
        decreases NUM_PAIRS - i,
    {
        proof {
            lemma_pair_cards(c1 as int, c2 as int);
        }
        if group_member(c1, c2, rank1, rank2, suitedness) {
            r.push(i);
        }
        if i + 1 < NUM_PAIRS {
            proof {
                lemma_next_pair(c1 as int, c2 as int);
            }
            if c2 + 1 < 52 {
                c2 = c2 + 1;
            } else {
                c1 = c1 + 1;
                c2 = c1 + 1;
            }
        }
        i = i + 1;
    }
    r
}

/// Indices of the six hands of a pair.
pub fn pair_indices(rank: u8) -> (r: Vec<usize>)
    ensures
        r@ == members(rank as int, rank as int, Suitedness::All),
{
    indices_with_suitedness(rank, rank, Suitedness::All)
}

/// Indices of the sixteen hands of two distinct ranks.
pub fn nonpair_indices(rank1: u8, rank2: u8) -> (r: Vec<usize>)
    ensures
        r@ == members(rank1 as int, rank2 as int, Suitedness::All),
{
    indices_with_suitedness(rank1, rank2, Suitedness::All)
}

/// Indices of the four suited hands of two distinct ranks.
pub fn suited_indices(rank1: u8, rank2: u8) -> (r: Vec<usize>)
    requires
        rank1 != rank2,
    ensures
        r@ == members(rank1 as int, rank2 as int, Suitedness::Suited),
{
    indices_with_suitedness(rank1, rank2, Suitedness::Suited)
}

/// Indices of the twelve offsuit hands of two distinct ranks.
pub fn offsuit_indices(rank1: u8, rank2: u8) -> (r: Vec<usize>)
    requires
        rank1 != rank2,
    ensures
        r@ == members(rank1 as int, rank2 as int, Suitedness::Offsuit),
{
    indices_with_suitedness(rank1, rank2, Suitedness::Offsuit)
}

/// A player's range: for each of the 1326 hands, the probability that the player holds it,
/// in millionths (`PROB_ONE` is 1).
#[derive(Clone, Debug, PartialEq, Eq)]
pub struct Range {
    data: Vec<u32>,
}

impl View for Range {
    type V = Seq<u32>;

    closed spec fn view(&self) -> Seq<u32> {
        self.data@
    }
}

/// Probabilities of all hands, each at most 1.
pub open spec fn probs_ok(d: Seq<u32>) -> bool {
    &&& d.len() == NUM_PAIRS
    &&& forall|i: int| 0 <= i < d.len() ==> #[trigger] d[i] <= PROB_ONE
}

/// Sum of the probabilities of the listed hands.
pub open spec fn listed_total(d: Seq<u32>, idx: Seq<usize>) -> int
    decreases idx.len(),
{
    if idx.len() == 0 {
        0
    } else {
        listed_total(d, idx.drop_last()) + d[idx.last() as int]
    }
}

/// Every hand of the class has the same probability.
pub open spec fn uniform(d: Seq<u32>, r1: int, r2: int, s: Suitedness) -> bool {
    forall|a: int, b: int|
        0 <= a < NUM_PAIRS && 0 <= b < NUM_PAIRS && in_group_at(a, r1, r2, s) && in_group_at(b, r1, r2, s)
            ==> #[trigger] d[a] == #[trigger] d[b]
}

/// Average probability of the hands of a class, rounded down.
pub open spec fn average(d: Seq<u32>, r1: int, r2: int, s: Suitedness) -> int {
    let m = members(r1, r2, s);
    if m.len() == 0 {
        0
    } else {
        listed_total(d, m) / (m.len() as int)
    }
}

impl Default for Range {
    fn default() -> (r: Range)
        ensures
            r.wf(),
            forall|i: int| 0 <= i < NUM_PAIRS ==> #[trigger] r@[i] == 0,
    {
        Range::new()
    }
}

impl Range {
    /// Every probability is at most 1, one per hand.
    pub open spec fn wf(&self) -> bool {
        probs_ok(self@)
    }

    /// Probability of the hand made of cards `c1` and `c2`, in either order.
    pub open spec fn prob(&self, c1: int, c2: int) -> u32 {
        if c1 < c2 {
            self@[pair_index(c1, c2)]
        } else {
            self@[pair_index(c2, c1)]
        }
    }

    /// Creates an empty range.
    pub fn new() -> (r: Range)
        ensures
            r.wf(),
            forall|i: int| 0 <= i < NUM_PAIRS ==> #[trigger] r@[i] == 0,
    {
        Range { data: vec![0u32; NUM_PAIRS] }
    }

    /// Creates a full range.
    pub fn ones() -> (r: Range)
        ensures
            r.wf(),
            forall|i: int| 0 <= i < NUM_PAIRS ==> #[trigger] r@[i] == PROB_ONE,
    {
        Range { data: vec![PROB_ONE; NUM_PAIRS] }
    }

    /// Creates a range from the probabilities of all hands, by hand index.
    pub fn from_raw(data: &Vec<u32>) -> (r: Result<Range, String>)
        ensures
            r is Ok <==> probs_ok(data@),
            r is Ok ==> r->Ok_0@ == data@,
    {
        if data.len() != NUM_PAIRS {
            return Err(string_of("a range holds 1326 probabilities"));
        }
        let mut copy: Vec<u32> = Vec::new();
        let mut i: usize = 0;
        while i < NUM_PAIRS
            invariant
                data@.len() == NUM_PAIRS,
                i <= NUM_PAIRS,
                copy@ == data@.subrange(0, i as int),
                forall|j: int| 0 <= j < i ==> #[trigger] data@[j] <= PROB_ONE,
            decreases NUM_PAIRS - i,
        {
            if data[i] > PROB_ONE {
                return Err(string_of("a probability is above 1"));
            }
            copy.push(data[i]);
            i = i + 1;
            assert(copy@ =~= data@.subrange(0, i as int));
        }
        assert(data@.subrange(0, NUM_PAIRS as int) =~= data@);
        Ok(Range { data: copy })
    }

    /// The probabilities of all hands, by hand index.
    pub fn raw(&self) -> (r: &Vec<u32>)
        ensures
            r@ == self@,
    {
        &self.data
    }

    /// Obtains the probability by card indices.
    ///
    /// Card ids: 2c2d2h2s are `0..4`, 3c3d3h3s are `4..8`, ..., AcAdAhAs are `48..52`.
    pub fn get_prob_by_cards(&self, card1: u8, card2: u8) -> (r: u32)
        requires
            self.wf(),
            card1 < 52,
            card2 < 52,
            card1 != card2,
        ensures
            r == self.prob(card1 as int, card2 as int),
            r <= PROB_ONE,
    {
        self.data[card_pair_index(card1, card2)]
    }

    /// Sets the probability by card indices.
    pub fn set_prob_by_cards(&mut self, card1: u8, card2: u8, prob: u32) -> (r: Result<(), String>)
        requires
            old(self).wf(),
        ensures
            r is Ok <==> (card1 < 52 && card2 < 52 && card1 != card2 && prob <= PROB_ONE),
            final(self).wf(),
            r is Ok ==> final(self)@ == old(self)@.update(
                if card1 < card2 {
                    pair_index(card1 as int, card2 as int)
                } else {
                    pair_index(card2 as int, card1 as int)
                },
                prob,
            ),
            r is Err ==> final(self)@ == old(self)@,
    {
        check_card(card1)?;
        check_card(card2)?;
        if card1 == card2 {
            return Err(string_of("Duplicate cards are not allowed"));
        }
        check_prob(prob)?;
        let i = card_pair_index(card1, card2);
        self.data.set(i, prob);
        Ok(())
    }

    /// Sets the probabilities of the listed hands.
    fn set_prob(&mut self, indices: &Vec<usize>, prob: u32)
        requires
            old(self).wf(),
            prob <= PROB_ONE,
            forall|k: int| 0 <= k < indices@.len() ==> #[trigger] indices@[k] < NUM_PAIRS,
        ensures
            final(self).wf(),
            forall|i: int|
                0 <= i < NUM_PAIRS ==> #[trigger] final(self)@[i] == if indices@.contains(i as usize) {
                    prob
                } else {
                    old(self)@[i]
                },
    {
        let mut k: usize = 0;
        while k < indices.len()
            invariant
                probs_ok(self.data@),
                prob <= PROB_ONE,
                k <= indices@.len(),
                forall|q: int| 0 <= q < indices@.len() ==> #[trigger] indices@[q] < NUM_PAIRS,
                forall|i: int|
                    0 <= i < NUM_PAIRS ==> #[trigger] self.data@[i] == if indices@.subrange(0, k as int).contains(
                        i as usize,
                    ) {
                        prob
                    } else {
                        old(self)@[i]
                    },
            decreases indices@.len() - k,
        {
            let j = indices[k];
            self.data.set(j, prob);
            proof {
                assert forall|i: int| 0 <= i < NUM_PAIRS implies #[trigger] self.data@[i] == if indices@.subrange(
                    0,
                    k + 1,
                ).contains(i as usize) {
                    prob
                } else {
                    old(self)@[i]
                } by {
                    let sub = indices@.subrange(0, k + 1);
                    let pre = indices@.subrange(0, k as int);
                    assert(sub[k as int] == j);
                    if i != j {
                        if sub.contains(i as usize) {
                            let y = choose|y: int| 0 <= y < sub.len() && sub[y] == i as usize;
                            assert(pre[y] == i as usize);
                        }
                        if pre.contains(i as usize) {
                            let y = choose|y: int| 0 <= y < pre.len() && pre[y] == i as usize;
                            assert(sub[y] == i as usize);
                        }
                    }
                }
            }
            k = k + 1;
        }
        assert(indices@.subrange(0, indices@.len() as int) =~= indices@);
    }

    /// Sets the probability of every hand of a class.
    fn set_group(&mut self, rank1: u8, rank2: u8, suitedness: Suitedness, prob: u32)
        requires
            old(self).wf(),
            pair_class_ok(rank1 as int, rank2 as int, suitedness),
            prob <= PROB_ONE,
        ensures
            final(self).wf(),
            forall|i: int|
                0 <= i < NUM_PAIRS ==> #[trigger] final(self)@[i] == if in_group_at(
                    i,
                    rank1 as int,
                    rank2 as int,
                    suitedness,
                ) {
                    prob
                } else {
                    old(self)@[i]
                },
    {
        let idx = indices_with_suitedness(rank1, rank2, suitedness);
        proof {
            lemma_members_upto(NUM_PAIRS as int, rank1 as int, rank2 as int, suitedness);
        }
        self.set_prob(&idx, prob);
    }

    /// Sum of the probabilities of the listed hands.
    fn total_prob(&self, indices: &Vec<usize>) -> (r: u64)
        requires
            self.wf(),
            indices@.len() <= NUM_PAIRS,
            forall|k: int| 0 <= k < indices@.len() ==> #[trigger] indices@[k] < NUM_PAIRS,
        ensures
            r == listed_total(self@, indices@),
    {
        let mut sum: u64 = 0;
        let mut k: usize = 0;
        while k < indices.len()
            invariant
                probs_ok(self@),
                indices@.len() <= NUM_PAIRS,
                forall|q: int| 0 <= q < indices@.len() ==> #[trigger] indices@[q] < NUM_PAIRS,
                k <= indices@.len(),
                sum == listed_total(self@, indices@.subrange(0, k as int)),
                sum <= k * PROB_ONE,
            decreases indices@.len() - k,
        {
            let j = indices[k];
            assert(indices@.subrange(0, k + 1).drop_last() =~= indices@.subrange(0, k as int));
            sum = sum + self.data[j] as u64;
            k = k + 1;
        }
        assert(indices@.subrange(0, indices@.len() as int) =~= indices@);
        sum
    }

    /// Average probability of the listed hands, rounded down.
    fn get_average_prob(&self, indices: &Vec<usize>) -> (r: u32)
        requires
            self.wf(),
            1 <= indices@.len() <= NUM_PAIRS,
            forall|k: int| 0 <= k < indices@.len() ==> #[trigger] indices@[k] < NUM_PAIRS,
        ensures
            r == listed_total(self@, indices@) / (indices@.len() as int),
            r <= PROB_ONE,
    {
        let sum = self.total_prob(indices);
        proof {
            lemma_listed_total_bound(self@, indices@);
            let n = indices@.len() as int;
            assert(sum as int / n <= PROB_ONE) by (nonlinear_arith)
                requires sum <= n * PROB_ONE, n >= 1;
        }
        (sum / indices.len() as u64) as u32
    }

    /// Whether all the listed hands have the same probability.
    fn is_same_prob(&self, indices: &Vec<usize>) -> (r: bool)
        requires
            self.wf(),
            1 <= indices@.len(),
            forall|k: int| 0 <= k < indices@.len() ==> #[trigger] indices@[k] < NUM_PAIRS,
        ensures
            r <==> forall|k: int| 0 <= k < indices@.len() ==> #[trigger] self@[indices@[k] as int] == self@[indices@[0] as int],
    {
        let p = self.data[indices[0]];
        let mut k: usize = 1;
        while k < indices.len()
            invariant
                probs_ok(self@),
                1 <= k <= indices@.len(),
                forall|q: int| 0 <= q < indices@.len() ==> #[trigger] indices@[q] < NUM_PAIRS,
                p == self@[indices@[0] as int],
                forall|q: int| 0 <= q < k ==> #[trigger] self@[indices@[q] as int] == p,
            decreases indices@.len() - k,
        {
            if self.data[indices[k]] != p {
                assert(self@[indices@[k as int] as int] != p);
                return false;
            }
            k = k + 1;
        }
        true
    }
}

proof fn lemma_listed_total_bound(d: Seq<u32>, idx: Seq<usize>)
    requires
        probs_ok(d),
        forall|k: int| 0 <= k < idx.len() ==> #[trigger] idx[k] < NUM_PAIRS,
    ensures
        0 <= listed_total(d, idx) <= idx.len() * PROB_ONE,
    decreases idx.len(),
{
    if idx.len() > 0 {
        assert(idx.drop_last().len() == idx.len() - 1);
        assert forall|k: int| 0 <= k < idx.drop_last().len() implies #[trigger] idx.drop_last()[k] < NUM_PAIRS by {
            assert(idx.drop_last()[k] == idx[k]);
        }
        lemma_listed_total_bound(d, idx.drop_last());
        assert(idx[idx.len() - 1] < NUM_PAIRS);
    }
}

/// Checks that `prob` is at most 1.
pub fn check_prob(prob: u32) -> (r: Result<(), String>)
    ensures
        r is Ok <==> prob <= PROB_ONE,
{
    if prob <= PROB_ONE {
        Ok(())
    } else {
        let mut e = string_of("Invalid probability: ");
        push_decimal(&mut e, prob as u64);
        Err(e)
    }
}

/// A class with a member has at least one index.
proof fn lemma_group_nonempty(lo: int, hi: int, r1: int, r2: int, s: Suitedness)
    requires
        0 <= lo < hi < 52,
        in_group(lo, hi, r1, r2, s),
    ensures
        members(r1, r2, s).len() >= 1,
        members(r1, r2, s).len() <= NUM_PAIRS,
        forall|k: int| 0 <= k < members(r1, r2, s).len() ==> #[trigger] members(r1, r2, s)[k] < NUM_PAIRS,
{
    lemma_pair_cards(lo, hi);
    lemma_pair_index_bijective(lo, hi, lo, hi);
    lemma_members_upto(NUM_PAIRS as int, r1, r2, s);
    assert(members(r1, r2, s).contains(pair_index(lo, hi) as usize));
}

/// `c` with suits `s1` and `s2` swapped.
pub open spec fn swap_suit(c: int, s1: int, s2: int) -> int {
    let s = suit_of(c);
    rank_of(c) * 4 + if s == s1 {
        s2
    } else if s == s2 {
        s1
    } else {
        s
    }
}

fn swap_suit_card(c: u8, s1: u8, s2: u8) -> (r: u8)
    requires
        c < 52,
        s1 < 4,
        s2 < 4,
    ensures
        r == swap_suit(c as int, s1 as int, s2 as int),
        r < 52,
        rank_of(r as int) == rank_of(c as int),
{
    let s = c % 4;
    let t = if s == s1 {
        s2
    } else if s == s2 {
        s1
    } else {
        s
    };
    (c / 4) * 4 + t
}

impl Range {
    /// Obtains the average probability of a pair.
    pub fn get_prob_pair(&self, rank: u8) -> (r: u32)
        requires
            self.wf(),
            rank < 13,
        ensures
            r == average(self@, rank as int, rank as int, Suitedness::All),
    {
        proof {
            lemma_group_nonempty(4 * rank as int, 4 * rank + 1, rank as int, rank as int, Suitedness::All);
        }
        self.get_average_prob(&pair_indices(rank))
    }

    /// Obtains the average probability of a suited hand.
    pub fn get_prob_suited(&self, rank1: u8, rank2: u8) -> (r: u32)
        requires
            self.wf(),
            rank1 < 13,
            rank2 < 13,
            rank1 != rank2,
        ensures
            r == average(self@, rank1 as int, rank2 as int, Suitedness::Suited),
    {
        proof {
            let lo = if rank1 < rank2 { rank1 } else { rank2 };
            let hi = if rank1 < rank2 { rank2 } else { rank1 };
            lemma_group_nonempty(4 * lo as int, 4 * hi as int, rank1 as int, rank2 as int, Suitedness::Suited);
        }
        self.get_average_prob(&suited_indices(rank1, rank2))
    }

    /// Obtains the average probability of an offsuit hand.
    pub fn get_prob_offsuit(&self, rank1: u8, rank2: u8) -> (r: u32)
        requires
            self.wf(),
            rank1 < 13,
            rank2 < 13,
            rank1 != rank2,
        ensures
            r == average(self@, rank1 as int, rank2 as int, Suitedness::Offsuit),
    {
        proof {
            let lo = if rank1 < rank2 { rank1 } else { rank2 };
            let hi = if rank1 < rank2 { rank2 } else { rank1 };
            lemma_group_nonempty(4 * lo as int, 4 * hi + 1, rank1 as int, rank2 as int, Suitedness::Offsuit);
        }
        self.get_average_prob(&offsuit_indices(rank1, rank2))
    }

    /// Sets the probability of a pair.
    pub fn set_prob_pair(&mut self, rank: u8, prob: u32) -> (r: Result<(), String>)
        requires
            old(self).wf(),
        ensures
            r is Ok <==> (rank < 13 && prob <= PROB_ONE),
            final(self).wf(),
            r is Ok ==> forall|i: int|
                0 <= i < NUM_PAIRS ==> #[trigger] final(self)@[i] == if in_group_at(
                    i,
                    rank as int,
                    rank as int,
                    Suitedness::All,
                ) {
                    prob
                } else {
                    old(self)@[i]
                },
            r is Err ==> final(self)@ == old(self)@,
    {
        check_rank(rank)?;
        check_prob(prob)?;
        self.set_group(rank, rank, Suitedness::All, prob);
        Ok(())
    }

    /// Sets the probability of a suited hand.
    pub fn set_prob_suited(&mut self, rank1: u8, rank2: u8, prob: u32) -> (r: Result<(), String>)
        requires
            old(self).wf(),
        ensures
            r is Ok <==> (rank1 < 13 && rank2 < 13 && rank1 != rank2 && prob <= PROB_ONE),
            final(self).wf(),
            r is Ok ==> forall|i: int|
                0 <= i < NUM_PAIRS ==> #[trigger] final(self)@[i] == if in_group_at(
                    i,
                    rank1 as int,
                    rank2 as int,
                    Suitedness::Suited,
                ) {
                    prob
                } else {
                    old(self)@[i]
                },
            r is Err ==> final(self)@ == old(self)@,
    {
        check_rank(rank1)?;
        check_rank(rank2)?;
        check_prob(prob)?;
        if rank1 == rank2 {
            return Err(string_of("set_prob_suited() accepts non-pairs only"));
        }
        self.set_group(rank1, rank2, Suitedness::Suited, prob);
        Ok(())
    }

    /// Sets the probability of an offsuit hand.
    pub fn set_prob_offsuit(&mut self, rank1: u8, rank2: u8, prob: u32) -> (r: Result<(), String>)
        requires
            old(self).wf(),
        ensures
            r is Ok <==> (rank1 < 13 && rank2 < 13 && rank1 != rank2 && prob <= PROB_ONE),
            final(self).wf(),
            r is Ok ==> forall|i: int|
                0 <= i < NUM_PAIRS ==> #[trigger] final(self)@[i] == if in_group_at(
                    i,
                    rank1 as int,
                    rank2 as int,
                    Suitedness::Offsuit,
                ) {
                    prob
                } else {
                    old(self)@[i]
                },
            r is Err ==> final(self)@ == old(self)@,
    {
        check_rank(rank1)?;
        check_rank(rank2)?;
        check_prob(prob)?;
        if rank1 == rank2 {
            return Err(string_of("set_prob_offsuit() accepts non-pairs only"));
        }
        self.set_group(rank1, rank2, Suitedness::Offsuit, prob);
        Ok(())
    }

    /// Returns whether the range is empty.
    pub fn is_empty(&self) -> (r: bool)
        requires
            self.wf(),
        ensures
            r <==> forall|i: int| 0 <= i < NUM_PAIRS ==> #[trigger] self@[i] == 0,
    {
        let mut i: usize = 0;
        while i < NUM_PAIRS
            invariant
                probs_ok(self@),
                i <= NUM_PAIRS,
                forall|j: int| 0 <= j < i ==> #[trigger] self@[j] == 0,
            decreases NUM_PAIRS - i,
        {
            if self.data[i] != 0 {
                return false;
            }
            i = i + 1;
        }
        true
    }

    /// Returns whether swapping suits `suit1` and `suit2` leaves every hand's probability
    /// unchanged.
    pub fn is_suit_isomorphic(&self, suit1: u8, suit2: u8) -> (r: bool)
        requires
            self.wf(),
            suit1 < 4,
            suit2 < 4,
        ensures
            r <==> forall|c1: int, c2: int|
                0 <= c1 < c2 < 52 ==> #[trigger] self.prob(c1, c2) == self.prob(
                    swap_suit(c1, suit1 as int, suit2 as int),
                    swap_suit(c2, suit1 as int, suit2 as int),
                ),
    {
        let mut card1: u8 = 0;
        while card1 < 52
            invariant
                self.wf(),
                suit1 < 4,
                suit2 < 4,
                card1 <= 52,
                forall|c1: int, c2: int|
                    0 <= c1 < card1 && c1 < c2 < 52 ==> #[trigger] self.prob(c1, c2) == self.prob(
                        swap_suit(c1, suit1 as int, suit2 as int),
                        swap_suit(c2, suit1 as int, suit2 as int),
                    ),
            decreases 52 - card1,
        {
            let mut card2: u8 = card1 + 1;
            while card2 < 52
                invariant
                    self.wf(),
                    suit1 < 4,
                    suit2 < 4,
                    card1 < 52,
                    card1 < card2 <= 52,
                    forall|c1: int, c2: int|
                        0 <= c1 < card1 && c1 < c2 < 52 ==> #[trigger] self.prob(c1, c2) == self.prob(
                            swap_suit(c1, suit1 as int, suit2 as int),
                            swap_suit(c2, suit1 as int, suit2 as int),
                        ),
                    forall|c2: int|
                        card1 < c2 < card2 ==> #[trigger] self.prob(card1 as int, c2) == self.prob(
                            swap_suit(card1 as int, suit1 as int, suit2 as int),
                            swap_suit(c2, suit1 as int, suit2 as int),
                        ),
                decreases 52 - card2,
            {
                let r1 = swap_suit_card(card1, suit1, suit2);
                let r2 = swap_suit_card(card2, suit1, suit2);
                let prob = self.get_prob_by_cards(card1, card2);
                proof {
                    assert(r1 != r2) by {
                        if rank_of(card1 as int) == rank_of(card2 as int) {
                            assert(suit_of(card1 as int) != suit_of(card2 as int));
                        }
                    }
                }
                let prob_replaced = self.get_prob_by_cards(r1, r2);
                if prob != prob_replaced {
                    return false;
                }
                card2 = card2 + 1;
            }
            card1 = card1 + 1;
        }
        true
    }
}

/// A hand class read from text, or `None` where the text breaks a rule: ranks must not
/// increase, a pair takes no `s` or `o`, and the two cards of a hand differ.
pub open spec fn singleton_of(t: Seq<char>) -> Option<(u8, u8, Suitedness)> {
    if t.len() == 4 {
        let r1 = rank_of_char(t[0]);
        let s1 = suit_of_char(t[1]);
        let r2 = rank_of_char(t[2]);
        let s2 = suit_of_char(t[3]);
        if r1 is Some && s1 is Some && r2 is Some && s2 is Some && r1->Some_0 >= r2->Some_0 && !(
        r1->Some_0 == r2->Some_0 && s1->Some_0 == s2->Some_0) {
            Some(
                (
                    r1->Some_0 as u8,
                    r2->Some_0 as u8,
                    Suitedness::Specific(s1->Some_0 as u8, s2->Some_0 as u8),
                ),
            )
        } else {
            None
        }
    } else if t.len() == 2 || t.len() == 3 {
        let r1 = rank_of_char(t[0]);
        let r2 = rank_of_char(t[1]);
        let su = if t.len() == 2 {
            Some(Suitedness::All)
        } else if t[2] == 's' {
            Some(Suitedness::Suited)
        } else if t[2] == 'o' {
            Some(Suitedness::Offsuit)
        } else {
            None
        };
        if r1 is Some && r2 is Some && su is Some && r1->Some_0 >= r2->Some_0 && !(r1->Some_0
            == r2->Some_0 && su->Some_0 != Suitedness::All) {
            Some((r1->Some_0 as u8, r2->Some_0 as u8, su->Some_0))
        } else {
            None
        }
    } else {
        None
    }
}

/// What a range token sets: one class, a class and those above it (`+`), or the classes
/// from one to another (`-`).
#[derive(Clone, Copy, Debug, PartialEq, Eq, Structural)]
pub enum Span {
    Single(u8, u8, Suitedness),
    Plus(u8, u8, Suitedness),
    Dash(u8, u8, u8, u8, Suitedness),
}

/// The span a range text denotes, or `None` where it breaks a rule. The two ends of a dash
/// range share their suitedness and either their gap (with the first end higher) or their
/// first rank (with the first end's second rank higher).
pub open spec fn span_of(t: Seq<char>) -> Option<Span> {
    let k = first_index(t, '-');
    if k >= 0 {
        let a = singleton_of(t.subrange(0, k));
        let b = singleton_of(t.subrange(k + 1, t.len() as int));
        if a is Some && b is Some {
            let (r11, r12, s) = a->Some_0;
            let (r21, r22, s2) = b->Some_0;
            if s == s2 && ((r11 - r12 == r21 - r22 && r11 > r21) || (r11 == r21 && r12 > r22)) {
                Some(Span::Dash(r11, r12, r21, r22, s))
            } else {
                None
            }
        } else {
            None
        }
    } else if first_index(t, '+') >= 0 {
        match singleton_of(t.drop_last()) {
            Some(c) => Some(Span::Plus(c.0, c.1, c.2)),
            None => None,
        }
    } else {
        match singleton_of(t) {
            Some(c) => Some(Span::Single(c.0, c.1, c.2)),
            None => None,
        }
    }
}

/// The span holds the hand with index `i`. A `+` range climbs both ranks together for a
/// pair or a connector, else the second rank up to below the first; a dash range climbs
/// both ranks together when the ends share their gap, else the second rank.
pub open spec fn span_covers(sp: Span, i: int) -> bool {
    match sp {
        Span::Single(r1, r2, s) => in_group_at(i, r1 as int, r2 as int, s),
        Span::Plus(r1, r2, s) => {
            let gap = r1 - r2;
            if gap <= 1 {
                exists|x: int| r1 <= x < 13 && #[trigger] in_group_at(i, x, x - gap, s)
            } else {
                exists|x: int| r2 <= x < r1 && #[trigger] in_group_at(i, r1 as int, x, s)
            }
        },
        Span::Dash(r11, r12, r21, r22, s) => {
            let gap = r11 - r12;
            if gap == r21 - r22 && r11 > r21 {
                exists|x: int| r21 <= x <= r11 && #[trigger] in_group_at(i, x, x - gap, s)
            } else {
                exists|x: int| r22 <= x <= r12 && #[trigger] in_group_at(i, r11 as int, x, s)
            }
        },
    }
}

pub open spec fn pow10(n: nat) -> int
    decreases n,
{
    if n == 0 {
        1
    } else {
        10 * pow10((n - 1) as nat)
    }
}

pub open spec fn digit_value(c: char) -> int {
    c as int - '0' as int
}

/// The first `places` digits of `p` from index `from` on, as a number of `places` digits
/// (missing digits count as 0).
pub open spec fn digits_value(p: Seq<char>, from: int, places: nat) -> int
    decreases places,
{
    if places == 0 {
        0
    } else {
        (if 0 <= from < p.len() {
            digit_value(p[from])
        } else {
            0
        }) * pow10((places - 1) as nat) + digits_value(p, from + 1, (places - 1) as nat)
    }
}

/// A probability text in millionths, further digits dropped.
pub open spec fn prob_value(p: Seq<char>) -> int {
    if p[0] == '.' {
        digits_value(p, 1, 6)
    } else {
        digit_value(p[0]) * PROB_ONE + digits_value(p, 2, 6)
    }
}

/// A probability text above 1.
pub open spec fn prob_above_one(p: Seq<char>) -> bool {
    p[0] == '1' && exists|i: int| 2 <= i < p.len() && #[trigger] p[i] != '0'
}

/// The span and probability of a range token, or `None` if it is not a valid one.
pub open spec fn token_effect(tok: Seq<char>) -> Option<(Span, u32)> {
    match token_parts(tok) {
        None => None,
        Some((rp, pp)) => {
            let sp = span_of(rp);
            match pp {
                None => match sp {
                    Some(x) => Some((x, PROB_ONE)),
                    None => None,
                },
                Some(p) => if prob_above_one(p) {
                    None
                } else {
                    match sp {
                        Some(x) => Some((x, prob_value(p) as u32)),
                        None => None,
                    }
                },
            }
        },
    }
}

/// Probability of hand `i` after the tokens: that of the first token whose span holds it,
/// or 0.
pub open spec fn first_cover(toks: Seq<Seq<char>>, i: int) -> u32
    decreases toks.len(),
{
    if toks.len() == 0 {
        0
    } else if span_covers(token_effect(toks[0])->Some_0.0, i) {
        token_effect(toks[0])->Some_0.1
    } else {
        first_cover(toks.drop_first(), i)
    }
}

/// The range a text denotes, or `None` if it is not a valid range text: white space around
/// `-`, `:`, `,` and at the ends is dropped, a last empty token too, and each hand gets the
/// probability of the first token that holds it.
pub open spec fn parse_range(s: Seq<char>) -> Option<Seq<u32>> {
    let toks = range_tokens(squeeze(s));
    if forall|k: int| 0 <= k < toks.len() ==> #[trigger] token_effect(toks[k]) is Some {
        Some(Seq::new(NUM_PAIRS as nat, |i: int| first_cover(toks, i)))
    } else {
        None
    }
}

/// Reads a hand class of two ranks with an optional `s` or `o`, or of two cards.
fn parse_singleton(combo: &Vec<char>) -> (r: Result<(u8, u8, Suitedness), String>)
    requires
        is_combo(combo@),
    ensures
        r is Ok <==> singleton_of(combo@) is Some,
        r is Ok ==> r->Ok_0 == singleton_of(combo@)->Some_0,
{
    if combo.len() == 4 {
        parse_simple_singleton(combo)
    } else {
        parse_compound_singleton(combo)
    }
}

/// Reads a hand class of two cards, such as `AhKs`.
fn parse_simple_singleton(combo: &Vec<char>) -> (r: Result<(u8, u8, Suitedness), String>)
    requires
        combo@.len() == 4,
    ensures
        r is Ok <==> singleton_of(combo@) is Some,
        r is Ok ==> r->Ok_0 == singleton_of(combo@)->Some_0,
{
    let rank1 = char_to_rank(combo[0])?;
    let suit1 = char_to_suit(combo[1])?;
    let rank2 = char_to_rank(combo[2])?;
    let suit2 = char_to_suit(combo[3])?;
    if rank1 < rank2 {
        return Err(string_of("First rank must be equal or higher than second rank"));
    }
    if rank1 == rank2 && suit1 == suit2 {
        return Err(string_of("Duplicate cards are not allowed"));
    }
    Ok((rank1, rank2, Suitedness::Specific(suit1, suit2)))
}

/// Reads a hand class of two ranks with an optional `s` or `o`, such as `AKs`.
fn parse_compound_singleton(combo: &Vec<char>) -> (r: Result<(u8, u8, Suitedness), String>)
    requires
        is_combo(combo@),
        combo@.len() != 4,
    ensures
        r is Ok <==> singleton_of(combo@) is Some,
        r is Ok ==> r->Ok_0 == singleton_of(combo@)->Some_0,
{
    let rank1 = char_to_rank(combo[0])?;
    let rank2 = char_to_rank(combo[1])?;
    let suitedness = if combo.len() == 2 {
        Suitedness::All
    } else if combo[2] == 's' {
        Suitedness::Suited
    } else {
        Suitedness::Offsuit
    };
    if rank1 < rank2 {
        return Err(string_of("First rank must be equal or higher than second rank"));
    }
    if rank1 == rank2 && suitedness != Suitedness::All {
        return Err(string_of("Pair with suitedness is not allowed"));
    }
    Ok((rank1, rank2, suitedness))
}

/// Reads a probability text, in millionths.
fn parse_prob(p: &Vec<char>) -> (r: Result<u32, String>)
    requires
        is_prob(p@),
    ensures
        r is Ok <==> !prob_above_one(p@),
        r is Ok ==> r->Ok_0 == prob_value(p@) && r->Ok_0 <= PROB_ONE,
{
    let n = p.len();
    if p[0] == '1' {
        let mut i: usize = 2;
        while i < n
            invariant
                is_prob(p@),
                p@[0] == '1',
                n == p@.len(),
                2 <= i,
                i <= n || i == 2,
                forall|j: int| 2 <= j < i ==> #[trigger] p@[j] == '0',
            decreases n - i,
        {
            if p[i] != '0' {
                assert(prob_above_one(p@));
                return Err(string_of("Invalid probability: above 1"));
            }
            i = i + 1;
        }
        proof {
            lemma_zero_digits(p@, 2, 6);
        }
        return Ok(PROB_ONE);
    }
    let from: usize = if p[0] == '.' {
        1
    } else {
        2
    };
    proof {
        assert(p[0] == '.' || p[0] == '0');
        assert(forall|j: int| from <= j < n ==> is_digit(#[trigger] p@[j]));
    }
    let mut value: u32 = 0;
    let mut place: usize = 0;
    let mut scale: u32 = 100_000;
    proof {
        reveal_with_fuel(pow10, 7);
    }
    while place < 6
        invariant
            n == p@.len(),
            1 <= from <= 2,
            forall|j: int| from <= j < n ==> is_digit(#[trigger] p@[j]),
            place <= 6,
            place < 6 ==> scale * 10 == pow10((6 - place) as nat),
            value as int + digits_value(p@, from + place, (6 - place) as nat) == digits_value(p@, from as int, 6),
            value as int + pow10((6 - place) as nat) <= 1_000_000,
        decreases 6 - place,
    {
        let idx = from + place;
        let d: u32 = if idx < n {
            assert(is_digit(p@[idx as int]));
            ((p[idx] as u32) - ('0' as u32)) as u32
        } else {
            0
        };
        proof {
            reveal_with_fuel(pow10, 7);
            lemma_pow10_step((5 - place) as nat);
            assert(digits_value(p@, from + place, (6 - place) as nat) == d * pow10((5 - place) as nat)
                + digits_value(p@, from + place + 1, (5 - place) as nat));
            assert(d * scale <= 9 * scale) by (nonlinear_arith)
                requires d <= 9;
        }
        value = value + d * scale;
        scale = scale / 10;
        place = place + 1;
    }
    proof {
        reveal_with_fuel(digits_value, 2);
        assert(!prob_above_one(p@));
        if p@[0] != '.' {
            assert(digit_value(p@[0]) == 0);
        }
    }
    Ok(value)
}

pub proof fn lemma_pow10_step(n: nat)
    ensures
        pow10(n + 1) == 10 * pow10(n),
        pow10(n) >= 1,
    decreases n,
{
    if n > 0 {
        lemma_pow10_step((n - 1) as nat);
    }
}

proof fn lemma_zero_digits(p: Seq<char>, f: int, q: nat)
    requires
        forall|j: int| 2 <= j < p.len() ==> #[trigger] p[j] == '0',
        f >= 2,
    ensures
        digits_value(p, f, q) == 0,
    decreases q,
{
    if q > 0 {
        lemma_zero_digits(p, f + 1, (q - 1) as nat);
        let d = if 0 <= f < p.len() {
            digit_value(p[f])
        } else {
            0
        };
        if 0 <= f < p.len() {
            assert(p[f] == '0');
        }
        assert(d == 0);
        assert(d * pow10((q - 1) as nat) == 0) by (nonlinear_arith)
            requires d == 0;
        assert(digits_value(p, f, q) == d * pow10((q - 1) as nat) + digits_value(p, f + 1, (q - 1) as nat));
    }
}

/// A hand class holds no `-` and no `+`.
proof fn lemma_combo_plain(t: Seq<char>)
    requires
        is_combo(t),
    ensures
        first_index(t, '-') < 0,
        first_index(t, '+') < 0,
{
    crate::range_text::lemma_first_index(t, '-');
    crate::range_text::lemma_first_index(t, '+');
}

impl Range {
    /// Sets the probability of the hands of one class.
    fn update_with_singleton(&mut self, combo: &Vec<char>, prob: u32) -> (r: Result<(), String>)
        requires
            old(self).wf(),
            prob <= PROB_ONE,
            is_combo(combo@),
        ensures
            final(self).wf(),
            r is Ok <==> span_of(combo@) is Some,
            r is Ok ==> forall|i: int|
                0 <= i < NUM_PAIRS ==> #[trigger] final(self)@[i] == if span_covers(span_of(combo@)->Some_0, i) {
                    prob
                } else {
                    old(self)@[i]
                },
            r is Err ==> final(self)@ == old(self)@,
    {
        proof {
            lemma_combo_plain(combo@);
        }
        let (rank1, rank2, suitedness) = parse_singleton(combo)?;
        self.set_group(rank1, rank2, suitedness, prob);
        Ok(())
    }

    /// Sets the probability of the hands of a class and of those above it.
    fn update_with_plus_range(&mut self, range: &Vec<char>, prob: u32) -> (r: Result<(), String>)
        requires
            old(self).wf(),
            prob <= PROB_ONE,
            range@.len() >= 1,
            range@.last() == '+',
            is_combo(range@.drop_last()),
        ensures
            final(self).wf(),
            r is Ok <==> span_of(range@) is Some,
            r is Ok ==> forall|i: int|
                0 <= i < NUM_PAIRS ==> #[trigger] final(self)@[i] == if span_covers(span_of(range@)->Some_0, i) {
                    prob
                } else {
                    old(self)@[i]
                },
            r is Err ==> final(self)@ == old(self)@,
    {
        let n = range.len();
        let lowest_combo = slice_chars(range, 0, n - 1);
        proof {
            assert(lowest_combo@ =~= range@.drop_last());
            lemma_combo_plain(range@.drop_last());
            crate::range_text::lemma_first_index_extend(range@.drop_last(), '+', '-');
            crate::range_text::lemma_first_index_extend(range@.drop_last(), '+', '+');
            assert(range@ =~= range@.drop_last().push('+'));
        }
        let (rank1, rank2, suitedness) = parse_singleton(&lowest_combo)?;
        let ghost old_d = self@;
        let ghost sp = span_of(range@)->Some_0;
        assert(sp == Span::Plus(rank1, rank2, suitedness));
        let gap = rank1 - rank2;
        if gap <= 1 {
            let mut i: u8 = rank1;
            while i < 13
                invariant
                    self.wf(),
                    prob <= PROB_ONE,
                    rank1 <= i <= 13,
                    rank1 < 13,
                    gap == rank1 - rank2,
                    pair_class_ok(rank1 as int, rank2 as int, suitedness),
                    forall|j: int|
                        0 <= j < NUM_PAIRS ==> #[trigger] self@[j] == if exists|x: int|
                            rank1 <= x < i && #[trigger] in_group_at(j, x, x - gap, suitedness) {
                            prob
                        } else {
                            old_d[j]
                        },
                decreases 13 - i,
            {
                let ghost before = self@;
                self.set_group(i, i - gap, suitedness, prob);
                assert forall|j: int| 0 <= j < NUM_PAIRS implies #[trigger] self@[j] == if exists|x: int|
                    rank1 <= x < i + 1 && #[trigger] in_group_at(j, x, x - gap, suitedness) {
                    prob
                } else {
                    old_d[j]
                } by {
                    if in_group_at(j, i as int, i - gap, suitedness) {
                    } else if exists|x: int| rank1 <= x < i + 1 && #[trigger] in_group_at(j, x, x - gap, suitedness) {
                        let x = choose|x: int| rank1 <= x < i + 1 && #[trigger] in_group_at(j, x, x - gap, suitedness);
                        assert(x != i);
                        assert(before[j] == prob);
                    }
                }
                i = i + 1;
            }
        } else {
            let mut i: u8 = rank2;
            while i < rank1
                invariant
                    self.wf(),
                    prob <= PROB_ONE,
                    rank2 <= i <= rank1,
                    rank1 < 13,
                    forall|j: int|
                        0 <= j < NUM_PAIRS ==> #[trigger] self@[j] == if exists|x: int|
                            rank2 <= x < i && #[trigger] in_group_at(j, rank1 as int, x, suitedness) {
                            prob
                        } else {
                            old_d[j]
                        },
                decreases rank1 - i,
            {
                let ghost before = self@;
                self.set_group(rank1, i, suitedness, prob);
                assert forall|j: int| 0 <= j < NUM_PAIRS implies #[trigger] self@[j] == if exists|x: int|
                    rank2 <= x < i + 1 && #[trigger] in_group_at(j, rank1 as int, x, suitedness) {
                    prob
                } else {
                    old_d[j]
                } by {
                    if in_group_at(j, rank1 as int, i as int, suitedness) {
                    } else if exists|x: int| rank2 <= x < i + 1 && #[trigger] in_group_at(j, rank1 as int, x, suitedness) {
                        let x = choose|x: int| rank2 <= x < i + 1 && #[trigger] in_group_at(j, rank1 as int, x, suitedness);
                        assert(x != i);
                        assert(before[j] == prob);
                    }
                }
                i = i + 1;
            }
        }
        Ok(())
    }

    /// Sets the probability of the hands of the classes from one to another.
    fn update_with_dash_range(&mut self, range: &Vec<char>, prob: u32) -> (r: Result<(), String>)
        requires
            old(self).wf(),
            prob <= PROB_ONE,
            first_index(range@, '-') >= 0,
            is_combo(range@.subrange(0, first_index(range@, '-'))),
            is_combo(range@.subrange(first_index(range@, '-') + 1, range@.len() as int)),
        ensures
            final(self).wf(),
            r is Ok <==> span_of(range@) is Some,
            r is Ok ==> forall|i: int|
                0 <= i < NUM_PAIRS ==> #[trigger] final(self)@[i] == if span_covers(span_of(range@)->Some_0, i) {
                    prob
                } else {
                    old(self)@[i]
                },
            r is Err ==> final(self)@ == old(self)@,
    {
        let n = range.len();
        let k = find_char(range, '-');
        proof {
            crate::range_text::lemma_first_index(range@, '-');
        }
        let first = slice_chars(range, 0, k);
        let second = slice_chars(range, k + 1, n);
        let (rank11, rank12, suitedness) = parse_singleton(&first)?;
        let (rank21, rank22, suitedness2) = parse_singleton(&second)?;
        let gap = rank11 - rank12;
        let gap2 = rank21 - rank22;
        let ghost old_d = self@;
        if suitedness != suitedness2 {
            Err(string_of("Suitedness does not match"))
        } else if gap == gap2 && rank11 > rank21 {
            let ghost sp = span_of(range@)->Some_0;
            assert(sp == Span::Dash(rank11, rank12, rank21, rank22, suitedness));
            let mut i: u8 = rank21;
            while i <= rank11
                invariant
                    self.wf(),
                    prob <= PROB_ONE,
                    rank21 <= i <= rank11 + 1,
                    rank11 < 13,
                    rank21 >= gap,
                    gap == rank11 - rank12,
                    pair_class_ok(rank11 as int, rank12 as int, suitedness),
                    forall|j: int|
                        0 <= j < NUM_PAIRS ==> #[trigger] self@[j] == if exists|x: int|
                            rank21 <= x < i && #[trigger] in_group_at(j, x, x - gap, suitedness) {
                            prob
                        } else {
                            old_d[j]
                        },
                decreases rank11 + 1 - i,
            {
                let ghost before = self@;
                self.set_group(i, i - gap, suitedness, prob);
                assert forall|j: int| 0 <= j < NUM_PAIRS implies #[trigger] self@[j] == if exists|x: int|
                    rank21 <= x < i + 1 && #[trigger] in_group_at(j, x, x - gap, suitedness) {
                    prob
                } else {
                    old_d[j]
                } by {
                    if in_group_at(j, i as int, i - gap, suitedness) {
                    } else if exists|x: int| rank21 <= x < i + 1 && #[trigger] in_group_at(j, x, x - gap, suitedness) {
                        let x = choose|x: int| rank21 <= x < i + 1 && #[trigger] in_group_at(j, x, x - gap, suitedness);
                        assert(x != i);
                        assert(before[j] == prob);
                    }
                }
                i = i + 1;
            }
            Ok(())
        } else if rank11 == rank21 && rank12 > rank22 {
            let ghost sp = span_of(range@)->Some_0;
            assert(sp == Span::Dash(rank11, rank12, rank21, rank22, suitedness));
            let mut i: u8 = rank22;
            while i <= rank12
                invariant
                    self.wf(),
                    prob <= PROB_ONE,
                    rank22 <= i <= rank12 + 1,
                    rank12 < 13,
                    rank12 <= rank11,
                    pair_class_ok(rank11 as int, rank12 as int, suitedness),
                    forall|j: int|
                        0 <= j < NUM_PAIRS ==> #[trigger] self@[j] == if exists|x: int|
                            rank22 <= x < i && #[trigger] in_group_at(j, rank11 as int, x, suitedness) {
                            prob
                        } else {
                            old_d[j]
                        },
                decreases rank12 + 1 - i,
            {
                let ghost before = self@;
                self.set_group(rank11, i, suitedness, prob);
                assert forall|j: int| 0 <= j < NUM_PAIRS implies #[trigger] self@[j] == if exists|x: int|
                    rank22 <= x < i + 1 && #[trigger] in_group_at(j, rank11 as int, x, suitedness) {
                    prob
                } else {
                    old_d[j]
                } by {
                    if in_group_at(j, rank11 as int, i as int, suitedness) {
                    } else if exists|x: int| rank22 <= x < i + 1 && #[trigger] in_group_at(j, rank11 as int, x, suitedness) {
                        let x = choose|x: int| rank22 <= x < i + 1 && #[trigger] in_group_at(j, rank11 as int, x, suitedness);
                        assert(x != i);
                        assert(before[j] == prob);
                    }
                }
                i = i + 1;
            }
            Ok(())
        } else {
            Err(string_of("Invalid range"))
        }
    }
}

impl Range {
    /// Sets the probability of the hands of a range text's span.
    fn update_with_range(&mut self, range: &Vec<char>, prob: u32) -> (r: Result<(), String>)
        requires
            old(self).wf(),
            prob <= PROB_ONE,
            crate::range_text::is_range_syntax(range@),
        ensures
            final(self).wf(),
            r is Ok <==> span_of(range@) is Some,
            r is Ok ==> forall|i: int|
                0 <= i < NUM_PAIRS ==> #[trigger] final(self)@[i] == if span_covers(span_of(range@)->Some_0, i) {
                    prob
                } else {
                    old(self)@[i]
                },
            r is Err ==> final(self)@ == old(self)@,
    {
        let n = range.len();
        proof {
            crate::range_text::lemma_first_index(range@, '-');
            crate::range_text::lemma_first_index(range@, '+');
            if is_combo(range@) {
                lemma_combo_plain(range@);
            } else if n >= 1 && range@.last() == '+' && is_combo(range@.drop_last()) {
                lemma_combo_plain(range@.drop_last());
                crate::range_text::lemma_first_index_extend(range@.drop_last(), '+', '-');
                assert(range@ =~= range@.drop_last().push('+'));
            }
        }
        if find_char(range, '-') < n {
            self.update_with_dash_range(range, prob)
        } else if find_char(range, '+') < n {
            proof {
                if is_combo(range@) {
                    lemma_combo_plain(range@);
                }
            }
            self.update_with_plus_range(range, prob)
        } else {
            proof {
                if n >= 1 && range@.last() == '+' {
                    assert(range@[n - 1] == '+');
                }
            }
            self.update_with_singleton(range, prob)
        }
    }

    /// Reads a range text: comma-separated tokens, each a hand class (`AKs`, `QQ`, `AhKh`),
    /// a class with `+`, or two classes joined by `-`, with an optional `:` and
    /// probability. Each hand gets the probability of the first token that holds it.
    pub fn parse_text(s: &str) -> (r: Result<Range, String>)
        ensures
            r is Ok <==> parse_range(s@) is Some,
            r is Ok ==> r->Ok_0.wf() && r->Ok_0@ == parse_range(s@)->Some_0,
    {
        let v = chars_of(s);
        let t = squeeze_chars(&v);
        let toks = split_tokens(&t);
        let ghost ts = range_tokens(squeeze(s@));
        let n = toks.len();
        let mut result = Range::new();
        let mut k = n;
        while k > 0
            invariant
                result.wf(),
                ts == range_tokens(squeeze(s@)),
                n == toks@.len() == ts.len(),
                forall|q: int| 0 <= q < n ==> (#[trigger] toks@[q])@ == ts[q],
                k <= n,
                forall|q: int| k <= q < n ==> #[trigger] token_effect(ts[q]) is Some,
                forall|i: int| 0 <= i < NUM_PAIRS ==> #[trigger] result@[i] == first_cover(ts.subrange(k as int, n as int), i),
            decreases k,
        {
            k = k - 1;
            let tok = &toks[k];
            assert(tok@ == ts[k as int]);
            match split_token(tok) {
                None => {
                    assert(!(forall|q: int| 0 <= q < ts.len() ==> #[trigger] token_effect(ts[q]) is Some)) by {
                        assert(token_effect(ts[k as int]) is None);
                    }
                    return Err(error_with("Failed to parse range: ", &string_of_chars(tok)));
                },
                Some((rp, pp)) => {
                    let prob = match pp {
                        None => PROB_ONE,
                        Some(p) => match parse_prob(&p) {
                            Ok(x) => x,
                            Err(e) => {
                                assert(!(forall|q: int| 0 <= q < ts.len() ==> #[trigger] token_effect(ts[q]) is Some)) by {
                                    assert(token_effect(ts[k as int]) is None);
                                }
                                return Err(e);
                            },
                        },
                    };
                    let ghost before = result@;
                    match result.update_with_range(&rp, prob) {
                        Ok(()) => {},
                        Err(e) => {
                            assert(!(forall|q: int| 0 <= q < ts.len() ==> #[trigger] token_effect(ts[q]) is Some)) by {
                                assert(token_effect(ts[k as int]) is None);
                            }
                            return Err(e);
                        },
                    }
                    proof {
                        let eff = token_effect(ts[k as int]);
                        assert(eff == Some((span_of(rp@)->Some_0, prob)));
                        assert(ts.subrange(k as int, n as int).drop_first() =~= ts.subrange(k + 1, n as int));
                        assert(ts.subrange(k as int, n as int)[0] == ts[k as int]);
                    }
                },
            }
        }
        proof {
            assert(ts.subrange(0, n as int) =~= ts);
            assert(result@ =~= parse_range(s@)->Some_0);
        }
        Ok(result)
    }
}

impl std::str::FromStr for Range {
    type Err = String;

    fn from_str(s: &str) -> Result<Range, String> {
        Range::parse_text(s)
    }
}

/// Character of a rank `r < 13`.
fn rank_letter(r: u8) -> (c: char)
    requires
        r < 13,
    ensures
        c == rank_char(r as int),
{
    match r {
        12 => 'A',
        11 => 'K',
        10 => 'Q',
        9 => 'J',
        8 => 'T',
        _ => digit_to_char(r + 2),
    }
}

/// Character of a suit `s < 4`.
fn suit_letter(s: u8) -> (c: char)
    requires
        s < 4,
    ensures
        c == suit_char(s as int),
{
    match s {
        0 => 'c',
        1 => 'd',
        2 => 'h',
        _ => 's',
    }
}

/// The six decimals of a probability `p < 1`, trailing zeros dropped.
pub open spec fn decimals(p: int, places: nat) -> Seq<char>
    decreases places,
{
    if places == 0 || p % pow10(places) == 0 {
        Seq::empty()
    } else {
        seq![digit_char(p / pow10((places - 1) as nat) % 10)] + decimals(p, (places - 1) as nat)
    }
}

/// Text of a probability below 1 in a range text: `:0.` and its decimals, so 500000 gives
/// `:0.5`.
pub open spec fn prob_suffix(p: int) -> Seq<char> {
    seq![':', '0', '.'] + decimals(p, 6)
}

/// Appends the text of a probability, unless it is 1.
fn push_prob(s: &mut String, p: u32)
    requires
        p <= PROB_ONE,
    ensures
        final(s)@ == old(s)@ + if p == PROB_ONE {
            Seq::empty()
        } else {
            prob_suffix(p as int)
        },
{
    if p == PROB_ONE {
        assert(old(s)@ + Seq::<char>::empty() =~= old(s)@);
        return;
    }
    push_char(s, ':');
    push_char(s, '0');
    push_char(s, '.');
    let ghost base = old(s)@ + seq![':', '0', '.'];
    assert(s@ =~= base);
    let mut places: u32 = 6;
    let mut pw: u32 = 1_000_000;
    proof {
        reveal_with_fuel(pow10, 7);
    }
    while places > 0 && p % pw != 0
        invariant
            p < PROB_ONE,
            places <= 6,
            pw == pow10(places as nat),
            pw >= 1,
            s@ + decimals(p as int, places as nat) == base + decimals(p as int, 6),
        decreases places,
    {
        proof {
            reveal_with_fuel(pow10, 7);
        }
        let scale = pw / 10;
        assert(scale == pow10((places - 1) as nat) && scale >= 1);
        let d = ((p / scale) % 10) as u8;
        let ghost before = s@;
        push_char(s, digit_to_char(d));
        proof {
            assert(decimals(p as int, places as nat) == seq![digit_char(d as int)] + decimals(p as int, (places - 1) as nat));
            assert(s@ + decimals(p as int, (places - 1) as nat) =~= before + decimals(p as int, places as nat));
        }
        places = places - 1;
        pw = scale;
    }
    proof {
        assert(decimals(p as int, places as nat) =~= Seq::empty());
        assert(s@ =~= s@ + decimals(p as int, places as nat));
    }
}

/// The probability of every hand of a class, when they share one: that of its first hand.
pub open spec fn lead(d: Seq<u32>, r1: int, r2: int, s: Suitedness) -> u32 {
    d[members(r1, r2, s)[0] as int]
}

/// A printed token: a span that reads back as itself, a positive probability, and only
/// hands of that probability in the span.
pub open spec fn sound(d: Seq<u32>, sp: Span, p: u32) -> bool {
    &&& span_ok(sp)
    &&& 0 < p <= PROB_ONE
    &&& forall|i: int| 0 <= i < NUM_PAIRS && #[trigger] span_covers(sp, i) ==> d[i] == p
}

/// Each printed text is the text of its token, and each token is sound.
pub open spec fn printed(out: Seq<(String, Span, u32)>, d: Seq<u32>) -> bool {
    forall|k: int|
        0 <= k < out.len() ==> (#[trigger] out[k]).0@ == token_text(out[k].1, out[k].2) && sound(
            d,
            out[k].1,
            out[k].2,
        )
}

/// Some printed token holds hand `i`.
pub open spec fn covered(out: Seq<(String, Span, u32)>, i: int) -> bool {
    exists|k: int| 0 <= k < out.len() && #[trigger] span_covers(out[k].1, i)
}

/// Sum of the probabilities of the hands of a class.
pub open spec fn group_total(d: Seq<u32>, r1: int, r2: int, s: Suitedness) -> int {
    listed_total(d, members(r1, r2, s))
}

proof fn lemma_covered_grows(a: Seq<(String, Span, u32)>, b: Seq<(String, Span, u32)>, i: int)
    requires
        a.len() <= b.len(),
        b.subrange(0, a.len() as int) == a,
        covered(a, i),
    ensures
        covered(b, i),
{
    let k = choose|k: int| 0 <= k < a.len() && #[trigger] span_covers(a[k].1, i);
    assert(b[k] == b.subrange(0, a.len() as int)[k]);
    assert(span_covers(b[k].1, i));
}

/// Over a class's members, "all equal to the first" is `uniform`, and then the average and
/// every member are `lead`.
proof fn lemma_uniform(d: Seq<u32>, r1: int, r2: int, s: Suitedness)
    requires
        probs_ok(d),
        members(r1, r2, s).len() >= 1,
    ensures
        uniform(d, r1, r2, s) <==> (forall|k: int|
            0 <= k < members(r1, r2, s).len() ==> #[trigger] d[members(r1, r2, s)[k] as int] == d[members(r1, r2, s)[0] as int]),
        uniform(d, r1, r2, s) ==> average(d, r1, r2, s) == lead(d, r1, r2, s),
        uniform(d, r1, r2, s) ==> forall|i: int|
            0 <= i < NUM_PAIRS && #[trigger] in_group_at(i, r1, r2, s) ==> d[i] == lead(d, r1, r2, s),
        !uniform(d, r1, r2, s) ==> group_total(d, r1, r2, s) > 0,
        forall|i: int|
            0 <= i < NUM_PAIRS && #[trigger] in_group_at(i, r1, r2, s) && d[i] > 0 ==> group_total(d, r1, r2, s) > 0,
{
    let m = members(r1, r2, s);
    lemma_members_upto(NUM_PAIRS as int, r1, r2, s);
    assert(m[0] < NUM_PAIRS && in_group_at(m[0] as int, r1, r2, s));
    if forall|k: int| 0 <= k < m.len() ==> #[trigger] d[m[k] as int] == d[m[0] as int] {
        assert forall|a: int, b: int|
            0 <= a < NUM_PAIRS && 0 <= b < NUM_PAIRS && in_group_at(a, r1, r2, s) && in_group_at(b, r1, r2, s)
                implies #[trigger] d[a] == #[trigger] d[b] by {
            assert(m.contains(a as usize));
            assert(m.contains(b as usize));
            let ka = choose|k: int| 0 <= k < m.len() && m[k] == a as usize;
            let kb = choose|k: int| 0 <= k < m.len() && m[k] == b as usize;
            assert(d[m[ka] as int] == d[m[0] as int]);
            assert(d[m[kb] as int] == d[m[0] as int]);
        }
        lemma_listed_total_const(d, m, d[m[0] as int]);
        let n = m.len() as int;
        let v = d[m[0] as int] as int;
        assert((n * v) / n == v) by (nonlinear_arith)
            requires n >= 1;
        assert forall|i: int| 0 <= i < NUM_PAIRS && #[trigger] in_group_at(i, r1, r2, s) implies d[i] == lead(d, r1, r2, s) by {
            assert(m.contains(i as usize));
            let ki = choose|k: int| 0 <= k < m.len() && m[k] == i as usize;
            assert(d[m[ki] as int] == d[m[0] as int]);
        }
    } else {
        let k = choose|k: int| 0 <= k < m.len() && #[trigger] d[m[k] as int] != d[m[0] as int];
        assert(!uniform(d, r1, r2, s)) by {
            assert(in_group_at(m[k] as int, r1, r2, s));
        }
        if d[m[k] as int] > 0 {
            lemma_listed_total_ge(d, m, k);
        } else {
            lemma_listed_total_ge(d, m, 0);
        }
    }
    assert forall|i: int| 0 <= i < NUM_PAIRS && #[trigger] in_group_at(i, r1, r2, s) && d[i] > 0 implies group_total(
        d,
        r1,
        r2,
        s,
    ) > 0 by {
        assert(m.contains(i as usize));
        let ki = choose|k: int| 0 <= k < m.len() && m[k] == i as usize;
        lemma_listed_total_ge(d, m, ki);
    }
}

proof fn lemma_listed_total_const(d: Seq<u32>, idx: Seq<usize>, v: u32)
    requires
        forall|k: int| 0 <= k < idx.len() ==> #[trigger] d[idx[k] as int] == v,
    ensures
        listed_total(d, idx) == idx.len() * v,
    decreases idx.len(),
{
    if idx.len() > 0 {
        assert forall|k: int| 0 <= k < idx.drop_last().len() implies #[trigger] d[idx.drop_last()[k] as int] == v by {
            assert(idx.drop_last()[k] == idx[k]);
        }
        lemma_listed_total_const(d, idx.drop_last(), v);
        assert(d[idx[idx.len() - 1] as int] == v);
        assert((idx.len() - 1) * v + v == idx.len() * v) by (nonlinear_arith);
    }
}

proof fn lemma_listed_total_ge(d: Seq<u32>, idx: Seq<usize>, k: int)
    requires
        0 <= k < idx.len(),
    ensures
        listed_total(d, idx) >= d[idx[k] as int],
    decreases idx.len(),
{
    lemma_listed_total_nonneg(d, idx.drop_last());
    if k < idx.len() - 1 {
        assert(idx.drop_last()[k] == idx[k]);
        lemma_listed_total_ge(d, idx.drop_last(), k);
    }
}

proof fn lemma_listed_total_nonneg(d: Seq<u32>, idx: Seq<usize>)
    ensures
        listed_total(d, idx) >= 0,
    decreases idx.len(),
{
    if idx.len() > 0 {
        lemma_listed_total_nonneg(d, idx.drop_last());
    }
}

/// The text of a token.
fn token_string(sp: Span, p: u32) -> (r: String)
    requires
        span_ok(sp),
        p <= PROB_ONE,
    ensures
        r@ == token_text(sp, p),
{
    let mut r = string_of("");
    proof {
        reveal_strlit("");
    }
    match sp {
        Span::Single(r1, r2, s) => {
            push_class(&mut r, r1, r2, s);
        },
        Span::Plus(r1, r2, s) => {
            push_class(&mut r, r1, r2, s);
            push_char(&mut r, '+');
        },
        Span::Dash(a1, a2, b1, b2, s) => {
            push_class(&mut r, a1, a2, s);
            push_char(&mut r, '-');
            push_class(&mut r, b1, b2, s);
            assert(r@ =~= seq![] + class_text(a1, a2, s) + seq!['-'] + class_text(b1, b2, s));
        },
    }
    assert(r@ =~= span_text(sp));
    push_prob(&mut r, p);
    r
}

/// Appends the text of a hand class.
fn push_class(r: &mut String, r1: u8, r2: u8, s: Suitedness)
    requires
        class_ok(r1, r2, s),
    ensures
        final(r)@ == old(r)@ + class_text(r1, r2, s),
{
    push_char(r, rank_letter(r1));
    match s {
        Suitedness::Specific(x, y) => {
            push_char(r, suit_letter(x));
            push_char(r, rank_letter(r2));
            push_char(r, suit_letter(y));
        },
        Suitedness::Suited => {
            push_char(r, rank_letter(r2));
            push_char(r, 's');
        },
        Suitedness::Offsuit => {
            push_char(r, rank_letter(r2));
            push_char(r, 'o');
        },
        Suitedness::All => {
            push_char(r, rank_letter(r2));
        },
    }
    assert(r@ =~= old(r)@ + class_text(r1, r2, s));
}

/// The pairs of ranks `lo..=hi` are each uniform at probability `p`.
pub open spec fn pair_run_ok(d: Seq<u32>, lo: int, hi: int, p: u32) -> bool {
    forall|x: int|
        #![trigger uniform(d, x, x, Suitedness::All)]
        #![trigger lead(d, x, x, Suitedness::All)]
        lo <= x <= hi ==> uniform(d, x, x, Suitedness::All) && lead(d, x, x, Suitedness::All) == p
}

/// The classes of first rank `r1` and second ranks `lo..=hi` are each uniform at
/// probability `p`.
pub open spec fn high_run_ok(d: Seq<u32>, r1: int, lo: int, hi: int, su: Suitedness, p: u32) -> bool {
    forall|x: int|
        #![trigger uniform(d, r1, x, su)]
        #![trigger lead(d, r1, x, su)]
        lo <= x <= hi ==> uniform(d, r1, x, su) && lead(d, r1, x, su) == p
}

/// Writing the non-pairs of first rank `r1` without `s` or `o` loses nothing: for no second
/// rank are the suited and offsuit hands each uniform at different probabilities, or one
/// side uniform and the other not with both present.
pub open spec fn unsuit_ok(d: Seq<u32>, r1: int) -> bool {
    forall|x: int|
        #![trigger uniform(d, r1, x, Suitedness::Suited)]
        0 <= x < r1 ==> !((uniform(d, r1, x, Suitedness::Suited) && uniform(d, r1, x, Suitedness::Offsuit)
            && lead(d, r1, x, Suitedness::Suited) != lead(d, r1, x, Suitedness::Offsuit)) || (uniform(
            d,
            r1,
            x,
            Suitedness::Suited,
        ) != uniform(d, r1, x, Suitedness::Offsuit) && group_total(d, r1, x, Suitedness::Suited) > 0
            && group_total(d, r1, x, Suitedness::Offsuit) > 0))
}

/// The span of a run of pairs from rank `sr` down to rank `e`.
pub open spec fn pair_run(e: u8, sr: u8) -> Span {
    if sr == e {
        Span::Single(e, e, Suitedness::All)
    } else if sr == 12 {
        Span::Plus(e, e, Suitedness::All)
    } else {
        Span::Dash(sr, sr, e, e, Suitedness::All)
    }
}

/// The span of a run of classes with first rank `r1`, second rank from `sr` down to `e`.
pub open spec fn high_run(r1: u8, e: u8, sr: u8, su: Suitedness) -> Span {
    if sr == e {
        Span::Single(r1, e, su)
    } else if sr == r1 - 1 {
        Span::Plus(r1, e, su)
    } else {
        Span::Dash(r1, sr, r1, e, su)
    }
}

proof fn lemma_pair_run(e: u8, sr: u8)
    requires
        e <= sr < 13,
    ensures
        span_ok(pair_run(e, sr)),
        forall|i: int|
            #[trigger] span_covers(pair_run(e, sr), i) <==> exists|x: int|
                e <= x <= sr && #[trigger] in_group_at(i, x, x, Suitedness::All),
{
    assert forall|i: int| #[trigger] span_covers(pair_run(e, sr), i) <==> exists|x: int|
        e <= x <= sr && #[trigger] in_group_at(i, x, x, Suitedness::All) by {
        if span_covers(pair_run(e, sr), i) {
            if sr == e {
                assert(in_group_at(i, e as int, e as int, Suitedness::All));
            } else if sr == 12 {
                let x = choose|x: int| e <= x < 13 && #[trigger] in_group_at(i, x, x - (e - e), Suitedness::All);
                assert(in_group_at(i, x, x, Suitedness::All));
            } else {
                let x = choose|x: int| e <= x <= sr && #[trigger] in_group_at(i, x, x - (sr - sr), Suitedness::All);
                assert(in_group_at(i, x, x, Suitedness::All));
            }
        }
        if exists|x: int| e <= x <= sr && #[trigger] in_group_at(i, x, x, Suitedness::All) {
            let x = choose|x: int| e <= x <= sr && #[trigger] in_group_at(i, x, x, Suitedness::All);
            if sr == e {
            } else if sr == 12 {
                assert(in_group_at(i, x, x - (e - e), Suitedness::All));
            } else {
                assert(in_group_at(i, x, x - (sr - sr), Suitedness::All));
            }
        }
    }
}

proof fn lemma_high_run(r1: u8, e: u8, sr: u8, su: Suitedness)
    requires
        e <= sr < r1 < 13,
        su == Suitedness::All || su == Suitedness::Suited || su == Suitedness::Offsuit,
    ensures
        span_ok(high_run(r1, e, sr, su)),
        forall|i: int|
            #[trigger] span_covers(high_run(r1, e, sr, su), i) <==> exists|x: int|
                e <= x <= sr && #[trigger] in_group_at(i, r1 as int, x, su),
{
    assert forall|i: int| #[trigger] span_covers(high_run(r1, e, sr, su), i) <==> exists|x: int|
        e <= x <= sr && #[trigger] in_group_at(i, r1 as int, x, su) by {
        if span_covers(high_run(r1, e, sr, su), i) {
            if sr == e {
                assert(in_group_at(i, r1 as int, e as int, su));
            } else if sr == r1 - 1 {
                let x = choose|x: int| e <= x < r1 && #[trigger] in_group_at(i, r1 as int, x, su);
                assert(in_group_at(i, r1 as int, x, su));
            } else {
                let x = choose|x: int| e <= x <= sr && #[trigger] in_group_at(i, r1 as int, x, su);
                assert(in_group_at(i, r1 as int, x, su));
            }
        }
        if exists|x: int| e <= x <= sr && #[trigger] in_group_at(i, r1 as int, x, su) {
            let x = choose|x: int| e <= x <= sr && #[trigger] in_group_at(i, r1 as int, x, su);
            assert(in_group_at(i, r1 as int, x, su));
        }
    }
}

/// Tokens the pair sweep prints from counter `k` on with open run `start`: ranks are taken
/// from aces down; a run of uniform pairs at one positive probability is closed when the
/// next rank is mixed, differs in probability, or the ranks run out.
pub open spec fn pair_tail(d: Seq<u32>, k: int, start: Option<(u8, u32)>) -> Seq<(Span, u32)>
    decreases k,
{
    if k <= 0 {
        Seq::empty()
    } else {
        let k1 = k - 1;
        let same = k1 > 0 && uniform(d, k1 - 1, k1 - 1, Suitedness::All);
        let prob: u32 = if k1 > 0 {
            average(d, k1 - 1, k1 - 1, Suitedness::All) as u32
        } else {
            0
        };
        let close = start is Some && (k1 == 0 || !same || start->Some_0.1 != prob);
        let emitted = if close {
            seq![(pair_run(k1 as u8, start->Some_0.0), start->Some_0.1)]
        } else {
            Seq::empty()
        };
        let start2 = if close {
            None
        } else {
            start
        };
        let start3 = if k1 > 0 && same && prob > 0 && start2 is None {
            Some(((k1 - 1) as u8, prob))
        } else {
            start2
        };
        emitted + pair_tail(d, k1, start3)
    }
}

/// Tokens of the runs of pairs.
pub open spec fn pair_tokens(d: Seq<u32>) -> Seq<(Span, u32)> {
    pair_tail(d, 14, None)
}

/// Tokens the sweep over second ranks of first rank `r1` and suitedness `su` prints from
/// counter `k` on with open run `start`, as `pair_tail` does for pairs.
pub open spec fn high_tail(d: Seq<u32>, r1: int, su: Suitedness, k: int, start: Option<(u8, u32)>) -> Seq<(Span, u32)>
    decreases k,
{
    if k <= 0 {
        Seq::empty()
    } else {
        let k1 = k - 1;
        let same = k1 > 0 && uniform(d, r1, k1 - 1, su);
        let prob: u32 = if k1 > 0 {
            average(d, r1, k1 - 1, su) as u32
        } else {
            0
        };
        let close = start is Some && (k1 == 0 || !same || start->Some_0.1 != prob);
        let emitted = if close {
            seq![(high_run(r1 as u8, k1 as u8, start->Some_0.0, su), start->Some_0.1)]
        } else {
            Seq::empty()
        };
        let start2 = if close {
            None
        } else {
            start
        };
        let start3 = if k1 > 0 && same && prob > 0 && start2 is None {
            Some(((k1 - 1) as u8, prob))
        } else {
            start2
        };
        emitted + high_tail(d, r1, su, k1, start3)
    }
}

/// Tokens of the runs of classes of first rank `r1` and suitedness `su`.
pub open spec fn high_tokens(d: Seq<u32>, r1: int, su: Suitedness) -> Seq<(Span, u32)> {
    high_tail(d, r1, su, r1 + 1, None)
}

/// Tokens of the non-pairs of first ranks `1..=r`, highest first: without `s` or `o` where
/// `unsuit_ok` allows, else suited then offsuit.
pub open spec fn nonpair_tokens_from(d: Seq<u32>, r: int) -> Seq<(Span, u32)>
    decreases r,
{
    if r < 1 {
        Seq::empty()
    } else {
        (if unsuit_ok(d, r) {
            high_tokens(d, r, Suitedness::All)
        } else {
            high_tokens(d, r, Suitedness::Suited) + high_tokens(d, r, Suitedness::Offsuit)
        }) + nonpair_tokens_from(d, r - 1)
    }
}

/// Tokens of the non-pairs.
pub open spec fn nonpair_tokens(d: Seq<u32>) -> Seq<(Span, u32)> {
    nonpair_tokens_from(d, 12)
}

impl Range {
    /// Uniformity and shared probability of a class, read off its indices.
    fn class_stats(&self, rank1: u8, rank2: u8, suitedness: Suitedness) -> (r: (bool, u32, u64))
        requires
            self.wf(),
            pair_class_ok(rank1 as int, rank2 as int, suitedness),
            members(rank1 as int, rank2 as int, suitedness).len() >= 1,
        ensures
            r.0 == uniform(self@, rank1 as int, rank2 as int, suitedness),
            r.0 ==> r.1 == lead(self@, rank1 as int, rank2 as int, suitedness),
            r.1 == average(self@, rank1 as int, rank2 as int, suitedness),
            r.1 <= PROB_ONE,
            r.2 == group_total(self@, rank1 as int, rank2 as int, suitedness),
    {
        let idx = indices_with_suitedness(rank1, rank2, suitedness);
        proof {
            lemma_members_upto(NUM_PAIRS as int, rank1 as int, rank2 as int, suitedness);
            lemma_uniform(self@, rank1 as int, rank2 as int, suitedness);
        }
        (self.is_same_prob(&idx), self.get_average_prob(&idx), self.total_prob(&idx))
    }

    /// Appends the tokens of the runs of pairs whose hands share one probability, from aces
    /// down.
    fn pairs_strings(&self, out: &mut Vec<(String, Span, u32)>)
        requires
            self.wf(),
            printed(old(out)@, self@),
        ensures
            printed(final(out)@, self@),
            toks(final(out)@) == toks(old(out)@) + pair_tokens(self@),
            old(out)@.len() <= final(out)@.len(),
            final(out)@.subrange(0, old(out)@.len() as int) == old(out)@,
            forall|x: int, i: int|
                0 <= x < 13 && uniform(self@, x, x, Suitedness::All) && lead(self@, x, x, Suitedness::All) > 0
                    && 0 <= i < NUM_PAIRS && #[trigger] in_group_at(i, x, x, Suitedness::All) ==> covered(final(out)@, i),
    {
        let ghost d = self@;
        let ghost o0 = out@;
        let mut start: Option<(u8, u32)> = None;
        let mut k: u8 = 14;
        while k > 0
            invariant
                self.wf(),
                d == self@,
                k <= 14,
                printed(out@, d),
                o0.len() <= out@.len(),
                out@.subrange(0, o0.len() as int) == o0,
                toks(out@) + pair_tail(d, k as int, start) == toks(o0) + pair_tokens(d),
                start is Some ==> k >= 1 && start->Some_0.0 < 13 && k - 1 <= start->Some_0.0
                    && 0 < start->Some_0.1 <= PROB_ONE,
                start is Some ==> pair_run_ok(d, k - 1, start->Some_0.0 as int, start->Some_0.1),
                forall|x: int, i: int|
                    k - 1 <= x < 13 && 0 <= x && uniform(d, x, x, Suitedness::All) && lead(d, x, x, Suitedness::All)
                        > 0 && 0 <= i < NUM_PAIRS && #[trigger] in_group_at(i, x, x, Suitedness::All) ==> (
                    start is Some && x <= start->Some_0.0) || covered(out@, i),
            decreases k,
        {
            k = k - 1;
            let (same, prob) = if k > 0 {
                proof {
                    lemma_group_nonempty(4 * (k - 1) as int, 4 * (k - 1) + 1, (k - 1) as int, (k - 1) as int, Suitedness::All);
                }
                let st = self.class_stats(k - 1, k - 1, Suitedness::All);
                (st.0, st.1)
            } else {
                (false, 0)
            };
            let ghost before = out@;
            let ghost start0 = start;
            let ghost mut emitted: Seq<(Span, u32)> = Seq::empty();
            if let Some((start_rank, start_prob)) = start {
                if k == 0 || !same || start_prob != prob {
                    let sp = if start_rank == k {
                        Span::Single(k, k, Suitedness::All)
                    } else if start_rank == 12 {
                        Span::Plus(k, k, Suitedness::All)
                    } else {
                        Span::Dash(start_rank, start_rank, k, k, Suitedness::All)
                    };
                    proof {
                        assert(sp == pair_run(k, start_rank));
                        lemma_pair_run(k, start_rank);
                        assert forall|i: int| 0 <= i < NUM_PAIRS && #[trigger] span_covers(sp, i) implies d[i] == start_prob by {
                            let x = choose|x: int| k <= x <= start_rank && #[trigger] in_group_at(i, x, x, Suitedness::All);
                            assert(uniform(d, x, x, Suitedness::All) && lead(d, x, x, Suitedness::All) == start_prob);
                            lemma_group_nonempty(4 * x, 4 * x + 1, x, x, Suitedness::All);
                            lemma_uniform(d, x, x, Suitedness::All);
                        }
                    }
                    let text = token_string(sp, start_prob);
                    let e = (text, sp, start_prob);
                    out.push(e);
                    proof {
                        lemma_toks_push(before, e);
                        emitted = seq![(sp, start_prob)];
                        assert(out@.subrange(0, before.len() as int) =~= before);
                        assert(out@.subrange(0, o0.len() as int) =~= o0) by {
                            assert(before.subrange(0, o0.len() as int) == o0);
                        }
                        assert(out@[before.len() as int].1 == sp);
                        assert forall|x: int, i: int|
                            k <= x <= start_rank && 0 <= i < NUM_PAIRS && #[trigger] in_group_at(i, x, x, Suitedness::All)
                                implies covered(out@, i) by {
                            assert(span_covers(out@[before.len() as int].1, i));
                        }
                        assert forall|x: int, i: int|
                            k <= x < 13 && 0 <= x && uniform(d, x, x, Suitedness::All) && lead(d, x, x, Suitedness::All)
                                > 0 && 0 <= i < NUM_PAIRS && #[trigger] in_group_at(i, x, x, Suitedness::All) && covered(before, i)
                                implies covered(out@, i) by {
                            lemma_covered_grows(before, out@, i);
                        }
                    }
                    start = None;
                }
            }
            if k > 0 && same && prob > 0 && start.is_none() {
                start = Some((k - 1, prob));
            }
            proof {
                if emitted.len() == 0 {
                    assert(out@ == before);
                }
                assert(toks(out@) =~= toks(before) + emitted);
                assert(k > 0 ==> same == uniform(d, k - 1, k - 1, Suitedness::All));
                assert(prob == if k > 0 {
                    average(d, k - 1, k - 1, Suitedness::All) as u32
                } else {
                    0
                });
                assert(pair_tail(d, k + 1, start0) == emitted + pair_tail(d, k as int, start));
                assert(toks(out@) + pair_tail(d, k as int, start) =~= toks(before) + pair_tail(d, k + 1, start0));
                if start is Some {
                    let lo: int = k - 1;
                    let hi: int = start->Some_0.0 as int;
                    let pv: u32 = start->Some_0.1;
                    assert forall|x: int| lo <= x <= hi implies #[trigger] uniform(d, x, x, Suitedness::All)
                        && #[trigger] lead(d, x, x, Suitedness::All) == pv by {
                        if x == k - 1 {
                            assert(same && prob == start->Some_0.1);
                        } else {
                            assert(start0 == start);
                            assert(k <= x);
                            assert(x <= start0->Some_0.0);
                            assert(lead(d, x, x, Suitedness::All) == start0->Some_0.1);
                            assert(uniform(d, x, x, Suitedness::All));
                        }
                    }
                    assert(pair_run_ok(d, lo, hi, pv));
                }
            }
        }
    }
}

impl Range {
    /// Appends the tokens of the runs of classes with first rank `rank1` and one
    /// suitedness (`All`, `Suited` or `Offsuit`) whose hands share one probability, from the
    /// highest second rank down.
    fn high_cards_strings(&self, out: &mut Vec<(String, Span, u32)>, rank1: u8, suitedness: Suitedness)
        requires
            self.wf(),
            1 <= rank1 < 13,
            suitedness == Suitedness::All || suitedness == Suitedness::Suited || suitedness
                == Suitedness::Offsuit,
            printed(old(out)@, self@),
        ensures
            printed(final(out)@, self@),
            toks(final(out)@) == toks(old(out)@) + high_tokens(self@, rank1 as int, suitedness),
            old(out)@.len() <= final(out)@.len(),
            final(out)@.subrange(0, old(out)@.len() as int) == old(out)@,
            forall|x: int, i: int|
                0 <= x < rank1 && uniform(self@, rank1 as int, x, suitedness) && lead(self@, rank1 as int, x, suitedness) > 0
                    && 0 <= i < NUM_PAIRS && #[trigger] in_group_at(i, rank1 as int, x, suitedness) ==> covered(final(out)@, i),
    {
        let ghost d = self@;
        let ghost o0 = out@;
        let ghost r1 = rank1 as int;
        let mut start: Option<(u8, u32)> = None;
        let mut k: u8 = rank1 + 1;
        while k > 0
            invariant
                self.wf(),
                d == self@,
                r1 == rank1,
                1 <= rank1 < 13,
                suitedness == Suitedness::All || suitedness == Suitedness::Suited || suitedness
                    == Suitedness::Offsuit,
                k <= rank1 + 1,
                printed(out@, d),
                o0.len() <= out@.len(),
                out@.subrange(0, o0.len() as int) == o0,
                toks(out@) + high_tail(d, r1, suitedness, k as int, start) == toks(o0) + high_tokens(d, r1, suitedness),
                start is Some ==> k >= 1 && start->Some_0.0 < rank1 && k - 1 <= start->Some_0.0
                    && 0 < start->Some_0.1 <= PROB_ONE,
                start is Some ==> high_run_ok(d, r1, k - 1, start->Some_0.0 as int, suitedness, start->Some_0.1),
                forall|x: int, i: int|
                    k - 1 <= x < rank1 && 0 <= x && uniform(d, r1, x, suitedness) && lead(d, r1, x, suitedness)
                        > 0 && 0 <= i < NUM_PAIRS && #[trigger] in_group_at(i, r1, x, suitedness) ==> (
                    start is Some && x <= start->Some_0.0) || covered(out@, i),
            decreases k,
        {
            k = k - 1;
            let (same, prob) = if k > 0 {
                proof {
                    let lo = 4 * (k - 1) as int;
                    let hi = if suitedness == Suitedness::Offsuit {
                        4 * rank1 + 1
                    } else {
                        4 * rank1 as int
                    };
                    lemma_group_nonempty(lo, hi, rank1 as int, (k - 1) as int, suitedness);
                }
                let st = self.class_stats(rank1, k - 1, suitedness);
                (st.0, st.1)
            } else {
                (false, 0)
            };
            let ghost before = out@;
            let ghost start0 = start;
            let ghost mut emitted: Seq<(Span, u32)> = Seq::empty();
            if let Some((start_rank2, start_prob)) = start {
                if k == 0 || !same || start_prob != prob {
                    let sp = if start_rank2 == k {
                        Span::Single(rank1, k, suitedness)
                    } else if start_rank2 == rank1 - 1 {
                        Span::Plus(rank1, k, suitedness)
                    } else {
                        Span::Dash(rank1, start_rank2, rank1, k, suitedness)
                    };
                    proof {
                        assert(sp == high_run(rank1, k, start_rank2, suitedness));
                        lemma_high_run(rank1, k, start_rank2, suitedness);
                        assert forall|i: int| 0 <= i < NUM_PAIRS && #[trigger] span_covers(sp, i) implies d[i] == start_prob by {
                            let x = choose|x: int| k <= x <= start_rank2 && #[trigger] in_group_at(i, r1, x, suitedness);
                            assert(uniform(d, r1, x, suitedness) && lead(d, r1, x, suitedness) == start_prob);
                            let lo = 4 * x;
                            let hi = if suitedness == Suitedness::Offsuit {
                                4 * r1 + 1
                            } else {
                                4 * r1
                            };
                            lemma_group_nonempty(lo, hi, r1, x, suitedness);
                            lemma_uniform(d, r1, x, suitedness);
                        }
                    }
                    let text = token_string(sp, start_prob);
                    let e = (text, sp, start_prob);
                    out.push(e);
                    proof {
                        lemma_toks_push(before, e);
                        emitted = seq![(sp, start_prob)];
                        assert(out@.subrange(0, before.len() as int) =~= before);
                        assert(out@.subrange(0, o0.len() as int) =~= o0) by {
                            assert(before.subrange(0, o0.len() as int) == o0);
                        }
                        assert(out@[before.len() as int].1 == sp);
                        assert forall|x: int, i: int|
                            k <= x <= start_rank2 && 0 <= i < NUM_PAIRS && #[trigger] in_group_at(i, r1, x, suitedness)
                                implies covered(out@, i) by {
                            assert(span_covers(out@[before.len() as int].1, i));
                        }
                        assert forall|x: int, i: int|
                            k <= x < rank1 && 0 <= x && uniform(d, r1, x, suitedness) && lead(d, r1, x, suitedness)
                                > 0 && 0 <= i < NUM_PAIRS && #[trigger] in_group_at(i, r1, x, suitedness) && covered(before, i)
                                implies covered(out@, i) by {
                            lemma_covered_grows(before, out@, i);
                        }
                    }
                    start = None;
                }
            }
            if k > 0 && same && prob > 0 && start.is_none() {
                start = Some((k - 1, prob));
            }
            proof {
                if emitted.len() == 0 {
                    assert(out@ == before);
                }
                assert(toks(out@) =~= toks(before) + emitted);
                assert(k > 0 ==> same == uniform(d, r1, k - 1, suitedness));
                assert(prob == if k > 0 {
                    average(d, r1, k - 1, suitedness) as u32
                } else {
                    0
                });
                assert(high_tail(d, r1, suitedness, k + 1, start0) == emitted + high_tail(d, r1, suitedness, k as int, start));
                assert(toks(out@) + high_tail(d, r1, suitedness, k as int, start) =~= toks(before) + high_tail(
                    d,
                    r1,
                    suitedness,
                    k + 1,
                    start0,
                ));
                if start is Some {
                    let lo: int = k - 1;
                    let hi: int = start->Some_0.0 as int;
                    let pv: u32 = start->Some_0.1;
                    assert forall|x: int| lo <= x <= hi implies #[trigger] uniform(d, r1, x, suitedness)
                        && #[trigger] lead(d, r1, x, suitedness) == pv by {
                        if x == k - 1 {
                            assert(same && prob == start->Some_0.1);
                        } else {
                            assert(start0 == start);
                            assert(k <= x);
                            assert(x <= start0->Some_0.0);
                            assert(lead(d, r1, x, suitedness) == start0->Some_0.1);
                            assert(uniform(d, r1, x, suitedness));
                        }
                    }
                    assert(high_run_ok(d, r1, lo, hi, suitedness, pv));
                }
            }
        }
    }

    /// Whether the non-pairs of first rank `rank1` can be written without `s` or `o`.
    fn can_unsuit(&self, rank1: u8) -> (r: bool)
        requires
            self.wf(),
            rank1 < 13,
        ensures
            r == unsuit_ok(self@, rank1 as int),
    {
        let ghost d = self@;
        let mut rank2: u8 = 0;
        while rank2 < rank1
            invariant
                self.wf(),
                d == self@,
                rank1 < 13,
                rank2 <= rank1,
                forall|x: int|
                    #![trigger uniform(d, rank1 as int, x, Suitedness::Suited)]
                    0 <= x < rank2 ==> !((uniform(d, rank1 as int, x, Suitedness::Suited) && uniform(
                        d,
                        rank1 as int,
                        x,
                        Suitedness::Offsuit,
                    ) && lead(d, rank1 as int, x, Suitedness::Suited) != lead(
                        d,
                        rank1 as int,
                        x,
                        Suitedness::Offsuit,
                    )) || (uniform(d, rank1 as int, x, Suitedness::Suited) != uniform(
                        d,
                        rank1 as int,
                        x,
                        Suitedness::Offsuit,
                    ) && group_total(d, rank1 as int, x, Suitedness::Suited) > 0 && group_total(
                        d,
                        rank1 as int,
                        x,
                        Suitedness::Offsuit,
                    ) > 0)),
            decreases rank1 - rank2,
        {
            proof {
                lemma_group_nonempty(4 * rank2 as int, 4 * rank1 as int, rank1 as int, rank2 as int, Suitedness::Suited);
                lemma_group_nonempty(4 * rank2 as int, 4 * rank1 + 1, rank1 as int, rank2 as int, Suitedness::Offsuit);
            }
            let (same_suited, prob_suited, total_suited) = self.class_stats(rank1, rank2, Suitedness::Suited);
            let (same_offsuit, prob_offsuit, total_offsuit) = self.class_stats(rank1, rank2, Suitedness::Offsuit);
            if (same_suited && same_offsuit && prob_suited != prob_offsuit) || (same_suited
                != same_offsuit && total_suited > 0 && total_offsuit > 0) {
                proof {
                    assert(!unsuit_ok(d, rank1 as int)) by {
                        assert(uniform(d, rank1 as int, rank2 as int, Suitedness::Suited) == same_suited);
                    }
                }
                return false;
            }
            rank2 = rank2 + 1;
        }
        true
    }

    /// Appends the tokens of the non-pairs, from the highest first rank down.
    fn nonpairs_strings(&self, out: &mut Vec<(String, Span, u32)>)
        requires
            self.wf(),
            printed(old(out)@, self@),
        ensures
            printed(final(out)@, self@),
            toks(final(out)@) == toks(old(out)@) + nonpair_tokens(self@),
            old(out)@.len() <= final(out)@.len(),
            final(out)@.subrange(0, old(out)@.len() as int) == old(out)@,
            forall|r1: int, x: int, i: int|
                1 <= r1 < 13 && 0 <= x < r1 && 0 <= i < NUM_PAIRS && #[trigger] in_group_at(i, r1, x, Suitedness::All)
                    && self@[i] > 0 ==> ((unsuit_ok(self@, r1) && uniform(self@, r1, x, Suitedness::All)) || (
                !unsuit_ok(self@, r1) && in_group_at(i, r1, x, Suitedness::Suited) && uniform(
                    self@,
                    r1,
                    x,
                    Suitedness::Suited,
                )) || (!unsuit_ok(self@, r1) && in_group_at(i, r1, x, Suitedness::Offsuit) && uniform(
                    self@,
                    r1,
                    x,
                    Suitedness::Offsuit,
                ))) ==> covered(final(out)@, i),
    {
        let ghost d = self@;
        let ghost o0 = out@;
        let mut rank1: u8 = 12;
        while rank1 >= 1
            invariant
                self.wf(),
                d == self@,
                rank1 < 13,
                printed(out@, d),
                o0.len() <= out@.len(),
                out@.subrange(0, o0.len() as int) == o0,
                toks(out@) + nonpair_tokens_from(d, rank1 as int) == toks(o0) + nonpair_tokens(d),
                forall|r1: int, x: int, i: int|
                    rank1 < r1 < 13 && 0 <= x < r1 && 0 <= i < NUM_PAIRS && #[trigger] in_group_at(i, r1, x, Suitedness::All)
                        && d[i] > 0 ==> ((unsuit_ok(d, r1) && uniform(d, r1, x, Suitedness::All)) || (!unsuit_ok(
                        d,
                        r1,
                    ) && in_group_at(i, r1, x, Suitedness::Suited) && uniform(d, r1, x, Suitedness::Suited)) || (
                    !unsuit_ok(d, r1) && in_group_at(i, r1, x, Suitedness::Offsuit) && uniform(
                        d,
                        r1,
                        x,
                        Suitedness::Offsuit,
                    ))) ==> covered(out@, i),
            decreases rank1,
        {
            let ghost before = out@;
            let unsuit = self.can_unsuit(rank1);
            if unsuit {
                self.high_cards_strings(out, rank1, Suitedness::All);
                assert(toks(out@) + nonpair_tokens_from(d, rank1 - 1) =~= toks(before) + nonpair_tokens_from(
                    d,
                    rank1 as int,
                ));
            } else {
                self.high_cards_strings(out, rank1, Suitedness::Suited);
                let ghost mid = out@;
                self.high_cards_strings(out, rank1, Suitedness::Offsuit);
                assert(toks(out@) + nonpair_tokens_from(d, rank1 - 1) =~= toks(before) + nonpair_tokens_from(
                    d,
                    rank1 as int,
                ));
                proof {
                    assert(out@.subrange(0, before.len() as int) =~= before) by {
                        assert(out@.subrange(0, mid.len() as int) == mid);
                        assert(mid.subrange(0, before.len() as int) == before);
                    }
                    assert forall|x: int, i: int|
                        0 <= x < rank1 && uniform(d, rank1 as int, x, Suitedness::Suited) && lead(d, rank1 as int, x, Suitedness::Suited) > 0
                            && 0 <= i < NUM_PAIRS && #[trigger] in_group_at(i, rank1 as int, x, Suitedness::Suited) implies covered(out@, i) by {
                        lemma_covered_grows(mid, out@, i);
                    }
                }
            }
            proof {
                assert(out@.subrange(0, o0.len() as int) =~= o0) by {
                    assert(out@.subrange(0, before.len() as int) == before);
                    assert(before.subrange(0, o0.len() as int) == o0);
                }
                assert forall|r1: int, x: int, i: int|
                    rank1 - 1 < r1 < 13 && 0 <= x < r1 && 0 <= i < NUM_PAIRS && #[trigger] in_group_at(i, r1, x, Suitedness::All)
                        && d[i] > 0 && ((unsuit_ok(d, r1) && uniform(d, r1, x, Suitedness::All)) || (!unsuit_ok(
                        d,
                        r1,
                    ) && in_group_at(i, r1, x, Suitedness::Suited) && uniform(d, r1, x, Suitedness::Suited)) || (
                    !unsuit_ok(d, r1) && in_group_at(i, r1, x, Suitedness::Offsuit) && uniform(
                        d,
                        r1,
                        x,
                        Suitedness::Offsuit,
                    ))) implies covered(out@, i) by {
                    if r1 > rank1 {
                        lemma_covered_grows(before, out@, i);
                    } else {
                        let lo = 4 * x;
                        if unsuit_ok(d, r1) {
                            lemma_group_nonempty(lo, 4 * r1, r1, x, Suitedness::All);
                            lemma_uniform(d, r1, x, Suitedness::All);
                        } else if in_group_at(i, r1, x, Suitedness::Suited) && uniform(d, r1, x, Suitedness::Suited) {
                            lemma_group_nonempty(lo, 4 * r1, r1, x, Suitedness::Suited);
                            lemma_uniform(d, r1, x, Suitedness::Suited);
                        } else {
                            lemma_group_nonempty(lo, 4 * r1 + 1, r1, x, Suitedness::Offsuit);
                            lemma_uniform(d, r1, x, Suitedness::Offsuit);
                        }
                    }
                }
            }
            rank1 = rank1 - 1;
        }
    }
}

/// `Suited` or `Offsuit`.
pub open spec fn suited_or_not(suited: bool) -> Suitedness {
    if suited {
        Suitedness::Suited
    } else {
        Suitedness::Offsuit
    }
}

/// Index of the hand made of cards `c1 != c2`, in either order.
pub open spec fn hand_index(c1: int, c2: int) -> int {
    if c1 < c2 {
        pair_index(c1, c2)
    } else {
        pair_index(c2, c1)
    }
}

/// A class of two given cards holds exactly the hand of those cards.
proof fn lemma_single_hand_span(r1: u8, x: u8, r2: u8, y: u8)
    requires
        class_ok(r1, r2, Suitedness::Specific(x, y)),
        r1 == r2 ==> x < y,
    ensures
        forall|i: int|
            0 <= i < NUM_PAIRS ==> (#[trigger] span_covers(Span::Single(r1, r2, Suitedness::Specific(x, y)), i)
                <==> i == hand_index(4 * r1 + x, 4 * r2 + y)),
        0 <= hand_index(4 * r1 + x, 4 * r2 + y) < NUM_PAIRS,
{
    let c1 = 4 * r1 + x;
    let c2 = 4 * r2 + y;
    assert(c1 / 4 == r1 && c1 % 4 == x);
    assert(c2 / 4 == r2 && c2 % 4 == y);
    assert(c1 != c2);
    let lo = if c1 < c2 { c1 } else { c2 };
    let hi = if c1 < c2 { c2 } else { c1 };
    lemma_pair_index_bijective(lo, hi, lo, hi);
    lemma_pair_cards(lo, hi);
    let sp = Span::Single(r1, r2, Suitedness::Specific(x, y));
    assert forall|i: int| 0 <= i < NUM_PAIRS implies (#[trigger] span_covers(sp, i) <==> i == hand_index(c1, c2)) by {
        lemma_pair_cards_onto(i);
        let a = pair_cards(i).0;
        let b = pair_cards(i).1;
        if span_covers(sp, i) {
            assert(a == 4 * (a / 4) + a % 4);
            assert(b == 4 * (b / 4) + b % 4);
            if r1 == r2 {
                assert(a / 4 <= b / 4);
                assert(a % 4 < b % 4);
            }
            assert((a == lo && b == hi));
        }
    }
}

/// The spans and probabilities of printed entries.
pub open spec fn toks(out: Seq<(String, Span, u32)>) -> Seq<(Span, u32)> {
    Seq::new(out.len(), |k: int| (out[k].1, out[k].2))
}

proof fn lemma_toks_push(out: Seq<(String, Span, u32)>, e: (String, Span, u32))
    ensures
        toks(out.push(e)) == toks(out).push((e.1, e.2)),
{
    assert(toks(out.push(e)) =~= toks(out).push((e.1, e.2)));
}

/// The token of the hand of cards `4 * r1 + a` and `4 * r2 + b`, if present.
pub open spec fn hand_token(d: Seq<u32>, r1: u8, a: u8, r2: u8, b: u8) -> Seq<(Span, u32)> {
    let i = hand_index(4 * r1 + a, 4 * r2 + b);
    if d[i] > 0 {
        seq![(Span::Single(r1, r2, Suitedness::Specific(a, b)), d[i])]
    } else {
        Seq::empty()
    }
}

/// Suit pairs `(a, b)` a class of kind `kind` prints: `a < b` for a pair (0), `a == b`
/// for suited hands (1), `a != b` for offsuit hands (2).
pub open spec fn kind_holds(kind: int, a: int, b: int) -> bool {
    if kind == 0 {
        a < b
    } else if kind == 1 {
        a == b
    } else {
        a != b
    }
}

/// Tokens of the single hands of ranks `r1`, `r2` among the first `n` suit pairs `(a, b)`,
/// in the order `a` then `b` ascending.
pub open spec fn hands_flat(d: Seq<u32>, r1: u8, r2: u8, kind: int, n: int) -> Seq<(Span, u32)>
    decreases n,
{
    if n <= 0 {
        Seq::empty()
    } else {
        let a = (n - 1) / 4;
        let b = (n - 1) % 4;
        hands_flat(d, r1, r2, kind, n - 1) + if kind_holds(kind, a, b) {
            hand_token(d, r1, a as u8, r2, b as u8)
        } else {
            Seq::empty()
        }
    }
}

/// Tokens of the single hands of the pairs of ranks below `k`, highest first, for pairs
/// whose hands differ.
pub open spec fn pair_hands_from(d: Seq<u32>, k: int) -> Seq<(Span, u32)>
    decreases k,
{
    if k <= 0 {
        Seq::empty()
    } else {
        (if !uniform(d, k - 1, k - 1, Suitedness::All) {
            hands_flat(d, (k - 1) as u8, (k - 1) as u8, 0, 16)
        } else {
            Seq::empty()
        }) + pair_hands_from(d, k - 1)
    }
}

/// Tokens of the single hands of first rank `r1` and second ranks below `k`, highest
/// first, suited then offsuit, for classes whose hands differ.
pub open spec fn class_hands_from(d: Seq<u32>, r1: int, k: int) -> Seq<(Span, u32)>
    decreases k,
{
    if k <= 0 {
        Seq::empty()
    } else {
        (if !uniform(d, r1, k - 1, Suitedness::Suited) {
            hands_flat(d, r1 as u8, (k - 1) as u8, 1, 16)
        } else {
            Seq::empty()
        }) + (if !uniform(d, r1, k - 1, Suitedness::Offsuit) {
            hands_flat(d, r1 as u8, (k - 1) as u8, 2, 16)
        } else {
            Seq::empty()
        }) + class_hands_from(d, r1, k - 1)
    }
}

/// Tokens of the single non-pair hands of first ranks below `k`, highest first.
pub open spec fn nonpair_hands_from(d: Seq<u32>, k: int) -> Seq<(Span, u32)>
    decreases k,
{
    if k <= 0 {
        Seq::empty()
    } else {
        class_hands_from(d, k - 1, k - 1) + nonpair_hands_from(d, k - 1)
    }
}

/// Tokens of the single hands: pairs first, then non-pairs.
pub open spec fn single_hand_tokens(d: Seq<u32>) -> Seq<(Span, u32)> {
    pair_hands_from(d, 13) + nonpair_hands_from(d, 13)
}

proof fn lemma_flat_step(d: Seq<u32>, r1: u8, r2: u8, kind: int, a: int, b: int)
    requires
        0 <= a < 4,
        0 <= b < 4,
    ensures
        hands_flat(d, r1, r2, kind, 4 * a + b + 1) == hands_flat(d, r1, r2, kind, 4 * a + b) + if kind_holds(
            kind,
            a,
            b,
        ) {
            hand_token(d, r1, a as u8, r2, b as u8)
        } else {
            Seq::empty()
        },
{
    assert((4 * a + b) / 4 == a);
    assert((4 * a + b) % 4 == b);
}

impl Range {
    /// Appends a token for the hand of cards `4 * r1 + x` and `4 * r2 + y`, written as
    /// the class `r1`, `x`, `r2`, `y`, if it is present.
    fn emit_hand(&self, out: &mut Vec<(String, Span, u32)>, r1: u8, x: u8, r2: u8, y: u8)
        requires
            self.wf(),
            printed(old(out)@, self@),
            class_ok(r1, r2, Suitedness::Specific(x, y)),
            r1 == r2 ==> x < y,
        ensures
            printed(final(out)@, self@),
            old(out)@.len() <= final(out)@.len(),
            final(out)@.subrange(0, old(out)@.len() as int) == old(out)@,
            toks(final(out)@) == toks(old(out)@) + hand_token(self@, r1, x, r2, y),
            self@[hand_index(4 * r1 + x, 4 * r2 + y)] > 0 ==> covered(final(out)@, hand_index(4 * r1 + x, 4 * r2 + y)),
    {
        proof {
            lemma_single_hand_span(r1, x, r2, y);
        }
        let prob = self.get_prob_by_cards(4 * r1 + x, 4 * r2 + y);
        if prob > 0 {
            let sp = Span::Single(r1, r2, Suitedness::Specific(x, y));
            let text = token_string(sp, prob);
            let ghost before = out@;
            let e = (text, sp, prob);
            out.push(e);
            proof {
                lemma_toks_push(before, e);
                assert(out@.subrange(0, before.len() as int) =~= before);
                assert(out@[before.len() as int].1 == sp);
                assert(span_covers(sp, hand_index(4 * r1 + x, 4 * r2 + y)));
            }
        } else {
            assert(out@.subrange(0, out@.len() as int) =~= out@);
            assert(toks(out@) + Seq::<(Span, u32)>::empty() =~= toks(out@));
        }
    }

    /// Appends a token for each present single hand of a class whose hands differ in
    /// probability: first the pairs, from aces down, then the non-pairs, by first rank and
    /// then second rank from the highest down, suited before offsuit.
    fn suit_specified_strings(&self, out: &mut Vec<(String, Span, u32)>)
        requires
            self.wf(),
            printed(old(out)@, self@),
        ensures
            printed(final(out)@, self@),
            old(out)@.len() <= final(out)@.len(),
            final(out)@.subrange(0, old(out)@.len() as int) == old(out)@,
            toks(final(out)@) == toks(old(out)@) + single_hand_tokens(self@),
            forall|r1: int, r2: int, s: Suitedness, i: int|
                0 <= r2 <= r1 < 13 && 0 <= i < NUM_PAIRS && self@[i] > 0 && #[trigger] in_group_at(i, r1, r2, s)
                    && !uniform(self@, r1, r2, s) && ((r1 == r2 && s == Suitedness::All) || (r1 != r2 && (s
                    == Suitedness::Suited || s == Suitedness::Offsuit))) ==> covered(final(out)@, i),
    {
        let ghost d = self@;
        let ghost o0 = out@;
        // pairs
        let mut k: u8 = 13;
        while k > 0
            invariant
                self.wf(),
                d == self@,
                k <= 13,
                printed(out@, d),
                o0.len() <= out@.len(),
                out@.subrange(0, o0.len() as int) == o0,
                toks(out@) + pair_hands_from(d, k as int) == toks(o0) + pair_hands_from(d, 13),
                forall|r: int, i: int|
                    k <= r < 13 && 0 <= i < NUM_PAIRS && d[i] > 0 && #[trigger] in_group_at(i, r, r, Suitedness::All)
                        && !uniform(d, r, r, Suitedness::All) ==> covered(out@, i),
            decreases k,
        {
            k = k - 1;
            let ghost before = out@;
            proof {
                lemma_group_nonempty(4 * k as int, 4 * k + 1, k as int, k as int, Suitedness::All);
            }
            let (same, _p, _t) = self.class_stats(k, k, Suitedness::All);
            if !same {
                self.emit_pair_hands(out, k);
            } else {
                assert(out@.subrange(0, before.len() as int) =~= before);
                assert(toks(out@) + Seq::<(Span, u32)>::empty() =~= toks(out@));
            }
            proof {
                assert(pair_hands_from(d, k + 1) == (if !uniform(d, k as int, k as int, Suitedness::All) {
                    hands_flat(d, k, k, 0, 16)
                } else {
                    Seq::empty()
                }) + pair_hands_from(d, k as int));
                assert(toks(out@) + pair_hands_from(d, k as int) =~= toks(before) + pair_hands_from(d, k + 1));
                assert(out@.subrange(0, o0.len() as int) =~= o0) by {
                    assert(out@.subrange(0, before.len() as int) == before);
                    assert(before.subrange(0, o0.len() as int) == o0);
                }
                assert forall|r: int, i: int|
                    k <= r < 13 && 0 <= i < NUM_PAIRS && d[i] > 0 && #[trigger] in_group_at(i, r, r, Suitedness::All)
                        && !uniform(d, r, r, Suitedness::All) implies covered(out@, i) by {
                    if r > k {
                        lemma_covered_grows(before, out@, i);
                    }
                }
            }
        }
        let ghost o1 = out@;
        // non-pairs
        let mut k1: u8 = 13;
        while k1 > 0
            invariant
                self.wf(),
                d == self@,
                k1 <= 13,
                printed(out@, d),
                o1.len() <= out@.len(),
                out@.subrange(0, o1.len() as int) == o1,
                toks(out@) + nonpair_hands_from(d, k1 as int) == toks(o1) + nonpair_hands_from(d, 13),
                forall|r1: int, r2: int, s: Suitedness, i: int|
                    k1 <= r1 < 13 && 0 <= r2 < r1 && 0 <= i < NUM_PAIRS && d[i] > 0 && #[trigger] in_group_at(i, r1, r2, s)
                        && !uniform(d, r1, r2, s) && (s == Suitedness::Suited || s == Suitedness::Offsuit) ==> covered(out@, i),
            decreases k1,
        {
            k1 = k1 - 1;
            let rank1 = k1;
            let ghost before = out@;
            let mut k2: u8 = rank1;
            while k2 > 0
                invariant
                    self.wf(),
                    d == self@,
                    rank1 < 13,
                    k2 <= rank1,
                    printed(out@, d),
                    before.len() <= out@.len(),
                    out@.subrange(0, before.len() as int) == before,
                    toks(out@) + class_hands_from(d, rank1 as int, k2 as int) == toks(before) + class_hands_from(
                        d,
                        rank1 as int,
                        rank1 as int,
                    ),
                    forall|r2: int, s: Suitedness, i: int|
                        k2 <= r2 < rank1 && 0 <= i < NUM_PAIRS && d[i] > 0 && #[trigger] in_group_at(i, rank1 as int, r2, s)
                            && !uniform(d, rank1 as int, r2, s) && (s == Suitedness::Suited || s == Suitedness::Offsuit)
                            ==> covered(out@, i),
                decreases k2,
            {
                k2 = k2 - 1;
                let rank2 = k2;
                let ghost mid = out@;
                proof {
                    lemma_group_nonempty(4 * rank2 as int, 4 * rank1 as int, rank1 as int, rank2 as int, Suitedness::Suited);
                    lemma_group_nonempty(4 * rank2 as int, 4 * rank1 + 1, rank1 as int, rank2 as int, Suitedness::Offsuit);
                }
                let (same_suited, _ps, _ts) = self.class_stats(rank1, rank2, Suitedness::Suited);
                if !same_suited {
                    self.emit_class_hands(out, rank1, rank2, true);
                } else {
                    assert(out@.subrange(0, mid.len() as int) =~= mid);
                    assert(toks(out@) + Seq::<(Span, u32)>::empty() =~= toks(out@));
                }
                let ghost mid2 = out@;
                let (same_offsuit, _po, _to) = self.class_stats(rank1, rank2, Suitedness::Offsuit);
                if !same_offsuit {
                    self.emit_class_hands(out, rank1, rank2, false);
                } else {
                    assert(out@.subrange(0, mid2.len() as int) =~= mid2);
                    assert(toks(out@) + Seq::<(Span, u32)>::empty() =~= toks(out@));
                }
                proof {
                    assert(class_hands_from(d, rank1 as int, k2 + 1) == (if !uniform(d, rank1 as int, k2 as int, Suitedness::Suited) {
                        hands_flat(d, rank1, k2, 1, 16)
                    } else {
                        Seq::empty()
                    }) + (if !uniform(d, rank1 as int, k2 as int, Suitedness::Offsuit) {
                        hands_flat(d, rank1, k2, 2, 16)
                    } else {
                        Seq::empty()
                    }) + class_hands_from(d, rank1 as int, k2 as int));
                    assert(toks(out@) + class_hands_from(d, rank1 as int, k2 as int) =~= toks(mid) + class_hands_from(
                        d,
                        rank1 as int,
                        k2 + 1,
                    ));
                    assert(out@.subrange(0, mid.len() as int) =~= mid) by {
                        assert(out@.subrange(0, mid2.len() as int) == mid2);
                        assert(mid2.subrange(0, mid.len() as int) == mid);
                    }
                    assert(out@.subrange(0, before.len() as int) =~= before) by {
                        assert(mid.subrange(0, before.len() as int) == before);
                    }
                    assert forall|r2: int, s: Suitedness, i: int|
                        k2 <= r2 < rank1 && 0 <= i < NUM_PAIRS && d[i] > 0 && #[trigger] in_group_at(i, rank1 as int, r2, s)
                            && !uniform(d, rank1 as int, r2, s) && (s == Suitedness::Suited || s == Suitedness::Offsuit)
                            implies covered(out@, i) by {
                        if r2 > k2 {
                            lemma_covered_grows(mid, out@, i);
                        } else if s == Suitedness::Suited {
                            lemma_covered_grows(mid2, out@, i);
                        }
                    }
                }
            }
            proof {
                assert(nonpair_hands_from(d, k1 + 1) == class_hands_from(d, k1 as int, k1 as int) + nonpair_hands_from(d, k1 as int));
                assert(class_hands_from(d, rank1 as int, 0) =~= Seq::<(Span, u32)>::empty());
                assert(toks(out@) + nonpair_hands_from(d, k1 as int) =~= toks(before) + nonpair_hands_from(d, k1 + 1));
                assert(out@.subrange(0, o1.len() as int) =~= o1) by {
                    assert(out@.subrange(0, before.len() as int) == before);
                    assert(before.subrange(0, o1.len() as int) == o1);
                }
                assert forall|r1: int, r2: int, s: Suitedness, i: int|
                    k1 <= r1 < 13 && 0 <= r2 < r1 && 0 <= i < NUM_PAIRS && d[i] > 0 && #[trigger] in_group_at(i, r1, r2, s)
                        && !uniform(d, r1, r2, s) && (s == Suitedness::Suited || s == Suitedness::Offsuit) implies covered(out@, i) by {
                    if r1 > k1 {
                        lemma_covered_grows(before, out@, i);
                    }
                }
            }
        }
        proof {
            assert(pair_hands_from(d, 0) =~= Seq::<(Span, u32)>::empty());
            assert(nonpair_hands_from(d, 0) =~= Seq::<(Span, u32)>::empty());
            assert(toks(o1) =~= toks(o0) + pair_hands_from(d, 13));
            assert(toks(out@) =~= toks(o0) + single_hand_tokens(d));
            assert(out@.subrange(0, o0.len() as int) =~= o0) by {
                assert(out@.subrange(0, o1.len() as int) == o1);
                assert(o1.subrange(0, o0.len() as int) == o0);
            }
            assert forall|r1: int, r2: int, s: Suitedness, i: int|
                0 <= r2 <= r1 < 13 && 0 <= i < NUM_PAIRS && d[i] > 0 && #[trigger] in_group_at(i, r1, r2, s)
                    && !uniform(d, r1, r2, s) && ((r1 == r2 && s == Suitedness::All) || (r1 != r2 && (s
                    == Suitedness::Suited || s == Suitedness::Offsuit))) implies covered(out@, i) by {
                if r1 == r2 {
                    lemma_covered_grows(o1, out@, i);
                }
            }
        }
    }

    /// Appends a token for each present hand of the pair of `rank`.
    fn emit_pair_hands(&self, out: &mut Vec<(String, Span, u32)>, rank: u8)
        requires
            self.wf(),
            printed(old(out)@, self@),
            rank < 13,
        ensures
            printed(final(out)@, self@),
            old(out)@.len() <= final(out)@.len(),
            final(out)@.subrange(0, old(out)@.len() as int) == old(out)@,
            toks(final(out)@) == toks(old(out)@) + hands_flat(self@, rank, rank, 0, 16),
            forall|i: int|
                0 <= i < NUM_PAIRS && self@[i] > 0 && #[trigger] in_group_at(i, rank as int, rank as int, Suitedness::All)
                    ==> covered(final(out)@, i),
    {
        let ghost d = self@;
        let ghost o0 = out@;
        let mut suit1: u8 = 0;
        while suit1 < 4
            invariant
                self.wf(),
                d == self@,
                rank < 13,
                suit1 <= 4,
                printed(out@, d),
                o0.len() <= out@.len(),
                out@.subrange(0, o0.len() as int) == o0,
                toks(out@) == toks(o0) + hands_flat(d, rank, rank, 0, 4 * suit1),
                forall|a: int, b: int|
                    0 <= a < suit1 && a < b < 4 && d[#[trigger] hand_index(4 * rank + a, 4 * rank + b)] > 0
                        ==> covered(out@, hand_index(4 * rank + a, 4 * rank + b)),
            decreases 4 - suit1,
        {
            let mut suit2: u8 = 0;
            let ghost before = out@;
            while suit2 < 4
                invariant
                    self.wf(),
                    d == self@,
                    rank < 13,
                    suit1 < 4,
                    suit2 <= 4,
                    printed(out@, d),
                    before.len() <= out@.len(),
                    out@.subrange(0, before.len() as int) == before,
                    o0.len() <= before.len(),
                    before.subrange(0, o0.len() as int) == o0,
                    toks(out@) == toks(o0) + hands_flat(d, rank, rank, 0, 4 * suit1 + suit2),
                    forall|a: int, b: int|
                        0 <= a < suit1 && a < b < 4 && d[#[trigger] hand_index(4 * rank + a, 4 * rank + b)] > 0
                            ==> covered(before, hand_index(4 * rank + a, 4 * rank + b)),
                    forall|b: int|
                        suit1 < b < suit2 && d[#[trigger] hand_index(4 * rank + suit1, 4 * rank + b)] > 0
                            ==> covered(out@, hand_index(4 * rank + suit1, 4 * rank + b)),
                decreases 4 - suit2,
            {
                let ghost mid = out@;
                proof {
                    lemma_flat_step(d, rank, rank, 0, suit1 as int, suit2 as int);
                }
                if suit1 < suit2 {
                    self.emit_hand(out, rank, suit1, rank, suit2);
                    assert(toks(out@) =~= toks(o0) + hands_flat(d, rank, rank, 0, 4 * suit1 + suit2 + 1));
                } else {
                    assert(out@.subrange(0, out@.len() as int) =~= out@);
                    assert(toks(out@) =~= toks(o0) + hands_flat(d, rank, rank, 0, 4 * suit1 + suit2 + 1));
                }
                proof {
                    assert forall|b: int|
                        suit1 < b < suit2 + 1 && d[#[trigger] hand_index(4 * rank + suit1, 4 * rank + b)] > 0
                            implies covered(out@, hand_index(4 * rank + suit1, 4 * rank + b)) by {
                        if b < suit2 {
                            lemma_covered_grows(mid, out@, hand_index(4 * rank + suit1, 4 * rank + b));
                        }
                    }
                    assert(out@.subrange(0, before.len() as int) =~= before) by {
                        assert(out@.subrange(0, mid.len() as int) == mid);
                        assert(mid.subrange(0, before.len() as int) == before);
                    }
                }
                suit2 = suit2 + 1;
            }
            proof {
                assert forall|a: int, b: int|
                    0 <= a < suit1 + 1 && a < b < 4 && d[#[trigger] hand_index(4 * rank + a, 4 * rank + b)] > 0
                        implies covered(out@, hand_index(4 * rank + a, 4 * rank + b)) by {
                    if a < suit1 {
                        lemma_covered_grows(before, out@, hand_index(4 * rank + a, 4 * rank + b));
                    }
                }
                assert(out@.subrange(0, o0.len() as int) =~= o0) by {
                    assert(out@.subrange(0, before.len() as int) == before);
                    assert(before.subrange(0, o0.len() as int) == o0);
                }
            }
            suit1 = suit1 + 1;
        }
        proof {
            assert forall|i: int|
                0 <= i < NUM_PAIRS && d[i] > 0 && #[trigger] in_group_at(i, rank as int, rank as int, Suitedness::All)
                    implies covered(out@, i) by {
                lemma_pair_cards_onto(i);
                let lo = pair_cards(i).0;
                let hi = pair_cards(i).1;
                assert(lo == 4 * rank + lo % 4);
                assert(hi == 4 * rank + hi % 4);
                assert(hand_index(4 * rank + lo % 4, 4 * rank + hi % 4) == i);
            }
        }
    }

    /// Appends a token for each present suited (or offsuit) hand of first rank `rank1` and
    /// second rank `rank2`.
    fn emit_class_hands(&self, out: &mut Vec<(String, Span, u32)>, rank1: u8, rank2: u8, suited: bool)
        requires
            self.wf(),
            printed(old(out)@, self@),
            rank2 < rank1 < 13,
        ensures
            printed(final(out)@, self@),
            old(out)@.len() <= final(out)@.len(),
            final(out)@.subrange(0, old(out)@.len() as int) == old(out)@,
            toks(final(out)@) == toks(old(out)@) + hands_flat(self@, rank1, rank2, if suited { 1 } else { 2 }, 16),
            forall|i: int|
                0 <= i < NUM_PAIRS && self@[i] > 0 && #[trigger] in_group_at(
                    i,
                    rank1 as int,
                    rank2 as int,
                    suited_or_not(suited),
                ) ==> covered(final(out)@, i),
    {
        let ghost d = self@;
        let ghost o0 = out@;
        let ghost kind: int = if suited { 1 } else { 2 };
        let mut suit1: u8 = 0;
        while suit1 < 4
            invariant
                self.wf(),
                d == self@,
                kind == if suited { 1int } else { 2int },
                rank2 < rank1 < 13,
                suit1 <= 4,
                printed(out@, d),
                o0.len() <= out@.len(),
                out@.subrange(0, o0.len() as int) == o0,
                toks(out@) == toks(o0) + hands_flat(d, rank1, rank2, kind, 4 * suit1),
                forall|a: int, b: int|
                    0 <= a < suit1 && 0 <= b < 4 && (a == b) == suited && d[#[trigger] hand_index(4 * rank1 + a, 4 * rank2 + b)] > 0
                        ==> covered(out@, hand_index(4 * rank1 + a, 4 * rank2 + b)),
            decreases 4 - suit1,
        {
            let mut suit2: u8 = 0;
            let ghost before = out@;
            while suit2 < 4
                invariant
                    self.wf(),
                    d == self@,
                    kind == if suited { 1int } else { 2int },
                    rank2 < rank1 < 13,
                    suit1 < 4,
                    suit2 <= 4,
                    printed(out@, d),
                    before.len() <= out@.len(),
                    out@.subrange(0, before.len() as int) == before,
                    o0.len() <= before.len(),
                    before.subrange(0, o0.len() as int) == o0,
                    toks(out@) == toks(o0) + hands_flat(d, rank1, rank2, kind, 4 * suit1 + suit2),
                    forall|a: int, b: int|
                        0 <= a < suit1 && 0 <= b < 4 && (a == b) == suited && d[#[trigger] hand_index(4 * rank1 + a, 4 * rank2 + b)] > 0
                            ==> covered(before, hand_index(4 * rank1 + a, 4 * rank2 + b)),
                    forall|b: int|
                        0 <= b < suit2 && (suit1 == b) == suited && d[#[trigger] hand_index(4 * rank1 + suit1, 4 * rank2 + b)] > 0
                            ==> covered(out@, hand_index(4 * rank1 + suit1, 4 * rank2 + b)),
                decreases 4 - suit2,
            {
                let ghost mid = out@;
                proof {
                    lemma_flat_step(d, rank1, rank2, kind, suit1 as int, suit2 as int);
                }
                if (suit1 == suit2) == suited {
                    self.emit_hand(out, rank1, suit1, rank2, suit2);
                    assert(toks(out@) =~= toks(o0) + hands_flat(d, rank1, rank2, kind, 4 * suit1 + suit2 + 1));
                } else {
                    assert(out@.subrange(0, out@.len() as int) =~= out@);
                    assert(toks(out@) =~= toks(o0) + hands_flat(d, rank1, rank2, kind, 4 * suit1 + suit2 + 1));
                }
                proof {
                    assert forall|b: int|
                        0 <= b < suit2 + 1 && (suit1 == b) == suited && d[#[trigger] hand_index(4 * rank1 + suit1, 4 * rank2 + b)] > 0
                            implies covered(out@, hand_index(4 * rank1 + suit1, 4 * rank2 + b)) by {
                        if b < suit2 {
                            lemma_covered_grows(mid, out@, hand_index(4 * rank1 + suit1, 4 * rank2 + b));
                        }
                    }
                    assert(out@.subrange(0, before.len() as int) =~= before) by {
                        assert(out@.subrange(0, mid.len() as int) == mid);
                        assert(mid.subrange(0, before.len() as int) == before);
                    }
                }
                suit2 = suit2 + 1;
            }
            proof {
                assert forall|a: int, b: int|
                    0 <= a < suit1 + 1 && 0 <= b < 4 && (a == b) == suited && d[#[trigger] hand_index(4 * rank1 + a, 4 * rank2 + b)] > 0
                        implies covered(out@, hand_index(4 * rank1 + a, 4 * rank2 + b)) by {
                    if a < suit1 {
                        lemma_covered_grows(before, out@, hand_index(4 * rank1 + a, 4 * rank2 + b));
                    }
                }
                assert(out@.subrange(0, o0.len() as int) =~= o0) by {
                    assert(out@.subrange(0, before.len() as int) == before);
                    assert(before.subrange(0, o0.len() as int) == o0);
                }
            }
            suit1 = suit1 + 1;
        }
        proof {
            let su = suited_or_not(suited);
            assert forall|i: int| 0 <= i < NUM_PAIRS && d[i] > 0 && #[trigger] in_group_at(i, rank1 as int, rank2 as int, su)
                implies covered(out@, i) by {
                lemma_pair_cards_onto(i);
                let lo = pair_cards(i).0;
                let hi = pair_cards(i).1;
                // the low card has rank `rank2`, the high card rank `rank1`
                assert(lo / 4 <= hi / 4);
                assert(lo / 4 == rank2 && hi / 4 == rank1);
                assert(lo == 4 * rank2 + lo % 4);
                assert(hi == 4 * rank1 + hi % 4);
                assert(hand_index(4 * rank1 + hi % 4, 4 * rank2 + lo % 4) == i);
            }
        }
    }
}

/// The tokens a range is written as: runs of pairs, then non-pairs, then single hands.
pub open spec fn printed_tokens(d: Seq<u32>) -> Seq<(Span, u32)> {
    pair_tokens(d) + nonpair_tokens(d) + single_hand_tokens(d)
}

/// The text a range is written as: its tokens joined by commas.
pub open spec fn printed_text(d: Seq<u32>) -> Seq<char> {
    let t = printed_tokens(d);
    join_commas(Seq::new(t.len(), |k: int| token_text(t[k].0, t[k].1)))
}

/// The texts of printed tokens.
pub open spec fn texts(out: Seq<(String, Span, u32)>) -> Seq<Seq<char>> {
    Seq::new(out.len(), |k: int| out[k].0@)
}

/// Over the printed tokens from `j` on, the first one that holds hand `i` gives it
/// probability `d[i]`.
proof fn lemma_first_cover_suffix(d: Seq<u32>, out: Seq<(String, Span, u32)>, j: int, i: int)
    requires
        printed(out, d),
        0 <= j <= out.len(),
        0 <= i < NUM_PAIRS,
    ensures
        first_cover(texts(out).subrange(j, out.len() as int), i) == if exists|k: int|
            j <= k < out.len() && #[trigger] span_covers(out[k].1, i) {
            d[i]
        } else {
            0
        },
    decreases out.len() - j,
{
    let ts = texts(out).subrange(j, out.len() as int);
    if j < out.len() {
        lemma_first_cover_suffix(d, out, j + 1, i);
        assert(ts.drop_first() =~= texts(out).subrange(j + 1, out.len() as int));
        assert(ts[0] == out[j].0@);
        lemma_token_text(out[j].1, out[j].2);
        if exists|k: int| j + 1 <= k < out.len() && #[trigger] span_covers(out[k].1, i) {
            let k = choose|k: int| j + 1 <= k < out.len() && #[trigger] span_covers(out[k].1, i);
            assert(j <= k < out.len() && span_covers(out[k].1, i));
        }
        if exists|k: int| j <= k < out.len() && #[trigger] span_covers(out[k].1, i) {
            let k = choose|k: int| j <= k < out.len() && #[trigger] span_covers(out[k].1, i);
            if k > j {
                assert(j + 1 <= k < out.len() && span_covers(out[k].1, i));
            }
        }
    }
}

/// Sound printed tokens that hold every present hand read back as the range.
proof fn lemma_round_trip(d: Seq<u32>, out: Seq<(String, Span, u32)>)
    requires
        probs_ok(d),
        printed(out, d),
        forall|i: int| 0 <= i < NUM_PAIRS && d[i] > 0 ==> covered(out, i),
    ensures
        parse_range(join_commas(texts(out))) == Some(d),
{
    let ts = texts(out);
    assert forall|k: int| 0 <= k < ts.len() implies (#[trigger] ts[k]).len() >= 1 && token_effect(ts[k]) == Some((out[k].1, out[k].2)) by {
        lemma_token_text(out[k].1, out[k].2);
    }
    assert forall|k: int, j: int| 0 <= k < ts.len() && 0 <= j < ts[k].len() implies #[trigger] ts[k][j] != ',' && !crate::range_text::is_ws(ts[k][j]) by {
        lemma_token_text(out[k].1, out[k].2);
        assert(ts[k] == token_text(out[k].1, out[k].2));
    }
    lemma_read_joined(ts);
    assert(range_tokens(squeeze(join_commas(ts))) == ts);
    assert(forall|k: int| 0 <= k < ts.len() ==> #[trigger] token_effect(ts[k]) is Some);
    let r = Seq::new(NUM_PAIRS as nat, |i: int| first_cover(ts, i));
    assert forall|i: int| 0 <= i < NUM_PAIRS implies #[trigger] r[i] == d[i] by {
        lemma_first_cover_suffix(d, out, 0, i);
        assert(ts.subrange(0, out.len() as int) =~= ts);
        if d[i] > 0 {
            assert(covered(out, i));
        }
    }
    assert(r =~= d);
}

/// The cards of hand `i` fix its class: ranks `r1 >= r2`, a pair, or suited or offsuit.
proof fn lemma_hand_class(i: int)
    requires
        0 <= i < NUM_PAIRS,
    ensures
        ({
            let r1 = rank_of(pair_cards(i).1);
            let r2 = rank_of(pair_cards(i).0);
            &&& 0 <= r2 <= r1 < 13
            &&& in_group_at(i, r1, r2, Suitedness::All)
            &&& r1 != r2 ==> (in_group_at(i, r1, r2, Suitedness::Suited) || in_group_at(i, r1, r2, Suitedness::Offsuit))
        }),
{
    lemma_pair_cards_onto(i);
}

/// Suited and offsuit hands each uniform at one probability make the whole class uniform.
proof fn lemma_unsplit(d: Seq<u32>, r1: int, r2: int)
    requires
        probs_ok(d),
        0 <= r2 < r1 < 13,
        uniform(d, r1, r2, Suitedness::Suited),
        uniform(d, r1, r2, Suitedness::Offsuit),
        lead(d, r1, r2, Suitedness::Suited) == lead(d, r1, r2, Suitedness::Offsuit),
    ensures
        uniform(d, r1, r2, Suitedness::All),
{
    lemma_group_nonempty(4 * r2, 4 * r1, r1, r2, Suitedness::Suited);
    lemma_group_nonempty(4 * r2, 4 * r1 + 1, r1, r2, Suitedness::Offsuit);
    lemma_uniform(d, r1, r2, Suitedness::Suited);
    lemma_uniform(d, r1, r2, Suitedness::Offsuit);
    assert forall|a: int, b: int|
        0 <= a < NUM_PAIRS && 0 <= b < NUM_PAIRS && in_group_at(a, r1, r2, Suitedness::All) && in_group_at(b, r1, r2, Suitedness::All)
            implies #[trigger] d[a] == #[trigger] d[b] by {
        assert(in_group_at(a, r1, r2, Suitedness::Suited) || in_group_at(a, r1, r2, Suitedness::Offsuit));
        assert(in_group_at(b, r1, r2, Suitedness::Suited) || in_group_at(b, r1, r2, Suitedness::Offsuit));
    }
}

impl Range {
    /// Writes the range as a range text, `printed_text`, which reads back as the range:
    /// maximal runs of uniform pairs from aces down (`QQ`, `KK+` up to aces, `JJ-88`),
    /// then runs of uniform non-pair classes by first rank, then single hands of classes
    /// whose hands differ; each with `:` and its probability unless that is 1.
    pub fn to_string(&self) -> (r: String)
        requires
            self.wf(),
        ensures
            r@ == printed_text(self@),
            parse_range(r@) == Some(self@),
    {
        let ghost d = self@;
        let mut out: Vec<(String, Span, u32)> = Vec::new();
        assert(toks(out@) =~= Seq::<(Span, u32)>::empty());
        self.pairs_strings(&mut out);
        let ghost o1 = out@;
        self.nonpairs_strings(&mut out);
        let ghost o2 = out@;
        self.suit_specified_strings(&mut out);
        proof {
            assert forall|i: int| 0 <= i < NUM_PAIRS && d[i] > 0 implies covered(out@, i) by {
                lemma_hand_class(i);
                let r1 = rank_of(pair_cards(i).1);
                let r2 = rank_of(pair_cards(i).0);
                assert(out@.subrange(0, o1.len() as int) =~= o1) by {
                    assert(out@.subrange(0, o2.len() as int) == o2);
                    assert(o2.subrange(0, o1.len() as int) == o1);
                }
                if r1 == r2 {
                    lemma_group_nonempty(4 * r1, 4 * r1 + 1, r1, r1, Suitedness::All);
                    lemma_uniform(d, r1, r1, Suitedness::All);
                    if uniform(d, r1, r1, Suitedness::All) {
                        assert(covered(o1, i));
                        lemma_covered_grows(o1, out@, i);
                    }
                } else {
                    let su = if in_group_at(i, r1, r2, Suitedness::Suited) {
                        Suitedness::Suited
                    } else {
                        Suitedness::Offsuit
                    };
                    let other = if su == Suitedness::Suited {
                        Suitedness::Offsuit
                    } else {
                        Suitedness::Suited
                    };
                    lemma_group_nonempty(4 * r2, 4 * r1, r1, r2, Suitedness::Suited);
                    lemma_group_nonempty(4 * r2, 4 * r1 + 1, r1, r2, Suitedness::Offsuit);
                    lemma_group_nonempty(4 * r2, 4 * r1, r1, r2, Suitedness::All);
                    lemma_uniform(d, r1, r2, Suitedness::Suited);
                    lemma_uniform(d, r1, r2, Suitedness::Offsuit);
                    lemma_uniform(d, r1, r2, Suitedness::All);
                    if unsuit_ok(d, r1) && uniform(d, r1, r2, Suitedness::All) {
                        assert(covered(o2, i));
                        lemma_covered_grows(o2, out@, i);
                    } else if !unsuit_ok(d, r1) && uniform(d, r1, r2, su) {
                        assert(covered(o2, i));
                        lemma_covered_grows(o2, out@, i);
                    } else if !uniform(d, r1, r2, su) {
                        assert(covered(out@, i));
                    } else {
                        // unsuit_ok holds, the whole class is mixed, and the hand's side is uniform
                        assert(unsuit_ok(d, r1));
                        if uniform(d, r1, r2, other) {
                            lemma_unsplit(d, r1, r2);
                        }
                        assert(false);
                    }
                }
            }
        }
        let mut text = string_of("");
        proof {
            reveal_strlit("");
        }
        let mut k: usize = 0;
        while k < out.len()
            invariant
                k <= out@.len(),
                text@ == join_commas(texts(out@).subrange(0, k as int)),
            decreases out@.len() - k,
        {
            let ghost prev = texts(out@).subrange(0, k as int);
            if k > 0 {
                push_char(&mut text, ',');
            }
            push_text(&mut text, out[k].0.as_str());
            proof {
                let cur = texts(out@).subrange(0, k + 1);
                assert(cur.drop_last() =~= prev);
                assert(cur.last() == out@[k as int].0@);
                if k == 0 {
                    assert(text@ =~= cur[0]);
                } else {
                    assert(text@ =~= join_commas(prev) + seq![','] + cur.last());
                }
            }
            k = k + 1;
        }
        proof {
            assert(texts(out@).subrange(0, out@.len() as int) =~= texts(out@));
            lemma_round_trip(d, out@);
            assert(toks(out@) =~= printed_tokens(d));
            let t = printed_tokens(d);
            assert(texts(out@) =~= Seq::new(t.len(), |k: int| token_text(t[k].0, t[k].1))) by {
                assert forall|k: int| 0 <= k < t.len() implies texts(out@)[k] == token_text(t[k].0, t[k].1) by {
                    assert(toks(out@)[k] == t[k]);
                }
            }
        }
        text
    }
}

} // verus!
