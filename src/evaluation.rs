use vstd::prelude::*;
use crate::utility::{curve_value, UtilityFile, MAX_UTILITY};

verus! {

/// Largest reach weight of one hand.
pub const MAX_WEIGHT: u64 = 0xFFFF_FFFF;

/// Marks a hand of one player that the other player cannot hold.
pub const NO_SAME_HAND: u16 = 0xFFFF;

/// A hole hand `(c1, c2)` with `c1 < c2 < 52`.
pub open spec fn hand_ok(h: (u8, u8)) -> bool {
    h.0 < h.1 < 52
}

/// Which opponent hands a sum counts, relative to the acting hand `(c1, c2)`.
pub enum HandFilter {
    Every,
    Holds(u8),
    Same(u8, u8),
    Disjoint(u8, u8),
}

pub open spec fn passes(f: HandFilter, h: (u8, u8)) -> bool {
    match f {
        HandFilter::Every => true,
        HandFilter::Holds(c) => h.0 == c || h.1 == c,
        HandFilter::Same(c1, c2) => h.0 == c1 && h.1 == c2,
        HandFilter::Disjoint(c1, c2) => h.0 != c1 && h.0 != c2 && h.1 != c1 && h.1 != c2,
    }
}

/// Sum of the weights `w[idx[k]]`, `k < n`, of the hands `cards[idx[k]]` that pass `f`.
pub open spec fn index_sum(
    idx: Seq<u16>,
    cards: Seq<(u8, u8)>,
    w: Seq<u32>,
    n: int,
    f: HandFilter,
) -> int
    decreases n,
{
    if n <= 0 {
        0
    } else {
        index_sum(idx, cards, w, n - 1, f) + if passes(f, cards[idx[n - 1] as int]) {
            w[idx[n - 1] as int] as int
        } else {
            0
        }
    }
}

/// Opponent hands that avoid both cards of `(c1, c2)`, counted by inclusion and exclusion:
/// all hands, less those holding `c1`, less those holding `c2`, plus the hand `(c1, c2)`
/// itself, which was taken away twice.
pub proof fn lemma_index_sum_incl_excl(
    idx: Seq<u16>,
    cards: Seq<(u8, u8)>,
    w: Seq<u32>,
    n: int,
    c1: u8,
    c2: u8,
)
    requires
        c1 < c2,
        0 <= n <= idx.len(),
        forall|k: int| 0 <= k < n ==> (#[trigger] idx[k] as int) < cards.len() && hand_ok(cards[idx[k] as int]),
    ensures
        index_sum(idx, cards, w, n, HandFilter::Every) - index_sum(idx, cards, w, n, HandFilter::Holds(c1))
            - index_sum(idx, cards, w, n, HandFilter::Holds(c2)) + index_sum(idx, cards, w, n, HandFilter::Same(c1, c2))
            == index_sum(idx, cards, w, n, HandFilter::Disjoint(c1, c2)),
    decreases n,
{
    if n > 0 {
        lemma_index_sum_incl_excl(idx, cards, w, n - 1, c1, c2);
        let h = cards[idx[n - 1] as int];
        assert(hand_ok(h));
    }
}

/// Bounds of a weight sum.
proof fn lemma_index_sum_bounds(
    idx: Seq<u16>,
    cards: Seq<(u8, u8)>,
    w: Seq<u32>,
    n: int,
    f: HandFilter,
)
    requires
        0 <= n,
    ensures
        0 <= index_sum(idx, cards, w, n, f) <= index_sum(idx, cards, w, n, HandFilter::Every),
        index_sum(idx, cards, w, n, HandFilter::Every) <= n * MAX_WEIGHT,
    decreases n,
{
    if n > 0 {
        lemma_index_sum_bounds(idx, cards, w, n - 1, f);
    }
}

/// With no index listed twice, the hands equal to `(c1, c2)` weigh `w[j]` if `j` is listed and
/// no other listed index holds that hand, and 0 if none does.
proof fn lemma_index_sum_same(
    idx: Seq<u16>,
    cards: Seq<(u8, u8)>,
    w: Seq<u32>,
    n: int,
    c1: u8,
    c2: u8,
    j: u16,
)
    requires
        0 <= n <= idx.len(),
        idx.no_duplicates(),
        forall|k: int| 0 <= k < n ==> (idx[k] as int) < cards.len(),
        forall|k: int|
            0 <= k < n && #[trigger] cards[idx[k] as int] == (c1, c2) ==> idx[k] == j,
    ensures
        index_sum(idx, cards, w, n, HandFilter::Same(c1, c2)) == if idx.subrange(0, n).contains(j)
            && (j as int) < cards.len() && cards[j as int] == (c1, c2) {
            w[j as int] as int
        } else {
            0
        },
    decreases n,
{
    if n > 0 {
        lemma_index_sum_same(idx, cards, w, n - 1, c1, c2, j);
        assert(idx.subrange(0, n - 1) =~= idx.subrange(0, n).drop_last());
        if idx[n - 1] == j {
            assert(!idx.subrange(0, n - 1).contains(j)) by {
                if idx.subrange(0, n - 1).contains(j) {
                    let k = choose|k: int| 0 <= k < n - 1 && #[trigger] idx.subrange(0, n - 1)[k] == j;
                    assert(idx[k] == idx[n - 1]);
                }
            }
            assert(idx.subrange(0, n)[n - 1] == j);
        } else {
            assert(idx.subrange(0, n).contains(j) <==> idx.subrange(0, n - 1).contains(j)) by {
                if idx.subrange(0, n).contains(j) {
                    let k = choose|k: int| 0 <= k < n && #[trigger] idx.subrange(0, n)[k] == j;
                    assert(idx.subrange(0, n - 1)[k] == j);
                }
                if idx.subrange(0, n - 1).contains(j) {
                    let k = choose|k: int| 0 <= k < n - 1 && #[trigger] idx.subrange(0, n - 1)[k] == j;
                    assert(idx.subrange(0, n)[k] == j);
                }
            }
        }
    }
}

/// Well-formed hands and weights on one side of a terminal node.
pub open spec fn hands_ok(cards: Seq<(u8, u8)>) -> bool {
    forall|i: int| 0 <= i < cards.len() ==> hand_ok(#[trigger] cards[i])
}

/// `same[i]` names the opponent hand equal to the acting hand `i`, or is `NO_SAME_HAND`.
pub open spec fn same_hand_ok(
    player_cards: Seq<(u8, u8)>,
    opponent_cards: Seq<(u8, u8)>,
    same: Seq<u16>,
) -> bool {
    &&& same.len() == player_cards.len()
    &&& forall|i: int|
        0 <= i < same.len() && #[trigger] same[i] != NO_SAME_HAND ==> (same[i] as int)
            < opponent_cards.len() && opponent_cards[same[i] as int] == player_cards[i]
    &&& forall|i: int, j: int|
        0 <= i < player_cards.len() && 0 <= j < opponent_cards.len() && #[trigger] opponent_cards[j]
            == #[trigger] player_cards[i] ==> same[i] == j
}

/// Every listed index is below `n`, and none is listed twice.
pub open spec fn indices_ok(idx: Seq<u16>, n: int) -> bool {
    &&& idx.no_duplicates()
    &&& forall|k: int| 0 <= k < idx.len() ==> (#[trigger] idx[k] as int) < n
}

/// A list of distinct values below `n` has at most `n` entries.
proof fn lemma_distinct_below(idx: Seq<u16>, n: int)
    requires
        idx.no_duplicates(),
        0 <= n,
        forall|k: int| 0 <= k < idx.len() ==> (#[trigger] idx[k] as int) < n,
    ensures
        idx.len() <= n,
{
    let s = idx.to_set();
    idx.unique_seq_to_set();
    let f = |v: u16| v as int;
    let img = s.map(f);
    vstd::set_lib::lemma_int_range(0, n);
    assert(img.subset_of(vstd::set_lib::set_int_range(0, n))) by {
        assert forall|x: int| img.contains(x) implies vstd::set_lib::set_int_range(0, n).contains(x) by {
            let v = choose|v: u16| s.contains(v) && f(v) == x;
            let k = choose|k: int| 0 <= k < idx.len() && idx[k] == v;
            assert(idx[k] == v);
        }
    }
    assert(vstd::relations::injective_on(f, s)) by {
        assert forall|x: u16, y: u16| s.contains(x) && s.contains(y) && f(x) == f(y) implies x == y by {}
    }
    vstd::set_lib::lemma_map_size(s, img, f);
    vstd::set_lib::lemma_len_subset(img, vstd::set_lib::set_int_range(0, n));
}

/// Sums the weights of the first `n` listed opponent hands, in total and per card.
fn accumulate_indices(idx: &Vec<u16>, cards: &Vec<(u8, u8)>, w: &Vec<u32>) -> (r: (u64, Vec<u64>))
    requires
        idx@.len() <= 0x10000,
        w@.len() == cards@.len(),
        hands_ok(cards@),
        forall|k: int| 0 <= k < idx@.len() ==> (#[trigger] idx@[k] as int) < cards@.len(),
    ensures
        r.0 == index_sum(idx@, cards@, w@, idx@.len() as int, HandFilter::Every),
        r.1@.len() == 52,
        forall|c: int|
            0 <= c < 52 ==> #[trigger] r.1@[c] == index_sum(
                idx@,
                cards@,
                w@,
                idx@.len() as int,
                HandFilter::Holds(c as u8),
            ),
{
    let mut sum: u64 = 0;
    let mut minus: Vec<u64> = vec![0u64; 52];
    let mut k: usize = 0;
    while k < idx.len()
        invariant
            k <= idx@.len() <= 0x10000,
            w@.len() == cards@.len(),
            hands_ok(cards@),
            forall|k: int| 0 <= k < idx@.len() ==> (#[trigger] idx@[k] as int) < cards@.len(),
            sum == index_sum(idx@, cards@, w@, k as int, HandFilter::Every),
            minus@.len() == 52,
            forall|c: int|
                0 <= c < 52 ==> #[trigger] minus@[c] == index_sum(
                    idx@,
                    cards@,
                    w@,
                    k as int,
                    HandFilter::Holds(c as u8),
                ),
        decreases idx@.len() - k,
    {
        proof {
            lemma_index_sum_bounds(idx@, cards@, w@, k as int, HandFilter::Every);
            assert forall|c: int| 0 <= c < 52 implies minus@[c] <= k * MAX_WEIGHT by {
                lemma_index_sum_bounds(idx@, cards@, w@, k as int, HandFilter::Holds(c as u8));
            }
            assert(k * MAX_WEIGHT <= 0x10000 * MAX_WEIGHT) by (nonlinear_arith)
                requires
                    k <= 0x10000,
            ;
        }
        let j = idx[k] as usize;
        let (c1, c2) = cards[j];
        let wj = w[j] as u64;
        assert(hand_ok(cards@[j as int]));
        sum = sum + wj;
        let m1 = minus[c1 as usize] + wj;
        minus.set(c1 as usize, m1);
        let m2 = minus[c2 as usize] + wj;
        minus.set(c2 as usize, m2);
        k = k + 1;
        assert forall|c: int| 0 <= c < 52 implies #[trigger] minus@[c] == index_sum(
            idx@,
            cards@,
            w@,
            k as int,
            HandFilter::Holds(c as u8),
        ) by {
            assert(c == c1 as int ==> (c as u8) == c1);
            assert(c == c2 as int ==> (c as u8) == c2);
        }
    }
    (sum, minus)
}

/// Counterfactual values at a terminal node where a player folded.
///
/// `result[i]` is `payoff` times the total reach of the listed opponent hands that share no
/// card with the acting hand `i`, for each listed acting hand, and 0 for the others.
pub fn fold_values(
    player_cards: &Vec<(u8, u8)>,
    opponent_cards: &Vec<(u8, u8)>,
    same_hand_index: &Vec<u16>,
    player_indices: &Vec<u16>,
    opponent_indices: &Vec<u16>,
    cfreach: &Vec<u32>,
    payoff: i64,
) -> (result: Vec<i128>)
    requires
        hands_ok(player_cards@),
        hands_ok(opponent_cards@),
        cfreach@.len() == opponent_cards@.len(),
        same_hand_ok(player_cards@, opponent_cards@, same_hand_index@),
        indices_ok(player_indices@, player_cards@.len() as int),
        indices_ok(opponent_indices@, opponent_cards@.len() as int),
        player_cards@.len() < 0xFFFF,
        opponent_cards@.len() < 0xFFFF,
        forall|k: int|
            0 <= k < player_indices@.len() && #[trigger] same_hand_index@[player_indices@[k] as int]
                != NO_SAME_HAND ==> opponent_indices@.contains(same_hand_index@[player_indices@[k] as int]),
    ensures
        result@.len() == player_cards@.len(),
        forall|i: int|
            0 <= i < result@.len() ==> #[trigger] result@[i] == if player_indices@.contains(
                i as u16,
            ) {
                payoff * index_sum(
                    opponent_indices@,
                    opponent_cards@,
                    cfreach@,
                    opponent_indices@.len() as int,
                    HandFilter::Disjoint(player_cards@[i].0, player_cards@[i].1),
                )
            } else {
                0
            },
{
    let n = player_cards.len();
    let mut result: Vec<i128> = Vec::new();
    let mut t: usize = 0;
    while t < n
        invariant
            t <= n == player_cards@.len(),
            result@.len() == t,
            forall|i: int| 0 <= i < t ==> #[trigger] result@[i] == 0,
        decreases n - t,
    {
        result.push(0);
        t = t + 1;
    }
    let ghost oidx = opponent_indices@;
    let ghost ocards = opponent_cards@;
    let ghost on = opponent_indices@.len() as int;
    proof {
        assert(opponent_indices@.len() <= 0x10000) by {
            assert(forall|k: int| 0 <= k < oidx.len() ==> (#[trigger] oidx[k] as int) < 0xFFFF);
            lemma_distinct_below(oidx, 0xFFFF);
        }
    }
    let (sum, minus) = accumulate_indices(opponent_indices, opponent_cards, cfreach);
    if sum == 0 {
        assert forall|i: int| 0 <= i < result@.len() implies #[trigger] result@[i] == if player_indices@.contains(
            i as u16,
        ) {
            payoff * index_sum(
                oidx,
                ocards,
                cfreach@,
                on,
                HandFilter::Disjoint(player_cards@[i].0, player_cards@[i].1),
            )
        } else {
            0
        } by {
            lemma_index_sum_bounds(
                oidx,
                ocards,
                cfreach@,
                on,
                HandFilter::Disjoint(player_cards@[i].0, player_cards@[i].1),
            );
            let d = index_sum(
                oidx,
                ocards,
                cfreach@,
                on,
                HandFilter::Disjoint(player_cards@[i].0, player_cards@[i].1),
            );
            assert(d == 0);
            assert(payoff * d == 0);
        }
        return result;
    }
    let mut k: usize = 0;
    while k < player_indices.len()
        invariant
            k <= player_indices@.len(),
            result@.len() == n == player_cards@.len(),
            hands_ok(player_cards@),
            hands_ok(opponent_cards@),
            cfreach@.len() == opponent_cards@.len(),
            same_hand_ok(player_cards@, opponent_cards@, same_hand_index@),
            indices_ok(player_indices@, player_cards@.len() as int),
            indices_ok(opponent_indices@, opponent_cards@.len() as int),
            player_cards@.len() < 0xFFFF,
            opponent_cards@.len() < 0xFFFF,
            opponent_indices@.len() <= 0x10000,
            forall|q: int|
                0 <= q < player_indices@.len() && #[trigger] same_hand_index@[player_indices@[q] as int]
                    != NO_SAME_HAND ==> opponent_indices@.contains(same_hand_index@[player_indices@[q] as int]),
            sum == index_sum(oidx, ocards, cfreach@, on, HandFilter::Every),
            minus@.len() == 52,
            forall|c: int|
                0 <= c < 52 ==> #[trigger] minus@[c] == index_sum(
                    oidx,
                    ocards,
                    cfreach@,
                    on,
                    HandFilter::Holds(c as u8),
                ),
            oidx == opponent_indices@,
            ocards == opponent_cards@,
            on == oidx.len(),
            forall|i: int|
                0 <= i < result@.len() ==> #[trigger] result@[i] == if player_indices@.subrange(
                    0,
                    k as int,
                ).contains(i as u16) {
                    payoff * index_sum(
                        oidx,
                        ocards,
                        cfreach@,
                        on,
                        HandFilter::Disjoint(player_cards@[i].0, player_cards@[i].1),
                    )
                } else {
                    0
                },
        decreases player_indices@.len() - k,
    {
        let i = player_indices[k] as usize;
        let (c1, c2) = player_cards[i];
        let same_i = same_hand_index[i];
        assert(hand_ok(player_cards@[i as int]));
        let cfreach_same: u64 = if same_i == NO_SAME_HAND {
            0
        } else {
            cfreach[same_i as usize] as u64
        };
        proof {
            lemma_index_sum_incl_excl(oidx, ocards, cfreach@, on, c1, c2);
            lemma_index_sum_same(oidx, ocards, cfreach@, on, c1, c2, same_i);
            assert(oidx.subrange(0, on) =~= oidx);
            lemma_index_sum_bounds(oidx, ocards, cfreach@, on, HandFilter::Every);
            lemma_index_sum_bounds(oidx, ocards, cfreach@, on, HandFilter::Holds(c1));
            lemma_index_sum_bounds(oidx, ocards, cfreach@, on, HandFilter::Holds(c2));
            lemma_index_sum_bounds(oidx, ocards, cfreach@, on, HandFilter::Disjoint(c1, c2));
            assert(on * MAX_WEIGHT <= 0x10000 * MAX_WEIGHT) by (nonlinear_arith)
                requires
                    on <= 0x10000,
            ;
            assert forall|q: int|
                0 <= q < on && #[trigger] ocards[oidx[q] as int] == (c1, c2) implies oidx[q] == same_i by {
                let j = oidx[q] as int;
                assert(ocards[j] == player_cards@[i as int]);
            }
            if same_i != NO_SAME_HAND {
                assert(ocards[same_i as int] == player_cards@[i as int]);
                assert(same_hand_index@[player_indices@[k as int] as int] == same_i);
                assert(oidx.contains(same_i));
            }
        }
        let reach: i128 = sum as i128 + cfreach_same as i128 - minus[c1 as usize] as i128
            - minus[c2 as usize] as i128;
        proof {
            assert(0 <= reach <= 0x10000 * MAX_WEIGHT);
            assert(-0x8000_0000_0000_0000 * 0x10000 * MAX_WEIGHT <= payoff * reach
                <= 0x8000_0000_0000_0000 * 0x10000 * MAX_WEIGHT) by (nonlinear_arith)
                requires
                    0 <= reach <= 0x10000 * MAX_WEIGHT,
                    -0x8000_0000_0000_0000 <= payoff < 0x8000_0000_0000_0000,
            ;
        }
        let value: i128 = payoff as i128 * reach;
        result.set(i, value);
        k = k + 1;
        proof {
            assert forall|x: int| 0 <= x < result@.len() implies #[trigger] result@[x] == if player_indices@.subrange(
                0,
                k as int,
            ).contains(x as u16) {
                payoff * index_sum(
                    oidx,
                    ocards,
                    cfreach@,
                    on,
                    HandFilter::Disjoint(player_cards@[x].0, player_cards@[x].1),
                )
            } else {
                0
            } by {
                let sub = player_indices@.subrange(0, k as int);
                let prev = player_indices@.subrange(0, k - 1);
                assert(prev =~= sub.drop_last());
                assert(sub[k - 1] == i as u16);
                if x != i {
                    assert((x as u16) != (i as u16));
                    if sub.contains(x as u16) {
                        let y = choose|y: int| 0 <= y < sub.len() && #[trigger] sub[y] == x as u16;
                        assert(prev[y] == x as u16);
                    }
                    if prev.contains(x as u16) {
                        let y = choose|y: int| 0 <= y < prev.len() && #[trigger] prev[y] == x as u16;
                        assert(sub[y] == x as u16);
                    }
                }
            }
        }
    }
    assert(player_indices@.subrange(0, player_indices@.len() as int) =~= player_indices@);
    result
}

/// One hand of a strength array: its rank on the board (higher is stronger, equal is a
/// tie) and its index among the player's hands.
#[derive(Clone, Copy, Debug, PartialEq, Eq)]
pub struct StrengthItem {
    pub strength: u16,
    pub index: u16,
}

/// Which opponent strengths a sum counts, relative to the acting hand's strength.
pub enum StrengthRel {
    Any,
    Below(u16),
    Equal(u16),
    Above(u16),
}

pub open spec fn rel_holds(r: StrengthRel, s: u16) -> bool {
    match r {
        StrengthRel::Any => true,
        StrengthRel::Below(t) => s < t,
        StrengthRel::Equal(t) => s == t,
        StrengthRel::Above(t) => s > t,
    }
}

/// Sum of the weights of the hands at positions `lo..hi` of a strength array that pass
/// both filters.
pub open spec fn strength_sum(
    items: Seq<StrengthItem>,
    cards: Seq<(u8, u8)>,
    w: Seq<u32>,
    lo: int,
    hi: int,
    f: HandFilter,
    r: StrengthRel,
) -> int
    decreases hi - lo,
{
    if hi <= lo {
        0
    } else {
        strength_sum(items, cards, w, lo, hi - 1, f, r) + if rel_holds(r, items[hi - 1].strength)
            && passes(f, cards[items[hi - 1].index as int]) {
            w[items[hi - 1].index as int] as int
        } else {
            0
        }
    }
}

/// A strength array: ascending, bracketed by the sentinels 0 and `0xFFFF`, with the
/// hands in between naming distinct indices below `n`.
pub open spec fn strengths_ok(items: Seq<StrengthItem>, n: int) -> bool {
    &&& 2 <= items.len() <= 0x10000
    &&& items[0].strength == 0
    &&& items[items.len() - 1].strength == 0xFFFF
    &&& forall|m: int|
        1 <= m < items.len() - 1 ==> 0 < (#[trigger] items[m]).strength < 0xFFFF && (
        items[m].index as int) < n
    &&& forall|a: int, b: int|
        0 <= a <= b < items.len() ==> (#[trigger] items[a]).strength <= (#[trigger] items[b]).strength
    &&& forall|a: int, b: int|
        1 <= a < items.len() - 1 && 1 <= b < items.len() - 1 && a != b ==> (#[trigger] items[a]).index
            != (#[trigger] items[b]).index
}

/// Equal hands of the two players have equal strength.
pub open spec fn strength_of_hand_ok(
    player_items: Seq<StrengthItem>,
    opponent_items: Seq<StrengthItem>,
    player_cards: Seq<(u8, u8)>,
    opponent_cards: Seq<(u8, u8)>,
) -> bool {
    forall|k: int, m: int|
        1 <= k < player_items.len() - 1 && 1 <= m < opponent_items.len() - 1
            && opponent_cards[(#[trigger] opponent_items[m]).index as int]
            == player_cards[(#[trigger] player_items[k]).index as int]
            ==> opponent_items[m].strength == player_items[k].strength
}

proof fn lemma_strength_sum_split(
    items: Seq<StrengthItem>,
    cards: Seq<(u8, u8)>,
    w: Seq<u32>,
    lo: int,
    mid: int,
    hi: int,
    f: HandFilter,
    r: StrengthRel,
)
    requires
        lo <= mid <= hi,
    ensures
        strength_sum(items, cards, w, lo, hi, f, r) == strength_sum(items, cards, w, lo, mid, f, r)
            + strength_sum(items, cards, w, mid, hi, f, r),
    decreases hi - mid,
{
    if mid < hi {
        lemma_strength_sum_split(items, cards, w, lo, mid, hi - 1, f, r);
    }
}

proof fn lemma_strength_sum_incl_excl(
    items: Seq<StrengthItem>,
    cards: Seq<(u8, u8)>,
    w: Seq<u32>,
    lo: int,
    hi: int,
    c1: u8,
    c2: u8,
    r: StrengthRel,
)
    requires
        c1 < c2,
        0 <= lo,
        hi <= items.len(),
        forall|m: int| lo <= m < hi ==> hand_ok(cards[(#[trigger] items[m]).index as int]),
    ensures
        strength_sum(items, cards, w, lo, hi, HandFilter::Every, r) - strength_sum(
            items,
            cards,
            w,
            lo,
            hi,
            HandFilter::Holds(c1),
            r,
        ) - strength_sum(items, cards, w, lo, hi, HandFilter::Holds(c2), r) + strength_sum(
            items,
            cards,
            w,
            lo,
            hi,
            HandFilter::Same(c1, c2),
            r,
        ) == strength_sum(items, cards, w, lo, hi, HandFilter::Disjoint(c1, c2), r),
    decreases hi - lo,
{
    if lo < hi {
        lemma_strength_sum_incl_excl(items, cards, w, lo, hi - 1, c1, c2, r);
        assert(hand_ok(cards[items[hi - 1].index as int]));
    }
}

proof fn lemma_strength_sum_bounds(
    items: Seq<StrengthItem>,
    cards: Seq<(u8, u8)>,
    w: Seq<u32>,
    lo: int,
    hi: int,
    f: HandFilter,
    r: StrengthRel,
)
    requires
        lo <= hi,
    ensures
        0 <= strength_sum(items, cards, w, lo, hi, f, r) <= strength_sum(
            items,
            cards,
            w,
            lo,
            hi,
            HandFilter::Every,
            StrengthRel::Any,
        ),
        strength_sum(items, cards, w, lo, hi, HandFilter::Every, StrengthRel::Any) <= (hi - lo)
            * MAX_WEIGHT,
    decreases hi - lo,
{
    if lo < hi {
        lemma_strength_sum_bounds(items, cards, w, lo, hi - 1, f, r);
    }
}

/// Where every position of `lo..hi` meets `r`, the sum does not depend on `r`.
proof fn lemma_strength_sum_rel_all(
    items: Seq<StrengthItem>,
    cards: Seq<(u8, u8)>,
    w: Seq<u32>,
    lo: int,
    hi: int,
    f: HandFilter,
    r: StrengthRel,
)
    requires
        forall|m: int| lo <= m < hi ==> rel_holds(r, (#[trigger] items[m]).strength),
    ensures
        strength_sum(items, cards, w, lo, hi, f, r) == strength_sum(
            items,
            cards,
            w,
            lo,
            hi,
            f,
            StrengthRel::Any,
        ),
    decreases hi - lo,
{
    if lo < hi {
        lemma_strength_sum_rel_all(items, cards, w, lo, hi - 1, f, r);
        assert(rel_holds(r, items[hi - 1].strength));
    }
}

/// Where no position of `lo..hi` passes both filters, the sum is 0.
proof fn lemma_strength_sum_none(
    items: Seq<StrengthItem>,
    cards: Seq<(u8, u8)>,
    w: Seq<u32>,
    lo: int,
    hi: int,
    f: HandFilter,
    r: StrengthRel,
)
    requires
        forall|m: int|
            lo <= m < hi && passes(f, cards[(#[trigger] items[m]).index as int]) ==> !rel_holds(
                r,
                items[m].strength,
            ),
    ensures
        strength_sum(items, cards, w, lo, hi, f, r) == 0,
    decreases hi - lo,
{
    if lo < hi {
        lemma_strength_sum_none(items, cards, w, lo, hi - 1, f, r);
        assert(passes(f, cards[items[hi - 1].index as int]) ==> !rel_holds(r, items[hi - 1].strength));
    }
}

/// The hand equal to `(c1, c2)` is listed once, at position `p`, as index `j`: the sum of
/// equal hands is its weight.
proof fn lemma_strength_sum_same_one(
    items: Seq<StrengthItem>,
    cards: Seq<(u8, u8)>,
    w: Seq<u32>,
    lo: int,
    hi: int,
    c1: u8,
    c2: u8,
    r: StrengthRel,
    p: int,
)
    requires
        lo <= p < hi,
        cards[items[p].index as int] == (c1, c2),
        rel_holds(r, items[p].strength),
        forall|a: int| lo <= a < hi && a != p ==> (#[trigger] items[a]).index != items[p].index,
        forall|a: int|
            lo <= a < hi && #[trigger] cards[items[a].index as int] == (c1, c2) ==> items[a].index
                == items[p].index,
    ensures
        strength_sum(items, cards, w, lo, hi, HandFilter::Same(c1, c2), r) == w[items[p].index as int] as int,
{
    let f = HandFilter::Same(c1, c2);
    lemma_strength_sum_split(items, cards, w, lo, p, hi, f, r);
    lemma_strength_sum_split(items, cards, w, p, p + 1, hi, f, r);
    assert forall|m: int| lo <= m < p && passes(f, cards[(#[trigger] items[m]).index as int]) implies !rel_holds(
        r,
        items[m].strength,
    ) by {
        assert(cards[items[m].index as int] == (c1, c2));
    }
    lemma_strength_sum_none(items, cards, w, lo, p, f, r);
    assert forall|m: int| p + 1 <= m < hi && passes(f, cards[(#[trigger] items[m]).index as int]) implies !rel_holds(
        r,
        items[m].strength,
    ) by {
        assert(cards[items[m].index as int] == (c1, c2));
    }
    lemma_strength_sum_none(items, cards, w, p + 1, hi, f, r);
    assert(strength_sum(items, cards, w, p, p, f, r) == 0);
    assert(passes(f, cards[items[p].index as int]));
    assert(strength_sum(items, cards, w, p, p + 1, f, r) == w[items[p].index as int] as int);
}

/// Adds one opponent hand to a running total and its per-card totals.
fn add_hand(sum: &mut u64, minus: &mut Vec<u64>, h: (u8, u8), wh: u32)
    requires
        hand_ok(h),
        old(minus)@.len() == 52,
        *old(sum) <= 0x10000 * MAX_WEIGHT,
        forall|c: int| 0 <= c < 52 ==> #[trigger] old(minus)@[c] <= 0x10000 * MAX_WEIGHT,
    ensures
        *final(sum) == *old(sum) + wh,
        final(minus)@.len() == 52,
        forall|c: int|
            0 <= c < 52 ==> #[trigger] final(minus)@[c] == old(minus)@[c] + if passes(
                HandFilter::Holds(c as u8),
                h,
            ) {
                wh as int
            } else {
                0
            },
{
    let (c1, c2) = h;
    *sum = *sum + wh as u64;
    let m1 = minus[c1 as usize] + wh as u64;
    minus.set(c1 as usize, m1);
    let m2 = minus[c2 as usize] + wh as u64;
    minus.set(c2 as usize, m2);
    assert forall|c: int| 0 <= c < 52 implies #[trigger] minus@[c] == old(minus)@[c] + if passes(
        HandFilter::Holds(c as u8),
        h,
    ) {
        wh as int
    } else {
        0
    } by {
        assert(c == c1 as int ==> (c as u8) == c1);
        assert(c == c2 as int ==> (c as u8) == c2);
    }
}

/// A vector of `n` zeros.
fn zeros(n: usize) -> (r: Vec<i128>)
    ensures
        r@.len() == n,
        forall|i: int| 0 <= i < n ==> #[trigger] r@[i] == 0,
{
    let mut r: Vec<i128> = Vec::new();
    let mut t: usize = 0;
    while t < n
        invariant
            t <= n,
            r@.len() == t,
            forall|i: int| 0 <= i < t ==> #[trigger] r@[i] == 0,
        decreases n - t,
    {
        r.push(0);
        t = t + 1;
    }
    r
}

/// Total reach of the opponent's hands, between the sentinels, that share no card with `h`
/// and whose strength meets `r`.
pub open spec fn opponent_reach(
    opponent_items: Seq<StrengthItem>,
    opponent_cards: Seq<(u8, u8)>,
    cfreach: Seq<u32>,
    h: (u8, u8),
    r: StrengthRel,
) -> int {
    strength_sum(
        opponent_items,
        opponent_cards,
        cfreach,
        1,
        opponent_items.len() - 1,
        HandFilter::Disjoint(h.0, h.1),
        r,
    )
}

/// Counterfactual value at a showdown of a hand `h` of strength `s`: each opponent hand that
/// shares no card with it pays `win` if weaker, `tie` if as strong, `lose` if stronger.
pub open spec fn showdown_value(
    opponent_items: Seq<StrengthItem>,
    opponent_cards: Seq<(u8, u8)>,
    cfreach: Seq<u32>,
    h: (u8, u8),
    s: u16,
    win: int,
    tie: int,
    lose: int,
) -> int {
    win * opponent_reach(opponent_items, opponent_cards, cfreach, h, StrengthRel::Below(s)) + tie
        * opponent_reach(opponent_items, opponent_cards, cfreach, h, StrengthRel::Equal(s)) + lose
        * opponent_reach(opponent_items, opponent_cards, cfreach, h, StrengthRel::Above(s))
}

/// Some position of `lo..hi` names index `x`.
pub open spec fn listed(items: Seq<StrengthItem>, lo: int, hi: int, x: int) -> bool {
    exists|m: int| lo <= m < hi && (#[trigger] items[m]).index as int == x
}

/// The inputs of a showdown: hands, reach weights and the two strength arrays.
pub open spec fn showdown_ok(
    player_cards: Seq<(u8, u8)>,
    opponent_cards: Seq<(u8, u8)>,
    player_items: Seq<StrengthItem>,
    opponent_items: Seq<StrengthItem>,
    cfreach: Seq<u32>,
) -> bool {
    &&& hands_ok(player_cards)
    &&& hands_ok(opponent_cards)
    &&& player_cards.len() < 0xFFFF
    &&& opponent_cards.len() < 0xFFFF
    &&& cfreach.len() == opponent_cards.len()
    &&& strengths_ok(player_items, player_cards.len() as int)
    &&& strengths_ok(opponent_items, opponent_cards.len() as int)
    &&& strength_of_hand_ok(player_items, opponent_items, player_cards, opponent_cards)
}

proof fn lemma_sum_small(
    items: Seq<StrengthItem>,
    cards: Seq<(u8, u8)>,
    w: Seq<u32>,
    lo: int,
    hi: int,
    f: HandFilter,
    r: StrengthRel,
)
    requires
        0 <= lo <= hi <= 0x10000,
    ensures
        0 <= strength_sum(items, cards, w, lo, hi, f, r) <= 0x10000 * MAX_WEIGHT,
        strength_sum(items, cards, w, lo, hi, HandFilter::Every, StrengthRel::Any) <= 0x10000
            * MAX_WEIGHT,
{
    lemma_strength_sum_bounds(items, cards, w, lo, hi, f, r);
    assert((hi - lo) * MAX_WEIGHT <= 0x10000 * MAX_WEIGHT) by (nonlinear_arith)
        requires
            0 <= hi - lo <= 0x10000,
    ;
}

proof fn lemma_mul_fits(a: int, x: int)
    requires
        -0x8000_0000_0000_0000 <= a < 0x8000_0000_0000_0000,
        0 <= x <= 0x10000 * MAX_WEIGHT,
    ensures
        -0x8000_0000_0000_0000 * 0x10000 * MAX_WEIGHT <= a * x <= 0x8000_0000_0000_0000 * 0x10000
            * MAX_WEIGHT,
{
    assert(-0x8000_0000_0000_0000 * 0x10000 * MAX_WEIGHT <= a * x <= 0x8000_0000_0000_0000 * 0x10000
        * MAX_WEIGHT) by (nonlinear_arith)
        requires
            -0x8000_0000_0000_0000 <= a < 0x8000_0000_0000_0000,
            0 <= x <= 0x10000 * MAX_WEIGHT,
    ;
}

/// Counterfactual values at an unraked showdown, in two sweeps over the strength arrays.
///
/// For each hand listed in `player_strength`, `result` holds `amount_win` times the reach of
/// the weaker opponent hands plus `amount_lose` times that of the stronger ones, counting only
/// opponent hands that share no card with it; ties pay nothing. Unlisted hands get 0.
pub fn showdown_values(
    player_cards: &Vec<(u8, u8)>,
    opponent_cards: &Vec<(u8, u8)>,
    player_strength: &Vec<StrengthItem>,
    opponent_strength: &Vec<StrengthItem>,
    cfreach: &Vec<u32>,
    amount_win: i64,
    amount_lose: i64,
) -> (result: Vec<i128>)
    requires
        showdown_ok(player_cards@, opponent_cards@, player_strength@, opponent_strength@, cfreach@),
    ensures
        result@.len() == player_cards@.len(),
        forall|m: int|
            1 <= m < player_strength@.len() - 1 ==> result@[(#[trigger] player_strength@[m]).index as int]
                == showdown_value(
                opponent_strength@,
                opponent_cards@,
                cfreach@,
                player_cards@[player_strength@[m].index as int],
                player_strength@[m].strength,
                amount_win as int,
                0,
                amount_lose as int,
            ),
        forall|x: int|
            0 <= x < result@.len() && !listed(player_strength@, 1, player_strength@.len() - 1, x)
                ==> #[trigger] result@[x] == 0,
{
    let ghost pc = player_cards@;
    let ghost oc = opponent_cards@;
    let ghost pi = player_strength@;
    let ghost oi = opponent_strength@;
    let ghost w = cfreach@;
    let plen = player_strength.len();
    let olen = opponent_strength.len();
    let mut result = zeros(player_cards.len());
    let mut sum: u64 = 0;
    let mut minus: Vec<u64> = vec![0u64; 52];
    let mut i: usize = 1;
    let mut k: usize = 1;
    while k < plen - 1
        invariant
            showdown_ok(pc, oc, pi, oi, w),
            pc == player_cards@,
            oc == opponent_cards@,
            pi == player_strength@,
            oi == opponent_strength@,
            w == cfreach@,
            plen == pi.len(),
            olen == oi.len(),
            1 <= k <= plen - 1,
            1 <= i <= olen - 1,
            k < plen - 1 ==> forall|m: int| 1 <= m < i ==> (#[trigger] oi[m]).strength < pi[k as int].strength,
            sum == strength_sum(oi, oc, w, 1, i as int, HandFilter::Every, StrengthRel::Any),
            minus@.len() == 52,
            forall|c: int|
                0 <= c < 52 ==> #[trigger] minus@[c] == strength_sum(
                    oi,
                    oc,
                    w,
                    1,
                    i as int,
                    HandFilter::Holds(c as u8),
                    StrengthRel::Any,
                ),
            result@.len() == pc.len(),
            forall|m: int|
                1 <= m < k ==> result@[(#[trigger] pi[m]).index as int] == amount_win
                    * opponent_reach(oi, oc, w, pc[pi[m].index as int], StrengthRel::Below(pi[m].strength)),
            forall|x: int|
                0 <= x < result@.len() && !listed(pi, 1, k as int, x) ==> #[trigger] result@[x] == 0,
        decreases plen - k,
    {
        let item = player_strength[k];
        assert(pi[k as int] == item);
        assert(0 < item.strength < 0xFFFF);
        while opponent_strength[i].strength < item.strength
            invariant
                showdown_ok(pc, oc, pi, oi, w),
                oc == opponent_cards@,
                oi == opponent_strength@,
                w == cfreach@,
                olen == oi.len(),
                0 < item.strength < 0xFFFF,
                1 <= i <= olen - 1,
                forall|m: int| 1 <= m < i ==> (#[trigger] oi[m]).strength < item.strength,
                sum == strength_sum(oi, oc, w, 1, i as int, HandFilter::Every, StrengthRel::Any),
                minus@.len() == 52,
                forall|c: int|
                    0 <= c < 52 ==> #[trigger] minus@[c] == strength_sum(
                        oi,
                        oc,
                        w,
                        1,
                        i as int,
                        HandFilter::Holds(c as u8),
                        StrengthRel::Any,
                    ),
            decreases olen - i,
        {
            proof {
                lemma_sum_small(oi, oc, w, 1, i as int, HandFilter::Every, StrengthRel::Any);
                assert forall|c: int| 0 <= c < 52 implies #[trigger] minus@[c] <= 0x10000 * MAX_WEIGHT by {
                    lemma_sum_small(oi, oc, w, 1, i as int, HandFilter::Holds(c as u8), StrengthRel::Any);
                }
                assert(i < olen - 1);
                assert(oi[i as int].index < oc.len());
            }
            let oidx = opponent_strength[i].index as usize;
            add_hand(&mut sum, &mut minus, opponent_cards[oidx], cfreach[oidx]);
            i = i + 1;
        }
        proof {
            assert(oi[i as int].strength >= item.strength);
            assert forall|m: int| i <= m < olen - 1 implies item.strength <= (#[trigger] oi[m]).strength by {
                assert(oi[i as int].strength <= oi[m].strength);
            }
        }
        let hidx = item.index as usize;
        let (c1, c2) = player_cards[hidx];
        assert(hand_ok(pc[hidx as int]));
        let ghost h = pc[hidx as int];
        proof {
            let s = item.strength;
            lemma_strength_sum_incl_excl(oi, oc, w, 1, i as int, c1, c2, StrengthRel::Any);
            assert forall|m: int|
                1 <= m < i && passes(HandFilter::Same(c1, c2), oc[(#[trigger] oi[m]).index as int]) implies !rel_holds(
                StrengthRel::Any,
                oi[m].strength,
            ) by {
                assert(oc[oi[m].index as int] == pc[pi[k as int].index as int]);
            }
            lemma_strength_sum_none(oi, oc, w, 1, i as int, HandFilter::Same(c1, c2), StrengthRel::Any);
            lemma_strength_sum_rel_all(oi, oc, w, 1, i as int, HandFilter::Disjoint(c1, c2), StrengthRel::Below(s));
            lemma_strength_sum_none(oi, oc, w, i as int, olen - 1, HandFilter::Disjoint(c1, c2), StrengthRel::Below(s));
            lemma_strength_sum_split(oi, oc, w, 1, i as int, olen - 1, HandFilter::Disjoint(c1, c2), StrengthRel::Below(s));
            lemma_sum_small(oi, oc, w, 1, i as int, HandFilter::Disjoint(c1, c2), StrengthRel::Any);
            lemma_sum_small(oi, oc, w, 1, i as int, HandFilter::Holds(c1), StrengthRel::Any);
            lemma_sum_small(oi, oc, w, 1, i as int, HandFilter::Holds(c2), StrengthRel::Any);
        }
        let reach: i128 = sum as i128 - minus[c1 as usize] as i128 - minus[c2 as usize] as i128;
        proof {
            lemma_mul_fits(amount_win as int, reach as int);
        }
        result.set(hidx, amount_win as i128 * reach);
        proof {
            assert forall|m: int|
                1 <= m < k + 1 implies result@[(#[trigger] pi[m]).index as int] == amount_win
                    * opponent_reach(oi, oc, w, pc[pi[m].index as int], StrengthRel::Below(pi[m].strength)) by {
                if m < k {
                    assert(pi[m].index != pi[k as int].index);
                }
            }
            assert forall|x: int|
                0 <= x < result@.len() && !listed(pi, 1, k + 1, x) implies #[trigger] result@[x] == 0 by {
                if listed(pi, 1, k as int, x) {
                    let m = choose|m: int| 1 <= m < k && (#[trigger] pi[m]).index as int == x;
                    assert(pi[m].index as int == x);
                }
                assert(pi[k as int].index as int != x);
            }
            if k + 1 < plen - 1 {
                assert(pi[k as int].strength <= pi[k + 1].strength);
            }
        }
        k = k + 1;
    }
    // second sweep, from the strongest hand down
    let mut sum: u64 = 0;
    let mut minus: Vec<u64> = vec![0u64; 52];
    let mut i: usize = olen - 2;
    let mut k: usize = plen - 1;
    while k > 1
        invariant
            showdown_ok(pc, oc, pi, oi, w),
            pc == player_cards@,
            oc == opponent_cards@,
            pi == player_strength@,
            oi == opponent_strength@,
            w == cfreach@,
            plen == pi.len(),
            olen == oi.len(),
            1 <= k <= plen - 1,
            0 <= i <= olen - 2,
            k > 1 ==> forall|m: int| i < m < olen - 1 ==> (#[trigger] oi[m]).strength > pi[k - 1].strength,
            sum == strength_sum(oi, oc, w, i + 1, olen - 1, HandFilter::Every, StrengthRel::Any),
            minus@.len() == 52,
            forall|c: int|
                0 <= c < 52 ==> #[trigger] minus@[c] == strength_sum(
                    oi,
                    oc,
                    w,
                    i + 1,
                    olen - 1,
                    HandFilter::Holds(c as u8),
                    StrengthRel::Any,
                ),
            result@.len() == pc.len(),
            forall|m: int|
                1 <= m < plen - 1 ==> result@[(#[trigger] pi[m]).index as int] == amount_win
                    * opponent_reach(oi, oc, w, pc[pi[m].index as int], StrengthRel::Below(pi[m].strength))
                    + if m >= k {
                    amount_lose * opponent_reach(
                        oi,
                        oc,
                        w,
                        pc[pi[m].index as int],
                        StrengthRel::Above(pi[m].strength),
                    )
                } else {
                    0
                },
            forall|x: int|
                0 <= x < result@.len() && !listed(pi, 1, plen - 1, x) ==> #[trigger] result@[x] == 0,
        decreases k,
    {
        let item = player_strength[k - 1];
        assert(pi[k - 1] == item);
        assert(0 < item.strength < 0xFFFF);
        while opponent_strength[i].strength > item.strength
            invariant
                showdown_ok(pc, oc, pi, oi, w),
                oc == opponent_cards@,
                oi == opponent_strength@,
                w == cfreach@,
                olen == oi.len(),
                0 < item.strength < 0xFFFF,
                0 <= i <= olen - 2,
                forall|m: int| i < m < olen - 1 ==> (#[trigger] oi[m]).strength > item.strength,
                sum == strength_sum(oi, oc, w, i + 1, olen - 1, HandFilter::Every, StrengthRel::Any),
                minus@.len() == 52,
                forall|c: int|
                    0 <= c < 52 ==> #[trigger] minus@[c] == strength_sum(
                        oi,
                        oc,
                        w,
                        i + 1,
                        olen - 1,
                        HandFilter::Holds(c as u8),
                        StrengthRel::Any,
                    ),
            decreases i,
        {
            proof {
                lemma_sum_small(oi, oc, w, i + 1, olen - 1, HandFilter::Every, StrengthRel::Any);
                assert forall|c: int| 0 <= c < 52 implies #[trigger] minus@[c] <= 0x10000 * MAX_WEIGHT by {
                    lemma_sum_small(oi, oc, w, i + 1, olen - 1, HandFilter::Holds(c as u8), StrengthRel::Any);
                }
                assert(i > 0);
                assert(oi[i as int].index < oc.len());
            }
            let oidx = opponent_strength[i].index as usize;
            let ghost pre_minus = minus@;
            add_hand(&mut sum, &mut minus, opponent_cards[oidx], cfreach[oidx]);
            proof {
                lemma_strength_sum_split(oi, oc, w, i as int, i + 1, olen - 1, HandFilter::Every, StrengthRel::Any);
                assert(strength_sum(oi, oc, w, i as int, i as int, HandFilter::Every, StrengthRel::Any) == 0);
                assert(strength_sum(oi, oc, w, i as int, i + 1, HandFilter::Every, StrengthRel::Any) == w[oidx as int]);
                assert forall|c: int| 0 <= c < 52 implies #[trigger] minus@[c] == strength_sum(
                    oi,
                    oc,
                    w,
                    i as int,
                    olen - 1,
                    HandFilter::Holds(c as u8),
                    StrengthRel::Any,
                ) by {
                    lemma_strength_sum_split(oi, oc, w, i as int, i + 1, olen - 1, HandFilter::Holds(c as u8), StrengthRel::Any);
                    assert(pre_minus[c] == strength_sum(oi, oc, w, i + 1, olen - 1, HandFilter::Holds(c as u8), StrengthRel::Any));
                    assert(strength_sum(oi, oc, w, i as int, i as int, HandFilter::Holds(c as u8), StrengthRel::Any) == 0);
                }
            }
            i = i - 1;
        }
        proof {
            assert(oi[i as int].strength <= item.strength);
            assert forall|m: int| 1 <= m <= i implies (#[trigger] oi[m]).strength <= item.strength by {
                assert(oi[m].strength <= oi[i as int].strength);
            }
        }
        let hidx = item.index as usize;
        let (c1, c2) = player_cards[hidx];
        assert(hand_ok(pc[hidx as int]));
        proof {
            let s = item.strength;
            lemma_strength_sum_incl_excl(oi, oc, w, i + 1, olen - 1, c1, c2, StrengthRel::Any);
            assert forall|m: int|
                i + 1 <= m < olen - 1 && passes(HandFilter::Same(c1, c2), oc[(#[trigger] oi[m]).index as int]) implies !rel_holds(
                StrengthRel::Any,
                oi[m].strength,
            ) by {
                assert(oc[oi[m].index as int] == pc[pi[k - 1].index as int]);
            }
            lemma_strength_sum_none(oi, oc, w, i + 1, olen - 1, HandFilter::Same(c1, c2), StrengthRel::Any);
            lemma_strength_sum_rel_all(oi, oc, w, i + 1, olen - 1, HandFilter::Disjoint(c1, c2), StrengthRel::Above(s));
            lemma_strength_sum_none(oi, oc, w, 1, i + 1, HandFilter::Disjoint(c1, c2), StrengthRel::Above(s));
            lemma_strength_sum_split(oi, oc, w, 1, i + 1, olen - 1, HandFilter::Disjoint(c1, c2), StrengthRel::Above(s));
            lemma_sum_small(oi, oc, w, i + 1, olen - 1, HandFilter::Disjoint(c1, c2), StrengthRel::Any);
            lemma_sum_small(oi, oc, w, i + 1, olen - 1, HandFilter::Holds(c1), StrengthRel::Any);
            lemma_sum_small(oi, oc, w, i + 1, olen - 1, HandFilter::Holds(c2), StrengthRel::Any);
            lemma_sum_small(oi, oc, w, 1, olen - 1, HandFilter::Disjoint(c1, c2), StrengthRel::Below(s));
        }
        let reach: i128 = sum as i128 - minus[c1 as usize] as i128 - minus[c2 as usize] as i128;
        proof {
            lemma_mul_fits(amount_lose as int, reach as int);
            lemma_mul_fits(amount_win as int, opponent_reach(oi, oc, w, pc[hidx as int], StrengthRel::Below(item.strength)));
            assert(result@[hidx as int] == amount_win * opponent_reach(oi, oc, w, pc[hidx as int], StrengthRel::Below(item.strength)));
        }
        let v = result[hidx] + amount_lose as i128 * reach;
        result.set(hidx, v);
        proof {
            assert forall|m: int|
                1 <= m < plen - 1 implies result@[(#[trigger] pi[m]).index as int] == amount_win
                    * opponent_reach(oi, oc, w, pc[pi[m].index as int], StrengthRel::Below(pi[m].strength))
                    + if m >= k - 1 {
                    amount_lose * opponent_reach(
                        oi,
                        oc,
                        w,
                        pc[pi[m].index as int],
                        StrengthRel::Above(pi[m].strength),
                    )
                } else {
                    0
                } by {
                if m != k - 1 {
                    assert(pi[m].index != pi[k - 1].index);
                }
            }
            assert forall|x: int|
                0 <= x < result@.len() && !listed(pi, 1, plen - 1, x) implies #[trigger] result@[x] == 0 by {
                assert(pi[k - 1].index as int != x);
            }
            if k - 1 > 1 {
                assert(pi[k - 2].strength <= pi[k - 1].strength);
            }
        }
        k = k - 1;
    }
    result
}

/// A copy of a vector of totals.
fn copy_totals(src: &Vec<u64>) -> (r: Vec<u64>)
    ensures
        r@ == src@,
{
    let mut r: Vec<u64> = Vec::new();
    let mut t: usize = 0;
    while t < src.len()
        invariant
            t <= src@.len(),
            r@ == src@.subrange(0, t as int),
        decreases src@.len() - t,
    {
        r.push(src[t]);
        t = t + 1;
        assert(r@ =~= src@.subrange(0, t as int));
    }
    assert(src@.subrange(0, src@.len() as int) =~= src@);
    r
}

/// Sums the opponent's hands at positions `lo..hi` onto running totals.
fn extend_totals(
    opponent_cards: &Vec<(u8, u8)>,
    opponent_strength: &Vec<StrengthItem>,
    cfreach: &Vec<u32>,
    sum: &mut u64,
    minus: &mut Vec<u64>,
    lo: usize,
    hi: usize,
)
    requires
        hands_ok(opponent_cards@),
        opponent_cards@.len() < 0xFFFF,
        cfreach@.len() == opponent_cards@.len(),
        strengths_ok(opponent_strength@, opponent_cards@.len() as int),
        1 <= lo <= hi <= opponent_strength@.len() - 1,
        *old(sum) == strength_sum(opponent_strength@, opponent_cards@, cfreach@, 1, lo as int, HandFilter::Every, StrengthRel::Any),
        old(minus)@.len() == 52,
        forall|c: int|
            0 <= c < 52 ==> #[trigger] old(minus)@[c] == strength_sum(
                opponent_strength@,
                opponent_cards@,
                cfreach@,
                1,
                lo as int,
                HandFilter::Holds(c as u8),
                StrengthRel::Any,
            ),
    ensures
        *final(sum) == strength_sum(opponent_strength@, opponent_cards@, cfreach@, 1, hi as int, HandFilter::Every, StrengthRel::Any),
        final(minus)@.len() == 52,
        forall|c: int|
            0 <= c < 52 ==> #[trigger] final(minus)@[c] == strength_sum(
                opponent_strength@,
                opponent_cards@,
                cfreach@,
                1,
                hi as int,
                HandFilter::Holds(c as u8),
                StrengthRel::Any,
            ),
{
    let ghost oi = opponent_strength@;
    let ghost oc = opponent_cards@;
    let ghost w = cfreach@;
    let mut t = lo;
    while t < hi
        invariant
            hands_ok(oc),
            oc.len() < 0xFFFF,
            w.len() == oc.len(),
            strengths_ok(oi, oc.len() as int),
            oi == opponent_strength@,
            oc == opponent_cards@,
            w == cfreach@,
            1 <= lo <= t <= hi <= oi.len() - 1,
            oi.len() <= 0x10000,
            *sum == strength_sum(oi, oc, w, 1, t as int, HandFilter::Every, StrengthRel::Any),
            minus@.len() == 52,
            forall|c: int|
                0 <= c < 52 ==> #[trigger] minus@[c] == strength_sum(
                    oi,
                    oc,
                    w,
                    1,
                    t as int,
                    HandFilter::Holds(c as u8),
                    StrengthRel::Any,
                ),
        decreases hi - t,
    {
        proof {
            lemma_sum_small(oi, oc, w, 1, t as int, HandFilter::Every, StrengthRel::Any);
            assert forall|c: int| 0 <= c < 52 implies #[trigger] minus@[c] <= 0x10000 * MAX_WEIGHT by {
                lemma_sum_small(oi, oc, w, 1, t as int, HandFilter::Holds(c as u8), StrengthRel::Any);
            }
            assert(oi[t as int].index < oc.len());
        }
        let oidx = opponent_strength[t].index as usize;
        add_hand(sum, minus, opponent_cards[oidx], cfreach[oidx]);
        t = t + 1;
    }
}

/// First position from `from` on whose strength is at least `s`.
fn skip_weaker(items: &Vec<StrengthItem>, from: usize, s: u16) -> (r: usize)
    requires
        strengths_ok(items@, 0x10000),
        1 <= from <= items@.len() - 1,
        s < 0xFFFF,
    ensures
        from <= r <= items@.len() - 1,
        forall|m: int| from <= m < r ==> (#[trigger] items@[m]).strength < s,
        items@[r as int].strength >= s,
{
    let mut r = from;
    while items[r].strength < s
        invariant
            strengths_ok(items@, 0x10000),
            1 <= from <= r <= items@.len() - 1,
            s < 0xFFFF,
            forall|m: int| from <= m < r ==> (#[trigger] items@[m]).strength < s,
        decreases items@.len() - r,
    {
        r = r + 1;
    }
    r
}

/// First position from `from` on whose strength is not `s`.
fn skip_equal(items: &Vec<StrengthItem>, from: usize, s: u16) -> (r: usize)
    requires
        strengths_ok(items@, 0x10000),
        1 <= from <= items@.len() - 1,
        s < 0xFFFF,
    ensures
        from <= r <= items@.len() - 1,
        forall|m: int| from <= m < r ==> (#[trigger] items@[m]).strength == s,
        items@[r as int].strength != s,
{
    let mut r = from;
    while items[r].strength == s
        invariant
            strengths_ok(items@, 0x10000),
            1 <= from <= r <= items@.len() - 1,
            s < 0xFFFF,
            forall|m: int| from <= m < r ==> (#[trigger] items@[m]).strength == s,
        decreases items@.len() - r,
    {
        r = r + 1;
    }
    r
}

/// At a raked showdown, the three running differences of totals are the reach of the
/// weaker, tied and stronger opponent hands that share no card with acting hand `k`.
proof fn lemma_raked_reach(
    pc: Seq<(u8, u8)>,
    oc: Seq<(u8, u8)>,
    pi: Seq<StrengthItem>,
    oi: Seq<StrengthItem>,
    w: Seq<u32>,
    same: Seq<u16>,
    k: int,
    i: int,
    j: int,
)
    requires
        showdown_ok(pc, oc, pi, oi, w),
        same_hand_ok(pc, oc, same),
        1 <= k < pi.len() - 1,
        same[pi[k].index as int] != NO_SAME_HAND ==> listed(oi, 1, oi.len() - 1, same[pi[k].index as int] as int),
        1 <= i <= j <= oi.len() - 1,
        forall|m: int| 1 <= m < i ==> (#[trigger] oi[m]).strength < pi[k].strength,
        forall|m: int| i <= m < j ==> (#[trigger] oi[m]).strength == pi[k].strength,
        oi[j].strength > pi[k].strength,
    ensures
        ({
            let h = pc[pi[k].index as int];
            let s = pi[k].strength;
            let top = oi.len() - 1;
            let tot = |lo: int, hi: int|
                strength_sum(oi, oc, w, lo, hi, HandFilter::Every, StrengthRel::Any) - strength_sum(
                    oi,
                    oc,
                    w,
                    lo,
                    hi,
                    HandFilter::Holds(h.0),
                    StrengthRel::Any,
                ) - strength_sum(oi, oc, w, lo, hi, HandFilter::Holds(h.1), StrengthRel::Any);
            let sw = if same[pi[k].index as int] == NO_SAME_HAND {
                0
            } else {
                w[same[pi[k].index as int] as int] as int
            };
            &&& tot(1, i) == opponent_reach(oi, oc, w, h, StrengthRel::Below(s))
            &&& tot(1, j) - tot(1, i) + sw == opponent_reach(oi, oc, w, h, StrengthRel::Equal(s))
            &&& tot(1, top) - tot(1, j) == opponent_reach(oi, oc, w, h, StrengthRel::Above(s))
            &&& 0 <= opponent_reach(oi, oc, w, h, StrengthRel::Below(s)) <= 0x10000 * MAX_WEIGHT
            &&& 0 <= opponent_reach(oi, oc, w, h, StrengthRel::Equal(s)) <= 0x10000 * MAX_WEIGHT
            &&& 0 <= opponent_reach(oi, oc, w, h, StrengthRel::Above(s)) <= 0x10000 * MAX_WEIGHT
            &&& hand_ok(h)
        }),
{
    let hidx = pi[k].index as int;
    let h = pc[hidx];
    let c1 = h.0;
    let c2 = h.1;
    let s = pi[k].strength;
    let top = oi.len() - 1;
    let same_i = same[hidx];
    assert(hand_ok(h));
    let dj = HandFilter::Disjoint(c1, c2);
    let sm = HandFilter::Same(c1, c2);
    lemma_strength_sum_incl_excl(oi, oc, w, 1, top, c1, c2, StrengthRel::Any);
    lemma_strength_sum_incl_excl(oi, oc, w, 1, i, c1, c2, StrengthRel::Any);
    lemma_strength_sum_incl_excl(oi, oc, w, 1, j, c1, c2, StrengthRel::Any);
    assert forall|m: int|
        1 <= m < i && passes(sm, oc[(#[trigger] oi[m]).index as int]) implies !rel_holds(
        StrengthRel::Any,
        oi[m].strength,
    ) by {
        assert(oc[oi[m].index as int] == pc[pi[k].index as int]);
    }
    lemma_strength_sum_none(oi, oc, w, 1, i, sm, StrengthRel::Any);
    assert forall|m: int|
        j <= m < top && passes(sm, oc[(#[trigger] oi[m]).index as int]) implies !rel_holds(
        StrengthRel::Any,
        oi[m].strength,
    ) by {
        assert(oc[oi[m].index as int] == pc[pi[k].index as int]);
        assert(oi[j].strength <= oi[m].strength);
    }
    lemma_strength_sum_none(oi, oc, w, j, top, sm, StrengthRel::Any);
    lemma_strength_sum_split(oi, oc, w, 1, j, top, sm, StrengthRel::Any);
    if same_i == NO_SAME_HAND {
        assert forall|m: int|
            1 <= m < j && passes(sm, oc[(#[trigger] oi[m]).index as int]) implies !rel_holds(
            StrengthRel::Any,
            oi[m].strength,
        ) by {
            let q = oi[m].index as int;
            assert(oc[q] == pc[hidx]);
            assert(same[hidx] == q);
        }
        lemma_strength_sum_none(oi, oc, w, 1, j, sm, StrengthRel::Any);
    } else {
        let p = choose|p: int| 1 <= p < top && (#[trigger] oi[p]).index as int == same_i as int;
        assert(oc[same_i as int] == pc[hidx]);
        assert(oi[p].strength == s);
        assert(i <= p < j) by {
            if p < i {
                assert(oi[p].strength < s);
            }
            if p >= j {
                assert(oi[j].strength <= oi[p].strength);
            }
        }
        assert forall|a: int|
            1 <= a < j && #[trigger] oc[oi[a].index as int] == (c1, c2) implies oi[a].index == oi[p].index by {
            let q = oi[a].index as int;
            assert(oc[q] == pc[hidx]);
            assert(same[hidx] == q);
        }
        lemma_strength_sum_same_one(oi, oc, w, 1, j, c1, c2, StrengthRel::Any, p);
    }
    lemma_strength_sum_rel_all(oi, oc, w, 1, i, dj, StrengthRel::Below(s));
    assert forall|m: int| i <= m < top implies s <= (#[trigger] oi[m]).strength by {
        if m >= j {
            assert(oi[j].strength <= oi[m].strength);
        }
    }
    lemma_strength_sum_none(oi, oc, w, i, top, dj, StrengthRel::Below(s));
    lemma_strength_sum_split(oi, oc, w, 1, i, top, dj, StrengthRel::Below(s));
    lemma_strength_sum_none(oi, oc, w, 1, i, dj, StrengthRel::Equal(s));
    lemma_strength_sum_rel_all(oi, oc, w, i, j, dj, StrengthRel::Equal(s));
    assert forall|m: int| j <= m < top implies s < (#[trigger] oi[m]).strength by {
        assert(oi[j].strength <= oi[m].strength);
    }
    lemma_strength_sum_none(oi, oc, w, j, top, dj, StrengthRel::Equal(s));
    lemma_strength_sum_split(oi, oc, w, 1, i, j, dj, StrengthRel::Equal(s));
    lemma_strength_sum_split(oi, oc, w, 1, j, top, dj, StrengthRel::Equal(s));
    lemma_strength_sum_split(oi, oc, w, 1, i, j, dj, StrengthRel::Any);
    lemma_strength_sum_none(oi, oc, w, 1, j, dj, StrengthRel::Above(s));
    lemma_strength_sum_rel_all(oi, oc, w, j, top, dj, StrengthRel::Above(s));
    lemma_strength_sum_split(oi, oc, w, 1, j, top, dj, StrengthRel::Above(s));
    lemma_strength_sum_split(oi, oc, w, 1, j, top, dj, StrengthRel::Any);
    lemma_sum_small(oi, oc, w, 1, top, dj, StrengthRel::Below(s));
    lemma_sum_small(oi, oc, w, 1, top, dj, StrengthRel::Equal(s));
    lemma_sum_small(oi, oc, w, 1, top, dj, StrengthRel::Above(s));
}

/// Counterfactual values at a raked showdown, in one sweep with a pointer past the weaker
/// opponent hands and one past the hands at most as strong.
///
/// For each hand listed in `player_strength`, `result` holds `amount_win`, `amount_tie` and
/// `amount_lose` times the reach of the weaker, equally strong and stronger opponent hands
/// that share no card with it. Unlisted hands get 0.
pub fn showdown_values_raked(
    player_cards: &Vec<(u8, u8)>,
    opponent_cards: &Vec<(u8, u8)>,
    same_hand_index: &Vec<u16>,
    player_strength: &Vec<StrengthItem>,
    opponent_strength: &Vec<StrengthItem>,
    cfreach: &Vec<u32>,
    amount_win: i64,
    amount_tie: i64,
    amount_lose: i64,
) -> (result: Vec<i128>)
    requires
        showdown_ok(player_cards@, opponent_cards@, player_strength@, opponent_strength@, cfreach@),
        same_hand_ok(player_cards@, opponent_cards@, same_hand_index@),
        forall|k: int|
            1 <= k < player_strength@.len() - 1 && same_hand_index@[(#[trigger] player_strength@[k]).index as int]
                != NO_SAME_HAND ==> listed(
                opponent_strength@,
                1,
                opponent_strength@.len() - 1,
                same_hand_index@[player_strength@[k].index as int] as int,
            ),
    ensures
        result@.len() == player_cards@.len(),
        forall|m: int|
            1 <= m < player_strength@.len() - 1 ==> result@[(#[trigger] player_strength@[m]).index as int]
                == showdown_value(
                opponent_strength@,
                opponent_cards@,
                cfreach@,
                player_cards@[player_strength@[m].index as int],
                player_strength@[m].strength,
                amount_win as int,
                amount_tie as int,
                amount_lose as int,
            ),
        forall|x: int|
            0 <= x < result@.len() && !listed(player_strength@, 1, player_strength@.len() - 1, x)
                ==> #[trigger] result@[x] == 0,
{
    let ghost pc = player_cards@;
    let ghost oc = opponent_cards@;
    let ghost pi = player_strength@;
    let ghost oi = opponent_strength@;
    let ghost w = cfreach@;
    let ghost same = same_hand_index@;
    let plen = player_strength.len();
    let olen = opponent_strength.len();
    let mut result = zeros(player_cards.len());
    let mut sum: u64 = 0;
    let mut minus: Vec<u64> = vec![0u64; 52];
    extend_totals(opponent_cards, opponent_strength, cfreach, &mut sum, &mut minus, 1, olen - 1);
    if sum == 0 {
        assert forall|m: int|
            1 <= m < plen - 1 implies result@[(#[trigger] pi[m]).index as int] == showdown_value(
                oi,
                oc,
                w,
                pc[pi[m].index as int],
                pi[m].strength,
                amount_win as int,
                amount_tie as int,
                amount_lose as int,
            ) by {
            let h = pc[pi[m].index as int];
            let s = pi[m].strength;
            lemma_sum_small(oi, oc, w, 1, olen - 1, HandFilter::Disjoint(h.0, h.1), StrengthRel::Below(s));
            lemma_sum_small(oi, oc, w, 1, olen - 1, HandFilter::Disjoint(h.0, h.1), StrengthRel::Equal(s));
            lemma_sum_small(oi, oc, w, 1, olen - 1, HandFilter::Disjoint(h.0, h.1), StrengthRel::Above(s));
            lemma_strength_sum_bounds(oi, oc, w, 1, olen - 1, HandFilter::Disjoint(h.0, h.1), StrengthRel::Below(s));
            lemma_strength_sum_bounds(oi, oc, w, 1, olen - 1, HandFilter::Disjoint(h.0, h.1), StrengthRel::Equal(s));
            lemma_strength_sum_bounds(oi, oc, w, 1, olen - 1, HandFilter::Disjoint(h.0, h.1), StrengthRel::Above(s));
            assert(opponent_reach(oi, oc, w, h, StrengthRel::Below(s)) == 0);
            assert(opponent_reach(oi, oc, w, h, StrengthRel::Equal(s)) == 0);
            assert(opponent_reach(oi, oc, w, h, StrengthRel::Above(s)) == 0);
            assert(amount_win * 0 + amount_tie * 0 + amount_lose * 0 == 0);
        }
        return result;
    }
    let mut sum_win: u64 = 0;
    let mut sum_tie: u64 = 0;
    let mut minus_win: Vec<u64> = vec![0u64; 52];
    let mut minus_tie: Vec<u64> = vec![0u64; 52];
    let mut i: usize = 1;
    let mut j: usize = 1;
    let mut prev_strength: u16 = 0;
    let mut k: usize = 1;
    while k < plen - 1
        invariant
            showdown_ok(pc, oc, pi, oi, w),
            same_hand_ok(pc, oc, same),
            forall|k: int|
                1 <= k < pi.len() - 1 && same[(#[trigger] pi[k]).index as int] != NO_SAME_HAND ==> listed(
                    oi,
                    1,
                    oi.len() - 1,
                    same[pi[k].index as int] as int,
                ),
            pc == player_cards@,
            oc == opponent_cards@,
            pi == player_strength@,
            oi == opponent_strength@,
            w == cfreach@,
            same == same_hand_index@,
            plen == pi.len(),
            olen == oi.len(),
            1 <= k <= plen - 1,
            1 <= i <= j <= olen - 1,
            prev_strength < 0xFFFF,
            k < plen - 1 ==> prev_strength <= pi[k as int].strength,
            forall|m: int| 1 <= m < i ==> (#[trigger] oi[m]).strength < prev_strength,
            forall|m: int| i <= m < j ==> (#[trigger] oi[m]).strength == prev_strength,
            oi[j as int].strength > prev_strength,
            sum == strength_sum(oi, oc, w, 1, olen - 1, HandFilter::Every, StrengthRel::Any),
            minus@.len() == 52,
            forall|c: int|
                0 <= c < 52 ==> #[trigger] minus@[c] == strength_sum(
                    oi,
                    oc,
                    w,
                    1,
                    olen - 1,
                    HandFilter::Holds(c as u8),
                    StrengthRel::Any,
                ),
            sum_win == strength_sum(oi, oc, w, 1, i as int, HandFilter::Every, StrengthRel::Any),
            minus_win@.len() == 52,
            forall|c: int|
                0 <= c < 52 ==> #[trigger] minus_win@[c] == strength_sum(
                    oi,
                    oc,
                    w,
                    1,
                    i as int,
                    HandFilter::Holds(c as u8),
                    StrengthRel::Any,
                ),
            sum_tie == strength_sum(oi, oc, w, 1, j as int, HandFilter::Every, StrengthRel::Any),
            minus_tie@.len() == 52,
            forall|c: int|
                0 <= c < 52 ==> #[trigger] minus_tie@[c] == strength_sum(
                    oi,
                    oc,
                    w,
                    1,
                    j as int,
                    HandFilter::Holds(c as u8),
                    StrengthRel::Any,
                ),
            result@.len() == pc.len(),
            forall|m: int|
                1 <= m < k ==> result@[(#[trigger] pi[m]).index as int] == showdown_value(
                    oi,
                    oc,
                    w,
                    pc[pi[m].index as int],
                    pi[m].strength,
                    amount_win as int,
                    amount_tie as int,
                    amount_lose as int,
                ),
            forall|x: int|
                0 <= x < result@.len() && !listed(pi, 1, k as int, x) ==> #[trigger] result@[x] == 0,
        decreases plen - k,
    {
        let item = player_strength[k];
        assert(pi[k as int] == item);
        assert(0 < item.strength < 0xFFFF);
        let s = item.strength;
        if s > prev_strength {
            prev_strength = s;
            if i < j {
                sum_win = sum_tie;
                minus_win = copy_totals(&minus_tie);
                i = j;
            }
            let ni = skip_weaker(opponent_strength, i, s);
            extend_totals(opponent_cards, opponent_strength, cfreach, &mut sum_win, &mut minus_win, i, ni);
            i = ni;
            if j < i {
                sum_tie = sum_win;
                minus_tie = copy_totals(&minus_win);
                j = i;
            }
            let nj = skip_equal(opponent_strength, j, s);
            extend_totals(opponent_cards, opponent_strength, cfreach, &mut sum_tie, &mut minus_tie, j, nj);
            j = nj;
            proof {
                assert(oi[i as int].strength <= oi[j as int].strength);
            }
        }
        let hidx = item.index as usize;
        let (c1, c2) = player_cards[hidx];
        let same_i = same_hand_index[hidx];
        let cfreach_same: u64 = if same_i == NO_SAME_HAND {
            0
        } else {
            cfreach[same_i as usize] as u64
        };
        let ghost h = pc[hidx as int];
        proof {
            lemma_raked_reach(pc, oc, pi, oi, w, same, k as int, i as int, j as int);
            lemma_sum_small(oi, oc, w, 1, olen - 1, HandFilter::Holds(c1), StrengthRel::Any);
            lemma_sum_small(oi, oc, w, 1, olen - 1, HandFilter::Holds(c2), StrengthRel::Any);
            lemma_sum_small(oi, oc, w, 1, i as int, HandFilter::Holds(c1), StrengthRel::Any);
            lemma_sum_small(oi, oc, w, 1, i as int, HandFilter::Holds(c2), StrengthRel::Any);
            lemma_sum_small(oi, oc, w, 1, j as int, HandFilter::Holds(c1), StrengthRel::Any);
            lemma_sum_small(oi, oc, w, 1, j as int, HandFilter::Holds(c2), StrengthRel::Any);
            lemma_sum_small(oi, oc, w, 1, olen - 1, HandFilter::Every, StrengthRel::Any);
            lemma_sum_small(oi, oc, w, 1, i as int, HandFilter::Every, StrengthRel::Any);
            lemma_sum_small(oi, oc, w, 1, j as int, HandFilter::Every, StrengthRel::Any);
        }
        let cfreach_total: i128 = sum as i128 - minus[c1 as usize] as i128 - minus[c2 as usize] as i128;
        let cfreach_win: i128 = sum_win as i128 - minus_win[c1 as usize] as i128 - minus_win[c2 as usize] as i128;
        let cfreach_tie: i128 = sum_tie as i128 - minus_tie[c1 as usize] as i128 - minus_tie[c2 as usize] as i128;
        proof {
            lemma_mul_fits(amount_win as int, cfreach_win as int);
            lemma_mul_fits(amount_tie as int, (cfreach_tie - cfreach_win + cfreach_same) as int);
            lemma_mul_fits(amount_lose as int, (cfreach_total - cfreach_tie) as int);
        }
        let cfvalue: i128 = amount_win as i128 * cfreach_win + amount_tie as i128 * (cfreach_tie
            - cfreach_win + cfreach_same as i128) + amount_lose as i128 * (cfreach_total
            - cfreach_tie);
        result.set(hidx, cfvalue);
        proof {
            assert forall|m: int|
                1 <= m < k + 1 implies result@[(#[trigger] pi[m]).index as int] == showdown_value(
                    oi,
                    oc,
                    w,
                    pc[pi[m].index as int],
                    pi[m].strength,
                    amount_win as int,
                    amount_tie as int,
                    amount_lose as int,
                ) by {
                if m < k {
                    assert(pi[m].index != pi[k as int].index);
                }
            }
            assert forall|x: int|
                0 <= x < result@.len() && !listed(pi, 1, k + 1, x) implies #[trigger] result@[x] == 0 by {
                if listed(pi, 1, k as int, x) {
                    let m = choose|m: int| 1 <= m < k && (#[trigger] pi[m]).index as int == x;
                    assert(pi[m].index as int == x);
                }
                assert(pi[k as int].index as int != x);
            }
            if k + 1 < plen - 1 {
                assert(pi[k as int].strength <= pi[k + 1].strength);
            }
        }
        k = k + 1;
    }
    result
}

/// Low byte of a node's player field: the acting player, or the player who folded.
pub const PLAYER_MASK: u16 = 0xFF;

/// Player field bits of a terminal node.
pub const PLAYER_TERMINAL_FLAG: u16 = 0x100;

/// Player field bits of a terminal node reached by a fold.
pub const PLAYER_FOLD_FLAG: u16 = 0x300;

/// Parts per million: the unit of a rake rate.
pub const RAKE_RATE_ONE: u64 = 1_000_000;

/// What one unit of opponent reach pays the acting player at a terminal node, before the
/// division by the number of opponent combinations: a win at a fold, a win at a showdown
/// (less the rake), a tie and a loss.
#[derive(Clone, Copy, Debug, PartialEq, Eq)]
pub struct Payoffs {
    pub win: i64,
    pub showdown_win: i64,
    pub tie: i64,
    pub lose: i64,
}

/// Rake taken from a pot: `rate` parts per million of it, at most `cap`.
pub open spec fn rake_of(pot: int, rate: int, cap: int) -> int {
    if pot * rate / (RAKE_RATE_ONE as int) < cap {
        pot * rate / (RAKE_RATE_ONE as int)
    } else {
        cap
    }
}

/// `r` are the payoffs at a terminal node whose pot is `starting_pot + 2 * amount`, for
/// `player` of `table`: winning half the pot moves the player's utility from that of the
/// starting stack to that of the stack plus half the pot, losing it to that of the stack
/// minus half the pot (0 when that leaves no chips); the winner of a showdown pays the
/// rake, and a tie costs half of it.
pub open spec fn payoffs_ok(
    table: &UtilityFile,
    player: usize,
    starting_pot: u64,
    amount: u64,
    rake_rate: u64,
    rake_cap: u64,
    r: Payoffs,
) -> bool {
    let pot = starting_pot + 2 * amount;
    let half = pot / 2;
    let stack = table.starting_stack(player as int) as int;
    let curve = table.curve(player as int);
    let now = curve_value(curve, stack);
    let rake = rake_of(pot, rake_rate as int, rake_cap as int);
    &&& r.win == curve_value(curve, stack + half) - now
    &&& r.showdown_win == r.win - rake
    &&& r.lose == (if stack <= half {
        0
    } else {
        curve_value(curve, stack - half)
    }) - now
    &&& r.tie == -(rake / 2)
}

/// Payoffs at a terminal node whose pot is `starting_pot + 2 * amount`, for `player` of
/// `table`: winning half the pot moves the player's utility from that of the starting stack
/// to that of the stack plus half the pot, losing it to that of the stack minus half the pot
/// (0 when that leaves no chips); a tie costs half the rake.
pub fn terminal_payoffs(
    table: &UtilityFile,
    player: usize,
    starting_pot: u64,
    amount: u64,
    rake_rate: u64,
    rake_cap: u64,
) -> (r: Payoffs)
    requires
        table.wf(),
        player < table.num_players(),
        rake_rate <= RAKE_RATE_ONE,
        table.starting_stack(player as int) + starting_pot + 2 * amount <= MAX_UTILITY,
    ensures
        payoffs_ok(table, player, starting_pot, amount, rake_rate, rake_cap, r),
{
    let pot = starting_pot + 2 * amount;
    let half = pot / 2;
    let stack = table.starting_stack_of(player);
    let now = table.lookup(stack, player);
    let up = table.lookup(stack + half, player);
    let down = if stack <= half {
        0
    } else {
        table.lookup(stack - half, player)
    };
    proof {
        assert(pot * rake_rate <= pot * RAKE_RATE_ONE) by (nonlinear_arith)
            requires rake_rate <= RAKE_RATE_ONE;
        assert(pot * RAKE_RATE_ONE <= 0x7FFF_FFFF_FFFF_FFFF * RAKE_RATE_ONE) by (nonlinear_arith)
            requires pot <= 0x7FFF_FFFF_FFFF_FFFF;
        assert(rake_of(pot as int, rake_rate as int, rake_cap as int) <= pot);
        assert((pot * rake_rate) as int / (RAKE_RATE_ONE as int) <= pot) by (nonlinear_arith)
            requires pot * rake_rate <= pot * RAKE_RATE_ONE;
    }
    let raked = (pot as u128 * rake_rate as u128 / RAKE_RATE_ONE as u128) as u64;
    let rake = if raked < rake_cap {
        raked
    } else {
        rake_cap
    };
    let win = up as i64 - now as i64;
    Payoffs {
        win,
        showdown_win: win - rake as i64,
        tie: -((rake / 2) as i64),
        lose: down as i64 - now as i64,
    }
}

/// What a terminal node is evaluated on: both players' hands, the hands of each still live
/// on the node's board, and the two strength arrays of that board.
pub struct TerminalHands {
    pub player_cards: Vec<(u8, u8)>,
    pub opponent_cards: Vec<(u8, u8)>,
    pub same_hand_index: Vec<u16>,
    pub player_indices: Vec<u16>,
    pub opponent_indices: Vec<u16>,
    pub player_strength: Vec<StrengthItem>,
    pub opponent_strength: Vec<StrengthItem>,
}

/// A terminal node whose player field marks a fold.
pub open spec fn is_fold(node_player: u16) -> bool {
    node_player & PLAYER_FOLD_FLAG == PLAYER_FOLD_FLAG
}

/// Inputs that fit a fold node.
pub open spec fn fold_inputs_ok(t: TerminalHands, cfreach: Seq<u32>) -> bool {
    &&& hands_ok(t.player_cards@)
    &&& hands_ok(t.opponent_cards@)
    &&& cfreach.len() == t.opponent_cards@.len()
    &&& same_hand_ok(t.player_cards@, t.opponent_cards@, t.same_hand_index@)
    &&& indices_ok(t.player_indices@, t.player_cards@.len() as int)
    &&& indices_ok(t.opponent_indices@, t.opponent_cards@.len() as int)
    &&& t.player_cards@.len() < 0xFFFF
    &&& t.opponent_cards@.len() < 0xFFFF
    &&& forall|k: int|
        0 <= k < t.player_indices@.len() && #[trigger] t.same_hand_index@[t.player_indices@[k] as int]
            != NO_SAME_HAND ==> t.opponent_indices@.contains(t.same_hand_index@[t.player_indices@[k] as int])
}

/// Inputs that fit a showdown node.
pub open spec fn showdown_inputs_ok(t: TerminalHands, cfreach: Seq<u32>) -> bool {
    &&& showdown_ok(t.player_cards@, t.opponent_cards@, t.player_strength@, t.opponent_strength@, cfreach)
    &&& same_hand_ok(t.player_cards@, t.opponent_cards@, t.same_hand_index@)
    &&& forall|k: int|
        1 <= k < t.player_strength@.len() - 1 && t.same_hand_index@[(#[trigger] t.player_strength@[k]).index as int]
            != NO_SAME_HAND ==> listed(
            t.opponent_strength@,
            1,
            t.opponent_strength@.len() - 1,
            t.same_hand_index@[t.player_strength@[k].index as int] as int,
        )
}

/// `v / n` rounded toward zero, and 0 when `n` is 0.
pub open spec fn normalized(v: int, n: int) -> int {
    if n == 0 {
        0
    } else if v >= 0 {
        v / n
    } else {
        -((-v) / n)
    }
}

/// Un-normalised counterfactual value of hand `i` at a fold.
pub open spec fn fold_value(node_player: u16, player: usize, hands: TerminalHands, cfreach: Seq<u32>, payoffs: Payoffs, i: int) -> int {
    if hands.player_indices@.contains(i as u16) {
        (if (node_player & PLAYER_MASK) as usize != player {
            payoffs.win
        } else {
            payoffs.lose
        }) * index_sum(
            hands.opponent_indices@,
            hands.opponent_cards@,
            cfreach,
            hands.opponent_indices@.len() as int,
            HandFilter::Disjoint(hands.player_cards@[i].0, hands.player_cards@[i].1),
        )
    } else {
        0
    }
}

/// Un-normalised counterfactual value of hand `i` at a showdown.
pub open spec fn showdown_hand_value(hands: TerminalHands, cfreach: Seq<u32>, payoffs: Payoffs, i: int) -> int {
    if listed(hands.player_strength@, 1, hands.player_strength@.len() - 1, i) {
        let m = choose|m: int|
            1 <= m < hands.player_strength@.len() - 1 && (#[trigger] hands.player_strength@[m]).index as int == i;
        showdown_value(
            hands.opponent_strength@,
            hands.opponent_cards@,
            cfreach,
            hands.player_cards@[i],
            hands.player_strength@[m].strength,
            payoffs.showdown_win as int,
            payoffs.tie as int,
            payoffs.lose as int,
        )
    } else {
        0
    }
}

/// Counterfactual value of hand `i` at a terminal node, divided by `num_combinations`.
pub open spec fn terminal_value(
    node_player: u16,
    player: usize,
    hands: TerminalHands,
    cfreach: Seq<u32>,
    payoffs: Payoffs,
    num_combinations: u64,
    i: int,
) -> int {
    normalized(
        if is_fold(node_player) {
            fold_value(node_player, player, hands, cfreach, payoffs, i)
        } else {
            showdown_hand_value(hands, cfreach, payoffs, i)
        },
        num_combinations as int,
    )
}

/// Divides each value by `n`, rounding toward zero; all zeros when `n` is 0.
fn normalize(values: Vec<i128>, n: u64) -> (r: Vec<i128>)
    ensures
        r@.len() == values@.len(),
        forall|i: int| 0 <= i < r@.len() ==> #[trigger] r@[i] == normalized(values@[i] as int, n as int),
{
    let mut r: Vec<i128> = Vec::new();
    let mut k: usize = 0;
    while k < values.len()
        invariant
            k <= values@.len(),
            r@.len() == k,
            forall|i: int| 0 <= i < k ==> #[trigger] r@[i] == normalized(values@[i] as int, n as int),
        decreases values@.len() - k,
    {
        let v = values[k];
        let x: i128 = if n == 0 {
            0
        } else if v >= 0 {
            v / n as i128
        } else if v == i128::MIN {
            // -v does not fit in an i128
            if n == 1 {
                v
            } else {
                let q: u128 = ((-(v + 1)) as u128 + 1) / n as u128;
                proof {
                    assert(q as int == (-(v as int)) / (n as int));
                    assert((-(v as int)) / (n as int) < -(v as int)) by (nonlinear_arith)
                        requires n >= 2, v < 0;
                }
                -(q as i128)
            }
        } else {
            -((-v) / n as i128)
        };
        r.push(x);
        k = k + 1;
    }
    r
}

/// Counterfactual values of `player`'s hands at a terminal node, given the opponent's reach,
/// divided by `num_combinations` (rounded toward zero; all 0 when it is 0).
///
/// At a fold, each live hand gets the fold payoff (a win if the other player folded, a loss
/// otherwise) times the reach of the live opponent hands it does not block. At a showdown,
/// each hand gets the showdown win (less the rake), tie and loss payoffs times the reach of
/// the unblocked weaker, equal and stronger opponent hands; with no rake the two-sweep
/// kernel runs, else the three-pointer one.
pub fn evaluate_terminal(
    node_player: u16,
    player: usize,
    hands: &TerminalHands,
    cfreach: &Vec<u32>,
    payoffs: Payoffs,
    num_combinations: u64,
) -> (result: Vec<i128>)
    requires
        player < 2,
        is_fold(node_player) ==> fold_inputs_ok(*hands, cfreach@),
        !is_fold(node_player) ==> showdown_inputs_ok(*hands, cfreach@),
    ensures
        result@.len() == hands.player_cards@.len(),
        forall|i: int|
            0 <= i < result@.len() ==> #[trigger] result@[i] == terminal_value(
                node_player,
                player,
                *hands,
                cfreach@,
                payoffs,
                num_combinations,
                i,
            ),
{
    let values = if node_player & PLAYER_FOLD_FLAG == PLAYER_FOLD_FLAG {
        let folded_player = node_player & PLAYER_MASK;
        let payoff = if folded_player as usize != player {
            payoffs.win
        } else {
            payoffs.lose
        };
        fold_values(
            &hands.player_cards,
            &hands.opponent_cards,
            &hands.same_hand_index,
            &hands.player_indices,
            &hands.opponent_indices,
            cfreach,
            payoff,
        )
    } else if payoffs.tie == 0 && payoffs.showdown_win == payoffs.win {
        showdown_values(
            &hands.player_cards,
            &hands.opponent_cards,
            &hands.player_strength,
            &hands.opponent_strength,
            cfreach,
            payoffs.showdown_win,
            payoffs.lose,
        )
    } else {
        showdown_values_raked(
            &hands.player_cards,
            &hands.opponent_cards,
            &hands.same_hand_index,
            &hands.player_strength,
            &hands.opponent_strength,
            cfreach,
            payoffs.showdown_win,
            payoffs.tie,
            payoffs.lose,
        )
    };
    proof {
        assert forall|i: int| 0 <= i < values@.len() implies #[trigger] values@[i] == if is_fold(node_player) {
            fold_value(node_player, player, *hands, cfreach@, payoffs, i)
        } else {
            showdown_hand_value(*hands, cfreach@, payoffs, i)
        } by {
            if !is_fold(node_player) && listed(hands.player_strength@, 1, hands.player_strength@.len() - 1, i) {
                let m = choose|m: int|
                    1 <= m < hands.player_strength@.len() - 1 && (#[trigger] hands.player_strength@[m]).index as int == i;
                assert(values@[hands.player_strength@[m].index as int] == values@[i]);
            }
        }
    }
    normalize(values, num_combinations)
}

/// Counterfactual values of `player`'s hands at a terminal node with `amount` chips matched
/// beyond the starting pot: the payoffs come from the utility table (`terminal_payoffs`),
/// and the values from them as `evaluate_terminal` says.
pub fn evaluate_terminal_node(
    table: &UtilityFile,
    starting_pot: u64,
    rake_rate: u64,
    rake_cap: u64,
    node_player: u16,
    amount: u64,
    player: usize,
    hands: &TerminalHands,
    cfreach: &Vec<u32>,
    num_combinations: u64,
) -> (result: (Payoffs, Vec<i128>))
    requires
        table.wf(),
        player < 2,
        player < table.num_players(),
        rake_rate <= RAKE_RATE_ONE,
        table.starting_stack(player as int) + starting_pot + 2 * amount <= MAX_UTILITY,
        is_fold(node_player) ==> fold_inputs_ok(*hands, cfreach@),
        !is_fold(node_player) ==> showdown_inputs_ok(*hands, cfreach@),
    ensures
        payoffs_ok(table, player, starting_pot, amount, rake_rate, rake_cap, result.0),
        result.1@.len() == hands.player_cards@.len(),
        forall|i: int|
            0 <= i < result.1@.len() ==> #[trigger] result.1@[i] == terminal_value(
                node_player,
                player,
                *hands,
                cfreach@,
                result.0,
                num_combinations,
                i,
            ),
{
    let payoffs = terminal_payoffs(table, player, starting_pot, amount, rake_rate, rake_cap);
    let values = evaluate_terminal(node_player, player, hands, cfreach, payoffs, num_combinations);
    (payoffs, values)
}

/// At a showdown each unblocked opponent hand counts exactly once: as weaker, as strong, or
/// stronger than the acting hand's strength `s`.
pub proof fn lemma_showdown_partition(
    opponent_items: Seq<StrengthItem>,
    opponent_cards: Seq<(u8, u8)>,
    cfreach: Seq<u32>,
    h: (u8, u8),
    s: u16,
)
    ensures
        opponent_reach(opponent_items, opponent_cards, cfreach, h, StrengthRel::Below(s))
            + opponent_reach(opponent_items, opponent_cards, cfreach, h, StrengthRel::Equal(s))
            + opponent_reach(opponent_items, opponent_cards, cfreach, h, StrengthRel::Above(s))
            == opponent_reach(opponent_items, opponent_cards, cfreach, h, StrengthRel::Any),
{
    lemma_strength_sum_partition(
        opponent_items,
        opponent_cards,
        cfreach,
        1,
        opponent_items.len() - 1,
        HandFilter::Disjoint(h.0, h.1),
        s,
    );
}

proof fn lemma_strength_sum_partition(
    items: Seq<StrengthItem>,
    cards: Seq<(u8, u8)>,
    w: Seq<u32>,
    lo: int,
    hi: int,
    f: HandFilter,
    s: u16,
)
    ensures
        strength_sum(items, cards, w, lo, hi, f, StrengthRel::Below(s)) + strength_sum(
            items,
            cards,
            w,
            lo,
            hi,
            f,
            StrengthRel::Equal(s),
        ) + strength_sum(items, cards, w, lo, hi, f, StrengthRel::Above(s)) == strength_sum(
            items,
            cards,
            w,
            lo,
            hi,
            f,
            StrengthRel::Any,
        ),
    decreases hi - lo,
{
    if lo < hi {
        lemma_strength_sum_partition(items, cards, w, lo, hi - 1, f, s);
    }
}

/// Card `c < 52` with suits `s1` and `s2` exchanged.
pub open spec fn swap_card(c: u8, s1: u8, s2: u8) -> u8 {
    let s = c % 4;
    ((c / 4) * 4 + if s == s1 {
        s2
    } else if s == s2 {
        s1
    } else {
        s
    }) as u8
}

/// Both cards of a hand with suits `s1` and `s2` exchanged.
pub open spec fn swap_hand(h: (u8, u8), s1: u8, s2: u8) -> (u8, u8) {
    (swap_card(h.0, s1, s2), swap_card(h.1, s1, s2))
}

proof fn lemma_swap_card_injective(a: u8, b: u8, s1: u8, s2: u8)
    requires
        a < 52,
        b < 52,
        s1 < 4,
        s2 < 4,
    ensures
        swap_card(a, s1, s2) == swap_card(b, s1, s2) <==> a == b,
        swap_card(a, s1, s2) < 52,
{
    assert(a == (a / 4) * 4 + a % 4);
    assert(b == (b / 4) * 4 + b % 4);
}

/// Exchanging two suits on every card, acting and opposing, leaves the reach of the
/// unblocked opponent hands at a fold unchanged.
pub proof fn lemma_suit_swap_fold(
    idx: Seq<u16>,
    cards: Seq<(u8, u8)>,
    swapped: Seq<(u8, u8)>,
    w: Seq<u32>,
    n: int,
    h: (u8, u8),
    s1: u8,
    s2: u8,
)
    requires
        s1 < 4,
        s2 < 4,
        hand_ok(h),
        0 <= n <= idx.len(),
        cards.len() == swapped.len(),
        forall|k: int| 0 <= k < n ==> (#[trigger] idx[k] as int) < cards.len(),
        forall|j: int| 0 <= j < cards.len() ==> hand_ok(#[trigger] cards[j]) && swapped[j] == swap_hand(cards[j], s1, s2),
    ensures
        index_sum(idx, swapped, w, n, HandFilter::Disjoint(swap_card(h.0, s1, s2), swap_card(h.1, s1, s2)))
            == index_sum(idx, cards, w, n, HandFilter::Disjoint(h.0, h.1)),
    decreases n,
{
    if n > 0 {
        lemma_suit_swap_fold(idx, cards, swapped, w, n - 1, h, s1, s2);
        let j = idx[n - 1] as int;
        let o = cards[j];
        assert(hand_ok(o));
        lemma_swap_card_injective(o.0, h.0, s1, s2);
        lemma_swap_card_injective(o.0, h.1, s1, s2);
        lemma_swap_card_injective(o.1, h.0, s1, s2);
        lemma_swap_card_injective(o.1, h.1, s1, s2);
    }
}

/// Exchanging two suits on every card, with strengths unchanged, leaves the reach of the
/// unblocked weaker, tied and stronger opponent hands at a showdown unchanged.
pub proof fn lemma_suit_swap_showdown(
    items: Seq<StrengthItem>,
    cards: Seq<(u8, u8)>,
    swapped: Seq<(u8, u8)>,
    w: Seq<u32>,
    lo: int,
    hi: int,
    h: (u8, u8),
    r: StrengthRel,
    s1: u8,
    s2: u8,
)
    requires
        s1 < 4,
        s2 < 4,
        hand_ok(h),
        0 <= lo,
        hi <= items.len(),
        cards.len() == swapped.len(),
        forall|m: int| lo <= m < hi ==> ((#[trigger] items[m]).index as int) < cards.len(),
        forall|j: int| 0 <= j < cards.len() ==> hand_ok(#[trigger] cards[j]) && swapped[j] == swap_hand(cards[j], s1, s2),
    ensures
        strength_sum(items, swapped, w, lo, hi, HandFilter::Disjoint(swap_card(h.0, s1, s2), swap_card(h.1, s1, s2)), r)
            == strength_sum(items, cards, w, lo, hi, HandFilter::Disjoint(h.0, h.1), r),
    decreases hi - lo,
{
    if lo < hi {
        lemma_suit_swap_showdown(items, cards, swapped, w, lo, hi - 1, h, r, s1, s2);
        let j = items[hi - 1].index as int;
        let o = cards[j];
        assert(hand_ok(o));
        lemma_swap_card_injective(o.0, h.0, s1, s2);
        lemma_swap_card_injective(o.0, h.1, s1, s2);
        lemma_swap_card_injective(o.1, h.0, s1, s2);
        lemma_swap_card_injective(o.1, h.1, s1, s2);
    }
}

} // verus!
