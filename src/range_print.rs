use vstd::prelude::*;
use crate::card::{lemma_chars_round_trip, rank_char, rank_of_char, suit_char, suit_of_char};
use crate::range::{
    decimals, digit_value, digits_value, pow10, prob_above_one, prob_suffix, prob_value,
    singleton_of, span_of, token_effect, Span, Suitedness, PROB_ONE,
};
use crate::range_text::{
    first_index, first_upto, is_combo, is_prob, is_range_syntax, is_ws, kept, range_tokens,
    split_upto, squeeze, squeeze_upto, token_parts,
};
use crate::text::digit_char;

verus! {

/// Text of a hand class: two ranks with `s`, `o` or nothing, or two cards.
pub open spec fn class_text(r1: u8, r2: u8, s: Suitedness) -> Seq<char> {
    match s {
        Suitedness::Specific(x, y) => seq![
            rank_char(r1 as int),
            suit_char(x as int),
            rank_char(r2 as int),
            suit_char(y as int),
        ],
        Suitedness::Suited => seq![rank_char(r1 as int), rank_char(r2 as int), 's'],
        Suitedness::Offsuit => seq![rank_char(r1 as int), rank_char(r2 as int), 'o'],
        Suitedness::All => seq![rank_char(r1 as int), rank_char(r2 as int)],
    }
}

/// Text of a span.
pub open spec fn span_text(sp: Span) -> Seq<char> {
    match sp {
        Span::Single(r1, r2, s) => class_text(r1, r2, s),
        Span::Plus(r1, r2, s) => class_text(r1, r2, s).push('+'),
        Span::Dash(a1, a2, b1, b2, s) => class_text(a1, a2, s) + seq!['-'] + class_text(b1, b2, s),
    }
}

/// Text of a range token: its span, then its probability unless that is 1.
pub open spec fn token_text(sp: Span, p: u32) -> Seq<char> {
    span_text(sp) + if p == PROB_ONE {
        Seq::empty()
    } else {
        prob_suffix(p as int)
    }
}

/// A hand class that reads back as itself.
pub open spec fn class_ok(r1: u8, r2: u8, s: Suitedness) -> bool {
    &&& r2 <= r1 < 13
    &&& match s {
        Suitedness::Specific(x, y) => x < 4 && y < 4 && !(r1 == r2 && x == y),
        _ => r1 == r2 ==> s == Suitedness::All,
    }
}

/// A span whose text reads back as itself.
pub open spec fn span_ok(sp: Span) -> bool {
    match sp {
        Span::Single(r1, r2, s) => class_ok(r1, r2, s),
        Span::Plus(r1, r2, s) => class_ok(r1, r2, s),
        Span::Dash(a1, a2, b1, b2, s) => class_ok(a1, a2, s) && class_ok(b1, b2, s) && (((a1 - a2
            == b1 - b2) && a1 > b1) || (a1 == b1 && a2 > b2)),
    }
}

/// The index of the first `c` in `t` is the `k` before which no `c` stands.
pub proof fn lemma_first_index_at(t: Seq<char>, c: char, k: int)
    requires
        -1 <= k < t.len(),
        k >= 0 ==> t[k] == c,
        forall|j: int| 0 <= j < t.len() && (k < 0 || j < k) ==> t[j] != c,
    ensures
        first_index(t, c) == k,
{
    crate::range_text::lemma_first_index(t, c);
    let f = first_index(t, c);
    if f >= 0 && (k < 0 || f < k) {
        assert(t[f] == c);
    }
    if k >= 0 && (f < 0 || k < f) {
        assert(t[k] == c);
    }
}

proof fn lemma_class_text(r1: u8, r2: u8, s: Suitedness)
    requires
        class_ok(r1, r2, s),
    ensures
        is_combo(class_text(r1, r2, s)),
        singleton_of(class_text(r1, r2, s)) == Some((r1, r2, s)),
        forall|j: int|
            0 <= j < class_text(r1, r2, s).len() ==> {
                let ch = #[trigger] class_text(r1, r2, s)[j];
                ch != '-' && ch != '+' && ch != ':' && ch != ',' && !is_ws(ch)
            },
{
    lemma_chars_round_trip(r1 as int, 0);
    lemma_chars_round_trip(r2 as int, 0);
    match s {
        Suitedness::Specific(x, y) => {
            lemma_chars_round_trip(r1 as int, x as int);
            lemma_chars_round_trip(r2 as int, y as int);
        },
        _ => {},
    }
    let t = class_text(r1, r2, s);
    assert forall|j: int| 0 <= j < t.len() implies {
        let ch = #[trigger] t[j];
        ch != '-' && ch != '+' && ch != ':' && ch != ',' && !is_ws(ch)
    } by {
        if rank_of_char(t[j]) is None {
            assert(suit_of_char(t[j]) is Some || t[j] == 's' || t[j] == 'o');
        }
    }
}

/// A printable span's text reads back as the span.
pub proof fn lemma_span_text(sp: Span)
    requires
        span_ok(sp),
    ensures
        is_range_syntax(span_text(sp)),
        span_of(span_text(sp)) == Some(sp),
        span_text(sp).len() >= 2,
        forall|j: int|
            0 <= j < span_text(sp).len() ==> {
                let ch = #[trigger] span_text(sp)[j];
                ch != ':' && ch != ',' && !is_ws(ch)
            },
{
    match sp {
        Span::Single(r1, r2, s) => {
            let t = class_text(r1, r2, s);
            lemma_class_text(r1, r2, s);
            lemma_first_index_at(t, '-', -1);
            lemma_first_index_at(t, '+', -1);
        },
        Span::Plus(r1, r2, s) => {
            let c = class_text(r1, r2, s);
            let t = c.push('+');
            lemma_class_text(r1, r2, s);
            assert(t.drop_last() =~= c);
            assert forall|j: int| 0 <= j < t.len() - 1 implies t[j] != '-' && t[j] != '+' by {
                assert(t[j] == c[j]);
            }
            lemma_first_index_at(t, '-', -1);
            lemma_first_index_at(t, '+', t.len() - 1);
        },
        Span::Dash(a1, a2, b1, b2, s) => {
            let a = class_text(a1, a2, s);
            let b = class_text(b1, b2, s);
            let t = a + seq!['-'] + b;
            lemma_class_text(a1, a2, s);
            lemma_class_text(b1, b2, s);
            assert forall|j: int| 0 <= j < a.len() implies t[j] != '-' by {
                assert(t[j] == a[j]);
            }
            lemma_first_index_at(t, '-', a.len() as int);
            assert(t.subrange(0, a.len() as int) =~= a);
            assert(t.subrange(a.len() as int + 1, t.len() as int) =~= b);
            assert forall|j: int| 0 <= j < t.len() implies {
                let ch = #[trigger] t[j];
                ch != ':' && ch != ',' && !is_ws(ch)
            } by {
                if j < a.len() {
                    assert(t[j] == a[j]);
                } else if j > a.len() {
                    assert(t[j] == b[j - a.len() - 1]);
                }
            }
        },
    }
}

/// The digits of `p`'s decimals, read back `n` places at a time, give `p` modulo `10^n`.
proof fn lemma_decimals_value(pre: Seq<char>, p: int, n: nat)
    requires
        0 <= p,
    ensures
        digits_value(pre + decimals(p, n), pre.len() as int, n) == p % pow10(n),
        forall|j: int| 0 <= j < decimals(p, n).len() ==> crate::range_text::is_digit(#[trigger] decimals(p, n)[j]),
    decreases n,
{
    crate::range::lemma_pow10_step(n);
    if n == 0 {
    } else if p % pow10(n) == 0 {
        assert(decimals(p, n) =~= Seq::<char>::empty());
        assert(pre + decimals(p, n) =~= pre);
        lemma_digits_past_end(pre, pre.len() as int, n);
    } else {
        let q = pow10((n - 1) as nat);
        crate::range::lemma_pow10_step((n - 1) as nat);
        let d = (p / q) % 10;
        let rest = decimals(p, (n - 1) as nat);
        let pre2 = pre.push(digit_char(d));
        lemma_decimals_value(pre2, p, (n - 1) as nat);
        assert(pre + decimals(p, n) =~= pre2 + rest);
        assert(digit_value(digit_char(d)) == d);
        assert((pre2 + rest)[pre.len() as int] == digit_char(d));
        vstd::arithmetic::div_mod::lemma_breakdown(p, q, 10);
        assert(q * 10 == pow10(n));
        assert(p % pow10(n) == q * d + p % q);
        assert(d * q == q * d) by (nonlinear_arith);
    }
}

proof fn lemma_digits_past_end(t: Seq<char>, f: int, q: nat)
    requires
        f >= t.len(),
    ensures
        digits_value(t, f, q) == 0,
    decreases q,
{
    if q > 0 {
        lemma_digits_past_end(t, f + 1, (q - 1) as nat);
        assert(0 * pow10((q - 1) as nat) == 0);
    }
}

/// A printed token reads back as its span and probability.
pub proof fn lemma_token_text(sp: Span, p: u32)
    requires
        span_ok(sp),
        0 < p <= PROB_ONE,
    ensures
        token_effect(token_text(sp, p)) == Some((sp, p)),
        token_text(sp, p).len() >= 1,
        forall|j: int|
            0 <= j < token_text(sp, p).len() ==> {
                let ch = #[trigger] token_text(sp, p)[j];
                ch != ',' && !is_ws(ch)
            },
{
    let st = span_text(sp);
    let t = token_text(sp, p);
    lemma_span_text(sp);
    if p == PROB_ONE {
        assert(t =~= st);
        lemma_first_index_at(t, ':', -1);
    } else {
        let dec = decimals(p as int, 6);
        let pt = seq!['0', '.'] + dec;
        assert(t =~= st + seq![':'] + pt);
        assert(prob_suffix(p as int) =~= seq![':'] + pt);
        assert forall|j: int| 0 <= j < st.len() implies t[j] != ':' by {
            assert(t[j] == st[j]);
        }
        lemma_first_index_at(t, ':', st.len() as int);
        assert(t.subrange(0, st.len() as int) =~= st);
        assert(t.subrange(st.len() as int + 1, t.len() as int) =~= pt);
        lemma_decimals_value(seq!['0', '.'], p as int, 6);
        assert(pow10(6) == 1_000_000) by {
            reveal_with_fuel(pow10, 7);
        }
        assert(forall|j: int| 2 <= j < pt.len() ==> #[trigger] pt[j] == dec[j - 2]);
        assert(is_prob(pt));
        assert(!prob_above_one(pt));
        assert(prob_value(pt) == p);
        assert forall|j: int| 0 <= j < t.len() implies {
            let ch = #[trigger] t[j];
            ch != ',' && !is_ws(ch)
        } by {
            if j < st.len() {
                assert(t[j] == st[j]);
            } else if j > st.len() + 2 {
                assert(t[j] == dec[j - st.len() - 3]);
                assert(crate::range_text::is_digit(dec[j - st.len() - 3]));
            }
        }
    }
}

/// Texts joined by commas.
pub open spec fn join_commas(ts: Seq<Seq<char>>) -> Seq<char>
    decreases ts.len(),
{
    if ts.len() == 0 {
        Seq::empty()
    } else if ts.len() == 1 {
        ts[0]
    } else {
        join_commas(ts.drop_last()) + seq![','] + ts.last()
    }
}

proof fn lemma_split_prefix(t1: Seq<char>, t2: Seq<char>, n: int)
    requires
        0 <= n <= t1.len(),
        n <= t2.len(),
        forall|j: int| 0 <= j < n ==> t1[j] == t2[j],
    ensures
        split_upto(t1, n) == split_upto(t2, n),
    decreases n,
{
    if n > 0 {
        lemma_split_prefix(t1, t2, n - 1);
    }
}

/// Reading a text without commas after `x` and a comma adds one piece.
proof fn lemma_split_after(x: Seq<char>, u: Seq<char>, m: int)
    requires
        0 <= m <= u.len(),
        forall|j: int| 0 <= j < u.len() ==> u[j] != ',',
    ensures
        split_upto(x + seq![','] + u, x.len() + 1 + m) == split_upto(x, x.len() as int).push(u.subrange(0, m)),
    decreases m,
{
    let t = x + seq![','] + u;
    if m == 0 {
        lemma_split_prefix(x, t, x.len() as int);
        assert(t[x.len() as int] == ',');
        assert(u.subrange(0, 0) =~= Seq::<char>::empty());
    } else {
        lemma_split_after(x, u, m - 1);
        assert(t[x.len() + m] == u[m - 1]);
        crate::range_text::lemma_split_upto_len(t, x.len() + m);
        assert(u.subrange(0, m - 1).push(u[m - 1]) =~= u.subrange(0, m));
        assert(split_upto(x, x.len() as int).push(u.subrange(0, m - 1)).update(
            split_upto(x, x.len() as int).len() as int,
            u.subrange(0, m),
        ) =~= split_upto(x, x.len() as int).push(u.subrange(0, m)));
    }
}

/// A text without commas is one piece.
proof fn lemma_split_single(u: Seq<char>, m: int)
    requires
        0 <= m <= u.len(),
        forall|j: int| 0 <= j < u.len() ==> u[j] != ',',
    ensures
        split_upto(u, m) == seq![u.subrange(0, m)],
    decreases m,
{
    if m == 0 {
        assert(u.subrange(0, 0) =~= Seq::<char>::empty());
    } else {
        lemma_split_single(u, m - 1);
        assert(u.subrange(0, m - 1).push(u[m - 1]) =~= u.subrange(0, m));
        assert(seq![u.subrange(0, m - 1)].update(0, u.subrange(0, m)) =~= seq![u.subrange(0, m)]);
    }
}

/// Texts without commas, joined by commas, split back into themselves.
proof fn lemma_split_join(ts: Seq<Seq<char>>)
    requires
        ts.len() >= 1,
        forall|k: int, j: int| 0 <= k < ts.len() && 0 <= j < ts[k].len() ==> #[trigger] ts[k][j] != ',',
    ensures
        split_upto(join_commas(ts), join_commas(ts).len() as int) == ts,
    decreases ts.len(),
{
    if ts.len() == 1 {
        lemma_split_single(ts[0], ts[0].len() as int);
        assert(ts[0].subrange(0, ts[0].len() as int) =~= ts[0]);
        assert(seq![ts[0]] =~= ts);
    } else {
        let init = ts.drop_last();
        assert forall|k: int, j: int| 0 <= k < init.len() && 0 <= j < init[k].len() implies #[trigger] init[k][j] != ',' by {
            assert(init[k] == ts[k]);
        }
        lemma_split_join(init);
        let u = ts.last();
        assert forall|j: int| 0 <= j < u.len() implies u[j] != ',' by {
            assert(ts[ts.len() - 1][j] != ',');
        }
        lemma_split_after(join_commas(init), u, u.len() as int);
        assert(u.subrange(0, u.len() as int) =~= u);
        assert(init.push(u) =~= ts);
    }
}

/// No joined character is white space when no text has any.
proof fn lemma_join_chars(ts: Seq<Seq<char>>)
    requires
        forall|k: int, j: int| 0 <= k < ts.len() && 0 <= j < ts[k].len() ==> !is_ws(#[trigger] ts[k][j]),
    ensures
        forall|j: int| 0 <= j < join_commas(ts).len() ==> !is_ws(#[trigger] join_commas(ts)[j]),
    decreases ts.len(),
{
    if ts.len() >= 2 {
        let init = ts.drop_last();
        assert forall|k: int, j: int| 0 <= k < init.len() && 0 <= j < init[k].len() implies !is_ws(#[trigger] init[k][j]) by {
            assert(init[k] == ts[k]);
        }
        lemma_join_chars(init);
        let a = join_commas(init);
        let u = ts.last();
        assert forall|j: int| 0 <= j < join_commas(ts).len() implies !is_ws(#[trigger] join_commas(ts)[j]) by {
            if j < a.len() {
                assert(join_commas(ts)[j] == a[j]);
            } else if j > a.len() {
                assert(join_commas(ts)[j] == u[j - a.len() - 1]);
                assert(ts[ts.len() - 1][j - a.len() - 1] == u[j - a.len() - 1]);
            }
        }
    } else if ts.len() == 1 {
        assert forall|j: int| 0 <= j < join_commas(ts).len() implies !is_ws(#[trigger] join_commas(ts)[j]) by {
            assert(ts[0][j] == join_commas(ts)[j]);
        }
    }
}

/// A text without white space is its own squeeze.
proof fn lemma_squeeze_plain(s: Seq<char>, n: int)
    requires
        0 <= n <= s.len(),
        forall|j: int| 0 <= j < s.len() ==> !is_ws(#[trigger] s[j]),
    ensures
        squeeze_upto(s, n) == s.subrange(0, n),
    decreases n,
{
    if n > 0 {
        lemma_squeeze_plain(s, n - 1);
        assert(kept(s, n - 1));
        assert(s.subrange(0, n - 1).push(s[n - 1]) =~= s.subrange(0, n));
    } else {
        assert(s.subrange(0, 0) =~= Seq::<char>::empty());
    }
}

/// Printed tokens joined by commas read back as those tokens.
pub proof fn lemma_read_joined(ts: Seq<Seq<char>>)
    requires
        forall|k: int| 0 <= k < ts.len() ==> (#[trigger] ts[k]).len() >= 1,
        forall|k: int, j: int| 0 <= k < ts.len() && 0 <= j < ts[k].len() ==> #[trigger] ts[k][j] != ','
            && !is_ws(ts[k][j]),
    ensures
        range_tokens(squeeze(join_commas(ts))) == ts,
{
    let t = join_commas(ts);
    assert forall|k: int, j: int| 0 <= k < ts.len() && 0 <= j < ts[k].len() implies !is_ws(#[trigger] ts[k][j]) by {}
    lemma_join_chars(ts);
    lemma_squeeze_plain(t, t.len() as int);
    assert(t.subrange(0, t.len() as int) =~= t);
    if ts.len() == 0 {
        assert(split_upto(t, 0) == seq![Seq::<char>::empty()]);
        assert(seq![Seq::<char>::empty()].drop_last() =~= ts);
    } else {
        lemma_split_join(ts);
        assert(ts.last().len() >= 1);
    }
}

} // verus!
