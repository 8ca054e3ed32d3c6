use vstd::prelude::*;
use crate::card::{rank_of_char, suit_of_char};

verus! {

/// Unicode white space, as `char::is_whitespace` has it.
pub open spec fn is_ws(c: char) -> bool {
    ('\t' <= c <= '\r') || c == ' ' || c == '\u{85}' || c == '\u{A0}' || c == '\u{1680}' || (
    '\u{2000}' <= c <= '\u{200A}') || c == '\u{2028}' || c == '\u{2029}' || c == '\u{202F}' || c
        == '\u{205F}' || c == '\u{3000}'
}

/// Characters around which white space is dropped.
pub open spec fn is_sep(c: char) -> bool {
    c == '-' || c == ':' || c == ','
}

/// Index of the nearest character before `i` that is not white space, or -1.
pub open spec fn prev_solid(s: Seq<char>, i: int) -> int
    decreases i,
{
    if i <= 0 {
        -1
    } else if !is_ws(s[i - 1]) {
        i - 1
    } else {
        prev_solid(s, i - 1)
    }
}

/// Index of the nearest character after `i` that is not white space, or `s.len()`.
pub open spec fn next_solid(s: Seq<char>, i: int) -> int
    decreases s.len() - i,
{
    if i + 1 >= s.len() {
        s.len() as int
    } else if !is_ws(s[i + 1]) {
        i + 1
    } else {
        next_solid(s, i + 1)
    }
}

/// A character stays unless it is white space at either end of the text or next to a
/// separator (with only white space in between).
pub open spec fn kept(s: Seq<char>, i: int) -> bool {
    !is_ws(s[i]) || (prev_solid(s, i) >= 0 && next_solid(s, i) < s.len() && !is_sep(
        s[prev_solid(s, i)],
    ) && !is_sep(s[next_solid(s, i)]))
}

/// The kept characters among the first `n`.
pub open spec fn squeeze_upto(s: Seq<char>, n: int) -> Seq<char>
    decreases n,
{
    if n <= 0 {
        Seq::empty()
    } else if kept(s, n - 1) {
        squeeze_upto(s, n - 1).push(s[n - 1])
    } else {
        squeeze_upto(s, n - 1)
    }
}

/// The text without white space at its ends or around separators.
pub open spec fn squeeze(s: Seq<char>) -> Seq<char> {
    squeeze_upto(s, s.len() as int)
}

/// Whether `c` is white space, as `is_ws` says.
pub fn char_is_ws(c: char) -> (r: bool)
    ensures
        r == is_ws(c),
{
    ('\t' <= c && c <= '\r') || c == ' ' || c == '\u{85}' || c == '\u{A0}' || c == '\u{1680}' || (
    '\u{2000}' <= c && c <= '\u{200A}') || c == '\u{2028}' || c == '\u{2029}' || c == '\u{202F}'
        || c == '\u{205F}' || c == '\u{3000}'
}

/// The characters of `s`.
pub fn chars_of(s: &str) -> (r: Vec<char>)
    ensures
        r@ == s@,
{
    let n = s.unicode_len();
    let mut r: Vec<char> = Vec::new();
    let mut i: usize = 0;
    while i < n
        invariant
            n == s@.len(),
            i <= n,
            r@ == s@.subrange(0, i as int),
        decreases n - i,
    {
        r.push(s.get_char(i));
        i = i + 1;
        assert(r@ =~= s@.subrange(0, i as int));
    }
    assert(s@.subrange(0, n as int) =~= s@);
    r
}

/// A string of the characters `v`.
pub fn string_of_chars(v: &Vec<char>) -> (r: String)
    ensures
        r@ == v@,
{
    let mut r = crate::text::string_of("");
    proof {
        reveal_strlit("");
    }
    let mut i: usize = 0;
    while i < v.len()
        invariant
            i <= v@.len(),
            r@ == v@.subrange(0, i as int),
        decreases v@.len() - i,
    {
        crate::text::push_char(&mut r, v[i]);
        i = i + 1;
        assert(r@ =~= v@.subrange(0, i as int));
    }
    assert(v@.subrange(0, v@.len() as int) =~= v@);
    r
}

/// Drops white space at both ends of the text and around each `-`, `:` and `,`.
pub fn squeeze_chars(s: &Vec<char>) -> (r: Vec<char>)
    ensures
        r@ == squeeze(s@),
{
    let n = s.len();
    // next[i] is the index of the first non-white-space character after i, or n
    let mut next: Vec<usize> = Vec::new();
    let mut t: usize = 0;
    while t < n
        invariant
            t <= n,
            next@.len() == t,
        decreases n - t,
    {
        next.push(n);
        t = t + 1;
    }
    let mut i: usize = n;
    let mut nxt: usize = n;
    while i > 0
        invariant
            n == s@.len(),
            next@.len() == n,
            i <= n,
            i < n ==> nxt == next_solid(s@, i as int),
            i == n ==> nxt == n,
            forall|j: int| i <= j < n ==> #[trigger] next@[j] == next_solid(s@, j),
        decreases i,
    {
        let j = i - 1;
        if i < n && !char_is_ws(s[i]) {
            nxt = i;
        }
        proof {
            if i < n {
                if !is_ws(s@[i as int]) {
                    assert(next_solid(s@, j as int) == i);
                } else {
                    assert(next_solid(s@, j as int) == next_solid(s@, i as int));
                }
            }
        }
        next.set(j, nxt);
        i = j;
    }
    let mut r: Vec<char> = Vec::new();
    // one past the index of the last character that is not white space, or 0
    let mut after_prev: usize = 0;
    let mut k: usize = 0;
    while k < n
        invariant
            n == s@.len(),
            n <= usize::MAX,
            next@.len() == n,
            forall|j: int| 0 <= j < n ==> #[trigger] next@[j] == next_solid(s@, j),
            k <= n,
            after_prev == prev_solid(s@, k as int) + 1,
            after_prev <= k,
            r@ == squeeze_upto(s@, k as int),
        decreases n - k,
    {
        let c = s[k];
        let ws = char_is_ws(c);
        let keep = if !ws {
            true
        } else {
            let nx = next[k];
            after_prev > 0 && nx < n && !is_sep_char(s[after_prev - 1]) && !is_sep_char(s[nx])
        };
        assert(keep == kept(s@, k as int));
        if keep {
            r.push(c);
        }
        if !ws {
            after_prev = k + 1;
        }
        k = k + 1;
    }
    r
}

/// Whether `c` is `-`, `:` or `,`.
pub fn is_sep_char(c: char) -> (r: bool)
    ensures
        r == is_sep(c),
{
    c == '-' || c == ':' || c == ','
}

/// Drops white space at both ends of a range text and around each `-`, `:` and `,`.
pub fn squeeze_range_text(s: &str) -> (r: String)
    ensures
        r@ == squeeze(s@),
{
    let v = chars_of(s);
    let w = squeeze_chars(&v);
    string_of_chars(&w)
}

/// The comma-separated pieces of the first `n` characters of `t`.
pub open spec fn split_upto(t: Seq<char>, n: int) -> Seq<Seq<char>>
    decreases n,
{
    if n <= 0 {
        seq![Seq::empty()]
    } else {
        let p = split_upto(t, n - 1);
        if t[n - 1] == ',' {
            p.push(Seq::empty())
        } else {
            p.update(p.len() - 1, p.last().push(t[n - 1]))
        }
    }
}

/// There is always at least one piece.
pub proof fn lemma_split_upto_len(t: Seq<char>, n: int)
    ensures
        split_upto(t, n).len() >= 1,
    decreases n,
{
    if n > 0 {
        lemma_split_upto_len(t, n - 1);
    }
}

/// The comma-separated pieces of `t`, without a last empty piece.
pub open spec fn range_tokens(t: Seq<char>) -> Seq<Seq<char>> {
    let p = split_upto(t, t.len() as int);
    if p.last().len() == 0 {
        p.drop_last()
    } else {
        p
    }
}

/// Splits `t` at its commas and drops a last empty piece.
pub fn split_tokens(t: &Vec<char>) -> (r: Vec<Vec<char>>)
    ensures
        r@.len() == range_tokens(t@).len(),
        forall|k: int| 0 <= k < r@.len() ==> (#[trigger] r@[k])@ == range_tokens(t@)[k],
{
    let mut done: Vec<Vec<char>> = Vec::new();
    let mut cur: Vec<char> = Vec::new();
    let mut i: usize = 0;
    while i < t.len()
        invariant
            i <= t@.len(),
            split_upto(t@, i as int).len() == done@.len() + 1,
            forall|k: int| 0 <= k < done@.len() ==> (#[trigger] done@[k])@ == split_upto(t@, i as int)[k],
            cur@ == split_upto(t@, i as int).last(),
        decreases t@.len() - i,
    {
        proof {
            lemma_split_upto_len(t@, i as int);
        }
        if t[i] == ',' {
            done.push(cur);
            cur = Vec::new();
        } else {
            cur.push(t[i]);
        }
        i = i + 1;
    }
    proof {
        lemma_split_upto_len(t@, i as int);
    }
    if cur.len() > 0 {
        done.push(cur);
    } else {
        assert(split_upto(t@, t@.len() as int).drop_last().len() == done@.len());
    }
    done
}

/// Index of the first `c` among the first `n` characters of `t`, or -1.
pub open spec fn first_upto(t: Seq<char>, c: char, n: int) -> int
    decreases n,
{
    if n <= 0 {
        -1
    } else if first_upto(t, c, n - 1) >= 0 {
        first_upto(t, c, n - 1)
    } else if t[n - 1] == c {
        n - 1
    } else {
        -1
    }
}

/// Index of the first `c` in `t`, or -1.
pub open spec fn first_index(t: Seq<char>, c: char) -> int {
    first_upto(t, c, t.len() as int)
}

proof fn lemma_first_upto(t: Seq<char>, c: char, n: int)
    requires
        0 <= n <= t.len(),
    ensures
        -1 <= first_upto(t, c, n) < n,
        first_upto(t, c, n) >= 0 ==> t[first_upto(t, c, n)] == c,
        forall|j: int| 0 <= j < n && (first_upto(t, c, n) < 0 || j < first_upto(t, c, n)) ==> #[trigger] t[j] != c,
    decreases n,
{
    if n > 0 {
        lemma_first_upto(t, c, n - 1);
    }
}

/// Index of the first `c` in `t`, or `t.len()`.
pub fn find_char(t: &Vec<char>, c: char) -> (r: usize)
    ensures
        r <= t@.len(),
        r < t@.len() <==> first_index(t@, c) >= 0,
        r < t@.len() ==> r == first_index(t@, c),
{
    let mut i: usize = 0;
    while i < t.len()
        invariant
            i <= t@.len(),
            first_upto(t@, c, i as int) == -1,
        decreases t@.len() - i,
    {
        if t[i] == c {
            proof {
                lemma_first_upto(t@, c, t@.len() as int);
                lemma_first_upto_stable(t@, c, i + 1, t@.len() as int);
            }
            return i;
        }
        i = i + 1;
    }
    t.len()
}

proof fn lemma_first_upto_stable(t: Seq<char>, c: char, m: int, n: int)
    requires
        0 <= m <= n <= t.len(),
        first_upto(t, c, m) >= 0,
    ensures
        first_upto(t, c, n) == first_upto(t, c, m),
    decreases n - m,
{
    if m < n {
        lemma_first_upto_stable(t, c, m, n - 1);
    }
}

pub open spec fn is_rank_c(c: char) -> bool {
    rank_of_char(c) is Some
}

pub open spec fn is_suit_c(c: char) -> bool {
    suit_of_char(c) is Some
}

/// A hand class: two ranks with an optional `s` or `o`, or two ranks each with a suit.
pub open spec fn is_combo(t: Seq<char>) -> bool {
    ||| (t.len() == 2 && is_rank_c(t[0]) && is_rank_c(t[1]))
    ||| (t.len() == 3 && is_rank_c(t[0]) && is_rank_c(t[1]) && (t[2] == 's' || t[2] == 'o'))
    ||| (t.len() == 4 && is_rank_c(t[0]) && is_suit_c(t[1]) && is_rank_c(t[2]) && is_suit_c(t[3]))
}

/// A hand class, a hand class followed by `+`, or two hand classes joined by `-`.
pub open spec fn is_range_syntax(t: Seq<char>) -> bool {
    let k = first_index(t, '-');
    ||| is_combo(t)
    ||| (t.len() >= 1 && t.last() == '+' && is_combo(t.drop_last()))
    ||| (k >= 0 && is_combo(t.subrange(0, k)) && is_combo(t.subrange(k + 1, t.len() as int)))
}

pub open spec fn is_digit(c: char) -> bool {
    '0' <= c <= '9'
}

/// A probability: `0` or `1` with an optional `.` and digits, or `.` and at least one digit.
pub open spec fn is_prob(p: Seq<char>) -> bool {
    ||| (p.len() >= 1 && (p[0] == '0' || p[0] == '1') && (p.len() == 1 || (p[1] == '.' && forall|
        i: int,
    | 2 <= i < p.len() ==> is_digit(#[trigger] p[i]))))
    ||| (p.len() >= 2 && p[0] == '.' && forall|i: int| 1 <= i < p.len() ==> is_digit(#[trigger] p[i]))
}

/// The range and probability parts of a range token, if it has the right shape.
pub open spec fn token_parts(tok: Seq<char>) -> Option<(Seq<char>, Option<Seq<char>>)> {
    let k = first_index(tok, ':');
    if k < 0 {
        if is_range_syntax(tok) {
            Some((tok, None))
        } else {
            None
        }
    } else {
        let r = tok.subrange(0, k);
        let p = tok.subrange(k + 1, tok.len() as int);
        if is_range_syntax(r) && is_prob(p) {
            Some((r, Some(p)))
        } else {
            None
        }
    }
}

pub fn is_rank_char(c: char) -> (r: bool)
    ensures
        r == is_rank_c(c),
{
    c == 'A' || c == 'K' || c == 'Q' || c == 'J' || c == 'T' || ('2' <= c && c <= '9')
}

pub fn is_suit_char(c: char) -> (r: bool)
    ensures
        r == is_suit_c(c),
{
    c == 'c' || c == 'd' || c == 'h' || c == 's'
}

/// Whether `t[lo..hi]` is a hand class.
fn combo_at(t: &Vec<char>, lo: usize, hi: usize) -> (r: bool)
    requires
        lo <= hi <= t@.len(),
    ensures
        r == is_combo(t@.subrange(lo as int, hi as int)),
{
    let n = hi - lo;
    let ghost u = t@.subrange(lo as int, hi as int);
    if n == 2 {
        assert(u[0] == t@[lo as int] && u[1] == t@[lo + 1]);
        is_rank_char(t[lo]) && is_rank_char(t[lo + 1])
    } else if n == 3 {
        assert(u[0] == t@[lo as int] && u[1] == t@[lo + 1] && u[2] == t@[lo + 2]);
        is_rank_char(t[lo]) && is_rank_char(t[lo + 1]) && (t[lo + 2] == 's' || t[lo + 2] == 'o')
    } else if n == 4 {
        assert(u[0] == t@[lo as int] && u[1] == t@[lo + 1] && u[2] == t@[lo + 2] && u[3] == t@[lo + 3]);
        is_rank_char(t[lo]) && is_suit_char(t[lo + 1]) && is_rank_char(t[lo + 2]) && is_suit_char(t[lo + 3])
    } else {
        false
    }
}

/// The characters `t[lo..hi]`.
pub fn slice_chars(t: &Vec<char>, lo: usize, hi: usize) -> (r: Vec<char>)
    requires
        lo <= hi <= t@.len(),
    ensures
        r@ == t@.subrange(lo as int, hi as int),
{
    let mut r: Vec<char> = Vec::new();
    let mut i = lo;
    while i < hi
        invariant
            lo <= i <= hi <= t@.len(),
            r@ == t@.subrange(lo as int, i as int),
        decreases hi - i,
    {
        r.push(t[i]);
        i = i + 1;
        assert(r@ =~= t@.subrange(lo as int, i as int));
    }
    r
}

/// Whether `t` is a range: a hand class, with `+` or `-` and a second class.
fn range_syntax(t: &Vec<char>) -> (r: bool)
    ensures
        r == is_range_syntax(t@),
{
    let n = t.len();
    let k = find_char(t, '-');
    assert(t@.subrange(0, n as int) =~= t@);
    if combo_at(t, 0, n) {
        return true;
    }
    if n >= 1 && t[n - 1] == '+' {
        assert(t@.subrange(0, n - 1) =~= t@.drop_last());
        if combo_at(t, 0, n - 1) {
            return true;
        }
    }
    if k < n {
        combo_at(t, 0, k) && combo_at(t, k + 1, n)
    } else {
        false
    }
}

/// Whether `p` is a probability.
fn prob_syntax(p: &Vec<char>) -> (r: bool)
    ensures
        r == is_prob(p@),
{
    let n = p.len();
    if n == 0 {
        return false;
    }
    let (from, head_ok) = if p[0] == '0' || p[0] == '1' {
        if n == 1 {
            return true;
        }
        (2usize, p[1] == '.')
    } else {
        (1usize, p[0] == '.' && n >= 2)
    };
    if !head_ok {
        return false;
    }
    let mut i = from;
    while i < n
        invariant
            n == p@.len(),
            1 <= from <= 2,
            from == 2 <==> (p@[0] == '0' || p@[0] == '1'),
            from == 2 ==> p@[1] == '.',
            from == 1 ==> p@[0] == '.' && n >= 2,
            from <= i <= n,
            forall|j: int| from <= j < i ==> is_digit(#[trigger] p@[j]),
        decreases n - i,
    {
        if !('0' <= p[i] && p[i] <= '9') {
            assert(!is_digit(p@[i as int]));
            assert(from == 2 <==> (p@[0] == '0' || p@[0] == '1'));
            return false;
        }
        i = i + 1;
    }
    true
}

/// Splits a range token into its range and probability parts, if it has the right shape.
pub fn split_token(tok: &Vec<char>) -> (r: Option<(Vec<char>, Option<Vec<char>>)>)
    ensures
        r is None <==> token_parts(tok@) is None,
        r is Some ==> r->Some_0.0@ == token_parts(tok@)->Some_0.0,
        r is Some ==> (r->Some_0.1 is Some <==> token_parts(tok@)->Some_0.1 is Some),
        r is Some && r->Some_0.1 is Some ==> r->Some_0.1->Some_0@ == token_parts(tok@)->Some_0.1->Some_0,
{
    let n = tok.len();
    let k = find_char(tok, ':');
    if k == n {
        if range_syntax(tok) {
            let whole = slice_chars(tok, 0, n);
            assert(tok@.subrange(0, n as int) =~= tok@);
            Some((whole, None))
        } else {
            None
        }
    } else {
        let r = slice_chars(tok, 0, k);
        let p = slice_chars(tok, k + 1, n);
        if range_syntax(&r) && prob_syntax(&p) {
            Some((r, Some(p)))
        } else {
            None
        }
    }
}

/// The range and probability parts of a range token (`"K9s:.67"` gives `"K9s"` and
/// `".67"`), or `None` if the token does not have the shape of one.
pub fn range_token_parts(s: &str) -> (r: Option<(String, Option<String>)>)
    ensures
        r is None <==> token_parts(s@) is None,
        r is Some ==> r->Some_0.0@ == token_parts(s@)->Some_0.0,
        r is Some ==> (r->Some_0.1 is Some <==> token_parts(s@)->Some_0.1 is Some),
        r is Some && r->Some_0.1 is Some ==> r->Some_0.1->Some_0@ == token_parts(s@)->Some_0.1->Some_0,
{
    let v = chars_of(s);
    match split_token(&v) {
        None => None,
        Some((rp, pp)) => {
            let rs = string_of_chars(&rp);
            match pp {
                None => Some((rs, None)),
                Some(p) => Some((rs, Some(string_of_chars(&p)))),
            }
        },
    }
}

/// What `first_index` says of a text.
pub proof fn lemma_first_index(t: Seq<char>, c: char)
    ensures
        -1 <= first_index(t, c) < t.len(),
        first_index(t, c) >= 0 ==> t[first_index(t, c)] == c,
        forall|j: int| 0 <= j < t.len() && (first_index(t, c) < 0 || j < first_index(t, c)) ==> #[trigger] t[j] != c,
{
    lemma_first_upto(t, c, t.len() as int);
}

/// Appending a character `d` to a text without `c` finds `c` at the end or nowhere.
pub proof fn lemma_first_index_extend(t: Seq<char>, d: char, c: char)
    requires
        first_index(t, c) < 0,
    ensures
        first_index(t.push(d), c) == if d == c {
            t.len() as int
        } else {
            -1
        },
{
    lemma_first_upto(t, c, t.len() as int);
    assert forall|n: int| 0 <= n <= t.len() implies #[trigger] first_upto(t.push(d), c, n) == first_upto(t, c, n) by {
        lemma_first_upto_prefix(t, t.push(d), c, n);
    }
    let u = t.push(d);
    assert(u[t.len() as int] == d);
    assert(first_upto(u, c, t.len() as int) == -1);
    assert(u.len() == t.len() + 1);
    assert(first_upto(u, c, t.len() as int + 1) == if d == c {
        t.len() as int
    } else {
        -1
    });
}

proof fn lemma_first_upto_prefix(t: Seq<char>, u: Seq<char>, c: char, n: int)
    requires
        0 <= n <= t.len(),
        n <= u.len(),
        forall|j: int| 0 <= j < n ==> t[j] == u[j],
    ensures
        first_upto(u, c, n) == first_upto(t, c, n),
    decreases n,
{
    if n > 0 {
        lemma_first_upto_prefix(t, u, c, n - 1);
    }
}

} // verus!
