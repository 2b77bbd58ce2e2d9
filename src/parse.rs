//! The network text format: `N M`, then the `M` first wires, then the `M`
//! second wires, one line each, wires numbered from 1.
use vstd::prelude::*;
use crate::plan::valid_network;
use vstd::string::StringSliceAdditionalSpecFns;

verus! {

/// ASCII whitespace: space, tab, line feed, form feed, carriage return.
pub open spec fn is_ws(c: u8) -> bool {
    c == 32 || c == 9 || c == 10 || c == 12 || c == 13
}

/// The index of the first line feed at or after `from`, or the length.
pub open spec fn nl_pos(b: Seq<u8>, from: int) -> int
    decreases b.len() - from,
{
    if from < 0 || from >= b.len() {
        b.len() as int
    } else if b[from] == 10 {
        from
    } else {
        nl_pos(b, from + 1)
    }
}

/// Where line `k` begins; the line exists when this is below the length.
pub open spec fn line_start(b: Seq<u8>, k: nat) -> int
    decreases k,
{
    if k == 0 {
        0
    } else {
        nl_pos(b, line_start(b, (k - 1) as nat)) + 1
    }
}

/// Line `k`, without its line feed.
pub open spec fn line(b: Seq<u8>, k: nat) -> Seq<u8> {
    b.subrange(line_start(b, k), nl_pos(b, line_start(b, k)))
}

pub open spec fn has_line(b: Seq<u8>, k: nat) -> bool {
    line_start(b, k) < b.len()
}

/// The length of the run of non-whitespace bytes at the start of `l`.
pub open spec fn run_len(l: Seq<u8>) -> nat
    decreases l.len(),
{
    if l.len() == 0 || is_ws(l[0]) {
        0
    } else {
        1 + run_len(l.drop_first())
    }
}

/// The whitespace-separated words of `l`.
pub open spec fn words(l: Seq<u8>) -> Seq<Seq<u8>>
    decreases l.len(),
{
    if l.len() == 0 {
        seq![]
    } else if is_ws(l[0]) {
        words(l.drop_first())
    } else {
        let k = run_len(l) as int;
        if k <= l.len() {
            seq![l.take(k)] + words(l.skip(k))
        } else {
            seq![]
        }
    }
}

pub open spec fn is_digit(c: u8) -> bool {
    48 <= c <= 57
}

/// The value of a string of decimal digits.
pub open spec fn digits_value(d: Seq<u8>) -> nat
    decreases d.len(),
{
    if d.len() == 0 {
        0
    } else {
        digits_value(d.drop_last()) * 10 + (d.last() - 48) as nat
    }
}

/// A word without its leading `+`, if any.
pub open spec fn digits_of(w: Seq<u8>) -> Seq<u8> {
    if w.len() > 0 && w[0] == 43 {
        w.drop_first()
    } else {
        w
    }
}

pub open spec fn all_digits(d: Seq<u8>) -> bool {
    forall|i: int| 0 <= i < d.len() ==> is_digit(#[trigger] d[i])
}

/// A word read as an unsigned integer: an optional `+`, then at least one
/// digit, with a value that fits in `usize`.
pub open spec fn word_value(w: Seq<u8>) -> Option<usize> {
    let d = digits_of(w);
    if d.len() > 0 && all_digits(d) && digits_value(d) <= usize::MAX {
        Some(digits_value(d) as usize)
    } else {
        None
    }
}

/// Every word of `ws` is a number.
pub open spec fn all_values(ws: Seq<Seq<u8>>) -> bool {
    forall|i: int| 0 <= i < ws.len() ==> (#[trigger] word_value(ws[i])) is Some
}

pub open spec fn values(ws: Seq<Seq<u8>>) -> Seq<usize> {
    ws.map_values(|w: Seq<u8>| word_value(w)->Some_0)
}

/// The text is a network: `n` in `2..=64` and `m` read from the first line,
/// then `m` numbers in `1..=n` on each of the next two lines, each first
/// wire below its second wire.
pub open spec fn well_formed(b: Seq<u8>) -> bool {
    let w0 = words(line(b, 0));
    let w1 = words(line(b, 1));
    let w2 = words(line(b, 2));
    &&& has_line(b, 0)
    &&& w0.len() >= 2
    &&& word_value(w0[0]) is Some
    &&& 2 <= word_value(w0[0])->Some_0 <= 64
    &&& word_value(w0[1]) is Some
    &&& has_line(b, 1)
    &&& all_values(w1)
    &&& has_line(b, 2)
    &&& all_values(w2)
    &&& w1.len() == word_value(w0[1])->Some_0
    &&& w2.len() == word_value(w0[1])->Some_0
    &&& forall|k: int|
        0 <= k < w1.len() ==> {
            let a = #[trigger] values(w1)[k];
            let c = values(w2)[k];
            1 <= a && a < c && c <= word_value(w0[0])->Some_0
        }
}

/// Every number of the two comparator lines lies in `1..=n`.
pub open spec fn in_range(a: Seq<usize>, c: Seq<usize>, n: int) -> bool {
    forall|q: int| 0 <= q < a.len() ==> 1 <= #[trigger] a[q] <= n && 1 <= c[q] <= n
}

/// The text passes every check before the ranges of the comparator numbers.
pub open spec fn counts_ok(b: Seq<u8>, n: int, m: int) -> bool {
    let w0 = words(line(b, 0));
    let w1 = words(line(b, 1));
    let w2 = words(line(b, 2));
    &&& has_line(b, 0)
    &&& w0.len() >= 2
    &&& word_value(w0[0]) is Some
    &&& n == word_value(w0[0])->Some_0
    &&& 2 <= n <= 64
    &&& word_value(w0[1]) is Some
    &&& m == word_value(w0[1])->Some_0
    &&& has_line(b, 1)
    &&& all_values(w1)
    &&& has_line(b, 2)
    &&& all_values(w2)
    &&& w1.len() == m
    &&& w2.len() == m
}

/// Why a text is not a network: the first check that fails.
pub open spec fn parse_error(b: Seq<u8>) -> Seq<char> {
    let w0 = words(line(b, 0));
    let w1 = words(line(b, 1));
    let w2 = words(line(b, 2));
    let n = word_value(w0[0])->Some_0;
    let m = word_value(w0[1])->Some_0;
    if !has_line(b, 0) {
        "empty input"@
    } else if w0.len() < 1 {
        "missing n"@
    } else if word_value(w0[0]) is None {
        "parseint failed n"@
    } else if n < 2 || n > 64 {
        "invalid n"@
    } else if w0.len() < 2 {
        "missing m"@
    } else if word_value(w0[1]) is None {
        "parseint failed m"@
    } else if !has_line(b, 1) {
        "missing a"@
    } else if !all_values(w1) {
        "parseint failed a"@
    } else if !has_line(b, 2) {
        "missing a"@
    } else if !all_values(w2) {
        "parseint failed b"@
    } else if w1.len() != m || w2.len() != m || !in_range(values(w1), values(w2), n as int) {
        "invalid input"@
    } else {
        "invalid comparators"@
    }
}

/// The comparators of a well-formed text, numbered from 0.
pub open spec fn network_of(b: Seq<u8>) -> Seq<(usize, usize)> {
    let a = values(words(line(b, 1)));
    let c = values(words(line(b, 2)));
    Seq::new(a.len(), |k: int| ((a[k] - 1) as usize, (c[k] - 1) as usize))
}

/// The first line feed at or after `from`.
fn find_nl(b: &[u8], from: usize) -> (r: usize)
    requires
        from <= b@.len(),
    ensures
        r == nl_pos(b@, from as int),
        from <= r <= b@.len(),
{
    let mut i = from;
    while i < b.len() && b[i] != 10
        invariant
            from <= i <= b@.len(),
            nl_pos(b@, from as int) == nl_pos(b@, i as int),
        decreases b@.len() - i,
    {
        i += 1;
    }
    i
}

proof fn lemma_run_len(l: Seq<u8>, k: int)
    requires
        0 <= k <= l.len(),
        forall|t: int| 0 <= t < k ==> !is_ws(#[trigger] l[t]),
        k == l.len() || is_ws(l[k]),
    ensures
        run_len(l) == k,
    decreases k,
{
    if k > 0 {
        let d = l.drop_first();
        assert forall|t: int| 0 <= t < k - 1 implies !is_ws(#[trigger] d[t]) by {
            assert(d[t] == l[t + 1]);
        }
        if k < l.len() {
            assert(d[k - 1] == l[k]);
        }
        lemma_run_len(d, k - 1);
    }
}

/// The ranges of the words of `b[s..e]`.
fn word_ranges(b: &[u8], s: usize, e: usize) -> (r: Vec<(usize, usize)>)
    requires
        s <= e <= b@.len(),
    ensures
        r@.len() == words(b@.subrange(s as int, e as int)).len(),
        forall|k: int|
            0 <= k < r@.len() ==> {
                let (x, y) = #[trigger] r@[k];
                &&& x <= y <= e
                &&& b@.subrange(x as int, y as int) == words(b@.subrange(s as int, e as int))[k]
            },
{
    let ghost all = words(b@.subrange(s as int, e as int));
    let mut r: Vec<(usize, usize)> = Vec::new();
    let mut i = s;
    proof {
        assert(all == seq![] + words(b@.subrange(i as int, e as int)));
    }
    while i < e
        invariant
            s <= i <= e <= b@.len(),
            all == r@.map_values(|p: (usize, usize)| b@.subrange(p.0 as int, p.1 as int)) + words(
                b@.subrange(i as int, e as int),
            ),
            forall|k: int| 0 <= k < r@.len() ==> (#[trigger] r@[k]).0 <= r@[k].1 <= i,
        decreases e - i,
    {
        let ghost l = b@.subrange(i as int, e as int);
        let ghost acc = r@.map_values(|p: (usize, usize)| b@.subrange(p.0 as int, p.1 as int));
        let c = b[i];
        if c == 32 || c == 9 || c == 10 || c == 12 || c == 13 {
            proof {
                assert(l.drop_first() =~= b@.subrange(i + 1, e as int));
            }
            i += 1;
        } else {
            let mut j = i + 1;
            while j < e && !(b[j] == 32 || b[j] == 9 || b[j] == 10 || b[j] == 12 || b[j] == 13)
                invariant
                    i < j <= e <= b@.len(),
                    forall|t: int| i <= t < j ==> !is_ws(#[trigger] b@[t]),
                decreases e - j,
            {
                j += 1;
            }
            proof {
                let k = (j - i) as int;
                assert forall|t: int| 0 <= t < k implies !is_ws(#[trigger] l[t]) by {
                    assert(l[t] == b@[i + t]);
                }
                lemma_run_len(l, k);
                assert(l.take(k) =~= b@.subrange(i as int, j as int));
                assert(l.skip(k) =~= b@.subrange(j as int, e as int));
            }
            r.push((i, j));
            proof {
                assert(r@.map_values(|p: (usize, usize)| b@.subrange(p.0 as int, p.1 as int)) =~= acc.push(
                    b@.subrange(i as int, j as int),
                ));
                assert(all =~= r@.map_values(|p: (usize, usize)| b@.subrange(p.0 as int, p.1 as int))
                    + words(b@.subrange(j as int, e as int)));
            }
            i = j;
        }
    }
    proof {
        assert(b@.subrange(i as int, e as int).len() == 0);
        assert(all =~= r@.map_values(|p: (usize, usize)| b@.subrange(p.0 as int, p.1 as int)));
        assert forall|k: int| 0 <= k < r@.len() implies {
            let (x, y) = #[trigger] r@[k];
            &&& x <= y <= e
            &&& b@.subrange(x as int, y as int) == all[k]
        } by {
        }
    }
    r
}

proof fn lemma_digits_mono(d: Seq<u8>, k: int)
    requires
        0 <= k <= d.len(),
    ensures
        digits_value(d.take(k)) <= digits_value(d),
    decreases d.len() - k,
{
    if k < d.len() {
        lemma_digits_mono(d, k + 1);
        let t = d.take(k + 1);
        assert(t.drop_last() =~= d.take(k));
        assert(digits_value(t) == digits_value(d.take(k)) * 10 + (t.last() - 48) as nat);
    } else {
        assert(d.take(k) =~= d);
    }
}

/// Reads `b[s..e]` as an unsigned integer.
fn parse_word(b: &[u8], s: usize, e: usize) -> (r: Option<usize>)
    requires
        s <= e <= b@.len(),
    ensures
        r == word_value(b@.subrange(s as int, e as int)),
{
    let ghost w = b@.subrange(s as int, e as int);
    let ds = if s < e && b[s] == 43 { s + 1 } else { s };
    let ghost d = b@.subrange(ds as int, e as int);
    proof {
        assert(d =~= digits_of(w));
    }
    if ds == e {
        return None;
    }
    let mut acc: usize = 0;
    let mut i = ds;
    while i < e
        invariant
            ds <= i <= e <= b@.len(),
            d == b@.subrange(ds as int, e as int),
            w == b@.subrange(s as int, e as int),
            d == digits_of(w),
            forall|t: int| 0 <= t < i - ds ==> is_digit(#[trigger] d[t]),
            acc == digits_value(d.take(i - ds)),
        decreases e - i,
    {
        let c = b[i];
        if c < 48 || c > 57 {
            proof {
                assert(d[i - ds] == c);
                assert(!is_digit(d[i - ds]));
                assert(!all_digits(d));
            }
            return None;
        }
        let ghost t = d.take(i - ds + 1);
        proof {
            assert(t.drop_last() =~= d.take(i - ds));
            assert(t.last() == c);
        }
        let digit = (c - 48) as usize;
        proof {
            assert(digits_value(t) == acc * 10 + digit);
        }
        match acc.checked_mul(10) {
            None => {
                proof {
                    lemma_digits_mono(d, i - ds + 1);
                }
                return None;
            },
            Some(x) => match x.checked_add(digit) {
                None => {
                    proof {
                        lemma_digits_mono(d, i - ds + 1);
                    }
                    return None;
                },
                Some(y) => {
                    acc = y;
                },
            },
        }
        i += 1;
    }
    proof {
        assert(d.take(d.len() as int) =~= d);
    }
    Some(acc)
}

/// Reads every word of a line; `None` when one is not a number.
fn parse_all(b: &[u8], ranges: &Vec<(usize, usize)>, ghost_words: Ghost<Seq<Seq<u8>>>) -> (r: Option<Vec<usize>>)
    requires
        ranges@.len() == ghost_words@.len(),
        forall|k: int|
            0 <= k < ranges@.len() ==> {
                let (x, y) = #[trigger] ranges@[k];
                &&& x <= y <= b@.len()
                &&& b@.subrange(x as int, y as int) == ghost_words@[k]
            },
    ensures
        r is Some <==> all_values(ghost_words@),
        r matches Some(v) ==> v@ == values(ghost_words@),
{
    let ghost ws = ghost_words@;
    let mut v: Vec<usize> = Vec::new();
    let mut k: usize = 0;
    while k < ranges.len()
        invariant
            k <= ranges@.len(),
            ws == ghost_words@,
            ranges@.len() == ws.len(),
            forall|q: int|
                0 <= q < ranges@.len() ==> {
                    let (x, y) = #[trigger] ranges@[q];
                    &&& x <= y <= b@.len()
                    &&& b@.subrange(x as int, y as int) == ws[q]
                },
            forall|q: int| 0 <= q < k ==> (#[trigger] word_value(ws[q])) is Some,
            v@ == values(ws.take(k as int)),
        decreases ranges@.len() - k,
    {
        let (x, y) = ranges[k];
        match parse_word(b, x, y) {
            None => {
                proof {
                    assert(ranges@[k as int] == (x, y));
                    assert(word_value(ws[k as int]) is None);
                }
                return None;
            },
            Some(val) => {
                v.push(val);
                proof {
                    assert(values(ws.take(k + 1)) =~= values(ws.take(k as int)).push(val));
                }
            },
        }
        k += 1;
    }
    proof {
        assert(ws.take(ws.len() as int) =~= ws);
    }
    Some(v)
}

/// Reads a network from its text: `Ok((n, m, comparators))` exactly when the
/// text is well-formed, with the comparators numbered from 0; otherwise a
/// short reason.
#[verifier::rlimit(50)]
pub fn parse_network(net: &str) -> (r: Result<(usize, usize, Vec<(usize, usize)>), String>)
    ensures
        r is Ok <==> well_formed(net.spec_bytes()),
        r matches Err(e) ==> e@ == parse_error(net.spec_bytes()),
        r matches Ok((n, m, cmp)) ==> {
            &&& n == word_value(words(line(net.spec_bytes(), 0))[0])->Some_0
            &&& m == word_value(words(line(net.spec_bytes(), 0))[1])->Some_0
            &&& cmp@ == network_of(net.spec_bytes())
            &&& cmp@.len() == m
            &&& valid_network(n as int, cmp@)
        },
{
    let b = net.as_bytes();
    let ghost bs = net.spec_bytes();
    let len = b.len();
    proof {
        assert(line_start(bs, 0) == 0);
    }
    if len == 0 {
        return Err("empty input".to_owned());
    }
    let e0 = find_nl(b, 0);
    let w0 = word_ranges(b, 0, e0);
    let ghost ws0 = words(line(bs, 0));
    if w0.len() < 1 {
        return Err("missing n".to_owned());
    }
    let n = match parse_word(b, w0[0].0, w0[0].1) {
        Some(v) => v,
        None => {
            return Err("parseint failed n".to_owned());
        },
    };
    if n < 2 || n > 64 {
        return Err("invalid n".to_owned());
    }
    if w0.len() < 2 {
        return Err("missing m".to_owned());
    }
    let m = match parse_word(b, w0[1].0, w0[1].1) {
        Some(v) => v,
        None => {
            return Err("parseint failed m".to_owned());
        },
    };
    if e0 >= len || e0 + 1 >= len {
        proof {
            assert(line_start(bs, 1) == e0 + 1);
        }
        return Err("missing a".to_owned());
    }
    let s1 = e0 + 1;
    proof {
        assert(line_start(bs, 1) == s1);
    }
    let e1 = find_nl(b, s1);
    let w1 = word_ranges(b, s1, e1);
    let a = match parse_all(b, &w1, Ghost(words(line(bs, 1)))) {
        Some(v) => v,
        None => {
            return Err("parseint failed a".to_owned());
        },
    };
    if e1 >= len || e1 + 1 >= len {
        proof {
            assert(line_start(bs, 2) == e1 + 1);
        }
        return Err("missing a".to_owned());
    }
    let s2 = e1 + 1;
    proof {
        assert(line_start(bs, 2) == s2);
    }
    let e2 = find_nl(b, s2);
    let w2 = word_ranges(b, s2, e2);
    let c = match parse_all(b, &w2, Ghost(words(line(bs, 2)))) {
        Some(v) => v,
        None => {
            return Err("parseint failed b".to_owned());
        },
    };
    if a.len() != m || c.len() != m {
        return Err("invalid input".to_owned());
    }
    proof {
        assert(counts_ok(bs, n as int, m as int));
    }
    let mut k: usize = 0;
    while k < m
        invariant
            k <= m,
            a@.len() == m,
            c@.len() == m,
            bs == net.spec_bytes(),
            counts_ok(bs, n as int, m as int),
            a@ == values(words(line(bs, 1))),
            c@ == values(words(line(bs, 2))),
            forall|q: int| 0 <= q < k ==> 1 <= #[trigger] a@[q] <= n && 1 <= c@[q] <= n,
        decreases m - k,
    {
        if a[k] < 1 || a[k] > n || c[k] < 1 || c[k] > n {
            proof {
                assert(!in_range(a@, c@, n as int));
                assert(values(words(line(bs, 1)))[k as int] == a@[k as int]);
                assert(values(words(line(bs, 2)))[k as int] == c@[k as int]);
            }
            return Err("invalid input".to_owned());
        }
        k += 1;
    }
    proof {
        assert(in_range(a@, c@, n as int));
    }
    let mut cmp: Vec<(usize, usize)> = Vec::new();
    k = 0;
    while k < m
        invariant
            k <= m,
            a@.len() == m,
            c@.len() == m,
            2 <= n <= 64,
            bs == net.spec_bytes(),
            counts_ok(bs, n as int, m as int),
            words(line(bs, 0)).len() >= 2,
            a@ == values(words(line(bs, 1))),
            c@ == values(words(line(bs, 2))),
            n == word_value(words(line(bs, 0))[0])->Some_0,
            in_range(a@, c@, n as int),
            cmp@.len() == k,
            forall|q: int| 0 <= q < k ==> 1 <= #[trigger] a@[q] && a@[q] < c@[q] && c@[q] <= n,
            forall|q: int| 0 <= q < k ==> #[trigger] cmp@[q] == ((a@[q] - 1) as usize, (c@[q] - 1) as usize),
        decreases m - k,
    {
        let x = a[k];
        let y = c[k];
        if x >= y {
            proof {
                assert(values(words(line(bs, 1)))[k as int] == x);
                assert(values(words(line(bs, 2)))[k as int] == y);
            }
            return Err("invalid comparators".to_owned());
        }
        proof {
            assert(1 <= a@[k as int] <= n && 1 <= c@[k as int] <= n);
        }
        cmp.push((x - 1, y - 1));
        k += 1;
    }
    proof {
        assert(cmp@ =~= network_of(bs));
        assert forall|q: int| 0 <= q < cmp@.len() implies (#[trigger] cmp@[q]).0 < cmp@[q].1 && cmp@[q].1 < n by {
            assert(1 <= a@[q] && a@[q] < c@[q] && c@[q] <= n);
        }
    }
    Ok((n, m, cmp))
}

} // verus!
