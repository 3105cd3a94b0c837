//! Hybrid logical clock tokens `"{ms}-{counter}-{origin}"`: their text, how
//! they are read back, how they are ordered, and how the clock ticks.

use vstd::prelude::*;

use crate::text::{
    chars_of, decimal, int_literal, int_or_zero, lemma_decimal, lemma_decimal_literal, parse_i128,
    push_decimal, string_of,
};

verus! {

/// Index of the first `-` in `s` at or after `from`, or `s.len()` if there is none.
pub open spec fn dash_from(s: Seq<char>, from: int) -> int
    decreases s.len() - from,
{
    if from < 0 || from >= s.len() {
        s.len() as int
    } else if s[from] == '-' {
        from
    } else {
        dash_from(s, from + 1)
    }
}

/// The three fields of a token, split at the first two dashes as `splitn(3, '-')`
/// does: the millisecond text, the counter text and the origin.
/// A missing field is empty.
pub open spec fn hlc_fields(s: Seq<char>) -> (Seq<char>, Seq<char>, Seq<char>) {
    let i = dash_from(s, 0);
    if i >= s.len() {
        (s, Seq::empty(), Seq::empty())
    } else {
        let j = dash_from(s, i + 1);
        if j >= s.len() {
            (s.subrange(0, i), s.subrange(i + 1, s.len() as int), Seq::empty())
        } else {
            (s.subrange(0, i), s.subrange(i + 1, j), s.subrange(j + 1, s.len() as int))
        }
    }
}

/// The triple `(ms, counter, origin)` that a token denotes; a field that is
/// missing or no integer in range reads as 0.
pub open spec fn hlc_parse(s: Seq<char>) -> (int, int, Seq<char>) {
    let f = hlc_fields(s);
    (
        int_or_zero(f.0, i128::MIN as int, i128::MAX as int),
        int_or_zero(f.1, i64::MIN as int, i64::MAX as int),
        f.2,
    )
}

/// Lexicographic order on character sequences.
pub open spec fn chars_lt(a: Seq<char>, b: Seq<char>) -> bool
    decreases a.len(),
{
    if a.len() == 0 {
        b.len() > 0
    } else if b.len() == 0 {
        false
    } else if a[0] != b[0] {
        (a[0] as u32) < (b[0] as u32)
    } else {
        chars_lt(a.drop_first(), b.drop_first())
    }
}

/// `x` is later than `y` in the lexicographic order of the triple.
pub open spec fn hlc_after(x: (int, int, Seq<char>), y: (int, int, Seq<char>)) -> bool {
    x.0 > y.0 || (x.0 == y.0 && (x.1 > y.1 || (x.1 == y.1 && chars_lt(y.2, x.2))))
}

/// The token text `"{ms}-{ctr}-{origin}"`.
pub open spec fn hlc_token(ms: int, ctr: int, origin: Seq<char>) -> Seq<char> {
    decimal(ms as nat) + seq!['-'] + decimal(ctr as nat) + seq!['-'] + origin
}

/// The clock value after one tick at wall-clock time `now`, from the last
/// emitted `(ms, ctr)`.
pub open spec fn hlc_advance(last_ms: int, last_ctr: int, now: int) -> (int, int) {
    if now > last_ms {
        (now, 0)
    } else {
        (last_ms, last_ctr + 1)
    }
}

proof fn lemma_dash_from_skip(s: Seq<char>, from: int, k: int)
    requires
        0 <= from <= k <= s.len(),
        forall|j: int| from <= j < k ==> s[j] != '-',
    ensures
        dash_from(s, from) == dash_from(s, k),
    decreases k - from,
{
    if from < k {
        lemma_dash_from_skip(s, from + 1, k);
    }
}

proof fn lemma_dash_from_bounds(s: Seq<char>, from: int)
    requires
        0 <= from,
    ensures
        from <= dash_from(s, from) <= s.len() || (from > s.len() && dash_from(s, from) == s.len()),
        dash_from(s, from) < s.len() ==> s[dash_from(s, from)] == '-',
    decreases s.len() - from,
{
    if from < s.len() && s[from] != '-' {
        lemma_dash_from_bounds(s, from + 1);
    }
}

/// Reading a token back gives the clock value and the origin it was made from.
pub proof fn lemma_token_parse(ms: int, ctr: int, origin: Seq<char>)
    requires
        0 <= ms <= i64::MAX,
        0 <= ctr <= i64::MAX,
    ensures
        hlc_parse(hlc_token(ms, ctr, origin)) == (ms, ctr, origin),
{
    let a = decimal(ms as nat);
    let b = decimal(ctr as nat);
    let s = hlc_token(ms, ctr, origin);
    lemma_decimal(ms as nat);
    lemma_decimal(ctr as nat);
    lemma_decimal_literal(ms as nat);
    lemma_decimal_literal(ctr as nat);
    let i = a.len() as int;
    let j = i + 1 + b.len();
    assert(s[i] == '-');
    assert(s[j] == '-');
    assert forall|k: int| 0 <= k < i implies s[k] != '-' by {
        assert(s[k] == a[k]);
    }
    assert forall|k: int| i + 1 <= k < j implies s[k] != '-' by {
        assert(s[k] == b[k - i - 1]);
    }
    lemma_dash_from_skip(s, 0, i);
    lemma_dash_from_skip(s, i + 1, j);
    assert(s.subrange(0, i) =~= a);
    assert(s.subrange(i + 1, j) =~= b);
    assert(s.subrange(j + 1, s.len() as int) =~= origin);
}

/// A tick at `now` from `(last_ms, last_ctr)` yields a token: the counter has
/// room where the wall clock does not move past `last_ms`.
pub open spec fn hlc_ticks(last_ms: int, last_ctr: int, now: int) -> bool {
    !(now <= last_ms && last_ctr == i64::MAX)
}

/// Two successive ticks of one clock give tokens whose triples strictly increase,
/// whatever the wall clock reads and whichever origins are used.
pub proof fn lemma_hlc_monotonic(
    last_ms: int,
    last_ctr: int,
    now1: int,
    now2: int,
    origin1: Seq<char>,
    origin2: Seq<char>,
)
    requires
        0 <= last_ms <= i64::MAX,
        0 <= last_ctr <= i64::MAX,
        i64::MIN <= now1 <= i64::MAX,
        i64::MIN <= now2 <= i64::MAX,
        hlc_ticks(last_ms, last_ctr, now1),
        hlc_ticks(
            hlc_advance(last_ms, last_ctr, now1).0,
            hlc_advance(last_ms, last_ctr, now1).1,
            now2,
        ),
    ensures
        ({
            let c1 = hlc_advance(last_ms, last_ctr, now1);
            let c2 = hlc_advance(c1.0, c1.1, now2);
            hlc_after(
                hlc_parse(hlc_token(c2.0, c2.1, origin2)),
                hlc_parse(hlc_token(c1.0, c1.1, origin1)),
            )
        }),
{
    let c1 = hlc_advance(last_ms, last_ctr, now1);
    let c2 = hlc_advance(c1.0, c1.1, now2);
    lemma_token_parse(c1.0, c1.1, origin1);
    lemma_token_parse(c2.0, c2.1, origin2);
}

/// When the wall clock reads earlier than at the previous tick, the next token
/// keeps the previous millisecond and increments the counter.
pub proof fn lemma_hlc_regression(
    last_ms: int,
    last_ctr: int,
    now1: int,
    now2: int,
    origin1: Seq<char>,
    origin2: Seq<char>,
)
    requires
        0 <= last_ms <= i64::MAX,
        0 <= last_ctr <= i64::MAX,
        i64::MIN <= now2 < now1 <= i64::MAX,
        hlc_ticks(last_ms, last_ctr, now1),
        hlc_ticks(
            hlc_advance(last_ms, last_ctr, now1).0,
            hlc_advance(last_ms, last_ctr, now1).1,
            now2,
        ),
    ensures
        ({
            let c1 = hlc_advance(last_ms, last_ctr, now1);
            let c2 = hlc_advance(c1.0, c1.1, now2);
            let t1 = hlc_parse(hlc_token(c1.0, c1.1, origin1));
            let t2 = hlc_parse(hlc_token(c2.0, c2.1, origin2));
            t2.0 == t1.0 && t2.1 == t1.1 + 1
        }),
{
    let c1 = hlc_advance(last_ms, last_ctr, now1);
    let c2 = hlc_advance(c1.0, c1.1, now2);
    lemma_token_parse(c1.0, c1.1, origin1);
    lemma_token_parse(c2.0, c2.1, origin2);
}

/// Index of the first `-` in `t` at or after `from`, or `t.len()`.
fn find_dash(t: &Vec<char>, from: usize) -> (r: usize)
    requires
        from <= t.len(),
    ensures
        r == dash_from(t@, from as int),
        from <= r <= t.len(),
{
    let mut i = from;
    while i < t.len()
        invariant
            from <= i <= t.len(),
            dash_from(t@, from as int) == dash_from(t@, i as int),
        decreases t.len() - i,
    {
        if t[i] == '-' {
            return i;
        }
        i = i + 1;
    }
    i
}

/// Splits an HLC token into `(ms, counter, origin)`. A missing or malformed
/// number reads as 0, a missing origin as the empty string; dashes after the
/// second one stay in the origin.
pub fn parse_hlc(s: &str) -> (r: (i128, i64, String))
    ensures
        (r.0 as int, r.1 as int, r.2@) == hlc_parse(s@),
{
    let t = chars_of(s);
    let n = t.len();
    let i = find_dash(&t, 0);
    proof {
        lemma_dash_from_bounds(t@, 0);
    }
    let (a_lo, a_hi, b_lo, b_hi, c_lo): (usize, usize, usize, usize, usize) = if i >= n {
        (0, n, n, n, n)
    } else {
        let j = find_dash(&t, i + 1);
        if j >= n {
            (0, i, i + 1, n, n)
        } else {
            (0, i, i + 1, j, j + 1)
        }
    };
    let ms: i128 = match parse_i128(&t, a_lo, a_hi) {
        Some(v) => v,
        None => 0,
    };
    let ctr: i64 = match parse_i128(&t, b_lo, b_hi) {
        Some(v) => if v >= i64::MIN as i128 && v <= i64::MAX as i128 {
            v as i64
        } else {
            0
        },
        None => 0,
    };
    let mut rest: Vec<char> = Vec::new();
    let mut k = c_lo;
    while k < n
        invariant
            c_lo <= k <= n,
            n == t.len(),
            rest@ == t@.subrange(c_lo as int, k as int),
        decreases n - k,
    {
        rest.push(t[k]);
        assert(t@.subrange(c_lo as int, k + 1) =~= t@.subrange(c_lo as int, k as int).push(t@[k as int]));
        k = k + 1;
    }
    let origin = string_of(&rest);
    proof {
        let f = hlc_fields(t@);
        if i >= n {
            assert(t@.subrange(0, n as int) =~= t@);
            assert(t@.subrange(n as int, n as int) =~= Seq::<char>::empty());
        } else {
            let j = dash_from(t@, i + 1);
            if j >= n {
                assert(t@.subrange(n as int, n as int) =~= Seq::<char>::empty());
            }
        }
        assert(f.0 == t@.subrange(a_lo as int, a_hi as int));
        assert(f.1 == t@.subrange(b_lo as int, b_hi as int));
        assert(f.2 == rest@);
    }
    (ms, ctr, origin)
}

/// `a < b` in the lexicographic order of characters.
fn chars_less(a: &Vec<char>, b: &Vec<char>) -> (r: bool)
    ensures
        r == chars_lt(a@, b@),
{
    let mut i: usize = 0;
    assert(a@.subrange(0, a@.len() as int) =~= a@);
    assert(b@.subrange(0, b@.len() as int) =~= b@);
    while i < a.len() && i < b.len()
        invariant
            i <= a.len(),
            i <= b.len(),
            chars_lt(a@, b@) == chars_lt(
                a@.subrange(i as int, a@.len() as int),
                b@.subrange(i as int, b@.len() as int),
            ),
        decreases a.len() - i,
    {
        let x = a[i];
        let y = b[i];
        let ghost sa = a@.subrange(i as int, a@.len() as int);
        let ghost sb = b@.subrange(i as int, b@.len() as int);
        assert(sa[0] == x && sb[0] == y);
        if x != y {
            return (x as u32) < (y as u32);
        }
        assert(sa.drop_first() =~= a@.subrange(i + 1, a@.len() as int));
        assert(sb.drop_first() =~= b@.subrange(i + 1, b@.len() as int));
        i = i + 1;
    }
    let ghost sa = a@.subrange(i as int, a@.len() as int);
    let ghost sb = b@.subrange(i as int, b@.len() as int);
    assert(sa.len() == 0 || sb.len() == 0);
    i >= a.len() && i < b.len()
}

/// True iff the token `local_hlc` is strictly later than `remote_hlc`, that is,
/// the local row is newer and must not be overwritten.
pub fn should_overwrite(local_hlc: &str, remote_hlc: &str) -> (r: bool)
    ensures
        r == hlc_after(hlc_parse(local_hlc@), hlc_parse(remote_hlc@)),
{
    let (lm, lc, lo) = parse_hlc(local_hlc);
    let (rm, rc, ro) = parse_hlc(remote_hlc);
    if lm != rm {
        lm > rm
    } else if lc != rc {
        lc > rc
    } else {
        let lo_chars = chars_of(lo.as_str());
        let ro_chars = chars_of(ro.as_str());
        chars_less(&ro_chars, &lo_chars)
    }
}

/// The token text `"{ms}-{ctr}-{origin}"`.
pub fn format_hlc(ms: i64, ctr: i64, origin: &str) -> (r: String)
    requires
        ms >= 0,
        ctr >= 0,
    ensures
        r@ == hlc_token(ms as int, ctr as int, origin@),
{
    let mut out = String::new();
    push_decimal(&mut out, ms as u64);
    out.append("-");
    proof { reveal_strlit("-"); }
    push_decimal(&mut out, ctr as u64);
    out.append("-");
    out.append(origin);
    assert(out@ =~= hlc_token(ms as int, ctr as int, origin@));
    out
}

} // verus!
