use vstd::prelude::*;
use crate::experience::{Memory, Recollection};
use crate::value::ONE;

verus! {

/// The byte that ends a line.
pub const NEWLINE: u8 = 10;

/// The byte of a minus sign.
pub const MINUS: u8 = 45;

/// The byte of a decimal point.
pub const DOT: u8 = 46;

pub open spec fn is_digit(b: u8) -> bool {
    48 <= b <= 57
}

pub open spec fn all_digits(s: Seq<u8>) -> bool {
    forall|i: int| 0 <= i < s.len() ==> is_digit(#[trigger] s[i])
}

pub open spec fn has_no_newline(s: Seq<u8>) -> bool {
    forall|i: int| 0 <= i < s.len() ==> #[trigger] s[i] != NEWLINE
}

/// The decimal digits of `n`, most significant first, without leading zeros.
pub open spec fn decimal(n: nat) -> Seq<u8>
    decreases n,
{
    if n < 10 {
        seq![(48 + n) as u8]
    } else {
        decimal(n / 10).push((48 + n % 10) as u8)
    }
}

/// The number that a string of decimal digits denotes.
pub open spec fn digits_value(s: Seq<u8>) -> nat
    decreases s.len(),
{
    if s.len() == 0 {
        0
    } else {
        digits_value(s.drop_last()) * 10 + (s.last() - 48) as nat
    }
}

/// A count written in decimal: one or more digits, at most `u64::MAX`.
pub open spec fn parse_count(s: Seq<u8>) -> Option<u64> {
    if s.len() > 0 && all_digits(s) && digits_value(s) <= u64::MAX {
        Some(digits_value(s) as u64)
    } else {
        None
    }
}

/// The index of the first `b` at or after `from`, or the length.
pub open spec fn find_from(t: Seq<u8>, b: u8, from: int) -> int
    decreases t.len() - from,
{
    if from < 0 || from >= t.len() {
        t.len() as int
    } else if t[from] == b {
        from
    } else {
        find_from(t, b, from + 1)
    }
}

/// The value, in millionths, of the first six digits after the decimal
/// point, where `f` holds the digits after it; missing digits count as
/// zeros and digits beyond the sixth are dropped (rounding toward zero).
pub open spec fn fraction_units(f: Seq<u8>, k: nat) -> nat
    decreases k,
{
    if k == 0 {
        0
    } else {
        fraction_units(f, (k - 1) as nat) * 10 + if k - 1 < f.len() {
            (f[k - 1] - 48) as nat
        } else {
            0
        }
    }
}

/// The magnitude, in millionths, of an unsigned decimal number: one or
/// more digits, then optionally a point and zero or more digits.
pub open spec fn parse_magnitude(s: Seq<u8>) -> Option<nat> {
    let d = find_from(s, DOT, 0);
    let whole = s.take(d);
    let frac = if d < s.len() {
        s.skip(d + 1)
    } else {
        Seq::<u8>::empty()
    };
    if whole.len() > 0 && all_digits(whole) && all_digits(frac) {
        Some(digits_value(whole) * (ONE as nat) + fraction_units(frac, 6))
    } else {
        None
    }
}

/// A value written as a decimal number, with an optional leading minus
/// sign, read in fixed point (`0.5` is 500000); digits beyond the sixth
/// after the point are dropped. `None` where the text is no such number or
/// the value does not fit in `i64`.
pub open spec fn parse_value(s: Seq<u8>) -> Option<i64> {
    if s.len() > 0 && s[0] == MINUS {
        match parse_magnitude(s.drop_first()) {
            Some(m) => if m <= (i64::MAX as int) + 1 {
                Some((-m) as i64)
            } else {
                None
            },
            None => None,
        }
    } else {
        match parse_magnitude(s) {
            Some(m) => if m <= i64::MAX {
                Some(m as i64)
            } else {
                None
            },
            None => None,
        }
    }
}

/// The lowest `width` decimal digits of `n`, leading zeros kept.
pub open spec fn padded(n: nat, width: nat) -> Seq<u8>
    decreases width,
{
    if width == 0 {
        Seq::empty()
    } else {
        padded(n / 10, (width - 1) as nat).push((48 + n % 10) as u8)
    }
}

/// How a fixed-point value is written: its whole part, a point and six
/// digits of fraction (500000 is `0.500000`), after a minus sign if negative.
pub open spec fn signed_text(v: int) -> Seq<u8> {
    let mag = if v < 0 {
        -v
    } else {
        v
    };
    let body = decimal((mag / (ONE as int)) as nat) + seq![DOT] + padded((mag % (ONE as int)) as nat, 6);
    if v < 0 {
        seq![MINUS] + body
    } else {
        body
    }
}

/// The first index at or after `from` that holds a newline, or the length.
pub open spec fn line_end(t: Seq<u8>, from: int) -> int
    decreases t.len() - from,
{
    if from < 0 || from >= t.len() {
        t.len() as int
    } else if t[from] == NEWLINE {
        from
    } else {
        line_end(t, from + 1)
    }
}

/// The text of a recollection: the count on the first line, the average
/// value on the second.
pub open spec fn exp_text(r: Recollection) -> Seq<u8> {
    decimal(r.times_encountered as nat) + seq![NEWLINE] + signed_text(r.average_value as int)
}

/// The recollection that a text holds: a count on the first line and a value
/// on the second; anything after the second line is ignored.
pub open spec fn exp_parse(t: Seq<u8>) -> Option<Recollection> {
    let i = line_end(t, 0);
    if i >= t.len() {
        None
    } else {
        let j = line_end(t, i + 1);
        match (parse_count(t.subrange(0, i)), parse_value(t.subrange(i + 1, j))) {
            (Some(n), Some(v)) => Some(Recollection { times_encountered: n, average_value: v }),
            _ => None,
        }
    }
}

/// One entry of a snapshot: its key, then its recollection, each line ended.
pub open spec fn entry_text(e: (Seq<u8>, Recollection)) -> Seq<u8> {
    e.0 + seq![NEWLINE] + exp_text(e.1) + seq![NEWLINE]
}

/// A snapshot of a whole memory: its entries in order.
pub open spec fn snapshot_text(m: Memory) -> Seq<u8>
    decreases m.len(),
{
    if m.len() == 0 {
        Seq::empty()
    } else {
        snapshot_text(m.drop_last()) + entry_text(m.last())
    }
}

/// The entries that a snapshot holds from `pos` on: groups of three lines
/// (key, count, value), each ended by a newline.
pub open spec fn snapshot_parse_from(t: Seq<u8>, pos: int) -> Option<Memory>
    decreases t.len() - pos,
    via snapshot_parse_from_decreases
{
    if pos < 0 || pos >= t.len() {
        Some(Seq::empty())
    } else {
        let a = line_end(t, pos);
        let b = line_end(t, a + 1);
        let c = line_end(t, b + 1);
        if c >= t.len() {
            None
        } else {
            match (parse_count(t.subrange(a + 1, b)), parse_value(t.subrange(b + 1, c))) {
                (Some(n), Some(v)) => match snapshot_parse_from(t, c + 1) {
                    Some(rest) => Some(
                        seq![(t.subrange(pos, a), Recollection { times_encountered: n, average_value: v })]
                            + rest,
                    ),
                    None => None,
                },
                _ => None,
            }
        }
    }
}

#[via_fn]
proof fn snapshot_parse_from_decreases(t: Seq<u8>, pos: int) {
    if 0 <= pos < t.len() {
        lemma_line_end_bounds(t, pos);
        let a = line_end(t, pos);
        lemma_line_end_bounds(t, a + 1);
        let b = line_end(t, a + 1);
        lemma_line_end_bounds(t, b + 1);
    }
}

pub proof fn lemma_line_end_bounds(t: Seq<u8>, from: int)
    ensures
        0 <= from <= t.len() ==> from <= line_end(t, from) <= t.len(),
        line_end(t, from) <= t.len(),
        line_end(t, from) < t.len() ==> t[line_end(t, from)] == NEWLINE,
        0 <= from ==> forall|i: int| from <= i < line_end(t, from) ==> t[i] != NEWLINE,
    decreases t.len() - from,
{
    if 0 <= from < t.len() && t[from] != NEWLINE {
        lemma_line_end_bounds(t, from + 1);
    }
}

/// The end of a line whose bytes hold no newline.
pub proof fn lemma_line_end_at(t: Seq<u8>, from: int, to: int)
    requires
        0 <= from <= to < t.len(),
        t[to] == NEWLINE,
        forall|i: int| from <= i < to ==> t[i] != NEWLINE,
    ensures
        line_end(t, from) == to,
    decreases to - from,
{
    if from < to {
        lemma_line_end_at(t, from + 1, to);
    }
}

pub proof fn lemma_decimal(n: nat)
    ensures
        decimal(n).len() > 0,
        all_digits(decimal(n)),
        digits_value(decimal(n)) == n,
    decreases n,
{
    if n >= 10 {
        lemma_decimal(n / 10);
        let d = decimal(n);
        assert(d.drop_last() =~= decimal(n / 10));
        assert((n / 10) * 10 + n % 10 == n) by (nonlinear_arith);
        assert(d.last() == (48 + n % 10) as u8);
        assert(digits_value(d) == digits_value(decimal(n / 10)) * 10 + (n % 10));
    } else {
        assert(decimal(n).drop_last() =~= Seq::<u8>::empty());
        assert(digits_value(decimal(n).drop_last()) == 0);
        assert(decimal(n).last() == (48 + n) as u8);
    }
}

pub proof fn lemma_digits_no_newline(s: Seq<u8>)
    requires
        all_digits(s),
    ensures
        has_no_newline(s),
{
    assert forall|i: int| 0 <= i < s.len() implies #[trigger] s[i] != NEWLINE by {
        assert(is_digit(s[i]));
    }
}

/// A prefix of a digit string never denotes more than the whole string.
pub proof fn lemma_digits_prefix(s: Seq<u8>, i: int)
    requires
        all_digits(s),
        0 <= i <= s.len(),
    ensures
        digits_value(s.take(i)) <= digits_value(s),
    decreases s.len(),
{
    if i < s.len() {
        assert(s.take(i) =~= s.drop_last().take(i));
        assert(all_digits(s.drop_last())) by {
            assert forall|j: int| 0 <= j < s.drop_last().len() implies is_digit(
                #[trigger] s.drop_last()[j],
            ) by {
                assert(s.drop_last()[j] == s[j]);
            }
        }
        lemma_digits_prefix(s.drop_last(), i);
    } else {
        assert(s.take(i) =~= s);
    }
}

pub proof fn lemma_find_from_digits(s: Seq<u8>, b: u8, from: int, to: int)
    requires
        0 <= from <= to <= s.len(),
        forall|i: int| from <= i < to ==> s[i] != b,
        to == s.len() || s[to] == b,
    ensures
        find_from(s, b, from) == to,
    decreases to - from,
{
    if from < to {
        lemma_find_from_digits(s, b, from + 1, to);
    }
}

pub proof fn lemma_padded(n: nat, width: nat, bound: nat)
    requires
        n < bound,
        bound == pow10(width),
    ensures
        padded(n, width).len() == width,
        all_digits(padded(n, width)),
        digits_value(padded(n, width)) == n,
    decreases width,
{
    if width == 0 {
        assert(n == 0);
    } else {
        let b2 = pow10((width - 1) as nat);
        assert(n / 10 < b2) by (nonlinear_arith)
            requires n < bound, bound == 10 * b2;
        lemma_padded(n / 10, (width - 1) as nat, b2);
        let p = padded(n, width);
        assert(p.drop_last() =~= padded(n / 10, (width - 1) as nat));
        assert((n / 10) * 10 + n % 10 == n) by (nonlinear_arith);
        assert forall|i: int| 0 <= i < p.len() implies is_digit(#[trigger] p[i]) by {
            if i < p.len() - 1 {
                assert(p[i] == padded(n / 10, (width - 1) as nat)[i]);
            }
        }
    }
}

/// `10^w`.
pub open spec fn pow10(w: nat) -> nat
    decreases w,
{
    if w == 0 {
        1
    } else {
        10 * pow10((w - 1) as nat)
    }
}

pub proof fn lemma_fraction_units_digits(f: Seq<u8>, k: nat)
    requires
        k <= f.len(),
    ensures
        fraction_units(f, k) == digits_value(f.take(k as int)),
    decreases k,
{
    if k > 0 {
        lemma_fraction_units_digits(f, (k - 1) as nat);
        assert(f.take(k as int).drop_last() =~= f.take(k - 1));
    }
}

/// The magnitude part of a value's text reads back as the magnitude.
pub proof fn lemma_magnitude_text(mag: nat)
    ensures
        ({
            let body = decimal(mag / (ONE as nat)) + seq![DOT] + padded(mag % (ONE as nat), 6);
            parse_magnitude(body) == Some(mag) && all_digits_or_dot(body) && body.len() > 0
                && is_digit(body[0])
        }),
{
    let q = mag / (ONE as nat);
    let r = mag % (ONE as nat);
    let dq = decimal(q);
    let pr = padded(r, 6);
    let body = dq + seq![DOT] + pr;
    lemma_decimal(q);
    reveal_with_fuel(pow10, 7);
    assert(pow10(6) == 1_000_000);
    lemma_padded(r, 6, pow10(6));
    assert forall|i: int| 0 <= i < dq.len() implies body[i] != DOT by {
        assert(body[i] == dq[i]);
        assert(is_digit(dq[i]));
    }
    assert(body[dq.len() as int] == DOT);
    lemma_find_from_digits(body, DOT, 0, dq.len() as int);
    assert(body.take(dq.len() as int) =~= dq);
    assert(body.skip(dq.len() as int + 1) =~= pr);
    lemma_fraction_units_digits(pr, 6);
    assert(pr.take(6) =~= pr);
    assert(q * (ONE as nat) + r == mag) by (nonlinear_arith)
        requires q == mag / (ONE as nat), r == mag % (ONE as nat), ONE > 0;
    assert(is_digit(dq[0]));
    assert forall|i: int| 0 <= i < body.len() implies is_digit(#[trigger] body[i]) || body[i] == DOT by {
        if i < dq.len() {
            assert(body[i] == dq[i]);
        } else if i > dq.len() {
            assert(body[i] == pr[i - dq.len() - 1]);
        }
    }
}

/// Every byte is a digit or the decimal point.
pub open spec fn all_digits_or_dot(s: Seq<u8>) -> bool {
    forall|i: int| 0 <= i < s.len() ==> is_digit(#[trigger] s[i]) || s[i] == DOT
}

pub proof fn lemma_signed_text(v: int)
    requires
        i64::MIN <= v <= i64::MAX,
    ensures
        parse_value(signed_text(v)) == Some(v as i64),
        has_no_newline(signed_text(v)),
{
    let mag: int = if v < 0 { -v } else { v };
    lemma_magnitude_text(mag as nat);
    let body = decimal((mag / (ONE as int)) as nat) + seq![DOT] + padded((mag % (ONE as int)) as nat, 6);
    let s = signed_text(v);
    if v < 0 {
        assert(s.drop_first() =~= body);
        assert forall|i: int| 0 <= i < s.len() implies #[trigger] s[i] != NEWLINE by {
            if i > 0 {
                assert(s[i] == body[i - 1]);
                assert(is_digit(body[i - 1]) || body[i - 1] == DOT);
            }
        }
    } else {
        assert(s == body);
        assert(is_digit(body[0]));
        assert forall|i: int| 0 <= i < s.len() implies #[trigger] s[i] != NEWLINE by {
            assert(is_digit(body[i]) || body[i] == DOT);
        }
    }
}

/// A recollection's text reads back as the same recollection.
pub proof fn lemma_exp_round_trip(r: Recollection)
    ensures
        exp_parse(exp_text(r)) == Some(r),
        has_no_newline(decimal(r.times_encountered as nat)),
        has_no_newline(signed_text(r.average_value as int)),
{
    let d = decimal(r.times_encountered as nat);
    let s = signed_text(r.average_value as int);
    let t = exp_text(r);
    lemma_decimal(r.times_encountered as nat);
    lemma_digits_no_newline(d);
    lemma_signed_text(r.average_value as int);
    assert forall|i: int| 0 <= i < d.len() implies t[i] != NEWLINE by {
        assert(t[i] == d[i]);
    }
    lemma_line_end_at(t, 0, d.len() as int);
    assert(t.subrange(0, d.len() as int) =~= d);
    let rest = t.subrange(d.len() as int + 1, t.len() as int);
    assert(rest =~= s);
    lemma_line_end_no_newline_to_end(t, d.len() as int + 1);
}

/// Where no newline follows `from`, the line runs to the end.
pub proof fn lemma_line_end_no_newline_to_end(t: Seq<u8>, from: int)
    requires
        0 <= from <= t.len(),
        forall|i: int| from <= i < t.len() ==> t[i] != NEWLINE,
    ensures
        line_end(t, from) == t.len(),
    decreases t.len() - from,
{
    if from < t.len() {
        lemma_line_end_no_newline_to_end(t, from + 1);
    }
}

/// A snapshot with one more entry in front.
pub proof fn lemma_snapshot_text_prepend(e: (Seq<u8>, Recollection), m: Memory)
    ensures
        snapshot_text(seq![e] + m) == entry_text(e) + snapshot_text(m),
    decreases m.len(),
{
    if m.len() == 0 {
        assert(seq![e] + m =~= seq![e]);
        assert(seq![e].drop_last() =~= Seq::<(Seq<u8>, Recollection)>::empty());
        assert(seq![e].last() == e);
        assert(snapshot_text(seq![e].drop_last()) == Seq::<u8>::empty());
        assert(Seq::<u8>::empty() + entry_text(e) =~= entry_text(e));
        assert(snapshot_text(seq![e]) =~= entry_text(e));
    } else {
        assert((seq![e] + m).drop_last() =~= seq![e] + m.drop_last());
        lemma_snapshot_text_prepend(e, m.drop_last());
        assert(snapshot_text(seq![e] + m) =~= entry_text(e) + snapshot_text(m));
    }
}

/// Where the text at `pos` is an entry's text, reading from `pos` yields that
/// entry and then what follows it.
pub proof fn lemma_snapshot_parse_entry(t: Seq<u8>, pos: int, e: (Seq<u8>, Recollection))
    requires
        0 <= pos,
        pos + entry_text(e).len() <= t.len(),
        t.subrange(pos, pos + entry_text(e).len()) == entry_text(e),
        has_no_newline(e.0),
    ensures
        snapshot_parse_from(t, pos) == match snapshot_parse_from(t, pos + entry_text(e).len()) {
            Some(rest) => Some(seq![e] + rest),
            None => None,
        },
{
    let k = e.0;
    let d = decimal(e.1.times_encountered as nat);
    let s = signed_text(e.1.average_value as int);
    let et = entry_text(e);
    lemma_exp_round_trip(e.1);
    lemma_decimal(e.1.times_encountered as nat);
    lemma_signed_text(e.1.average_value as int);
    let a = pos + k.len();
    let b = a + 1 + d.len();
    let c = b + 1 + s.len();
    assert(et =~= k + seq![NEWLINE] + d + seq![NEWLINE] + s + seq![NEWLINE]);
    assert(c + 1 == pos + et.len());
    assert forall|i: int| pos <= i < c + 1 implies t[i] == #[trigger] et[i - pos] by {
        assert(t.subrange(pos, pos + et.len())[i - pos] == t[i]);
    }
    assert(line_end(t, pos) == a) by {
        assert forall|i: int| pos <= i < a implies t[i] != NEWLINE by {
            assert(t[i] == et[i - pos]);
            assert(et[i - pos] == k[i - pos]);
        }
        assert(t[a] == et[a - pos]);
        lemma_line_end_at(t, pos, a);
    }
    assert(line_end(t, a + 1) == b) by {
        assert forall|i: int| a + 1 <= i < b implies t[i] != NEWLINE by {
            assert(t[i] == et[i - pos]);
            assert(et[i - pos] == d[i - a - 1]);
        }
        assert(t[b] == et[b - pos]);
        lemma_line_end_at(t, a + 1, b);
    }
    assert(line_end(t, b + 1) == c) by {
        assert forall|i: int| b + 1 <= i < c implies t[i] != NEWLINE by {
            assert(t[i] == et[i - pos]);
            assert(et[i - pos] == s[i - b - 1]);
        }
        assert(t[c] == et[c - pos]);
        lemma_line_end_at(t, b + 1, c);
    }
    assert(t.subrange(pos, a) =~= k) by {
        assert forall|i: int| 0 <= i < k.len() implies t.subrange(pos, a)[i] == k[i] by {
            assert(t[pos + i] == et[i]);
        }
    }
    assert(t.subrange(a + 1, b) =~= d) by {
        assert forall|i: int| 0 <= i < d.len() implies t.subrange(a + 1, b)[i] == d[i] by {
            assert(t[a + 1 + i] == et[a + 1 + i - pos]);
        }
    }
    assert(t.subrange(b + 1, c) =~= s) by {
        assert forall|i: int| 0 <= i < s.len() implies t.subrange(b + 1, c)[i] == s[i] by {
            assert(t[b + 1 + i] == et[b + 1 + i - pos]);
        }
    }
    assert(parse_count(d) == Some(e.1.times_encountered));
}

/// Reading a snapshot placed after any prefix gives back its entries.
pub proof fn lemma_snapshot_parse_text(p: Seq<u8>, m: Memory)
    requires
        forall|i: int| 0 <= i < m.len() ==> has_no_newline(#[trigger] m[i].0),
    ensures
        snapshot_parse_from(p + snapshot_text(m), p.len() as int) == Some(m),
    decreases m.len(),
{
    let t = p + snapshot_text(m);
    if m.len() == 0 {
        assert(t.len() == p.len());
        assert(m =~= Seq::<(Seq<u8>, Recollection)>::empty());
    } else {
        let e = m[0];
        let rest = m.drop_first();
        assert(m =~= seq![e] + rest);
        lemma_snapshot_text_prepend(e, rest);
        let et = entry_text(e);
        assert(t =~= (p + et) + snapshot_text(rest));
        assert(t.subrange(p.len() as int, (p.len() + et.len()) as int) =~= et);
        assert(has_no_newline(m[0].0));
        lemma_snapshot_parse_entry(t, p.len() as int, e);
        assert forall|i: int| 0 <= i < rest.len() implies has_no_newline(#[trigger] rest[i].0) by {
            assert(rest[i] == m[i + 1]);
        }
        lemma_snapshot_parse_text(p + et, rest);
    }
}

/// Saving a memory and reading the snapshot back yields the same entries.
pub proof fn lemma_snapshot_round_trip(m: Memory)
    requires
        forall|i: int| 0 <= i < m.len() ==> has_no_newline(#[trigger] m[i].0),
    ensures
        snapshot_parse_from(snapshot_text(m), 0) == Some(m),
{
    lemma_snapshot_parse_text(Seq::empty(), m);
    assert(Seq::<u8>::empty() + snapshot_text(m) =~= snapshot_text(m));
}

/// The index of the first newline at or after `from`, or the length.
pub fn find_newline(t: &[u8], from: usize) -> (r: usize)
    requires
        from <= t@.len(),
    ensures
        r == line_end(t@, from as int),
{
    let mut i: usize = from;
    while i < t.len()
        invariant
            from <= i <= t@.len(),
            line_end(t@, from as int) == line_end(t@, i as int),
        decreases t@.len() - i,
    {
        if t[i] == NEWLINE {
            return i;
        }
        i = i + 1;
    }
    i
}

/// A copy of `t[from..to]`.
pub fn copy_range(t: &[u8], from: usize, to: usize) -> (r: Vec<u8>)
    requires
        from <= to <= t@.len(),
    ensures
        r@ == t@.subrange(from as int, to as int),
{
    let mut r: Vec<u8> = Vec::new();
    let mut i: usize = from;
    while i < to
        invariant
            from <= i <= to <= t@.len(),
            r@ == t@.subrange(from as int, i as int),
        decreases to - i,
    {
        r.push(t[i]);
        i = i + 1;
        assert(r@ =~= t@.subrange(from as int, i as int));
    }
    r
}

/// Reads the count written in `t[from..to]`.
pub fn read_count(t: &[u8], from: usize, to: usize) -> (r: Option<u64>)
    requires
        from <= to <= t@.len(),
    ensures
        r == parse_count(t@.subrange(from as int, to as int)),
{
    let ghost s = t@.subrange(from as int, to as int);
    if from == to {
        return None;
    }
    let mut acc: u64 = 0;
    let mut i: usize = from;
    while i < to
        invariant
            from <= i <= to <= t@.len(),
            s == t@.subrange(from as int, to as int),
            forall|j: int| from <= j < i ==> is_digit(#[trigger] t@[j]),
            acc == digits_value(t@.subrange(from as int, i as int)),
        decreases to - i,
    {
        let b = t[i];
        if b < 48 || b > 57 {
            assert(!is_digit(s[i - from]));
            return None;
        }
        let ghost pre = t@.subrange(from as int, i as int);
        let ghost next = t@.subrange(from as int, i + 1);
        assert(next.drop_last() =~= pre);
        let d: u64 = (b - 48) as u64;
        if acc > 1844674407370955161 || (acc == 1844674407370955161 && d > 5) {
            proof {
                assert(digits_value(next) > u64::MAX);
                if all_digits(s) {
                    assert(next =~= s.take(i + 1 - from));
                    lemma_digits_prefix(s, i + 1 - from);
                }
            }
            return None;
        }
        acc = acc * 10 + d;
        i = i + 1;
    }
    assert(t@.subrange(from as int, i as int) =~= s);
    assert(all_digits(s)) by {
        assert forall|j: int| 0 <= j < s.len() implies is_digit(#[trigger] s[j]) by {
            assert(s[j] == t@[from + j]);
        }
    }
    Some(acc)
}

pub proof fn lemma_pow10_small(k: nat)
    requires
        k <= 6,
    ensures
        pow10(k) <= 1_000_000,
{
    reveal_with_fuel(pow10, 7);
}

/// Reads the magnitude, in millionths, of the unsigned decimal number in
/// `t[from..to]`; `None` also where it exceeds `u64::MAX`.
fn read_magnitude(t: &[u8], from: usize, to: usize) -> (r: Option<u64>)
    requires
        from <= to <= t@.len(),
    ensures
        r == match parse_magnitude(t@.subrange(from as int, to as int)) {
            Some(m) => if m <= u64::MAX {
                Some(m as u64)
            } else {
                None
            },
            None => None,
        },
{
    let ghost s = t@.subrange(from as int, to as int);
    let mut d: usize = from;
    while d < to && t[d] != DOT
        invariant
            from <= d <= to <= t@.len(),
            s == t@.subrange(from as int, to as int),
            forall|i: int| from <= i < d ==> t@[i] != DOT,
        decreases to - d,
    {
        d = d + 1;
    }
    let ghost dp = d - from;
    proof {
        assert forall|i: int| 0 <= i < dp implies s[i] != DOT by {
            assert(s[i] == t@[from + i]);
        }
        if d < to {
            assert(s[dp] == t@[d as int]);
        }
        lemma_find_from_digits(s, DOT, 0, dp);
        assert(t@.subrange(from as int, d as int) =~= s.take(dp));
    }
    let fs: usize = if d < to {
        d + 1
    } else {
        to
    };
    let ghost frac = if d < to {
        s.skip(dp + 1)
    } else {
        Seq::<u8>::empty()
    };
    assert(frac =~= t@.subrange(fs as int, to as int));
    let mut i: usize = fs;
    while i < to
        invariant
            fs <= i <= to <= t@.len(),
            frac == t@.subrange(fs as int, to as int),
            s == t@.subrange(from as int, to as int),
            0 <= dp <= s.len(),
            dp == d - from,
            from <= d <= to,
            find_from(s, DOT, 0) == dp,
            frac == (if dp < s.len() {
                s.skip(dp + 1)
            } else {
                Seq::<u8>::empty()
            }),
            forall|j: int| fs <= j < i ==> is_digit(#[trigger] t@[j]),
        decreases to - i,
    {
        if t[i] < 48 || t[i] > 57 {
            assert(frac[i - fs] == t@[i as int]);
            assert(!all_digits(frac));
            return None;
        }
        i = i + 1;
    }
    assert(all_digits(frac)) by {
        assert forall|j: int| 0 <= j < frac.len() implies is_digit(#[trigger] frac[j]) by {
            assert(frac[j] == t@[fs + j]);
        }
    }
    let mut units: u64 = 0;
    let mut k: usize = 0;
    while k < 6
        invariant
            k <= 6,
            fs <= to <= t@.len(),
            frac == t@.subrange(fs as int, to as int),
            all_digits(frac),
            s == t@.subrange(from as int, to as int),
            0 <= dp <= s.len(),
            dp == d - from,
            from <= d <= to,
            find_from(s, DOT, 0) == dp,
            frac == (if dp < s.len() {
                s.skip(dp + 1)
            } else {
                Seq::<u8>::empty()
            }),
            units == fraction_units(frac, k as nat),
            units < pow10(k as nat),
        decreases 6 - k,
    {
        proof {
            lemma_pow10_small(k as nat);
        }
        let digit: u64 = if k < to - fs {
            assert(is_digit(frac[k as int]));
            assert(frac[k as int] == t@[fs + k]);
            (t[fs + k] - 48) as u64
        } else {
            0
        };
        units = units * 10 + digit;
        k = k + 1;
    }
    match read_count(t, from, d) {
        Some(n) => {
            let m: u128 = (n as u128) * 1_000_000 + (units as u128);
            if m > u64::MAX as u128 {
                None
            } else {
                Some(m as u64)
            }
        },
        None => {
            proof {
                let whole = s.take(dp);
                if whole.len() > 0 && all_digits(whole) {
                    assert(digits_value(whole) > u64::MAX);
                    assert(digits_value(whole) * (ONE as nat) >= digits_value(whole)) by (nonlinear_arith)
                        requires ONE > 0;
                }
            }
            None
        },
    }
}

/// Reads the signed value written in `t[from..to]`.
pub fn read_value(t: &[u8], from: usize, to: usize) -> (r: Option<i64>)
    requires
        from <= to <= t@.len(),
    ensures
        r == parse_value(t@.subrange(from as int, to as int)),
{
    let ghost s = t@.subrange(from as int, to as int);
    if from < to && t[from] == MINUS {
        assert(s.drop_first() =~= t@.subrange(from + 1, to as int));
        match read_magnitude(t, from + 1, to) {
            Some(n) => {
                if n <= 9223372036854775807 {
                    Some(-(n as i64))
                } else if n == 9223372036854775808 {
                    Some(i64::MIN)
                } else {
                    None
                }
            },
            None => None,
        }
    } else {
        match read_magnitude(t, from, to) {
            Some(n) => {
                if n <= 9223372036854775807 {
                    Some(n as i64)
                } else {
                    None
                }
            },
            None => None,
        }
    }
}

/// Appends the decimal digits of `n`.
pub fn push_decimal(n: u64, out: &mut Vec<u8>)
    ensures
        final(out)@ == old(out)@ + decimal(n as nat),
    decreases n,
{
    if n >= 10 {
        push_decimal(n / 10, out);
    }
    let ghost mid = out@;
    out.push((48 + n % 10) as u8);
    if n >= 10 {
        assert(out@ =~= old(out)@ + decimal(n as nat));
    } else {
        assert(out@ =~= old(out)@ + decimal(n as nat));
    }
}

/// Appends the lowest `width` decimal digits of `n`, leading zeros kept.
pub fn push_padded(n: u64, width: u32, out: &mut Vec<u8>)
    ensures
        final(out)@ == old(out)@ + padded(n as nat, width as nat),
    decreases width,
{
    if width > 0 {
        push_padded(n / 10, width - 1, out);
        out.push((48 + n % 10) as u8);
        assert(out@ =~= old(out)@ + padded(n as nat, width as nat));
    } else {
        assert(out@ =~= old(out)@ + padded(n as nat, width as nat));
    }
}

/// Appends the text of a value: its whole part, a point and six digits of
/// fraction, after a minus sign if negative.
pub fn push_signed(v: i64, out: &mut Vec<u8>)
    ensures
        final(out)@ == old(out)@ + signed_text(v as int),
{
    let mag: u64 = if v >= 0 {
        v as u64
    } else if v == i64::MIN {
        9223372036854775808
    } else {
        (-v) as u64
    };
    if v < 0 {
        out.push(MINUS);
    }
    let ghost start = out@;
    push_decimal(mag / 1_000_000, out);
    out.push(DOT);
    push_padded(mag % 1_000_000, 6, out);
    assert(out@ =~= old(out)@ + signed_text(v as int));
}

/// The text of a recollection: its count, a newline, its average value.
pub fn exp_file_text(r: &Recollection) -> (t: Vec<u8>)
    ensures
        t@ == exp_text(*r),
{
    let mut t: Vec<u8> = Vec::new();
    push_decimal(r.times_encountered, &mut t);
    t.push(NEWLINE);
    push_signed(r.average_value, &mut t);
    assert(t@ =~= exp_text(*r));
    t
}

/// Reads a recollection from its text: a count on the first line and a
/// decimal value on the second (`0.5` gives 500000; digits beyond the sixth
/// after the point are dropped). `None` where either line is missing or
/// malformed.
pub fn parse_exp_file(text: &[u8]) -> (r: Option<Recollection>)
    ensures
        r == exp_parse(text@),
{
    let i = find_newline(text, 0);
    if i >= text.len() {
        return None;
    }
    let j = find_newline(text, i + 1);
    proof {
        lemma_line_end_bounds(text@, i + 1);
    }
    let n = read_count(text, 0, i);
    let v = read_value(text, i + 1, j);
    match (n, v) {
        (Some(n), Some(v)) => Some(Recollection { times_encountered: n, average_value: v }),
        _ => None,
    }
}

} // verus!
