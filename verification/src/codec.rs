use vstd::prelude::*;
use vstd::std_specs::iter::IteratorSpec;

use crate::clock::{distinct_keys, Clock, ClockEntries};
use crate::msg::{Header, HeaderV, Msg, MsgV};

verus! {

// The wire format, one envelope per line.  Every number is a canonical
// decimal terminated by ';'; every text field is its char count followed
// by exactly that many raw chars; the payload is tagged 'P' (public) or
// 'Q' (private); the clock is an entry count followed by the entries in
// storage order.  The format is chosen for nothing but a lossless
// decode-then-encode round trip.

/// The ten digit characters, by value.
pub open spec fn digit_char(d: int) -> char {
    if d == 0 {
        '0'
    } else if d == 1 {
        '1'
    } else if d == 2 {
        '2'
    } else if d == 3 {
        '3'
    } else if d == 4 {
        '4'
    } else if d == 5 {
        '5'
    } else if d == 6 {
        '6'
    } else if d == 7 {
        '7'
    } else if d == 8 {
        '8'
    } else {
        '9'
    }
}

/// The value of a digit character; 10 marks a non-digit.
pub open spec fn digit_val(c: char) -> int {
    if c == '0' {
        0
    } else if c == '1' {
        1
    } else if c == '2' {
        2
    } else if c == '3' {
        3
    } else if c == '4' {
        4
    } else if c == '5' {
        5
    } else if c == '6' {
        6
    } else if c == '7' {
        7
    } else if c == '8' {
        8
    } else if c == '9' {
        9
    } else {
        10
    }
}

/// Whether `c` is a decimal digit.
pub open spec fn is_digit(c: char) -> bool {
    digit_val(c) < 10
}

/// The canonical decimal digits of `n`, most significant first.
pub open spec fn dec_digits(n: nat) -> Seq<char>
    decreases n,
{
    if n < 10 {
        seq![digit_char(n as int)]
    } else {
        dec_digits(n / 10) + seq![digit_char((n % 10) as int)]
    }
}

/// A number on the wire: canonical digits, then ';'.
pub open spec fn enc_num(n: u64) -> Seq<char> {
    dec_digits(n as nat) + seq![';']
}

/// A text field on the wire: its char count, then the raw chars.
pub open spec fn enc_str(t: Seq<char>) -> Seq<char> {
    enc_num(t.len() as u64) + t
}

/// A payload on the wire: tag 'P' with one field, or tag 'Q' with the
/// target peer and the text.
pub open spec fn enc_header(h: HeaderV) -> Seq<char> {
    match h {
        HeaderV::Public(t) => seq!['P'] + enc_str(t),
        HeaderV::Private(p, t) => seq!['Q'] + enc_str(p) + enc_str(t),
    }
}

/// Clock entries on the wire, in storage order.
pub open spec fn enc_entries(es: ClockEntries) -> Seq<char>
    decreases es.len(),
{
    if es.len() == 0 {
        Seq::empty()
    } else {
        enc_str(es[0].0) + enc_num(es[0].1) + enc_entries(es.skip(1))
    }
}

/// A clock on the wire: its entry count, then the entries.
pub open spec fn enc_clock(es: ClockEntries) -> Seq<char> {
    enc_num(es.len() as u64) + enc_entries(es)
}

/// A whole envelope on the wire.
pub open spec fn spec_encode(m: MsgV) -> Seq<char> {
    enc_num(m.id) + enc_str(m.sender) + enc_header(m.header) + enc_clock(m.clock)
}

/// The first position at or after `i` that does not hold a digit.
pub open spec fn digits_end(s: Seq<char>, i: int) -> int
    decreases s.len() - i,
{
    if i < 0 || i >= s.len() || !is_digit(s[i]) {
        i
    } else {
        digits_end(s, i + 1)
    }
}

/// The value of the digits of `s` between `i` and `j`.
pub open spec fn num_val(s: Seq<char>, i: int, j: int) -> int
    decreases j - i,
{
    if j <= i {
        0
    } else {
        num_val(s, i, j - 1) * 10 + digit_val(s[j - 1])
    }
}

/// A number read at `i`: its value and the position after its ';'
/// terminator.  Rejected: no digits at all, a leading zero on a
/// multi-digit number, a value that does not fit in u64, and a missing
/// terminator.
pub open spec fn parse_num(s: Seq<char>, i: int) -> Option<(u64, int)> {
    let j = digits_end(s, i);
    if j == i {
        None
    } else if s[i] == '0' && j > i + 1 {
        None
    } else if num_val(s, i, j) > u64::MAX {
        None
    } else if j >= s.len() || s[j] != ';' {
        None
    } else {
        Some((num_val(s, i, j) as u64, j + 1))
    }
}

/// A text field read at `i`: its chars and the position after them.
pub open spec fn parse_str(s: Seq<char>, i: int) -> Option<(Seq<char>, int)> {
    match parse_num(s, i) {
        None => None,
        Some((len, i2)) => if i2 + len <= s.len() {
            Some((s.subrange(i2, i2 + len), i2 + len))
        } else {
            None
        },
    }
}

/// A payload read at `i`.
pub open spec fn parse_header(s: Seq<char>, i: int) -> Option<(HeaderV, int)> {
    if i < 0 || i >= s.len() {
        None
    } else if s[i] == 'P' {
        match parse_str(s, i + 1) {
            None => None,
            Some((t, i2)) => Some((HeaderV::Public(t), i2)),
        }
    } else if s[i] == 'Q' {
        match parse_str(s, i + 1) {
            None => None,
            Some((p, i2)) => match parse_str(s, i2) {
                None => None,
                Some((t, i3)) => Some((HeaderV::Private(p, t), i3)),
            },
        }
    } else {
        None
    }
}

/// Exactly `count` clock entries read at `i`, in wire order.
pub open spec fn parse_entries(s: Seq<char>, i: int, count: nat) -> Option<(ClockEntries, int)>
    decreases count,
{
    if count == 0 {
        Some((Seq::empty(), i))
    } else {
        match parse_str(s, i) {
            None => None,
            Some((k, i2)) => match parse_num(s, i2) {
                None => None,
                Some((v, i3)) => match parse_entries(s, i3, (count - 1) as nat) {
                    None => None,
                    Some((rest, i4)) => Some((seq![(k, v)] + rest, i4)),
                },
            },
        }
    }
}

/// A clock read at `i`: its entry count, then that many entries.
pub open spec fn parse_clock(s: Seq<char>, i: int) -> Option<(ClockEntries, int)> {
    match parse_num(s, i) {
        None => None,
        Some((count, i2)) => parse_entries(s, i2, count as nat),
    }
}

/// The wire decoder: the envelope a line holds, or nothing when the line
/// is malformed, carries a duplicate clock key, or has trailing chars.
pub open spec fn spec_decode(s: Seq<char>) -> Option<MsgV> {
    match parse_num(s, 0) {
        None => None,
        Some((id, i1)) => match parse_str(s, i1) {
            None => None,
            Some((sender, i2)) => match parse_header(s, i2) {
                None => None,
                Some((h, i3)) => match parse_clock(s, i3) {
                    None => None,
                    Some((es, i4)) => if i4 == s.len() && distinct_keys(es) {
                        Some(MsgV { id, sender, header: h, clock: es })
                    } else {
                        None
                    },
                },
            },
        },
    }
}

/// Where digits run: between `i` and `digits_end(s, i)` everything is a
/// digit, and the run stops at the end of `s` or at a non-digit.
proof fn lemma_digits_end(s: Seq<char>, i: int)
    requires
        0 <= i <= s.len(),
    ensures
        i <= digits_end(s, i) <= s.len(),
        forall|m: int| i <= m < digits_end(s, i) ==> is_digit(s[m]),
        digits_end(s, i) == s.len() || !is_digit(s[digits_end(s, i)]),
    decreases s.len() - i,
{
    if i < s.len() && is_digit(s[i]) {
        lemma_digits_end(s, i + 1);
    }
}

/// Digit runs have non-negative values, at least 1 when they do not
/// start with '0'.
proof fn lemma_num_val_bounds(s: Seq<char>, i: int, e: int)
    requires
        i <= e,
        forall|m: int| i <= m < e ==> is_digit(s[m]),
    ensures
        num_val(s, i, e) >= 0,
        i < e && s[i] != '0' ==> num_val(s, i, e) >= 1,
    decreases e - i,
{
    if i < e {
        lemma_num_val_bounds(s, i, e - 1);
        let w = num_val(s, i, e - 1);
        let d = digit_val(s[e - 1]);
        assert(0 <= d <= 9);
        assert(w * 10 + d >= w) by (nonlinear_arith)
            requires
                w >= 0,
                d >= 0,
        ;
        if i < e - 1 && s[i] != '0' {
            assert(w * 10 + d >= 1) by (nonlinear_arith)
                requires
                    w >= 1,
                    d >= 0,
            ;
        }
    }
}

/// A canonical digit run is exactly the decimal writing of its value.
proof fn lemma_canonical_digits(s: Seq<char>, i: int, e: int)
    requires
        0 <= i < e <= s.len(),
        forall|m: int| i <= m < e ==> is_digit(s[m]),
        s[i] != '0' || e == i + 1,
    ensures
        num_val(s, i, e) >= 0,
        s.subrange(i, e) == dec_digits(num_val(s, i, e) as nat),
    decreases e - i,
{
    lemma_num_val_bounds(s, i, e);
    if e == i + 1 {
        let d = digit_val(s[i]);
        assert(num_val(s, i, e) == num_val(s, i, i) * 10 + d);
        assert(num_val(s, i, e) == d);
        assert(dec_digits(d as nat) == seq![digit_char(d)]);
        assert(digit_char(digit_val(s[i])) == s[i]);
        assert(s.subrange(i, e) =~= seq![s[i]]);
    } else {
        lemma_canonical_digits(s, i, e - 1);
        lemma_num_val_bounds(s, i, e - 1);
        let w = num_val(s, i, e - 1);
        let d = digit_val(s[e - 1]);
        let n = num_val(s, i, e);
        assert(n == w * 10 + d);
        assert(w >= 1);
        assert(n >= 10) by (nonlinear_arith)
            requires
                n == w * 10 + d,
                w >= 1,
                d >= 0,
        ;
        assert(n / 10 == w && n % 10 == d) by (nonlinear_arith)
            requires
                n == w * 10 + d,
                0 <= d < 10,
                w >= 0,
        ;
        assert((n as nat) / 10 == w as nat);
        assert((n as nat) % 10 == d as nat);
        assert(dec_digits(n as nat) == dec_digits(w as nat) + seq![digit_char(d)]);
        assert(digit_char(digit_val(s[e - 1])) == s[e - 1]);
        assert(s.subrange(i, e) =~= s.subrange(i, e - 1) + seq![s[e - 1]]);
    }
}

/// What a parsed number consumed is exactly that number's wire writing.
proof fn lemma_parse_num_sound(s: Seq<char>, i: int, n: u64, j: int)
    requires
        parse_num(s, i) == Some((n, j)),
    ensures
        0 <= i < j <= s.len(),
        s.subrange(i, j) == enc_num(n),
{
    if i < 0 || i > s.len() {
        assert(digits_end(s, i) == i);
    }
    lemma_digits_end(s, i);
    let e = digits_end(s, i);
    lemma_canonical_digits(s, i, e);
    assert(n as nat == num_val(s, i, e) as nat);
    assert(s[e] == ';');
    assert(s.subrange(i, j) =~= s.subrange(i, e) + seq![s[e]]);
}

/// What a parsed text field consumed is exactly that field's wire
/// writing.
proof fn lemma_parse_str_sound(s: Seq<char>, i: int, t: Seq<char>, j: int)
    requires
        parse_str(s, i) == Some((t, j)),
    ensures
        0 <= i < j <= s.len(),
        s.subrange(i, j) == enc_str(t),
{
    let p = parse_num(s, i)->Some_0;
    lemma_parse_num_sound(s, i, p.0, p.1);
    assert(t.len() as u64 == p.0);
    assert(s.subrange(i, j) =~= s.subrange(i, p.1) + s.subrange(p.1, j));
}

/// What a parsed payload consumed is exactly that payload's wire
/// writing.
proof fn lemma_parse_header_sound(s: Seq<char>, i: int, h: HeaderV, j: int)
    requires
        parse_header(s, i) == Some((h, j)),
    ensures
        0 <= i < j <= s.len(),
        s.subrange(i, j) == enc_header(h),
{
    if s[i] == 'P' {
        let p = parse_str(s, i + 1)->Some_0;
        lemma_parse_str_sound(s, i + 1, p.0, p.1);
        assert(s.subrange(i, j) =~= seq![s[i]] + s.subrange(i + 1, j));
    } else {
        let p = parse_str(s, i + 1)->Some_0;
        lemma_parse_str_sound(s, i + 1, p.0, p.1);
        let q = parse_str(s, p.1)->Some_0;
        lemma_parse_str_sound(s, p.1, q.0, q.1);
        assert(s.subrange(i, j) =~= seq![s[i]] + s.subrange(i + 1, p.1) + s.subrange(p.1, j));
    }
}

/// What a parsed entry list consumed is exactly those entries' wire
/// writing, and their number is the announced count.
proof fn lemma_parse_entries_sound(s: Seq<char>, i: int, count: nat, es: ClockEntries, j: int)
    requires
        0 <= i <= s.len(),
        parse_entries(s, i, count) == Some((es, j)),
    ensures
        i <= j <= s.len(),
        es.len() == count,
        s.subrange(i, j) == enc_entries(es),
    decreases count,
{
    if count == 0 {
        assert(s.subrange(i, i) =~= Seq::<char>::empty());
    } else {
        let p = parse_str(s, i)->Some_0;
        lemma_parse_str_sound(s, i, p.0, p.1);
        let q = parse_num(s, p.1)->Some_0;
        lemma_parse_num_sound(s, p.1, q.0, q.1);
        let r = parse_entries(s, q.1, (count - 1) as nat)->Some_0;
        lemma_parse_entries_sound(s, q.1, (count - 1) as nat, r.0, r.1);
        assert(es == seq![(p.0, q.0)] + r.0);
        assert(es[0] == (p.0, q.0));
        assert(es.skip(1) =~= r.0);
        assert(enc_entries(es) == enc_str(es[0].0) + enc_num(es[0].1) + enc_entries(es.skip(1)));
        assert(s.subrange(i, j) =~= s.subrange(i, p.1) + s.subrange(p.1, q.1) + s.subrange(
            q.1,
            j,
        ));
    }
}

/// What a parsed clock consumed is exactly that clock's wire writing.
proof fn lemma_parse_clock_sound(s: Seq<char>, i: int, es: ClockEntries, j: int)
    requires
        parse_clock(s, i) == Some((es, j)),
    ensures
        0 <= i <= j <= s.len(),
        s.subrange(i, j) == enc_clock(es),
{
    let p = parse_num(s, i)->Some_0;
    lemma_parse_num_sound(s, i, p.0, p.1);
    lemma_parse_entries_sound(s, p.1, p.0 as nat, es, j);
    assert(es.len() as u64 == p.0);
    assert(s.subrange(i, j) =~= s.subrange(i, p.1) + s.subrange(p.1, j));
}

/// The wire format is lossless through decode-then-encode: any line the
/// decoder accepts is exactly the encoding of the envelope it yields.
pub proof fn lemma_decode_encode_roundtrip(s: Seq<char>, m: MsgV)
    requires
        spec_decode(s) == Some(m),
    ensures
        spec_encode(m) == s,
{
    let a = parse_num(s, 0)->Some_0;
    lemma_parse_num_sound(s, 0, a.0, a.1);
    let b = parse_str(s, a.1)->Some_0;
    lemma_parse_str_sound(s, a.1, b.0, b.1);
    let c = parse_header(s, b.1)->Some_0;
    lemma_parse_header_sound(s, b.1, c.0, c.1);
    let d = parse_clock(s, c.1)->Some_0;
    lemma_parse_clock_sound(s, c.1, d.0, d.1);
    assert(d.1 == s.len());
    assert(spec_encode(m) =~= s.subrange(0, a.1) + s.subrange(a.1, b.1) + s.subrange(b.1, c.1)
        + s.subrange(c.1, d.1));
    assert(s =~= s.subrange(0, a.1) + s.subrange(a.1, b.1) + s.subrange(b.1, c.1) + s.subrange(
        c.1,
        d.1,
    ));
}

/// The decimal writing of `n`: at least one char, digits throughout, no
/// leading zero unless `n` is zero itself.
proof fn lemma_dec_digits_shape(n: nat)
    ensures
        dec_digits(n).len() >= 1,
        forall|k: int| 0 <= k < dec_digits(n).len() ==> is_digit(#[trigger] dec_digits(n)[k]),
        n >= 1 ==> dec_digits(n)[0] != '0',
        n == 0 ==> dec_digits(n).len() == 1,
    decreases n,
{
    if n < 10 {
        assert(is_digit(digit_char(n as int)));
        if n >= 1 {
            assert(digit_char(n as int) != '0');
        }
    } else {
        lemma_dec_digits_shape(n / 10);
        let pre = dec_digits(n / 10);
        let d = (n % 10) as int;
        assert(is_digit(digit_char(d)));
        assert(dec_digits(n) == pre + seq![digit_char(d)]);
        assert(dec_digits(n)[0] == pre[0]);
        assert forall|k: int| 0 <= k < dec_digits(n).len() implies is_digit(
            #[trigger] dec_digits(n)[k],
        ) by {
            if k < pre.len() {
                assert(dec_digits(n)[k] == pre[k]);
            } else {
                assert(dec_digits(n)[k] == digit_char(d));
            }
        }
    }
}

/// Where a digit run provably stops, `digits_end` finds exactly that
/// position.
proof fn lemma_digits_end_exact(s: Seq<char>, i: int, e: int)
    requires
        0 <= i <= e <= s.len(),
        forall|m: int| i <= m < e ==> is_digit(s[m]),
        e == s.len() || !is_digit(s[e]),
    ensures
        digits_end(s, i) == e,
    decreases e - i,
{
    if i < e {
        lemma_digits_end_exact(s, i + 1, e);
    }
}

/// Reading the decimal writing of `n` back gives `n`.
proof fn lemma_num_val_of_digits(s: Seq<char>, i: int, n: nat)
    requires
        0 <= i,
        i + dec_digits(n).len() <= s.len(),
        s.subrange(i, i + dec_digits(n).len()) == dec_digits(n),
    ensures
        num_val(s, i, i + dec_digits(n).len()) == n,
    decreases n,
{
    let dd = dec_digits(n);
    if n < 10 {
        assert(dd.len() == 1);
        assert(s.subrange(i, i + dd.len() as int)[0] == dd[0]);
        assert(s[i] == digit_char(n as int));
        assert(digit_val(digit_char(n as int)) == n);
        assert(num_val(s, i, i + 1) == num_val(s, i, i) * 10 + digit_val(s[i]));
        assert(num_val(s, i, i) == 0);
    } else {
        let pre = dec_digits(n / 10);
        let d = (n % 10) as int;
        assert(dd == pre + seq![digit_char(d)]);
        assert(s.subrange(i, i + pre.len() as int) =~= pre) by {
            assert forall|k: int| 0 <= k < pre.len() implies s.subrange(
                i,
                i + pre.len() as int,
            )[k] == pre[k] by {
                assert(s.subrange(i, i + dd.len() as int)[k] == dd[k]);
                assert(dd[k] == pre[k]);
            }
        }
        lemma_num_val_of_digits(s, i, n / 10);
        assert(s[i + dd.len() - 1] == digit_char(d)) by {
            assert(s.subrange(i, i + dd.len() as int)[dd.len() - 1] == dd[dd.len() - 1]);
        }
        assert(digit_val(digit_char(d)) == n % 10);
        assert(i + dd.len() - 1 == i + pre.len());
        assert(num_val(s, i, i + pre.len() as int) == n / 10);
        assert(num_val(s, i, i + dd.len() as int) == num_val(s, i, i + dd.len() - 1) * 10
            + digit_val(s[i + dd.len() - 1]));
        assert((n / 10) * 10 + n % 10 == n);
        assert(num_val(s, i, i + dd.len() as int) == n);
    }
}

/// A number's wire writing parses back to exactly that number.
proof fn lemma_parse_num_complete(s: Seq<char>, i: int, n: u64)
    requires
        0 <= i,
        i + enc_num(n).len() <= s.len(),
        s.subrange(i, i + enc_num(n).len()) == enc_num(n),
    ensures
        parse_num(s, i) == Some((n, i + enc_num(n).len())),
{
    let dd = dec_digits(n as nat);
    let l = enc_num(n).len() as int;
    lemma_dec_digits_shape(n as nat);
    assert forall|m: int| i <= m < i + dd.len() implies is_digit(s[m]) by {
        assert(s.subrange(i, i + l)[m - i] == enc_num(n)[m - i]);
        assert(enc_num(n)[m - i] == dd[m - i]);
    }
    assert(s[i + dd.len()] == ';') by {
        assert(s.subrange(i, i + l)[dd.len() as int] == enc_num(n)[dd.len() as int]);
    }
    assert(!is_digit(';'));
    lemma_digits_end_exact(s, i, i + dd.len() as int);
    assert(s.subrange(i, i + dd.len() as int) =~= dd) by {
        assert forall|k: int| 0 <= k < dd.len() implies s.subrange(i, i + dd.len() as int)[k]
            == dd[k] by {
            assert(s.subrange(i, i + l)[k] == enc_num(n)[k]);
            assert(enc_num(n)[k] == dd[k]);
        }
    }
    lemma_num_val_of_digits(s, i, n as nat);
    assert(s[i] == dd[0]) by {
        assert(s.subrange(i, i + l)[0] == enc_num(n)[0]);
    }
    if n == 0 {
        assert(dd.len() == 1);
    } else {
        assert(s[i] != '0');
    }
}

/// A sub-piece of a writing embedded in `s` sits at its offset.
proof fn lemma_embed(s: Seq<char>, i: int, w: Seq<char>, a: int, b: int)
    requires
        0 <= i,
        i + w.len() <= s.len(),
        s.subrange(i, i + w.len() as int) == w,
        0 <= a <= b <= w.len(),
    ensures
        s.subrange(i + a, i + b) == w.subrange(a, b),
{
    assert forall|k: int| 0 <= k < b - a implies s.subrange(i + a, i + b)[k] == w.subrange(
        a,
        b,
    )[k] by {
        assert(s.subrange(i, i + w.len() as int)[a + k] == w[a + k]);
    }
    assert(s.subrange(i + a, i + b) =~= w.subrange(a, b));
}

/// A text field's wire writing parses back to exactly that field.
proof fn lemma_parse_str_complete(s: Seq<char>, i: int, t: Seq<char>)
    requires
        0 <= i,
        t.len() <= u64::MAX,
        i + enc_str(t).len() <= s.len(),
        s.subrange(i, i + enc_str(t).len()) == enc_str(t),
    ensures
        parse_str(s, i) == Some((t, i + enc_str(t).len())),
{
    let n = t.len() as u64;
    let w = enc_str(t);
    let ln = enc_num(n).len() as int;
    let l = w.len() as int;
    lemma_embed(s, i, w, 0, ln);
    assert(w.subrange(0, ln) =~= enc_num(n));
    lemma_parse_num_complete(s, i, n);
    lemma_embed(s, i, w, ln, l);
    assert(w.subrange(ln, l) =~= t);
}

/// Whether every text field of the payload fits the wire's length
/// counter.
pub open spec fn header_encodable(h: HeaderV) -> bool {
    match h {
        HeaderV::Public(t) => t.len() <= u64::MAX,
        HeaderV::Private(p, t) => p.len() <= u64::MAX && t.len() <= u64::MAX,
    }
}

/// A payload's wire writing parses back to exactly that payload.
proof fn lemma_parse_header_complete(s: Seq<char>, i: int, h: HeaderV)
    requires
        0 <= i,
        header_encodable(h),
        i + enc_header(h).len() <= s.len(),
        s.subrange(i, i + enc_header(h).len()) == enc_header(h),
    ensures
        parse_header(s, i) == Some((h, i + enc_header(h).len())),
{
    let w = enc_header(h);
    let l = w.len() as int;
    lemma_embed(s, i, w, 0, 1);
    assert(s[i] == s.subrange(i, i + 1)[0]);
    match h {
        HeaderV::Public(t) => {
            assert(w.subrange(0, 1) =~= seq!['P']);
            assert(s[i] == 'P');
            lemma_embed(s, i, w, 1, l);
            assert(w.subrange(1, l) =~= enc_str(t));
            lemma_parse_str_complete(s, i + 1, t);
        },
        HeaderV::Private(p, t) => {
            assert(w.subrange(0, 1) =~= seq!['Q']);
            assert(s[i] == 'Q');
            let lp = enc_str(p).len() as int;
            lemma_embed(s, i, w, 1, 1 + lp);
            assert(w.subrange(1, 1 + lp) =~= enc_str(p));
            lemma_parse_str_complete(s, i + 1, p);
            lemma_embed(s, i, w, 1 + lp, l);
            assert(w.subrange(1 + lp, l) =~= enc_str(t));
            lemma_parse_str_complete(s, i + 1 + lp, t);
        },
    }
}

/// Whether every entry key fits the wire's length counter.
pub open spec fn entries_encodable(es: ClockEntries) -> bool {
    forall|k: int| 0 <= k < es.len() ==> (#[trigger] es[k]).0.len() <= u64::MAX
}

/// An entry list's wire writing parses back to exactly those entries.
proof fn lemma_parse_entries_complete(s: Seq<char>, i: int, es: ClockEntries)
    requires
        0 <= i,
        entries_encodable(es),
        i + enc_entries(es).len() <= s.len(),
        s.subrange(i, i + enc_entries(es).len()) == enc_entries(es),
    ensures
        parse_entries(s, i, es.len()) == Some((es, i + enc_entries(es).len())),
    decreases es.len(),
{
    let l = enc_entries(es).len() as int;
    if es.len() == 0 {
    } else {
        let k = es[0].0;
        let v = es[0].1;
        let lk = enc_str(k).len() as int;
        let lv = enc_num(v).len() as int;
        let tail = es.skip(1);
        let w = enc_entries(es);
        assert(w == enc_str(k) + enc_num(v) + enc_entries(tail));
        lemma_embed(s, i, w, 0, lk);
        assert(w.subrange(0, lk) =~= enc_str(k));
        lemma_parse_str_complete(s, i, k);
        lemma_embed(s, i, w, lk, lk + lv);
        assert(w.subrange(lk, lk + lv) =~= enc_num(v));
        lemma_parse_num_complete(s, i + lk, v);
        assert(entries_encodable(tail)) by {
            assert(forall|m: int| 0 <= m < tail.len() ==> #[trigger] tail[m] == es[m + 1]);
        }
        lemma_embed(s, i, w, lk + lv, l);
        assert(w.subrange(lk + lv, l) =~= enc_entries(tail));
        lemma_parse_entries_complete(s, i + lk + lv, tail);
        assert((es.len() - 1) as nat == tail.len());
        assert(seq![(k, v)] + tail =~= es);
    }
}

/// A clock's wire writing parses back to exactly that clock.
proof fn lemma_parse_clock_complete(s: Seq<char>, i: int, es: ClockEntries)
    requires
        0 <= i,
        es.len() <= u64::MAX,
        entries_encodable(es),
        i + enc_clock(es).len() <= s.len(),
        s.subrange(i, i + enc_clock(es).len()) == enc_clock(es),
    ensures
        parse_clock(s, i) == Some((es, i + enc_clock(es).len())),
{
    let n = es.len() as u64;
    let w = enc_clock(es);
    let ln = enc_num(n).len() as int;
    let l = w.len() as int;
    lemma_embed(s, i, w, 0, ln);
    assert(w.subrange(0, ln) =~= enc_num(n));
    lemma_parse_num_complete(s, i, n);
    lemma_embed(s, i, w, ln, l);
    assert(w.subrange(ln, l) =~= enc_entries(es));
    lemma_parse_entries_complete(s, i + ln, es);
}

/// Whether an envelope fits on the wire at all: distinct clock keys and
/// every length within the wire's 64-bit counters.  Every envelope built
/// from real strings and vectors satisfies the length bounds.
pub open spec fn wire_encodable(m: MsgV) -> bool {
    &&& distinct_keys(m.clock)
    &&& m.sender.len() <= u64::MAX
    &&& header_encodable(m.header)
    &&& m.clock.len() <= u64::MAX
    &&& entries_encodable(m.clock)
}

/// The wire format is complete: the encoding of any encodable envelope
/// decodes back to exactly that envelope.
pub proof fn lemma_encode_decode_roundtrip(m: MsgV)
    requires
        wire_encodable(m),
    ensures
        spec_decode(spec_encode(m)) == Some(m),
{
    let s = spec_encode(m);
    let a = enc_num(m.id).len() as int;
    let b = enc_str(m.sender).len() as int;
    let c = enc_header(m.header).len() as int;
    let d = enc_clock(m.clock).len() as int;
    assert(s.len() == a + b + c + d);
    assert(s.subrange(0, a) =~= enc_num(m.id));
    lemma_parse_num_complete(s, 0, m.id);
    assert(s.subrange(a, a + b) =~= enc_str(m.sender));
    lemma_parse_str_complete(s, a, m.sender);
    assert(s.subrange(a + b, a + b + c) =~= enc_header(m.header));
    lemma_parse_header_complete(s, a + b, m.header);
    assert(s.subrange(a + b + c, a + b + c + d) =~= enc_clock(m.clock));
    lemma_parse_clock_complete(s, a + b + c, m.clock);
    assert(spec_decode(s)->Some_0 =~= m);
}

/// The string's chars, in order, as a vector.
fn string_chars(s: &str) -> (v: Vec<char>)
    ensures
        v@ == s@,
{
    broadcast use vstd::string::next_postcondition, vstd::string::axiom_spec_iter;

    let mut it = s.chars();
    let mut v: Vec<char> = Vec::new();
    proof {
        assert(v@ + it.remaining() =~= s@);
    }
    loop
        invariant
            it.obeys_prophetic_iter_laws(),
            v@ + it.remaining() == s@,
            v@.len() <= s@.len(),
        ensures
            v@ + it.remaining() == s@,
            it.remaining().len() == 0,
        decreases s@.len() - v@.len(),
    {
        let ghost pre = v@;
        let ghost rem = it.remaining();
        match it.next() {
            Some(c) => {
                v.push(c);
                proof {
                    assert(v@ + it.remaining() =~= pre + rem);
                }
            },
            None => {
                break ;
            },
        }
    }
    proof {
        assert(v@ =~= s@);
    }
    v
}

/// Relies on String's FromIterator over char: collecting chars yields
/// the string of exactly those chars, in order.
#[verifier::external_body]
fn chars_to_string(v: &Vec<char>) -> (s: String)
    ensures
        s@ == v@,
{
    v.iter().collect()
}

/// A copy of `v` between `from` and `to`.
fn subvec(v: &Vec<char>, from: usize, to: usize) -> (r: Vec<char>)
    requires
        from <= to <= v@.len(),
    ensures
        r@ == v@.subrange(from as int, to as int),
{
    let mut r: Vec<char> = Vec::new();
    proof {
        assert(r@ =~= v@.subrange(from as int, from as int));
    }
    let mut i: usize = from;
    while i < to
        invariant
            from <= i <= to <= v@.len(),
            r@ == v@.subrange(from as int, i as int),
        decreases to - i,
    {
        r.push(v[i]);
        proof {
            assert(r@ =~= v@.subrange(from as int, (i + 1) as int));
        }
        i += 1;
    }
    r
}

/// The digit character for a value below ten.
fn char_of_digit(d: u64) -> (c: char)
    requires
        d < 10,
    ensures
        c == digit_char(d as int),
{
    if d == 0 {
        '0'
    } else if d == 1 {
        '1'
    } else if d == 2 {
        '2'
    } else if d == 3 {
        '3'
    } else if d == 4 {
        '4'
    } else if d == 5 {
        '5'
    } else if d == 6 {
        '6'
    } else if d == 7 {
        '7'
    } else if d == 8 {
        '8'
    } else {
        '9'
    }
}

/// The value of a digit character, or nothing for any other char.
fn digit_of(c: char) -> (d: Option<u64>)
    ensures
        d is Some <==> is_digit(c),
        d is Some ==> d.unwrap() == digit_val(c),
{
    match c {
        '0' => Some(0),
        '1' => Some(1),
        '2' => Some(2),
        '3' => Some(3),
        '4' => Some(4),
        '5' => Some(5),
        '6' => Some(6),
        '7' => Some(7),
        '8' => Some(8),
        '9' => Some(9),
        _ => None,
    }
}

/// Append the canonical decimal digits of `n`.
fn push_digits(out: &mut Vec<char>, n: u64)
    ensures
        final(out)@ == old(out)@ + dec_digits(n as nat),
    decreases n,
{
    if n < 10 {
        out.push(char_of_digit(n));
        proof {
            assert(out@ =~= old(out)@ + dec_digits(n as nat));
        }
    } else {
        assert(n / 10 < n);
        push_digits(out, n / 10);
        out.push(char_of_digit(n % 10));
        proof {
            assert((n as nat) / 10 == (n / 10) as nat);
            assert((n as nat) % 10 == (n % 10) as nat);
            assert(dec_digits(n as nat) == dec_digits((n as nat) / 10) + seq![
                digit_char(((n as nat) % 10) as int),
            ]);
            assert(out@ =~= old(out)@ + dec_digits(n as nat));
        }
    }
}

/// Append a number field: canonical digits, then ';'.
fn push_num(out: &mut Vec<char>, n: u64)
    ensures
        final(out)@ == old(out)@ + enc_num(n),
{
    push_digits(out, n);
    out.push(';');
    proof {
        assert(out@ =~= old(out)@ + enc_num(n));
    }
}

/// Append a text field: its char count, then its chars.
fn push_text(out: &mut Vec<char>, t: &String)
    ensures
        final(out)@ == old(out)@ + enc_str(t@),
{
    let n = t.as_str().unicode_len();
    push_num(out, n as u64);
    let mut tc = string_chars(t.as_str());
    out.append(&mut tc);
    proof {
        assert(out@ =~= old(out)@ + enc_str(t@));
    }
}

impl Msg {
    /// The envelope encoded as one wire line; decoding this line yields
    /// the envelope back.
    pub fn serialize(&self) -> (s: String)
        ensures
            s@ == spec_encode(self@),
    {
        let mut out: Vec<char> = Vec::new();
        push_num(&mut out, self.id);
        push_text(&mut out, &self.sender);
        match &self.header {
            Header::Public(t) => {
                out.push('P');
                push_text(&mut out, t);
                proof {
                    assert(out@ =~= enc_num(self.id) + enc_str(self.sender@) + enc_header(
                        self.header@,
                    ));
                }
            },
            Header::Private(p, t) => {
                out.push('Q');
                push_text(&mut out, p);
                push_text(&mut out, t);
                proof {
                    assert(out@ =~= enc_num(self.id) + enc_str(self.sender@) + enc_header(
                        self.header@,
                    ));
                }
            },
        }
        let ghost head: Seq<char> = out@;
        let ghost es: ClockEntries = self.clock@;
        let n = self.clock.len();
        push_num(&mut out, n as u64);
        let mut i: usize = 0;
        proof {
            assert(es.skip(0) =~= es);
        }
        while i < n
            invariant
                i <= n,
                n == self.clock@.len(),
                es == self.clock@,
                out@ + enc_entries(es.skip(i as int)) == head + enc_num(n as u64) + enc_entries(
                    es,
                ),
            decreases n - i,
        {
            let ghost prev: Seq<char> = out@;
            let e = self.clock.entry(i);
            push_text(&mut out, &e.0);
            push_num(&mut out, e.1);
            proof {
                assert(es.skip(i as int)[0] == es[i as int]);
                assert(es.skip(i as int).skip(1) =~= es.skip((i + 1) as int));
                assert(enc_entries(es.skip(i as int)) == enc_str(es[i as int].0) + enc_num(
                    es[i as int].1,
                ) + enc_entries(es.skip(i as int).skip(1)));
                assert(out@ + enc_entries(es.skip((i + 1) as int)) =~= prev + enc_entries(
                    es.skip(i as int),
                ));
            }
            i += 1;
        }
        proof {
            assert(es.skip(n as int) =~= Seq::<(Seq<char>, u64)>::empty());
            assert(out@ =~= spec_encode(self@));
        }
        chars_to_string(&out)
    }
}

/// A number scanned at `i`, exactly as `parse_num` reads it.
fn scan_num(v: &Vec<char>, i: usize) -> (r: Option<(u64, usize)>)
    requires
        i <= v@.len(),
    ensures
        match r {
            Some(p) => parse_num(v@, i as int) == Some((p.0, p.1 as int)) && i < p.1 <= v@.len(),
            None => parse_num(v@, i as int) is None,
        },
{
    let n = v.len();
    let mut j: usize = i;
    let mut val: u64 = 0;
    let mut over: bool = false;
    loop
        invariant
            i <= j <= n,
            n == v@.len(),
            digits_end(v@, i as int) == digits_end(v@, j as int),
            num_val(v@, i as int, j as int) >= 0,
            !over ==> val == num_val(v@, i as int, j as int) && num_val(v@, i as int, j as int)
                <= u64::MAX,
            over ==> num_val(v@, i as int, j as int) > u64::MAX,
        ensures
            i <= j <= n,
            j == digits_end(v@, i as int),
            num_val(v@, i as int, j as int) >= 0,
            !over ==> val == num_val(v@, i as int, j as int) && num_val(v@, i as int, j as int)
                <= u64::MAX,
            over ==> num_val(v@, i as int, j as int) > u64::MAX,
        decreases n - j,
    {
        if j == n {
            proof {
                assert(digits_end(v@, j as int) == j);
            }
            break ;
        }
        let c = v[j];
        match digit_of(c) {
            None => {
                proof {
                    assert(digits_end(v@, j as int) == j);
                }
                break ;
            },
            Some(d) => {
                proof {
                    assert(digits_end(v@, j as int) == digits_end(v@, (j + 1) as int));
                    assert(num_val(v@, i as int, (j + 1) as int) == num_val(
                        v@,
                        i as int,
                        j as int,
                    ) * 10 + digit_val(v@[j as int]));
                }
                if over || val > (u64::MAX - d) / 10 {
                    proof {
                        let w = num_val(v@, i as int, j as int);
                        if over {
                            assert(w * 10 + d > u64::MAX) by (nonlinear_arith)
                                requires
                                    w > u64::MAX,
                                    d >= 0,
                            ;
                        } else {
                            assert(w * 10 + d > u64::MAX) by (nonlinear_arith)
                                requires
                                    w == val,
                                    val > (u64::MAX - d) / 10,
                                    0 <= d < 10,
                                    val >= 0,
                            ;
                        }
                    }
                    over = true;
                } else {
                    proof {
                        assert(val * 10 + d <= u64::MAX) by (nonlinear_arith)
                            requires
                                val <= (u64::MAX - d) / 10,
                                0 <= d < 10,
                                val >= 0,
                        ;
                    }
                    val = val * 10 + d;
                }
                j += 1;
            },
        }
    }
    if j == i {
        return None;
    }
    if over {
        return None;
    }
    let first = v[i];
    if first == '0' && j > i + 1 {
        return None;
    }
    if j == n {
        return None;
    }
    let term = v[j];
    if term != ';' {
        return None;
    }
    Some((val, j + 1))
}

/// A text field scanned at `i`, exactly as `parse_str` reads it.
fn scan_str(v: &Vec<char>, i: usize) -> (r: Option<(String, usize)>)
    requires
        i <= v@.len(),
    ensures
        match r {
            Some(p) => parse_str(v@, i as int) == Some((p.0@, p.1 as int)) && i < p.1 <= v@.len(),
            None => parse_str(v@, i as int) is None,
        },
{
    match scan_num(v, i) {
        None => None,
        Some((len, i2)) => {
            let n = v.len();
            if len <= (n - i2) as u64 {
                let to = i2 + (len as usize);
                let sub = subvec(v, i2, to);
                let s = chars_to_string(&sub);
                Some((s, to))
            } else {
                None
            }
        },
    }
}

/// A payload scanned at `i`, exactly as `parse_header` reads it.
fn scan_header(v: &Vec<char>, i: usize) -> (r: Option<(Header, usize)>)
    requires
        i <= v@.len(),
    ensures
        match r {
            Some(p) => parse_header(v@, i as int) == Some((p.0@, p.1 as int)) && i < p.1
                <= v@.len(),
            None => parse_header(v@, i as int) is None,
        },
{
    if i == v.len() {
        return None;
    }
    let c = v[i];
    if c == 'P' {
        match scan_str(v, i + 1) {
            None => None,
            Some((t, i2)) => Some((Header::Public(t), i2)),
        }
    } else if c == 'Q' {
        match scan_str(v, i + 1) {
            None => None,
            Some((p, i2)) => match scan_str(v, i2) {
                None => None,
                Some((t, i3)) => Some((Header::Private(p, t), i3)),
            },
        }
    } else {
        None
    }
}

/// A clock scanned at `i`: `parse_clock` with the duplicate-key check
/// pulled forward.  `None` means the clock is unreadable or carries a
/// duplicate key; it never hides a well-formed clock.
fn scan_clock(v: &Vec<char>, i: usize) -> (r: Option<(Clock, usize)>)
    requires
        i <= v@.len(),
    ensures
        match r {
            Some(p) => p.0.wf() && parse_clock(v@, i as int) == Some((p.0@, p.1 as int)) && p.1
                <= v@.len(),
            None => ({
                let pc = parse_clock(v@, i as int);
                pc is Some ==> !distinct_keys(pc->Some_0.0)
            }),
        },
{
    match scan_num(v, i) {
        None => None,
        Some((count, i2)) => {
            let mut c = Clock::empty();
            let mut pos = i2;
            let mut t: u64 = 0;
            proof {
                assert(c@ + parse_entries(v@, pos as int, (count - t) as nat)->Some_0.0
                    =~= parse_entries(v@, pos as int, (count - t) as nat)->Some_0.0);
            }
            loop
                invariant
                    t <= count,
                    i2 <= pos <= v@.len(),
                    c.wf(),
                    parse_clock(v@, i as int) == (match parse_entries(
                        v@,
                        pos as int,
                        (count - t) as nat,
                    ) {
                        None => None::<(ClockEntries, int)>,
                        Some((rest, j)) => Some((c@ + rest, j)),
                    }),
                ensures
                    t == count,
                    c.wf(),
                    parse_clock(v@, i as int) == Some((c@, pos as int)),
                    pos <= v@.len(),
                decreases count - t,
            {
                if t == count {
                    proof {
                        assert(parse_entries(v@, pos as int, 0) == Some((
                            Seq::<(Seq<char>, u64)>::empty(),
                            pos as int,
                        )));
                        assert(c@ + Seq::<(Seq<char>, u64)>::empty() =~= c@);
                    }
                    break ;
                }
                let ghost rem: nat = (count - t) as nat;
                let ghost pre: ClockEntries = c@;
                match scan_str(v, pos) {
                    None => {
                        return None;
                    },
                    Some((k, p2)) => {
                        match scan_num(v, p2) {
                            None => {
                                return None;
                            },
                            Some((val, p3)) => {
                                let dup = c.get(&k);
                                proof {
                                    crate::clock::lemma_as_map_entries(c@);
                                }
                                match dup {
                                    Some(_) => {
                                        proof {
                                            let pc = parse_clock(v@, i as int);
                                            if pc is Some {
                                                let rr = parse_entries(v@, pos as int, rem);
                                                assert(rr is Some);
                                                let rest0 = rr->Some_0.0;
                                                let es = pc->Some_0.0;
                                                assert(es == pre + rest0);
                                                let rest1 = parse_entries(
                                                    v@,
                                                    p3 as int,
                                                    (rem - 1) as nat,
                                                )->Some_0.0;
                                                assert(rest0 == seq![(k@, val)] + rest1);
                                                let w = choose|w: int|
                                                    0 <= w < pre.len() && pre[w].0 == k@;
                                                assert(es[w].0 == k@);
                                                assert(es[pre.len() as int] == (k@, val));
                                                assert(!distinct_keys(es));
                                            }
                                        }
                                        return None;
                                    },
                                    None => {
                                        proof {
                                            assert(!crate::clock::has_key(c@, k@));
                                        }
                                        c.set(k, val);
                                        proof {
                                            assert(c@ == pre.push((k@, val)));
                                            assert forall|
                                                rest1: ClockEntries,
                                                j: int,
                                            |
                                                parse_entries(v@, p3 as int, (rem - 1) as nat)
                                                    == Some((rest1, j)) implies pre + (seq![
                                                (k@, val),
                                            ] + rest1) =~= c@ + rest1 by {}
                                        }
                                        pos = p3;
                                        t += 1;
                                    },
                                }
                            },
                        }
                    },
                }
            }
            Some((c, pos))
        },
    }
}

/// Why a wire line was refused: it does not hold one well-formed
/// envelope.
#[derive(Clone, Copy, Debug)]
pub struct DecodeError;

impl Msg {
    /// Decode one wire line.  `Ok` exactly on the lines the wire grammar
    /// accepts, and then with exactly the envelope the line holds; `Err`
    /// on every other line.
    pub fn from_str(line: &str) -> (r: Result<Msg, DecodeError>)
        ensures
            match r {
                Ok(m) => spec_decode(line@) == Some(m@) && m.wf(),
                Err(_) => spec_decode(line@) is None,
            },
    {
        let v = string_chars(line);
        match scan_num(&v, 0) {
            None => Err(DecodeError),
            Some((id, i1)) => match scan_str(&v, i1) {
                None => Err(DecodeError),
                Some((sender, i2)) => match scan_header(&v, i2) {
                    None => Err(DecodeError),
                    Some((header, i3)) => match scan_clock(&v, i3) {
                        None => Err(DecodeError),
                        Some((clock, i4)) => {
                            if i4 == v.len() {
                                let m = Msg { id, sender, header, clock };
                                Ok(m)
                            } else {
                                Err(DecodeError)
                            }
                        },
                    },
                },
            },
        }
    }
}

} // verus!
